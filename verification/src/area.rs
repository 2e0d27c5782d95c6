use vstd::prelude::*;

verus! {

/// An axis-aligned rectangle of chunk coordinates, `[min_x, max_x) x [min_z, max_z)`.
///
/// Chunk coordinates are produced in row-major order: the outer loop runs over
/// `z` ascending, the inner loop over `x` ascending.
#[derive(Debug, Clone, Copy)]
pub struct Area {
    pub x_range: (i32, i32),
    pub z_range: (i32, i32),
}

/// Upper bound on an area's side length in chunks, so that a side length in
/// blocks (16 per chunk) still fits in a `u32`.
pub const MAX_AREA_SIDE: i32 = 0x0FFF_FFFF;

impl Area {
    /// A well-formed area is a non-empty-ordered rectangle whose side lengths
    /// stay below `MAX_AREA_SIDE` chunks.
    pub open spec fn wf(self) -> bool {
        &&& self.x_range.0 <= self.x_range.1
        &&& self.z_range.0 <= self.z_range.1
        &&& self.x_range.1 - self.x_range.0 <= MAX_AREA_SIDE
        &&& self.z_range.1 - self.z_range.0 <= MAX_AREA_SIDE
    }

    /// Width of the area in chunks along the x axis.
    pub open spec fn spec_width_x(self) -> int {
        self.x_range.1 - self.x_range.0
    }

    /// Width of the area in chunks along the z axis.
    pub open spec fn spec_width_z(self) -> int {
        self.z_range.1 - self.z_range.0
    }

    /// The chunk coordinates of the area in traversal order: row-major,
    /// `z` ascending in the outer loop, `x` ascending in the inner loop.
    pub open spec fn spec_coords(self) -> Seq<(i32, i32)> {
        Seq::new(
            (self.spec_width_x() * self.spec_width_z()) as nat,
            |i: int|
                (
                    (self.x_range.0 + i % self.spec_width_x()) as i32,
                    (self.z_range.0 + i / self.spec_width_x()) as i32,
                ),
        )
    }

    pub fn new(min_x: i32, max_x: i32, min_z: i32, max_z: i32) -> (r: Self)
        requires
            min_x <= max_x,
            min_z <= max_z,
            max_x - min_x <= MAX_AREA_SIDE,
            max_z - min_z <= MAX_AREA_SIDE,
        ensures
            r == (Area { x_range: (min_x, max_x), z_range: (min_z, max_z) }),
            r.wf(),
    {
        Area { x_range: (min_x, max_x), z_range: (min_z, max_z) }
    }

    /// The same rectangle translated so that its minimum corner is the origin.
    pub fn to_vis_coords(&self) -> (r: Area)
        requires
            self.wf(),
        ensures
            r.x_range.0 == 0 && r.z_range.0 == 0,
            r.x_range.1 == self.spec_width_x(),
            r.z_range.1 == self.spec_width_z(),
            r.wf(),
    {
        Area {
            x_range: (0, self.x_range.1 - self.x_range.0),
            z_range: (0, self.z_range.1 - self.z_range.0),
        }
    }

    /// Width of the area in blocks along the x axis.
    pub fn block_width_x(&self) -> (r: u32)
        requires
            self.wf(),
        ensures
            r == 16 * self.spec_width_x(),
    {
        let area = self.to_vis_coords();
        area.x_range.1 as u32 * 16
    }

    /// Width of the area in blocks along the z axis.
    pub fn block_width_z(&self) -> (r: u32)
        requires
            self.wf(),
        ensures
            r == 16 * self.spec_width_z(),
    {
        let area = self.to_vis_coords();
        area.z_range.1 as u32 * 16
    }

    /// Width of the area in chunks along the x axis.
    pub fn chunk_width_x(&self) -> (r: u32)
        requires
            self.wf(),
        ensures
            r == self.spec_width_x(),
    {
        (self.x_range.1 - self.x_range.0) as u32
    }

    /// Width of the area in chunks along the z axis.
    pub fn chunk_width_z(&self) -> (r: u32)
        requires
            self.wf(),
        ensures
            r == self.spec_width_z(),
    {
        (self.z_range.1 - self.z_range.0) as u32
    }

    /// Translates a chunk coordinate inside the area to its offset from the
    /// area's minimum corner.
    pub fn get_positive_coords(&self, chunk_x: i32, chunk_z: i32) -> (r: (u32, u32))
        requires
            self.wf(),
            self.x_range.0 <= chunk_x < self.x_range.1,
            self.z_range.0 <= chunk_z < self.z_range.1,
        ensures
            r.0 == chunk_x - self.x_range.0,
            r.1 == chunk_z - self.z_range.0,
    {
        ((chunk_x - self.x_range.0) as u32, (chunk_z - self.z_range.0) as u32)
    }

    /// Materializes the traversal order of the area's chunk coordinates.
    pub fn coords(&self) -> (r: Vec<(i32, i32)>)
        requires
            self.wf(),
        ensures
            r@ == self.spec_coords(),
    {
        let w: usize = (self.x_range.1 - self.x_range.0) as usize;
        let h: usize = (self.z_range.1 - self.z_range.0) as usize;
        let mut r: Vec<(i32, i32)> = Vec::new();
        let mut zi: usize = 0;
        while zi < h
            invariant
                self.wf(),
                w == self.spec_width_x(),
                h == self.spec_width_z(),
                zi <= h,
                r@.len() == zi * w,
                forall|i: int|
                    0 <= i < r@.len() ==> r@[i] == #[trigger] self.spec_coords()[i],
            decreases h - zi,
        {
            let mut xi: usize = 0;
            while xi < w
                invariant
                    self.wf(),
                    w == self.spec_width_x(),
                    h == self.spec_width_z(),
                    zi < h,
                    xi <= w,
                    r@.len() == zi * w + xi,
                    forall|i: int|
                        0 <= i < r@.len() ==> r@[i] == #[trigger] self.spec_coords()[i],
                decreases w - xi,
            {
                let c = (self.x_range.0 + xi as i32, self.z_range.0 + zi as i32);
                proof {
                    let i = r@.len() as int;
                    assert(i == zi * w + xi);
                    assert(i / w as int == zi && i % w as int == xi) by (nonlinear_arith)
                        requires
                            i == zi * w + xi,
                            0 <= xi < w,
                            0 <= zi,
                    ;
                    assert(i < self.spec_width_x() * self.spec_width_z()) by (nonlinear_arith)
                        requires
                            i == zi * w + xi,
                            0 <= xi < w,
                            0 <= zi < h,
                            w == self.spec_width_x(),
                            h == self.spec_width_z(),
                    ;
                }
                r.push(c);
                xi += 1;
            }
            zi += 1;
            proof {
                assert(zi * w == (zi - 1) * w + w) by (nonlinear_arith);
            }
        }
        proof {
            assert(r@.len() == h * w);
            assert(h * w == self.spec_width_x() * self.spec_width_z()) by (nonlinear_arith)
                requires
                    w == self.spec_width_x(),
                    h == self.spec_width_z(),
            ;
            assert(r@ =~= self.spec_coords());
        }
        r
    }
}

} // verus!
