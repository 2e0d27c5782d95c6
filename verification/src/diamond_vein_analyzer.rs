use vstd::prelude::*;

use crate::area::Area;
use crate::chunk::{section_match, lemma_section_found, lemma_section_with_y_elem};
use crate::chunk_loader::{
    chunk_filtered, chunk_name_occ, in_section_range, lemma_ys_cover, lemma_ys_occ_bound,
    spec_voxel_at, stored_section_at, ys_name_occ, ChunkLoader,
};
use crate::chunk_section::{lemma_section_occ_decodes, section_name_occ};
use crate::raw::{lemma_raw_occ_bound, raw_name_occ};
use crate::store::store_chunk_at;
use crate::chunk_section::ChunkSectionBlock;
use crate::store::{store_contains, RegionStore};

verus! {

/// A vein stops growing at this many members; a connected cluster that would
/// exceed it is rejected outright.
pub const MAX_VEIN_SIZE: usize = 16;

/// The target voxel types: the two ore variants this analyzer treats as one.
pub open spec fn is_diamond_name(k: Seq<char>) -> bool {
    k == "minecraft:diamond_ore"@ || k == "minecraft:deepslate_diamond_ore"@
}

/// Whether the backing store holds a target voxel at this position.
pub open spec fn is_target_at(
    store: RegionStore,
    range: Option<(i8, i8)>,
    p: (i64, i32, i64),
) -> bool {
    match spec_voxel_at(store, range, p.0 as int, p.1 as int, p.2 as int) {
        Some(n) => is_diamond_name(n),
        None => false,
    }
}

/// Whether `s` names one of the target voxel types.
pub fn is_diamond(s: &str) -> (r: bool)
    ensures
        r == is_diamond_name(s@),
{
    let t: String = s.to_owned();
    let a: String = "minecraft:diamond_ore".to_owned();
    let b: String = "minecraft:deepslate_diamond_ore".to_owned();
    t == a || t == b
}

/// Lexicographic order on positions, by x, then y, then z.
pub open spec fn lex_le(a: (i64, i32, i64), b: (i64, i32, i64)) -> bool {
    ||| a.0 < b.0
    ||| (a.0 == b.0 && a.1 < b.1)
    ||| (a.0 == b.0 && a.1 == b.1 && a.2 <= b.2)
}

/// The smaller of two positions under lexicographic (x, y, z) order.
pub fn min_coord(a: (i64, i32, i64), b: (i64, i32, i64)) -> (r: (i64, i32, i64))
    ensures
        r == a || r == b,
        lex_le(r, a) && lex_le(r, b),
{
    if a.0 < b.0 {
        a
    } else if a.0 == b.0 && a.1 < b.1 {
        a
    } else if a.0 == b.0 && a.1 == b.1 && a.2 <= b.2 {
        a
    } else {
        b
    }
}

/// Whether a position list holds the given position.
pub fn contains_pos(v: &Vec<(i64, i32, i64)>, p: (i64, i32, i64)) -> (r: bool)
    ensures
        r == v@.contains(p),
{
    let mut i: usize = 0;
    while i < v.len()
        invariant
            i <= v@.len(),
            forall|j: int| 0 <= j < i ==> v@[j] != p,
        decreases v.len() - i,
    {
        if v[i].0 == p.0 && v[i].1 == p.1 && v[i].2 == p.2 {
            proof {
                assert(v@[i as int] == p);
            }
            return true;
        }
        i = i + 1;
    }
    proof {
        if v@.contains(p) {
            let j = choose|j: int| 0 <= j < v@.len() && v@[j] == p;
            assert(false);
        }
    }
    false
}

/// The count a histogram stores for an integer key; 0 where absent. The last
/// entry with the key decides, though well-formed histograms hold each key
/// at most once.
pub open spec fn ikey_count(s: Seq<(i64, u32)>, k: i64) -> u32
    decreases s.len(),
{
    if s.len() == 0 {
        0u32
    } else if s.last().0 == k {
        s.last().1
    } else {
        ikey_count(s.drop_last(), k)
    }
}

/// No two histogram entries share a key.
pub open spec fn ikeys_unique(s: Seq<(i64, u32)>) -> bool {
    forall|i: int, j: int| 0 <= i < j < s.len() ==> s[i].0 != s[j].0
}

pub proof fn lemma_ikey_found(s: Seq<(i64, u32)>, i: int)
    requires
        ikeys_unique(s),
        0 <= i < s.len(),
    ensures
        ikey_count(s, s[i].0) == s[i].1,
    decreases s.len(),
{
    if i == s.len() - 1 {
    } else {
        let d = s.drop_last();
        assert(d[i] == s[i]);
        assert(forall|p: int, q: int| 0 <= p < q < d.len() ==> d[p] == s[p] && d[q] == s[q]);
        lemma_ikey_found(d, i);
    }
}

pub proof fn lemma_ikey_absent(s: Seq<(i64, u32)>, k: i64)
    requires
        forall|i: int| 0 <= i < s.len() ==> (#[trigger] s[i]).0 != k,
    ensures
        ikey_count(s, k) == 0,
    decreases s.len(),
{
    if s.len() > 0 {
        let d = s.drop_last();
        assert(forall|i: int| 0 <= i < d.len() ==> d[i] == s[i]);
        lemma_ikey_absent(d, k);
    }
}

pub proof fn lemma_ikey_remove(s: Seq<(i64, u32)>, i: int, k: i64)
    requires
        ikeys_unique(s),
        0 <= i < s.len(),
    ensures
        ikey_count(s.remove(i), k) == if s[i].0 == k {
            0u32
        } else {
            ikey_count(s, k)
        },
    decreases s.len(),
{
    let r = s.remove(i);
    if i == s.len() - 1 {
        assert(r =~= s.drop_last());
        if s[i].0 == k {
            assert(forall|j: int| 0 <= j < r.len() ==> r[j] == s[j]);
            lemma_ikey_absent(r, k);
        }
    } else {
        let d = s.drop_last();
        assert(forall|p: int, q: int| 0 <= p < q < d.len() ==> d[p] == s[p] && d[q] == s[q]);
        assert(r.last() == s.last());
        assert(r.drop_last() =~= d.remove(i));
        lemma_ikey_remove(d, i, k);
        assert(d[i] == s[i]);
    }
}

/// Counts one more occurrence of `key` in an integer-keyed histogram,
/// creating its entry on the first occurrence; counts saturate.
pub fn bump_ikey(map: &mut Vec<(i64, u32)>, key: i64)
    requires
        ikeys_unique(old(map)@),
    ensures
        ikeys_unique(final(map)@),
        ikey_count(final(map)@, key) == crate::layers::bump(ikey_count(old(map)@, key)),
        forall|k: i64| k != key ==> ikey_count(final(map)@, k) == ikey_count(old(map)@, k),
{
    let ghost s0 = map@;
    let mut i: usize = 0;
    while i < map.len()
        invariant
            map@ == s0,
            s0 == old(map)@,
            ikeys_unique(s0),
            i <= s0.len(),
            forall|j: int| 0 <= j < i ==> (#[trigger] s0[j]).0 != key,
        decreases map.len() - i,
    {
        if map[i].0 == key {
            let (k0, c) = map.remove(i);
            let c2: u32 = if c == u32::MAX {
                c
            } else {
                c + 1
            };
            let ghost s1 = map@;
            map.push((k0, c2));
            proof {
                assert(s1 == s0.remove(i as int));
                assert(k0 == key && c == s0[i as int].1);
                lemma_ikey_found(s0, i as int);
                assert(map@.drop_last() =~= s1);
                assert forall|k: i64| k != key implies ikey_count(map@, k) == ikey_count(
                    s0,
                    k,
                ) by {
                    lemma_ikey_remove(s0, i as int, k);
                }
                assert(ikey_count(map@, key) == c2);
                assert(ikeys_unique(map@)) by {
                    assert(forall|j: int|
                        0 <= j < s1.len() ==> s1[j] == (if j < i as int {
                            s0[j]
                        } else {
                            s0[j + 1]
                        }));
                }
            }
            return ;
        }
        i = i + 1;
    }
    let ghost s0b = map@;
    map.push((key, 1));
    proof {
        assert(map@.drop_last() =~= s0b);
        lemma_ikey_absent(s0b, key);
        assert(ikeys_unique(map@)) by {
            assert(forall|j: int| 0 <= j < s0b.len() ==> map@[j] == s0b[j]);
        }
    }
}


/// The count a histogram stores for a (size, height) cell; 0 where absent.
pub open spec fn pkey_count(s: Seq<((i64, i64), u32)>, k: (i64, i64)) -> u32
    decreases s.len(),
{
    if s.len() == 0 {
        0u32
    } else if s.last().0 == k {
        s.last().1
    } else {
        pkey_count(s.drop_last(), k)
    }
}

/// No two histogram entries share a cell.
pub open spec fn pkeys_unique(s: Seq<((i64, i64), u32)>) -> bool {
    forall|i: int, j: int| 0 <= i < j < s.len() ==> s[i].0 != s[j].0
}

pub proof fn lemma_pkey_found(s: Seq<((i64, i64), u32)>, i: int)
    requires
        pkeys_unique(s),
        0 <= i < s.len(),
    ensures
        pkey_count(s, s[i].0) == s[i].1,
    decreases s.len(),
{
    if i == s.len() - 1 {
    } else {
        let d = s.drop_last();
        assert(d[i] == s[i]);
        assert(forall|p: int, q: int| 0 <= p < q < d.len() ==> d[p] == s[p] && d[q] == s[q]);
        lemma_pkey_found(d, i);
    }
}

pub proof fn lemma_pkey_absent(s: Seq<((i64, i64), u32)>, k: (i64, i64))
    requires
        forall|i: int| 0 <= i < s.len() ==> (#[trigger] s[i]).0 != k,
    ensures
        pkey_count(s, k) == 0,
    decreases s.len(),
{
    if s.len() > 0 {
        let d = s.drop_last();
        assert(forall|i: int| 0 <= i < d.len() ==> d[i] == s[i]);
        lemma_pkey_absent(d, k);
    }
}

pub proof fn lemma_pkey_remove(s: Seq<((i64, i64), u32)>, i: int, k: (i64, i64))
    requires
        pkeys_unique(s),
        0 <= i < s.len(),
    ensures
        pkey_count(s.remove(i), k) == if s[i].0 == k {
            0u32
        } else {
            pkey_count(s, k)
        },
    decreases s.len(),
{
    let r = s.remove(i);
    if i == s.len() - 1 {
        assert(r =~= s.drop_last());
        if s[i].0 == k {
            assert(forall|j: int| 0 <= j < r.len() ==> r[j] == s[j]);
            lemma_pkey_absent(r, k);
        }
    } else {
        let d = s.drop_last();
        assert(forall|p: int, q: int| 0 <= p < q < d.len() ==> d[p] == s[p] && d[q] == s[q]);
        assert(r.last() == s.last());
        assert(r.drop_last() =~= d.remove(i));
        lemma_pkey_remove(d, i, k);
        assert(d[i] == s[i]);
    }
}

/// Counts one more vein into a (size, height) cell, creating the cell on its
/// first occurrence; counts saturate.
pub fn bump_pkey(map: &mut Vec<((i64, i64), u32)>, key: (i64, i64))
    requires
        pkeys_unique(old(map)@),
    ensures
        pkeys_unique(final(map)@),
        pkey_count(final(map)@, key) == crate::layers::bump(pkey_count(old(map)@, key)),
        forall|k: (i64, i64)|
            k != key ==> pkey_count(final(map)@, k) == pkey_count(old(map)@, k),
{
    let ghost s0 = map@;
    let mut i: usize = 0;
    while i < map.len()
        invariant
            map@ == s0,
            s0 == old(map)@,
            pkeys_unique(s0),
            i <= s0.len(),
            forall|j: int| 0 <= j < i ==> (#[trigger] s0[j]).0 != key,
        decreases map.len() - i,
    {
        if map[i].0.0 == key.0 && map[i].0.1 == key.1 {
            proof {
                assert(s0[i as int].0 == key);
            }
            let (k0, c) = map.remove(i);
            let c2: u32 = if c == u32::MAX {
                c
            } else {
                c + 1
            };
            let ghost s1 = map@;
            map.push((k0, c2));
            proof {
                assert(s1 == s0.remove(i as int));
                assert(k0 == key && c == s0[i as int].1);
                lemma_pkey_found(s0, i as int);
                assert(map@.drop_last() =~= s1);
                assert forall|k: (i64, i64)| k != key implies pkey_count(map@, k) == pkey_count(
                    s0,
                    k,
                ) by {
                    lemma_pkey_remove(s0, i as int, k);
                }
                assert(pkey_count(map@, key) == c2);
                assert(pkeys_unique(map@)) by {
                    assert(forall|j: int|
                        0 <= j < s1.len() ==> s1[j] == (if j < i as int {
                            s0[j]
                        } else {
                            s0[j + 1]
                        }));
                }
            }
            return ;
        }
        i = i + 1;
    }
    let ghost s0b = map@;
    map.push((key, 1));
    proof {
        assert(map@.drop_last() =~= s0b);
        lemma_pkey_absent(s0b, key);
        assert(pkeys_unique(map@)) by {
            assert(forall|j: int| 0 <= j < s0b.len() ==> map@[j] == s0b[j]);
        }
    }
}

/// Strict lexicographic order on histogram cells, by height then size, the
/// order the rendered table wants its rows and columns in.
pub open spec fn pkey_lt(a: (i64, i64), b: (i64, i64)) -> bool {
    a.1 < b.1 || (a.1 == b.1 && a.0 < b.0)
}

/// The cells of the vein histogram ordered by ascending height, then size;
/// each entry carries the count its cell stores.
pub fn sort_pkey_asc(map: &Vec<((i64, i64), u32)>) -> (r: Vec<((i64, i64), u32)>)
    requires
        pkeys_unique(map@),
    ensures
        r@.len() == map@.len(),
        forall|a: int, b: int|
            0 <= a < b < r@.len() ==> pkey_lt(r@[a].0, r@[b].0) || r@[a].0 == r@[b].0,
        forall|a: int|
            0 <= a < r@.len() ==> pkey_count(map@, (#[trigger] r@[a]).0) == r@[a].1,
{
    let mut r: Vec<((i64, i64), u32)> = Vec::new();
    let mut i: usize = 0;
    while i < map.len()
        invariant
            pkeys_unique(map@),
            i <= map@.len(),
            r@.len() == i,
            forall|a: int, b: int|
                0 <= a < b < r@.len() ==> pkey_lt(r@[a].0, r@[b].0) || r@[a].0 == r@[b].0,
            forall|a: int|
                0 <= a < r@.len() ==> pkey_count(map@, (#[trigger] r@[a]).0) == r@[a].1,
        decreases map.len() - i,
    {
        let entry = (map[i].0, map[i].1);
        proof {
            assert(entry == map@[i as int]);
            lemma_pkey_found(map@, i as int);
        }
        let ghost r0 = r@;
        let mut p: usize = 0;
        while p < r.len() && (r[p].0.1 < entry.0.1 || (r[p].0.1 == entry.0.1 && r[p].0.0
            < entry.0.0))
            invariant
                p <= r@.len(),
                r@ == r0,
                forall|a: int| 0 <= a < p ==> pkey_lt(r@[a].0, entry.0),
            decreases r.len() - p,
        {
            p = p + 1;
        }
        r.insert(p, entry);
        proof {
            assert forall|a: int, b: int|
                0 <= a < b < r@.len() implies pkey_lt(r@[a].0, r@[b].0) || r@[a].0
                == r@[b].0 by {
                if b < p as int {
                } else if a < p as int && b == p as int {
                } else if a < p as int {
                    assert(r@[b] == r0[b - 1]);
                } else if a == p as int {
                    assert(r@[b] == r0[b - 1]);
                    assert(!pkey_lt(r0[p as int].0, entry.0));
                    if b - 1 > p as int {
                        assert(pkey_lt(r0[p as int].0, r0[b - 1].0) || r0[p as int].0 == r0[b
                            - 1].0);
                    }
                } else {
                    assert(r@[a] == r0[a - 1] && r@[b] == r0[b - 1]);
                }
            }
            assert forall|a: int|
                0 <= a < r@.len() implies pkey_count(map@, (#[trigger] r@[a]).0) == r@[a].1 by {
                if a == p as int {
                } else {
                    let a0: int = if a < p as int {
                        a
                    } else {
                        a - 1
                    };
                    assert(r@[a] == r0[a0]);
                }
            }
        }
        i = i + 1;
    }
    r
}

/// The entries of an integer-keyed histogram ordered by ascending key;
/// each entry carries the count the histogram stores for its key.
pub fn sort_ikey_asc(map: &Vec<(i64, u32)>) -> (r: Vec<(i64, u32)>)
    requires
        ikeys_unique(map@),
    ensures
        r@.len() == map@.len(),
        forall|a: int, b: int| 0 <= a < b < r@.len() ==> r@[a].0 <= r@[b].0,
        forall|a: int|
            0 <= a < r@.len() ==> ikey_count(map@, (#[trigger] r@[a]).0) == r@[a].1,
{
    let mut r: Vec<(i64, u32)> = Vec::new();
    let mut i: usize = 0;
    while i < map.len()
        invariant
            ikeys_unique(map@),
            i <= map@.len(),
            r@.len() == i,
            forall|a: int, b: int| 0 <= a < b < r@.len() ==> r@[a].0 <= r@[b].0,
            forall|a: int|
                0 <= a < r@.len() ==> ikey_count(map@, (#[trigger] r@[a]).0) == r@[a].1,
        decreases map.len() - i,
    {
        let entry = (map[i].0, map[i].1);
        proof {
            assert(entry == map@[i as int]);
            lemma_ikey_found(map@, i as int);
        }
        let ghost r0 = r@;
        let mut p: usize = 0;
        while p < r.len() && r[p].0 < entry.0
            invariant
                p <= r@.len(),
                r@ == r0,
                forall|a: int| 0 <= a < p ==> r@[a].0 < entry.0,
            decreases r.len() - p,
        {
            p = p + 1;
        }
        r.insert(p, entry);
        proof {
            assert forall|a: int, b: int| 0 <= a < b < r@.len() implies r@[a].0 <= r@[b].0 by {
                if b < p as int {
                } else if a < p as int && b == p as int {
                } else if a < p as int {
                    assert(r@[b] == r0[b - 1]);
                } else if a == p as int {
                    assert(r@[b] == r0[b - 1]);
                    assert(!(r0[p as int].0 < entry.0));
                    if b - 1 > p as int {
                        assert(r0[p as int].0 <= r0[b - 1].0);
                    }
                } else {
                    assert(r@[a] == r0[a - 1] && r@[b] == r0[b - 1]);
                }
            }
            assert forall|a: int|
                0 <= a < r@.len() implies ikey_count(map@, (#[trigger] r@[a]).0) == r@[a].1 by {
                if a == p as int {
                } else {
                    let a0: int = if a < p as int {
                        a
                    } else {
                        a - 1
                    };
                    assert(r@[a] == r0[a0]);
                }
            }
        }
        i = i + 1;
    }
    r
}

/// A connected set of target voxels under discovery, with the smallest
/// member position under lexicographic order as its location.
pub struct Vein {
    pub blocks: Vec<(i64, i32, i64)>,
    pub location: (i64, i32, i64),
}

impl Vein {
    /// Members are unique and within the size cap, and a non-empty vein's
    /// location is its lexicographically smallest member.
    pub open spec fn wf(self) -> bool {
        &&& forall|p: int, q: int|
            0 <= p < q < self.blocks@.len() ==> self.blocks@[p] != self.blocks@[q]
        &&& self.blocks@.len() <= MAX_VEIN_SIZE
        &&& self.blocks@.len() > 0 ==> self.blocks@.contains(self.location) && forall|i: int|
            0 <= i < self.blocks@.len() ==> lex_le(self.location, #[trigger] self.blocks@[i])
    }
}

/// A grayscale raster with one pixel per chunk of the scanned area; darker
/// means more target voxels found in that chunk.
pub struct DensityGrid {
    pub width: u32,
    pub height: u32,
    pub pixels: Vec<u8>,
}

/// Brightness of one chunk's pixel: full white for no finds, 16 steps darker
/// per find, black from 16 finds on.
pub open spec fn spec_brightness(c: u32) -> u8 {
    if c >= 16 {
        0u8
    } else {
        (255 - c * 16) as u8
    }
}

impl DensityGrid {
    pub open spec fn wf(self) -> bool {
        self.pixels@.len() == self.width * self.height
    }

    /// A fresh all-white grid.
    pub fn new(width: u32, height: u32) -> (r: DensityGrid)
        requires
            width * height <= 0xFFFF_FFFFu32,
        ensures
            r.wf(),
            r.width == width && r.height == height,
            forall|i: int| 0 <= i < r.pixels@.len() ==> r.pixels@[i] == 255u8,
    {
        let total = (width as u64 * height as u64) as usize;
        proof {
            assert(width as u64 * height as u64 == width * height);
        }
        let mut pixels: Vec<u8> = Vec::new();
        let mut i: usize = 0;
        while i < total
            invariant
                i <= total,
                pixels@.len() == i,
                forall|j: int| 0 <= j < i ==> pixels@[j] == 255u8,
            decreases total - i,
        {
            pixels.push(255);
            i = i + 1;
        }
        DensityGrid { width, height, pixels }
    }

    /// Overwrites the pixel at `(x, y)`.
    pub fn set_pixel(&mut self, x: u32, y: u32, v: u8)
        requires
            old(self).wf(),
            x < old(self).width,
            y < old(self).height,
        ensures
            final(self).wf(),
            final(self).width == old(self).width && final(self).height == old(self).height,
            final(self).pixels@ == old(self).pixels@.update(
                y * old(self).width + x,
                v,
            ),
    {
        let ghost p0 = self.pixels@;
        let n = self.pixels.len();
        proof {
            assert(y * self.width + x < self.width * self.height) by (nonlinear_arith)
                requires
                    x < self.width,
                    y < self.height,
            ;
            assert((y as u64) * (self.width as u64) + (x as u64) < n as u64);
        }
        let idx = (y as u64 * self.width as u64 + x as u64) as usize;
        proof {
            assert(idx == y * self.width + x);
        }
        self.pixels.remove(idx);
        self.pixels.insert(idx, v);
        proof {
            assert(self.pixels@ =~= p0.update(idx as int, v));
        }
    }
}

/// Every block position whose x and z lie within `rad` of `(x, z)` has its
/// owning chunk in the store: what a flood fill starting near `(x, z)` may
/// probe.
pub open spec fn ball_covered(store: RegionStore, x: int, z: int, rad: int) -> bool {
    forall|qx: int, qz: int|
        x - rad <= qx <= x + rad && z - rad <= qz <= z + rad ==> #[trigger] store_contains(
            store.entries@,
            qx / 16,
            qz / 16,
        )
}

/// The store covers one chunk plus the 17-block margin a flood fill seeded
/// inside it can reach.
pub open spec fn chunk_margin_covered(store: RegionStore, cx: int, cz: int) -> bool {
    forall|qx: int, qz: int|
        16 * cx - 17 <= qx <= 16 * cx + 32 && 16 * cz - 17 <= qz <= 16 * cz + 32
            ==> #[trigger] store_contains(store.entries@, qx / 16, qz / 16)
}

/// The store covers every chunk of the list with its flood-fill margin.
pub open spec fn area_margin_covered(store: RegionStore, coords: Seq<(i32, i32)>) -> bool {
    forall|i: int|
        0 <= i < coords.len() ==> chunk_margin_covered(
            store,
            (#[trigger] coords[i]).0 as int,
            coords[i].1 as int,
        )
}


/// The 26-neighbourhood of a position, including the position itself, as
/// the flood fill walks it.
pub open spec fn adjacent(a: (i64, i32, i64), b: (i64, i32, i64)) -> bool {
    &&& -1 <= b.0 - a.0 <= 1
    &&& -1 <= b.1 - a.1 <= 1
    &&& -1 <= b.2 - a.2 <= 1
}

/// Which of the 27 neighbour offsets leads from `a` to `b`; meaningful for
/// adjacent positions, where it lies in `0..27`.
pub open spec fn offset_index(a: (i64, i32, i64), b: (i64, i32, i64)) -> int {
    (b.0 - a.0 + 1) * 9 + (b.1 - a.1 + 1) * 3 + (b.2 - a.2 + 1)
}

/// `b` hides no connected find: every neighbour of `b` that is a target and
/// not already recorded is in `blocks` too.
pub open spec fn closed_under_neighbors(
    store: RegionStore,
    range: Option<(i8, i8)>,
    found: Seq<(i64, i32, i64)>,
    blocks: Seq<(i64, i32, i64)>,
    b: (i64, i32, i64),
) -> bool {
    forall|q: (i64, i32, i64)|
        adjacent(b, q) && is_target_at(store, range, q) && !found.contains(q)
            ==> blocks.contains(q)
}

/// A flood-fill path: consecutive positions adjacent, every position a
/// target that the de-duplication set does not hold.
pub open spec fn is_target_path(
    store: RegionStore,
    range: Option<(i8, i8)>,
    found: Seq<(i64, i32, i64)>,
    path: Seq<(i64, i32, i64)>,
) -> bool {
    &&& path.len() >= 1
    &&& forall|i: int|
        0 <= i < path.len() ==> is_target_at(store, range, #[trigger] path[i])
            && !found.contains(path[i])
    &&& forall|i: int| 0 <= i < path.len() - 1 ==> adjacent(#[trigger] path[i], path[i + 1])
}

/// A member list that is closed under target neighbours swallows every
/// flood-fill path that starts inside it: connected finds cannot stop short.
pub proof fn lemma_closure_covers_path(
    store: RegionStore,
    range: Option<(i8, i8)>,
    found: Seq<(i64, i32, i64)>,
    blocks: Seq<(i64, i32, i64)>,
    path: Seq<(i64, i32, i64)>,
)
    requires
        is_target_path(store, range, found, path),
        blocks.contains(path[0]),
        forall|i: int|
            0 <= i < blocks.len() ==> closed_under_neighbors(
                store,
                range,
                found,
                blocks,
                #[trigger] blocks[i],
            ),
    ensures
        blocks.contains(path.last()),
    decreases path.len(),
{
    if path.len() == 1 {
        assert(path.last() == path[0]);
    } else {
        let i = choose|i: int| 0 <= i < blocks.len() && blocks[i] == path[0];
        assert(closed_under_neighbors(store, range, found, blocks, blocks[i]));
        assert(adjacent(path[0], path[1]));
        assert(blocks.contains(path[1]));
        let rest = path.drop_first();
        assert(rest[0] == path[1]);
        assert(rest.last() == path.last());
        assert(is_target_path(store, range, found, rest)) by {
            assert(forall|j: int| 0 <= j < rest.len() ==> rest[j] == path[j + 1]);
        }
        lemma_closure_covers_path(store, range, found, blocks, rest);
    }
}

/// Distinct values that all occur in a list are no more numerous than the
/// list's entries.
pub proof fn lemma_distinct_fit(sub: Seq<(i64, i32, i64)>, sup: Seq<(i64, i32, i64)>)
    requires
        forall|p: int, q: int| 0 <= p < q < sub.len() ==> sub[p] != sub[q],
        forall|i: int| 0 <= i < sub.len() ==> sup.contains(#[trigger] sub[i]),
    ensures
        sub.len() <= sup.len(),
    decreases sub.len(),
{
    if sub.len() > 0 {
        let last = sub.last();
        let idx = choose|idx: int| 0 <= idx < sup.len() && sup[idx] == last;
        let sup2 = sup.remove(idx);
        let sub2 = sub.drop_last();
        assert(forall|p: int, q: int|
            0 <= p < q < sub2.len() ==> sub2[p] == sub[p] && sub2[q] == sub[q]);
        assert forall|i: int| 0 <= i < sub2.len() implies sup2.contains(#[trigger] sub2[i]) by {
            assert(sub2[i] == sub[i]);
            assert(sub[i] != last);
            let j = choose|j: int| 0 <= j < sup.len() && sup[j] == sub[i];
            assert(j != idx);
            if j < idx {
                assert(sup2[j] == sub[i]);
            } else {
                assert(sup2[j - 1] == sub[i]);
            }
        }
        lemma_distinct_fit(sub2, sup2);
    }
}


/// Whether a flood-fill path leads from `a` to `b`: `b` is part of the
/// connected component of unrecorded targets that `a` belongs to.
pub open spec fn reaches(
    store: RegionStore,
    range: Option<(i8, i8)>,
    found: Seq<(i64, i32, i64)>,
    a: (i64, i32, i64),
    b: (i64, i32, i64),
) -> bool {
    exists|path: Seq<(i64, i32, i64)>|
        is_target_path(store, range, found, path) && path[0] == a && path.last() == b
}

pub proof fn lemma_reaches_self(
    store: RegionStore,
    range: Option<(i8, i8)>,
    found: Seq<(i64, i32, i64)>,
    a: (i64, i32, i64),
)
    requires
        is_target_at(store, range, a),
        !found.contains(a),
    ensures
        reaches(store, range, found, a, a),
{
    let path = seq![a];
    assert(is_target_path(store, range, found, path)) by {
        assert(path[0] == a);
    }
    assert(path.last() == a);
}

/// A step prepended to a path still reaches its end.
pub proof fn lemma_reaches_step(
    store: RegionStore,
    range: Option<(i8, i8)>,
    found: Seq<(i64, i32, i64)>,
    a: (i64, i32, i64),
    b: (i64, i32, i64),
    c: (i64, i32, i64),
)
    requires
        is_target_at(store, range, a),
        !found.contains(a),
        adjacent(a, b),
        reaches(store, range, found, b, c),
    ensures
        reaches(store, range, found, a, c),
{
    let path = choose|path: Seq<(i64, i32, i64)>|
        is_target_path(store, range, found, path) && path[0] == b && path.last() == c;
    let p2 = seq![a] + path;
    assert(p2[0] == a);
    assert(p2.last() == c);
    assert(is_target_path(store, range, found, p2)) by {
        assert(forall|i: int| 1 <= i < p2.len() ==> p2[i] == path[i - 1]);
        assert forall|i: int|
            0 <= i < p2.len() implies is_target_at(store, range, #[trigger] p2[i])
            && !found.contains(p2[i]) by {
            if i >= 1 {
                assert(p2[i] == path[i - 1]);
            }
        }
        assert forall|i: int| 0 <= i < p2.len() - 1 implies adjacent(
            #[trigger] p2[i],
            p2[i + 1],
        ) by {
            if i == 0 {
                assert(p2[1] == path[0]);
            } else {
                assert(p2[i] == path[i - 1] && p2[i + 1] == path[i]);
            }
        }
    }
}

/// A candidate bound for one discovery: a component-closed list of at most
/// `MAX_VEIN_SIZE` distinct, unrecorded targets whose whole neighbourhood
/// the de-duplication set misses, holding the vein so far and the probed
/// position where that is a target. Where such a bound exists, the
/// discovery cannot fail: `explore_vein` must accept.
pub open spec fn acceptance_bound(
    store: RegionStore,
    range: Option<(i8, i8)>,
    found: Seq<(i64, i32, i64)>,
    vein_blocks: Seq<(i64, i32, i64)>,
    p: (i64, i32, i64),
    cand: Seq<(i64, i32, i64)>,
) -> bool {
    &&& forall|a: int, b: int| 0 <= a < b < cand.len() ==> cand[a] != cand[b]
    &&& cand.len() <= MAX_VEIN_SIZE
    &&& forall|i: int|
        0 <= i < cand.len() ==> is_target_at(store, range, #[trigger] cand[i])
    &&& forall|i: int, q: (i64, i32, i64)| #![trigger adjacent(cand[i], q)]
        0 <= i < cand.len() && adjacent(cand[i], q) && is_target_at(store, range, q)
            && !found.contains(q) ==> cand.contains(q)
    &&& forall|i: int, q: (i64, i32, i64)| #![trigger adjacent(cand[i], q)]
        0 <= i < cand.len() && adjacent(cand[i], q) ==> !found.contains(q)
    &&& !found.contains(p)
    &&& (is_target_at(store, range, p) ==> cand.contains(p))
    &&& forall|i: int| 0 <= i < vein_blocks.len() ==> cand.contains(#[trigger] vein_blocks[i])
    &&& (vein_blocks.len() > 0 || is_target_at(store, range, p))
}

/// Every cluster of distinct, unrecorded target positions reachable from a
/// seed fits inside any well-formed vein that holds the seed and is closed
/// under target neighbours. Since a vein holds at most `MAX_VEIN_SIZE`
/// members, a cluster of more than that many positions can never come back
/// as an accepted vein: with `explore_vein`'s contract, such a seed's
/// discovery is necessarily rejected.
pub proof fn lemma_cluster_fits_in_closed_vein(
    store: RegionStore,
    range: Option<(i8, i8)>,
    found: Seq<(i64, i32, i64)>,
    v: Vein,
    seed: (i64, i32, i64),
    cluster: Seq<(i64, i32, i64)>,
    paths: Seq<Seq<(i64, i32, i64)>>,
)
    requires
        v.wf(),
        v.blocks@.contains(seed),
        forall|i: int|
            0 <= i < v.blocks@.len() ==> closed_under_neighbors(
                store,
                range,
                found,
                v.blocks@,
                #[trigger] v.blocks@[i],
            ),
        forall|p: int, q: int| 0 <= p < q < cluster.len() ==> cluster[p] != cluster[q],
        paths.len() == cluster.len(),
        forall|j: int|
            0 <= j < cluster.len() ==> is_target_path(store, range, found, #[trigger] paths[j])
                && paths[j][0] == seed && paths[j].last() == cluster[j],
    ensures
        cluster.len() <= v.blocks@.len(),
        cluster.len() <= MAX_VEIN_SIZE,
{
    assert forall|j: int| 0 <= j < cluster.len() implies v.blocks@.contains(
        #[trigger] cluster[j],
    ) by {
        lemma_closure_covers_path(store, range, found, v.blocks@, paths[j]);
    }
    lemma_distinct_fit(cluster, v.blocks@);
}


/// The number of target voxels the stored chunk's filtered sections hold:
/// what one chunk's scan must report.
pub open spec fn chunk_target_count(
    store: RegionStore,
    range: Option<(i8, i8)>,
    cx: int,
    cz: int,
) -> nat {
    chunk_name_occ(store, range, cx, cz, "minecraft:diamond_ore"@) + chunk_name_occ(
        store,
        range,
        cx,
        cz,
        "minecraft:deepslate_diamond_ore"@,
    )
}

/// The member positions of the first `n` logged veins, in order.
pub open spec fn logged_members(l: Seq<Vein>, n: int) -> Seq<(i64, i32, i64)>
    decreases n,
{
    if n <= 0 {
        Seq::<(i64, i32, i64)>::empty()
    } else {
        logged_members(l, n - 1) + l[n - 1].blocks@
    }
}

/// The count one histogram cell holds after recording the first `n` logged
/// veins on top of the cells `m0`.
pub open spec fn logged_cell_count(
    m0: Seq<((i64, i64), u32)>,
    l: Seq<Vein>,
    n: int,
    cell: (i64, i64),
) -> u32
    decreases n,
{
    if n <= 0 {
        pkey_count(m0, cell)
    } else {
        let prev = logged_cell_count(m0, l, n - 1, cell);
        if cell == (l[n - 1].blocks@.len() as i64, l[n - 1].location.1 as i64) {
            crate::layers::bump(prev)
        } else {
            prev
        }
    }
}

/// Appending a vein to the log leaves everything about shorter prefixes as
/// it was.
pub proof fn lemma_log_push_prefix(
    m0: Seq<((i64, i64), u32)>,
    l: Seq<Vein>,
    v: Vein,
    n: int,
)
    requires
        0 <= n <= l.len(),
    ensures
        logged_members(l.push(v), n) == logged_members(l, n),
        forall|cell: (i64, i64)|
            logged_cell_count(m0, l.push(v), n, cell) == logged_cell_count(m0, l, n, cell),
    decreases n,
{
    if n > 0 {
        lemma_log_push_prefix(m0, l, v, n - 1);
        assert(l.push(v)[n - 1] == l[n - 1]);
        assert(logged_members(l.push(v), n) == logged_members(l, n));
        assert forall|cell: (i64, i64)|
            logged_cell_count(m0, l.push(v), n, cell) == logged_cell_count(m0, l, n, cell) by {
            assert(logged_cell_count(m0, l.push(v), n - 1, cell) == logged_cell_count(
                m0,
                l,
                n - 1,
                cell,
            ));
        }
    }
}

/// Recording veins never lowers a cell's count.
pub proof fn lemma_logged_cells_grow(
    m0: Seq<((i64, i64), u32)>,
    l: Seq<Vein>,
    n: int,
    cell: (i64, i64),
)
    requires
        0 <= n,
    ensures
        logged_cell_count(m0, l, n, cell) >= pkey_count(m0, cell),
    decreases n,
{
    if n > 0 {
        lemma_logged_cells_grow(m0, l, n - 1, cell);
    }
}

proof fn lemma_sorted_i8_index(ys: Seq<i8>, a: int)
    requires
        forall|p: int, q: int| 0 <= p < q < ys.len() ==> ys[p] < ys[q],
        0 <= a < ys.len(),
    ensures
        ys[a] as int >= ys[0] + a,
    decreases a,
{
    if a > 0 {
        lemma_sorted_i8_index(ys, a - 1);
        assert(ys[a - 1] < ys[a]);
    }
}

/// A strictly ascending list of section indices cannot list more than the
/// 256 representable indices.
proof fn lemma_sorted_i8_len(ys: Seq<i8>)
    requires
        forall|p: int, q: int| 0 <= p < q < ys.len() ==> ys[p] < ys[q],
    ensures
        ys.len() <= 256,
{
    if ys.len() > 256 {
        lemma_sorted_i8_index(ys, 256);
        assert(ys[256] as int >= ys[0] + 256);
        assert(ys[0] as int >= -128);
        assert(ys[256] as int <= 127);
    }
}


/// The raster pixel one area chunk darkens: pixel rows run top-to-bottom
/// while chunk z runs ascending, so the row is flipped.
pub open spec fn area_pixel_index(area: Area, cx: int, cz: int) -> int {
    (area.spec_width_z() - 1 - (cz - area.z_range.0)) * area.spec_width_x() + (cx
        - area.x_range.0)
}

/// The per-chunk histogram count of `key` after scanning the first `n`
/// chunks of the coordinate list on top of the histogram `m0`: each chunk
/// bumps exactly the bucket of its own target-voxel count.
pub open spec fn dp_count_after(
    store: RegionStore,
    range: Option<(i8, i8)>,
    m0: Seq<(i64, u32)>,
    coords: Seq<(i32, i32)>,
    n: int,
    key: i64,
) -> u32
    decreases n,
{
    if n <= 0 {
        ikey_count(m0, key)
    } else {
        let prev = dp_count_after(store, range, m0, coords, n - 1, key);
        if key == chunk_target_count(
            store,
            range,
            coords[n - 1].0 as int,
            coords[n - 1].1 as int,
        ) as i64 {
            crate::layers::bump(prev)
        } else {
            prev
        }
    }
}

/// Scans an area for connected veins of the target types: flood fill with a
/// size cap, a de-duplication set of already recorded positions, size and
/// height histograms, a per-chunk seed-count histogram, and a density
/// raster.
pub struct DiamondVeinAnalyzer {
    pub chunk_loader: ChunkLoader,
    pub found_veins: Vec<(i64, i32, i64)>,
    pub vein_counts: Vec<((i64, i64), u32)>,
    pub diamonds_per_chunk: Vec<(i64, u32)>,
    pub diamond_img: DensityGrid,
    pub area: Area,
}

/// Exploration touches the loader's cache and nothing else: the store, the
/// filter, and all analyzer state except the cache stay as they were.
pub open spec fn explore_frame(a: DiamondVeinAnalyzer, b: DiamondVeinAnalyzer) -> bool {
    &&& b.chunk_loader.wf()
    &&& b.chunk_loader.store == a.chunk_loader.store
    &&& b.chunk_loader.section_range == a.chunk_loader.section_range
    &&& b.found_veins == a.found_veins
    &&& b.vein_counts == a.vein_counts
    &&& b.diamonds_per_chunk == a.diamonds_per_chunk
    &&& b.diamond_img == a.diamond_img
    &&& b.area == a.area
}

impl DiamondVeinAnalyzer {
    pub open spec fn wf(self) -> bool {
        &&& self.chunk_loader.wf()
        &&& forall|p: int, q: int|
            0 <= p < q < self.found_veins@.len() ==> self.found_veins@[p]
                != self.found_veins@[q]
        &&& pkeys_unique(self.vein_counts@)
        &&& ikeys_unique(self.diamonds_per_chunk@)
        &&& self.area.wf()
        &&& self.diamond_img.wf()
        &&& self.diamond_img.width == self.area.spec_width_x()
        &&& self.diamond_img.height == self.area.spec_width_z()
    }

    /// A fresh analyzer over a validated store, scanning the given area and
    /// only the four sections above zero height, where the target ores
    /// occur.
    pub fn new(store: RegionStore, area: Area) -> (r: DiamondVeinAnalyzer)
        requires
            store.wf(),
            area.wf(),
            area.spec_width_x() * area.spec_width_z() <= 0xFFFF_FFFF,
        ensures
            r.wf(),
            r.chunk_loader.store == store,
            r.chunk_loader.section_range == Some((0i8, 4i8)),
            r.area == area,
            r.found_veins@.len() == 0,
            r.vein_counts@.len() == 0,
            r.diamonds_per_chunk@.len() == 0,
            forall|i: int| 0 <= i < r.diamond_img.pixels@.len() ==> r.diamond_img.pixels@[i] == 255u8,
    {
        let chunk_loader = ChunkLoader::new(store, Some((0, 4)));
        let w = area.chunk_width_x();
        let h = area.chunk_width_z();
        proof {
            assert(w * h <= 0xFFFF_FFFFu32);
        }
        let diamond_img = DensityGrid::new(w, h);
        DiamondVeinAnalyzer {
            chunk_loader,
            found_veins: Vec::new(),
            vein_counts: Vec::new(),
            diamonds_per_chunk: Vec::new(),
            diamond_img,
            area,
        }
    }

    /// Drops recorded positions strictly behind the trailing edge of the
    /// scan, both coordinates less than the given ones, to bound the
    /// de-duplication set's memory.
    pub fn clean_found_veins(&mut self, pos: (i64, i64))
        requires
            old(self).wf(),
        ensures
            final(self).wf(),
            final(self).chunk_loader == old(self).chunk_loader,
            final(self).vein_counts == old(self).vein_counts,
            final(self).diamonds_per_chunk == old(self).diamonds_per_chunk,
            final(self).diamond_img == old(self).diamond_img,
            final(self).area == old(self).area,
            forall|p: (i64, i32, i64)|
                final(self).found_veins@.contains(p) == (old(self).found_veins@.contains(p)
                    && !(p.0 < pos.0 && p.2 < pos.1)),
    {
        let ghost f0 = self.found_veins@;
        let mut kept: Vec<(i64, i32, i64)> = Vec::new();
        let mut i: usize = 0;
        while i < self.found_veins.len()
            invariant
                self.found_veins@ == f0,
                forall|p: int, q: int| 0 <= p < q < f0.len() ==> f0[p] != f0[q],
                i <= f0.len(),
                forall|a: int| #![trigger kept@[a]]
                    0 <= a < kept@.len() ==> exists|j: int| 0 <= j < i && kept@[a] == f0[j],
                forall|a: int|
                    0 <= a < kept@.len() ==> !((#[trigger] kept@[a]).0 < pos.0 && kept@[a].2
                        < pos.1),
                forall|j: int|
                    0 <= j < i && !((#[trigger] f0[j]).0 < pos.0 && f0[j].2 < pos.1)
                        ==> kept@.contains(f0[j]),
                forall|a: int, b: int| 0 <= a < b < kept@.len() ==> kept@[a] != kept@[b],
            decreases self.found_veins.len() - i,
        {
            let p = self.found_veins[i];
            if !(p.0 < pos.0 && p.2 < pos.1) {
                let ghost k0 = kept@;
                kept.push(p);
                proof {
                    assert(kept@.drop_last() =~= k0);
                    assert(kept@.last() == f0[i as int]);
                    assert forall|a: int, b: int|
                        0 <= a < b < kept@.len() implies kept@[a] != kept@[b] by {
                        if b == kept@.len() - 1 {
                            assert(kept@[a] == k0[a]);
                            let j = choose|j: int| 0 <= j < i && k0[a] == f0[j];
                            assert(kept@[b] == f0[i as int]);
                        } else {
                            assert(kept@[a] == k0[a] && kept@[b] == k0[b]);
                        }
                    }
                    assert forall|j: int|
                        0 <= j < i + 1 && !((#[trigger] f0[j]).0 < pos.0 && f0[j].2 < pos.1)
                            implies kept@.contains(f0[j]) by {
                        if j == i as int {
                            assert(kept@[kept@.len() - 1] == f0[j]);
                        } else {
                            assert(k0.contains(f0[j]));
                            let a = choose|a: int| 0 <= a < k0.len() && k0[a] == f0[j];
                            assert(kept@[a] == f0[j]);
                        }
                    }
                    assert forall|a: int| #![trigger kept@[a]]
                        0 <= a < kept@.len() implies exists|j: int|
                            0 <= j < i + 1 && kept@[a] == f0[j] by {
                        if a == kept@.len() - 1 {
                            assert(kept@[a] == f0[i as int]);
                        } else {
                            assert(kept@[a] == k0[a]);
                            let j = choose|j: int| 0 <= j < i && k0[a] == f0[j];
                            assert(kept@[a] == f0[j]);
                        }
                    }
                }
            }
            i = i + 1;
        }
        self.found_veins = kept;
        proof {
            assert forall|p: (i64, i32, i64)|
                self.found_veins@.contains(p) == (f0.contains(p) && !(p.0 < pos.0 && p.2
                    < pos.1)) by {
                if self.found_veins@.contains(p) {
                    let a = choose|a: int|
                        0 <= a < self.found_veins@.len() && self.found_veins@[a] == p;
                    let j = choose|j: int| 0 <= j < f0.len() && self.found_veins@[a] == f0[j];
                    assert(f0[j] == p);
                    assert(f0.contains(p));
                }
                if f0.contains(p) && !(p.0 < pos.0 && p.2 < pos.1) {
                    let j = choose|j: int| 0 <= j < f0.len() && f0[j] == p;
                    assert(self.found_veins@.contains(f0[j]));
                }
            }
        }
    }

    /// Grows `vein` by flood fill from `(x, y, z)`. The whole discovery is
    /// abandoned (`None`) as soon as it touches an already recorded position
    /// or would grow past the size cap; an already-member or no-target
    /// position comes back as trivial success with the vein unchanged. Every
    /// member of a returned vein is a target voxel of the backing store that
    /// was not previously recorded, so an accepted vein never overlaps one
    /// that was accepted before; every member the call added is reachable
    /// from the probed position and closed under target neighbours, so
    /// together with `lemma_cluster_fits_in_closed_vein` a seed whose
    /// connected component of unrecorded targets exceeds the cap can only
    /// be rejected; and where an `acceptance_bound` exists, the whole
    /// component fits the cap and rejection is impossible.
    fn explore_vein(&mut self, vein: Vein, x: i64, y: i32, z: i64) -> (r: Option<Vein>)
        requires
            old(self).wf(),
            vein.wf(),
            forall|i: int|
                0 <= i < vein.blocks@.len() ==> is_target_at(
                    old(self).chunk_loader.store,
                    old(self).chunk_loader.section_range,
                    #[trigger] vein.blocks@[i],
                ),
            forall|i: int|
                0 <= i < vein.blocks@.len() ==> !old(self).found_veins@.contains(
                    #[trigger] vein.blocks@[i],
                ),
            vein.blocks@.len() == 0 ==> vein.location == (x, y, z),
            ball_covered(
                old(self).chunk_loader.store,
                x as int,
                z as int,
                17 - vein.blocks@.len(),
            ),
            -999_983 - vein.blocks@.len() <= y as int <= 999_983 + vein.blocks@.len(),
        ensures
            final(self).wf(),
            explore_frame(*old(self), *final(self)),
            match r {
                Some(v) => {
                    &&& v.wf()
                    &&& v.blocks@.len() > 0
                    &&& v.blocks@.len() >= vein.blocks@.len()
                    &&& forall|i: int|
                        0 <= i < vein.blocks@.len() ==> v.blocks@.contains(
                            #[trigger] vein.blocks@[i],
                        )
                    &&& forall|i: int|
                        0 <= i < v.blocks@.len() ==> is_target_at(
                            old(self).chunk_loader.store,
                            old(self).chunk_loader.section_range,
                            #[trigger] v.blocks@[i],
                        )
                    &&& forall|i: int|
                        0 <= i < v.blocks@.len() ==> !old(self).found_veins@.contains(
                            #[trigger] v.blocks@[i],
                        )
                    &&& (is_target_at(
                        old(self).chunk_loader.store,
                        old(self).chunk_loader.section_range,
                        (x, y, z),
                    ) ==> v.blocks@.contains((x, y, z)))
                    &&& forall|i: int|
                        0 <= i < v.blocks@.len() && !vein.blocks@.contains(v.blocks@[i])
                            ==> closed_under_neighbors(
                            old(self).chunk_loader.store,
                            old(self).chunk_loader.section_range,
                            old(self).found_veins@,
                            v.blocks@,
                            #[trigger] v.blocks@[i],
                        )
                    &&& forall|i: int|
                        0 <= i < v.blocks@.len() && !vein.blocks@.contains(v.blocks@[i])
                            ==> reaches(
                            old(self).chunk_loader.store,
                            old(self).chunk_loader.section_range,
                            old(self).found_veins@,
                            (x, y, z),
                            #[trigger] v.blocks@[i],
                        )
                },
                None => true,
            },
            forall|cand: Seq<(i64, i32, i64)>|
                acceptance_bound(
                    old(self).chunk_loader.store,
                    old(self).chunk_loader.section_range,
                    old(self).found_veins@,
                    vein.blocks@,
                    (x, y, z),
                    cand,
                ) ==> r is Some,
            old(self).found_veins@.contains((x, y, z)) ==> r is None,
            !old(self).found_veins@.contains((x, y, z)) && vein.blocks@.contains((x, y, z))
                ==> r == Some(vein),
            (!old(self).found_veins@.contains((x, y, z)) && !vein.blocks@.contains((x, y, z))
                && !is_target_at(
                old(self).chunk_loader.store,
                old(self).chunk_loader.section_range,
                (x, y, z),
            )) ==> (if vein.blocks@.len() == 0 {
                r is None
            } else {
                r == Some(vein)
            }),
        decreases MAX_VEIN_SIZE - vein.blocks@.len(),
    {
        let ghost store = self.chunk_loader.store;
        let ghost range = self.chunk_loader.section_range;
        let ghost f0 = self.found_veins@;
        if contains_pos(&self.found_veins, (x, y, z)) {
            proof {
                assert forall|cand: Seq<(i64, i32, i64)>|
                    !acceptance_bound(store, range, f0, vein.blocks@, (x, y, z), cand) by {
                    assert(f0.contains((x, y, z)));
                }
            }
            return None;
        }
        if contains_pos(&vein.blocks, (x, y, z)) {
            return Some(vein);
        }
        proof {
            assert(store_contains(store.entries@, x as int / 16, z as int / 16)) by {
                assert(x as int - 0 <= x as int <= x as int + 0);
            }
            crate::store::lemma_store_at_entry(store.entries@, x as int / 16, z as int / 16);
            vstd::arithmetic::div_mod::lemma_fundamental_div_mod(x as int, 16);
            vstd::arithmetic::div_mod::lemma_fundamental_div_mod(z as int, 16);
            assert(-0x8000_0000 <= x as int / 16 <= 0x7FFF_FFFF);
            assert(-0x8000_0000 <= z as int / 16 <= 0x7FFF_FFFF);
        }
        let target: bool = {
            match self.chunk_loader.get_blockstate_at(x, y, z) {
                Some(s) => is_diamond(s),
                None => false,
            }
        };
        proof {
            assert(target == is_target_at(store, range, (x, y, z)));
        }
        if !target {
            if vein.blocks.len() == 0 {
                proof {
                    assert forall|cand: Seq<(i64, i32, i64)>|
                        !acceptance_bound(store, range, f0, vein.blocks@, (x, y, z), cand) by {
                        assert(!is_target_at(store, range, (x, y, z)));
                    }
                }
                return None;
            } else {
                return Some(vein);
            }
        }
        if vein.blocks.len() >= MAX_VEIN_SIZE {
            // one more member would pass the cap: no candidate bound can
            // hold the vein and the new member within the size limit
            proof {
                assert forall|cand: Seq<(i64, i32, i64)>|
                    !acceptance_bound(store, range, f0, vein.blocks@, (x, y, z), cand) by {
                    if acceptance_bound(store, range, f0, vein.blocks@, (x, y, z), cand) {
                        let sub = vein.blocks@.push((x, y, z));
                        assert(sub.last() == (x, y, z));
                        assert(forall|a: int| 0 <= a < vein.blocks@.len() ==> sub[a]
                            == vein.blocks@[a]);
                        assert forall|a: int, b: int|
                            0 <= a < b < sub.len() implies sub[a] != sub[b] by {
                            if b == sub.len() - 1 {
                                if sub[a] == (x, y, z) {
                                    assert(vein.blocks@.contains((x, y, z)));
                                }
                            }
                        }
                        assert forall|a: int|
                            0 <= a < sub.len() implies cand.contains(#[trigger] sub[a]) by {
                            if a < sub.len() - 1 {
                                assert(cand.contains(vein.blocks@[a]));
                            } else {
                                assert(is_target_at(store, range, (x, y, z)));
                            }
                        }
                        lemma_distinct_fit(sub, cand);
                    }
                }
            }
            return None;
        }
        let ghost v0 = vein;
        let mut cur = vein;
        cur.blocks.push((x, y, z));
        cur.location = min_coord(cur.location, (x, y, z));
        proof {
            assert(cur.blocks@.drop_last() =~= v0.blocks@);
            assert(cur.blocks@.last() == (x, y, z));
            assert(cur.blocks@.contains((x, y, z))) by {
                assert(cur.blocks@[cur.blocks@.len() - 1] == (x, y, z));
            }
            assert forall|i: int|
                0 <= i < v0.blocks@.len() implies cur.blocks@.contains(
                #[trigger] v0.blocks@[i],
            ) by {
                assert(cur.blocks@[i] == v0.blocks@[i]);
            }
            assert(cur.wf()) by {
                assert(forall|p: int, q: int|
                    0 <= p < q < cur.blocks@.len() - 1 ==> cur.blocks@[p] == v0.blocks@[p]
                        && cur.blocks@[q] == v0.blocks@[q]);
                assert(forall|p: int|
                    0 <= p < v0.blocks@.len() ==> cur.blocks@[p] == v0.blocks@[p]);
                if v0.blocks@.len() == 0 {
                    assert(cur.location == (x, y, z));
                    assert(cur.blocks@.len() == 1);
                } else {
                    assert(v0.blocks@.contains(v0.location));
                    let li = choose|li: int|
                        0 <= li < v0.blocks@.len() && v0.blocks@[li] == v0.location;
                    assert(cur.blocks@[li] == v0.location);
                    assert(cur.location == v0.location || cur.location == (x, y, z));
                    assert forall|i: int|
                        0 <= i < cur.blocks@.len() implies lex_le(
                        cur.location,
                        #[trigger] cur.blocks@[i],
                    ) by {
                        if i < v0.blocks@.len() {
                            assert(lex_le(v0.location, v0.blocks@[i]));
                        }
                    }
                    assert(cur.blocks@.contains(cur.location)) by {
                        if cur.location == v0.location {
                            assert(cur.blocks@[li] == cur.location);
                        } else {
                            assert(cur.blocks@[cur.blocks@.len() - 1] == cur.location);
                        }
                    }
                }
            }
            lemma_reaches_self(store, range, f0, (x, y, z));
            assert forall|i: int|
                0 <= i < cur.blocks@.len() && !v0.blocks@.contains(cur.blocks@[i])
                    implies reaches(store, range, f0, (x, y, z), #[trigger] cur.blocks@[i]) by {
                if i < v0.blocks@.len() {
                    assert(cur.blocks@[i] == v0.blocks@[i]);
                    assert(v0.blocks@.contains(v0.blocks@[i]));
                } else {
                    assert(cur.blocks@[i] == (x, y, z));
                }
            }
        }
        let mut k: usize = 0;
        while k < 27
            invariant
                k <= 27,
                v0 == vein,
                self.wf(),
                explore_frame(*old(self), *self),
                self.chunk_loader.store == store,
                self.chunk_loader.section_range == range,
                cur.wf(),
                cur.blocks@.len() > 0,
                cur.blocks@.len() >= v0.blocks@.len() + 1,
                cur.blocks@.contains((x, y, z)),
                forall|i: int|
                    0 <= i < v0.blocks@.len() ==> cur.blocks@.contains(
                        #[trigger] v0.blocks@[i],
                    ),
                forall|i: int|
                    0 <= i < cur.blocks@.len() ==> is_target_at(
                        store,
                        range,
                        #[trigger] cur.blocks@[i],
                    ),
                forall|i: int|
                    0 <= i < cur.blocks@.len() ==> !old(self).found_veins@.contains(
                        #[trigger] cur.blocks@[i],
                    ),
                ball_covered(store, x as int, z as int, 17 - v0.blocks@.len()),
                -999_983 - v0.blocks@.len() <= y as int <= 999_983 + v0.blocks@.len(),
                v0.blocks@.len() < MAX_VEIN_SIZE,
                f0 == old(self).found_veins@,
                !f0.contains((x, y, z)),
                !v0.blocks@.contains((x, y, z)),
                is_target_at(store, range, (x, y, z)),
                forall|i: int|
                    0 <= i < cur.blocks@.len() && !v0.blocks@.contains(cur.blocks@[i])
                        && cur.blocks@[i] != (x, y, z) ==> closed_under_neighbors(
                        store,
                        range,
                        f0,
                        cur.blocks@,
                        #[trigger] cur.blocks@[i],
                    ),
                forall|q: (i64, i32, i64)|
                    adjacent((x, y, z), q) && offset_index((x, y, z), q) < k && is_target_at(
                        store,
                        range,
                        q,
                    ) && !f0.contains(q) ==> cur.blocks@.contains(q),
                forall|i: int|
                    0 <= i < cur.blocks@.len() && !v0.blocks@.contains(cur.blocks@[i])
                        ==> reaches(store, range, f0, (x, y, z), #[trigger] cur.blocks@[i]),
            decreases 27 - k,
        {
            let dx: i64 = (k / 9) as i64 - 1;
            let dy: i32 = ((k / 3) % 3) as i32 - 1;
            let dz: i64 = (k % 3) as i64 - 1;
            proof {
                assert(-1 <= dx <= 1 && -1 <= dy <= 1 && -1 <= dz <= 1);
                // the probed position stays inside the covered ball
                assert(store_contains(store.entries@, x as int / 16, z as int / 16));
                crate::store::lemma_store_at_entry(
                    store.entries@,
                    x as int / 16,
                    z as int / 16,
                );
                vstd::arithmetic::div_mod::lemma_fundamental_div_mod(x as int, 16);
                vstd::arithmetic::div_mod::lemma_fundamental_div_mod(z as int, 16);
                assert(-0x8000_0000 <= x as int / 16 <= 0x7FFF_FFFF);
                assert(-0x8000_0000 <= z as int / 16 <= 0x7FFF_FFFF);
                assert(-0x9_0000_0000 <= x as int <= 0x9_0000_0000);
                assert(-0x9_0000_0000 <= z as int <= 0x9_0000_0000);
                assert forall|qx: int, qz: int|
                    (x + dx) as int - (17 - cur.blocks@.len()) <= qx <= (x + dx) as int + (17
                        - cur.blocks@.len()) && (z + dz) as int - (17 - cur.blocks@.len())
                        <= qz <= (z + dz) as int + (17 - cur.blocks@.len())
                        implies #[trigger] store_contains(
                    store.entries@,
                    qx / 16,
                    qz / 16,
                ) by {
                    assert(x as int - (17 - v0.blocks@.len()) <= qx <= x as int + (17
                        - v0.blocks@.len()));
                    assert(z as int - (17 - v0.blocks@.len()) <= qz <= z as int + (17
                        - v0.blocks@.len()));
                }
            }
            let nx = x + dx;
            let ny = y + dy;
            let nz = z + dz;
            let ghost cur_pre = cur;
            match self.explore_vein(cur, nx, ny, nz) {
                None => {
                    proof {
                        // any candidate bound for this discovery would bound
                        // the rejected neighbour's discovery too
                        assert forall|cand: Seq<(i64, i32, i64)>|
                            !acceptance_bound(store, range, f0, v0.blocks@, (x, y, z), cand) by {
                            if acceptance_bound(store, range, f0, v0.blocks@, (x, y, z), cand) {
                                let p0 = (x, y, z);
                                let np = (nx, ny, nz);
                                assert(cand.contains(p0));
                                let pi = choose|pi: int|
                                    0 <= pi < cand.len() && cand[pi] == p0;
                                assert(adjacent(cand[pi], np));
                                assert(!f0.contains(np));
                                assert forall|i: int|
                                    0 <= i < cur_pre.blocks@.len() implies cand.contains(
                                    #[trigger] cur_pre.blocks@[i],
                                ) by {
                                    let m = cur_pre.blocks@[i];
                                    if v0.blocks@.contains(m) {
                                        let vi = choose|vi: int|
                                            0 <= vi < v0.blocks@.len() && v0.blocks@[vi] == m;
                                        assert(cand.contains(v0.blocks@[vi]));
                                    } else {
                                        assert(reaches(store, range, f0, p0, m));
                                        let path = choose|path: Seq<(i64, i32, i64)>|
                                            is_target_path(store, range, f0, path) && path[0]
                                                == p0 && path.last() == m;
                                        assert forall|ci2: int|
                                            0 <= ci2 < cand.len()
                                                implies closed_under_neighbors(
                                            store,
                                            range,
                                            f0,
                                            cand,
                                            #[trigger] cand[ci2],
                                        ) by {
                                            assert forall|q: (i64, i32, i64)|
                                                adjacent(cand[ci2], q) && is_target_at(
                                                    store,
                                                    range,
                                                    q,
                                                ) && !f0.contains(q) implies cand.contains(
                                                q,
                                            ) by {}
                                        }
                                        lemma_closure_covers_path(store, range, f0, cand, path);
                                    }
                                }
                                assert(acceptance_bound(
                                    store,
                                    range,
                                    f0,
                                    cur_pre.blocks@,
                                    np,
                                    cand,
                                ));
                                assert(false);
                            }
                        }
                    }
                    return None;
                },
                Some(v2) => {
                    proof {
                        assert forall|i: int|
                            0 <= i < v2.blocks@.len() && !v0.blocks@.contains(v2.blocks@[i])
                                && v2.blocks@[i] != (x, y, z) implies closed_under_neighbors(
                            store,
                            range,
                            f0,
                            v2.blocks@,
                            #[trigger] v2.blocks@[i],
                        ) by {
                            let b = v2.blocks@[i];
                            if cur_pre.blocks@.contains(b) {
                                let bi = choose|bi: int|
                                    0 <= bi < cur_pre.blocks@.len() && cur_pre.blocks@[bi]
                                        == b;
                                assert(closed_under_neighbors(
                                    store,
                                    range,
                                    f0,
                                    cur_pre.blocks@,
                                    cur_pre.blocks@[bi],
                                ));
                                assert forall|q: (i64, i32, i64)|
                                    adjacent(b, q) && is_target_at(store, range, q)
                                        && !f0.contains(q) implies v2.blocks@.contains(q) by {
                                    assert(cur_pre.blocks@.contains(q));
                                    let qi = choose|qi: int|
                                        0 <= qi < cur_pre.blocks@.len() && cur_pre.blocks@[qi]
                                            == q;
                                    assert(v2.blocks@.contains(cur_pre.blocks@[qi]));
                                }
                            }
                        }
                        // this iteration's neighbour is now covered
                        let p0 = (x, y, z);
                        let q0 = (nx, ny, nz);
                        assert(offset_index(p0, q0) == k) by {
                            vstd::arithmetic::div_mod::lemma_fundamental_div_mod(k as int, 3);
                            vstd::arithmetic::div_mod::lemma_fundamental_div_mod(
                                k as int / 3,
                                3,
                            );
                            vstd::arithmetic::div_mod::lemma_div_denominator(k as int, 3, 3);
                            assert(q0.0 - p0.0 + 1 == k as int / 9);
                            assert(q0.1 - p0.1 + 1 == (k as int / 3) % 3);
                            assert(q0.2 - p0.2 + 1 == k as int % 3);
                        }
                        assert forall|q: (i64, i32, i64)|
                            adjacent(p0, q) && offset_index(p0, q) < k + 1 && is_target_at(
                                store,
                                range,
                                q,
                            ) && !f0.contains(q) implies v2.blocks@.contains(q) by {
                            if offset_index(p0, q) == k {
                                assert(q.0 - p0.0 == q0.0 - p0.0 && q.1 - p0.1 == q0.1 - p0.1
                                    && q.2 - p0.2 == q0.2 - p0.2);
                                assert(q == q0);
                                assert(v2.blocks@.contains(q0));
                            } else {
                                assert(cur_pre.blocks@.contains(q));
                                let qi = choose|qi: int|
                                    0 <= qi < cur_pre.blocks@.len() && cur_pre.blocks@[qi]
                                        == q;
                                assert(v2.blocks@.contains(cur_pre.blocks@[qi]));
                            }
                        }
                        // every member the neighbour call added is reachable
                        // from the probed position through the neighbour
                        assert forall|i: int|
                            0 <= i < v2.blocks@.len() && !v0.blocks@.contains(v2.blocks@[i])
                                implies reaches(
                            store,
                            range,
                            f0,
                            p0,
                            #[trigger] v2.blocks@[i],
                        ) by {
                            let m = v2.blocks@[i];
                            if cur_pre.blocks@.contains(m) {
                                let mi = choose|mi: int|
                                    0 <= mi < cur_pre.blocks@.len() && cur_pre.blocks@[mi]
                                        == m;
                                assert(reaches(store, range, f0, p0, cur_pre.blocks@[mi]));
                            } else {
                                assert(reaches(store, range, f0, q0, m));
                                let path = choose|path: Seq<(i64, i32, i64)>|
                                    is_target_path(store, range, f0, path) && path[0] == q0
                                        && path.last() == m;
                                assert(is_target_at(store, range, q0) && !f0.contains(q0)) by {
                                    assert(path[0] == q0);
                                }
                                lemma_reaches_step(store, range, f0, p0, q0, m);
                            }
                        }
                    }
                    cur = v2;
                },
            }
            k = k + 1;
        }
        proof {
            // every neighbour offset has been processed: the probed position
            // itself is closed, and with it every member this call added
            assert forall|i: int|
                0 <= i < cur.blocks@.len() && !v0.blocks@.contains(cur.blocks@[i])
                    implies closed_under_neighbors(
                store,
                range,
                f0,
                cur.blocks@,
                #[trigger] cur.blocks@[i],
            ) by {
                let b = cur.blocks@[i];
                if b == (x, y, z) {
                    assert forall|q: (i64, i32, i64)|
                        adjacent(b, q) && is_target_at(store, range, q) && !f0.contains(
                            q,
                        ) implies cur.blocks@.contains(q) by {
                        assert(0 <= offset_index((x, y, z), q) < 27);
                    }
                }
            }
        }
        Some(cur)
    }

    /// Counts the chunk's target voxels, section by section in ascending
    /// vertical order; only the loader's cache changes.
    fn count_chunk_targets(&mut self, chunk_x: i32, chunk_z: i32) -> (r: u32)
        requires
            old(self).wf(),
            store_contains(
                old(self).chunk_loader.store.entries@,
                chunk_x as int,
                chunk_z as int,
            ),
        ensures
            final(self).wf(),
            explore_frame(*old(self), *final(self)),
            r == chunk_target_count(
                old(self).chunk_loader.store,
                old(self).chunk_loader.section_range,
                chunk_x as int,
                chunk_z as int,
            ),
    {
        let ghost store = self.chunk_loader.store;
        let ghost range = self.chunk_loader.section_range;
        let ghost cxi = chunk_x as int;
        let ghost czi = chunk_z as int;
        let ghost na = "minecraft:diamond_ore"@;
        let ghost nb = "minecraft:deepslate_diamond_ore"@;
        proof {
            reveal_strlit("minecraft:diamond_ore");
            reveal_strlit("minecraft:deepslate_diamond_ore");
            assert(na.len() != nb.len());
        }
        let (ys, chv) = {
            let chunk = self.chunk_loader.get_or_load(chunk_x, chunk_z);
            (chunk.section_ys_sorted(), Ghost(*chunk))
        };
        let ghost chv = chv@;
        proof {
            let rawv = store_chunk_at(store.entries@, cxi, czi)->Some_0;
            assert(chunk_filtered(rawv, range, chv));
            assert forall|yv: i8|
                ys@.contains(yv) == (stored_section_at(store, range, cxi, czi, yv as int)
                    is Some) by {
                if ys@.contains(yv) {
                    assert(crate::chunk::chunk_has_section(chv.sections@, yv as int));
                    let j = choose|j: int|
                        0 <= j < chv.sections@.len() && (#[trigger] chv.sections@[j]).pos.1
                            == yv as int;
                    lemma_section_found(chv.sections@, j);
                    assert(chv.spec_section_at(yv as int) is Some);
                    if !in_section_range(range, yv as int) {
                        assert(chv.spec_section_at(yv as int) is None);
                    }
                    assert(section_match(
                        crate::raw::raw_section_at(rawv.sections@, yv as int),
                        chv.spec_section_at(yv as int),
                        rawv.x,
                        rawv.z,
                    ));
                }
                if stored_section_at(store, range, cxi, czi, yv as int) is Some {
                    assert(in_section_range(range, yv as int));
                    assert(section_match(
                        crate::raw::raw_section_at(rawv.sections@, yv as int),
                        chv.spec_section_at(yv as int),
                        rawv.x,
                        rawv.z,
                    ));
                    assert(chv.spec_section_at(yv as int) is Some);
                    lemma_section_with_y_elem(chv.sections@, yv as int);
                    assert(crate::chunk::chunk_has_section(chv.sections@, yv as int));
                }
            }
            lemma_sorted_i8_len(ys@);
        }
        let mut count: u32 = 0;
        let mut j: usize = 0;
        while j < ys.len()
            invariant
                self.wf(),
                explore_frame(*old(self), *self),
                store == old(self).chunk_loader.store,
                range == old(self).chunk_loader.section_range,
                cxi == chunk_x as int && czi == chunk_z as int,
                na == "minecraft:diamond_ore"@,
                nb == "minecraft:deepslate_diamond_ore"@,
                na != nb,
                self.chunk_loader.store == store,
                self.chunk_loader.section_range == range,
                store_contains(store.entries@, cxi, czi),
                j <= ys@.len(),
                ys@.len() <= 256,
                forall|a: int, b: int| 0 <= a < b < ys@.len() ==> ys@[a] < ys@[b],
                forall|yv: i8|
                    ys@.contains(yv) == (stored_section_at(store, range, cxi, czi, yv as int)
                        is Some),
                count == ys_name_occ(store, range, cxi, czi, ys@, na, j as int) + ys_name_occ(
                    store,
                    range,
                    cxi,
                    czi,
                    ys@,
                    nb,
                    j as int,
                ),
            decreases ys.len() - j,
        {
            let y = ys[j];
            let ghost rsv = stored_section_at(store, range, cxi, czi, y as int)->Some_0;
            proof {
                assert(ys@[j as int] == y);
                assert(ys@.contains(y));
                assert(stored_section_at(store, range, cxi, czi, y as int) is Some);
                lemma_ys_occ_bound(store, range, cxi, czi, ys@, na, j as int);
                lemma_ys_occ_bound(store, range, cxi, czi, ys@, nb, j as int);
                assert((j as int) * 4096 <= 256 * 4096) by (nonlinear_arith)
                    requires
                        0 <= j as int <= 256,
                ;
            }
            let blocks = {
                let chunk = self.chunk_loader.get_or_load(chunk_x, chunk_z);
                let ghost rawv = store_chunk_at(store.entries@, cxi, czi)->Some_0;
                proof {
                    assert(chunk_filtered(rawv, range, *chunk));
                    assert(in_section_range(range, y as int));
                    assert(section_match(
                        crate::raw::raw_section_at(rawv.sections@, y as int),
                        chunk.spec_section_at(y as int),
                        rawv.x,
                        rawv.z,
                    ));
                }
                let section = match chunk.get_section(y) {
                    Some(s) => s,
                    None => unreached(),
                };
                proof {
                    assert(chunk.spec_section_at(y as int) == Some(*section));
                    assert(section.decodes(rsv, rawv.x, rawv.z));
                    lemma_section_with_y_elem(chunk.sections@, y as int);
                    assert(section.wf());
                    lemma_section_occ_decodes(*section, rsv, rawv.x, rawv.z, 4096);
                }
                let ghost secv = *section;
                (section.blocks_list(), Ghost(secv))
            };
            let (blocks, secv) = blocks;
            let ghost secv = secv@;
            let ghost c0 = count as int;
            let mut i: usize = 0;
            while i < blocks.len()
                invariant
                    blocks@.len() == 4096,
                    i <= 4096,
                    na == "minecraft:diamond_ore"@,
                    nb == "minecraft:deepslate_diamond_ore"@,
                    na != nb,
                    secv.wf(),
                    secv.decodes(rsv, secv.pos.0, secv.pos.2),
                    forall|b: int|
                        0 <= b < 4096 ==> (#[trigger] blocks@[b]).blockstate@
                            == secv.spec_name_at(b),
                    forall|k2: Seq<char>|
                        section_name_occ(secv, k2, 4096) == raw_name_occ(rsv, k2, 4096),
                    forall|k2: Seq<char>|
                        section_name_occ(secv, k2, i as int) == raw_name_occ(rsv, k2, i as int),
                    c0 <= 2 * 256 * 4096,
                    count == c0 + section_name_occ(secv, na, i as int) + section_name_occ(
                        secv,
                        nb,
                        i as int,
                    ),
                decreases blocks.len() - i,
            {
                proof {
                    lemma_section_occ_decodes(secv, rsv, secv.pos.0, secv.pos.2, i as int + 1);
                    assert(section_name_occ(secv, na, i as int) <= i as int) by {
                        lemma_raw_occ_bound(rsv, na, i as int);
                    }
                    assert(section_name_occ(secv, nb, i as int) <= i as int) by {
                        lemma_raw_occ_bound(rsv, nb, i as int);
                    }
                }
                if is_diamond(blocks[i].blockstate.as_str()) {
                    proof {
                        assert(secv.spec_name_at(i as int) == na || secv.spec_name_at(i as int)
                            == nb);
                    }
                    count = count + 1;
                }
                i = i + 1;
            }
            proof {
                assert(ys_name_occ(store, range, cxi, czi, ys@, na, j as int + 1)
                    == ys_name_occ(store, range, cxi, czi, ys@, na, j as int) + raw_name_occ(
                    rsv,
                    na,
                    4096,
                ));
                assert(ys_name_occ(store, range, cxi, czi, ys@, nb, j as int + 1)
                    == ys_name_occ(store, range, cxi, czi, ys@, nb, j as int) + raw_name_occ(
                    rsv,
                    nb,
                    4096,
                ));
            }
            j = j + 1;
        }
        proof {
            lemma_ys_cover(store, range, cxi, czi, ys@);
        }
        count
    }

    /// Scans one chunk: every target voxel found in it seeds a flood fill;
    /// accepted veins are recorded in the de-duplication set and the
    /// size-by-height histogram; every seed is counted whether or not its
    /// vein was accepted. Returns the chunk's seed count together with the
    /// accepted veins, which pin exactly how the histogram and the
    /// de-duplication set changed.
    fn analyze_chunk(&mut self, chunk_x: i32, chunk_z: i32) -> (r: (u32, Ghost<Seq<Vein>>))
        requires
            old(self).wf(),
            chunk_margin_covered(
                old(self).chunk_loader.store,
                chunk_x as int,
                chunk_z as int,
            ),
        ensures
            final(self).wf(),
            final(self).chunk_loader.store == old(self).chunk_loader.store,
            final(self).chunk_loader.section_range == old(self).chunk_loader.section_range,
            final(self).diamonds_per_chunk == old(self).diamonds_per_chunk,
            final(self).diamond_img == old(self).diamond_img,
            final(self).area == old(self).area,
            r.0 == chunk_target_count(
                old(self).chunk_loader.store,
                old(self).chunk_loader.section_range,
                chunk_x as int,
                chunk_z as int,
            ),
            final(self).found_veins@ == old(self).found_veins@ + logged_members(
                r.1@,
                r.1@.len() as int,
            ),
            forall|cell: (i64, i64)|
                pkey_count(final(self).vein_counts@, cell) == logged_cell_count(
                    old(self).vein_counts@,
                    r.1@,
                    r.1@.len() as int,
                    cell,
                ),
            forall|li: int|
                0 <= li < r.1@.len() ==> {
                    let v = #[trigger] r.1@[li];
                    let fb = old(self).found_veins@ + logged_members(r.1@, li);
                    &&& v.wf()
                    &&& v.blocks@.len() >= 1
                    &&& forall|b: int|
                        0 <= b < v.blocks@.len() ==> is_target_at(
                            old(self).chunk_loader.store,
                            old(self).chunk_loader.section_range,
                            #[trigger] v.blocks@[b],
                        )
                    &&& forall|b: int|
                        0 <= b < v.blocks@.len() ==> !fb.contains(#[trigger] v.blocks@[b])
                    &&& forall|b: int|
                        0 <= b < v.blocks@.len() ==> closed_under_neighbors(
                            old(self).chunk_loader.store,
                            old(self).chunk_loader.section_range,
                            fb,
                            v.blocks@,
                            #[trigger] v.blocks@[b],
                        )
                },
    {
        let ghost store = self.chunk_loader.store;
        let ghost range = self.chunk_loader.section_range;
        let ghost f_orig = self.found_veins@;
        let ghost vc_orig = self.vein_counts@;
        proof {
            assert(store_contains(store.entries@, chunk_x as int, chunk_z as int)) by {
                assert(16 * (chunk_x as int) - 17 <= 16 * (chunk_x as int) <= 16 * (
                chunk_x as int) + 32);
                assert(16 * (chunk_z as int) - 17 <= 16 * (chunk_z as int) <= 16 * (
                chunk_z as int) + 32);
                assert(store_contains(
                    store.entries@,
                    (16 * (chunk_x as int)) / 16,
                    (16 * (chunk_z as int)) / 16,
                ));
                assert((16 * (chunk_x as int)) / 16 == chunk_x as int) by (nonlinear_arith);
                assert((16 * (chunk_z as int)) / 16 == chunk_z as int) by (nonlinear_arith);
            }
        }
        let diamond_count = self.count_chunk_targets(chunk_x, chunk_z);
        let ghost mut log: Seq<Vein> = Seq::<Vein>::empty();
        proof {
            assert(logged_members(log, 0) =~= Seq::<(i64, i32, i64)>::empty());
            assert(self.found_veins@ =~= f_orig + logged_members(log, 0));
        }
        let mut all_blocks: Vec<ChunkSectionBlock> = Vec::new();
        {
            let chunk = self.chunk_loader.get_or_load(chunk_x, chunk_z);
            proof {
                crate::store::lemma_store_at_entry(
                    store.entries@,
                    chunk_x as int,
                    chunk_z as int,
                );
                assert(chunk.x == chunk_x && chunk.z == chunk_z);
            }
            let ys = chunk.section_ys_sorted();
            proof {
                assert forall|a: int|
                    0 <= a < ys@.len() implies crate::chunk::chunk_has_section(
                    chunk.sections@,
                    #[trigger] ys@[a] as int,
                ) by {
                    assert(ys@.contains(ys@[a]));
                }
            }
            let mut yi: usize = 0;
            while yi < ys.len()
                invariant
                    chunk.wf(),
                    chunk.x == chunk_x && chunk.z == chunk_z,
                    yi <= ys@.len(),
                    forall|a: int|
                        0 <= a < ys@.len() ==> crate::chunk::chunk_has_section(
                            chunk.sections@,
                            #[trigger] ys@[a] as int,
                        ),
                    forall|b: int|
                        0 <= b < all_blocks@.len() ==> {
                            let gp = (#[trigger] all_blocks@[b]).global_pos;
                            &&& 16 * chunk_x <= gp.0 <= 16 * chunk_x + 15
                            &&& 16 * chunk_z <= gp.2 <= 16 * chunk_z + 15
                            &&& -2048 <= gp.1 <= 2047
                        },
                decreases ys.len() - yi,
            {
                let y = ys[yi];
                let section = match chunk.get_section(y) {
                    Some(s) => s,
                    None => {
                        proof {
                            let ss = chunk.sections@;
                            let j = choose|j: int|
                                0 <= j < ss.len() && (#[trigger] ss[j]).pos.1 == y as int;
                            lemma_section_found(ss, j);
                        }
                        unreached()
                    },
                };
                proof {
                    lemma_section_with_y_elem(chunk.sections@, y as int);
                }
                let mut blocks = section.blocks_list();
                let ghost ab0 = all_blocks@;
                all_blocks.append(&mut blocks);
                proof {
                    assert forall|b: int|
                        0 <= b < all_blocks@.len() implies {
                        let gp = (#[trigger] all_blocks@[b]).global_pos;
                        &&& 16 * chunk_x <= gp.0 <= 16 * chunk_x + 15
                        &&& 16 * chunk_z <= gp.2 <= 16 * chunk_z + 15
                        &&& -2048 <= gp.1 <= 2047
                    } by {
                        if b < ab0.len() {
                            assert(all_blocks@[b] == ab0[b]);
                        } else {
                            assert(section.pos.0 == chunk_x && section.pos.2 == chunk_z);
                            assert(-128 <= section.pos.1 <= 127);
                        }
                    }
                }
                yi = yi + 1;
            }
        }
        let mut i: usize = 0;
        while i < all_blocks.len()
            invariant
                self.wf(),
                self.chunk_loader.store == store,
                self.chunk_loader.section_range == range,
                store == old(self).chunk_loader.store,
                range == old(self).chunk_loader.section_range,
                self.diamonds_per_chunk == old(self).diamonds_per_chunk,
                self.diamond_img == old(self).diamond_img,
                self.area == old(self).area,
                chunk_margin_covered(store, chunk_x as int, chunk_z as int),
                f_orig == old(self).found_veins@,
                vc_orig == old(self).vein_counts@,
                pkeys_unique(vc_orig),
                i <= all_blocks@.len(),
                forall|b: int|
                    0 <= b < all_blocks@.len() ==> {
                        let gp = (#[trigger] all_blocks@[b]).global_pos;
                        &&& 16 * chunk_x <= gp.0 <= 16 * chunk_x + 15
                        &&& 16 * chunk_z <= gp.2 <= 16 * chunk_z + 15
                        &&& -2048 <= gp.1 <= 2047
                    },
                self.found_veins@ == f_orig + logged_members(log, log.len() as int),
                forall|cell: (i64, i64)|
                    pkey_count(self.vein_counts@, cell) == logged_cell_count(
                        vc_orig,
                        log,
                        log.len() as int,
                        cell,
                    ),
                forall|li: int|
                    0 <= li < log.len() ==> {
                        let v = #[trigger] log[li];
                        let fb = f_orig + logged_members(log, li);
                        &&& v.wf()
                        &&& v.blocks@.len() >= 1
                        &&& forall|b: int|
                            0 <= b < v.blocks@.len() ==> is_target_at(
                                store,
                                range,
                                #[trigger] v.blocks@[b],
                            )
                        &&& forall|b: int|
                            0 <= b < v.blocks@.len() ==> !fb.contains(#[trigger] v.blocks@[b])
                        &&& forall|b: int|
                            0 <= b < v.blocks@.len() ==> closed_under_neighbors(
                                store,
                                range,
                                fb,
                                v.blocks@,
                                #[trigger] v.blocks@[b],
                            )
                    },
            decreases all_blocks.len() - i,
        {
            if is_diamond(all_blocks[i].blockstate.as_str()) {
                let (x, y, z) = all_blocks[i].global_pos;
                let vein = Vein { blocks: Vec::new(), location: (x, y, z) };
                proof {
                    assert(vein.wf());
                    assert forall|qx: int, qz: int|
                        x as int - 17 <= qx <= x as int + 17 && z as int - 17 <= qz <= z as int
                            + 17 implies #[trigger] store_contains(
                        store.entries@,
                        qx / 16,
                        qz / 16,
                    ) by {
                        assert(16 * (chunk_x as int) - 17 <= qx <= 16 * (chunk_x as int) + 32);
                        assert(16 * (chunk_z as int) - 17 <= qz <= 16 * (chunk_z as int) + 32);
                    }
                }
                let ghost f_before = self.found_veins@;
                match self.explore_vein(vein, x, y, z) {
                    Some(v) => {
                        let size = v.blocks.len();
                        let height = v.location.1;
                        let mut j: usize = 0;
                        let ghost vb = v.blocks@;
                        let ghost cl0 = self.chunk_loader;
                        let ghost vc0 = self.vein_counts;
                        let ghost dp0 = self.diamonds_per_chunk;
                        let ghost im0 = self.diamond_img;
                        let ghost ar0 = self.area;
                        proof {
                            assert(vb.subrange(0, 0) =~= Seq::<(i64, i32, i64)>::empty());
                            assert(self.found_veins@ =~= f_before + vb.subrange(0, 0));
                        }
                        while j < v.blocks.len()
                            invariant
                                j <= vb.len(),
                                v.blocks@ == vb,
                                v.wf(),
                                self.chunk_loader == cl0,
                                self.vein_counts == vc0,
                                self.diamonds_per_chunk == dp0,
                                self.diamond_img == im0,
                                self.area == ar0,
                                cl0.wf(),
                                pkeys_unique(vc0@),
                                self.found_veins@ == f_before + vb.subrange(0, j as int),
                                forall|p: int, q: int|
                                    0 <= p < q < f_before.len() ==> f_before[p] != f_before[q],
                                forall|b: int|
                                    0 <= b < vb.len() ==> !f_before.contains(
                                        #[trigger] vb[b],
                                    ),
                                forall|p: int, q: int|
                                    0 <= p < q < self.found_veins@.len()
                                        ==> self.found_veins@[p] != self.found_veins@[q],
                            decreases v.blocks.len() - j,
                        {
                            let p = v.blocks[j];
                            let ghost fb = self.found_veins@;
                            self.found_veins.push(p);
                            proof {
                                assert(self.found_veins@.drop_last() =~= fb);
                                assert(self.found_veins@ =~= f_before + vb.subrange(
                                    0,
                                    j as int + 1,
                                ));
                                assert forall|a: int, b: int|
                                    0 <= a < b < self.found_veins@.len()
                                        implies self.found_veins@[a]
                                    != self.found_veins@[b] by {
                                    if b == self.found_veins@.len() - 1 {
                                        assert(self.found_veins@[b] == vb[j as int]);
                                        if a < f_before.len() {
                                            assert(self.found_veins@[a] == f_before[a]);
                                            if f_before[a] == vb[j as int] {
                                                assert(f_before.contains(vb[j as int]));
                                            }
                                        } else {
                                            assert(self.found_veins@[a] == vb[a
                                                - f_before.len()]);
                                        }
                                    } else {
                                        assert(self.found_veins@[a] == fb[a]
                                            && self.found_veins@[b] == fb[b]);
                                    }
                                }
                            }
                            j = j + 1;
                        }
                        bump_pkey(&mut self.vein_counts, (size as i64, height as i64));
                        proof {
                            let n = log.len() as int;
                            let logp = log;
                            log = log.push(v);
                            assert(log[n] == v);
                            lemma_log_push_prefix(vc_orig, logp, v, n);
                            assert(vb.subrange(0, vb.len() as int) =~= vb);
                            assert(self.found_veins@ =~= f_orig + logged_members(
                                log,
                                n + 1,
                            )) by {
                                assert(logged_members(log, n + 1) == logged_members(log, n)
                                    + vb);
                                assert(logged_members(log, n) == logged_members(logp, n));
                                assert(f_before == f_orig + logged_members(logp, n));
                                assert(self.found_veins@ == f_before + vb);
                            }
                            assert forall|cell: (i64, i64)|
                                pkey_count(self.vein_counts@, cell) == logged_cell_count(
                                    vc_orig,
                                    log,
                                    n + 1,
                                    cell,
                                ) by {
                                assert(logged_cell_count(vc_orig, log, n, cell)
                                    == logged_cell_count(vc_orig, logp, n, cell));
                                if cell == (size as i64, height as i64) {
                                    assert(pkey_count(self.vein_counts@, cell)
                                        == crate::layers::bump(pkey_count(vc0@, cell)));
                                } else {
                                    assert(pkey_count(self.vein_counts@, cell) == pkey_count(
                                        vc0@,
                                        cell,
                                    ));
                                }
                            }
                            assert forall|li: int|
                                0 <= li < log.len() implies {
                                let v2 = #[trigger] log[li];
                                let fb2 = f_orig + logged_members(log, li);
                                &&& v2.wf()
                                &&& v2.blocks@.len() >= 1
                                &&& forall|b: int|
                                    0 <= b < v2.blocks@.len() ==> is_target_at(
                                        store,
                                        range,
                                        #[trigger] v2.blocks@[b],
                                    )
                                &&& forall|b: int|
                                    0 <= b < v2.blocks@.len() ==> !fb2.contains(
                                        #[trigger] v2.blocks@[b],
                                    )
                                &&& forall|b: int|
                                    0 <= b < v2.blocks@.len() ==> closed_under_neighbors(
                                        store,
                                        range,
                                        fb2,
                                        v2.blocks@,
                                        #[trigger] v2.blocks@[b],
                                    )
                            } by {
                                if li < n {
                                    assert(log[li] == logp[li]);
                                    assert(logged_members(log, li) == logged_members(
                                        logp,
                                        li,
                                    )) by {
                                        lemma_log_push_prefix(vc_orig, logp, v, li);
                                    }
                                } else {
                                    assert(log[li] == v);
                                    assert(logged_members(log, li) == logged_members(
                                        logp,
                                        li,
                                    )) by {
                                        lemma_log_push_prefix(vc_orig, logp, v, li);
                                    }
                                    assert(f_orig + logged_members(log, li) == f_before);
                                }
                            }
                        }
                    },
                    None => {},
                }
            }
            i = i + 1;
        }
        (diamond_count, Ghost(log))
    }

    /// Darkens the area pixel of one chunk according to how many target
    /// voxels were counted in it.
    pub fn update_img(&mut self, chunk_x: i32, chunk_z: i32, diamond_count: u32)
        requires
            old(self).wf(),
            old(self).area.x_range.0 <= chunk_x < old(self).area.x_range.1,
            old(self).area.z_range.0 <= chunk_z < old(self).area.z_range.1,
        ensures
            final(self).wf(),
            final(self).chunk_loader == old(self).chunk_loader,
            final(self).found_veins == old(self).found_veins,
            final(self).vein_counts == old(self).vein_counts,
            final(self).diamonds_per_chunk == old(self).diamonds_per_chunk,
            final(self).area == old(self).area,
            final(self).diamond_img.pixels@ == old(self).diamond_img.pixels@.update(
                (old(self).diamond_img.height - 1 - (chunk_z - old(self).area.z_range.0))
                    * old(self).diamond_img.width + (chunk_x - old(self).area.x_range.0),
                spec_brightness(diamond_count),
            ),
    {
        let (x, y) = self.area.get_positive_coords(chunk_x, chunk_z);
        let y2 = self.diamond_img.height - 1 - y;
        let brightness: u8 = if diamond_count >= 16 {
            0
        } else {
            (255 - diamond_count * 16) as u8
        };
        proof {
            assert(brightness == spec_brightness(diamond_count));
        }
        self.diamond_img.set_pixel(x, y2, brightness);
    }

    /// Scans the whole area in traversal order: each chunk bumps the
    /// per-chunk histogram bucket of its own target-voxel count and darkens
    /// its own pixel accordingly, accepted veins only ever raise histogram
    /// cells, and the de-duplication set is pruned behind the scan's
    /// trailing edge.
    pub fn analyze(&mut self)
        requires
            old(self).wf(),
            area_margin_covered(old(self).chunk_loader.store, old(self).area.spec_coords()),
        ensures
            final(self).wf(),
            final(self).chunk_loader.store == old(self).chunk_loader.store,
            final(self).chunk_loader.section_range == old(self).chunk_loader.section_range,
            final(self).area == old(self).area,
            forall|key: i64|
                ikey_count(final(self).diamonds_per_chunk@, key) == dp_count_after(
                    old(self).chunk_loader.store,
                    old(self).chunk_loader.section_range,
                    old(self).diamonds_per_chunk@,
                    old(self).area.spec_coords(),
                    old(self).area.spec_coords().len() as int,
                    key,
                ),
            forall|j: int|
                0 <= j < old(self).area.spec_coords().len()
                    ==> final(self).diamond_img.pixels@[area_pixel_index(
                    old(self).area,
                    (#[trigger] old(self).area.spec_coords()[j]).0 as int,
                    old(self).area.spec_coords()[j].1 as int,
                )] == spec_brightness(
                    chunk_target_count(
                        old(self).chunk_loader.store,
                        old(self).chunk_loader.section_range,
                        old(self).area.spec_coords()[j].0 as int,
                        old(self).area.spec_coords()[j].1 as int,
                    ) as u32,
                ),
            forall|cell: (i64, i64)|
                pkey_count(final(self).vein_counts@, cell) >= pkey_count(
                    old(self).vein_counts@,
                    cell,
                ),
    {
        let ghost store = self.chunk_loader.store;
        let ghost range = self.chunk_loader.section_range;
        let ghost dp0 = self.diamonds_per_chunk@;
        let ghost vcbase = self.vein_counts@;
        let area = self.area;
        let coords = area.coords();
        let mut ci: usize = 0;
        while ci < coords.len()
            invariant
                self.wf(),
                self.area == area,
                area == old(self).area,
                store == old(self).chunk_loader.store,
                range == old(self).chunk_loader.section_range,
                dp0 == old(self).diamonds_per_chunk@,
                vcbase == old(self).vein_counts@,
                self.chunk_loader.store == store,
                self.chunk_loader.section_range == range,
                coords@ == area.spec_coords(),
                area_margin_covered(store, coords@),
                area.wf(),
                ci <= coords@.len(),
                forall|key: i64|
                    ikey_count(self.diamonds_per_chunk@, key) == dp_count_after(
                        store,
                        range,
                        dp0,
                        coords@,
                        ci as int,
                        key,
                    ),
                forall|j: int|
                    0 <= j < ci ==> self.diamond_img.pixels@[area_pixel_index(
                        area,
                        (#[trigger] coords@[j]).0 as int,
                        coords@[j].1 as int,
                    )] == spec_brightness(
                        chunk_target_count(
                            store,
                            range,
                            coords@[j].0 as int,
                            coords@[j].1 as int,
                        ) as u32,
                    ),
                forall|cell: (i64, i64)|
                    pkey_count(self.vein_counts@, cell) >= pkey_count(vcbase, cell),
            decreases coords.len() - ci,
        {
            let (chunk_x, chunk_z) = coords[ci];
            proof {
                assert(coords@[ci as int] == (chunk_x, chunk_z));
                let w = area.spec_width_x();
                let h = area.spec_width_z();
                assert(coords@.len() == w * h);
                assert(w >= 1 && h >= 1) by (nonlinear_arith)
                    requires
                        w * h > ci as int,
                        ci as int >= 0,
                        w >= 0,
                        h >= 0,
                ;
                assert(0 <= (ci as int) % w < w);
                assert(0 <= (ci as int) / w < h) by (nonlinear_arith)
                    requires
                        0 <= (ci as int) && (ci as int) < w * h,
                        w >= 1,
                ;
                assert(coords@[ci as int] == (
                    (area.x_range.0 + (ci as int) % w) as i32,
                    (area.z_range.0 + (ci as int) / w) as i32,
                ));
                assert(area.x_range.0 <= chunk_x < area.x_range.1);
                assert(area.z_range.0 <= chunk_z < area.z_range.1);
            }
            let ghost vc_pre = self.vein_counts@;
            let chunk_result = self.analyze_chunk(chunk_x, chunk_z);
            let count = chunk_result.0;
            proof {
                let l = chunk_result.1@;
                assert forall|cell: (i64, i64)|
                    pkey_count(self.vein_counts@, cell) >= pkey_count(vcbase, cell) by {
                    lemma_logged_cells_grow(vc_pre, l, l.len() as int, cell);
                }
            }
            let ghost dp_pre = self.diamonds_per_chunk@;
            bump_ikey(&mut self.diamonds_per_chunk, count as i64);
            proof {
                assert forall|key: i64|
                    ikey_count(self.diamonds_per_chunk@, key) == dp_count_after(
                        store,
                        range,
                        dp0,
                        coords@,
                        ci as int + 1,
                        key,
                    ) by {
                    assert(count as i64 == chunk_target_count(
                        store,
                        range,
                        chunk_x as int,
                        chunk_z as int,
                    ) as i64);
                    if key == count as i64 {
                        assert(ikey_count(self.diamonds_per_chunk@, key)
                            == crate::layers::bump(ikey_count(dp_pre, key)));
                    } else {
                        assert(ikey_count(self.diamonds_per_chunk@, key) == ikey_count(
                            dp_pre,
                            key,
                        ));
                    }
                }
            }
            let ghost px_pre = self.diamond_img.pixels@;
            self.update_img(chunk_x, chunk_z, count);
            proof {
                let w = area.spec_width_x();
                let h = area.spec_width_z();
                let idx = area_pixel_index(area, chunk_x as int, chunk_z as int);
                assert(self.diamond_img.pixels@ == px_pre.update(
                    idx,
                    spec_brightness(count),
                ));
                assert(0 <= idx < w * h) by (nonlinear_arith)
                    requires
                        idx == (h - 1 - (chunk_z - area.z_range.0)) * w + (chunk_x
                            - area.x_range.0),
                        0 <= chunk_x - area.x_range.0 < w,
                        0 <= chunk_z - area.z_range.0 < h,
                        w >= 1,
                ;
                assert(spec_brightness(count) == spec_brightness(
                    chunk_target_count(
                        store,
                        range,
                        chunk_x as int,
                        chunk_z as int,
                    ) as u32,
                ));
                assert forall|j: int|
                    0 <= j < ci + 1 implies self.diamond_img.pixels@[area_pixel_index(
                    area,
                    (#[trigger] coords@[j]).0 as int,
                    coords@[j].1 as int,
                )] == spec_brightness(
                    chunk_target_count(
                        store,
                        range,
                        coords@[j].0 as int,
                        coords@[j].1 as int,
                    ) as u32,
                ) by {
                    if j < ci {
                        let cj = coords@[j];
                        let idxj = area_pixel_index(area, cj.0 as int, cj.1 as int);
                        assert(cj == (
                            (area.x_range.0 + j % w) as i32,
                            (area.z_range.0 + j / w) as i32,
                        )) by {
                            assert(0 <= j % w < w);
                            assert(0 <= j / w < h) by (nonlinear_arith)
                                requires
                                    0 <= j && j < w * h,
                                    w >= 1,
                            ;
                        }
                        assert(0 <= j % w < w);
                        assert(0 <= j / w < h) by (nonlinear_arith)
                            requires
                                0 <= j && j < w * h,
                                w >= 1,
                        ;
                        assert(cj.0 as int == area.x_range.0 + j % w);
                        assert(cj.1 as int == area.z_range.0 + j / w);
                        assert(0 <= cj.0 - area.x_range.0 < w);
                        assert(0 <= cj.1 - area.z_range.0 < h);
                        assert(0 <= idxj < w * h) by (nonlinear_arith)
                            requires
                                idxj == (h - 1 - (cj.1 - area.z_range.0)) * w + (cj.0
                                    - area.x_range.0),
                                0 <= cj.0 - area.x_range.0 < w,
                                0 <= cj.1 - area.z_range.0 < h,
                                w >= 1,
                        ;
                        assert(px_pre.len() == w * h);
                        if idxj == idx {
                            // the same pixel can only belong to the same chunk
                            assert(cj.0 as int == chunk_x as int && cj.1 as int
                                == chunk_z as int) by (nonlinear_arith)
                                requires
                                    idxj == (h - 1 - (cj.1 - area.z_range.0)) * w + (cj.0
                                        - area.x_range.0),
                                    idx == (h - 1 - (chunk_z - area.z_range.0)) * w + (
                                    chunk_x - area.x_range.0),
                                    idxj == idx,
                                    0 <= cj.0 - area.x_range.0 < w,
                                    0 <= chunk_x - area.x_range.0 < w,
                                    0 <= cj.1 - area.z_range.0 < h,
                                    0 <= chunk_z - area.z_range.0 < h,
                                    w >= 1,
                            ;
                            assert(self.diamond_img.pixels@[idxj] == spec_brightness(count));
                        } else {
                            assert(self.diamond_img.pixels@[idxj] == px_pre[idxj]);
                        }
                    } else {
                        assert(coords@[j] == (chunk_x, chunk_z));
                    }
                }
            }
            self.clean_found_veins((chunk_x as i64 * 16, chunk_z as i64 * 16));
            ci = ci + 1;
        }
    }

    /// The per-chunk seed-count histogram, ordered by ascending count.
    pub fn diamonds_per_chunk_sorted(&self) -> (r: Vec<(i64, u32)>)
        requires
            self.wf(),
        ensures
            r@.len() == self.diamonds_per_chunk@.len(),
            forall|a: int, b: int| 0 <= a < b < r@.len() ==> r@[a].0 <= r@[b].0,
            forall|a: int|
                0 <= a < r@.len() ==> ikey_count(self.diamonds_per_chunk@, (#[trigger] r@[a]).0)
                    == r@[a].1,
    {
        sort_ikey_asc(&self.diamonds_per_chunk)
    }

    /// The vein histogram's cells, ordered by ascending height and then
    /// size; each cell counts the accepted veins of that size found at that
    /// height.
    pub fn vein_cells_sorted(&self) -> (r: Vec<((i64, i64), u32)>)
        requires
            self.wf(),
        ensures
            r@.len() == self.vein_counts@.len(),
            forall|a: int, b: int|
                0 <= a < b < r@.len() ==> pkey_lt(r@[a].0, r@[b].0) || r@[a].0 == r@[b].0,
            forall|a: int|
                0 <= a < r@.len() ==> pkey_count(self.vein_counts@, (#[trigger] r@[a]).0)
                    == r@[a].1,
    {
        sort_pkey_asc(&self.vein_counts)
    }
}

} // verus!
