use vstd::prelude::*;

use vstd::arithmetic::div_mod::lemma_fundamental_div_mod_converse;
use vstd::pervasive::unreached;

use crate::chunk::{section_match, section_with_y, Chunk};
use crate::chunk_section::ChunkSection;
use crate::raw::{raw_layer_occ, raw_name_occ, raw_section_at, RawChunk, RawSection};
use crate::store::{store_chunk_at, store_contains, RegionStore};

verus! {

/// Upper bound on cached chunks; eviction drops the least recently used ones
/// once the bound is passed.
pub const MAX_LOADED_CHUNKS: usize = 32;

/// Whether a vertical section index passes the loader's section filter.
pub open spec fn in_section_range(range: Option<(i8, i8)>, sy: int) -> bool {
    match range {
        Some(r) => r.0 <= sy < r.1,
        None => true,
    }
}

/// `c` is the decoding of `raw`, with the sections outside the filter
/// dropped.
pub open spec fn chunk_filtered(raw: RawChunk, range: Option<(i8, i8)>, c: Chunk) -> bool {
    &&& c.wf()
    &&& c.x == raw.x
    &&& c.z == raw.z
    &&& forall|y: int|
        in_section_range(range, y) ==> section_match(
            raw_section_at(raw.sections@, y),
            #[trigger] c.spec_section_at(y),
            raw.x,
            raw.z,
        )
    &&& forall|y: int| !in_section_range(range, y) ==> #[trigger] c.spec_section_at(y) is None
}

/// Whether the cache list holds an entry for a coordinate.
pub open spec fn has_key(l: Seq<((i32, i32), Chunk)>, c: (i32, i32)) -> bool {
    exists|i: int| 0 <= i < l.len() && (#[trigger] l[i]).0 == c
}

/// The index of a coordinate in the recency queue; meaningful only where the
/// queue holds it, and unique where the queue holds no duplicates.
pub open spec fn coord_index(q: Seq<(i32, i32)>, c: (i32, i32)) -> int {
    choose|i: int| 0 <= i < q.len() && q[i] == c
}

/// Moving a coordinate to the most-recently-used end of the queue,
/// appending it where it was absent.
pub open spec fn touch(q: Seq<(i32, i32)>, c: (i32, i32)) -> Seq<(i32, i32)> {
    if q.contains(c) {
        q.remove(coord_index(q, c)).push(c)
    } else {
        q.push(c)
    }
}

/// Dropping least-recently-used coordinates until the bound holds.
pub open spec fn evict(q: Seq<(i32, i32)>) -> Seq<(i32, i32)> {
    if q.len() <= MAX_LOADED_CHUNKS {
        q
    } else {
        q.subrange(q.len() - MAX_LOADED_CHUNKS, q.len() as int)
    }
}

/// The recency queue after one access of coordinate `c`: touched, then
/// bounded.
pub open spec fn next_recency(q: Seq<(i32, i32)>, c: (i32, i32)) -> Seq<(i32, i32)> {
    evict(touch(q, c))
}


/// Every coordinate of the list resolves in the store: what a scan over
/// those coordinates is allowed to assume.
pub open spec fn store_coords_covered(store: RegionStore, cs: Seq<(i32, i32)>) -> bool {
    forall|i: int|
        0 <= i < cs.len() ==> store_contains(
            store.entries@,
            (#[trigger] cs[i]).0 as int,
            cs[i].1 as int,
        )
}

/// Splits a world coordinate into its chunk coordinate and its offset within
/// the chunk: the unique `(q, r)` with `v == 16 * q + r` and `0 <= r < 16`.
pub fn floor_div16(v: i64) -> (res: (i64, u8))
    ensures
        res.0 == v as int / 16,
        res.1 == v as int % 16,
{
    if v >= 0 {
        let u = v as u64;
        let q = (u / 16) as i64;
        let r = (u % 16) as u8;
        proof {
            lemma_fundamental_div_mod_converse(v as int, 16, q as int, r as int);
        }
        (q, r)
    } else {
        let m = (-(v + 1)) as u64;
        let q = -((m / 16) as i64) - 1;
        let r = (15 - (m % 16)) as u8;
        proof {
            assert(m == -(v as int) - 1);
            assert(m as int == 16 * ((m as int) / 16) + (m as int) % 16) by {
                vstd::arithmetic::div_mod::lemma_fundamental_div_mod(m as int, 16);
            }
            assert(v as int == 16 * (q as int) + (r as int));
            lemma_fundamental_div_mod_converse(v as int, 16, q as int, r as int);
        }
        (q, r)
    }
}

/// The type name the backing store gives for a world position, or `None`
/// where its section is absent, filtered out, or outside the representable
/// index range. The store's chunk for the owning coordinate must exist for
/// the question to be meaningful; the loader requires as much.
pub open spec fn spec_voxel_at(
    store: RegionStore,
    range: Option<(i8, i8)>,
    x: int,
    y: int,
    z: int,
) -> Option<Seq<char>> {
    match store_chunk_at(store.entries@, x / 16, z / 16) {
        None => None::<Seq<char>>,
        Some(raw) => {
            let sy = y / 16;
            if sy < -128 || sy > 127 || !in_section_range(range, sy) {
                None::<Seq<char>>
            } else {
                match raw_section_at(raw.sections@, sy) {
                    None => None::<Seq<char>>,
                    Some(rs) => {
                        let off = (y % 16) * 256 + (z % 16) * 16 + (x % 16);
                        let id = crate::raw::section_grid(rs)[off];
                        if id < crate::raw::section_names(rs).len() {
                            Some(crate::raw::section_names(rs)[id as int])
                        } else {
                            None::<Seq<char>>
                        }
                    },
                }
            }
        },
    }
}


/// The raw section the loader's view of the store resolves at one vertical
/// index of one chunk: present iff the chunk is stored, the index passes the
/// filter, and the section carries a packed array.
pub open spec fn stored_section_at(
    store: RegionStore,
    range: Option<(i8, i8)>,
    cx: int,
    cz: int,
    sy: int,
) -> Option<RawSection> {
    if !in_section_range(range, sy) {
        None::<RawSection>
    } else {
        match store_chunk_at(store.entries@, cx, cz) {
            None => None::<RawSection>,
            Some(raw) => raw_section_at(raw.sections@, sy),
        }
    }
}

/// Occurrences of name `k` among the voxels of the stored chunk's filtered
/// sections with vertical index below `sy`.
pub open spec fn chunk_name_occ_upto(
    store: RegionStore,
    range: Option<(i8, i8)>,
    cx: int,
    cz: int,
    k: Seq<char>,
    sy: int,
) -> nat
    decreases sy + 128,
{
    if sy <= -128 {
        0
    } else {
        chunk_name_occ_upto(store, range, cx, cz, k, sy - 1) + match stored_section_at(
            store,
            range,
            cx,
            cz,
            sy - 1,
        ) {
            Some(rs) => raw_name_occ(rs, k, 4096),
            None => 0nat,
        }
    }
}

/// Occurrences of name `k` in the whole stored chunk, filter applied: what a
/// scan of the chunk must count.
pub open spec fn chunk_name_occ(
    store: RegionStore,
    range: Option<(i8, i8)>,
    cx: int,
    cz: int,
    k: Seq<char>,
) -> nat {
    chunk_name_occ_upto(store, range, cx, cz, k, 128)
}

/// Occurrences of name `k` at world layer `y` among the stored chunk's
/// filtered sections with vertical index below `sy`.
pub open spec fn chunk_layer_occ_upto(
    store: RegionStore,
    range: Option<(i8, i8)>,
    cx: int,
    cz: int,
    y: int,
    k: Seq<char>,
    sy: int,
) -> nat
    decreases sy + 128,
{
    if sy <= -128 {
        0
    } else {
        chunk_layer_occ_upto(store, range, cx, cz, y, k, sy - 1) + match stored_section_at(
            store,
            range,
            cx,
            cz,
            sy - 1,
        ) {
            Some(rs) => raw_layer_occ(rs, y, k, 4096),
            None => 0nat,
        }
    }
}

/// Occurrences of name `k` at world layer `y` in the whole stored chunk.
pub open spec fn chunk_layer_occ(
    store: RegionStore,
    range: Option<(i8, i8)>,
    cx: int,
    cz: int,
    y: int,
    k: Seq<char>,
) -> nat {
    chunk_layer_occ_upto(store, range, cx, cz, y, k, 128)
}

/// The occurrences summed over the first `j` of a list of section indices.
pub open spec fn ys_name_occ(
    store: RegionStore,
    range: Option<(i8, i8)>,
    cx: int,
    cz: int,
    ys: Seq<i8>,
    k: Seq<char>,
    j: int,
) -> nat
    decreases j,
{
    if j <= 0 {
        0
    } else {
        ys_name_occ(store, range, cx, cz, ys, k, j - 1) + match stored_section_at(
            store,
            range,
            cx,
            cz,
            ys[j - 1] as int,
        ) {
            Some(rs) => raw_name_occ(rs, k, 4096),
            None => 0nat,
        }
    }
}

/// The per-layer occurrences summed over the first `j` listed section
/// indices.
pub open spec fn ys_layer_occ(
    store: RegionStore,
    range: Option<(i8, i8)>,
    cx: int,
    cz: int,
    ys: Seq<i8>,
    y: int,
    k: Seq<char>,
    j: int,
) -> nat
    decreases j,
{
    if j <= 0 {
        0
    } else {
        ys_layer_occ(store, range, cx, cz, ys, y, k, j - 1) + match stored_section_at(
            store,
            range,
            cx,
            cz,
            ys[j - 1] as int,
        ) {
            Some(rs) => raw_layer_occ(rs, y, k, 4096),
            None => 0nat,
        }
    }
}

/// Vertical indices without a stored section contribute nothing.
pub proof fn lemma_chunk_occ_gap(
    store: RegionStore,
    range: Option<(i8, i8)>,
    cx: int,
    cz: int,
    a: int,
    b: int,
)
    requires
        -128 <= a <= b,
        forall|sy: int|
            a <= sy < b ==> stored_section_at(store, range, cx, cz, sy) is None,
    ensures
        forall|k: Seq<char>| #![trigger chunk_name_occ_upto(store, range, cx, cz, k, b)]
            chunk_name_occ_upto(store, range, cx, cz, k, b) == chunk_name_occ_upto(
                store,
                range,
                cx,
                cz,
                k,
                a,
            ),
        forall|y: int, k: Seq<char>|
            #![trigger chunk_layer_occ_upto(store, range, cx, cz, y, k, b)]
            chunk_layer_occ_upto(store, range, cx, cz, y, k, b) == chunk_layer_occ_upto(
                store,
                range,
                cx,
                cz,
                y,
                k,
                a,
            ),
    decreases b - a,
{
    if b > a {
        lemma_chunk_occ_gap(store, range, cx, cz, a, b - 1);
        assert(stored_section_at(store, range, cx, cz, b - 1) is None);
        assert forall|k: Seq<char>|
            chunk_name_occ_upto(store, range, cx, cz, k, b) == chunk_name_occ_upto(
                store,
                range,
                cx,
                cz,
                k,
                a,
            ) by {
            assert(chunk_name_occ_upto(store, range, cx, cz, k, b) == chunk_name_occ_upto(
                store,
                range,
                cx,
                cz,
                k,
                b - 1,
            ));
        }
        assert forall|y: int, k: Seq<char>|
            chunk_layer_occ_upto(store, range, cx, cz, y, k, b) == chunk_layer_occ_upto(
                store,
                range,
                cx,
                cz,
                y,
                k,
                a,
            ) by {
            assert(chunk_layer_occ_upto(store, range, cx, cz, y, k, b) == chunk_layer_occ_upto(
                store,
                range,
                cx,
                cz,
                y,
                k,
                b - 1,
            ));
        }
    }
}

/// Walking a chunk's stored section indices in ascending order accumulates
/// exactly the chunk's occurrence counts; the helper carries the invariant
/// up to the `j`-th index.
proof fn lemma_ys_cover_upto(
    store: RegionStore,
    range: Option<(i8, i8)>,
    cx: int,
    cz: int,
    ys: Seq<i8>,
    j: int,
)
    requires
        forall|a: int, b: int| 0 <= a < b < ys.len() ==> ys[a] < ys[b],
        forall|yv: i8|
            ys.contains(yv) == (stored_section_at(store, range, cx, cz, yv as int) is Some),
        0 <= j <= ys.len(),
    ensures
        forall|k: Seq<char>| #![trigger ys_name_occ(store, range, cx, cz, ys, k, j)]
            ys_name_occ(store, range, cx, cz, ys, k, j) == chunk_name_occ_upto(
                store,
                range,
                cx,
                cz,
                k,
                if j == 0 {
                    -128int
                } else {
                    ys[j - 1] + 1
                },
            ),
        forall|y: int, k: Seq<char>| #![trigger ys_layer_occ(store, range, cx, cz, ys, y, k, j)]
            ys_layer_occ(store, range, cx, cz, ys, y, k, j) == chunk_layer_occ_upto(
                store,
                range,
                cx,
                cz,
                y,
                k,
                if j == 0 {
                    -128int
                } else {
                    ys[j - 1] + 1
                },
            ),
    decreases j,
{
    if j > 0 {
        lemma_ys_cover_upto(store, range, cx, cz, ys, j - 1);
        let prev: int = if j == 1 {
            -128int
        } else {
            ys[j - 2] + 1
        };
        let cur = ys[j - 1] as int;
        assert(prev <= cur) by {
            if j >= 2 {
                assert(ys[j - 2] < ys[j - 1]);
            } else {
                assert(-128 <= ys[0] as int);
            }
        }
        assert forall|sy: int|
            prev <= sy < cur implies stored_section_at(store, range, cx, cz, sy) is None by {
            let yv = sy as i8;
            assert(-128 <= sy <= 127);
            assert(yv as int == sy);
            if ys.contains(yv) {
                let a = choose|a: int| 0 <= a < ys.len() && ys[a] == yv;
                if a <= j - 2 {
                    assert(ys[a] <= ys[j - 2] || a == j - 2);
                    assert(sy <= ys[j - 2]);
                } else {
                    assert(ys[j - 1] <= ys[a] || a == j - 1);
                    assert(sy >= cur);
                }
            }
        }
        lemma_chunk_occ_gap(store, range, cx, cz, prev, cur);
        assert(stored_section_at(store, range, cx, cz, cur) is Some) by {
            assert(ys[j - 1] == ys[j - 1]);
            assert(ys.contains(ys[j - 1]));
        }
        assert forall|k: Seq<char>|
            ys_name_occ(store, range, cx, cz, ys, k, j) == chunk_name_occ_upto(
                store,
                range,
                cx,
                cz,
                k,
                cur + 1,
            ) by {
            assert(ys_name_occ(store, range, cx, cz, ys, k, j) == ys_name_occ(
                store,
                range,
                cx,
                cz,
                ys,
                k,
                j - 1,
            ) + match stored_section_at(store, range, cx, cz, cur) {
                Some(rs) => raw_name_occ(rs, k, 4096),
                None => 0nat,
            });
            assert(chunk_name_occ_upto(store, range, cx, cz, k, cur + 1)
                == chunk_name_occ_upto(store, range, cx, cz, k, cur) + match stored_section_at(
                store,
                range,
                cx,
                cz,
                cur,
            ) {
                Some(rs) => raw_name_occ(rs, k, 4096),
                None => 0nat,
            });
            assert(chunk_name_occ_upto(store, range, cx, cz, k, cur) == chunk_name_occ_upto(
                store,
                range,
                cx,
                cz,
                k,
                prev,
            ));
        }
        assert forall|y: int, k: Seq<char>|
            ys_layer_occ(store, range, cx, cz, ys, y, k, j) == chunk_layer_occ_upto(
                store,
                range,
                cx,
                cz,
                y,
                k,
                cur + 1,
            ) by {
            assert(ys_layer_occ(store, range, cx, cz, ys, y, k, j) == ys_layer_occ(
                store,
                range,
                cx,
                cz,
                ys,
                y,
                k,
                j - 1,
            ) + match stored_section_at(store, range, cx, cz, cur) {
                Some(rs) => raw_layer_occ(rs, y, k, 4096),
                None => 0nat,
            });
            assert(chunk_layer_occ_upto(store, range, cx, cz, y, k, cur + 1)
                == chunk_layer_occ_upto(store, range, cx, cz, y, k, cur)
                + match stored_section_at(store, range, cx, cz, cur) {
                Some(rs) => raw_layer_occ(rs, y, k, 4096),
                None => 0nat,
            });
            assert(chunk_layer_occ_upto(store, range, cx, cz, y, k, cur)
                == chunk_layer_occ_upto(store, range, cx, cz, y, k, prev));
        }
    }
}

/// Walking every stored section index in ascending order accumulates the
/// chunk's whole occurrence counts.
pub proof fn lemma_ys_cover(
    store: RegionStore,
    range: Option<(i8, i8)>,
    cx: int,
    cz: int,
    ys: Seq<i8>,
)
    requires
        forall|a: int, b: int| 0 <= a < b < ys.len() ==> ys[a] < ys[b],
        forall|yv: i8|
            ys.contains(yv) == (stored_section_at(store, range, cx, cz, yv as int) is Some),
    ensures
        forall|k: Seq<char>|
            #![trigger chunk_name_occ(store, range, cx, cz, k)]
            ys_name_occ(store, range, cx, cz, ys, k, ys.len() as int) == chunk_name_occ(
                store,
                range,
                cx,
                cz,
                k,
            ),
        forall|y: int, k: Seq<char>|
            #![trigger chunk_layer_occ(store, range, cx, cz, y, k)]
            ys_layer_occ(store, range, cx, cz, ys, y, k, ys.len() as int) == chunk_layer_occ(
                store,
                range,
                cx,
                cz,
                y,
                k,
            ),
{
    let n = ys.len() as int;
    lemma_ys_cover_upto(store, range, cx, cz, ys, n);
    let last: int = if n == 0 {
        -128int
    } else {
        ys[n - 1] + 1
    };
    assert forall|sy: int|
        last <= sy < 128 implies stored_section_at(store, range, cx, cz, sy) is None by {
        let yv = sy as i8;
        assert(yv as int == sy);
        if ys.contains(yv) {
            let a = choose|a: int| 0 <= a < ys.len() && ys[a] == yv;
            assert(ys[a] <= ys[n - 1] || a == n - 1);
        }
    }
    lemma_chunk_occ_gap(store, range, cx, cz, last, 128);
}

/// A sum over listed sections counts at most 4096 voxels per section.
pub proof fn lemma_ys_occ_bound(
    store: RegionStore,
    range: Option<(i8, i8)>,
    cx: int,
    cz: int,
    ys: Seq<i8>,
    k: Seq<char>,
    j: int,
)
    requires
        0 <= j,
    ensures
        ys_name_occ(store, range, cx, cz, ys, k, j) <= j * 4096,
    decreases j,
{
    if j > 0 {
        lemma_ys_occ_bound(store, range, cx, cz, ys, k, j - 1);
        match stored_section_at(store, range, cx, cz, ys[j - 1] as int) {
            Some(rs) => {
                crate::raw::lemma_raw_occ_bound(rs, k, 4096);
            },
            None => {},
        }
        assert(j * 4096 == (j - 1) * 4096 + 4096) by (nonlinear_arith);
    }
}

/// Keeps only the sections whose vertical index lies in `[lo, hi)`.
fn filter_chunk(c: Chunk, lo: i8, hi: i8) -> (r: Chunk)
    requires
        c.wf(),
    ensures
        r.wf(),
        r.x == c.x && r.z == c.z,
        forall|y: int|
            lo <= y < hi ==> #[trigger] r.spec_section_at(y) == c.spec_section_at(y),
        forall|y: int| !(lo <= y < hi) ==> #[trigger] r.spec_section_at(y) is None,
{
    let ghost orig = c.sections@;
    let x = c.x;
    let z = c.z;
    let mut rest = c.sections;
    let mut kept: Vec<ChunkSection> = Vec::new();
    let ghost n = orig.len() as int;
    let ghost mut k: int = 0;
    proof {
        assert(rest@ =~= orig.subrange(0, n));
        assert(orig.subrange(0, 0) =~= Seq::<ChunkSection>::empty());
    }
    while rest.len() > 0
        invariant
            0 <= k <= n,
            n == orig.len(),
            rest@ == orig.subrange(k, n),
            forall|p: int, q: int| 0 <= p < q < orig.len() ==> orig[p].pos.1 != orig[q].pos.1,
            forall|i: int|
                0 <= i < orig.len() ==> {
                    let s = #[trigger] orig[i];
                    s.wf() && s.pos.0 == x && s.pos.2 == z
                },
            forall|i: int|
                0 <= i < kept@.len() ==> exists|j: int|
                    0 <= j < k && #[trigger] kept@[i] == orig[j],
            forall|p: int, q: int|
                0 <= p < q < kept@.len() ==> kept@[p].pos.1 != kept@[q].pos.1,
            forall|y: int|
                lo <= y < hi ==> #[trigger] section_with_y(kept@, y) == section_with_y(
                    orig.subrange(0, k),
                    y,
                ),
            forall|y: int| !(lo <= y < hi) ==> #[trigger] section_with_y(kept@, y) is None,
        decreases rest.len(),
    {
        let s = rest.remove(0);
        let ghost kept0 = kept@;
        proof {
            assert(s == orig[k]);
            assert(rest@ =~= orig.subrange(k + 1, n));
            assert(orig.subrange(0, k + 1).drop_last() =~= orig.subrange(0, k));
            assert(orig.subrange(0, k + 1).last() == orig[k]);
        }
        let ghost prefix1 = orig.subrange(0, k + 1);
        let sy = s.pos.1;
        if lo <= sy && sy < hi {
            kept.push(s);
            proof {
                assert(kept@.drop_last() =~= kept0);
                assert(kept@.last() == s);
                assert forall|i: int|
                    0 <= i < kept@.len() implies exists|j: int|
                        0 <= j < k + 1 && #[trigger] kept@[i] == orig[j] by {
                    if i < kept0.len() {
                        assert(kept@[i] == kept0[i]);
                        let j = choose|j: int| 0 <= j < k && kept0[i] == orig[j];
                        assert(kept@[i] == orig[j]);
                    } else {
                        assert(kept@[i] == orig[k]);
                    }
                }
                assert forall|p: int, q: int|
                    0 <= p < q < kept@.len() implies kept@[p].pos.1 != kept@[q].pos.1 by {
                    if q == kept@.len() - 1 {
                        let j = choose|j: int| 0 <= j < k && kept0[p] == orig[j];
                        assert(kept@[p] == orig[j]);
                        assert(kept@[q] == orig[k]);
                    } else {
                        assert(kept@[p] == kept0[p] && kept@[q] == kept0[q]);
                    }
                }
                assert forall|y: int|
                    lo <= y < hi implies #[trigger] section_with_y(kept@, y) == section_with_y(
                    prefix1,
                    y,
                ) by {
                    if y == sy as int {
                        assert(section_with_y(kept@, y) == Some(s));
                        assert(section_with_y(prefix1, y) == Some(s));
                    } else {
                        assert(section_with_y(kept@, y) == section_with_y(kept0, y));
                        assert(section_with_y(prefix1, y) == section_with_y(
                            orig.subrange(0, k),
                            y,
                        ));
                    }
                }
                assert forall|y: int|
                    !(lo <= y < hi) implies #[trigger] section_with_y(kept@, y) is None by {
                    assert(y != sy as int);
                    assert(section_with_y(kept@, y) == section_with_y(kept0, y));
                }
            }
        } else {
            proof {
                assert forall|y: int|
                    lo <= y < hi implies #[trigger] section_with_y(kept@, y) == section_with_y(
                    prefix1,
                    y,
                ) by {
                    assert(y != sy as int);
                    assert(section_with_y(prefix1, y) == section_with_y(
                        orig.subrange(0, k),
                        y,
                    ));
                }
            }
        }
        proof {
            k = k + 1;
        }
    }
    proof {
        assert(orig.subrange(0, n) =~= orig);
    }
    Chunk { sections: kept, x, z }
}

/// Resolves chunk coordinates to decoded chunks, paging them in from the
/// backing store on demand and holding at most `MAX_LOADED_CHUNKS` of them;
/// once the bound is passed, the least recently used chunk is dropped.
pub struct ChunkLoader {
    pub store: RegionStore,
    pub loaded_chunks: Vec<((i32, i32), Chunk)>,
    pub recently_loaded_chunks: Vec<(i32, i32)>,
    pub section_range: Option<(i8, i8)>,
}

impl ChunkLoader {
    /// A cached chunk is exactly the (filtered) decoding of the store's
    /// chunk for its coordinate.
    pub open spec fn cache_entry_ok(self, e: ((i32, i32), Chunk)) -> bool {
        &&& store_chunk_at(self.store.entries@, e.0.0 as int, e.0.1 as int) is Some
        &&& chunk_filtered(
            store_chunk_at(self.store.entries@, e.0.0 as int, e.0.1 as int)->Some_0,
            self.section_range,
            e.1,
        )
    }

    /// The store is valid; the recency queue holds each cached coordinate
    /// exactly once and nothing else; the bound holds; and every cached
    /// chunk is the decoding of its stored counterpart.
    pub open spec fn wf(self) -> bool {
        &&& self.store.wf()
        &&& self.recently_loaded_chunks@.len() == self.loaded_chunks@.len()
        &&& self.recently_loaded_chunks@.len() <= MAX_LOADED_CHUNKS
        &&& forall|p: int, q: int|
            0 <= p < q < self.recently_loaded_chunks@.len()
                ==> self.recently_loaded_chunks@[p] != self.recently_loaded_chunks@[q]
        &&& forall|p: int, q: int|
            0 <= p < q < self.loaded_chunks@.len() ==> self.loaded_chunks@[p].0
                != self.loaded_chunks@[q].0
        &&& forall|i: int|
            0 <= i < self.recently_loaded_chunks@.len() ==> has_key(
                self.loaded_chunks@,
                #[trigger] self.recently_loaded_chunks@[i],
            )
        &&& forall|i: int|
            0 <= i < self.loaded_chunks@.len() ==> self.recently_loaded_chunks@.contains(
                (#[trigger] self.loaded_chunks@[i]).0,
            )
        &&& forall|i: int|
            0 <= i < self.loaded_chunks@.len() ==> self.cache_entry_ok(
                #[trigger] self.loaded_chunks@[i],
            )
    }

    /// A fresh loader over a validated store, with an optional vertical
    /// section filter `[lo, hi)` applied to everything it loads.
    pub fn new(store: RegionStore, section_range: Option<(i8, i8)>) -> (r: ChunkLoader)
        requires
            store.wf(),
        ensures
            r.wf(),
            r.store == store,
            r.section_range == section_range,
            r.recently_loaded_chunks@.len() == 0,
            r.loaded_chunks@.len() == 0,
    {
        ChunkLoader {
            store,
            loaded_chunks: Vec::new(),
            recently_loaded_chunks: Vec::new(),
            section_range,
        }
    }

    fn find_loaded(&self, cx: i32, cz: i32) -> (r: Option<usize>)
        ensures
            match r {
                Some(i) => i < self.loaded_chunks@.len() && self.loaded_chunks@[i as int].0 == (
                    cx,
                    cz,
                ),
                None => !has_key(self.loaded_chunks@, (cx, cz)),
            },
    {
        let mut i: usize = 0;
        while i < self.loaded_chunks.len()
            invariant
                i <= self.loaded_chunks@.len(),
                forall|j: int|
                    0 <= j < i ==> (#[trigger] self.loaded_chunks@[j]).0 != (cx, cz),
            decreases self.loaded_chunks.len() - i,
        {
            if self.loaded_chunks[i].0.0 == cx && self.loaded_chunks[i].0.1 == cz {
                proof {
                    assert(self.loaded_chunks@[i as int].0 == (cx, cz));
                }
                return Some(i);
            }
            i = i + 1;
        }
        None
    }

    fn find_recency(&self, cx: i32, cz: i32) -> (r: Option<usize>)
        ensures
            match r {
                Some(i) => i < self.recently_loaded_chunks@.len()
                    && self.recently_loaded_chunks@[i as int] == (cx, cz),
                None => !self.recently_loaded_chunks@.contains((cx, cz)),
            },
    {
        let mut i: usize = 0;
        while i < self.recently_loaded_chunks.len()
            invariant
                i <= self.recently_loaded_chunks@.len(),
                forall|j: int|
                    0 <= j < i ==> #[trigger] self.recently_loaded_chunks@[j] != (cx, cz),
            decreases self.recently_loaded_chunks.len() - i,
        {
            if self.recently_loaded_chunks[i].0 == cx && self.recently_loaded_chunks[i].1 == cz {
                proof {
                    assert(self.recently_loaded_chunks@[i as int] == (cx, cz));
                }
                return Some(i);
            }
            i = i + 1;
        }
        proof {
            if self.recently_loaded_chunks@.contains((cx, cz)) {
                let j = choose|j: int|
                    0 <= j < self.recently_loaded_chunks@.len()
                        && self.recently_loaded_chunks@[j] == (cx, cz);
                assert(false);
            }
        }
        None
    }

    /// The cached chunk for a coordinate, loading and decoding it from the
    /// backing store on a miss. The coordinate becomes the most recently
    /// used one, and the least recently used chunk is evicted where the
    /// cache would otherwise exceed its bound.
    pub fn get_or_load(&mut self, chunk_x: i32, chunk_z: i32) -> (r: &Chunk)
        requires
            old(self).wf(),
            store_contains(old(self).store.entries@, chunk_x as int, chunk_z as int),
        ensures
            final(self).wf(),
            final(self).store == old(self).store,
            final(self).section_range == old(self).section_range,
            final(self).recently_loaded_chunks@ == next_recency(
                old(self).recently_loaded_chunks@,
                (chunk_x, chunk_z),
            ),
            chunk_filtered(
                store_chunk_at(
                    old(self).store.entries@,
                    chunk_x as int,
                    chunk_z as int,
                )->Some_0,
                old(self).section_range,
                *r,
            ),
    {
        let key = (chunk_x, chunk_z);
        let ghost q0 = self.recently_loaded_chunks@;
        let ghost l0 = self.loaded_chunks@;
        let ghost t = touch(q0, key);
        match self.find_loaded(chunk_x, chunk_z) {
            Some(hit) => {
                let ri = match self.find_recency(chunk_x, chunk_z) {
                    Some(ri) => ri,
                    None => {
                        proof {
                            assert(q0.contains(l0[hit as int].0));
                        }
                        unreached()
                    },
                };
                self.recently_loaded_chunks.remove(ri);
                self.recently_loaded_chunks.push(key);
                proof {
                    let q1 = q0.remove(ri as int);
                    let qn = self.recently_loaded_chunks@;
                    assert(qn == q1.push(key));
                    assert(q0.contains(key)) by {
                        assert(q0[ri as int] == key);
                    }
                    let ci = coord_index(q0, key);
                    assert(0 <= ci < q0.len() && q0[ci] == key);
                    assert(ci == ri as int);
                    assert(qn == t);
                    assert(forall|j: int|
                        0 <= j < q1.len() ==> q1[j] == (if j < ri as int {
                            q0[j]
                        } else {
                            q0[j + 1]
                        }));
                    assert(forall|j: int| 0 <= j < q1.len() ==> q1[j] != key);
                    assert forall|p: int, q: int| 0 <= p < q < qn.len() implies qn[p]
                        != qn[q] by {
                        if q == qn.len() - 1 {
                            assert(qn[p] == q1[p]);
                        } else {
                            assert(qn[p] == q1[p] && qn[q] == q1[q]);
                        }
                    }
                    assert forall|i: int| 0 <= i < qn.len() implies has_key(
                        self.loaded_chunks@,
                        #[trigger] qn[i],
                    ) by {
                        if i == qn.len() - 1 {
                            assert(self.loaded_chunks@[hit as int].0 == key);
                        } else {
                            assert(qn[i] == q1[i]);
                        }
                    }
                    assert forall|i: int|
                        0 <= i < self.loaded_chunks@.len() implies qn.contains(
                        (#[trigger] self.loaded_chunks@[i]).0,
                    ) by {
                        let c = self.loaded_chunks@[i].0;
                        if c == key {
                            assert(qn[qn.len() - 1] == key);
                        } else {
                            assert(q0.contains(c));
                            let j = choose|j: int| 0 <= j < q0.len() && q0[j] == c;
                            assert(j != ri as int);
                            if j < ri as int {
                                assert(qn[j] == c);
                            } else {
                                assert(qn[j - 1] == c);
                            }
                        }
                    }
                }
            },
            None => {
                proof {
                    assert(!q0.contains(key)) by {
                        if q0.contains(key) {
                            let j = choose|j: int| 0 <= j < q0.len() && q0[j] == key;
                            assert(has_key(l0, q0[j]));
                        }
                    }
                    assert(t == q0.push(key));
                    crate::store::lemma_store_at_entry(
                        self.store.entries@,
                        chunk_x as int,
                        chunk_z as int,
                    );
                }
                let chunk = {
                    let raw = match self.store.get(chunk_x, chunk_z) {
                        Some(raw) => raw,
                        None => unreached(),
                    };
                    let c0 = match Chunk::from_raw(raw) {
                        Ok(c) => c,
                        Err(_) => unreached(),
                    };
                    match self.section_range {
                        Some(rg) => filter_chunk(c0, rg.0, rg.1),
                        None => c0,
                    }
                };
                proof {
                    let rawv = store_chunk_at(
                        self.store.entries@,
                        chunk_x as int,
                        chunk_z as int,
                    )->Some_0;
                    assert(chunk_filtered(rawv, self.section_range, chunk));
                }
                self.loaded_chunks.push((key, chunk));
                self.recently_loaded_chunks.push(key);
                proof {
                    let qn = self.recently_loaded_chunks@;
                    let ln = self.loaded_chunks@;
                    assert(qn == t);
                    assert(ln.drop_last() =~= l0 && qn.drop_last() =~= q0);
                    assert forall|p: int, q: int| 0 <= p < q < qn.len() implies qn[p]
                        != qn[q] by {
                        if q == qn.len() - 1 {
                            assert(qn[p] == q0[p]);
                        } else {
                            assert(qn[p] == q0[p] && qn[q] == q0[q]);
                        }
                    }
                    assert forall|p: int, q: int| 0 <= p < q < ln.len() implies ln[p].0
                        != ln[q].0 by {
                        if q == ln.len() - 1 {
                            assert(ln[p] == l0[p]);
                            assert(!q0.contains(ln[p].0) ==> false) by {
                                assert(q0.contains(l0[p].0));
                            }
                            assert(ln[p].0 != key);
                        } else {
                            assert(ln[p] == l0[p] && ln[q] == l0[q]);
                        }
                    }
                    assert forall|i: int| 0 <= i < qn.len() implies has_key(
                        ln,
                        #[trigger] qn[i],
                    ) by {
                        if i == qn.len() - 1 {
                            assert(ln[ln.len() - 1].0 == key);
                        } else {
                            assert(qn[i] == q0[i]);
                            assert(has_key(l0, q0[i]));
                            let j = choose|j: int| 0 <= j < l0.len() && l0[j].0 == q0[i];
                            assert(ln[j].0 == q0[i]);
                        }
                    }
                    assert forall|i: int| 0 <= i < ln.len() implies qn.contains(
                        (#[trigger] ln[i]).0,
                    ) by {
                        if i == ln.len() - 1 {
                            assert(qn[qn.len() - 1] == key);
                        } else {
                            assert(ln[i] == l0[i]);
                            assert(q0.contains(l0[i].0));
                            let j = choose|j: int| 0 <= j < q0.len() && q0[j] == l0[i].0;
                            assert(qn[j] == l0[i].0);
                        }
                    }
                    assert forall|i: int| 0 <= i < ln.len() implies self.cache_entry_ok(
                        #[trigger] ln[i],
                    ) by {
                        if i < ln.len() - 1 {
                            assert(ln[i] == l0[i]);
                        }
                    }
                }
            },
        }
        proof {
            assert(self.recently_loaded_chunks@ == t);
            assert(t.subrange(0, t.len() as int) =~= t);
            assert(t.len() <= MAX_LOADED_CHUNKS + 1);
            assert(t.last() == key) by {
                if q0.contains(key) {
                    assert(t == q0.remove(coord_index(q0, key)).push(key));
                }
            }
        }
        while self.recently_loaded_chunks.len() > MAX_LOADED_CHUNKS
            invariant
                self.store == old(self).store,
                self.section_range == old(self).section_range,
                self.store.wf(),
                t == touch(old(self).recently_loaded_chunks@, (chunk_x, chunk_z)),
                t.len() <= MAX_LOADED_CHUNKS + 1,
                t.last() == (chunk_x, chunk_z),
                store_contains(self.store.entries@, chunk_x as int, chunk_z as int),
                self.recently_loaded_chunks@.len() <= t.len(),
                self.recently_loaded_chunks@.len() >= MAX_LOADED_CHUNKS
                    || self.recently_loaded_chunks@.len() == t.len(),
                self.recently_loaded_chunks@ == t.subrange(
                    t.len() - self.recently_loaded_chunks@.len(),
                    t.len() as int,
                ),
                self.recently_loaded_chunks@.len() == self.loaded_chunks@.len(),
                forall|p: int, q: int|
                    0 <= p < q < self.recently_loaded_chunks@.len()
                        ==> self.recently_loaded_chunks@[p] != self.recently_loaded_chunks@[q],
                forall|p: int, q: int|
                    0 <= p < q < self.loaded_chunks@.len() ==> self.loaded_chunks@[p].0
                        != self.loaded_chunks@[q].0,
                forall|i: int|
                    0 <= i < self.recently_loaded_chunks@.len() ==> has_key(
                        self.loaded_chunks@,
                        #[trigger] self.recently_loaded_chunks@[i],
                    ),
                forall|i: int|
                    0 <= i < self.loaded_chunks@.len()
                        ==> self.recently_loaded_chunks@.contains(
                        (#[trigger] self.loaded_chunks@[i]).0,
                    ),
                forall|i: int|
                    0 <= i < self.loaded_chunks@.len() ==> self.cache_entry_ok(
                        #[trigger] self.loaded_chunks@[i],
                    ),
            decreases self.recently_loaded_chunks@.len(),
        {
            let ghost qc = self.recently_loaded_chunks@;
            let ghost lc = self.loaded_chunks@;
            let victim = self.recently_loaded_chunks.remove(0);
            let di = match self.find_loaded(victim.0, victim.1) {
                Some(d) => d,
                None => {
                    proof {
                        assert(has_key(lc, qc[0]));
                        assert(victim == qc[0]);
                    }
                    unreached()
                },
            };
            self.loaded_chunks.remove(di);
            proof {
                let qn = self.recently_loaded_chunks@;
                let ln = self.loaded_chunks@;
                assert(qn == qc.remove(0));
                assert(ln == lc.remove(di as int));
                assert(forall|j: int| 0 <= j < qn.len() ==> qn[j] == qc[j + 1]);
                assert(forall|j: int|
                    0 <= j < ln.len() ==> ln[j] == (if j < di as int {
                        lc[j]
                    } else {
                        lc[j + 1]
                    }));
                assert(qn =~= t.subrange(t.len() - qn.len(), t.len() as int));
                assert(lc[di as int].0 == victim);
                assert forall|i: int| 0 <= i < qn.len() implies has_key(
                    ln,
                    #[trigger] qn[i],
                ) by {
                    assert(qn[i] == qc[i + 1]);
                    assert(has_key(lc, qc[i + 1]));
                    let j = choose|j: int| 0 <= j < lc.len() && lc[j].0 == qc[i + 1];
                    assert(qc[i + 1] != victim);
                    assert(j != di as int);
                    if j < di as int {
                        assert(ln[j].0 == qc[i + 1]);
                    } else {
                        assert(ln[j - 1].0 == qc[i + 1]);
                    }
                }
                assert forall|i: int| 0 <= i < ln.len() implies qn.contains(
                    (#[trigger] ln[i]).0,
                ) by {
                    let c = ln[i].0;
                    let oi: int = if i < di as int {
                        i
                    } else {
                        i + 1
                    };
                    assert(ln[i] == lc[oi]);
                    assert(qc.contains(c));
                    let j = choose|j: int| 0 <= j < qc.len() && qc[j] == c;
                    assert(c != victim) by {
                        assert(lc[di as int].0 == victim);
                        assert(oi != di as int);
                    }
                    assert(j != 0);
                    assert(qn[j - 1] == c);
                }
                assert forall|i: int| 0 <= i < ln.len() implies self.cache_entry_ok(
                    #[trigger] ln[i],
                ) by {
                    if i < di as int {
                        assert(ln[i] == lc[i]);
                    } else {
                        assert(ln[i] == lc[i + 1]);
                    }
                }
            }
        }
        proof {
            let qn = self.recently_loaded_chunks@;
            if t.len() <= MAX_LOADED_CHUNKS {
                assert(qn.len() == t.len()) by {
                    assert(qn.len() <= t.len());
                    if qn.len() < t.len() {
                        assert(qn.len() <= MAX_LOADED_CHUNKS);
                    }
                }
                assert(qn =~= t);
                assert(qn == evict(t));
            } else {
                assert(qn.len() == MAX_LOADED_CHUNKS);
                assert(qn == evict(t));
            }
            assert(qn.len() >= 1);
            assert(qn[qn.len() - 1] == t[t.len() - 1]);
            assert(qn.contains((chunk_x, chunk_z))) by {
                assert(qn[qn.len() - 1] == (chunk_x, chunk_z));
            }
            assert(has_key(self.loaded_chunks@, (chunk_x, chunk_z)));
        }
        let idx = match self.find_loaded(chunk_x, chunk_z) {
            Some(i) => i,
            None => unreached(),
        };
        proof {
            assert(self.cache_entry_ok(self.loaded_chunks@[idx as int]));
        }
        &self.loaded_chunks[idx].1
    }

    /// The type name at a world position, paging the owning chunk in (and
    /// touching its recency) exactly as `get_or_load` does. `None` reports an
    /// absent section: never loaded, filtered out, outside the representable
    /// index range, or carrying no packed array. The answer depends only on
    /// the backing store and the filter, never on what happens to be cached.
    pub fn get_blockstate_at(&mut self, x: i64, y: i32, z: i64) -> (r: Option<&str>)
        requires
            old(self).wf(),
            store_contains(old(self).store.entries@, x as int / 16, z as int / 16),
        ensures
            final(self).wf(),
            final(self).store == old(self).store,
            final(self).section_range == old(self).section_range,
            final(self).recently_loaded_chunks@ == next_recency(
                old(self).recently_loaded_chunks@,
                (((x as int) / 16) as i32, ((z as int) / 16) as i32),
            ),
            match r {
                Some(s) => spec_voxel_at(
                    old(self).store,
                    old(self).section_range,
                    x as int,
                    y as int,
                    z as int,
                ) == Some(s@),
                None => spec_voxel_at(
                    old(self).store,
                    old(self).section_range,
                    x as int,
                    y as int,
                    z as int,
                ) is None,
            },
    {
        let (cx64, lx) = floor_div16(x);
        let (cz64, lz) = floor_div16(z);
        let (sy64, ly) = floor_div16(y as i64);
        proof {
            crate::store::lemma_store_at_entry(
                self.store.entries@,
                cx64 as int,
                cz64 as int,
            );
        }
        let cx = cx64 as i32;
        let cz = cz64 as i32;
        let ghost range = self.section_range;
        let ghost rawv = store_chunk_at(self.store.entries@, x as int / 16, z as int / 16)->Some_0;
        let chunk = self.get_or_load(cx, cz);
        if sy64 < -128 || sy64 > 127 {
            return None;
        }
        let sy = sy64 as i8;
        proof {
            assert(sy as int == (y as int) / 16);
            assert(chunk_filtered(rawv, range, *chunk));
        }
        match chunk.get_section(sy) {
            None => {
                proof {
                    if in_section_range(range, sy as int) {
                        assert(section_match(
                            raw_section_at(rawv.sections@, sy as int),
                            chunk.spec_section_at(sy as int),
                            rawv.x,
                            rawv.z,
                        ));
                    }
                }
                None
            },
            Some(section) => {
                proof {
                    assert(chunk.spec_section_at(sy as int) == Some(*section));
                    assert(in_section_range(range, sy as int)) by {
                        if !in_section_range(range, sy as int) {
                            assert(chunk.spec_section_at(sy as int) is None);
                        }
                    }
                    assert(section_match(
                        raw_section_at(rawv.sections@, sy as int),
                        chunk.spec_section_at(sy as int),
                        rawv.x,
                        rawv.z,
                    ));
                    let rs = raw_section_at(rawv.sections@, sy as int)->Some_0;
                    assert(section.decodes(rs, rawv.x, rawv.z));
                    crate::chunk::lemma_section_with_y_elem(chunk.sections@, sy as int);
                    assert(section.wf());
                    assert(lx < 16 && ly < 16 && lz < 16);
                }
                let res = section.get_block_at(lx as usize, ly as usize, lz as usize);
                proof {
                    let rs = raw_section_at(rawv.sections@, sy as int)->Some_0;
                    let off = (ly as int) * 256 + (lz as int) * 16 + (lx as int);
                    assert(section.spec_block_at(lx as int, ly as int, lz as int)
                        == section.palette.names()[section.blocks.contents@[off] as int]);
                    assert(section.blocks.contents@ == crate::raw::section_grid(rs));
                    assert(section.palette.names() == crate::raw::section_names(rs));
                    assert(section.blocks.contents@[off] < section.palette.names().len());
                }
                res
            },
        }
    }
}

/// Coordinates that are pairwise distinct, as a scan over a fresh area
/// produces them.
pub open spec fn distinct_coords(cs: Seq<(i32, i32)>) -> bool {
    forall|p: int, q: int| 0 <= p < q < cs.len() ==> cs[p] != cs[q]
}

/// The recency queue after accessing the given coordinates in order,
/// starting from queue `q0`.
pub open spec fn run_recency(q0: Seq<(i32, i32)>, cs: Seq<(i32, i32)>) -> Seq<(i32, i32)>
    decreases cs.len(),
{
    if cs.len() == 0 {
        q0
    } else {
        next_recency(run_recency(q0, cs.drop_last()), cs.last())
    }
}

/// The cache bound. Accessing any sequence of distinct coordinates from a
/// fresh cache leaves exactly the most recent `MAX_LOADED_CHUNKS` of them in
/// the recency queue, in access order; in particular, after
/// `MAX_LOADED_CHUNKS + k` distinct loads exactly `MAX_LOADED_CHUNKS`
/// coordinates remain, and they are the most recently accessed ones.
pub proof fn lemma_cache_bound(cs: Seq<(i32, i32)>)
    requires
        distinct_coords(cs),
    ensures
        run_recency(Seq::<(i32, i32)>::empty(), cs) == if cs.len() <= MAX_LOADED_CHUNKS {
            cs
        } else {
            cs.subrange(cs.len() - MAX_LOADED_CHUNKS, cs.len() as int)
        },
    decreases cs.len(),
{
    let e = Seq::<(i32, i32)>::empty();
    if cs.len() == 0 {
        assert(run_recency(e, cs) =~= cs);
    } else {
        let dl = cs.drop_last();
        let last = cs.last();
        assert(distinct_coords(dl)) by {
            assert(forall|p: int, q: int|
                0 <= p < q < dl.len() ==> dl[p] == cs[p] && dl[q] == cs[q]);
        }
        lemma_cache_bound(dl);
        let prev = run_recency(e, dl);
        let a: int = if dl.len() <= MAX_LOADED_CHUNKS {
            0
        } else {
            dl.len() - MAX_LOADED_CHUNKS
        };
        assert(prev =~= cs.subrange(a, dl.len() as int)) by {
            if dl.len() <= MAX_LOADED_CHUNKS {
                assert(prev == dl);
                assert(dl =~= cs.subrange(0, dl.len() as int));
            } else {
                assert(prev == dl.subrange(a, dl.len() as int));
                assert(dl.subrange(a, dl.len() as int) =~= cs.subrange(a, dl.len() as int));
            }
        }
        assert(!prev.contains(last)) by {
            if prev.contains(last) {
                let j = choose|j: int| 0 <= j < prev.len() && prev[j] == last;
                assert(prev[j] == cs[a + j]);
                assert(cs[a + j] == cs[cs.len() - 1]);
            }
        }
        let t = touch(prev, last);
        assert(t == prev.push(last));
        assert(t =~= cs.subrange(a, cs.len() as int));
        assert(run_recency(e, cs) == evict(t));
        if cs.len() <= MAX_LOADED_CHUNKS {
            assert(a == 0);
            assert(t.len() <= MAX_LOADED_CHUNKS);
            assert(evict(t) == t);
            assert(t =~= cs);
        } else {
            assert(t.len() == cs.len() - a);
            if dl.len() <= MAX_LOADED_CHUNKS {
                // exactly one over the bound: drop the single oldest
                assert(t.len() == MAX_LOADED_CHUNKS + 1);
                assert(evict(t) =~= cs.subrange(cs.len() - MAX_LOADED_CHUNKS, cs.len() as int));
            } else {
                assert(t.len() == MAX_LOADED_CHUNKS + 1);
                assert(evict(t) =~= cs.subrange(cs.len() - MAX_LOADED_CHUNKS, cs.len() as int));
            }
        }
    }
}

/// Touching a cached coordinate protects it: after it is accessed again, one
/// further miss does not evict it.
pub proof fn lemma_touched_survives_miss(q: Seq<(i32, i32)>, c: (i32, i32), d: (i32, i32))
    requires
        forall|p: int, r: int| 0 <= p < r < q.len() ==> q[p] != q[r],
        q.len() <= MAX_LOADED_CHUNKS,
        q.contains(c),
        !q.contains(d),
        c != d,
    ensures
        next_recency(next_recency(q, c), d).contains(c),
{
    let ci = coord_index(q, c);
    assert(0 <= ci < q.len() && q[ci] == c);
    let t1 = touch(q, c);
    assert(t1 == q.remove(ci).push(c));
    assert(t1.len() == q.len());
    assert(next_recency(q, c) == t1);
    assert(t1[t1.len() - 1] == c);
    assert(!t1.contains(d)) by {
        if t1.contains(d) {
            let j = choose|j: int| 0 <= j < t1.len() && t1[j] == d;
            if j < t1.len() - 1 {
                assert(t1[j] == q.remove(ci)[j]);
                assert(q.contains(d)) by {
                    if j < ci {
                        assert(q[j] == d);
                    } else {
                        assert(q[j + 1] == d);
                    }
                }
            }
        }
    }
    let t2 = touch(t1, d);
    assert(t2 == t1.push(d));
    let n2 = evict(t2);
    assert(next_recency(t1, d) == n2);
    if t2.len() <= MAX_LOADED_CHUNKS {
        assert(n2 == t2);
        assert(n2[t1.len() - 1] == c);
        assert(n2.contains(c));
    } else {
        assert(t2.len() == MAX_LOADED_CHUNKS + 1);
        assert(n2 == t2.subrange(1, t2.len() as int));
        assert(n2[t1.len() - 2] == t2[t1.len() - 1]);
        assert(n2.contains(c));
    }
}

} // verus!
