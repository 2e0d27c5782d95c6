use vstd::prelude::*;

use crate::chunk_section::ChunkSection;
use crate::raw::{raw_chunk_valid, raw_section_at, section_valid, DecodeError, RawChunk, RawSection};

verus! {

/// The section an index resolves to in a decoded section list: the last one
/// carrying that vertical index; well-formed chunks hold each index at most
/// once.
pub open spec fn section_with_y(ss: Seq<ChunkSection>, y: int) -> Option<ChunkSection>
    decreases ss.len(),
{
    if ss.len() == 0 {
        None::<ChunkSection>
    } else if ss.last().pos.1 == y {
        Some(ss.last())
    } else {
        section_with_y(ss.drop_last(), y)
    }
}

/// Whether some decoded section carries vertical index `y`.
pub open spec fn chunk_has_section(ss: Seq<ChunkSection>, y: int) -> bool {
    exists|i: int| 0 <= i < ss.len() && (#[trigger] ss[i]).pos.1 == y
}

/// Both sides resolve the same way: absent together, or the decoded section
/// is the decoding of the raw one.
pub open spec fn section_match(
    or: Option<RawSection>,
    oc: Option<ChunkSection>,
    x: i32,
    z: i32,
) -> bool {
    match or {
        Some(rs) => match oc {
            Some(cs) => cs.decodes(rs, x, z),
            None => false,
        },
        None => oc is None,
    }
}

pub proof fn lemma_section_found(ss: Seq<ChunkSection>, i: int)
    requires
        forall|p: int, q: int| 0 <= p < q < ss.len() ==> ss[p].pos.1 != ss[q].pos.1,
        0 <= i < ss.len(),
    ensures
        section_with_y(ss, ss[i].pos.1 as int) == Some(ss[i]),
    decreases ss.len(),
{
    if i == ss.len() - 1 {
    } else {
        assert(ss.last().pos.1 != ss[i].pos.1);
        let d = ss.drop_last();
        assert(d[i] == ss[i]);
        assert(forall|p: int, q: int| 0 <= p < q < d.len() ==> d[p] == ss[p] && d[q] == ss[q]);
        lemma_section_found(d, i);
    }
}

pub proof fn lemma_section_absent(ss: Seq<ChunkSection>, y: int)
    requires
        forall|i: int| 0 <= i < ss.len() ==> (#[trigger] ss[i]).pos.1 != y,
    ensures
        section_with_y(ss, y) is None,
    decreases ss.len(),
{
    if ss.len() > 0 {
        let d = ss.drop_last();
        assert(forall|i: int| 0 <= i < d.len() ==> d[i] == ss[i]);
        lemma_section_absent(d, y);
    }
}

pub proof fn lemma_section_remove(ss: Seq<ChunkSection>, i: int, y: int)
    requires
        forall|p: int, q: int| 0 <= p < q < ss.len() ==> ss[p].pos.1 != ss[q].pos.1,
        0 <= i < ss.len(),
    ensures
        section_with_y(ss.remove(i), y) == if ss[i].pos.1 == y {
            None::<ChunkSection>
        } else {
            section_with_y(ss, y)
        },
    decreases ss.len(),
{
    let r = ss.remove(i);
    if i == ss.len() - 1 {
        assert(r =~= ss.drop_last());
        if ss[i].pos.1 == y {
            assert(forall|j: int| 0 <= j < r.len() ==> r[j] == ss[j]);
            lemma_section_absent(r, y);
        }
    } else {
        let d = ss.drop_last();
        assert(forall|p: int, q: int| 0 <= p < q < d.len() ==> d[p] == ss[p] && d[q] == ss[q]);
        assert(r.last() == ss.last());
        assert(r.drop_last() =~= d.remove(i));
        lemma_section_remove(d, i, y);
        assert(d[i] == ss[i]);
    }
}

/// What an index resolves to is one of the list's own sections.
pub proof fn lemma_section_with_y_elem(ss: Seq<ChunkSection>, y: int)
    requires
        section_with_y(ss, y) is Some,
    ensures
        exists|i: int|
            0 <= i < ss.len() && #[trigger] ss[i] == section_with_y(ss, y)->Some_0
                && ss[i].pos.1 == y,
    decreases ss.len(),
{
    if ss.last().pos.1 == y {
        assert(ss[ss.len() - 1] == section_with_y(ss, y)->Some_0);
    } else {
        let d = ss.drop_last();
        lemma_section_with_y_elem(d, y);
        let i = choose|i: int|
            0 <= i < d.len() && #[trigger] d[i] == section_with_y(d, y)->Some_0 && d[i].pos.1
                == y;
        assert(ss[i] == d[i]);
    }
}

/// A decoded chunk column: its sections, addressable by vertical index, and
/// its chunk coordinate.
pub struct Chunk {
    pub sections: Vec<ChunkSection>,
    pub x: i32,
    pub z: i32,
}

impl Chunk {
    /// Every stored section is well formed, sits in this column, and no two
    /// share a vertical index.
    pub open spec fn wf(self) -> bool {
        &&& forall|i: int|
            0 <= i < self.sections@.len() ==> {
                let s = #[trigger] self.sections@[i];
                s.wf() && s.pos.0 == self.x && s.pos.2 == self.z
            }
        &&& forall|p: int, q: int|
            0 <= p < q < self.sections@.len() ==> self.sections@[p].pos.1
                != self.sections@[q].pos.1
    }

    /// The decoded section at vertical index `y`, if one exists.
    pub open spec fn spec_section_at(self, y: int) -> Option<ChunkSection> {
        section_with_y(self.sections@, y)
    }

    /// This chunk is exactly the decoding of `raw`: every vertical index
    /// resolves on both sides the same way.
    pub open spec fn decodes(self, raw: RawChunk) -> bool {
        &&& self.x == raw.x
        &&& self.z == raw.z
        &&& forall|y: int|
            section_match(
                raw_section_at(raw.sections@, y),
                #[trigger] self.spec_section_at(y),
                raw.x,
                raw.z,
            )
    }

    /// Decodes a whole raw chunk. Sections without a packed array are
    /// omitted; an id outside its palette is fatal. Where the source lists
    /// one vertical index twice, the later entry wins.
    pub fn from_raw(raw: &RawChunk) -> (r: Result<Chunk, DecodeError>)
        ensures
            match r {
                Ok(c) => c.wf() && c.decodes(*raw) && raw_chunk_valid(*raw),
                Err(e) => !raw_chunk_valid(*raw) && e == DecodeError::IdOutOfPalette,
            },
    {
        let x = raw.x;
        let z = raw.z;
        let mut sections: Vec<ChunkSection> = Vec::new();
        let mut i: usize = 0;
        proof {
            assert(raw.sections@.subrange(0, 0) =~= Seq::<RawSection>::empty());
        }
        while i < raw.sections.len()
            invariant
                x == raw.x,
                z == raw.z,
                i <= raw.sections@.len(),
                forall|k: int|
                    0 <= k < sections@.len() ==> {
                        let s = #[trigger] sections@[k];
                        s.wf() && s.pos.0 == x && s.pos.2 == z
                    },
                forall|p: int, q: int|
                    0 <= p < q < sections@.len() ==> sections@[p].pos.1 != sections@[q].pos.1,
                forall|j: int| 0 <= j < i ==> section_valid(#[trigger] raw.sections@[j]),
                forall|y: int|
                    section_match(
                        raw_section_at(raw.sections@.subrange(0, i as int), y),
                        #[trigger] section_with_y(sections@, y),
                        x,
                        z,
                    ),
            decreases raw.sections.len() - i,
        {
            let ghost prefix = raw.sections@.subrange(0, i as int);
            let ghost prefix1 = raw.sections@.subrange(0, i as int + 1);
            proof {
                assert(prefix1.drop_last() =~= prefix);
                assert(prefix1.last() == raw.sections@[i as int]);
            }
            match ChunkSection::from_raw(&raw.sections[i], x, z) {
                Err(e) => {
                    proof {
                        assert(!section_valid(raw.sections@[i as int]));
                    }
                    return Err(e);
                },
                Ok(None) => {
                    proof {
                        assert forall|y: int|
                            section_match(
                                raw_section_at(prefix1, y),
                                #[trigger] section_with_y(sections@, y),
                                x,
                                z,
                            ) by {
                            assert(raw_section_at(prefix1, y) == raw_section_at(prefix, y));
                        }
                    }
                },
                Ok(Some(cs)) => {
                    let ghost s0 = sections@;
                    let sy = cs.pos.1;
                    let mut k: usize = 0;
                    let mut dup: bool = false;
                    while k < sections.len() && !dup
                        invariant
                            sections@ == s0,
                            k <= s0.len(),
                            dup ==> k < s0.len() && s0[k as int].pos.1 == sy,
                            !dup ==> forall|j: int|
                                0 <= j < k ==> (#[trigger] s0[j]).pos.1 != sy,
                        decreases s0.len() - k + (if dup {
                            0int
                        } else {
                            1int
                        }),
                    {
                        if sections[k].pos.1 == sy {
                            dup = true;
                        } else {
                            k = k + 1;
                        }
                    }
                    let ghost mut s1 = sections@;
                    if dup {
                        sections.remove(k);
                        proof {
                            s1 = sections@;
                            assert(s1 == s0.remove(k as int));
                        }
                    }
                    sections.push(cs);
                    proof {
                        assert(sections@.drop_last() =~= s1);
                        assert(sections@.last() == cs);
                        assert(cs.decodes(raw.sections@[i as int], x, z));
                        assert(cs.pos.1 == raw.sections@[i as int].y);
                        // uniqueness and wf of the new list
                        if dup {
                            assert(forall|j: int|
                                0 <= j < s1.len() ==> s1[j] == (if j < k as int {
                                    s0[j]
                                } else {
                                    s0[j + 1]
                                }));
                            assert(forall|j: int| 0 <= j < s1.len() ==> s1[j].pos.1 != sy);
                        } else {
                            assert(s1 == s0);
                            assert(forall|j: int| 0 <= j < s1.len() ==> s1[j].pos.1 != sy);
                        }
                        assert forall|p: int, q: int|
                            0 <= p < q < sections@.len() implies sections@[p].pos.1
                            != sections@[q].pos.1 by {
                            if q == sections@.len() - 1 {
                                assert(sections@[p] == s1[p]);
                            } else {
                                assert(sections@[p] == s1[p] && sections@[q] == s1[q]);
                            }
                        }
                        // the index map matches the extended raw prefix
                        assert forall|y: int|
                            section_match(
                                raw_section_at(prefix1, y),
                                #[trigger] section_with_y(sections@, y),
                                x,
                                z,
                            ) by {
                            if y == sy as int {
                                assert(section_with_y(sections@, y) == Some(cs));
                                assert(raw_section_at(prefix1, y) == Some(
                                    raw.sections@[i as int],
                                ));
                            } else {
                                assert(section_with_y(sections@, y) == section_with_y(s1, y));
                                if dup {
                                    lemma_section_remove(s0, k as int, y);
                                    assert(section_with_y(s1, y) == section_with_y(s0, y));
                                }
                                assert(raw_section_at(prefix1, y) == raw_section_at(prefix, y));
                            }
                        }
                    }
                },
            }
            i = i + 1;
            proof {
                assert(raw.sections@.subrange(0, i as int) == prefix1);
            }
        }
        proof {
            assert(raw.sections@.subrange(0, raw.sections@.len() as int) =~= raw.sections@);
        }
        Ok(Chunk { sections, x, z })
    }

    /// The decoded section at vertical index `y`, if any.
    pub fn get_section(&self, y: i8) -> (r: Option<&ChunkSection>)
        requires
            self.wf(),
        ensures
            match r {
                Some(s) => self.spec_section_at(y as int) == Some(*s),
                None => self.spec_section_at(y as int) is None,
            },
    {
        let mut i: usize = 0;
        while i < self.sections.len()
            invariant
                self.wf(),
                i <= self.sections@.len(),
                forall|j: int| 0 <= j < i ==> (#[trigger] self.sections@[j]).pos.1 != y,
            decreases self.sections.len() - i,
        {
            if self.sections[i].pos.1 == y {
                proof {
                    lemma_section_found(self.sections@, i as int);
                }
                return Some(&self.sections[i]);
            }
            i = i + 1;
        }
        proof {
            lemma_section_absent(self.sections@, y as int);
        }
        None
    }

    /// The vertical indices of the stored sections, ascending.
    pub fn section_ys_sorted(&self) -> (r: Vec<i8>)
        requires
            self.wf(),
        ensures
            forall|a: int, b: int| 0 <= a < b < r@.len() ==> r@[a] < r@[b],
            forall|y: i8| r@.contains(y) == chunk_has_section(self.sections@, y as int),
    {
        let mut r: Vec<i8> = Vec::new();
        let mut i: usize = 0;
        while i < self.sections.len()
            invariant
                self.wf(),
                i <= self.sections@.len(),
                forall|a: int, b: int| 0 <= a < b < r@.len() ==> r@[a] < r@[b],
                forall|y: i8|
                    r@.contains(y) == exists|j: int|
                        0 <= j < i && (#[trigger] self.sections@[j]).pos.1 == y,
            decreases self.sections.len() - i,
        {
            let y = self.sections[i].pos.1;
            let ghost r0 = r@;
            let mut p: usize = 0;
            while p < r.len() && r[p] < y
                invariant
                    p <= r@.len(),
                    r@ == r0,
                    forall|a: int| 0 <= a < p ==> r@[a] < y,
                decreases r.len() - p,
            {
                p = p + 1;
            }
            proof {
                assert(forall|j: int|
                    0 <= j < i ==> (#[trigger] self.sections@[j]).pos.1 != y);
                if r0.contains(y) {
                    let j = choose|j: int| 0 <= j < r0.len() && r0[j] == y;
                    assert(false);
                }
            }
            r.insert(p, y);
            proof {
                assert forall|a: int, b: int| 0 <= a < b < r@.len() implies r@[a] < r@[b] by {
                    if b < p as int {
                    } else if a < p as int && b == p as int {
                    } else if a < p as int {
                        assert(r@[b] == r0[b - 1]);
                    } else if a == p as int {
                        assert(r@[b] == r0[b - 1]);
                        assert(!(r0[p as int] < y));
                        assert(r0[b - 1] >= r0[p as int] || b - 1 == p as int);
                    } else {
                        assert(r@[a] == r0[a - 1] && r@[b] == r0[b - 1]);
                    }
                }
                assert forall|yy: i8|
                    r@.contains(yy) == exists|j: int|
                        0 <= j < i + 1 && (#[trigger] self.sections@[j]).pos.1 == yy by {
                    if r@.contains(yy) {
                        let a = choose|a: int| 0 <= a < r@.len() && r@[a] == yy;
                        if a == p as int {
                            assert(self.sections@[i as int].pos.1 == yy);
                        } else if a < p as int {
                            assert(r0[a] == yy);
                            assert(r0.contains(yy));
                        } else {
                            assert(r0[a - 1] == yy);
                            assert(r0.contains(yy));
                        }
                    }
                    if exists|j: int|
                        0 <= j < i + 1 && (#[trigger] self.sections@[j]).pos.1 == yy {
                        let j = choose|j: int|
                            0 <= j < i + 1 && (#[trigger] self.sections@[j]).pos.1 == yy;
                        if j == i as int {
                            assert(r@[p as int] == yy);
                        } else {
                            assert(r0.contains(yy));
                            let a = choose|a: int| 0 <= a < r0.len() && r0[a] == yy;
                            if a < p as int {
                                assert(r@[a] == yy);
                            } else {
                                assert(r@[a + 1] == yy);
                            }
                        }
                    }
                }
            }
            i = i + 1;
        }
        r
    }
}

} // verus!
