use vstd::prelude::*;

use crate::chunk::Chunk;
use crate::raw::{raw_chunk_valid, DecodeError, RawChunk};

verus! {

/// The raw chunk a coordinate resolves to in a store's entry list; the last
/// entry wins, though well-formed stores hold each coordinate at most once.
pub open spec fn store_chunk_at(
    s: Seq<((i32, i32), RawChunk)>,
    cx: int,
    cz: int,
) -> Option<RawChunk>
    decreases s.len(),
{
    if s.len() == 0 {
        None::<RawChunk>
    } else if s.last().0.0 == cx && s.last().0.1 == cz {
        Some(s.last().1)
    } else {
        store_chunk_at(s.drop_last(), cx, cz)
    }
}

/// Whether the store holds a chunk for the coordinate.
pub open spec fn store_contains(s: Seq<((i32, i32), RawChunk)>, cx: int, cz: int) -> bool {
    store_chunk_at(s, cx, cz) is Some
}

pub proof fn lemma_store_found(s: Seq<((i32, i32), RawChunk)>, i: int)
    requires
        forall|p: int, q: int| 0 <= p < q < s.len() ==> s[p].0 != s[q].0,
        0 <= i < s.len(),
    ensures
        store_chunk_at(s, s[i].0.0 as int, s[i].0.1 as int) == Some(s[i].1),
    decreases s.len(),
{
    if i == s.len() - 1 {
    } else {
        assert(s.last().0 != s[i].0);
        let d = s.drop_last();
        assert(d[i] == s[i]);
        assert(forall|p: int, q: int| 0 <= p < q < d.len() ==> d[p] == s[p] && d[q] == s[q]);
        lemma_store_found(d, i);
    }
}

pub proof fn lemma_store_absent(s: Seq<((i32, i32), RawChunk)>, cx: int, cz: int)
    requires
        forall|i: int| 0 <= i < s.len() ==> !((#[trigger] s[i]).0.0 == cx && s[i].0.1 == cz),
    ensures
        store_chunk_at(s, cx, cz) is None,
    decreases s.len(),
{
    if s.len() > 0 {
        let d = s.drop_last();
        assert(forall|i: int| 0 <= i < d.len() ==> d[i] == s[i]);
        lemma_store_absent(d, cx, cz);
    }
}

/// A coordinate that resolves does so to one of the store's own entries.
pub proof fn lemma_store_at_entry(s: Seq<((i32, i32), RawChunk)>, cx: int, cz: int)
    requires
        store_chunk_at(s, cx, cz) is Some,
    ensures
        exists|i: int|
            0 <= i < s.len() && (#[trigger] s[i]).0.0 == cx && s[i].0.1 == cz && s[i].1
                == store_chunk_at(s, cx, cz)->Some_0,
    decreases s.len(),
{
    if s.last().0.0 == cx && s.last().0.1 == cz {
        assert(s[s.len() - 1].0.0 == cx);
    } else {
        let d = s.drop_last();
        lemma_store_at_entry(d, cx, cz);
        let i = choose|i: int|
            0 <= i < d.len() && (#[trigger] d[i]).0.0 == cx && d[i].0.1 == cz && d[i].1
                == store_chunk_at(d, cx, cz)->Some_0;
        assert(s[i] == d[i]);
    }
}

/// An in-memory backing store: every chunk column the run may touch, keyed
/// by chunk coordinate. Construction validates the data once, so that every
/// later decode is known to succeed.
pub struct RegionStore {
    pub entries: Vec<((i32, i32), RawChunk)>,
}

impl RegionStore {
    /// Coordinates are unique, every chunk sits under its own coordinate,
    /// and every chunk decodes.
    pub open spec fn wf(self) -> bool {
        &&& forall|p: int, q: int|
            0 <= p < q < self.entries@.len() ==> self.entries@[p].0 != self.entries@[q].0
        &&& forall|i: int|
            0 <= i < self.entries@.len() ==> {
                let e = #[trigger] self.entries@[i];
                raw_chunk_valid(e.1) && e.1.x == e.0.0 && e.1.z == e.0.1
            }
    }

    /// Builds a store from raw entries, rejecting input that any later load
    /// would have to abort on: duplicate coordinates, a chunk stored under a
    /// coordinate other than its own, or a packed id outside its palette.
    pub fn new(entries: Vec<((i32, i32), RawChunk)>) -> (r: Result<RegionStore, DecodeError>)
        ensures
            match r {
                Ok(s) => s.entries@ == entries@ && s.wf(),
                Err(_) => !(RegionStore { entries }).wf(),
            },
    {
        let mut i: usize = 0;
        while i < entries.len()
            invariant
                i <= entries@.len(),
                forall|p: int, q: int| 0 <= p < q < i ==> entries@[p].0 != entries@[q].0,
                forall|j: int|
                    0 <= j < i ==> {
                        let e = #[trigger] entries@[j];
                        raw_chunk_valid(e.1) && e.1.x == e.0.0 && e.1.z == e.0.1
                    },
            decreases entries.len() - i,
        {
            let mut j: usize = 0;
            while j < i
                invariant
                    j <= i < entries@.len(),
                    forall|p: int| 0 <= p < j ==> entries@[p].0 != entries@[i as int].0,
                decreases i - j,
            {
                if entries[j].0.0 == entries[i].0.0 && entries[j].0.1 == entries[i].0.1 {
                    proof {
                        let s = (RegionStore { entries });
                        assert(s.entries@[j as int].0 == s.entries@[i as int].0);
                        assert(!s.wf());
                    }
                    return Err(DecodeError::DuplicateChunk);
                }
                j = j + 1;
            }
            if entries[i].1.x != entries[i].0.0 || entries[i].1.z != entries[i].0.1 {
                proof {
                    let s = (RegionStore { entries });
                    assert(!(s.entries@[i as int].1.x == s.entries@[i as int].0.0
                        && s.entries@[i as int].1.z == s.entries@[i as int].0.1));
                    assert(!s.wf());
                }
                return Err(DecodeError::ChunkPositionMismatch);
            }
            match Chunk::from_raw(&entries[i].1) {
                Ok(_) => {},
                Err(e) => {
                    proof {
                        let s = (RegionStore { entries });
                        assert(!raw_chunk_valid(s.entries@[i as int].1));
                        assert(!s.wf());
                    }
                    return Err(e);
                },
            }
            i = i + 1;
        }
        Ok(RegionStore { entries })
    }

    /// The raw chunk stored for a coordinate, if any.
    pub fn get(&self, cx: i32, cz: i32) -> (r: Option<&RawChunk>)
        requires
            self.wf(),
        ensures
            match r {
                Some(raw) => store_chunk_at(self.entries@, cx as int, cz as int) == Some(*raw),
                None => store_chunk_at(self.entries@, cx as int, cz as int) is None,
            },
    {
        let mut i: usize = 0;
        while i < self.entries.len()
            invariant
                self.wf(),
                i <= self.entries@.len(),
                forall|j: int|
                    0 <= j < i ==> !((#[trigger] self.entries@[j]).0.0 == cx
                        && self.entries@[j].0.1 == cz),
            decreases self.entries.len() - i,
        {
            if self.entries[i].0.0 == cx && self.entries[i].0.1 == cz {
                proof {
                    lemma_store_found(self.entries@, i as int);
                }
                return Some(&self.entries[i].1);
            }
            i = i + 1;
        }
        proof {
            lemma_store_absent(self.entries@, cx as int, cz as int);
        }
        None
    }
}

} // verus!
