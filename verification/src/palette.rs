use vstd::prelude::*;

use vstd::arithmetic::power2::{
    lemma2_to64, lemma2_to64_rest, lemma_pow2_pos, lemma_pow2_strictly_increases,
    lemma_pow2_unfold, pow2,
};

verus! {

/// The voxel type name that id 0 must always stand for.
pub open spec fn air_name() -> Seq<char> {
    "minecraft:air"@
}

/// The list of names a palette holds for a declared entry list: the empty
/// type is inserted at index 0 unless it is already the first declared entry,
/// and an empty declaration list yields the empty type alone.
pub open spec fn spec_palette(ns: Seq<Seq<char>>) -> Seq<Seq<char>> {
    if ns.len() == 0 {
        seq![air_name()]
    } else if ns[0] != air_name() {
        seq![air_name()] + ns
    } else {
        ns
    }
}

/// `ceil(log2(n))` for `n >= 1`; 0 for smaller arguments.
pub open spec fn spec_ceil_log2(n: nat) -> nat
    decreases n,
{
    if n <= 1 {
        0
    } else {
        1 + spec_ceil_log2((n + 1) / 2)
    }
}

/// The packed bit width for a palette of `n` entries: `ceil(log2(n))`, but
/// never less than 4.
pub open spec fn spec_bit_width(n: nat) -> nat {
    if spec_ceil_log2(n) < 4 {
        4
    } else {
        spec_ceil_log2(n)
    }
}

/// An ordered list of voxel type names; a packed id is an index into it.
/// Duplicate names are allowed: section-local palettes may declare the same
/// name several times for sub-states this system treats as equal.
#[derive(Debug, Clone)]
pub struct Palette {
    pub elements: Vec<String>,
}

proof fn lemma_ceil_log2_unique(n: nat, w: nat)
    requires
        1 <= n,
        n <= pow2(w),
        w > 0 ==> pow2((w - 1) as nat) < n,
    ensures
        w == spec_ceil_log2(n),
    decreases w,
{
    if w == 0 {
        assert(pow2(0) == 1) by {
            lemma2_to64();
        }
    } else {
        lemma_pow2_unfold(w);
        let m = (n + 1) / 2;
        assert(pow2((w - 1) as nat) < n);
        lemma_pow2_pos((w - 1) as nat);
        assert(n >= 2);
        assert(n <= 2 * pow2((w - 1) as nat));
        assert(m <= pow2((w - 1) as nat));
        if w > 1 {
            lemma_pow2_unfold((w - 1) as nat);
            assert(2 * pow2((w - 2) as nat) < n);
            assert(pow2((w - 2) as nat) < m);
        }
        lemma_ceil_log2_unique(m, (w - 1) as nat);
    }
}

impl Palette {
    /// The mathematical contents of the palette: its names, in order.
    pub open spec fn names(self) -> Seq<Seq<char>> {
        self.elements.deep_view()
    }

    /// Builds a palette from the declared entry names of one section,
    /// inserting the empty type at index 0 where the source does not.
    pub fn from_raw(names: Vec<String>) -> (r: Palette)
        ensures
            r.names() == spec_palette(names.deep_view()),
    {
        let ghost orig = names.deep_view();
        let mut elements = names;
        let air: String = "minecraft:air".to_owned();
        if elements.len() == 0 {
            elements.push(air);
            proof {
                assert(elements.deep_view() =~= spec_palette(orig));
            }
        } else if !(elements[0] == air) {
            proof {
                assert(orig[0] == elements@[0]@);
            }
            elements.insert(0, air);
            proof {
                assert(elements.deep_view() =~= seq![air_name()] + orig);
            }
        } else {
            proof {
                assert(elements.deep_view() =~= orig);
            }
        }
        Palette { elements }
    }

    /// The packed bit width used for this palette's ids.
    pub fn get_elem_bit_size(&self) -> (r: u32)
        ensures
            r == spec_bit_width(self.names().len()),
            4 <= r <= 64,
    {
        let n = self.elements.len() as u64;
        let mut w: u32 = 0;
        let mut p: u64 = 1;
        let mut saturated: bool = false;
        proof {
            lemma2_to64();
        }
        while p < n && !saturated
            invariant
                w <= 64,
                !saturated ==> w <= 63 && p == pow2(w as nat),
                saturated ==> w == 64 && pow2(63) < n,
                w > 0 ==> pow2((w - 1) as nat) < n,
            decreases 65 - w,
        {
            if w == 63 {
                saturated = true;
                w = 64;
            } else {
                proof {
                    lemma_pow2_unfold((w + 1) as nat);
                    assert(pow2((w + 1) as nat) == 2 * pow2(w as nat));
                    lemma2_to64_rest();
                    assert(pow2(63) == 0x8000000000000000);
                    if w < 62 {
                        lemma_pow2_strictly_increases(w as nat, 62);
                    }
                    assert(pow2(w as nat) <= pow2(62));
                }
                p = p * 2;
                w = w + 1;
            }
        }
        proof {
            let nn = self.names().len();
            assert(nn == self.elements@.len());
            assert(nn == n);
            if n >= 1 {
                if saturated {
                    assert(n <= u64::MAX);
                    lemma2_to64();
                    assert(pow2(64) == 0x10000000000000000);
                    lemma_ceil_log2_unique(n as nat, 64);
                } else {
                    assert(n <= p);
                    lemma_ceil_log2_unique(n as nat, w as nat);
                }
                assert(w == spec_ceil_log2(nn));
            } else {
                assert(w == 0);
                assert(spec_ceil_log2(0) == 0);
            }
        }
        if w < 4 {
            4
        } else {
            w
        }
    }

    /// How many names the palette holds.
    pub fn len(&self) -> (r: usize)
        ensures
            r == self.names().len(),
    {
        self.elements.len()
    }

    /// Insertion-or-lookup for a globally shared palette: the id of the
    /// first entry with this name, appending the name only where it is new.
    /// Adding a name twice returns the same id and changes nothing, so
    /// identical names from different sections share one id space.
    pub fn add(&mut self, name: &str) -> (id: usize)
        ensures
            id < final(self).names().len(),
            final(self).names()[id as int] == name@,
            forall|j: int| 0 <= j < id ==> old(self).names()[j] != name@,
            id < old(self).names().len() ==> *final(self) == *old(self),
            id == old(self).names().len() ==> final(self).names() == old(self).names().push(
                name@,
            ),
    {
        let key: String = name.to_owned();
        let mut i: usize = 0;
        while i < self.elements.len()
            invariant
                *self == *old(self),
                key@ == name@,
                i <= self.elements@.len(),
                forall|j: int| 0 <= j < i ==> self.names()[j] != name@,
            decreases self.elements.len() - i,
        {
            if self.elements[i] == key {
                return i;
            }
            i = i + 1;
        }
        self.elements.push(key);
        proof {
            assert(self.names() =~= old(self).names().push(name@));
        }
        i
    }

    /// Looks up the name a packed id stands for; `None` means the backing
    /// data was inconsistent (an id with no palette entry).
    pub fn get_state(&self, id: usize) -> (r: Option<&str>)
        ensures
            match r {
                Some(s) => id < self.names().len() && s@ == self.names()[id as int],
                None => id >= self.names().len(),
            },
    {
        if id < self.elements.len() {
            Some(self.elements[id].as_str())
        } else {
            None
        }
    }
}

} // verus!
