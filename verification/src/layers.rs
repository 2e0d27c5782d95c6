use vstd::prelude::*;

verus! {

/// One more occurrence of something: counts saturate at `u32::MAX` instead
/// of wrapping or failing.
pub open spec fn bump(c: u32) -> u32 {
    if c == u32::MAX {
        c
    } else {
        (c + 1) as u32
    }
}


/// `a` plus `n` more occurrences, saturating at `u32::MAX` as every single
/// count does.
pub open spec fn sat_add(a: u32, n: nat) -> u32 {
    if a + n > u32::MAX {
        u32::MAX
    } else {
        (a + n) as u32
    }
}

pub proof fn lemma_sat_add_bump(a: u32, n: nat)
    ensures
        bump(sat_add(a, n)) == sat_add(a, n + 1),
{
}

pub proof fn lemma_sat_add_assoc(a: u32, m: nat, n: nat)
    ensures
        sat_add(sat_add(a, m), n) == sat_add(a, m + n),
{
}

/// The count an association list stores for `key`; 0 where the key is
/// absent. The last entry with the key decides, though well-formed lists
/// hold each key at most once.
pub open spec fn seq_count(s: Seq<(String, u32)>, key: Seq<char>) -> u32
    decreases s.len(),
{
    if s.len() == 0 {
        0u32
    } else if s.last().0@ == key {
        s.last().1
    } else {
        seq_count(s.drop_last(), key)
    }
}

/// No two entries of the association list share a name.
pub open spec fn keys_unique(s: Seq<(String, u32)>) -> bool {
    forall|i: int, j: int| 0 <= i < j < s.len() ==> s[i].0@ != s[j].0@
}

pub proof fn lemma_seq_count_found(s: Seq<(String, u32)>, i: int, key: Seq<char>)
    requires
        keys_unique(s),
        0 <= i < s.len(),
        s[i].0@ == key,
    ensures
        seq_count(s, key) == s[i].1,
    decreases s.len(),
{
    if i == s.len() - 1 {
    } else {
        assert(s.last().0@ != key);
        let d = s.drop_last();
        assert(d[i] == s[i]);
        assert(keys_unique(d)) by {
            assert(forall|p: int, q: int|
                0 <= p < q < d.len() ==> d[p] == s[p] && d[q] == s[q]);
        }
        lemma_seq_count_found(d, i, key);
    }
}

pub proof fn lemma_seq_count_absent(s: Seq<(String, u32)>, key: Seq<char>)
    requires
        forall|i: int| 0 <= i < s.len() ==> s[i].0@ != key,
    ensures
        seq_count(s, key) == 0,
    decreases s.len(),
{
    if s.len() > 0 {
        let d = s.drop_last();
        assert(forall|i: int| 0 <= i < d.len() ==> d[i] == s[i]);
        lemma_seq_count_absent(d, key);
    }
}

pub proof fn lemma_seq_count_remove(s: Seq<(String, u32)>, i: int, key: Seq<char>)
    requires
        keys_unique(s),
        0 <= i < s.len(),
    ensures
        seq_count(s.remove(i), key) == if s[i].0@ == key {
            0u32
        } else {
            seq_count(s, key)
        },
    decreases s.len(),
{
    let r = s.remove(i);
    if i == s.len() - 1 {
        assert(r =~= s.drop_last());
        if s[i].0@ == key {
            assert(forall|j: int| 0 <= j < r.len() ==> r[j] == s[j]);
            lemma_seq_count_absent(r, key);
        }
    } else {
        let d = s.drop_last();
        assert(keys_unique(d)) by {
            assert(forall|p: int, q: int|
                0 <= p < q < d.len() ==> d[p] == s[p] && d[q] == s[q]);
        }
        assert(r.last() == s.last());
        assert(r.drop_last() =~= d.remove(i));
        lemma_seq_count_remove(d, i, key);
        assert(d[i] == s[i]);
        if s.last().0@ == key {
            assert(s[i].0@ != key);
        }
    }
}


/// Counts one more occurrence of `blockstate` in an association list,
/// creating its entry on the first occurrence.
pub fn increment_count(map: &mut Vec<(String, u32)>, blockstate: &str)
    requires
        keys_unique(old(map)@),
    ensures
        keys_unique(final(map)@),
        seq_count(final(map)@, blockstate@) == bump(seq_count(old(map)@, blockstate@)),
        forall|k: Seq<char>|
            k != blockstate@ ==> seq_count(final(map)@, k) == seq_count(old(map)@, k),
{
    let key: String = blockstate.to_owned();
    let ghost s0 = map@;
    let mut i: usize = 0;
    while i < map.len()
        invariant
            map@ == s0,
            s0 == old(map)@,
            keys_unique(s0),
            key@ == blockstate@,
            i <= s0.len(),
            forall|j: int| 0 <= j < i ==> s0[j].0@ != key@,
        decreases map.len() - i,
    {
        if map[i].0 == key {
            let (name, c) = map.remove(i);
            let c2: u32 = if c == u32::MAX {
                c
            } else {
                c + 1
            };
            let ghost s1 = map@;
            map.push((name, c2));
            proof {
                assert(s1 == s0.remove(i as int));
                assert(name@ == key@ && c == s0[i as int].1);
                lemma_seq_count_found(s0, i as int, key@);
                assert(map@.drop_last() =~= s1);
                assert forall|k: Seq<char>| k != key@ implies seq_count(map@, k) == seq_count(
                    s0,
                    k,
                ) by {
                    lemma_seq_count_remove(s0, i as int, k);
                }
                assert(seq_count(map@, key@) == c2);
                assert(keys_unique(map@)) by {
                    assert(forall|j: int|
                        0 <= j < s1.len() ==> s1[j] == (if j < i as int {
                            s0[j]
                        } else {
                            s0[j + 1]
                        }));
                }
            }
            return ;
        }
        i = i + 1;
    }
    let ghost s0b = map@;
    map.push((key, 1));
    proof {
        assert(map@.drop_last() =~= s0b);
        lemma_seq_count_absent(s0b, blockstate@);
        assert(keys_unique(map@)) by {
            assert(forall|j: int| 0 <= j < s0b.len() ==> map@[j] == s0b[j]);
        }
    }
}

/// The per-type occurrence counts of one vertical layer of the world.
pub struct Layer {
    pub composition: Vec<(String, u32)>,
    pub y: i32,
}

impl Layer {
    pub open spec fn wf(self) -> bool {
        keys_unique(self.composition@)
    }

    /// How often this layer has seen the given type name.
    pub open spec fn spec_count(self, key: Seq<char>) -> u32 {
        seq_count(self.composition@, key)
    }

    /// The stored count for a type name, 0 where the name never occurred.
    pub fn get_count(&self, blockstate: &str) -> (r: u32)
        requires
            self.wf(),
        ensures
            r == self.spec_count(blockstate@),
    {
        let key: String = blockstate.to_owned();
        let mut i: usize = 0;
        while i < self.composition.len()
            invariant
                self.wf(),
                key@ == blockstate@,
                i <= self.composition@.len(),
                forall|j: int| 0 <= j < i ==> self.composition@[j].0@ != key@,
            decreases self.composition.len() - i,
        {
            if self.composition[i].0 == key {
                proof {
                    lemma_seq_count_found(self.composition@, i as int, key@);
                }
                return self.composition[i].1;
            }
            i = i + 1;
        }
        proof {
            lemma_seq_count_absent(self.composition@, key@);
        }
        0
    }

    /// Counts one more occurrence of the given type name in this layer.
    pub fn increment(&mut self, blockstate: &str)
        requires
            old(self).wf(),
        ensures
            final(self).wf(),
            final(self).y == old(self).y,
            final(self).spec_count(blockstate@) == bump(old(self).spec_count(blockstate@)),
            forall|k: Seq<char>|
                k != blockstate@ ==> final(self).spec_count(k) == old(self).spec_count(k),
    {
        increment_count(&mut self.composition, blockstate);
    }
}

/// The y of an entry list's match for a layer index, used to state that each
/// stored layer carries its own index.
pub open spec fn layers_wf(s: Seq<(i32, Layer)>) -> bool {
    &&& forall|i: int, j: int| 0 <= i < j < s.len() ==> s[i].0 != s[j].0
    &&& forall|i: int| 0 <= i < s.len() ==> (#[trigger] s[i]).1.wf() && s[i].1.y == s[i].0
}

/// The count stored for type `key` at layer `y`, 0 where the layer or the
/// name is absent.
pub open spec fn spec_layer_count(s: Seq<(i32, Layer)>, y: int, key: Seq<char>) -> u32
    decreases s.len(),
{
    if s.len() == 0 {
        0u32
    } else if s.last().0 == y {
        s.last().1.spec_count(key)
    } else {
        spec_layer_count(s.drop_last(), y, key)
    }
}

/// Whether some layer entry carries index `y`.
pub open spec fn spec_has_layer(s: Seq<(i32, Layer)>, y: int) -> bool {
    exists|i: int| 0 <= i < s.len() && (#[trigger] s[i]).0 == y
}

pub proof fn lemma_layer_found(s: Seq<(i32, Layer)>, i: int, key: Seq<char>)
    requires
        layers_wf(s),
        0 <= i < s.len(),
    ensures
        spec_layer_count(s, s[i].0 as int, key) == s[i].1.spec_count(key),
    decreases s.len(),
{
    if i == s.len() - 1 {
    } else {
        assert(s.last().0 != s[i].0);
        let d = s.drop_last();
        assert(d[i] == s[i]);
        assert(layers_wf(d)) by {
            assert(forall|j: int| 0 <= j < d.len() ==> d[j] == s[j]);
        }
        lemma_layer_found(d, i, key);
    }
}

pub proof fn lemma_layer_absent(s: Seq<(i32, Layer)>, y: int, key: Seq<char>)
    requires
        forall|i: int| 0 <= i < s.len() ==> (#[trigger] s[i]).0 != y,
    ensures
        spec_layer_count(s, y, key) == 0,
    decreases s.len(),
{
    if s.len() > 0 {
        let d = s.drop_last();
        assert(forall|i: int| 0 <= i < d.len() ==> d[i] == s[i]);
        lemma_layer_absent(d, y, key);
    }
}

pub proof fn lemma_layer_remove(s: Seq<(i32, Layer)>, i: int, y: int, key: Seq<char>)
    requires
        layers_wf(s),
        0 <= i < s.len(),
    ensures
        spec_layer_count(s.remove(i), y, key) == if s[i].0 == y {
            0u32
        } else {
            spec_layer_count(s, y, key)
        },
    decreases s.len(),
{
    let r = s.remove(i);
    if i == s.len() - 1 {
        assert(r =~= s.drop_last());
        if s[i].0 == y {
            assert(forall|j: int| 0 <= j < r.len() ==> r[j] == s[j]);
            lemma_layer_absent(r, y, key);
        }
    } else {
        let d = s.drop_last();
        assert(layers_wf(d)) by {
            assert(forall|j: int| 0 <= j < d.len() ==> d[j] == s[j]);
        }
        assert(r.last() == s.last());
        assert(r.drop_last() =~= d.remove(i));
        lemma_layer_remove(d, i, y, key);
        assert(d[i] == s[i]);
    }
}

/// All per-layer composition counts of a scan, keyed by layer index.
pub struct Layers {
    pub layers: Vec<(i32, Layer)>,
}

impl Layers {
    pub open spec fn wf(self) -> bool {
        layers_wf(self.layers@)
    }

    /// The count recorded for type `key` at layer `y`.
    pub open spec fn spec_count(self, y: int, key: Seq<char>) -> u32 {
        spec_layer_count(self.layers@, y, key)
    }

    pub fn new() -> (r: Layers)
        ensures
            r.wf(),
            r.layers@.len() == 0,
            forall|y: int, k: Seq<char>| r.spec_count(y, k) == 0,
    {
        Layers { layers: Vec::new() }
    }

    /// Counts one more occurrence of the given type name at layer `layer`,
    /// creating the layer's record on its first occurrence.
    pub fn increment(&mut self, blockstate: &str, layer: i32)
        requires
            old(self).wf(),
        ensures
            final(self).wf(),
            final(self).spec_count(layer as int, blockstate@) == bump(
                old(self).spec_count(layer as int, blockstate@),
            ),
            forall|y: int, k: Seq<char>|
                !(y == layer as int && k == blockstate@) ==> final(self).spec_count(y, k) == old(
                    self,
                ).spec_count(y, k),
            forall|y: int|
                spec_has_layer(final(self).layers@, y) == (spec_has_layer(old(self).layers@, y)
                    || y == layer as int),
    {
        let ghost s0 = self.layers@;
        let mut i: usize = 0;
        while i < self.layers.len()
            invariant
                self.layers@ == s0,
                s0 == old(self).layers@,
                layers_wf(s0),
                i <= s0.len(),
                forall|j: int| 0 <= j < i ==> (#[trigger] s0[j]).0 != layer,
            decreases self.layers.len() - i,
        {
            if self.layers[i].0 == layer {
                let (y, mut l) = self.layers.remove(i);
                proof {
                    assert(l == s0[i as int].1 && y == s0[i as int].0);
                    assert(l.wf());
                }
                l.increment(blockstate);
                let ghost s1 = self.layers@;
                let ghost l1 = l;
                self.layers.push((y, l));
                proof {
                    assert(s1 == s0.remove(i as int));
                    lemma_layer_found(s0, i as int, blockstate@);
                    assert(self.layers@.drop_last() =~= s1);
                    assert forall|yy: int, k: Seq<char>|
                        !(yy == layer as int && k == blockstate@) implies spec_layer_count(
                        self.layers@,
                        yy,
                        k,
                    ) == spec_layer_count(s0, yy, k) by {
                        lemma_layer_remove(s0, i as int, yy, k);
                        if yy == layer as int {
                            lemma_layer_found(s0, i as int, k);
                        }
                    }
                    assert forall|k: Seq<char>| k == blockstate@ implies spec_layer_count(
                        self.layers@,
                        layer as int,
                        k,
                    ) == bump(spec_layer_count(s0, layer as int, k)) by {
                        lemma_layer_found(s0, i as int, k);
                    }
                    assert(layers_wf(self.layers@)) by {
                        assert(forall|j: int|
                            0 <= j < s1.len() ==> s1[j] == (if j < i as int {
                                s0[j]
                            } else {
                                s0[j + 1]
                            }));
                    }
                    assert forall|yy: int|
                        spec_has_layer(self.layers@, yy) == (spec_has_layer(
                            old(self).layers@,
                            yy,
                        ) || yy == layer as int) by {
                        assert(old(self).layers@ == s0);
                        let n = self.layers@;
                        if spec_has_layer(n, yy) {
                            let j = choose|j: int| 0 <= j < n.len() && (#[trigger] n[j]).0 == yy;
                            if j == n.len() - 1 {
                                assert(s0[i as int].0 == yy);
                            } else {
                                if j < i as int {
                                    assert(s0[j].0 == yy);
                                } else {
                                    assert(s0[j + 1].0 == yy);
                                }
                            }
                        }
                        if spec_has_layer(s0, yy) {
                            let j = choose|j: int|
                                0 <= j < s0.len() && (#[trigger] s0[j]).0 == yy;
                            if j == i as int {
                                assert(n[n.len() - 1].0 == yy);
                            } else if j < i as int {
                                assert(n[j].0 == yy);
                            } else {
                                assert(n[j - 1].0 == yy);
                            }
                        }
                        if yy == layer as int {
                            assert(n[n.len() - 1].0 == yy);
                        }
                    }
                }
                return ;
            }
            i = i + 1;
        }
        let mut composition: Vec<(String, u32)> = Vec::new();
        composition.push((blockstate.to_owned(), 1));
        let l = Layer { composition, y: layer };
        let ghost s0b = self.layers@;
        self.layers.push((layer, l));
        proof {
            assert(self.layers@.drop_last() =~= s0b);
            lemma_layer_absent(s0b, layer as int, blockstate@);
            assert(l.wf());
            assert(l.spec_count(blockstate@) == 1) by {
                assert(l.composition@.len() == 1);
                assert(l.composition@.last().0@ == blockstate@);
            }
            assert forall|k: Seq<char>| k != blockstate@ implies l.spec_count(k) == 0 by {
                assert(l.composition@.drop_last() =~= Seq::<(String, u32)>::empty());
                assert(seq_count(Seq::<(String, u32)>::empty(), k) == 0);
            }
            assert forall|yy: int, k: Seq<char>|
                !(yy == layer as int && k == blockstate@) implies spec_layer_count(
                self.layers@,
                yy,
                k,
            ) == spec_layer_count(s0b, yy, k) by {
                if yy == layer as int {
                    lemma_layer_absent(s0b, yy, k);
                }
            }
            assert(layers_wf(self.layers@)) by {
                assert(forall|j: int| 0 <= j < s0b.len() ==> self.layers@[j] == s0b[j]);
            }
            assert forall|yy: int|
                spec_has_layer(self.layers@, yy) == (spec_has_layer(s0b, yy) || yy
                    == layer as int) by {
                let n = self.layers@;
                if spec_has_layer(n, yy) {
                    let j = choose|j: int| 0 <= j < n.len() && (#[trigger] n[j]).0 == yy;
                    if j < n.len() - 1 {
                        assert(s0b[j].0 == yy);
                    }
                }
                if spec_has_layer(s0b, yy) {
                    let j = choose|j: int| 0 <= j < s0b.len() && (#[trigger] s0b[j]).0 == yy;
                    assert(n[j].0 == yy);
                }
                if yy == layer as int {
                    assert(n[n.len() - 1].0 == yy);
                }
            }
        }
    }

    /// The stored layer indices, ascending.
    pub fn sorted_ys(&self) -> (r: Vec<i32>)
        requires
            self.wf(),
        ensures
            forall|a: int, b: int| 0 <= a < b < r@.len() ==> r@[a] < r@[b],
            forall|y: i32| r@.contains(y) == spec_has_layer(self.layers@, y as int),
    {
        let mut r: Vec<i32> = Vec::new();
        let mut i: usize = 0;
        while i < self.layers.len()
            invariant
                self.wf(),
                i <= self.layers@.len(),
                forall|a: int, b: int| 0 <= a < b < r@.len() ==> r@[a] < r@[b],
                forall|y: i32|
                    r@.contains(y) == exists|j: int|
                        0 <= j < i && (#[trigger] self.layers@[j]).0 == y,
            decreases self.layers.len() - i,
        {
            let y = self.layers[i].0;
            let ghost r0 = r@;
            // insertion keeping the list sorted; y is new by key uniqueness
            let mut p: usize = 0;
            while p < r.len() && r[p] < y
                invariant
                    p <= r@.len(),
                    r@ == r0,
                    forall|a: int| 0 <= a < p ==> r@[a] < y,
                decreases r.len() - p,
            {
                p = p + 1;
            }
            proof {
                assert(forall|j: int|
                    0 <= j < i ==> (#[trigger] self.layers@[j]).0 != y);
                if r0.contains(y) {
                    let j = choose|j: int| 0 <= j < r0.len() && r0[j] == y;
                    assert(false);
                }
            }
            r.insert(p, y);
            proof {
                assert forall|a: int, b: int| 0 <= a < b < r@.len() implies r@[a] < r@[b] by {
                    if b < p as int {
                    } else if a < p as int && b == p as int {
                    } else if a < p as int {
                        assert(r@[b] == r0[b - 1]);
                    } else if a == p as int {
                        assert(r@[b] == r0[b - 1]);
                        assert(!(r0[p as int] < y));
                        assert(r0[b - 1] >= r0[p as int] || b - 1 == p as int);
                    } else {
                        assert(r@[a] == r0[a - 1] && r@[b] == r0[b - 1]);
                    }
                }
                assert forall|yy: i32|
                    r@.contains(yy) == exists|j: int|
                        0 <= j < i + 1 && (#[trigger] self.layers@[j]).0 == yy by {
                    if r@.contains(yy) {
                        let a = choose|a: int| 0 <= a < r@.len() && r@[a] == yy;
                        if a == p as int {
                            assert(self.layers@[i as int].0 == yy);
                        } else if a < p as int {
                            assert(r0[a] == yy);
                            assert(r0.contains(yy));
                        } else {
                            assert(r0[a - 1] == yy);
                            assert(r0.contains(yy));
                        }
                    }
                    if exists|j: int| 0 <= j < i + 1 && (#[trigger] self.layers@[j]).0 == yy {
                        let j = choose|j: int|
                            0 <= j < i + 1 && (#[trigger] self.layers@[j]).0 == yy;
                        if j == i as int {
                            assert(r@[p as int] == yy);
                        } else {
                            assert(r0.contains(yy));
                            let a = choose|a: int| 0 <= a < r0.len() && r0[a] == yy;
                            if a < p as int {
                                assert(r@[a] == yy);
                            } else {
                                assert(r@[a + 1] == yy);
                            }
                        }
                    }
                }
            }
            i = i + 1;
        }
        r
    }

    /// The layer stored for index `y`, if any.
    pub fn get_layer(&self, y: i32) -> (r: Option<&Layer>)
        requires
            self.wf(),
        ensures
            match r {
                Some(l) => l.wf() && l.y == y && spec_has_layer(self.layers@, y as int)
                    && forall|k: Seq<char>|
                        l.spec_count(k) == self.spec_count(y as int, k),
                None => !spec_has_layer(self.layers@, y as int),
            },
    {
        let mut i: usize = 0;
        while i < self.layers.len()
            invariant
                self.wf(),
                i <= self.layers@.len(),
                forall|j: int| 0 <= j < i ==> (#[trigger] self.layers@[j]).0 != y,
            decreases self.layers.len() - i,
        {
            if self.layers[i].0 == y {
                proof {
                    assert forall|k: Seq<char>|
                        self.layers@[i as int].1.spec_count(k) == self.spec_count(
                            y as int,
                            k,
                        ) by {
                        lemma_layer_found(self.layers@, i as int, k);
                    }
                }
                return Some(&self.layers[i].1);
            }
            i = i + 1;
        }
        None
    }
}

} // verus!
