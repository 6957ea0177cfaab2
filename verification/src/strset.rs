//! Ordered collections keyed by strings: a set of strings and a map from
//! strings to limits.  Both keep their keys in ascending `String` order, so
//! iterating them gives the order in which the rest of the tool reports.
use vstd::prelude::*;

use crate::text::{
    chars_lt, chars_of, eq_chars, lemma_seq_lt_irreflexive, lemma_seq_lt_total,
    lemma_seq_lt_transitive, seq_lt,
};

verus! {

/// The keys are strictly ascending.
pub open spec fn strictly_sorted(keys: Seq<Seq<char>>) -> bool {
    forall|i: int, j: int| 0 <= i < j < keys.len() ==> seq_lt(#[trigger] keys[i], #[trigger] keys[j])
}

/// Where `x` belongs in the sorted `keys`: the number of keys below it.
pub open spec fn insert_position(keys: Seq<Seq<char>>, x: Seq<char>, p: int) -> bool {
    &&& 0 <= p <= keys.len()
    &&& forall|i: int| 0 <= i < p ==> seq_lt(#[trigger] keys[i], x)
    &&& p < keys.len() ==> !seq_lt(keys[p], x)
}

proof fn lemma_sorted_position(keys: Seq<Seq<char>>, x: Seq<char>, p: int)
    requires
        strictly_sorted(keys),
        insert_position(keys, x, p),
    ensures
        forall|i: int| p <= i < keys.len() && keys[i] != x ==> seq_lt(x, #[trigger] keys[i]),
        forall|i: int| 0 <= i < keys.len() && i != p ==> keys[i] != x,
{
    assert forall|i: int| p <= i < keys.len() && keys[i] != x implies seq_lt(x, #[trigger] keys[i]) by {
        lemma_seq_lt_total(keys[p], x);
        if i > p {
            if keys[p] == x {
                lemma_seq_lt_total(x, keys[i]);
            } else {
                lemma_seq_lt_transitive(x, keys[p], keys[i]);
            }
        }
    }
    assert forall|i: int| 0 <= i < keys.len() && i != p implies keys[i] != x by {
        if i < p {
            lemma_seq_lt_irreflexive(x);
        } else {
            lemma_seq_lt_total(keys[p], x);
            lemma_seq_lt_irreflexive(x);
            assert(seq_lt(keys[p], keys[i]));
            if keys[p] != x {
                lemma_seq_lt_transitive(x, keys[p], keys[i]);
            }
        }
    }
}

/// Finds where `x` belongs among the sorted `keys`.
fn find_position(keys: &Vec<String>, x: &[char]) -> (p: usize)
    ensures
        insert_position(keys@.map_values(|k: String| k@), x@, p as int),
{
    let ghost ks = keys@.map_values(|k: String| k@);
    let mut p: usize = 0;
    while p < keys.len()
        invariant
            ks == keys@.map_values(|k: String| k@),
            p <= keys@.len(),
            forall|i: int| 0 <= i < p ==> seq_lt(#[trigger] ks[i], x@),
        decreases keys@.len() - p,
    {
        let k = chars_of(keys[p].as_str());
        if !chars_lt(k.as_slice(), x) {
            return p;
        }
        p += 1;
    }
    p
}

/// A set of strings kept in ascending order (`BTreeSet<String>`).
#[derive(Clone, Debug)]
pub struct StringSet {
    items: Vec<String>,
}

impl StringSet {
    /// The members in ascending order.
    pub closed spec fn keys(self) -> Seq<Seq<char>> {
        self.items@.map_values(|k: String| k@)
    }

    pub closed spec fn wf(self) -> bool {
        strictly_sorted(self.keys())
    }

    /// The members as a set.
    pub open spec fn members(self) -> Set<Seq<char>> {
        self.keys().to_set()
    }

    pub fn new() -> (s: Self)
        ensures
            s.wf(),
            s.keys() == Seq::<Seq<char>>::empty(),
    {
        let s = StringSet { items: Vec::new() };
        assert(s.keys() =~= Seq::<Seq<char>>::empty());
        s
    }

    pub fn len(&self) -> (n: usize)
        ensures
            n == self.keys().len(),
    {
        self.items.len()
    }

    /// The member at position `i` in ascending order.
    pub fn get(&self, i: usize) -> (r: &String)
        requires
            i < self.keys().len(),
        ensures
            r@ == self.keys()[i as int],
    {
        &self.items[i]
    }

    pub fn contains(&self, x: &str) -> (r: bool)
        requires
            self.wf(),
        ensures
            r == self.keys().contains(x@),
    {
        let xc = chars_of(x);
        let p = find_position(&self.items, xc.as_slice());
        proof {
            lemma_sorted_position(self.keys(), x@, p as int);
        }
        if p < self.items.len() {
            let k = chars_of(self.items[p].as_str());
            if eq_chars(k.as_slice(), xc.as_slice()) {
                assert(self.keys()[p as int] == x@);
                return true;
            }
        }
        false
    }

    /// Adds `x` if it is not a member yet.
    pub fn insert(&mut self, x: String)
        requires
            old(self).wf(),
        ensures
            final(self).wf(),
            final(self).members() == old(self).members().insert(x@),
            old(self).keys().contains(x@) ==> final(self).keys() == old(self).keys(),
    {
        let xc = chars_of(x.as_str());
        let ghost ks = self.keys();
        let p = find_position(&self.items, xc.as_slice());
        proof {
            lemma_sorted_position(ks, x@, p as int);
        }
        if p < self.items.len() {
            let k = chars_of(self.items[p].as_str());
            if eq_chars(k.as_slice(), xc.as_slice()) {
                assert(ks[p as int] == x@);
                assert(ks.to_set().insert(x@) =~= ks.to_set());
                return;
            }
        }
        proof {
            assert(!ks.contains(x@));
        }
        self.items.insert(p, x);
        proof {
            let nk = self.keys();
            assert(nk =~= ks.insert(p as int, x@));
            assert forall|i: int, j: int| 0 <= i < j < nk.len() implies seq_lt(
                #[trigger] nk[i],
                #[trigger] nk[j],
            ) by {
                if j < p {
                } else if j == p {
                } else if i < p {
                    lemma_seq_lt_transitive(nk[i], x@, nk[j]);
                } else if i == p {
                    assert(nk[j] == ks[j - 1]);
                } else {
                    assert(nk[i] == ks[i - 1]);
                    assert(nk[j] == ks[j - 1]);
                }
            }
            assert(nk.to_set() =~= ks.to_set().insert(x@)) by {
                assert forall|y: Seq<char>| nk.to_set().contains(y) implies ks.to_set().insert(
                    x@,
                ).contains(y) by {
                    let i = choose|i: int| 0 <= i < nk.len() && nk[i] == y;
                    if i < p {
                        assert(ks[i] == y);
                    } else if i > p {
                        assert(ks[i - 1] == y);
                    }
                }
                assert forall|y: Seq<char>| ks.to_set().insert(x@).contains(y) implies nk.to_set().contains(
                    y,
                ) by {
                    if y == x@ {
                        assert(nk[p as int] == y);
                    } else {
                        let i = choose|i: int| 0 <= i < ks.len() && ks[i] == y;
                        if i < p {
                            assert(nk[i] == y);
                        } else {
                            assert(nk[i + 1] == y);
                        }
                    }
                }
            }
        }
    }

    /// Removes `x` if it is a member.
    pub fn remove(&mut self, x: &str)
        requires
            old(self).wf(),
        ensures
            final(self).wf(),
            final(self).members() == old(self).members().remove(x@),
    {
        let xc = chars_of(x);
        let ghost ks = self.keys();
        let p = find_position(&self.items, xc.as_slice());
        proof {
            lemma_sorted_position(ks, x@, p as int);
        }
        if p < self.items.len() {
            let k = chars_of(self.items[p].as_str());
            if eq_chars(k.as_slice(), xc.as_slice()) {
                self.items.remove(p);
                proof {
                    let nk = self.keys();
                    assert(nk =~= ks.remove(p as int));
                    assert forall|i: int, j: int| 0 <= i < j < nk.len() implies seq_lt(
                        #[trigger] nk[i],
                        #[trigger] nk[j],
                    ) by {
                        if i >= p {
                            assert(nk[i] == ks[i + 1]);
                        }
                        if j >= p {
                            assert(nk[j] == ks[j + 1]);
                        }
                    }
                    assert(nk.to_set() =~= ks.to_set().remove(x@)) by {
                        assert forall|y: Seq<char>| nk.to_set().contains(y) implies ks.to_set().remove(
                            x@,
                        ).contains(y) by {
                            let i = choose|i: int| 0 <= i < nk.len() && nk[i] == y;
                            if i < p {
                                assert(ks[i] == y);
                            } else {
                                assert(ks[i + 1] == y);
                            }
                        }
                        assert forall|y: Seq<char>| ks.to_set().remove(x@).contains(y) implies nk.to_set().contains(
                            y,
                        ) by {
                            let i = choose|i: int| 0 <= i < ks.len() && ks[i] == y;
                            if i < p {
                                assert(nk[i] == y);
                            } else {
                                assert(i != p);
                                assert(nk[i - 1] == y);
                            }
                        }
                    }
                }
                return;
            }
        }
        proof {
            assert(!ks.contains(x@));
            assert(ks.to_set().remove(x@) =~= ks.to_set());
        }
    }
}

/// A map from strings to counts or limits, kept in ascending key order
/// (`BTreeMap<String, usize>`).
#[derive(Clone, Debug)]
pub struct StringMap {
    keys: Vec<String>,
    values: Vec<usize>,
}

impl StringMap {
    /// The field names in ascending order.
    pub closed spec fn keys(self) -> Seq<Seq<char>> {
        self.keys@.map_values(|k: String| k@)
    }

    /// The limits, in the order of `keys`.
    pub closed spec fn values(self) -> Seq<usize> {
        self.values@
    }

    pub closed spec fn wf(self) -> bool {
        &&& strictly_sorted(self.keys())
        &&& self.keys@.len() == self.values@.len()
    }

    pub proof fn lemma_lengths(self)
        requires
            self.wf(),
        ensures
            self.keys().len() == self.values().len(),
    {
    }

    /// The entries as a map.
    pub open spec fn as_map(self) -> Map<Seq<char>, usize> {
        Map::new(
            |k: Seq<char>| self.keys().contains(k),
            |k: Seq<char>| self.values()[self.keys().index_of(k)],
        )
    }

    pub fn new() -> (m: Self)
        ensures
            m.wf(),
            m.as_map() == Map::<Seq<char>, usize>::empty(),
            m.keys().len() == 0,
    {
        let m = StringMap { keys: Vec::new(), values: Vec::new() };
        assert(m.as_map() =~= Map::<Seq<char>, usize>::empty());
        m
    }

    pub fn len(&self) -> (n: usize)
        requires
            self.wf(),
        ensures
            n == self.keys().len(),
    {
        self.keys.len()
    }

    pub fn is_empty(&self) -> (r: bool)
        requires
            self.wf(),
        ensures
            r == (self.as_map() == Map::<Seq<char>, usize>::empty()),
    {
        if self.keys.len() == 0 {
            assert(self.as_map() =~= Map::<Seq<char>, usize>::empty());
            true
        } else {
            assert(self.as_map().contains_key(self.keys()[0]));
            false
        }
    }

    /// The entry at position `i` in ascending key order.
    pub fn entry(&self, i: usize) -> (r: (&String, usize))
        requires
            self.wf(),
            i < self.keys().len(),
        ensures
            r.0@ == self.keys()[i as int],
            r.1 == self.values()[i as int],
            self.as_map()[r.0@] == r.1,
    {
        proof {
            self.lemma_index_of(i as int);
        }
        (&self.keys[i], self.values[i])
    }

    proof fn lemma_index_of(self, i: int)
        requires
            self.wf(),
            0 <= i < self.keys().len(),
        ensures
            self.keys().index_of(self.keys()[i]) == i,
    {
        let k = self.keys()[i];
        assert(self.keys().contains(k));
        let j = self.keys().index_of(k);
        if j != i {
            lemma_seq_lt_irreflexive(k);
        }
    }

    pub fn get(&self, key: &str) -> (r: Option<&usize>)
        requires
            self.wf(),
        ensures
            r is Some <==> self.as_map().contains_key(key@),
            r matches Some(v) ==> *v == self.as_map()[key@],
    {
        let kc = chars_of(key);
        let p = find_position(&self.keys, kc.as_slice());
        proof {
            lemma_sorted_position(self.keys(), key@, p as int);
        }
        if p < self.keys.len() {
            let k = chars_of(self.keys[p].as_str());
            if eq_chars(k.as_slice(), kc.as_slice()) {
                proof {
                    self.lemma_index_of(p as int);
                }
                return Some(&self.values[p]);
            }
        }
        None
    }

    /// Sets the limit of `key` to `value`, replacing an earlier one.
    pub fn insert(&mut self, key: String, value: usize)
        requires
            old(self).wf(),
        ensures
            final(self).wf(),
            final(self).as_map() == old(self).as_map().insert(key@, value),
    {
        let kc = chars_of(key.as_str());
        let ghost ks = self.keys();
        let ghost old_map = self.as_map();
        let p = find_position(&self.keys, kc.as_slice());
        proof {
            lemma_sorted_position(ks, key@, p as int);
        }
        if p < self.keys.len() {
            let k = chars_of(self.keys[p].as_str());
            if eq_chars(k.as_slice(), kc.as_slice()) {
                self.values.set(p, value);
                proof {
                    assert(self.keys() == ks);
                    assert forall|k2: Seq<char>| #[trigger] self.as_map().contains_key(k2)
                        implies self.as_map()[k2] == old_map.insert(key@, value)[k2] by {
                        let j = ks.index_of(k2);
                        self.lemma_index_of(j);
                        if k2 == key@ {
                            assert(j == p);
                        } else {
                            assert(j != p);
                        }
                    }
                    assert(self.as_map() =~= old_map.insert(key@, value));
                }
                return;
            }
        }
        self.keys.insert(p, key);
        self.values.insert(p, value);
        proof {
            let nk = self.keys();
            assert(nk =~= ks.insert(p as int, key@));
            assert forall|i: int, j: int| 0 <= i < j < nk.len() implies seq_lt(
                #[trigger] nk[i],
                #[trigger] nk[j],
            ) by {
                if j < p {
                } else if j == p {
                } else if i < p {
                    lemma_seq_lt_transitive(nk[i], key@, nk[j]);
                } else if i == p {
                    assert(nk[j] == ks[j - 1]);
                } else {
                    assert(nk[i] == ks[i - 1]);
                    assert(nk[j] == ks[j - 1]);
                }
            }
            assert forall|k2: Seq<char>| #[trigger] old_map.insert(key@, value).contains_key(k2)
                implies self.as_map().contains_key(k2) by {
                if k2 == key@ {
                    assert(nk[p as int] == k2);
                } else {
                    let i = ks.index_of(k2);
                    if i < p {
                        assert(nk[i] == k2);
                    } else {
                        assert(nk[i + 1] == k2);
                    }
                }
            }
            assert forall|k2: Seq<char>| #[trigger] self.as_map().contains_key(k2)
                implies old_map.insert(key@, value).contains_key(k2) && self.as_map()[k2]
                == old_map.insert(key@, value)[k2] by {
                let j = nk.index_of(k2);
                self.lemma_index_of(j);
                if j < p {
                    assert(ks[j] == k2);
                    assert(ks.contains(k2));
                    let oi = ks.index_of(k2);
                    assert(ks[oi] == k2);
                    if oi != j {
                        lemma_seq_lt_irreflexive(k2);
                    }
                } else if j > p {
                    assert(ks[j - 1] == k2);
                    let oi = ks.index_of(k2);
                    assert(ks[oi] == k2);
                    if oi != j - 1 {
                        lemma_seq_lt_irreflexive(k2);
                    }
                }
            }
            assert(self.as_map() =~= old_map.insert(key@, value));
        }
    }
}

} // verus!
