//! A map keyed by tuples, kept as a vector of entries in strictly increasing
//! lexicographic key order, so every traversal visits the keys in tuple
//! order.

use vstd::prelude::*;

use crate::bounds::{Tuple, TupleOrder};
use crate::lex::{lemma_lex_irreflexive, lemma_lex_sorted_no_duplicates, lemma_lex_transitive, lex_lt, lex_sorted};

verus! {

/// Entries `(key, value)` in strictly increasing key order.
pub struct TupleMap<T> {
    entries: Vec<(Tuple, T)>,
}

/// The key views of a list of entries.
pub open spec fn entry_keys<T>(s: Seq<(Tuple, T)>) -> Seq<Seq<nat>> {
    s.map_values(|e: (Tuple, T)| e.0@)
}

/// The values of a list of entries.
pub open spec fn entry_vals<T>(s: Seq<(Tuple, T)>) -> Seq<T> {
    s.map_values(|e: (Tuple, T)| e.1)
}

impl<T> View for TupleMap<T> {
    type V = Map<Seq<nat>, T>;

    closed spec fn view(&self) -> Map<Seq<nat>, T> {
        Map::new(
            |t: Seq<nat>| self.keys().contains(t),
            |t: Seq<nat>| self.vals()[self.keys().index_of(t)],
        )
    }
}

impl<T> TupleMap<T> {
    /// The keys, in iteration (lexicographic) order.
    pub closed spec fn keys(&self) -> Seq<Seq<nat>> {
        entry_keys(self.entries@)
    }

    /// The values, in key order.
    pub closed spec fn vals(&self) -> Seq<T> {
        entry_vals(self.entries@)
    }

    /// Well-formedness: the keys strictly increase.
    pub closed spec fn wf(&self) -> bool {
        forall|i: int, j: int|
            0 <= i < j < self.entries@.len() ==> lex_lt(
                #[trigger] self.entries@[i].0@,
                #[trigger] self.entries@[j].0@,
            )
    }

    /// Well-formedness is the sortedness of the keys.
    proof fn lemma_wf_sorted(&self)
        ensures
            self.wf() == lex_sorted(self.keys()),
    {
        let k = self.keys();
        if self.wf() {
            assert forall|i: int, j: int| 0 <= i < j < k.len() implies lex_lt(#[trigger] k[i], #[trigger] k[j]) by {
                assert(k[i] == self.entries@[i].0@);
                assert(k[j] == self.entries@[j].0@);
            }
        }
        if lex_sorted(k) {
            assert forall|i: int, j: int| 0 <= i < j < self.entries@.len() implies lex_lt(
                #[trigger] self.entries@[i].0@,
                #[trigger] self.entries@[j].0@,
            ) by {
                assert(k[i] == self.entries@[i].0@);
                assert(k[j] == self.entries@[j].0@);
            }
        }
    }

    /// What a well-formed map guarantees about its view.
    pub broadcast proof fn lemma_wf(m: &Self)
        requires
            #[trigger] m.wf(),
        ensures
            m.keys().len() == m.vals().len(),
            lex_sorted(m.keys()),
            m.keys().no_duplicates(),
            m@.dom() == m.keys().to_set(),
            m@.dom().finite(),
            m@.dom().len() == m.keys().len(),
            forall|i: int| 0 <= i < m.keys().len() ==> #[trigger] m@[m.keys()[i]] == m.vals()[i],
    {
        m.lemma_wf_sorted();
        lemma_lex_sorted_no_duplicates(m.keys());
        m.keys().unique_seq_to_set();
        assert(m@.dom() =~= m.keys().to_set());
        assert forall|i: int| 0 <= i < m.keys().len() implies #[trigger] m@[m.keys()[i]] == m.vals()[i] by {
            let k = m.keys()[i];
            assert(m.keys().contains(k));
            let j = m.keys().index_of(k);
            assert(0 <= j < m.keys().len() && m.keys()[j] == k);
            if j != i {
                assert(m.keys().no_duplicates());
            }
        }
    }

    /// An empty map.
    pub fn new() -> (m: TupleMap<T>)
        ensures
            m.wf(),
            m@ == Map::<Seq<nat>, T>::empty(),
            m.keys() == Seq::<Seq<nat>>::empty(),
    {
        let m = TupleMap { entries: Vec::new() };
        assert(m.keys() =~= Seq::<Seq<nat>>::empty());
        assert(m@ =~= Map::<Seq<nat>, T>::empty());
        m
    }

    /// Number of entries.
    pub fn len(&self) -> (n: usize)
        requires
            self.wf(),
        ensures
            n == self.keys().len(),
            n == self@.dom().len(),
    {
        proof {
            Self::lemma_wf(self);
        }
        self.entries.len()
    }

    /// The entries, in key order.
    pub fn entries(&self) -> (e: &[(Tuple, T)])
        ensures
            entry_keys(e@) == self.keys(),
            entry_vals(e@) == self.vals(),
    {
        self.entries.as_slice()
    }

    /// Locates `t`: whether it is a key, and the position it has (or would
    /// have) among the ordered keys.
    pub fn find(&self, t: &Tuple) -> (r: (bool, usize))
        requires
            self.wf(),
        ensures
            r.1 <= self.keys().len(),
            forall|j: int| 0 <= j < r.1 ==> lex_lt(#[trigger] self.keys()[j], t@),
            r.0 ==> r.1 < self.keys().len() && self.keys()[r.1 as int] == t@,
            !r.0 ==> forall|j: int| r.1 <= j < self.keys().len() ==> lex_lt(t@, #[trigger] self.keys()[j]),
            r.0 == self@.dom().contains(t@),
    {
        let ghost e = self.keys();
        proof {
            self.lemma_wf_sorted();
        }
        let mut lo: usize = 0;
        let mut hi: usize = self.entries.len();
        while lo < hi
            invariant
                self.wf(),
                lex_sorted(e),
                e == self.keys(),
                e.len() == self.entries.len(),
                lo <= hi <= e.len(),
                forall|j: int| 0 <= j < lo ==> lex_lt(#[trigger] e[j], t@),
                forall|j: int| hi <= j < e.len() ==> lex_lt(t@, #[trigger] e[j]),
            decreases hi - lo,
        {
            let mid = lo + (hi - lo) / 2;
            assert(e[mid as int] == self.entries@[mid as int].0@);
            match t.compare(&self.entries[mid].0) {
                TupleOrder::Less => {
                    assert forall|j: int| mid <= j < e.len() implies lex_lt(t@, #[trigger] e[j]) by {
                        if j > mid {
                            assert(lex_lt(e[mid as int], e[j]));
                            lemma_lex_transitive(t@, e[mid as int], e[j]);
                        }
                    }
                    hi = mid;
                },
                TupleOrder::Greater => {
                    assert forall|j: int| 0 <= j <= mid implies lex_lt(#[trigger] e[j], t@) by {
                        if j < mid {
                            assert(lex_lt(e[j], e[mid as int]));
                            lemma_lex_transitive(e[j], e[mid as int], t@);
                        }
                    }
                    lo = mid + 1;
                },
                TupleOrder::Equal => {
                    proof {
                        Self::lemma_wf(self);
                        assert(e.to_set().contains(e[mid as int]));
                    }
                    return (true, mid);
                },
            }
        }
        proof {
            Self::lemma_wf(self);
            if e.to_set().contains(t@) {
                let k = choose|k: int| 0 <= k < e.len() && e[k] == t@;
                lemma_lex_irreflexive(t@);
            }
        }
        (false, lo)
    }

    /// The value at `t`, if any.
    pub fn get(&self, t: &Tuple) -> (r: Option<&T>)
        requires
            self.wf(),
        ensures
            r == if self@.dom().contains(t@) {
                Some(&self@[t@])
            } else {
                None::<&T>
            },
    {
        let (found, pos) = self.find(t);
        if found {
            proof {
                Self::lemma_wf(self);
                assert(self@[self.keys()[pos as int]] == self.vals()[pos as int]);
            }
            Some(&self.entries[pos].1)
        } else {
            None
        }
    }

    /// Sets the value at `t` (replacing any earlier value); returns the
    /// position of `t` in the key order.
    pub fn insert(&mut self, t: Tuple, v: T) -> (pos: usize)
        requires
            old(self).wf(),
        ensures
            final(self).wf(),
            final(self)@ == old(self)@.insert(t@, v),
            pos < final(self).keys().len(),
            final(self).keys()[pos as int] == t@,
            old(self)@.dom().contains(t@) ==> final(self).keys() == old(self).keys() && final(self).vals()
                == old(self).vals().update(pos as int, v),
            !old(self)@.dom().contains(t@) ==> final(self).keys() == old(self).keys().insert(pos as int, t@)
                && final(self).vals() == old(self).vals().insert(pos as int, v),
    {
        let (found, pos) = self.find(&t);
        let ghost tv = t@;
        let ghost old_k = self.keys();
        let ghost old_v = self.vals();
        proof {
            Self::lemma_wf(self);
        }
        if found {
            self.entries.set(pos, (t, v));
            proof {
                assert(self.keys() =~= old_k);
                assert(self.vals() =~= old_v.update(pos as int, v));
                self.lemma_wf_sorted();
                Self::lemma_wf(self);
                assert(self@ =~= old(self)@.insert(tv, v)) by {
                    assert forall|x: Seq<nat>| #[trigger] self@.dom().contains(x) implies self@[x] == old(self)@.insert(tv, v)[x] by {
                        let k = choose|k: int| 0 <= k < old_k.len() && old_k[k] == x;
                        assert(self@[self.keys()[k]] == self.vals()[k]);
                        if k != pos {
                            assert(old(self)@[old_k[k]] == old_v[k]);
                        }
                    }
                }
            }
            pos
        } else {
            self.entries.insert(pos, (t, v));
            proof {
                let e = self.keys();
                assert(e =~= old_k.insert(pos as int, tv));
                assert(self.vals() =~= old_v.insert(pos as int, v));
                assert forall|i: int, j: int| 0 <= i < j < e.len() implies lex_lt(#[trigger] e[i], #[trigger] e[j]) by {
                    if j < pos {
                        assert(lex_lt(old_k[i], old_k[j]));
                    } else if j == pos {
                        assert(lex_lt(old_k[i], tv));
                    } else if i < pos {
                        assert(lex_lt(old_k[i], old_k[j - 1]));
                    } else if i == pos {
                        assert(lex_lt(tv, old_k[j - 1]));
                    } else {
                        assert(lex_lt(old_k[i - 1], old_k[j - 1]));
                    }
                }
                self.lemma_wf_sorted();
                Self::lemma_wf(self);
                assert(self@ =~= old(self)@.insert(tv, v)) by {
                    assert forall|x: Seq<nat>| self@.dom().contains(x) implies old(self)@.insert(tv, v).dom().contains(x) by {
                        let k = choose|k: int| 0 <= k < e.len() && e[k] == x;
                        if k < pos {
                            assert(old_k[k] == x);
                        } else if k > pos {
                            assert(old_k[k - 1] == x);
                        }
                    }
                    assert forall|x: Seq<nat>| old(self)@.insert(tv, v).dom().contains(x) implies self@.dom().contains(x) by {
                        if x == tv {
                            assert(e[pos as int] == tv);
                        } else {
                            let k = choose|k: int| 0 <= k < old_k.len() && old_k[k] == x;
                            if k < pos {
                                assert(e[k] == x);
                            } else {
                                assert(e[k + 1] == x);
                            }
                        }
                    }
                    assert forall|x: Seq<nat>| #[trigger] self@.dom().contains(x) implies self@[x] == old(self)@.insert(tv, v)[x] by {
                        let k = choose|k: int| 0 <= k < e.len() && e[k] == x;
                        assert(self@[e[k]] == self.vals()[k]);
                        if k < pos {
                            assert(old(self)@[old_k[k]] == old_v[k]);
                        } else if k > pos {
                            assert(old(self)@[old_k[k - 1]] == old_v[k - 1]);
                        }
                    }
                }
            }
            pos
        }
    }

    /// The value at position `pos` of the key order, for update in place.
    pub fn value_mut(&mut self, pos: usize) -> (v: &mut T)
        requires
            old(self).wf(),
            pos < old(self).keys().len(),
        ensures
            *v == old(self).vals()[pos as int],
            final(self).wf(),
            final(self).keys() == old(self).keys(),
            final(self).vals() == old(self).vals().update(pos as int, *final(v)),
            final(self)@ == old(self)@.insert(old(self).keys()[pos as int], *final(v)),
    {
        proof {
            self.lemma_wf_sorted();
            lemma_lex_sorted_no_duplicates(self.keys());
            assert forall|x: Seq<nat>| #[trigger] self.keys().contains(x) implies
                (self.keys().index_of(x) == pos) == (x == self.keys()[pos as int]) by {
                let i = self.keys().index_of(x);
                assert(self.keys()[i] == x);
            }
        }
        &mut self.entries[pos].1
    }

    /// Removes and returns the entry at position `pos` of the key order.
    pub fn remove_at(&mut self, pos: usize) -> (r: (Tuple, T))
        requires
            old(self).wf(),
            pos < old(self).keys().len(),
        ensures
            final(self).wf(),
            r.0@ == old(self).keys()[pos as int],
            r.1 == old(self).vals()[pos as int],
            r.1 == old(self)@[r.0@],
            final(self)@ == old(self)@.remove(r.0@),
            final(self).keys() == old(self).keys().remove(pos as int),
            final(self).vals() == old(self).vals().remove(pos as int),
    {
        let ghost old_k = self.keys();
        let ghost old_v = self.vals();
        proof {
            Self::lemma_wf(self);
        }
        let r = self.entries.remove(pos);
        proof {
            let e = self.keys();
            let kv = r.0@;
            assert(e =~= old_k.remove(pos as int));
            assert(self.vals() =~= old_v.remove(pos as int));
            assert forall|i: int, j: int| 0 <= i < j < e.len() implies lex_lt(#[trigger] e[i], #[trigger] e[j]) by {
                if j < pos {
                    assert(lex_lt(old_k[i], old_k[j]));
                } else if i < pos {
                    assert(lex_lt(old_k[i], old_k[j + 1]));
                } else {
                    assert(lex_lt(old_k[i + 1], old_k[j + 1]));
                }
            }
            self.lemma_wf_sorted();
            Self::lemma_wf(self);
            assert(old(self)@[old_k[pos as int]] == old_v[pos as int]);
            assert(self@ =~= old(self)@.remove(kv)) by {
                assert forall|x: Seq<nat>| self@.dom().contains(x) implies old(self)@.remove(kv).dom().contains(x) by {
                    let k = choose|k: int| 0 <= k < e.len() && e[k] == x;
                    if k < pos {
                        assert(old_k[k] == x);
                        assert(old_k.no_duplicates());
                    } else {
                        assert(old_k[k + 1] == x);
                        assert(old_k.no_duplicates());
                    }
                }
                assert forall|x: Seq<nat>| old(self)@.remove(kv).dom().contains(x) implies self@.dom().contains(x) by {
                    let k = choose|k: int| 0 <= k < old_k.len() && old_k[k] == x;
                    if k < pos {
                        assert(e[k] == x);
                    } else {
                        assert(e[k - 1] == x);
                    }
                }
                assert forall|x: Seq<nat>| #[trigger] self@.dom().contains(x) implies self@[x] == old(self)@.remove(kv)[x] by {
                    let k = choose|k: int| 0 <= k < e.len() && e[k] == x;
                    assert(self@[e[k]] == self.vals()[k]);
                    if k < pos {
                        assert(old(self)@[old_k[k]] == old_v[k]);
                    } else {
                        assert(old(self)@[old_k[k + 1]] == old_v[k + 1]);
                    }
                }
            }
        }
        r
    }
}

impl<T: Copy> TupleMap<T> {
    /// A copy of the map.
    pub fn duplicate(&self) -> (m: TupleMap<T>)
        requires
            self.wf(),
        ensures
            m.wf(),
            m.keys() == self.keys(),
            m.vals() == self.vals(),
            m@ == self@,
    {
        let mut entries: Vec<(Tuple, T)> = Vec::new();
        let mut i: usize = 0;
        while i < self.entries.len()
            invariant
                i <= self.entries.len(),
                entry_keys(entries@) == self.keys().take(i as int),
                entry_vals(entries@) == self.vals().take(i as int),
            decreases self.entries.len() - i,
        {
            let k = self.entries[i].0.duplicate();
            let v = self.entries[i].1;
            let ghost before = entries@;
            entries.push((k, v));
            proof {
                assert(self.keys()[i as int] == self.entries@[i as int].0@);
                assert(self.vals()[i as int] == self.entries@[i as int].1);
                assert(entry_keys(entries@) =~= entry_keys(before).push(k@));
                assert(entry_vals(entries@) =~= entry_vals(before).push(v));
                assert(self.keys().take(i + 1) =~= self.keys().take(i as int).push(self.keys()[i as int]));
                assert(self.vals().take(i + 1) =~= self.vals().take(i as int).push(self.vals()[i as int]));
            }
            i = i + 1;
            assert(entry_keys(entries@) =~= self.keys().take(i as int));
            assert(entry_vals(entries@) =~= self.vals().take(i as int));
        }
        let m = TupleMap { entries };
        assert(m.keys() =~= self.keys());
        assert(m.vals() =~= self.vals());
        proof {
            self.lemma_wf_sorted();
            m.lemma_wf_sorted();
        }
        assert(m@ =~= self@);
        m
    }
}

} // verus!
