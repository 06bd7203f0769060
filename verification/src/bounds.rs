//! The finite universe and relation bounds handed to translation.
//!
//! Atom order is fixed when a [`Universe`] is built; a [`TupleSet`] keeps its
//! tuples strictly increasing in lexicographic atom order, so every traversal
//! is deterministic.

use vstd::prelude::*;

use crate::ir::RelId;
use crate::lex::{
    lemma_lex_asymmetric, lemma_lex_common_prefix, lemma_lex_irreflexive, lemma_lex_sorted_no_duplicates,
    lemma_lex_total, lemma_lex_transitive, lex_lt, lex_sorted,
};

verus! {

/// Index of one atom within its [`Universe`].
#[derive(Clone, Copy, PartialEq, Eq, PartialOrd, Ord, Debug, Structural)]
pub struct AtomId {
    /// Position in the universe.
    pub index: usize,
}

impl AtomId {
    /// The atom at position `index`.
    pub fn from_index(index: usize) -> (a: AtomId)
        ensures
            a.index == index,
    {
        AtomId { index }
    }

    /// The atom's position in the universe.
    pub fn index(self) -> (i: usize)
        ensures
            i == self.index,
    {
        self.index
    }
}

/// The atom positions of a sequence of atoms.
pub open spec fn atom_indices(s: Seq<AtomId>) -> Seq<nat> {
    s.map_values(|a: AtomId| a.index as nat)
}

/// The result of comparing two tuples lexicographically.
#[derive(Clone, Copy, PartialEq, Eq, Debug, Structural)]
pub enum TupleOrder {
    /// The first tuple precedes the second.
    Less,
    /// The tuples are equal.
    Equal,
    /// The first tuple follows the second.
    Greater,
}

/// An ordered sequence of atoms; the element of a [`TupleSet`].
#[derive(Clone, PartialEq, Eq, PartialOrd, Ord, Debug)]
pub struct Tuple {
    atoms: Vec<AtomId>,
}

impl View for Tuple {
    type V = Seq<nat>;

    closed spec fn view(&self) -> Seq<nat> {
        atom_indices(self.atoms@)
    }
}

impl Tuple {
    /// Creates a tuple from its atoms, in position order. A tuple has at least
    /// one atom.
    pub fn new(atoms: Vec<AtomId>) -> (t: Tuple)
        requires
            atoms.len() >= 1,
        ensures
            t@ == atom_indices(atoms@),
    {
        Tuple { atoms }
    }

    /// Number of atoms.
    pub fn arity(&self) -> (n: usize)
        ensures
            n == self@.len(),
    {
        self.atoms.len()
    }

    /// The atoms, in position order.
    pub fn atoms(&self) -> (a: &[AtomId])
        ensures
            atom_indices(a@) == self@,
    {
        self.atoms.as_slice()
    }

    /// The atom at position `i`.
    pub fn atom(&self, i: usize) -> (a: AtomId)
        requires
            i < self@.len(),
        ensures
            a.index == self@[i as int],
    {
        self.atoms[i]
    }

    /// The atoms of `self` at positions `[from, to)` followed by those of
    /// `other` at positions `[ofrom, other.arity())`.
    fn splice(&self, from: usize, to: usize, other: &Tuple, ofrom: usize) -> (t: Tuple)
        requires
            from <= to <= self@.len(),
            ofrom <= other@.len(),
            to - from + other@.len() - ofrom >= 1,
        ensures
            t@ == self@.subrange(from as int, to as int) + other@.subrange(
                ofrom as int,
                other@.len() as int,
            ),
    {
        let mut atoms: Vec<AtomId> = Vec::new();
        let mut i: usize = from;
        while i < to
            invariant
                from <= i <= to <= self.atoms.len(),
                atoms@ == self.atoms@.subrange(from as int, i as int),
            decreases to - i,
        {
            atoms.push(self.atoms[i]);
            i = i + 1;
            assert(atoms@ =~= self.atoms@.subrange(from as int, i as int));
        }
        let mut j: usize = ofrom;
        while j < other.atoms.len()
            invariant
                ofrom <= j <= other.atoms.len(),
                atoms@ == self.atoms@.subrange(from as int, to as int) + other.atoms@.subrange(
                    ofrom as int,
                    j as int,
                ),
            decreases other.atoms.len() - j,
        {
            atoms.push(other.atoms[j]);
            j = j + 1;
            assert(atoms@ =~= self.atoms@.subrange(from as int, to as int) + other.atoms@.subrange(
                ofrom as int,
                j as int,
            ));
        }
        let t = Tuple { atoms };
        assert(t@ =~= self@.subrange(from as int, to as int) + other@.subrange(
            ofrom as int,
            other@.len() as int,
        ));
        t
    }

    /// The atoms of `self` followed by those of `other`.
    pub fn concat(&self, other: &Tuple) -> (t: Tuple)
        requires
            self@.len() + other@.len() >= 1,
        ensures
            t@ == self@ + other@,
    {
        let t = self.splice(0, self.atoms.len(), other, 0);
        assert(self@.subrange(0, self@.len() as int) =~= self@);
        assert(other@.subrange(0, other@.len() as int) =~= other@);
        t
    }

    /// `self` without its last atom, followed by `other` without its first:
    /// the tuple a join of the two produces.
    pub fn join_with(&self, other: &Tuple) -> (t: Tuple)
        requires
            self@.len() >= 1,
            other@.len() >= 1,
            self@.len() + other@.len() >= 3,
        ensures
            t@ == self@.drop_last() + other@.drop_first(),
    {
        let t = self.splice(0, self.atoms.len() - 1, other, 1);
        assert(self@.subrange(0, self@.len() - 1) =~= self@.drop_last());
        assert(other@.subrange(1, other@.len() as int) =~= other@.drop_first());
        t
    }

    /// A tuple with the same atoms.
    pub fn duplicate(&self) -> (t: Tuple)
        ensures
            t@ == self@,
    {
        let mut atoms: Vec<AtomId> = Vec::new();
        let mut i: usize = 0;
        while i < self.atoms.len()
            invariant
                i <= self.atoms.len(),
                atoms@ == self.atoms@.take(i as int),
            decreases self.atoms.len() - i,
        {
            atoms.push(self.atoms[i]);
            i = i + 1;
            assert(atoms@ =~= self.atoms@.take(i as int));
        }
        assert(self.atoms@.take(i as int) =~= self.atoms@);
        Tuple { atoms }
    }

    /// Compares two tuples in lexicographic atom order.
    pub fn compare(&self, other: &Tuple) -> (r: TupleOrder)
        ensures
            (r == TupleOrder::Less) == lex_lt(self@, other@),
            (r == TupleOrder::Equal) == (self@ == other@),
            (r == TupleOrder::Greater) == lex_lt(other@, self@),
    {
        let a = &self.atoms;
        let b = &other.atoms;
        let ghost va = self@;
        let ghost vb = other@;
        let mut i: usize = 0;
        while i < a.len() && i < b.len()
            invariant
                i <= a.len(),
                i <= b.len(),
                va == atom_indices(a@),
                vb == atom_indices(b@),
                va == self@,
                vb == other@,
                va.take(i as int) == vb.take(i as int),
            decreases a.len() - i,
        {
            assert(va[i as int] == a@[i as int].index as nat);
            assert(vb[i as int] == b@[i as int].index as nat);
            if a[i].index < b[i].index {
                proof {
                    lemma_lex_common_prefix(va, vb, i as int);
                    assert(va.skip(i as int)[0] == va[i as int]);
                    assert(vb.skip(i as int)[0] == vb[i as int]);
                    assert(lex_lt(va.skip(i as int), vb.skip(i as int)));
                    lemma_lex_asymmetric(va, vb);
                    assert(va[i as int] != vb[i as int]);
                }
                return TupleOrder::Less;
            } else if a[i].index > b[i].index {
                proof {
                    lemma_lex_common_prefix(vb, va, i as int);
                    assert(va.skip(i as int)[0] == va[i as int]);
                    assert(vb.skip(i as int)[0] == vb[i as int]);
                    assert(lex_lt(vb.skip(i as int), va.skip(i as int)));
                    lemma_lex_asymmetric(vb, va);
                    assert(va[i as int] != vb[i as int]);
                }
                return TupleOrder::Greater;
            }
            i = i + 1;
            assert(va.take(i as int) =~= vb.take(i as int)) by {
                assert forall|k: int| 0 <= k < i implies va.take(i as int)[k] == vb.take(
                    i as int,
                )[k] by {
                    if k < i - 1 {
                        assert(va.take(i - 1)[k] == vb.take(i - 1)[k]);
                    }
                }
            }
        }
        proof {
            lemma_lex_common_prefix(va, vb, i as int);
            lemma_lex_common_prefix(vb, va, i as int);
        }
        if a.len() < b.len() {
            proof {
                assert(va.skip(i as int).len() == 0);
                lemma_lex_asymmetric(va, vb);
                assert(va.len() != vb.len());
            }
            TupleOrder::Less
        } else if a.len() > b.len() {
            proof {
                assert(vb.skip(i as int).len() == 0);
                lemma_lex_asymmetric(vb, va);
                assert(va.len() != vb.len());
            }
            TupleOrder::Greater
        } else {
            proof {
                assert(va =~= va.take(i as int));
                assert(vb =~= vb.take(i as int));
                lemma_lex_irreflexive(va);
            }
            TupleOrder::Equal
        }
    }
}

/// A set of same-arity tuples, kept in strictly increasing lexicographic order.
#[derive(Clone, PartialEq, Eq, Debug)]
pub struct TupleSet {
    arity: usize,
    tuples: Vec<Tuple>,
}

/// The views of a sequence of tuples.
pub open spec fn tuple_views(s: Seq<Tuple>) -> Seq<Seq<nat>> {
    s.map_values(|t: Tuple| t@)
}

impl View for TupleSet {
    type V = Set<Seq<nat>>;

    closed spec fn view(&self) -> Set<Seq<nat>> {
        self.ordered().to_set()
    }
}

impl TupleSet {
    /// The member tuples, in iteration (lexicographic) order.
    pub closed spec fn ordered(&self) -> Seq<Seq<nat>> {
        tuple_views(self.tuples@)
    }

    /// The common arity of the member tuples.
    pub closed spec fn ar(&self) -> nat {
        self.arity as nat
    }

    /// Well-formedness: positive arity, every tuple of that arity, and the
    /// tuples strictly increasing.
    pub closed spec fn wf(&self) -> bool {
        &&& self.arity >= 1
        &&& lex_sorted(self.ordered())
        &&& forall|i: int| 0 <= i < self.ordered().len() ==> (#[trigger] self.ordered()[i]).len() == self.arity
    }

    /// What a well-formed tuple set guarantees about its view.
    pub broadcast proof fn lemma_wf(s: &TupleSet)
        requires
            #[trigger] s.wf(),
        ensures
            s@.finite(),
            s.ar() >= 1,
            s.ordered().to_set() == s@,
            lex_sorted(s.ordered()),
            s.ordered().no_duplicates(),
            s.ordered().len() == s@.len(),
            forall|t: Seq<nat>| #[trigger] s@.contains(t) ==> t.len() == s.ar(),
    {
        lemma_lex_sorted_no_duplicates(s.ordered());
        s.ordered().unique_seq_to_set();
        assert forall|t: Seq<nat>| #[trigger] s@.contains(t) implies t.len() == s.ar() by {
            let i = choose|i: int| 0 <= i < s.ordered().len() && s.ordered()[i] == t;
        }
    }

    /// Creates an empty tuple set of the given (positive) arity.
    pub fn empty(arity: usize) -> (s: TupleSet)
        requires
            arity >= 1,
        ensures
            s.wf(),
            s.ar() == arity,
            s@ == Set::<Seq<nat>>::empty(),
            s.ordered() == Seq::<Seq<nat>>::empty(),
    {
        let s = TupleSet { arity, tuples: Vec::new() };
        assert(s.ordered() =~= Seq::<Seq<nat>>::empty());
        assert(s@ =~= Set::<Seq<nat>>::empty());
        s
    }

    /// Locates `t`: whether it is a member, and the position it has (or would
    /// have) in the ordered listing.
    fn find(&self, t: &Tuple) -> (r: (bool, usize))
        requires
            self.wf(),
        ensures
            r.1 <= self.ordered().len(),
            forall|j: int| 0 <= j < r.1 ==> lex_lt(#[trigger] self.ordered()[j], t@),
            r.0 ==> r.1 < self.ordered().len() && self.ordered()[r.1 as int] == t@,
            !r.0 ==> forall|j: int|
                r.1 <= j < self.ordered().len() ==> lex_lt(t@, #[trigger] self.ordered()[j]),
            r.0 == self@.contains(t@),
    {
        let ghost e = self.ordered();
        let mut lo: usize = 0;
        let mut hi: usize = self.tuples.len();
        while lo < hi
            invariant
                self.wf(),
                e == self.ordered(),
                e.len() == self.tuples.len(),
                lo <= hi <= e.len(),
                forall|j: int| 0 <= j < lo ==> lex_lt(#[trigger] e[j], t@),
                forall|j: int| hi <= j < e.len() ==> lex_lt(t@, #[trigger] e[j]),
            decreases hi - lo,
        {
            let mid = lo + (hi - lo) / 2;
            assert(e[mid as int] == self.tuples@[mid as int]@);
            match t.compare(&self.tuples[mid]) {
                TupleOrder::Less => {
                    assert forall|j: int| mid <= j < e.len() implies lex_lt(t@, #[trigger] e[j]) by {
                        if j > mid {
                            assert(lex_lt(e[mid as int], e[j]));
                            lemma_lex_transitive(t@, e[mid as int], e[j]);
                        }
                    }
                    hi = mid;
                },
                TupleOrder::Greater => {
                    assert forall|j: int| 0 <= j <= mid implies lex_lt(#[trigger] e[j], t@) by {
                        if j < mid {
                            assert(lex_lt(e[j], e[mid as int]));
                            lemma_lex_transitive(e[j], e[mid as int], t@);
                        }
                    }
                    lo = mid + 1;
                },
                TupleOrder::Equal => {
                    proof {
                        assert(e.to_set().contains(e[mid as int]));
                    }
                    return (true, mid);
                },
            }
        }
        proof {
            if e.to_set().contains(t@) {
                let k = choose|k: int| 0 <= k < e.len() && e[k] == t@;
                lemma_lex_irreflexive(t@);
                if k < lo {
                } else {
                }
            }
        }
        (false, lo)
    }

    /// Inserts a tuple of the set's arity; returns whether it was newly added.
    pub fn insert(&mut self, tuple: Tuple) -> (added: bool)
        requires
            old(self).wf(),
            tuple@.len() == old(self).ar(),
        ensures
            final(self).wf(),
            final(self).ar() == old(self).ar(),
            final(self)@ == old(self)@.insert(tuple@),
            added == !old(self)@.contains(tuple@),
    {
        let (found, pos) = self.find(&tuple);
        if found {
            proof {
                assert(self@.insert(tuple@) =~= self@);
            }
            return false;
        }
        let ghost old_e = self.ordered();
        let ghost tv = tuple@;
        self.tuples.insert(pos, tuple);
        proof {
            let e = self.ordered();
            assert(e =~= old_e.insert(pos as int, tv));
            assert forall|i: int, j: int| 0 <= i < j < e.len() implies lex_lt(
                #[trigger] e[i],
                #[trigger] e[j],
            ) by {
                if j < pos {
                    assert(lex_lt(old_e[i], old_e[j]));
                } else if j == pos {
                    assert(lex_lt(old_e[i], tv));
                } else if i < pos {
                    assert(lex_lt(old_e[i], old_e[j - 1]));
                } else if i == pos {
                    assert(lex_lt(tv, old_e[j - 1]));
                } else {
                    assert(lex_lt(old_e[i - 1], old_e[j - 1]));
                }
            }
            assert forall|i: int| 0 <= i < e.len() implies (#[trigger] e[i]).len() == self.arity by {
                if i < pos {
                    assert(e[i] == old_e[i]);
                } else if i > pos {
                    assert(e[i] == old_e[i - 1]);
                }
            }
            assert(self@ =~= old(self)@.insert(tv)) by {
                assert forall|x: Seq<nat>| self@.contains(x) implies old(self)@.insert(tv).contains(x) by {
                    let k = choose|k: int| 0 <= k < e.len() && e[k] == x;
                    if k < pos {
                        assert(old_e[k] == x);
                    } else if k > pos {
                        assert(old_e[k - 1] == x);
                    }
                }
                assert forall|x: Seq<nat>| old(self)@.insert(tv).contains(x) implies self@.contains(x) by {
                    if x == tv {
                        assert(e[pos as int] == tv);
                    } else {
                        let k = choose|k: int| 0 <= k < old_e.len() && old_e[k] == x;
                        if k < pos {
                            assert(e[k] == x);
                        } else {
                            assert(e[k + 1] == x);
                        }
                    }
                }
            }
        }
        true
    }

    /// The common arity of all member tuples.
    pub fn arity(&self) -> (n: usize)
        ensures
            n == self.ar(),
    {
        self.arity
    }

    /// Number of tuples.
    pub fn len(&self) -> (n: usize)
        requires
            self.wf(),
        ensures
            n == self@.len(),
    {
        proof {
            Self::lemma_wf(self);
        }
        self.tuples.len()
    }

    /// Whether the set has no tuples.
    pub fn is_empty(&self) -> (b: bool)
        requires
            self.wf(),
        ensures
            b == (self@ == Set::<Seq<nat>>::empty()),
    {
        proof {
            Self::lemma_wf(self);
            if self.tuples.len() > 0 {
                assert(self@.contains(self.ordered()[0]));
            } else {
                assert(self@ =~= Set::<Seq<nat>>::empty());
            }
        }
        self.tuples.len() == 0
    }

    /// Membership test.
    pub fn contains(&self, tuple: &Tuple) -> (b: bool)
        requires
            self.wf(),
        ensures
            b == self@.contains(tuple@),
    {
        self.find(tuple).0
    }

    /// Whether every tuple of `self` is in `other`.
    pub fn is_subset_of(&self, other: &TupleSet) -> (b: bool)
        requires
            self.wf(),
            other.wf(),
        ensures
            b == self@.subset_of(other@),
    {
        let ghost e = self.ordered();
        let mut i: usize = 0;
        while i < self.tuples.len()
            invariant
                e == self.ordered(),
                e.len() == self.tuples.len(),
                other.wf(),
                i <= e.len(),
                forall|j: int| 0 <= j < i ==> other@.contains(#[trigger] e[j]),
            decreases self.tuples.len() - i,
        {
            if !other.contains(&self.tuples[i]) {
                proof {
                    assert(e[i as int] == self.tuples@[i as int]@);
                    assert(self@.contains(e[i as int]));
                }
                return false;
            }
            i = i + 1;
        }
        proof {
            assert forall|x: Seq<nat>| self@.contains(x) implies other@.contains(x) by {
                let k = choose|k: int| 0 <= k < e.len() && e[k] == x;
            }
        }
        true
    }

    /// The tuples, in lexicographic atom order.
    pub fn iter(&self) -> (s: &[Tuple])
        ensures
            tuple_views(s@) == self.ordered(),
    {
        self.tuples.as_slice()
    }

    /// A tuple set with the same arity and tuples.
    pub fn duplicate(&self) -> (s: TupleSet)
        requires
            self.wf(),
        ensures
            s.wf(),
            s.ar() == self.ar(),
            s@ == self@,
            s.ordered() == self.ordered(),
    {
        let mut tuples: Vec<Tuple> = Vec::new();
        let mut i: usize = 0;
        while i < self.tuples.len()
            invariant
                i <= self.tuples.len(),
                tuples@.len() == i,
                forall|k: int| 0 <= k < i ==> (#[trigger] tuples@[k])@ == self.tuples@[k]@,
            decreases self.tuples.len() - i,
        {
            tuples.push(self.tuples[i].duplicate());
            i = i + 1;
        }
        assert(tuple_views(tuples@) =~= tuple_views(self.tuples@));
        TupleSet { arity: self.arity, tuples }
    }
}

/// Lower/upper bound pair for one relation: same arity, and `lower ⊆ upper`.
#[derive(Clone, PartialEq, Eq, Debug)]
pub struct RelBound {
    lower: TupleSet,
    upper: TupleSet,
}

impl RelBound {
    /// The tuples the relation must contain.
    pub closed spec fn lo(&self) -> TupleSet {
        self.lower
    }

    /// The tuples the relation may contain.
    pub closed spec fn hi(&self) -> TupleSet {
        self.upper
    }

    /// Well-formedness: both sets well formed, of one arity, lower within upper.
    pub open spec fn wf(&self) -> bool {
        &&& self.lo().wf()
        &&& self.hi().wf()
        &&& self.lo().ar() == self.hi().ar()
        &&& self.lo()@.subset_of(self.hi()@)
    }

    /// Creates a bound from well-formed sets of one arity with `lower ⊆ upper`.
    pub fn new(lower: TupleSet, upper: TupleSet) -> (b: RelBound)
        requires
            lower.wf(),
            upper.wf(),
            lower.ar() == upper.ar(),
            lower@.subset_of(upper@),
        ensures
            b.wf(),
            b.lo() == lower,
            b.hi() == upper,
    {
        RelBound { lower, upper }
    }

    /// An exact bound: the relation must equal `tuples`.
    pub fn exact(tuples: TupleSet) -> (b: RelBound)
        requires
            tuples.wf(),
        ensures
            b.wf(),
            b.lo()@ == tuples@,
            b.lo().ordered() == tuples.ordered(),
            b.lo().ar() == tuples.ar(),
            b.hi() == tuples,
    {
        RelBound { lower: tuples.duplicate(), upper: tuples }
    }

    /// Tuples the relation must contain.
    pub fn lower(&self) -> (s: &TupleSet)
        ensures
            *s == self.lo(),
    {
        &self.lower
    }

    /// Tuples the relation may contain.
    pub fn upper(&self) -> (s: &TupleSet)
        ensures
            *s == self.hi(),
    {
        &self.upper
    }
}

/// The fixed, ordered set of atoms a solving run ranges over; atom names are
/// distinct.
#[derive(Clone, PartialEq, Eq, Debug)]
pub struct Universe {
    names: Vec<String>,
}

/// The names of a sequence of strings, as character sequences.
pub open spec fn name_views(s: Seq<String>) -> Seq<Seq<char>> {
    s.map_values(|n: String| n@)
}

impl View for Universe {
    type V = Seq<Seq<char>>;

    closed spec fn view(&self) -> Seq<Seq<char>> {
        name_views(self.names@)
    }
}

impl Universe {
    /// Well-formedness: no two atoms share a name.
    pub open spec fn wf(&self) -> bool {
        self@.no_duplicates()
    }

    /// Creates a universe from distinct atom names in their canonical order.
    pub fn new(names: Vec<String>) -> (u: Universe)
        requires
            name_views(names@).no_duplicates(),
        ensures
            u.wf(),
            u@ == name_views(names@),
    {
        Universe { names }
    }

    /// The name of `atom`.
    pub fn name(&self, atom: AtomId) -> (n: &str)
        requires
            atom.index < self@.len(),
        ensures
            n@ == self@[atom.index as int],
    {
        self.names[atom.index].as_str()
    }

    /// Number of atoms.
    pub fn len(&self) -> (n: usize)
        ensures
            n == self@.len(),
    {
        self.names.len()
    }

    /// Whether the universe is empty.
    pub fn is_empty(&self) -> (b: bool)
        ensures
            b == (self@.len() == 0),
    {
        self.names.len() == 0
    }

    /// The atoms with their names, in canonical atom order.
    pub fn iter(&self) -> (v: Vec<(AtomId, &str)>)
        ensures
            v@.len() == self@.len(),
            forall|i: int|
                0 <= i < v@.len() ==> (#[trigger] v@[i]).0.index == i && v@[i].1@ == self@[i],
    {
        let mut v: Vec<(AtomId, &str)> = Vec::new();
        let mut i: usize = 0;
        while i < self.names.len()
            invariant
                i <= self.names.len(),
                v@.len() == i,
                forall|k: int|
                    0 <= k < i ==> (#[trigger] v@[k]).0.index == k && v@[k].1@ == self@[k],
            decreases self.names.len() - i,
        {
            v.push((AtomId::from_index(i), self.names[i].as_str()));
            i = i + 1;
        }
        v
    }
}

/// Bounds for every bound relation, over one [`Universe`], listed in
/// increasing relation order.
#[derive(Clone, PartialEq, Eq, Debug)]
pub struct Bounds {
    /// The atom universe.
    pub universe: Universe,
    bounds: Vec<(RelId, RelBound)>,
}

impl View for Bounds {
    type V = Map<nat, RelBound>;

    closed spec fn view(&self) -> Map<nat, RelBound> {
        Map::new(
            |k: nat| exists|i: int| 0 <= i < self.bounds@.len() && self.bounds@[i].0.index == k,
            |k: nat|
                self.bounds@[choose|i: int|
                    0 <= i < self.bounds@.len() && self.bounds@[i].0.index == k].1,
        )
    }
}

impl Bounds {
    /// The universe the bounds range over.
    pub closed spec fn univ(&self) -> Universe {
        self.universe
    }

    /// The bound relations with their bounds, in increasing relation order.
    pub closed spec fn entries(&self) -> Seq<(RelId, RelBound)> {
        self.bounds@
    }

    /// Well-formedness: relations strictly increasing, every bound well formed.
    pub closed spec fn wf(&self) -> bool {
        &&& forall|i: int, j: int|
            0 <= i < j < self.bounds@.len() ==> (#[trigger] self.bounds@[i]).0.index
                < (#[trigger] self.bounds@[j]).0.index
        &&& forall|i: int| 0 <= i < self.bounds@.len() ==> (#[trigger] self.bounds@[i]).1.wf()
    }

    /// What a well-formed table guarantees: its listing is strictly increasing
    /// and describes exactly the map view.
    pub broadcast proof fn lemma_wf(b: &Bounds)
        requires
            #[trigger] b.wf(),
        ensures
            forall|i: int, j: int|
                0 <= i < j < b.entries().len() ==> (#[trigger] b.entries()[i]).0.index
                    < (#[trigger] b.entries()[j]).0.index,
            forall|i: int|
                0 <= i < b.entries().len() ==> b@.contains_key(
                    (#[trigger] b.entries()[i]).0.index as nat,
                ) && b@[b.entries()[i].0.index as nat] == b.entries()[i].1,
            forall|k: nat|
                #[trigger] b@.contains_key(k) ==> exists|i: int|
                    0 <= i < b.entries().len() && b.entries()[i].0.index == k,
            forall|k: nat| #[trigger] b@.contains_key(k) ==> b@[k].wf(),
            b@.dom().finite(),
    {
        assert forall|i: int| 0 <= i < b.entries().len() implies b@.contains_key(
            (#[trigger] b.entries()[i]).0.index as nat,
        ) && b@[b.entries()[i].0.index as nat] == b.entries()[i].1 by {
            let k = b.entries()[i].0.index as nat;
            assert(b.bounds@[i].0.index == k);
            let c = choose|c: int| 0 <= c < b.bounds@.len() && b.bounds@[c].0.index == k;
            if c < i {
                assert(b.bounds@[c].0.index < b.bounds@[i].0.index);
            } else if c > i {
                assert(b.bounds@[i].0.index < b.bounds@[c].0.index);
            }
        }
        assert forall|k: nat| #[trigger] b@.contains_key(k) implies exists|i: int|
            0 <= i < b.entries().len() && b.entries()[i].0.index == k by {
            let c = choose|c: int| 0 <= c < b.bounds@.len() && b.bounds@[c].0.index == k;
            assert(b.entries()[c].0.index == k);
        }
        assert forall|k: nat| #[trigger] b@.contains_key(k) implies b@[k].wf() by {
            let c = choose|c: int| 0 <= c < b.bounds@.len() && b.bounds@[c].0.index == k;
            assert(b.bounds@[c].1.wf());
        }
        let ks = b.bounds@.map_values(|e: (RelId, RelBound)| e.0.index as nat);
        let keys = ks.to_set();
        assert(b@.dom() =~= keys) by {
            assert forall|k: nat| b@.dom().contains(k) implies keys.contains(k) by {
                let c = choose|c: int| 0 <= c < b.bounds@.len() && b.bounds@[c].0.index == k;
                assert(ks[c] == k);
            }
            assert forall|k: nat| keys.contains(k) implies b@.dom().contains(k) by {
                let c = choose|c: int| 0 <= c < ks.len() && #[trigger] ks[c] == k;
                assert(b.bounds@[c].0.index == k);
            }
        }
        vstd::seq_lib::seq_to_set_is_finite(ks);
    }

    /// Creates an empty bounds table over `universe`.
    pub fn new(universe: Universe) -> (b: Bounds)
        ensures
            b.wf(),
            b.univ() == universe,
            b@ == Map::<nat, RelBound>::empty(),
            b.entries() == Seq::<(RelId, RelBound)>::empty(),
    {
        let b = Bounds { universe, bounds: Vec::new() };
        assert(b@ =~= Map::<nat, RelBound>::empty());
        b
    }

    /// Locates `rel`: whether it is bound, and its (would-be) listing position.
    fn find(&self, rel: RelId) -> (r: (bool, usize))
        requires
            self.wf(),
        ensures
            r.1 <= self.entries().len(),
            forall|j: int| 0 <= j < r.1 ==> (#[trigger] self.entries()[j]).0.index < rel.index,
            r.0 ==> r.1 < self.entries().len() && self.entries()[r.1 as int].0.index == rel.index,
            !r.0 ==> forall|j: int|
                r.1 <= j < self.entries().len() ==> rel.index < (#[trigger] self.entries()[j]).0.index,
    {
        let mut lo: usize = 0;
        let mut hi: usize = self.bounds.len();
        while lo < hi
            invariant
                self.wf(),
                lo <= hi <= self.bounds@.len(),
                forall|j: int| 0 <= j < lo ==> (#[trigger] self.bounds@[j]).0.index < rel.index,
                forall|j: int| hi <= j < self.bounds@.len() ==> rel.index < (#[trigger] self.bounds@[j]).0.index,
            decreases hi - lo,
        {
            let mid = lo + (hi - lo) / 2;
            let k = self.bounds[mid].0.index;
            if rel.index < k {
                assert forall|j: int| mid <= j < self.bounds@.len() implies rel.index < (
                #[trigger] self.bounds@[j]).0.index by {
                    if j > mid {
                        assert(self.bounds@[mid as int].0.index < self.bounds@[j].0.index);
                    }
                }
                hi = mid;
            } else if rel.index > k {
                assert forall|j: int| 0 <= j <= mid implies (#[trigger] self.bounds@[j]).0.index
                    < rel.index by {
                    if j < mid {
                        assert(self.bounds@[j].0.index < self.bounds@[mid as int].0.index);
                    }
                }
                lo = mid + 1;
            } else {
                return (true, mid);
            }
        }
        (false, lo)
    }

    /// Binds a relation that is not yet bound.
    pub fn bind(&mut self, rel: RelId, bound: RelBound)
        requires
            old(self).wf(),
            !old(self)@.contains_key(rel.index as nat),
            bound.wf(),
        ensures
            final(self).wf(),
            final(self).univ() == old(self).univ(),
            final(self)@ == old(self)@.insert(rel.index as nat, bound),
    {
        proof {
            Self::lemma_wf(self);
        }
        let (found, pos) = self.find(rel);
        if found {
            proof {
                assert(self@.contains_key(self.entries()[pos as int].0.index as nat));
            }
            return;
        }
        self.insert_at(pos, rel, bound);
    }

    /// Replaces the bound of an already-bound relation.
    pub fn rebind(&mut self, rel: RelId, bound: RelBound)
        requires
            old(self).wf(),
            old(self)@.contains_key(rel.index as nat),
            bound.wf(),
        ensures
            final(self).wf(),
            final(self).univ() == old(self).univ(),
            final(self)@ == old(self)@.insert(rel.index as nat, bound),
    {
        proof {
            Self::lemma_wf(self);
        }
        let (found, pos) = self.find(rel);
        if !found {
            proof {
                let i = choose|i: int|
                    0 <= i < self.entries().len() && self.entries()[i].0.index == rel.index;
                if i < pos {
                } else {
                }
            }
            return;
        }
        let ghost old_b = self.bounds@;
        self.bounds.set(pos, (rel, bound));
        proof {
            Self::lemma_wf(old(self));
            assert(self@ =~= old(self)@.insert(rel.index as nat, bound)) by {
                assert forall|k: nat| #[trigger] self@.contains_key(k) == old(self)@.insert(
                    rel.index as nat,
                    bound,
                ).contains_key(k) by {
                    if self@.contains_key(k) {
                        let c = choose|c: int| 0 <= c < self.bounds@.len() && self.bounds@[c].0.index == k;
                        if c != pos {
                            assert(old_b[c].0.index == k);
                        }
                    }
                    if old(self)@.contains_key(k) && k != rel.index {
                        let c = choose|c: int| 0 <= c < old_b.len() && old_b[c].0.index == k;
                        assert(self.bounds@[c].0.index == k);
                    }
                    if k == rel.index {
                        assert(self.bounds@[pos as int].0.index == k);
                    }
                }
                Self::lemma_wf(self);
                assert forall|k: nat| #[trigger] self@.contains_key(k) implies self@[k] == old(
                    self,
                )@.insert(rel.index as nat, bound)[k] by {
                    let c = choose|c: int| 0 <= c < self.bounds@.len() && self.bounds@[c].0.index == k;
                    assert(self@[self.entries()[c].0.index as nat] == self.entries()[c].1);
                    if c != pos {
                        assert(old_b[c] == self.bounds@[c]);
                        assert(old(self)@[old(self).entries()[c].0.index as nat] == old(self).entries()[c].1);
                    }
                }
            }
        }
    }

    /// Inserts a new entry at listing position `pos`.
    fn insert_at(&mut self, pos: usize, rel: RelId, bound: RelBound)
        requires
            old(self).wf(),
            bound.wf(),
            pos <= old(self).entries().len(),
            forall|j: int| 0 <= j < pos ==> (#[trigger] old(self).entries()[j]).0.index < rel.index,
            forall|j: int|
                pos <= j < old(self).entries().len() ==> rel.index < (
                #[trigger] old(self).entries()[j]).0.index,
        ensures
            final(self).wf(),
            final(self).univ() == old(self).univ(),
            final(self)@ == old(self)@.insert(rel.index as nat, bound),
    {
        let ghost old_b = self.bounds@;
        self.bounds.insert(pos, (rel, bound));
        proof {
            let nb = self.bounds@;
            assert(nb =~= old_b.insert(pos as int, (rel, bound)));
            assert forall|i: int, j: int| 0 <= i < j < nb.len() implies (#[trigger] nb[i]).0.index
                < (#[trigger] nb[j]).0.index by {
                if j < pos {
                    assert(old_b[i].0.index < old_b[j].0.index);
                } else if j == pos {
                    assert(old_b[i].0.index < rel.index);
                } else if i < pos {
                    assert(old_b[i].0.index < old_b[j - 1].0.index);
                } else if i == pos {
                    assert(rel.index < old_b[j - 1].0.index);
                } else {
                    assert(old_b[i - 1].0.index < old_b[j - 1].0.index);
                }
            }
            assert forall|i: int| 0 <= i < nb.len() implies (#[trigger] nb[i]).1.wf() by {
                if i < pos {
                    assert(nb[i] == old_b[i]);
                } else if i > pos {
                    assert(nb[i] == old_b[i - 1]);
                }
            }
            Self::lemma_wf(self);
            Self::lemma_wf(old(self));
            assert(self@ =~= old(self)@.insert(rel.index as nat, bound)) by {
                assert forall|k: nat| #[trigger] self@.contains_key(k) == old(self)@.insert(
                    rel.index as nat,
                    bound,
                ).contains_key(k) by {
                    if self@.contains_key(k) {
                        let c = choose|c: int| 0 <= c < nb.len() && nb[c].0.index == k;
                        if c < pos {
                            assert(old_b[c].0.index == k);
                        } else if c > pos {
                            assert(old_b[c - 1].0.index == k);
                        }
                    }
                    if old(self)@.contains_key(k) {
                        let c = choose|c: int| 0 <= c < old_b.len() && old_b[c].0.index == k;
                        if c < pos {
                            assert(nb[c].0.index == k);
                        } else {
                            assert(nb[c + 1].0.index == k);
                        }
                    }
                    if k == rel.index {
                        assert(nb[pos as int].0.index == k);
                    }
                }
                assert forall|k: nat| #[trigger] self@.contains_key(k) implies self@[k] == old(
                    self,
                )@.insert(rel.index as nat, bound)[k] by {
                    let c = choose|c: int| 0 <= c < nb.len() && nb[c].0.index == k;
                    assert(self@[self.entries()[c].0.index as nat] == self.entries()[c].1);
                    if c < pos {
                        assert(old(self)@[old(self).entries()[c].0.index as nat] == old(self).entries()[c].1);
                    } else if c > pos {
                        assert(old(self)@[old(self).entries()[c - 1].0.index as nat] == old(self).entries()[c - 1].1);
                    }
                }
            }
        }
    }

    /// The bound for `rel`, if bound.
    pub fn get(&self, rel: RelId) -> (r: Option<&RelBound>)
        requires
            self.wf(),
        ensures
            r.is_some() == self@.contains_key(rel.index as nat),
            r.is_some() ==> *r.unwrap() == self@[rel.index as nat],
    {
        proof {
            Self::lemma_wf(self);
        }
        let (found, pos) = self.find(rel);
        if found {
            Some(&self.bounds[pos].1)
        } else {
            proof {
                if self@.contains_key(rel.index as nat) {
                    let i = choose|i: int|
                        0 <= i < self.entries().len() && self.entries()[i].0.index == rel.index;
                    if i < pos {
                    } else {
                    }
                }
            }
            None
        }
    }

    /// The universe the bounds range over.
    pub fn universe(&self) -> (u: &Universe)
        ensures
            *u == self.univ(),
    {
        &self.universe
    }

    /// The bound relations with their bounds, in increasing relation order.
    pub fn iter(&self) -> (s: &[(RelId, RelBound)])
        ensures
            s@ == self.entries(),
    {
        self.bounds.as_slice()
    }
}

} // verus!
