//! The boolean matrix: the value a relation expression encodes to.
//!
//! An `arity`-dimensional relation over the universe where each candidate
//! tuple carries a [`Bool`] saying whether it is present. The representation
//! is sparse: only tuples that can be true are stored, and an absent tuple is
//! constant false. Cells are kept in lexicographic tuple order.

use vstd::prelude::*;

use crate::bounds::Tuple;
use crate::circuit::{val, valid, Assignment, Bool};
use crate::tuple_map::{entry_keys, entry_vals, TupleMap};

verus! {

broadcast use crate::tuple_map::TupleMap::lemma_wf;

/// A sparse boolean matrix.
pub struct Matrix {
    arity: usize,
    cells: TupleMap<Bool>,
}

impl Matrix {
    /// The common arity of every tuple.
    pub closed spec fn ar(&self) -> nat {
        self.arity as nat
    }

    /// The stored cells, keyed by tuple.
    pub closed spec fn cells(&self) -> Map<Seq<nat>, Bool> {
        self.cells@
    }

    /// The stored tuples, in lexicographic order.
    pub closed spec fn order(&self) -> Seq<Seq<nat>> {
        self.cells.keys()
    }

    /// The stored cells, in the order of [`Matrix::order`].
    pub closed spec fn values(&self) -> Seq<Bool> {
        self.cells.vals()
    }

    /// Well-formedness: positive arity, every stored tuple of that arity.
    pub closed spec fn wf(&self) -> bool {
        &&& self.arity >= 1
        &&& self.cells.wf()
        &&& forall|t: Seq<nat>| #[trigger] self.cells@.dom().contains(t) ==> t.len() == self.arity
    }

    /// The candidate tuples.
    pub open spec fn dom(&self) -> Set<Seq<nat>> {
        self.cells().dom()
    }

    /// The formula of `t`: its stored cell, or false when absent.
    pub open spec fn cell(&self, t: Seq<nat>) -> Bool {
        if self.dom().contains(t) {
            self.cells()[t]
        } else {
            Bool::Const(false)
        }
    }

    /// The relation the matrix denotes under an assignment.
    pub open spec fn denote(&self, s: Assignment) -> Set<Seq<nat>> {
        self.dom().filter(|t: Seq<nat>| val(self.cells()[t], s))
    }

    /// Every stored cell is a constant.
    pub open spec fn all_const(&self) -> bool {
        forall|t: Seq<nat>| self.dom().contains(t) ==> (#[trigger] self.cells()[t]) is Const
    }

    /// Every stored cell names variables below `n` only.
    pub open spec fn valid_below(&self, n: nat) -> bool {
        forall|t: Seq<nat>| #[trigger] self.dom().contains(t) ==> valid(self.cells()[t], n)
    }

    /// What a well-formed matrix guarantees.
    pub broadcast proof fn lemma_wf(m: &Matrix)
        requires
            #[trigger] m.wf(),
        ensures
            m.ar() >= 1,
            m.dom().finite(),
            m.dom() == m.order().to_set(),
            m.order().len() == m.values().len(),
            m.order().len() == m.dom().len(),
            m.order().no_duplicates(),
            crate::lex::lex_sorted(m.order()),
            forall|t: Seq<nat>| #[trigger] m.dom().contains(t) ==> t.len() == m.ar(),
            forall|i: int| 0 <= i < m.order().len() ==> #[trigger] m.cells()[m.order()[i]] == m.values()[i],
    {
    }

    /// How setting a cell (with `cells == old.cells.insert(t, v)`, or
    /// unchanged for a false `v`) moves what the matrix denotes.
    pub proof fn lemma_denote_insert(m0: &Matrix, m1: &Matrix, t: Seq<nat>, v: Bool, s: Assignment)
        requires
            m1.cells() == m0.cells().insert(t, v) || (v == Bool::Const(false) && m1.cells() == m0.cells()
                && !m0.dom().contains(t)),
        ensures
            m1.denote(s) == if val(v, s) {
                m0.denote(s).insert(t)
            } else {
                m0.denote(s).remove(t)
            },
    {
        assert(m1.denote(s) =~= if val(v, s) {
            m0.denote(s).insert(t)
        } else {
            m0.denote(s).remove(t)
        });
    }

    /// Matrices with the same cells denote the same relation.
    pub proof fn lemma_denote_same(m0: &Matrix, m1: &Matrix, s: Assignment)
        requires
            m1.cells() == m0.cells(),
        ensures
            m1.denote(s) == m0.denote(s),
    {
        assert(m1.denote(s) =~= m0.denote(s));
    }

    /// A cell holds under `s` exactly when its tuple is denoted.
    pub proof fn lemma_denote_cell(m: &Matrix, t: Seq<nat>, s: Assignment)
        ensures
            m.denote(s).contains(t) == val(m.cell(t), s),
    {
    }

    /// An empty matrix of the given arity: every tuple false.
    pub fn empty(arity: usize) -> (m: Matrix)
        requires
            arity >= 1,
        ensures
            m.wf(),
            m.ar() == arity,
            m.dom() == Set::<Seq<nat>>::empty(),
            forall|s: Assignment| #[trigger] m.denote(s) == Set::<Seq<nat>>::empty(),
    {
        let m = Matrix { arity, cells: TupleMap::new() };
        assert forall|s: Assignment| #[trigger] m.denote(s) == Set::<Seq<nat>>::empty() by {
            assert(m.denote(s) =~= Set::<Seq<nat>>::empty());
        }
        m
    }

    /// A copy of the matrix.
    pub fn duplicate(&self) -> (m: Matrix)
        requires
            self.wf(),
        ensures
            m.wf(),
            m.ar() == self.ar(),
            m.cells() == self.cells(),
            m.order() == self.order(),
            m.values() == self.values(),
    {
        Matrix { arity: self.arity, cells: self.cells.duplicate() }
    }

    /// The common arity of every tuple.
    pub fn arity(&self) -> (n: usize)
        ensures
            n == self.ar(),
    {
        self.arity
    }

    /// Sets `tuple`'s cell, unless it is constant false (kept sparse).
    pub fn set(&mut self, tuple: Tuple, value: Bool)
        requires
            old(self).wf(),
            tuple@.len() == old(self).ar(),
        ensures
            final(self).wf(),
            final(self).ar() == old(self).ar(),
            final(self).cells() == if value == Bool::Const(false) {
                old(self).cells()
            } else {
                old(self).cells().insert(tuple@, value)
            },
    {
        if let Bool::Const(false) = value {
            return;
        }
        self.cells.insert(tuple, value);
    }

    /// The formula for `tuple`: false when absent.
    pub fn get(&self, tuple: &Tuple) -> (b: Bool)
        requires
            self.wf(),
        ensures
            b == self.cell(tuple@),
    {
        match self.cells.get(tuple) {
            Some(b) => *b,
            None => Bool::Const(false),
        }
    }

    /// Whether `tuple` has a stored (possibly true) cell.
    pub fn contains_key(&self, tuple: &Tuple) -> (b: bool)
        requires
            self.wf(),
        ensures
            b == self.dom().contains(tuple@),
    {
        self.cells.find(tuple).0
    }

    /// The stored `(tuple, cell)` pairs in lexicographic tuple order.
    pub fn iter(&self) -> (e: &[(Tuple, Bool)])
        ensures
            entry_keys(e@) == self.order(),
            entry_vals(e@) == self.values(),
    {
        self.cells.entries()
    }

    /// The stored (candidate) tuples, in lexicographic order.
    pub fn tuples(&self) -> (v: Vec<Tuple>)
        ensures
            v@.map_values(|t: Tuple| t@) == self.order(),
    {
        let e = self.cells.entries();
        let mut v: Vec<Tuple> = Vec::new();
        let mut i: usize = 0;
        while i < e.len()
            invariant
                i <= e.len(),
                entry_keys(e@) == self.order(),
                v@.len() == i,
                forall|k: int| 0 <= k < i ==> (#[trigger] v@[k])@ == entry_keys(e@)[k],
            decreases e.len() - i,
        {
            v.push(e[i].0.duplicate());
            assert(entry_keys(e@)[i as int] == e@[i as int].0@);
            i = i + 1;
        }
        assert(v@.map_values(|t: Tuple| t@) =~= entry_keys(e@));
        v
    }

    /// Number of stored candidate cells.
    pub fn len(&self) -> (n: usize)
        requires
            self.wf(),
        ensures
            n == self.order().len(),
            n == self.dom().len(),
    {
        self.cells.len()
    }

    /// Whether no candidate cells are stored (the matrix is constantly empty).
    pub fn is_empty(&self) -> (b: bool)
        requires
            self.wf(),
        ensures
            b == (self.dom() == Set::<Seq<nat>>::empty()),
    {
        proof {
            if self.dom().len() == 0 {
                self.dom().lemma_len0_is_empty();
            } else {
                assert(self.dom().contains(self.dom().choose()));
            }
        }
        self.cells.len() == 0
    }

    /// The cell slot of `tuple`, inserting a false cell when absent, for
    /// update in place.
    pub fn entry_or_false(&mut self, tuple: Tuple) -> (slot: &mut Bool)
        requires
            old(self).wf(),
            tuple@.len() == old(self).ar(),
        ensures
            *slot == old(self).cell(tuple@),
            final(self).wf(),
            final(self).ar() == old(self).ar(),
            final(self).cells() == old(self).cells().insert(tuple@, *final(slot)),
    {
        let (found, _) = self.cells.find(&tuple);
        let ghost tv = tuple@;
        let ghost m0 = self.cells@;
        if !found {
            self.cells.insert(tuple.duplicate(), Bool::Const(false));
        }
        let ghost mid = self.cells@;
        let (found2, pos) = self.cells.find(&tuple);
        proof {
            assert(mid.dom().contains(tv));
            assert(old(self).cell(tv) == mid[tv]);
            assert forall|y: Bool| #[trigger] mid.insert(tv, y) == m0.insert(tv, y) by {
                assert(mid.insert(tv, y) =~= m0.insert(tv, y));
            }
        }
        let slot = self.cells.value_mut(pos);
        slot
    }
}

} // verus!
