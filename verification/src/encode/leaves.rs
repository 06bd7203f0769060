//! The matrices of the leaves of a relation expression: a bound relation,
//! a bound variable, and the relational constants.

use vstd::prelude::*;

use crate::bounds::{AtomId, RelBound, Tuple};
use crate::circuit::{valid, Assignment, Bool, Lit, Var};
use crate::ir::RelConst;
use crate::matrix::Matrix;
use crate::relspec::{const_arity, const_spec};
use crate::tuple_map::TupleMap;

verus! {

broadcast use crate::matrix::Matrix::lemma_wf;

/// A relational constant over a universe of `universe_len` atoms: every
/// stored cell true, denoting [`const_spec`] under every assignment.
pub fn const_matrix(c: RelConst, universe_len: usize) -> (m: Matrix)
    ensures
        m.wf(),
        m.ar() == const_arity(c),
        forall|t: Seq<nat>| #[trigger] m.dom().contains(t) ==> m.cells()[t] == Bool::Const(true),
        m.dom() == const_spec(c, universe_len as nat),
        forall|s: Assignment| #[trigger] m.denote(s) == const_spec(c, universe_len as nat),
{
    match c {
        RelConst::Empty => {
            let m = Matrix::empty(1);
            proof {
                assert(m.dom() =~= const_spec(c, universe_len as nat));
                assert forall|s: Assignment| #[trigger] m.denote(s) == const_spec(c, universe_len as nat) by {
                    assert(m.denote(s) =~= const_spec(c, universe_len as nat));
                }
            }
            m
        },
        RelConst::Univ | RelConst::Iden => {
            let arity: usize = if c == RelConst::Univ {
                1
            } else {
                2
            };
            let mut m = Matrix::empty(arity);
            let mut i: usize = 0;
            while i < universe_len
                invariant
                    i <= universe_len,
                    arity == const_arity(c),
                    c == RelConst::Univ || c == RelConst::Iden,
                    m.wf(),
                    m.ar() == arity,
                    forall|t: Seq<nat>| #[trigger] m.dom().contains(t) ==> m.cells()[t] == Bool::Const(true),
                    forall|t: Seq<nat>| #[trigger] m.dom().contains(t) <==> (t.len() == arity && t[0] < i && (arity == 2 ==> t[1] == t[0])),
                decreases universe_len - i,
            {
                let a = AtomId::from_index(i);
                let mut atoms: Vec<AtomId> = Vec::new();
                atoms.push(a);
                if arity == 2 {
                    atoms.push(a);
                }
                let t = Tuple::new(atoms);
                let ghost m0 = m.cells();
                m.set(t, Bool::Const(true));
                proof {
                    if arity == 2 {
                        assert(t@ =~= seq![i as nat, i as nat]);
                    } else {
                        assert(t@ =~= seq![i as nat]);
                    }
                    assert forall|tt: Seq<nat>| #[trigger] m.dom().contains(tt) <==> (tt.len() == arity && tt[0] < i + 1 && (arity == 2 ==> tt[1]
                        == tt[0])) by {
                        if tt.len() == arity && tt[0] == i && (arity == 2 ==> tt[1] == tt[0]) {
                            if arity == 2 {
                                assert(tt =~= seq![i as nat, i as nat]);
                            } else {
                                assert(tt =~= seq![i as nat]);
                            }
                        }
                    }
                }
                i = i + 1;
            }
            proof {
                assert(m.dom() =~= const_spec(c, universe_len as nat));
                assert forall|s: Assignment| #[trigger] m.denote(s) == const_spec(c, universe_len as nat) by {
                    assert(m.denote(s) =~= const_spec(c, universe_len as nat));
                }
            }
            m
        },
    }
}

/// A bound variable's matrix: the one tuple it is bound to, or nothing when
/// unbound.
pub fn var_matrix(arity: usize, binding: Option<&Tuple>) -> (m: Matrix)
    requires
        arity >= 1,
        binding matches Some(t) ==> t@.len() == arity,
    ensures
        m.wf(),
        m.ar() == arity,
        forall|n: nat| m.valid_below(n),
        forall|s: Assignment| #[trigger] m.denote(s) == match binding {
            Some(t) => set![t@],
            None => Set::<Seq<nat>>::empty(),
        },
{
    let mut m = Matrix::empty(arity);
    match binding {
        Some(t) => {
            m.set(t.duplicate(), Bool::Const(true));
            proof {
                assert forall|s: Assignment| #[trigger] m.denote(s) == set![t@] by {
                    assert(m.denote(s) =~= set![t@]);
                }
            }
        },
        None => {},
    }
    m
}

/// A bound relation's matrix: each tuple of the upper bound stored, true
/// where the lower bound holds it, else its primary variable.
pub fn relation_matrix(bound: &RelBound, prim: &TupleMap<Var>) -> (m: Matrix)
    requires
        bound.wf(),
        prim.wf(),
        forall|t: Seq<nat>| #[trigger] bound.hi()@.contains(t) && !bound.lo()@.contains(t) ==> prim@.contains_key(t),
    ensures
        m.wf(),
        m.ar() == bound.hi().ar(),
        m.dom() == bound.hi()@,
        forall|t: Seq<nat>| #[trigger] m.dom().contains(t) ==> m.cells()[t] == if bound.lo()@.contains(t) {
            Bool::Const(true)
        } else {
            Bool::Lit(Lit { var: prim@[t], negated: false })
        },
{
    let upper = bound.upper();
    let lower = bound.lower();
    let tuples = upper.iter();
    proof {
        crate::bounds::TupleSet::lemma_wf(&bound.hi());
    }
    let mut m = Matrix::empty(upper.arity());
    let mut i: usize = 0;
    while i < tuples.len()
        invariant
            i <= tuples@.len(),
            *upper == bound.hi(),
            *lower == bound.lo(),
            bound.wf(),
            prim.wf(),
            forall|t: Seq<nat>| #[trigger] bound.hi()@.contains(t) && !bound.lo()@.contains(t) ==> prim@.contains_key(t),
            crate::bounds::tuple_views(tuples@) == bound.hi().ordered(),
            bound.hi().ordered().to_set() == bound.hi()@,
            forall|t: Seq<nat>| #[trigger] bound.hi()@.contains(t) ==> t.len() == bound.hi().ar(),
            m.wf(),
            m.ar() == bound.hi().ar(),
            forall|t: Seq<nat>| #[trigger] m.dom().contains(t) <==> exists|k: int| 0 <= k < i && bound.hi().ordered()[k] == t,
            forall|t: Seq<nat>| #[trigger] m.dom().contains(t) ==> m.cells()[t] == if bound.lo()@.contains(t) {
                Bool::Const(true)
            } else {
                Bool::Lit(Lit { var: prim@[t], negated: false })
            },
        decreases tuples@.len() - i,
    {
        let t = &tuples[i];
        proof {
            assert(bound.hi().ordered()[i as int] == t@);
            assert(bound.hi().ordered().contains(t@));
            assert(bound.hi()@.contains(t@));
        }
        let cell = if lower.contains(t) {
            Bool::Const(true)
        } else {
            match prim.get(t) {
                Some(v) => Bool::var(*v),
                None => {
                    proof {
                        assert(false);
                    }
                    Bool::Const(false)
                },
            }
        };
        m.set(t.duplicate(), cell);
        proof {
            assert forall|tt: Seq<nat>| #[trigger] m.dom().contains(tt) <==> exists|k: int| 0 <= k < i + 1 && bound.hi().ordered()[k] == tt by {
                if tt == t@ {
                    assert(bound.hi().ordered()[i as int] == tt);
                }
                if exists|k: int| 0 <= k < i + 1 && bound.hi().ordered()[k] == tt {
                    let k = choose|k: int| 0 <= k < i + 1 && bound.hi().ordered()[k] == tt;
                    if k < i {
                        assert(exists|k2: int| 0 <= k2 < i && bound.hi().ordered()[k2] == tt);
                    }
                }
            }
        }
        i = i + 1;
    }
    proof {
        assert(m.dom() =~= bound.hi()@) by {
            assert forall|t: Seq<nat>| bound.hi()@.contains(t) implies m.dom().contains(t) by {
                let k = choose|k: int| 0 <= k < bound.hi().ordered().len() && bound.hi().ordered()[k] == t;
            }
        }
    }
    m
}

} // verus!
