//! Transitive closure of a binary boolean matrix by iterated squaring.

use vstd::prelude::*;

use vstd::arithmetic::power2::{lemma_pow2_unfold, pow2};
use vstd::set_lib::lemma_len_subset;

use crate::circuit::{sat, valid, Assignment, Bool, Circuit};
use crate::encode::leaves::const_matrix;
use crate::ir::{RelConst, RelUnOp};
use crate::encode::join::join;
use crate::encode::{grown, lemma_grown_refl, lemma_grown_trans, lemma_sat_back, log2_ceil, support, support_size, transpose, union};
use crate::matrix::Matrix;
use crate::paths::{lemma_pairs_over_len, lemma_paths_closure, lemma_paths_square, lemma_paths_zero, over, pairs_over, paths_within};
use crate::relspec::{closure_spec, join_spec, rel_unary_spec};

verus! {

broadcast use crate::matrix::Matrix::lemma_wf;

/// How many gates one squaring round may mint when the operand has at most `q`
/// candidate tuples: a join and a union.
pub open spec fn round_budget(q: nat) -> nat {
    2 * (q * q) + q
}

/// How many gates a closure over `m` support atoms may mint: at most `m` rounds
/// over at most `m²` candidate pairs.
pub open spec fn closure_budget(m: nat) -> nat {
    m * round_budget(m * m)
}

/// `2^k` exceeds `k`.
proof fn lemma_pow2_above(k: nat)
    ensures
        k < pow2(k),
    decreases k,
{
    vstd::arithmetic::power2::lemma2_to64();
    if k > 0 {
        lemma_pow2_above((k - 1) as nat);
        lemma_pow2_unfold(k);
    }
}

/// Transitive closure `^r`: `s₀ = r`, `s_{k+1} = s_k ∪ s_k.s_k`, for
/// `⌈log₂ m⌉` rounds where `m` is the number of atoms in `r`'s candidate
/// tuples. A path through those atoms needs at most `m` steps, and `k`
/// rounds cover every path of up to `2^k` steps.
pub fn closure(c: &mut Circuit, r: &Matrix) -> (out: Matrix)
    requires
        old(c).wf(),
        r.wf(),
        r.ar() == 2,
        r.valid_below(old(c).nv()),
        old(c).nv() + closure_budget(support(r.dom()).len()) <= u32::MAX,
    ensures
        grown(old(c), final(c)),
        final(c).nv() <= old(c).nv() + closure_budget(support(r.dom()).len()),
        out.wf(),
        out.ar() == 2,
        out.valid_below(final(c).nv()),
        support(r.dom()).finite(),
        out.dom().subset_of(pairs_over(support(r.dom()))),
        forall|s: Assignment| #[trigger] sat(final(c).cls(), s) ==> out.denote(s) == closure_spec(r.denote(s)),
{
    let ghost c0 = *c;
    let ghost n0 = c0.nv();
    let ghost sup = support(r.dom());
    let m = support_size(r);
    let rounds = log2_ceil(m);
    let ghost q = (m * m) as nat;
    let ghost per = round_budget(q);
    proof {
        lemma_grown_refl(&c0);
        lemma_pairs_over_len(sup);
        assert(r.dom().subset_of(pairs_over(sup))) by {
            assert forall|t: Seq<nat>| r.dom().contains(t) implies pairs_over(sup).contains(t) by {
                assert(sup.contains(t[0]));
                assert(sup.contains(t[1]));
            }
        }
        if rounds > 0 {
            lemma_pow2_above((rounds - 1) as nat);
        }
        assert(rounds <= m);
        assert(rounds * per <= m * per) by (nonlinear_arith)
            requires
                rounds <= m,
        ;
        assert forall|s: Assignment| #[trigger] sat(c.cls(), s) implies r.denote(s) == paths_within(r.denote(s), 0) by {
            lemma_paths_zero(r.denote(s));
        }
    }
    let mut s = r.duplicate();
    let mut k: u32 = 0;
    proof {
        assert forall|v: Assignment| #[trigger] sat(c.cls(), v) implies s.denote(v) == paths_within(r.denote(v), 0) by {
            Matrix::lemma_denote_same(r, &s, v);
        }
    }
    while k < rounds
        invariant
            k <= rounds,
            rounds <= m,
            m == sup.len(),
            sup == support(r.dom()),
            sup.finite(),
            pairs_over(sup).finite(),
            pairs_over(sup).len() <= q,
            q == m * m,
            per == round_budget(q),
            n0 == c0.nv(),
            n0 + rounds * per <= u32::MAX,
            r.wf(),
            r.ar() == 2,
            grown(&c0, c),
            c.nv() <= n0 + k * per,
            s.wf(),
            s.ar() == 2,
            s.valid_below(c.nv()),
            s.dom().subset_of(pairs_over(sup)),
            forall|v: Assignment| #[trigger] sat(c.cls(), v) ==> s.denote(v) == paths_within(r.denote(v), k as nat),
        decreases rounds - k,
    {
        let ghost c1 = *c;
        let ghost d = s.dom().len();
        proof {
            lemma_len_subset(s.dom(), pairs_over(sup));
            assert(d * d <= q * q) by (nonlinear_arith)
                requires
                    d <= q,
            ;
            assert(k * per + per <= rounds * per) by (nonlinear_arith)
                requires
                    k < rounds,
            ;
            assert((k + 1) * per == k * per + per) by (nonlinear_arith);
            assert(2 * (d * d) + d <= per);
        }
        let sq = join(c, &s, &s);
        let ghost c2 = *c;
        proof {
            assert(sq.dom().subset_of(pairs_over(sup))) by {
                assert forall|t: Seq<nat>| sq.dom().contains(t) implies pairs_over(sup).contains(t) by {
                    let (x, y) = choose|x: Seq<nat>, y: Seq<nat>|
                        #![trigger s.dom().contains(x), s.dom().contains(y)]
                        s.dom().contains(x) && s.dom().contains(y) && x.len() >= 1 && y.len() >= 1 && x.last()
                            == y[0] && t == x.drop_last() + y.drop_first();
                    assert(pairs_over(sup).contains(x));
                    assert(pairs_over(sup).contains(y));
                }
            }
        }
        let next = union(c, &s, &sq);
        proof {
            lemma_grown_trans(&c1, &c2, c);
            lemma_grown_trans(&c0, &c1, c);
            assert forall|v: Assignment| #[trigger] sat(c.cls(), v) implies next.denote(v) == paths_within(r.denote(v), (k + 1) as nat) by {
                lemma_sat_back(&c2, c, v);
                lemma_sat_back(&c1, c, v);
                lemma_paths_square(r.denote(v), k as nat);
            }
        }
        s = next;
        k = k + 1;
    }
    proof {
        assert forall|v: Assignment| #[trigger] sat(c.cls(), v) implies s.denote(v) == closure_spec(r.denote(v)) by {
            assert(over(r.denote(v), sup)) by {
                assert forall|t: Seq<nat>| #[trigger] r.denote(v).contains(t) implies t.len() == 2 && sup.contains(t[0]) && sup.contains(t[1]) by {
                    assert(r.dom().contains(t));
                    assert(pairs_over(sup).contains(t));
                }
            }
            lemma_paths_closure(r.denote(v), sup, k as nat);
        }
    }
    s
}

/// A unary relational operation over a binary matrix, in a universe of
/// `universe_len` atoms: the transpose, the closure, or the closure joined
/// with the identity.
pub fn rel_unary(c: &mut Circuit, op: RelUnOp, a: &Matrix, universe_len: usize) -> (out: Matrix)
    requires
        old(c).wf(),
        a.wf(),
        a.ar() == 2,
        a.valid_below(old(c).nv()),
        op != RelUnOp::Transpose ==> old(c).nv() + closure_budget(support(a.dom()).len()) + support(a.dom()).len()
            * support(a.dom()).len() <= u32::MAX,
    ensures
        grown(old(c), final(c)),
        out.wf(),
        out.ar() == 2,
        out.valid_below(final(c).nv()),
        forall|s: Assignment| #[trigger] sat(final(c).cls(), s) ==> out.denote(s) == rel_unary_spec(op, a.denote(s), universe_len as nat),
{
    let ghost c0 = *c;
    proof {
        lemma_grown_refl(&c0);
    }
    match op {
        RelUnOp::Transpose => {
            let out = transpose(a);
            proof {
                assert(out.valid_below(c.nv()));
            }
            out
        },
        RelUnOp::Closure => closure(c, a),
        RelUnOp::ReflexiveClosure => {
            let cl = closure(c, a);
            let ghost c1 = *c;
            let ghost sup = support(a.dom());
            let iden = const_matrix(RelConst::Iden, universe_len);
            proof {
                lemma_pairs_over_len(sup);
                lemma_len_subset(cl.dom(), pairs_over(sup));
                assert(sup.len() * sup.len() >= 0) by (nonlinear_arith);
                assert(iden.valid_below(c.nv())) by {
                    assert forall|t: Seq<nat>| #[trigger] iden.dom().contains(t) implies valid(iden.cells()[t], c.nv()) by {
                        assert(iden.cells()[t] == Bool::Const(true));
                    }
                }
            }
            let out = union(c, &cl, &iden);
            proof {
                lemma_grown_trans(&c0, &c1, c);
                assert forall|s: Assignment| #[trigger] sat(c.cls(), s) implies out.denote(s) == rel_unary_spec(op, a.denote(s), universe_len as nat) by {
                    lemma_sat_back(&c1, c, s);
                }
            }
            out
        },
    }
}

} // verus!
