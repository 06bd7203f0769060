//! Relational override of two boolean matrices: `a ++ b` is `b` together
//! with the tuples of `a` whose first atom is not a first atom of `b`.

use vstd::prelude::*;

use crate::bounds::{AtomId, Tuple};
use crate::circuit::{all_valid, any_true, sat, val, valid, Assignment, Bool, Circuit};
use crate::encode::{grown, lemma_cell_at, lemma_grown_refl, lemma_grown_trans, lemma_sat_back};
use crate::matrix::Matrix;
use crate::relspec::{domain_spec, lemma_take_to_set_ends, lemma_take_to_set_step, override_spec};
use crate::tuple_map::{entry_keys, entry_vals, TupleMap};

verus! {

broadcast use crate::matrix::Matrix::lemma_wf, crate::tuple_map::TupleMap::lemma_wf;

/// The first atoms that some gathered cell makes present under `s`.
pub open spec fn dom_present(g: Map<Seq<nat>, Vec<Bool>>, s: Assignment) -> Set<nat> {
    Set::new(|v: nat| g.dom().contains(seq![v]) && any_true(g[seq![v]]@, s))
}

/// Adding the cell `bv` to the list of first atom `v` adds `v` to what is
/// present exactly where `bv` holds.
proof fn lemma_dom_push(g0: Map<Seq<nat>, Vec<Bool>>, g1: Map<Seq<nat>, Vec<Bool>>, v: nat, bv: Bool, s: Assignment)
    requires
        g1.dom() == g0.dom().insert(seq![v]),
        forall|w: Seq<nat>| #[trigger] g0.dom().contains(w) && w != seq![v] ==> g1[w] == g0[w],
        g1[seq![v]]@ == if g0.dom().contains(seq![v]) {
            g0[seq![v]]@.push(bv)
        } else {
            seq![bv]
        },
    ensures
        dom_present(g1, s) == if val(bv, s) {
            dom_present(g0, s).insert(v)
        } else {
            dom_present(g0, s)
        },
{
    let target = if val(bv, s) {
        dom_present(g0, s).insert(v)
    } else {
        dom_present(g0, s)
    };
    let key = seq![v];
    assert forall|w: nat| dom_present(g1, s).contains(w) implies target.contains(w) by {
        if w == v {
            let k = choose|k: int| 0 <= k < g1[key]@.len() && val(#[trigger] g1[key]@[k], s);
            if g0.dom().contains(key) && k < g0[key]@.len() {
                assert(g1[key]@[k] == g0[key]@[k]);
                assert(any_true(g0[key]@, s));
            }
        } else {
            assert(seq![w][0] != key[0]);
            assert(g1[seq![w]] == g0[seq![w]]);
        }
    }
    assert forall|w: nat| target.contains(w) implies dom_present(g1, s).contains(w) by {
        if w == v {
            if dom_present(g0, s).contains(v) {
                let k = choose|k: int| 0 <= k < g0[key]@.len() && val(#[trigger] g0[key]@[k], s);
                assert(g1[key]@[k] == g0[key]@[k]);
            } else {
                let k = g1[key]@.len() - 1;
                assert(g1[key]@[k] == bv);
            }
        } else {
            assert(seq![w][0] != key[0]);
            assert(g1[seq![w]] == g0[seq![w]]);
        }
    }
    assert(dom_present(g1, s) =~= target);
}

/// One more tuple of `b` adds its first atom to the domain when present.
proof fn lemma_domain_step(b: Set<Seq<nat>>, tj: Set<Seq<nat>>, y: Seq<nat>)
    requires
        y.len() >= 1,
    ensures
        domain_spec(b.intersect(tj.insert(y))) == if b.contains(y) {
            domain_spec(b.intersect(tj)).insert(y[0])
        } else {
            domain_spec(b.intersect(tj))
        },
{
    let target = if b.contains(y) {
        domain_spec(b.intersect(tj)).insert(y[0])
    } else {
        domain_spec(b.intersect(tj))
    };
    assert forall|v: nat| domain_spec(b.intersect(tj.insert(y))).contains(v) implies target.contains(v) by {
        let w = choose|w: Seq<nat>| b.intersect(tj.insert(y)).contains(w) && w.len() >= 1 && w[0] == v;
        if w != y {
            assert(b.intersect(tj).contains(w));
        }
    }
    assert forall|v: nat| target.contains(v) implies domain_spec(b.intersect(tj.insert(y))).contains(v) by {
        if b.contains(y) && v == y[0] {
            assert(b.intersect(tj.insert(y)).contains(y));
        } else {
            let w = choose|w: Seq<nat>| b.intersect(tj).contains(w) && w.len() >= 1 && w[0] == v;
            assert(b.intersect(tj.insert(y)).contains(w));
        }
    }
    assert(domain_spec(b.intersect(tj.insert(y))) =~= target);
}

/// A copy of a list of cells.
fn copy_cells(v: &Vec<Bool>) -> (r: Vec<Bool>)
    ensures
        r@ == v@,
{
    let mut r: Vec<Bool> = Vec::new();
    let mut i: usize = 0;
    while i < v.len()
        invariant
            i <= v.len(),
            r@ == v@.take(i as int),
        decreases v.len() - i,
    {
        r.push(v[i]);
        i = i + 1;
        assert(r@ =~= v@.take(i as int));
    }
    assert(v@.take(i as int) =~= v@);
    r
}

#[verifier::spinoff_prover]
#[verifier::rlimit(40)]
/// Override `a ++ b`. The membership of each first atom in `dom(b)` is
/// or-reduced once; a tuple of `a` survives where its first atom is outside
/// `dom(b)`, and each tuple of `b` is or-merged onto the result.
pub fn override_(c: &mut Circuit, a: &Matrix, b: &Matrix) -> (out: Matrix)
    requires
        old(c).wf(),
        a.wf(),
        b.wf(),
        a.ar() == b.ar(),
        a.valid_below(old(c).nv()),
        b.valid_below(old(c).nv()),
        old(c).nv() + a.dom().len() + 2 * b.dom().len() <= u32::MAX,
    ensures
        grown(old(c), final(c)),
        final(c).nv() <= old(c).nv() + a.dom().len() + 2 * b.dom().len(),
        out.wf(),
        out.ar() == a.ar(),
        out.valid_below(final(c).nv()),
        forall|s: Assignment| #[trigger] sat(final(c).cls(), s) ==> out.denote(s) == override_spec(a.denote(s), b.denote(s)),
{
    let ghost c0 = *c;
    let ghost n0 = c0.nv();
    let ghost na = a.dom().len();
    let ghost nb = b.dom().len();
    proof {
        lemma_grown_refl(&c0);
        lemma_take_to_set_ends(a.order());
        lemma_take_to_set_ends(b.order());
    }
    // dom(b): first atom -> the cells of the tuples of b that start there.
    let mut dom: TupleMap<Vec<Bool>> = TupleMap::new();
    let eb = b.iter();
    let ghost kb = b.order();
    proof {
        assert forall|s: Assignment| #[trigger] dom_present(dom@, s) == domain_spec(
            b.denote(s).intersect(kb.take(0).to_set()),
        ) by {
            assert(dom_present(dom@, s) =~= Set::<nat>::empty());
            assert(domain_spec(b.denote(s).intersect(kb.take(0).to_set())) =~= Set::<nat>::empty());
        }
    }
    let mut j: usize = 0;
    while j < eb.len()
        invariant
            j <= eb.len(),
            entry_keys(eb@) == kb,
            entry_vals(eb@) == b.values(),
            kb == b.order(),
            b.wf(),
            b.valid_below(n0),
            dom.wf(),
            dom@.dom().len() <= j,
            forall|u: Seq<nat>| #[trigger] dom@.dom().contains(u) ==> u.len() == 1,
            forall|u: Seq<nat>| #[trigger] dom@.dom().contains(u) ==> all_valid(dom@[u]@, n0),
            forall|s: Assignment| #[trigger] dom_present(dom@, s) == domain_spec(
                b.denote(s).intersect(kb.take(j as int).to_set()),
            ),
        decreases eb.len() - j,
    {
        let y = &eb[j].0;
        let bv = eb[j].1;
        proof {
            assert(kb[j as int] == eb@[j as int].0@);
            assert(b.values()[j as int] == eb@[j as int].1);
            lemma_cell_at(b, j as int, n0);
            lemma_take_to_set_step(kb, j as int);
        }
        let first = y.atom(0);
        let key = Tuple::new(vec![first]);
        let ghost kv = seq![first.index as nat];
        assert(key@ =~= kv);
        let ghost g0 = dom@;
        let (found, pos) = dom.find(&key);
        if found {
            let (k, mut v) = dom.remove_at(pos);
            v.push(bv);
            dom.insert(k, v);
            proof {
                assert(dom@.dom() =~= g0.dom());
            }
        } else {
            let mut v: Vec<Bool> = Vec::new();
            v.push(bv);
            assert(v@ =~= seq![bv]);
            dom.insert(key, v);
            proof {
                assert(dom@.dom() =~= g0.dom().insert(kv));
                assert(!g0.dom().contains(kv));
            }
        }
        proof {
            let yv = y@;
            assert(dom@.dom() =~= g0.dom().insert(kv));
            assert forall|s: Assignment| #[trigger] dom_present(dom@, s) == domain_spec(
                b.denote(s).intersect(kb.take(j + 1).to_set()),
            ) by {
                Matrix::lemma_denote_cell(b, yv, s);
                lemma_dom_push(g0, dom@, first.index as nat, bv, s);
                lemma_domain_step(b.denote(s), kb.take(j as int).to_set(), yv);
            }
            assert forall|u: Seq<nat>| #[trigger] dom@.dom().contains(u) implies all_valid(dom@[u]@, n0) by {
                if u == kv {
                    assert forall|q: int| 0 <= q < dom@[u]@.len() implies valid(#[trigger] dom@[u]@[q], n0) by {
                        if g0.dom().contains(kv) && q < g0[kv]@.len() {
                            assert(dom@[u]@[q] == g0[kv]@[q]);
                        }
                    }
                }
            }
        }
        j = j + 1;
    }
    proof {
        assert(kb.len() == eb@.len());
        lemma_take_to_set_ends(kb);
        assert(dom.keys().len() == dom@.dom().len());
        assert forall|s: Assignment| #[trigger] dom_present(dom@, s) == domain_spec(b.denote(s)) by {
            assert(b.denote(s).intersect(kb.take(j as int).to_set()) =~= b.denote(s));
        }
    }
    // One or-gate per first atom.
    let mut dom_bool: TupleMap<Bool> = TupleMap::new();
    let de = dom.entries();
    let ghost dk = dom.keys();
    let ghost dv = dom.vals();
    proof {
        lemma_take_to_set_ends(dk);
    }
    let mut k: usize = 0;
    while k < de.len()
        invariant
            k <= de.len(),
            entry_keys(de@) == dk,
            entry_vals(de@) == dv,
            dk == dom.keys(),
            dv == dom.vals(),
            dom.wf(),
            dk.len() <= nb,
            forall|u: Seq<nat>| #[trigger] dom@.dom().contains(u) ==> all_valid(dom@[u]@, n0),
            n0 == c0.nv(),
            n0 + na + 2 * nb <= u32::MAX,
            grown(&c0, c),
            c.nv() <= n0 + k,
            dom_bool.wf(),
            dom_bool@.dom() == dk.take(k as int).to_set(),
            forall|u: Seq<nat>| #[trigger] dom_bool@.dom().contains(u) ==> valid(dom_bool@[u], c.nv()),
            forall|s: Assignment| #[trigger] sat(c.cls(), s) ==> forall|u: Seq<nat>| #[trigger] dom_bool@.dom().contains(u)
                ==> val(dom_bool@[u], s) == any_true(dom@[u]@, s),
        decreases de.len() - k,
    {
        let key = &de[k].0;
        proof {
            assert(dk[k as int] == de@[k as int].0@);
            assert(dv[k as int] == de@[k as int].1);
            assert(dom@[dk[k as int]] == dv[k as int]);
            assert(dom@.dom().contains(dk[k as int]));
            lemma_take_to_set_step(dk, k as int);
        }
        let terms = copy_cells(&de[k].1);
        let ghost c1 = *c;
        let ghost b0 = dom_bool@;
        let v = c.or_many(terms);
        dom_bool.insert(key.duplicate(), v);
        proof {
            lemma_grown_trans(&c0, &c1, c);
            assert(dom_bool@.dom() =~= dk.take(k + 1).to_set());
            assert forall|s: Assignment| #[trigger] sat(c.cls(), s) implies forall|u: Seq<nat>| #[trigger] dom_bool@.dom().contains(u)
                ==> val(dom_bool@[u], s) == any_true(dom@[u]@, s) by {
                lemma_sat_back(&c1, c, s);
            }
        }
        k = k + 1;
    }
    proof {
        assert(dk.len() == de@.len());
        assert(dom_bool@.dom() == dom@.dom());
    }
    // a's surviving tuples.
    let mut out = Matrix::empty(a.arity());
    let ea = a.iter();
    let ghost ka = a.order();
    let mut i: usize = 0;
    while i < ea.len()
        invariant
            i <= ea.len(),
            entry_keys(ea@) == ka,
            entry_vals(ea@) == a.values(),
            ka == a.order(),
            a.wf(),
            a.valid_below(n0),
            n0 == c0.nv(),
            n0 + na + 2 * nb <= u32::MAX,
            na == a.dom().len(),
            grown(&c0, c),
            c.nv() <= n0 + nb + i,
            dom_bool.wf(),
            dom_bool@.dom() == dom@.dom(),
            forall|u: Seq<nat>| #[trigger] dom_bool@.dom().contains(u) ==> valid(dom_bool@[u], c.nv()),
            forall|s: Assignment| #[trigger] sat(c.cls(), s) ==> forall|u: Seq<nat>| #[trigger] dom_bool@.dom().contains(u)
                ==> val(dom_bool@[u], s) == any_true(dom@[u]@, s),
            forall|s: Assignment| #[trigger] dom_present(dom@, s) == domain_spec(b.denote(s)),
            out.wf(),
            out.ar() == a.ar(),
            out.valid_below(c.nv()),
            forall|s: Assignment| #[trigger] sat(c.cls(), s) ==> out.denote(s) == a.denote(s).intersect(
                ka.take(i as int).to_set(),
            ).filter(|x: Seq<nat>| !domain_spec(b.denote(s)).contains(x[0])),
        decreases ea.len() - i,
    {
        let x = &ea[i].0;
        let av = ea[i].1;
        proof {
            assert(ka[i as int] == ea@[i as int].0@);
            assert(a.values()[i as int] == ea@[i as int].1);
            lemma_cell_at(a, i as int, c.nv());
            lemma_take_to_set_step(ka, i as int);
        }
        let first = x.atom(0);
        let key = Tuple::new(vec![first]);
        let ghost kv = seq![first.index as nat];
        assert(key@ =~= kv);
        let in_dom = match dom_bool.get(&key) {
            Some(v) => *v,
            None => Bool::Const(false),
        };
        let ghost c1 = *c;
        let ghost out0 = out;
        let nd = c.not(in_dom);
        let v = c.and(av, nd);
        out.set(x.duplicate(), v);
        proof {
            let xv = x@;
            lemma_grown_trans(&c0, &c1, c);
            assert forall|s: Assignment| #[trigger] sat(c.cls(), s) implies forall|u: Seq<nat>| #[trigger] dom_bool@.dom().contains(u)
                ==> val(dom_bool@[u], s) == any_true(dom@[u]@, s) by {
                lemma_sat_back(&c1, c, s);
            }
            let ti1 = ka.take(i + 1).to_set();
            assert forall|s: Assignment| #[trigger] sat(c.cls(), s) implies out.denote(s) == a.denote(s).intersect(
                ti1,
            ).filter(|x: Seq<nat>| !domain_spec(b.denote(s)).contains(x[0])) by {
                lemma_sat_back(&c1, c, s);
                Matrix::lemma_denote_cell(a, xv, s);
                assert(val(in_dom, s) == domain_spec(b.denote(s)).contains(xv[0])) by {
                    assert(dom_present(dom@, s).contains(xv[0]) == (dom@.dom().contains(kv) && any_true(dom@[kv]@, s)));
                }
                let target = a.denote(s).intersect(ti1).filter(|x: Seq<nat>| !domain_spec(b.denote(s)).contains(x[0]));
                if v == Bool::Const(false) {
                    Matrix::lemma_denote_same(&out0, &out, s);
                } else {
                    Matrix::lemma_denote_insert(&out0, &out, xv, v, s);
                }
                assert(out.denote(s) =~= target);
            }
        }
        i = i + 1;
    }
    proof {
        assert(ka.len() == ea@.len());
        lemma_take_to_set_ends(ka);
        lemma_take_to_set_ends(kb);
        assert(ka.take(i as int).to_set() == a.dom());
        assert forall|s: Assignment| #[trigger] sat(c.cls(), s) implies out.denote(s) == a.denote(s).filter(
            |x: Seq<nat>| !domain_spec(b.denote(s)).contains(x[0]),
        ).union(b.denote(s).intersect(kb.take(0).to_set())) by {
            assert(a.denote(s).intersect(ka.take(i as int).to_set()) =~= a.denote(s));
            assert(out.denote(s) =~= a.denote(s).filter(|x: Seq<nat>| !domain_spec(b.denote(s)).contains(x[0])).union(
                b.denote(s).intersect(kb.take(0).to_set()),
            ));
        }
    }
    // b's tuples, or-merged onto any overlap.
    let mut j: usize = 0;
    while j < eb.len()
        invariant
            j <= eb.len(),
            entry_keys(eb@) == kb,
            entry_vals(eb@) == b.values(),
            kb == b.order(),
            a.wf(),
            b.wf(),
            a.ar() == b.ar(),
            b.valid_below(n0),
            n0 == c0.nv(),
            n0 + na + 2 * nb <= u32::MAX,
            nb == b.dom().len(),
            grown(&c0, c),
            c.nv() <= n0 + nb + na + j,
            out.wf(),
            out.ar() == a.ar(),
            out.valid_below(c.nv()),
            forall|s: Assignment| #[trigger] sat(c.cls(), s) ==> out.denote(s) == a.denote(s).filter(
                |x: Seq<nat>| !domain_spec(b.denote(s)).contains(x[0]),
            ).union(b.denote(s).intersect(kb.take(j as int).to_set())),
        decreases eb.len() - j,
    {
        let y = &eb[j].0;
        let bv = eb[j].1;
        proof {
            assert(kb[j as int] == eb@[j as int].0@);
            assert(b.values()[j as int] == eb@[j as int].1);
            lemma_cell_at(b, j as int, c.nv());
            lemma_take_to_set_step(kb, j as int);
        }
        let ghost out0 = out;
        let ghost c1 = *c;
        let cur = *out.entry_or_false(y.duplicate());
        let ghost mid = out;
        let merged = c.or(cur, bv);
        *out.entry_or_false(y.duplicate()) = merged;
        proof {
            let yv = y@;
            lemma_grown_trans(&c0, &c1, c);
            assert(out.cells() =~= out0.cells().insert(yv, merged));
            let tj1 = kb.take(j + 1).to_set();
            assert forall|s: Assignment| #[trigger] sat(c.cls(), s) implies out.denote(s) == a.denote(s).filter(
                |x: Seq<nat>| !domain_spec(b.denote(s)).contains(x[0]),
            ).union(b.denote(s).intersect(tj1)) by {
                lemma_sat_back(&c1, c, s);
                Matrix::lemma_denote_cell(b, yv, s);
                Matrix::lemma_denote_cell(&out0, yv, s);
                Matrix::lemma_denote_insert(&out0, &out, yv, merged, s);
                assert(out.denote(s) =~= a.denote(s).filter(|x: Seq<nat>| !domain_spec(b.denote(s)).contains(x[0])).union(
                    b.denote(s).intersect(tj1),
                ));
            }
            assert forall|u: Seq<nat>| #[trigger] out.dom().contains(u) implies valid(out.cells()[u], c.nv()) by {
                if u != yv {
                    assert(out0.dom().contains(u));
                }
            }
        }
        j = j + 1;
    }
    proof {
        assert(kb.take(j as int).to_set() == b.dom());
        assert forall|s: Assignment| #[trigger] sat(c.cls(), s) implies out.denote(s) == override_spec(a.denote(s), b.denote(s)) by {
            assert(out.denote(s) =~= override_spec(a.denote(s), b.denote(s)));
        }
    }
    out
}

} // verus!
