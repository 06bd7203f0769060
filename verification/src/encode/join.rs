//! The relational join of two boolean matrices.
//!
//! Several pairs of operand tuples can reach one result tuple; their
//! contributions are grouped per result tuple (in tuple order) and each
//! group is or-reduced over the conjunctions of its pairs.

use vstd::prelude::*;

use crate::bounds::Tuple;
use crate::circuit::{all_const, all_valid, any_true, sat, val, valid, Assignment, Bool, Circuit};
use crate::encode::{grown, lemma_cell_at, lemma_grown_refl, lemma_grown_trans, lemma_sat_back};
use crate::matrix::Matrix;
use crate::relspec::{join_spec, lemma_take_to_set_ends, lemma_take_to_set_step};
use crate::tuple_map::{entry_keys, entry_vals, TupleMap};

verus! {

broadcast use crate::matrix::Matrix::lemma_wf, crate::tuple_map::TupleMap::lemma_wf;

/// The contributions gathered for each result tuple.
pub type Groups = TupleMap<Vec<(Bool, Bool)>>;

/// The number of contributions in a list of groups.
pub open spec fn pairs_total(s: Seq<Vec<(Bool, Bool)>>) -> nat
    decreases s.len(),
{
    if s.len() == 0 {
        0
    } else {
        pairs_total(s.drop_last()) + s.last()@.len()
    }
}

/// The count of a concatenation is the sum of the counts.
proof fn lemma_pairs_total_concat(s1: Seq<Vec<(Bool, Bool)>>, s2: Seq<Vec<(Bool, Bool)>>)
    ensures
        pairs_total(s1 + s2) == pairs_total(s1) + pairs_total(s2),
    decreases s2.len(),
{
    if s2.len() > 0 {
        lemma_pairs_total_concat(s1, s2.drop_last());
        assert((s1 + s2).drop_last() =~= s1 + s2.drop_last());
    } else {
        assert(s1 + s2 =~= s1);
    }
}

/// Inserting, removing or replacing one group moves the count by its size.
proof fn lemma_pairs_total_edit(s: Seq<Vec<(Bool, Bool)>>, p: int, v: Vec<(Bool, Bool)>)
    ensures
        0 <= p <= s.len() ==> pairs_total(s.insert(p, v)) == pairs_total(s) + v@.len(),
        0 <= p < s.len() ==> pairs_total(s.remove(p)) + s[p]@.len() == pairs_total(s),
{
    assert(pairs_total(Seq::<Vec<(Bool, Bool)>>::empty()) == 0);
    if 0 <= p <= s.len() {
        assert(s =~= s.take(p) + s.skip(p));
        assert(s.insert(p, v) =~= s.take(p) + (seq![v] + s.skip(p)));
        lemma_pairs_total_concat(s.take(p), s.skip(p));
        lemma_pairs_total_concat(s.take(p), seq![v] + s.skip(p));
        lemma_pairs_total_concat(seq![v], s.skip(p));
        assert(seq![v].drop_last() =~= Seq::<Vec<(Bool, Bool)>>::empty());
    }
    if 0 <= p < s.len() {
        assert(s =~= s.take(p) + (seq![s[p]] + s.skip(p + 1)));
        assert(s.remove(p) =~= s.take(p) + s.skip(p + 1));
        lemma_pairs_total_concat(s.take(p), seq![s[p]] + s.skip(p + 1));
        lemma_pairs_total_concat(seq![s[p]], s.skip(p + 1));
        lemma_pairs_total_concat(s.take(p), s.skip(p + 1));
        assert(seq![s[p]].drop_last() =~= Seq::<Vec<(Bool, Bool)>>::empty());
    }
}

/// With every group nonempty, there are at least as many contributions as
/// groups; and a prefix counts no more than the whole.
proof fn lemma_pairs_total_bounds(s: Seq<Vec<(Bool, Bool)>>, k: int)
    requires
        forall|q: int| 0 <= q < s.len() ==> (#[trigger] s[q])@.len() >= 1,
        0 <= k <= s.len(),
    ensures
        pairs_total(s.take(k)) + k <= 2 * pairs_total(s),
{
    lemma_pairs_total_concat(s.take(k), s.skip(k));
    assert(s =~= s.take(k) + s.skip(k));
    assert forall|q: int| 0 <= q < s.take(k).len() implies (#[trigger] s.take(k)[q])@.len() >= 1 by {
        assert(s.take(k)[q] == s[q]);
    }
    lemma_pairs_total_len(s.take(k));
}

/// With every group nonempty, the count bounds the number of groups.
proof fn lemma_pairs_total_len(s: Seq<Vec<(Bool, Bool)>>)
    requires
        forall|q: int| 0 <= q < s.len() ==> (#[trigger] s[q])@.len() >= 1,
    ensures
        s.len() <= pairs_total(s),
    decreases s.len(),
{
    if s.len() > 0 {
        let d = s.drop_last();
        assert forall|q: int| 0 <= q < d.len() implies (#[trigger] d[q])@.len() >= 1 by {
            assert(d[q] == s[q]);
        }
        lemma_pairs_total_len(d);
        assert(s.last() == s[s.len() - 1]);
    }
}

/// Some pair of the list has both members true under `s`.
pub open spec fn some_pair(p: Seq<(Bool, Bool)>, s: Assignment) -> bool {
    exists|k: int| 0 <= k < p.len() && #[trigger] val(p[k].0, s) && val(p[k].1, s)
}

/// The result tuples that some pair of a group makes present under `s`.
pub open spec fn contributed(g: Map<Seq<nat>, Vec<(Bool, Bool)>>, s: Assignment) -> Set<Seq<nat>> {
    Set::new(|u: Seq<nat>| g.dom().contains(u) && some_pair(g[u]@, s))
}

/// Both cells of every pair are constants.
pub open spec fn pairs_const(pairs: Seq<(Bool, Bool)>) -> bool {
    forall|q: int| 0 <= q < pairs.len() ==> (#[trigger] pairs[q]).0 is Const && pairs[q].1 is Const
}

/// The disjunction, over a group's pairs, of the conjunction of each pair.
fn or_of_ands(c: &mut Circuit, pairs: &Vec<(Bool, Bool)>) -> (r: Bool)
    requires
        old(c).wf(),
        forall|q: int| 0 <= q < pairs@.len() ==> valid(#[trigger] pairs@[q].0, old(c).nv()) && valid(
            pairs@[q].1,
            old(c).nv(),
        ),
        old(c).nv() + pairs@.len() < u32::MAX,
    ensures
        grown(old(c), final(c)),
        final(c).nv() <= old(c).nv() + pairs@.len() + 1,
        valid(r, final(c).nv()),
        forall|s: Assignment| #[trigger] sat(final(c).cls(), s) ==> val(r, s) == some_pair(pairs@, s),
        pairs_const(pairs@) ==> r is Const && final(c).same(old(c)),
{
    let ghost c1 = *c;
    let ghost base = c.nv();
    proof {
        lemma_grown_refl(c);
    }
    let mut terms: Vec<Bool> = Vec::new();
    let mut p: usize = 0;
    while p < pairs.len()
        invariant
            p <= pairs.len(),
            forall|q: int| 0 <= q < pairs@.len() ==> valid(#[trigger] pairs@[q].0, base) && valid(pairs@[q].1, base),
            base == c1.nv(),
            base + pairs@.len() < u32::MAX,
            grown(&c1, c),
            c.nv() <= base + p,
            terms@.len() == p,
            all_valid(terms@, c.nv()),
            forall|s: Assignment| #[trigger] sat(c.cls(), s) ==> forall|q: int| 0 <= q < p ==> val(#[trigger] terms@[q], s)
                == (val(pairs@[q].0, s) && val(pairs@[q].1, s)),
            pairs_const(pairs@) ==> all_const(terms@) && c.same(&c1),
        decreases pairs.len() - p,
    {
        let (pa, pb) = pairs[p];
        let ghost c2 = *c;
        let term = c.and(pa, pb);
        terms.push(term);
        proof {
            lemma_grown_trans(&c1, &c2, c);
            assert forall|s: Assignment| #[trigger] sat(c.cls(), s) implies forall|q: int| 0 <= q < p + 1 ==> val(#[trigger] terms@[q], s)
                == (val(pairs@[q].0, s) && val(pairs@[q].1, s)) by {
                lemma_sat_back(&c2, c, s);
            }
        }
        p = p + 1;
    }
    let ghost c3 = *c;
    let ghost ts = terms@;
    let v = c.or_many(terms);
    proof {
        lemma_grown_trans(&c1, &c3, c);
        assert forall|s: Assignment| #[trigger] sat(c.cls(), s) implies val(v, s) == some_pair(pairs@, s) by {
            lemma_sat_back(&c3, c, s);
            if val(v, s) {
                let q = choose|q: int| 0 <= q < ts.len() && val(#[trigger] ts[q], s);
                assert(val(pairs@[q].0, s) && val(pairs@[q].1, s));
            }
            if some_pair(pairs@, s) {
                let q = choose|q: int| 0 <= q < pairs@.len() && #[trigger] val(pairs@[q].0, s) && val(pairs@[q].1, s);
                assert(val(ts[q], s));
                assert(any_true(ts, s));
            }
        }
    }
    v
}

/// What the grouping loop has gathered after the rows before `xi` and the
/// columns of `tj` in row `xi`.
pub open spec fn join_part(
    a: Set<Seq<nat>>,
    b: Set<Seq<nat>>,
    ti: Set<Seq<nat>>,
    xi: Seq<nat>,
    tj: Set<Seq<nat>>,
) -> Set<Seq<nat>> {
    join_spec(a.intersect(ti), b).union(join_spec(a.intersect(set![xi]), b.intersect(tj)))
}

/// One more column in the current row adds at most the join of `xi` and
/// `yj`.
proof fn lemma_join_step(
    a: Set<Seq<nat>>,
    b: Set<Seq<nat>>,
    ti: Set<Seq<nat>>,
    xi: Seq<nat>,
    tj: Set<Seq<nat>>,
    yj: Seq<nat>,
)
    requires
        xi.len() >= 1,
        yj.len() >= 1,
    ensures
        join_part(a, b, ti, xi, tj.insert(yj)) == if a.contains(xi) && b.contains(yj) && xi.last() == yj[0] {
            join_part(a, b, ti, xi, tj).insert(xi.drop_last() + yj.drop_first())
        } else {
            join_part(a, b, ti, xi, tj)
        },
{
    let old_part = join_part(a, b, ti, xi, tj);
    let new_part = join_part(a, b, ti, xi, tj.insert(yj));
    let t = xi.drop_last() + yj.drop_first();
    let target = if a.contains(xi) && b.contains(yj) && xi.last() == yj[0] {
        old_part.insert(t)
    } else {
        old_part
    };
    assert forall|u: Seq<nat>| new_part.contains(u) implies target.contains(u) by {
        if !join_spec(a.intersect(ti), b).contains(u) {
            let (x, y) = choose|x: Seq<nat>, y: Seq<nat>|
                #![trigger a.intersect(set![xi]).contains(x), b.intersect(tj.insert(yj)).contains(y)]
                a.intersect(set![xi]).contains(x) && b.intersect(tj.insert(yj)).contains(y) && x.len() >= 1
                    && y.len() >= 1 && x.last() == y[0] && u == x.drop_last() + y.drop_first();
            if y != yj {
                assert(b.intersect(tj).contains(y));
                assert(join_spec(a.intersect(set![xi]), b.intersect(tj)).contains(u));
            }
        }
    }
    assert forall|u: Seq<nat>| target.contains(u) implies new_part.contains(u) by {
        if old_part.contains(u) {
            if !join_spec(a.intersect(ti), b).contains(u) {
                let (x, y) = choose|x: Seq<nat>, y: Seq<nat>|
                    #![trigger a.intersect(set![xi]).contains(x), b.intersect(tj).contains(y)]
                    a.intersect(set![xi]).contains(x) && b.intersect(tj).contains(y) && x.len() >= 1
                        && y.len() >= 1 && x.last() == y[0] && u == x.drop_last() + y.drop_first();
                assert(b.intersect(tj.insert(yj)).contains(y));
            }
        } else {
            assert(a.intersect(set![xi]).contains(xi));
            assert(b.intersect(tj.insert(yj)).contains(yj));
        }
    }
    assert(new_part =~= target);
}

/// Finishing a row: all of `b`'s tuples seen, the row joins the finished
/// ones; and a row with no column seen adds nothing.
proof fn lemma_join_row(a: Set<Seq<nat>>, b: Set<Seq<nat>>, ti: Set<Seq<nat>>, xi: Seq<nat>, tb: Set<Seq<nat>>)
    requires
        b.subset_of(tb),
    ensures
        join_part(a, b, ti, xi, tb) == join_spec(a.intersect(ti.insert(xi)), b),
        join_part(a, b, ti, xi, Set::empty()) == join_spec(a.intersect(ti), b),
{
    let l = join_part(a, b, ti, xi, tb);
    let r = join_spec(a.intersect(ti.insert(xi)), b);
    assert forall|u: Seq<nat>| l.contains(u) implies r.contains(u) by {
        if join_spec(a.intersect(ti), b).contains(u) {
            let (x, y) = choose|x: Seq<nat>, y: Seq<nat>|
                #![trigger a.intersect(ti).contains(x), b.contains(y)]
                a.intersect(ti).contains(x) && b.contains(y) && x.len() >= 1 && y.len() >= 1 && x.last() == y[0]
                    && u == x.drop_last() + y.drop_first();
            assert(a.intersect(ti.insert(xi)).contains(x));
        } else {
            let (x, y) = choose|x: Seq<nat>, y: Seq<nat>|
                #![trigger a.intersect(set![xi]).contains(x), b.intersect(tb).contains(y)]
                a.intersect(set![xi]).contains(x) && b.intersect(tb).contains(y) && x.len() >= 1 && y.len()
                    >= 1 && x.last() == y[0] && u == x.drop_last() + y.drop_first();
            assert(a.intersect(ti.insert(xi)).contains(x));
        }
    }
    assert forall|u: Seq<nat>| r.contains(u) implies l.contains(u) by {
        let (x, y) = choose|x: Seq<nat>, y: Seq<nat>|
            #![trigger a.intersect(ti.insert(xi)).contains(x), b.contains(y)]
            a.intersect(ti.insert(xi)).contains(x) && b.contains(y) && x.len() >= 1 && y.len() >= 1 && x.last()
                == y[0] && u == x.drop_last() + y.drop_first();
        if x == xi {
            assert(a.intersect(set![xi]).contains(x));
            assert(b.intersect(tb).contains(y));
        } else {
            assert(a.intersect(ti).contains(x));
        }
    }
    assert(l =~= r);
    let l0 = join_part(a, b, ti, xi, Set::empty());
    assert forall|u: Seq<nat>| l0.contains(u) implies join_spec(a.intersect(ti), b).contains(u) by {
        if !join_spec(a.intersect(ti), b).contains(u) {
            let (x, y) = choose|x: Seq<nat>, y: Seq<nat>|
                #![trigger a.intersect(set![xi]).contains(x), b.intersect(Set::<Seq<nat>>::empty()).contains(y)]
                a.intersect(set![xi]).contains(x) && b.intersect(Set::<Seq<nat>>::empty()).contains(y) && x.len()
                    >= 1 && y.len() >= 1 && x.last() == y[0] && u == x.drop_last() + y.drop_first();
        }
    }
    assert(l0 =~= join_spec(a.intersect(ti), b));
}

/// Adding the pair `(av, bv)` to the group of `u` adds `u` to what is
/// contributed exactly where both hold.
proof fn lemma_contributed_push(
    g0: Map<Seq<nat>, Vec<(Bool, Bool)>>,
    g1: Map<Seq<nat>, Vec<(Bool, Bool)>>,
    u: Seq<nat>,
    av: Bool,
    bv: Bool,
    s: Assignment,
)
    requires
        g1.dom() == g0.dom().insert(u),
        forall|w: Seq<nat>| #[trigger] g0.dom().contains(w) && w != u ==> g1[w] == g0[w],
        g1[u]@ == if g0.dom().contains(u) {
            g0[u]@.push((av, bv))
        } else {
            seq![(av, bv)]
        },
    ensures
        contributed(g1, s) == if val(av, s) && val(bv, s) {
            contributed(g0, s).insert(u)
        } else {
            contributed(g0, s)
        },
{
    let target = if val(av, s) && val(bv, s) {
        contributed(g0, s).insert(u)
    } else {
        contributed(g0, s)
    };
    assert forall|w: Seq<nat>| contributed(g1, s).contains(w) implies target.contains(w) by {
        if w == u {
            let k = choose|k: int| 0 <= k < g1[u]@.len() && #[trigger] val(g1[u]@[k].0, s) && val(g1[u]@[k].1, s);
            if g0.dom().contains(u) && k < g0[u]@.len() {
                assert(g1[u]@[k] == g0[u]@[k]);
                assert(val(g0[u]@[k].0, s) && val(g0[u]@[k].1, s));
                assert(some_pair(g0[u]@, s));
            }
        } else {
            assert(g1[w] == g0[w]);
        }
    }
    assert forall|w: Seq<nat>| target.contains(w) implies contributed(g1, s).contains(w) by {
        if w == u {
            if contributed(g0, s).contains(u) {
                let k = choose|k: int| 0 <= k < g0[u]@.len() && #[trigger] val(g0[u]@[k].0, s) && val(g0[u]@[k].1, s);
                assert(g1[u]@[k] == g0[u]@[k]);
                assert(val(g1[u]@[k].0, s) && val(g1[u]@[k].1, s));
            } else {
                let k = g1[u]@.len() - 1;
                assert(g1[u]@[k] == (av, bv));
                assert(val(g1[u]@[k].0, s) && val(g1[u]@[k].1, s));
            }
        } else {
            assert(g1[w] == g0[w]);
        }
    }
    assert(contributed(g1, s) =~= target);
}

/// Relational join `a . b` over the shared middle atom.
pub fn join(c: &mut Circuit, a: &Matrix, b: &Matrix) -> (out: Matrix)
    requires
        old(c).wf(),
        a.wf(),
        b.wf(),
        a.ar() + b.ar() >= 3,
        a.ar() + b.ar() <= usize::MAX,
        a.valid_below(old(c).nv()),
        b.valid_below(old(c).nv()),
        old(c).nv() + 2 * (a.dom().len() * b.dom().len()) <= u32::MAX,
    ensures
        grown(old(c), final(c)),
        final(c).nv() <= old(c).nv() + 2 * (a.dom().len() * b.dom().len()),
        out.wf(),
        out.ar() == a.ar() + b.ar() - 2,
        out.valid_below(final(c).nv()),
        out.dom().subset_of(join_spec(a.dom(), b.dom())),
        forall|s: Assignment| #[trigger] sat(final(c).cls(), s) ==> out.denote(s) == join_spec(a.denote(s), b.denote(s)),
        a.all_const() && b.all_const() ==> out.all_const() && final(c).same(old(c)),
{
    let ghost c0 = *c;
    let ghost cst = a.all_const() && b.all_const();
    let ghost na = a.dom().len();
    let ghost nb = b.dom().len();
    let ghost n0 = c0.nv();
    proof {
        lemma_grown_refl(&c0);
        lemma_take_to_set_ends(a.order());
        lemma_take_to_set_ends(b.order());
    }
    let mut groups: Groups = TupleMap::new();
    let ea = a.iter();
    let eb = b.iter();
    let ghost ka = a.order();
    let ghost kb = b.order();
    let ghost mut pushed: nat = 0;
    proof {
        assert forall|s: Assignment| #[trigger] contributed(groups@, s) == join_spec(
            a.denote(s).intersect(ka.take(0).to_set()),
            b.denote(s),
        ) by {
            assert(contributed(groups@, s) =~= Set::<Seq<nat>>::empty());
            assert(join_spec(a.denote(s).intersect(ka.take(0).to_set()), b.denote(s)) =~= Set::<Seq<nat>>::empty());
        }
        assert(pairs_total(groups.vals()) == 0);
    }
    let mut i: usize = 0;
    while i < ea.len()
        invariant
            i <= ea.len(),
            entry_keys(ea@) == ka,
            entry_vals(ea@) == a.values(),
            entry_keys(eb@) == kb,
            entry_vals(eb@) == b.values(),
            ka == a.order(),
            kb == b.order(),
            na == a.dom().len(),
            nb == b.dom().len(),
            a.wf(),
            b.wf(),
            a.ar() + b.ar() >= 3,
            a.valid_below(n0),
            b.valid_below(n0),
            groups.wf(),
            forall|u: Seq<nat>| #[trigger] groups@.dom().contains(u) ==> u.len() == a.ar() + b.ar() - 2,
            forall|u: Seq<nat>| #[trigger] groups@.dom().contains(u) ==> join_spec(a.dom(), b.dom()).contains(u),
            forall|u: Seq<nat>, k: int|
                #![trigger groups@[u]@[k]]
                groups@.dom().contains(u) && 0 <= k < groups@[u]@.len() ==> valid(groups@[u]@[k].0, n0) && valid(
                    groups@[u]@[k].1,
                    n0,
                ),
            forall|u: Seq<nat>| #[trigger] groups@.dom().contains(u) ==> groups@[u]@.len() >= 1,
            pairs_total(groups.vals()) == pushed,
            pushed <= i * nb,
            cst == (a.all_const() && b.all_const()),
            forall|u: Seq<nat>, k: int|
                #![trigger groups@[u]@[k]]
                cst && groups@.dom().contains(u) && 0 <= k < groups@[u]@.len() ==> groups@[u]@[k].0 is Const
                    && groups@[u]@[k].1 is Const,
            forall|s: Assignment| #[trigger] contributed(groups@, s) == join_spec(
                a.denote(s).intersect(ka.take(i as int).to_set()),
                b.denote(s),
            ),
        decreases ea.len() - i,
    {
        let x = &ea[i].0;
        let av = ea[i].1;
        proof {
            assert(ka[i as int] == ea@[i as int].0@);
            assert(a.values()[i as int] == ea@[i as int].1);
            lemma_cell_at(a, i as int, n0);
            lemma_take_to_set_step(ka, i as int);
        }
        let ghost xv = x@;
        let ghost ti = ka.take(i as int).to_set();
        let mid = x.atom(x.arity() - 1);
        proof {
            assert forall|s: Assignment| #[trigger] contributed(groups@, s) == join_part(
                a.denote(s),
                b.denote(s),
                ti,
                xv,
                kb.take(0).to_set(),
            ) by {
                lemma_join_row(a.denote(s), b.denote(s), ti, xv, kb.to_set());
            }
        }
        let mut j: usize = 0;
        while j < eb.len()
            invariant
                j <= eb.len(),
                i < ea.len(),
                entry_keys(eb@) == kb,
                entry_vals(eb@) == b.values(),
                ka == a.order(),
                kb == b.order(),
                nb == b.dom().len(),
                a.wf(),
                b.wf(),
                a.ar() + b.ar() >= 3,
                xv == ka[i as int],
                xv == x@,
                xv.len() == a.ar(),
                a.dom().contains(xv),
                mid.index == xv.last(),
                av == a.cell(xv),
                valid(av, n0),
                ti == ka.take(i as int).to_set(),
                b.valid_below(n0),
                groups.wf(),
                forall|u: Seq<nat>| #[trigger] groups@.dom().contains(u) ==> u.len() == a.ar() + b.ar() - 2,
                forall|u: Seq<nat>| #[trigger] groups@.dom().contains(u) ==> join_spec(a.dom(), b.dom()).contains(u),
                forall|u: Seq<nat>, k: int|
                    #![trigger groups@[u]@[k]]
                    groups@.dom().contains(u) && 0 <= k < groups@[u]@.len() ==> valid(groups@[u]@[k].0, n0)
                        && valid(groups@[u]@[k].1, n0),
                cst == (a.all_const() && b.all_const()),
                forall|u: Seq<nat>, k: int|
                    #![trigger groups@[u]@[k]]
                    cst && groups@.dom().contains(u) && 0 <= k < groups@[u]@.len() ==> groups@[u]@[k].0 is Const
                        && groups@[u]@[k].1 is Const,
                forall|u: Seq<nat>| #[trigger] groups@.dom().contains(u) ==> groups@[u]@.len() >= 1,
                pairs_total(groups.vals()) == pushed,
                pushed <= i * nb + j,
                forall|s: Assignment| #[trigger] contributed(groups@, s) == join_part(
                    a.denote(s),
                    b.denote(s),
                    ti,
                    xv,
                    kb.take(j as int).to_set(),
                ),
            decreases eb.len() - j,
        {
            let y = &eb[j].0;
            let bv = eb[j].1;
            proof {
                assert(kb[j as int] == eb@[j as int].0@);
                assert(b.values()[j as int] == eb@[j as int].1);
                lemma_cell_at(b, j as int, n0);
                lemma_take_to_set_step(kb, j as int);
                if cst {
                    assert(b.dom().contains(kb[j as int]));
                    assert(a.dom().contains(xv));
                }
            }
            let ghost yv = y@;
            let ghost tj = kb.take(j as int).to_set();
            if y.atom(0).index == mid.index {
                let t = x.join_with(y);
                let ghost g0 = groups@;
                let ghost vals0 = groups.vals();
                let (found, pos) = groups.find(&t);
                if found {
                    let (k, mut v) = groups.remove_at(pos);
                    let ghost vals1 = groups.vals();
                    v.push((av, bv));
                    let p2 = groups.insert(k, v);
                    proof {
                        lemma_pairs_total_edit(vals0, pos as int, v);
                        lemma_pairs_total_edit(vals1, p2 as int, v);
                        assert(vals0[pos as int]@.len() + 1 == v@.len());
                    }
                } else {
                    let mut v: Vec<(Bool, Bool)> = Vec::new();
                    v.push((av, bv));
                    assert(v@ =~= seq![(av, bv)]);
                    let p2 = groups.insert(t, v);
                    proof {
                        lemma_pairs_total_edit(vals0, p2 as int, v);
                    }
                }
                proof {
                    pushed = pushed + 1;
                    let tv = xv.drop_last() + yv.drop_first();
                    assert(groups@.dom() =~= g0.dom().insert(tv));
                    assert(a.dom().contains(xv) && b.dom().contains(yv));
                    assert(join_spec(a.dom(), b.dom()).contains(tv));
                    assert forall|s: Assignment| #[trigger] contributed(groups@, s) == join_part(
                        a.denote(s),
                        b.denote(s),
                        ti,
                        xv,
                        kb.take(j + 1).to_set(),
                    ) by {
                        Matrix::lemma_denote_cell(a, xv, s);
                        Matrix::lemma_denote_cell(b, yv, s);
                        lemma_contributed_push(g0, groups@, tv, av, bv, s);
                        lemma_join_step(a.denote(s), b.denote(s), ti, xv, tj, yv);
                    }
                }
            } else {
                proof {
                    assert forall|s: Assignment| #[trigger] contributed(groups@, s) == join_part(
                        a.denote(s),
                        b.denote(s),
                        ti,
                        xv,
                        kb.take(j + 1).to_set(),
                    ) by {
                        lemma_join_step(a.denote(s), b.denote(s), ti, xv, tj, yv);
                    }
                }
            }
            j = j + 1;
        }
        proof {
            assert(kb.len() == eb@.len());
            lemma_take_to_set_ends(kb);
            assert forall|s: Assignment| #[trigger] contributed(groups@, s) == join_spec(
                a.denote(s).intersect(ka.take(i + 1).to_set()),
                b.denote(s),
            ) by {
                lemma_join_row(a.denote(s), b.denote(s), ti, xv, kb.to_set());
            }
            assert(i * nb + nb == (i + 1) * nb) by (nonlinear_arith);
        }
        i = i + 1;
    }
    proof {
        assert(ka.len() == ea@.len());
        lemma_take_to_set_ends(ka);
        assert(i * nb <= na * nb) by (nonlinear_arith)
            requires
                i <= na,
        ;
        assert forall|s: Assignment| #[trigger] contributed(groups@, s) == join_spec(a.denote(s), b.denote(s)) by {
            assert(a.denote(s).intersect(ka.take(i as int).to_set()) =~= a.denote(s));
        }
        assert forall|q: int| 0 <= q < groups.vals().len() implies (#[trigger] groups.vals()[q])@.len() >= 1 by {
            assert(groups@[groups.keys()[q]] == groups.vals()[q]);
            assert(groups@.dom().contains(groups.keys()[q]));
        }
    }
    let mut out = Matrix::empty(a.arity() + b.arity() - 2);
    let ge = groups.entries();
    let ghost gk = groups.keys();
    let ghost gv = groups.vals();
    proof {
        lemma_take_to_set_ends(gk);
        assert(gv.take(0) =~= Seq::<Vec<(Bool, Bool)>>::empty());
    }
    let mut k: usize = 0;
    while k < ge.len()
        invariant
            k <= ge.len(),
            entry_keys(ge@) == gk,
            entry_vals(ge@) == gv,
            gk == groups.keys(),
            gv == groups.vals(),
            groups.wf(),
            forall|u: Seq<nat>| #[trigger] groups@.dom().contains(u) ==> u.len() == a.ar() + b.ar() - 2,
            forall|u: Seq<nat>, q: int|
                #![trigger groups@[u]@[q]]
                groups@.dom().contains(u) && 0 <= q < groups@[u]@.len() ==> valid(groups@[u]@[q].0, n0) && valid(
                    groups@[u]@[q].1,
                    n0,
                ),
            forall|q: int| 0 <= q < gv.len() ==> (#[trigger] gv[q])@.len() >= 1,
            pairs_total(gv) == pushed,
            n0 + 2 * pushed <= u32::MAX,
            n0 == c0.nv(),
            grown(&c0, c),
            c.nv() <= n0 + pairs_total(gv.take(k as int)) + k,
            out.wf(),
            out.ar() == a.ar() + b.ar() - 2,
            out.valid_below(c.nv()),
            out.dom().subset_of(gk.take(k as int).to_set()),
            forall|u: Seq<nat>| #[trigger] groups@.dom().contains(u) ==> join_spec(a.dom(), b.dom()).contains(u),
            forall|s: Assignment| #[trigger] sat(c.cls(), s) ==> out.denote(s) == contributed(groups@, s).intersect(
                gk.take(k as int).to_set(),
            ),
            cst == (a.all_const() && b.all_const()),
            forall|u: Seq<nat>, q: int|
                #![trigger groups@[u]@[q]]
                cst && groups@.dom().contains(u) && 0 <= q < groups@[u]@.len() ==> groups@[u]@[q].0 is Const
                    && groups@[u]@[q].1 is Const,
            cst ==> out.all_const() && c.same(&c0),
        decreases ge.len() - k,
    {
        let t = &ge[k].0;
        let pairs = &ge[k].1;
        let ghost tv = t@;
        proof {
            assert(gk[k as int] == ge@[k as int].0@);
            assert(gv[k as int] == ge@[k as int].1);
            assert(groups@[gk[k as int]] == gv[k as int]);
            assert(groups@.dom().contains(tv));
            lemma_take_to_set_step(gk, k as int);
            lemma_pairs_total_bounds(gv, k + 1);
            assert(gv.take(k + 1).drop_last() =~= gv.take(k as int));
            assert(pairs_total(gv.take(k + 1)) == pairs_total(gv.take(k as int)) + pairs@.len());
            if gk.take(k as int).to_set().contains(tv) {
                let q = choose|q: int| 0 <= q < gk.take(k as int).len() && gk.take(k as int)[q] == tv;
                assert(gk[q] == gk[k as int]);
            }
        }
        let ghost c1 = *c;
        let ghost out0 = out;
        proof {
            assert forall|q: int| 0 <= q < pairs@.len() implies valid(#[trigger] pairs@[q].0, c.nv()) && valid(
                pairs@[q].1,
                c.nv(),
            ) by {
                assert(groups@[tv]@[q] == pairs@[q]);
            }
            if cst {
                assert forall|q: int| 0 <= q < pairs@.len() implies (#[trigger] pairs@[q]).0 is Const && pairs@[q].1 is Const by {
                    assert(groups@[tv]@[q] == pairs@[q]);
                }
            }
        }
        let v = or_of_ands(c, pairs);
        out.set(t.duplicate(), v);
        proof {
            if cst {
                assert forall|u: Seq<nat>| out.dom().contains(u) implies (#[trigger] out.cells()[u]) is Const by {
                    if u != tv {
                        assert(out0.dom().contains(u));
                    }
                }
            }
            lemma_grown_trans(&c0, &c1, c);
            let tk1 = gk.take(k + 1).to_set();
            assert forall|s: Assignment| #[trigger] sat(c.cls(), s) implies out.denote(s) == contributed(groups@, s).intersect(tk1) by {
                lemma_sat_back(&c1, c, s);
                let cs = contributed(groups@, s);
                assert(val(v, s) == cs.contains(tv));
                if v == Bool::Const(false) {
                    Matrix::lemma_denote_same(&out0, &out, s);
                    assert(out.denote(s) =~= cs.intersect(tk1));
                } else {
                    Matrix::lemma_denote_insert(&out0, &out, tv, v, s);
                    assert(out.denote(s) =~= cs.intersect(tk1));
                }
            }
        }
        k = k + 1;
    }
    proof {
        assert(gk.len() == ge@.len());
        assert(gk.take(k as int).to_set() == groups@.dom());
        assert(gv.take(k as int) =~= gv);
        lemma_pairs_total_len(gv);
        assert forall|s: Assignment| #[trigger] sat(c.cls(), s) implies out.denote(s) == join_spec(a.denote(s), b.denote(s)) by {
            assert(contributed(groups@, s).intersect(groups@.dom()) =~= contributed(groups@, s));
        }
    }
    out
}

} // verus!
