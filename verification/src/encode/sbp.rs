//! The lex-leader symmetry-breaking predicate.
//!
//! For each class of interchangeable atoms and each pair `(prev, cur)` of
//! neighbours in it, two parallel lists of cells are gathered: walking the
//! contributing relations in plan order and, per relation, its upper tuples
//! in ascending order, the `original` entry is the tuple's cell and the
//! `permuted` entry the cell of the tuple with `prev` and `cur` swapped.
//! Tuples the swap fixes, and pairs that mirror an earlier accepted pair, are
//! skipped; no relation is started once the lists reach the cap. Each pair's
//! lists are closed with the lex-leq comparison and all are conjoined.

use vstd::prelude::*;

use crate::bounds::{atom_indices, AtomId, Bounds, RelBound, Tuple, TupleOrder};
use crate::circuit::{all_true, all_valid, sat, val, valid, Assignment, Bool, Circuit, Lit, Var};
use crate::encode::formula::{lex_leq, lex_leq_spec};
use crate::encode::symmetry::{class_views, SbpPlan};
use crate::encode::{grown, lemma_grown_refl, lemma_grown_trans, lemma_sat_back, swap_atoms, swap_tuple};
use crate::ir::RelId;
use crate::tuple_map::TupleMap;

verus! {

broadcast use crate::bounds::TupleSet::lemma_wf, crate::bounds::Bounds::lemma_wf, crate::tuple_map::TupleMap::lemma_wf;

/// The primary variables of each relation, by relation index.
pub open spec fn prims_ok(prims: Seq<TupleMap<Var>>, n: nat) -> bool {
    forall|r: int|
        0 <= r < prims.len() ==> (#[trigger] prims[r]).wf() && forall|t: Seq<nat>|
            #[trigger] prims[r]@.contains_key(t) ==> prims[r]@[t].index < n
}

/// The cell of tuple `t` of relation `r`: true when the lower bound holds it,
/// its primary variable when it has one, else false.
pub open spec fn cell_spec(bound: RelBound, prims: Seq<TupleMap<Var>>, r: RelId, t: Seq<nat>) -> Bool {
    if bound.lo()@.contains(t) {
        Bool::Const(true)
    } else if r.index < prims.len() && prims[r.index as int]@.contains_key(t) {
        Bool::Lit(Lit { var: prims[r.index as int]@[t], negated: false })
    } else {
        Bool::Const(false)
    }
}

/// Some accepted pair of the lists equals `(q, e)`.
pub open spec fn mirrored(acc: (Seq<Bool>, Seq<Bool>), q: Bool, e: Bool) -> bool {
    exists|i: int| 0 <= i < acc.0.len() && i < acc.1.len() && acc.0[i] == q && acc.1[i] == e
}

/// The lists after considering upper tuple `t` of relation `r`.
pub open spec fn step_spec(
    bound: RelBound,
    prims: Seq<TupleMap<Var>>,
    r: RelId,
    p: nat,
    c: nat,
    acc: (Seq<Bool>, Seq<Bool>),
    t: Seq<nat>,
) -> (Seq<Bool>, Seq<Bool>) {
    let sw = swap_atoms(t, p, c);
    if sw == t {
        acc
    } else {
        let e = cell_spec(bound, prims, r, t);
        let q = cell_spec(bound, prims, r, sw);
        if mirrored(acc, q, e) {
            acc
        } else {
            (acc.0.push(e), acc.1.push(q))
        }
    }
}

/// The lists after considering the tuples `ts` of relation `r`, in order.
pub open spec fn relation_spec(
    bound: RelBound,
    prims: Seq<TupleMap<Var>>,
    r: RelId,
    p: nat,
    c: nat,
    acc: (Seq<Bool>, Seq<Bool>),
    ts: Seq<Seq<nat>>,
) -> (Seq<Bool>, Seq<Bool>)
    decreases ts.len(),
{
    if ts.len() == 0 {
        acc
    } else {
        step_spec(bound, prims, r, p, c, relation_spec(bound, prims, r, p, c, acc, ts.drop_last()), ts.last())
    }
}

/// Relation `r` is bound and some atom of some upper tuple lies in `class`.
pub open spec fn touches(bounds: Bounds, r: RelId, class: Seq<nat>) -> bool {
    &&& bounds@.contains_key(r.index as nat)
    &&& exists|t: Seq<nat>, i: int|
        #![trigger bounds@[r.index as nat].hi()@.contains(t), class.contains(t[i])]
        bounds@[r.index as nat].hi()@.contains(t) && 0 <= i < t.len() && class.contains(t[i])
}

/// The two lists for the pair `(p, c)` of `class`, over the relations `parts`.
pub open spec fn pair_lists(
    bounds: Bounds,
    prims: Seq<TupleMap<Var>>,
    parts: Seq<RelId>,
    class: Seq<nat>,
    p: nat,
    c: nat,
    cap: nat,
) -> (Seq<Bool>, Seq<Bool>)
    decreases parts.len(),
{
    if parts.len() == 0 {
        (seq![], seq![])
    } else {
        let acc = pair_lists(bounds, prims, parts.drop_last(), class, p, c, cap);
        let r = parts.last();
        if acc.0.len() >= cap || !touches(bounds, r, class) {
            acc
        } else {
            let b = bounds@[r.index as nat];
            relation_spec(b, prims, r, p, c, acc, b.hi().ordered())
        }
    }
}

/// The lists of the `j`-th neighbour pair of `class`.
pub open spec fn neighbour_lists(
    bounds: Bounds,
    prims: Seq<TupleMap<Var>>,
    parts: Seq<RelId>,
    class: Seq<nat>,
    j: int,
    cap: nat,
) -> (Seq<Bool>, Seq<Bool>) {
    pair_lists(bounds, prims, parts, class, class[j], class[j + 1], cap)
}

/// The predicate holds: for every class and neighbour pair, the original
/// list is lexicographically at most the permuted one.
pub open spec fn sbp_spec(
    bounds: Bounds,
    prims: Seq<TupleMap<Var>>,
    parts: Seq<RelId>,
    classes: Seq<Seq<nat>>,
    cap: nat,
    s: Assignment,
) -> bool {
    forall|k: int, j: int|
        0 <= k < classes.len() && 0 <= j && j + 1 < classes[k].len() ==> {
            let l = #[trigger] neighbour_lists(bounds, prims, parts, classes[k], j, cap);
            lex_leq_spec(l.0, l.1, s)
        }
}

/// Variables the comparisons of the first `j` pairs of `class` may add.
pub open spec fn class_cost(
    bounds: Bounds,
    prims: Seq<TupleMap<Var>>,
    parts: Seq<RelId>,
    class: Seq<nat>,
    cap: nat,
    j: int,
) -> nat
    decreases j,
{
    if j <= 0 {
        0
    } else {
        class_cost(bounds, prims, parts, class, cap, j - 1) + 6 * neighbour_lists(bounds, prims, parts, class, j - 1, cap).0.len() + 1
    }
}

/// Variables the comparisons of the first `k` classes may add.
pub open spec fn classes_cost(
    bounds: Bounds,
    prims: Seq<TupleMap<Var>>,
    parts: Seq<RelId>,
    classes: Seq<Seq<nat>>,
    cap: nat,
    k: int,
) -> nat
    decreases k,
{
    if k <= 0 {
        0
    } else {
        classes_cost(bounds, prims, parts, classes, cap, k - 1) + class_cost(
            bounds,
            prims,
            parts,
            classes[k - 1],
            cap,
            classes[k - 1].len() - 1,
        )
    }
}

/// The cell of `t` for relation `rel` (see [`cell_spec`]).
pub fn sbp_cell(bound: &RelBound, prims: &[TupleMap<Var>], rel: RelId, t: &Tuple) -> (b: Bool)
    requires
        bound.wf(),
        forall|r: int| 0 <= r < prims@.len() ==> (#[trigger] prims@[r]).wf(),
    ensures
        b == cell_spec(*bound, prims@, rel, t@),
{
    if bound.lower().contains(t) {
        return Bool::Const(true);
    }
    if rel.index < prims.len() {
        assert(prims@[rel.index as int].wf());
        match prims[rel.index].get(t) {
            Some(v) => Bool::var(*v),
            None => Bool::Const(false),
        }
    } else {
        Bool::Const(false)
    }
}

/// Whether atom `a` is one of `class`.
fn class_contains(class: &[AtomId], a: AtomId) -> (b: bool)
    ensures
        b == atom_indices(class@).contains(a.index as nat),
{
    let ghost cv = atom_indices(class@);
    let mut k: usize = 0;
    while k < class.len()
        invariant
            k <= class@.len(),
            cv == atom_indices(class@),
            forall|m: int| 0 <= m < k ==> cv[m] != a.index as nat,
        decreases class@.len() - k,
    {
        if class[k].index == a.index {
            assert(cv[k as int] == a.index as nat);
            return true;
        }
        k = k + 1;
    }
    false
}

/// Whether some atom of `t` is one of `class`.
fn tuple_touches(t: &Tuple, class: &[AtomId]) -> (b: bool)
    ensures
        b == exists|i: int| 0 <= i < t@.len() && atom_indices(class@).contains(#[trigger] t@[i]),
{
    let atoms = t.atoms();
    let mut i: usize = 0;
    while i < atoms.len()
        invariant
            i <= atoms@.len(),
            atom_indices(atoms@) == t@,
            forall|m: int| 0 <= m < i ==> !atom_indices(class@).contains(#[trigger] t@[m]),
        decreases atoms@.len() - i,
    {
        assert(t@[i as int] == atoms@[i as int].index as nat);
        if class_contains(class, atoms[i]) {
            return true;
        }
        i = i + 1;
    }
    false
}

/// Whether relation `rel` is bound and its upper bound touches `class`.
pub fn rel_touches_class(bounds: &Bounds, rel: RelId, class: &[AtomId]) -> (b: bool)
    requires
        bounds.wf(),
    ensures
        b == touches(*bounds, rel, atom_indices(class@)),
{
    let ghost cv = atom_indices(class@);
    match bounds.get(rel) {
        None => false,
        Some(bound) => {
            let upper = bound.upper();
            let tuples = upper.iter();
            let ghost ord = bound.hi().ordered();
            let mut k: usize = 0;
            while k < tuples.len()
                invariant
                    k <= tuples@.len(),
                    bounds.wf(),
                    bounds@.contains_key(rel.index as nat),
                    *bound == bounds@[rel.index as nat],
                    cv == atom_indices(class@),
                    *upper == bound.hi(),
                    upper.wf(),
                    crate::bounds::tuple_views(tuples@) == ord,
                    ord == bound.hi().ordered(),
                    forall|m: int, i: int| 0 <= m < k && 0 <= i < ord[m].len() ==> !cv.contains(#[trigger] ord[m][i]),
                decreases tuples@.len() - k,
            {
                let tk = &tuples[k];
                assert(ord[k as int] == tk@);
                if tuple_touches(tk, class) {
                    proof {
                        let i = choose|i: int| 0 <= i < tk@.len() && cv.contains(#[trigger] tk@[i]);
                        assert(ord.contains(tk@));
                        assert(bound.hi()@.contains(tk@));
                        assert(cv.contains(tk@[i]));
                    }
                    return true;
                }
                k = k + 1;
            }
            proof {
                if touches(*bounds, rel, cv) {
                    let (t, i) = choose|t: Seq<nat>, i: int| bounds@[rel.index as nat].hi()@.contains(t) && 0 <= i < t.len() && cv.contains(t[i]);
                    assert(ord.contains(t));
                    let m = choose|m: int| 0 <= m < ord.len() && ord[m] == t;
                    assert(!cv.contains(ord[m][i]));
                }
            }
            false
        },
    }
}

/// Whether some accepted pair equals `(q, e)`.
fn is_mirrored(original: &Vec<Bool>, permuted: &Vec<Bool>, q: Bool, e: Bool) -> (b: bool)
    ensures
        b == mirrored((original@, permuted@), q, e),
{
    let mut k: usize = 0;
    while k < original.len() && k < permuted.len()
        invariant
            k <= original@.len(),
            k <= permuted@.len(),
            forall|m: int| 0 <= m < k ==> !(original@[m] == q && permuted@[m] == e),
        decreases original@.len() - k,
    {
        if original[k] == q && permuted[k] == e {
            assert((original@, permuted@).0[k as int] == q && (original@, permuted@).1[k as int] == e);
            return true;
        }
        k = k + 1;
    }
    false
}

/// Appends relation `rel`'s entries for the swap of `prev` and `cur`: its
/// upper tuples in ascending order, each the swap moves giving its own cell
/// and its image's cell, unless that pair mirrors one already taken. An
/// unbound relation adds nothing.
pub fn sbp_relation(
    bounds: &Bounds,
    prims: &[TupleMap<Var>],
    rel: RelId,
    prev: AtomId,
    cur: AtomId,
    original: &mut Vec<Bool>,
    permuted: &mut Vec<Bool>,
)
    requires
        bounds.wf(),
        forall|r: int| 0 <= r < prims@.len() ==> (#[trigger] prims@[r]).wf(),
        old(original)@.len() == old(permuted)@.len(),
    ensures
        final(original)@.len() == final(permuted)@.len(),
        (final(original)@, final(permuted)@) == if bounds@.contains_key(rel.index as nat) {
            relation_spec(
                bounds@[rel.index as nat],
                prims@,
                rel,
                prev.index as nat,
                cur.index as nat,
                (old(original)@, old(permuted)@),
                bounds@[rel.index as nat].hi().ordered(),
            )
        } else {
            (old(original)@, old(permuted)@)
        },
{
    match bounds.get(rel) {
        None => {},
        Some(bound) => {
            let upper = bound.upper();
            let tuples = upper.iter();
            let ghost ord = bound.hi().ordered();
            let ghost acc0 = (original@, permuted@);
            let ghost p = prev.index as nat;
            let ghost c = cur.index as nat;
            let mut i: usize = 0;
            proof {
                assert(ord.take(0) =~= Seq::<Seq<nat>>::empty());
            }
            while i < tuples.len()
                invariant
                    i <= tuples@.len(),
                    bound.wf(),
                    *upper == bound.hi(),
                    crate::bounds::tuple_views(tuples@) == ord,
                    ord == bound.hi().ordered(),
                    p == prev.index as nat,
                    c == cur.index as nat,
                    forall|r: int| 0 <= r < prims@.len() ==> (#[trigger] prims@[r]).wf(),
                    original@.len() == permuted@.len(),
                    (original@, permuted@) == relation_spec(*bound, prims@, rel, p, c, acc0, ord.take(i as int)),
                decreases tuples@.len() - i,
            {
                let t = &tuples[i];
                proof {
                    assert(ord[i as int] == t@);
                    assert(ord.take(i + 1).drop_last() =~= ord.take(i as int));
                    assert(ord.take(i + 1).last() == t@);
                    assert(bound.hi().wf());
                    assert(ord.contains(t@));
                    assert(bound.hi()@.contains(t@));
                    assert(t@.len() == bound.hi().ar());
                }
                let e = sbp_cell(bound, prims, rel, t);
                let sw = swap_tuple(t, prev, cur);
                match sw.compare(t) {
                    TupleOrder::Equal => {},
                    _ => {
                        let q = sbp_cell(bound, prims, rel, &sw);
                        if !is_mirrored(original, permuted, q, e) {
                            original.push(e);
                            permuted.push(q);
                        }
                    },
                }
                i = i + 1;
            }
            proof {
                assert(ord.take(i as int) =~= ord);
            }
        },
    }
}

/// Every neighbour pair before pair `j` of class `k`, in class order, holds.
pub open spec fn pairs_before(
    bounds: Bounds,
    prims: Seq<TupleMap<Var>>,
    parts: Seq<RelId>,
    classes: Seq<Seq<nat>>,
    cap: nat,
    k: int,
    j: int,
    s: Assignment,
) -> bool {
    forall|k2: int, j2: int|
        0 <= k2 < classes.len() && 0 <= j2 && j2 + 1 < classes[k2].len() && (k2 < k || (k2 == k && j2 < j)) ==> {
            let l = #[trigger] neighbour_lists(bounds, prims, parts, classes[k2], j2, cap);
            lex_leq_spec(l.0, l.1, s)
        }
}

proof fn lemma_cells_valid(
    bound: RelBound,
    prims: Seq<TupleMap<Var>>,
    r: RelId,
    p: nat,
    c: nat,
    acc: (Seq<Bool>, Seq<Bool>),
    ts: Seq<Seq<nat>>,
    n: nat,
)
    requires
        prims_ok(prims, n),
        all_valid(acc.0, n),
        all_valid(acc.1, n),
        acc.0.len() == acc.1.len(),
    ensures
        all_valid(relation_spec(bound, prims, r, p, c, acc, ts).0, n),
        all_valid(relation_spec(bound, prims, r, p, c, acc, ts).1, n),
        relation_spec(bound, prims, r, p, c, acc, ts).0.len() == relation_spec(bound, prims, r, p, c, acc, ts).1.len(),
        relation_spec(bound, prims, r, p, c, acc, ts).0.len() >= acc.0.len(),
    decreases ts.len(),
{
    if ts.len() > 0 {
        lemma_cells_valid(bound, prims, r, p, c, acc, ts.drop_last(), n);
        let a = relation_spec(bound, prims, r, p, c, acc, ts.drop_last());
        let t = ts.last();
        let sw = swap_atoms(t, p, c);
        let e = cell_spec(bound, prims, r, t);
        let q = cell_spec(bound, prims, r, sw);
        if r.index < prims.len() {
            assert(prims[r.index as int].wf());
        }
        assert(valid(e, n));
        assert(valid(q, n));
        if sw != t && !mirrored(a, q, e) {
            assert(all_valid(a.0.push(e), n)) by {
                assert forall|i: int| 0 <= i < a.0.push(e).len() implies valid(#[trigger] a.0.push(e)[i], n) by {
                    if i < a.0.len() {
                        assert(a.0.push(e)[i] == a.0[i]);
                    }
                }
            }
            assert(all_valid(a.1.push(q), n)) by {
                assert forall|i: int| 0 <= i < a.1.push(q).len() implies valid(#[trigger] a.1.push(q)[i], n) by {
                    if i < a.1.len() {
                        assert(a.1.push(q)[i] == a.1[i]);
                    }
                }
            }
        }
    }
}

proof fn lemma_pair_lists_valid(
    bounds: Bounds,
    prims: Seq<TupleMap<Var>>,
    parts: Seq<RelId>,
    class: Seq<nat>,
    p: nat,
    c: nat,
    cap: nat,
    n: nat,
)
    requires
        prims_ok(prims, n),
    ensures
        all_valid(pair_lists(bounds, prims, parts, class, p, c, cap).0, n),
        all_valid(pair_lists(bounds, prims, parts, class, p, c, cap).1, n),
        pair_lists(bounds, prims, parts, class, p, c, cap).0.len() == pair_lists(bounds, prims, parts, class, p, c, cap).1.len(),
    decreases parts.len(),
{
    if parts.len() > 0 {
        lemma_pair_lists_valid(bounds, prims, parts.drop_last(), class, p, c, cap, n);
        let acc = pair_lists(bounds, prims, parts.drop_last(), class, p, c, cap);
        let r = parts.last();
        let b = bounds@[r.index as nat];
        lemma_cells_valid(b, prims, r, p, c, acc, b.hi().ordered(), n);
    }
}

proof fn lemma_pair_lists_capped(
    bounds: Bounds,
    prims: Seq<TupleMap<Var>>,
    parts: Seq<RelId>,
    class: Seq<nat>,
    p: nat,
    c: nat,
    cap: nat,
    m: int,
)
    requires
        0 <= m <= parts.len(),
        pair_lists(bounds, prims, parts.take(m), class, p, c, cap).0.len() >= cap,
    ensures
        pair_lists(bounds, prims, parts, class, p, c, cap) == pair_lists(bounds, prims, parts.take(m), class, p, c, cap),
    decreases parts.len(),
{
    if m == parts.len() {
        assert(parts.take(m) =~= parts);
    } else {
        assert(parts.drop_last().take(m) =~= parts.take(m));
        lemma_pair_lists_capped(bounds, prims, parts.drop_last(), class, p, c, cap, m);
    }
}

proof fn lemma_class_cost_mono(
    bounds: Bounds,
    prims: Seq<TupleMap<Var>>,
    parts: Seq<RelId>,
    class: Seq<nat>,
    cap: nat,
    j1: int,
    j2: int,
)
    requires
        j1 <= j2,
    ensures
        class_cost(bounds, prims, parts, class, cap, j1) <= class_cost(bounds, prims, parts, class, cap, j2),
    decreases j2 - j1,
{
    if j1 < j2 {
        lemma_class_cost_mono(bounds, prims, parts, class, cap, j1, j2 - 1);
    }
}

proof fn lemma_classes_cost_mono(
    bounds: Bounds,
    prims: Seq<TupleMap<Var>>,
    parts: Seq<RelId>,
    classes: Seq<Seq<nat>>,
    cap: nat,
    k1: int,
    k2: int,
)
    requires
        k1 <= k2,
    ensures
        classes_cost(bounds, prims, parts, classes, cap, k1) <= classes_cost(bounds, prims, parts, classes, cap, k2),
    decreases k2 - k1,
{
    if k1 < k2 {
        lemma_classes_cost_mono(bounds, prims, parts, classes, cap, k1, k2 - 1);
    }
}

/// The two lists for the pair `(prev, cur)` of `class`: the contributing
/// relations in plan order, each skipped unless it touches the class, and
/// none started once the lists hold `cap` entries.
fn pair_cells(
    bounds: &Bounds,
    prims: &[TupleMap<Var>],
    parts: &[RelId],
    class: &[AtomId],
    prev: AtomId,
    cur: AtomId,
    cap: u32,
) -> (r: (Vec<Bool>, Vec<Bool>))
    requires
        bounds.wf(),
        forall|r: int| 0 <= r < prims@.len() ==> (#[trigger] prims@[r]).wf(),
    ensures
        (r.0@, r.1@) == pair_lists(*bounds, prims@, parts@, atom_indices(class@), prev.index as nat, cur.index as nat, cap as nat),
{
    let ghost cv = atom_indices(class@);
    let ghost p = prev.index as nat;
    let ghost c = cur.index as nat;
    let mut original: Vec<Bool> = Vec::new();
    let mut permuted: Vec<Bool> = Vec::new();
    let mut m: usize = 0;
    proof {
        assert(parts@.take(0) =~= Seq::<RelId>::empty());
    }
    while m < parts.len()
        invariant
            m <= parts@.len(),
            bounds.wf(),
            forall|r: int| 0 <= r < prims@.len() ==> (#[trigger] prims@[r]).wf(),
            cv == atom_indices(class@),
            p == prev.index as nat,
            c == cur.index as nat,
            original@.len() == permuted@.len(),
            (original@, permuted@) == pair_lists(*bounds, prims@, parts@.take(m as int), cv, p, c, cap as nat),
        decreases parts@.len() - m,
    {
        if original.len() >= cap as usize {
            proof {
                lemma_pair_lists_capped(*bounds, prims@, parts@, cv, p, c, cap as nat, m as int);
            }
            return (original, permuted);
        }
        let rel = parts[m];
        proof {
            assert(parts@.take(m + 1).drop_last() =~= parts@.take(m as int));
            assert(parts@.take(m + 1).last() == rel);
        }
        if rel_touches_class(bounds, rel, class) {
            sbp_relation(bounds, prims, rel, prev, cur, &mut original, &mut permuted);
        }
        m = m + 1;
    }
    proof {
        assert(parts@.take(m as int) =~= parts@);
    }
    (original, permuted)
}

/// The lex-leader predicate of `plan`: for every class and every pair of
/// neighbours in it, the lex-leq comparison of the pair's two lists, all
/// conjoined. `prims[r]` holds the primary variables of relation `r`
/// (none for a relation past the end).
pub fn generate_sbp(c: &mut Circuit, plan: &SbpPlan, bounds: &Bounds, prims: &[TupleMap<Var>], cap: u32) -> (r: Bool)
    requires
        old(c).wf(),
        bounds.wf(),
        prims_ok(prims@, old(c).nv()),
        old(c).nv() + classes_cost(*bounds, prims@, plan.parts(), plan.class_seqs(), cap as nat, plan.class_seqs().len() as int) + 1
            <= u32::MAX,
    ensures
        grown(old(c), final(c)),
        final(c).nv() <= old(c).nv() + classes_cost(*bounds, prims@, plan.parts(), plan.class_seqs(), cap as nat, plan.class_seqs().len() as int) + 1,
        valid(r, final(c).nv()),
        forall|s: Assignment| #[trigger] sat(final(c).cls(), s) ==> val(r, s) == sbp_spec(*bounds, prims@, plan.parts(), plan.class_seqs(), cap as nat, s),
{
    let ghost c0 = *c;
    let ghost n0 = c0.nv();
    let classes = plan.classes();
    let parts = plan.relparts();
    let ghost cls = plan.class_seqs();
    let ghost total = classes_cost(*bounds, prims@, parts@, cls, cap as nat, cls.len() as int);
    let mut clauses: Vec<Bool> = Vec::new();
    proof {
        lemma_grown_refl(&c0);
    }
    let mut k: usize = 0;
    while k < classes.len()
        invariant
            k <= classes@.len(),
            class_views(classes@) == cls,
            parts@ == plan.parts(),
            cls == plan.class_seqs(),
            total == classes_cost(*bounds, prims@, parts@, cls, cap as nat, cls.len() as int),
            bounds.wf(),
            prims_ok(prims@, n0),
            n0 == c0.nv(),
            n0 + total + 1 <= u32::MAX,
            grown(&c0, c),
            c.nv() <= n0 + classes_cost(*bounds, prims@, parts@, cls, cap as nat, k as int),
            all_valid(clauses@, c.nv()),
            forall|s: Assignment| #[trigger] sat(c.cls(), s) ==> (all_true(clauses@, s) == pairs_before(*bounds, prims@, parts@, cls, cap as nat, k as int, 0, s)),
        decreases classes@.len() - k,
    {
        let class = &classes[k];
        let ghost cv = cls[k as int];
        let ghost k_cost = classes_cost(*bounds, prims@, parts@, cls, cap as nat, k as int);
        proof {
            assert(cv == atom_indices(class@));
            lemma_classes_cost_mono(*bounds, prims@, parts@, cls, cap as nat, k + 1, cls.len() as int);
        }
        let mut j: usize = 0;
        while class.len() > 0 && j < class.len() - 1
            invariant
                k < classes@.len(),
                j + 1 <= class@.len() || j == 0,
                class == classes@[k as int],
                cv == cls[k as int],
                cv == atom_indices(class@),
                class_views(classes@) == cls,
                parts@ == plan.parts(),
                total == classes_cost(*bounds, prims@, parts@, cls, cap as nat, cls.len() as int),
                k_cost == classes_cost(*bounds, prims@, parts@, cls, cap as nat, k as int),
                k_cost + class_cost(*bounds, prims@, parts@, cv, cap as nat, cv.len() - 1) <= total,
                bounds.wf(),
                prims_ok(prims@, n0),
                n0 == c0.nv(),
                n0 + total + 1 <= u32::MAX,
                grown(&c0, c),
                c.nv() <= n0 + k_cost + class_cost(*bounds, prims@, parts@, cv, cap as nat, j as int),
                all_valid(clauses@, c.nv()),
                forall|s: Assignment| #[trigger] sat(c.cls(), s) ==> (all_true(clauses@, s) == pairs_before(*bounds, prims@, parts@, cls, cap as nat, k as int, j as int, s)),
            decreases class@.len() - j,
        {
            let prev = class[j];
            let cur = class[j + 1];
            let (original, permuted) = pair_cells(bounds, prims, parts, class, prev, cur, cap);
            let ghost lists = neighbour_lists(*bounds, prims@, parts@, cv, j as int, cap as nat);
            let ghost c1 = *c;
            proof {
                assert(cv[j as int] == prev.index as nat);
                assert(cv[j + 1] == cur.index as nat);
                assert((original@, permuted@) == lists);
                lemma_pair_lists_valid(*bounds, prims@, parts@, cv, prev.index as nat, cur.index as nat, cap as nat, n0);
                assert(all_valid(original@, c.nv())) by {
                    assert forall|i: int| 0 <= i < original@.len() implies valid(#[trigger] original@[i], c.nv()) by {
                        assert(valid(original@[i], n0));
                    }
                }
                assert(all_valid(permuted@, c.nv())) by {
                    assert forall|i: int| 0 <= i < permuted@.len() implies valid(#[trigger] permuted@[i], c.nv()) by {
                        assert(valid(permuted@[i], n0));
                    }
                }
                lemma_class_cost_mono(*bounds, prims@, parts@, cv, cap as nat, j + 1, cv.len() - 1);
                assert(class_cost(*bounds, prims@, parts@, cv, cap as nat, j + 1) == class_cost(*bounds, prims@, parts@, cv, cap as nat, j as int) + 6 * lists.0.len() + 1);
            }
            let leq = lex_leq(c, original.as_slice(), permuted.as_slice());
            proof {
                lemma_grown_trans(&c0, &c1, c);
                assert(all_valid(clauses@.push(leq), c.nv())) by {
                    assert forall|i: int| 0 <= i < clauses@.push(leq).len() implies valid(#[trigger] clauses@.push(leq)[i], c.nv()) by {
                        if i < clauses@.len() {
                            assert(valid(clauses@[i], c1.nv()));
                        }
                    }
                }
                assert forall|s: Assignment| #[trigger] sat(c.cls(), s) implies (all_true(clauses@.push(leq), s) == pairs_before(*bounds, prims@, parts@, cls, cap as nat, k as int, j + 1, s)) by {
                    lemma_sat_back(&c1, c, s);
                    assert(all_true(clauses@, s) == pairs_before(*bounds, prims@, parts@, cls, cap as nat, k as int, j as int, s));
                    assert(val(leq, s) == lex_leq_spec(lists.0, lists.1, s));
                    if all_true(clauses@.push(leq), s) {
                        assert forall|i: int| 0 <= i < clauses@.len() implies val(#[trigger] clauses@[i], s) by {
                            assert(clauses@.push(leq)[i] == clauses@[i]);
                        }
                        assert(val(clauses@.push(leq)[clauses@.len() as int], s));
                    }
                    if pairs_before(*bounds, prims@, parts@, cls, cap as nat, k as int, j + 1, s) {
                        assert(lex_leq_spec(lists.0, lists.1, s));
                        assert(pairs_before(*bounds, prims@, parts@, cls, cap as nat, k as int, j as int, s));
                        assert forall|i: int| 0 <= i < clauses@.push(leq).len() implies val(#[trigger] clauses@.push(leq)[i], s) by {
                            if i < clauses@.len() {
                                assert(clauses@.push(leq)[i] == clauses@[i]);
                            }
                        }
                    }
                }
            }
            clauses.push(leq);
            j = j + 1;
        }
        proof {
            assert forall|s: Assignment| #[trigger] sat(c.cls(), s) implies (all_true(clauses@, s) == pairs_before(*bounds, prims@, parts@, cls, cap as nat, k + 1, 0, s)) by {
                assert(pairs_before(*bounds, prims@, parts@, cls, cap as nat, k as int, j as int, s) == pairs_before(*bounds, prims@, parts@, cls, cap as nat, k + 1, 0, s));
            }
            if cv.len() >= 1 {
                lemma_class_cost_mono(*bounds, prims@, parts@, cv, cap as nat, j as int, cv.len() - 1);
            }
        }
        k = k + 1;
    }
    let ghost c1 = *c;
    let r = c.and_many(clauses);
    proof {
        lemma_grown_trans(&c0, &c1, c);
        assert forall|s: Assignment| #[trigger] sat(c.cls(), s) implies val(r, s) == sbp_spec(*bounds, prims@, parts@, cls, cap as nat, s) by {
            lemma_sat_back(&c1, c, s);
            assert(pairs_before(*bounds, prims@, parts@, cls, cap as nat, k as int, 0, s) == sbp_spec(*bounds, prims@, parts@, cls, cap as nat, s));
        }
    }
    r
}

/// The plan yields no bits (see [`SbpPlan::is_trivial`]).
pub open spec fn plan_trivial(plan: &SbpPlan) -> bool {
    plan.parts().len() == 0 || forall|i: int| 0 <= i < plan.class_seqs().len() ==> (#[trigger] plan.class_seqs()[i]).len() < 2
}

/// Symmetry breaking applies: the goal did not fold to a constant, there is
/// a plan that yields bits, and the cap is positive.
pub open spec fn sbp_applies(goal: Bool, plan: Option<&SbpPlan>, symmetry: u32) -> bool {
    &&& goal is Lit
    &&& plan is Some
    &&& !plan_trivial(plan.unwrap())
    &&& symmetry > 0
}

/// Conjoins the goal with the lex-leader predicate of `plan`, capped at
/// `symmetry` entries per pair, when symmetry breaking applies; a goal that
/// folded to a constant, a missing or trivial plan, or a zero cap leave the
/// goal and the circuit as they are.
pub fn conjoin_sbp(
    c: &mut Circuit,
    goal: Bool,
    plan: Option<&SbpPlan>,
    symmetry: u32,
    bounds: &Bounds,
    prims: &[TupleMap<Var>],
) -> (r: Bool)
    requires
        old(c).wf(),
        valid(goal, old(c).nv()),
        bounds.wf(),
        prims_ok(prims@, old(c).nv()),
        match plan {
            Some(p) => old(c).nv() + classes_cost(*bounds, prims@, p.parts(), p.class_seqs(), symmetry as nat, p.class_seqs().len() as int) + 2
                <= u32::MAX,
            None => true,
        },
    ensures
        grown(old(c), final(c)),
        valid(r, final(c).nv()),
        if sbp_applies(goal, plan, symmetry) {
            forall|s: Assignment| #[trigger] sat(final(c).cls(), s) ==> val(r, s) == (val(goal, s) && sbp_spec(
                *bounds,
                prims@,
                plan.unwrap().parts(),
                plan.unwrap().class_seqs(),
                symmetry as nat,
                s,
            ))
        } else {
            r == goal && *final(c) == *old(c)
        },
{
    let ghost c0 = *c;
    proof {
        lemma_grown_refl(&c0);
    }
    match goal {
        Bool::Lit(_) => match plan {
            Some(p) => {
                if !p.is_trivial() && symmetry > 0 {
                    let sb = generate_sbp(c, p, bounds, prims, symmetry);
                    let ghost c1 = *c;
                    let r = c.and(goal, sb);
                    proof {
                        lemma_grown_trans(&c0, &c1, c);
                        assert forall|s: Assignment| #[trigger] sat(c.cls(), s) implies val(r, s) == (val(goal, s) && sbp_spec(*bounds, prims@, p.parts(), p.class_seqs(), symmetry as nat, s)) by {
                            lemma_sat_back(&c1, c, s);
                        }
                    }
                    r
                } else {
                    goal
                }
            },
            None => goal,
        },
        Bool::Const(_) => goal,
    }
}

} // verus!
