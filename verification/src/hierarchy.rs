//! Atom bounds over the signature hierarchy.
//!
//! Each signature that can be scoped gets a lower bound (the atoms it must
//! hold) and an upper bound (the atoms it may hold), as unary tuple sets.
//! Lower bounds go bottom-up: a signature must hold what its children must,
//! plus its own atoms when its scope is exact. Upper bounds start from the
//! children's lower bounds and the signature's own atoms, then go top-down:
//! a child that can still grow (its scope exceeds its lower bound) may also
//! take any atom of its parent that no child must hold.

use vstd::prelude::*;

use crate::bounds::{AtomId, Tuple, TupleSet};

use crate::eval::{diff, union};

verus! {

broadcast use TupleSet::lemma_wf;

/// What the atom bounds read of one signature.
#[derive(Copy, Clone, PartialEq, Eq, Debug, Structural)]
pub struct SigInfo {
    /// The signature it extends, by position, if any.
    pub parent: Option<usize>,
    /// Whether it is a primitive, non-builtin signature (one that gets
    /// atoms of its own).
    pub scopable: bool,
    /// Whether it extends the universe directly.
    pub top_level: bool,
    /// The first of the atoms minted for it.
    pub minted_first: usize,
    /// How many atoms were minted for it.
    pub minted_count: usize,
    /// Whether its scope is exact.
    pub exact: bool,
    /// Its scope.
    pub scope: u32,
}

/// Signature `i` is a child of `p`: scopable, and extending `p`.
pub open spec fn is_kid(sigs: Seq<SigInfo>, p: nat, i: nat) -> bool {
    sigs[i as int].scopable && sigs[i as int].parent == Some(p as usize)
}

/// The children of `p` among the first `m` signatures, in order.
pub open spec fn kids_upto(sigs: Seq<SigInfo>, p: nat, m: nat) -> Seq<nat>
    decreases m,
{
    if m == 0 {
        Seq::empty()
    } else {
        let rest = kids_upto(sigs, p, (m - 1) as nat);
        if is_kid(sigs, p, (m - 1) as nat) {
            rest.push((m - 1) as nat)
        } else {
            rest
        }
    }
}

/// The children of `p`, in order.
pub open spec fn kids_of(sigs: Seq<SigInfo>, p: nat) -> Seq<nat> {
    kids_upto(sigs, p, sigs.len())
}

/// Every parent is a valid position of higher rank than its child.
pub open spec fn ranked(sigs: Seq<SigInfo>, rank: spec_fn(nat) -> nat) -> bool {
    forall|i: nat|
        #![trigger sigs[i as int].parent]
        i < sigs.len() && sigs[i as int].parent is Some ==> (sigs[i as int].parent->0 as nat) < sigs.len() && rank(
            sigs[i as int].parent->0 as nat,
        ) > rank(i)
}

/// The hierarchy has no cycle: some rank shows it.
pub open spec fn acyclic(sigs: Seq<SigInfo>) -> bool {
    exists|rank: spec_fn(nat) -> nat| ranked(sigs, rank)
}

/// The unary tuples of the atoms minted for a signature.
pub open spec fn minted(si: SigInfo) -> Set<Seq<nat>> {
    Set::new(|t: Seq<nat>| t.len() == 1 && si.minted_first <= t[0] < si.minted_first + si.minted_count)
}

/// The lower bound of child `c` of `p` (none where the rank does not
/// decrease, which a ranked hierarchy rules out).
pub open spec fn low_child(sigs: Seq<SigInfo>, rank: spec_fn(nat) -> nat, p: nat, c: nat) -> Set<Seq<nat>>
    decreases rank(p), 0nat, 0nat,
{
    if rank(c) < rank(p) {
        low(sigs, rank, c)
    } else {
        Set::empty()
    }
}

/// The lower bounds of the children `cs` of `p`, together.
pub open spec fn low_list(sigs: Seq<SigInfo>, rank: spec_fn(nat) -> nat, p: nat, cs: Seq<nat>) -> Set<Seq<nat>>
    decreases rank(p), 1nat, cs.len(),
{
    if cs.len() == 0 {
        Set::empty()
    } else {
        low_list(sigs, rank, p, cs.drop_last()).union(low_child(sigs, rank, p, cs.last()))
    }
}

/// A signature's lower bound: its children's, and its own atoms when its
/// scope is exact.
pub open spec fn low(sigs: Seq<SigInfo>, rank: spec_fn(nat) -> nat, s: nat) -> Set<Seq<nat>>
    decreases rank(s), 2nat, 0nat,
{
    if s >= sigs.len() {
        Set::empty()
    } else {
        let kids = low_list(sigs, rank, s, kids_of(sigs, s));
        if sigs[s as int].exact {
            kids.union(minted(sigs[s as int]))
        } else {
            kids
        }
    }
}

/// A signature's upper bound before growth: its children's lower bounds and
/// its own atoms.
pub open spec fn up0(sigs: Seq<SigInfo>, rank: spec_fn(nat) -> nat, s: nat) -> Set<Seq<nat>> {
    low_list(sigs, rank, s, kids_of(sigs, s)).union(minted(sigs[s as int]))
}

/// A child can still grow: its scope exceeds the size of its lower bound.
pub open spec fn grows(sigs: Seq<SigInfo>, rank: spec_fn(nat) -> nat, s: nat) -> bool {
    sigs[s as int].scope > low(sigs, rank, s).len()
}

/// The atoms of `p`'s upper bound that none of its children must hold.
pub open spec fn floating(sigs: Seq<SigInfo>, rank: spec_fn(nat) -> nat, top: nat, p: nat) -> Set<Seq<nat>>
    decreases top - rank(p), 1nat,
{
    up(sigs, rank, top, p).difference(low_list(sigs, rank, p, kids_of(sigs, p)))
}

/// A signature's upper bound: its bound before growth, and, for a child
/// that can still grow, its parent's floating atoms. `top` bounds every
/// rank.
pub open spec fn up(sigs: Seq<SigInfo>, rank: spec_fn(nat) -> nat, top: nat, s: nat) -> Set<Seq<nat>>
    decreases top - rank(s), 0nat,
{
    let si = sigs[s as int];
    if !si.top_level && si.parent is Some && rank(si.parent->0 as nat) > rank(s) && rank(si.parent->0 as nat) <= top && grows(
        sigs,
        rank,
        s,
    ) {
        up0(sigs, rank, s).union(floating(sigs, rank, top, si.parent->0 as nat))
    } else {
        up0(sigs, rank, s)
    }
}

/// A signature gets bounds: it is scopable, and it extends the universe or
/// a signature that gets bounds.
pub open spec fn visited(sigs: Seq<SigInfo>, rank: spec_fn(nat) -> nat, top: nat, s: nat) -> bool
    decreases top - rank(s),
{
    let si = sigs[s as int];
    &&& si.scopable
    &&& (si.top_level || (si.parent is Some && rank(si.parent->0 as nat) > rank(s) && rank(si.parent->0 as nat) <= top
        && visited(sigs, rank, top, si.parent->0 as nat)))
}

/// Positions as natural numbers.
pub open spec fn nats(s: Seq<usize>) -> Seq<nat> {
    s.map_values(|x: usize| x as nat)
}

/// The children of every signature, in order.
fn children_of(sigs: &[SigInfo]) -> (kids: Vec<Vec<usize>>)
    ensures
        kids@.len() == sigs@.len(),
        forall|p: int| 0 <= p < sigs@.len() ==> nats((#[trigger] kids@[p])@) == kids_of(sigs@, p as nat),
{
    let n = sigs.len();
    let mut kids: Vec<Vec<usize>> = Vec::new();
    let mut p: usize = 0;
    while p < n
        invariant
            p <= n,
            n == sigs@.len(),
            kids@.len() == p,
            forall|q: int| 0 <= q < p ==> (#[trigger] kids@[q])@.len() == 0,
        decreases n - p,
    {
        kids.push(Vec::new());
        p = p + 1;
    }
    let mut i: usize = 0;
    while i < n
        invariant
            i <= n,
            n == sigs@.len(),
            kids@.len() == n,
            forall|q: int| 0 <= q < n ==> nats((#[trigger] kids@[q])@) == kids_upto(sigs@, q as nat, i as nat),
        decreases n - i,
    {
        let si = sigs[i];
        if si.scopable {
            if let Some(p) = si.parent {
                if p < n {
                    let ghost before = kids@;
                    kids[p].push(i);
                    proof {
                        assert forall|q: int| 0 <= q < n implies nats((#[trigger] kids@[q])@) == kids_upto(
                            sigs@,
                            q as nat,
                            (i + 1) as nat,
                        ) by {
                            if q == p {
                                assert(kids@[q]@ == before[q]@.push(i));
                                assert(nats(kids@[q]@) =~= nats(before[q]@).push(
                                    i as nat,
                                ));
                            } else {
                                assert(kids@[q] == before[q]);
                                assert(!is_kid(sigs@, q as nat, i as nat));
                            }
                        }
                    }
                }
            }
        }
        proof {
            assert forall|q: int| 0 <= q < n implies nats((#[trigger] kids@[q])@) == kids_upto(
                sigs@,
                q as nat,
                (i + 1) as nat,
            ) by {
                if !is_kid(sigs@, q as nat, i as nat) {
                    assert(kids_upto(sigs@, q as nat, (i + 1) as nat) == kids_upto(sigs@, q as nat, i as nat));
                }
            }
        }
        i = i + 1;
    }
    kids
}

/// A rank that shows the hierarchy acyclic.
pub open spec fn rank_of(sigs: Seq<SigInfo>) -> spec_fn(nat) -> nat {
    choose|rank: spec_fn(nat) -> nat| ranked(sigs, rank)
}

/// The largest of the first `n` ranks.
pub open spec fn max_rank(rank: spec_fn(nat) -> nat, n: nat) -> nat
    decreases n,
{
    if n == 0 {
        0
    } else {
        let m = max_rank(rank, (n - 1) as nat);
        if rank((n - 1) as nat) > m {
            rank((n - 1) as nat)
        } else {
            m
        }
    }
}

/// A bound on the rank of every signature.
pub open spec fn top_of(sigs: Seq<SigInfo>) -> nat {
    max_rank(rank_of(sigs), sigs.len())
}

/// What the atom bounds need of the hierarchy: no cycle, and minted atom
/// positions that fit a `usize`.
pub open spec fn hierarchy_wf(sigs: Seq<SigInfo>) -> bool {
    &&& acyclic(sigs)
    &&& forall|i: int| 0 <= i < sigs.len() ==> (#[trigger] sigs[i]).minted_first + sigs[i].minted_count <= usize::MAX
}

proof fn lemma_max_rank(rank: spec_fn(nat) -> nat, n: nat, i: nat)
    requires
        i < n,
    ensures
        rank(i) <= max_rank(rank, n),
    decreases n,
{
    if i < n - 1 {
        lemma_max_rank(rank, (n - 1) as nat, i);
    }
}

/// Every listed child of `p` comes before `m` and is a child of `p`; every
/// child of `p` before `m` is listed.
proof fn lemma_kids_upto(sigs: Seq<SigInfo>, p: nat, m: nat)
    requires
        m <= sigs.len(),
    ensures
        forall|k: int|
            0 <= k < kids_upto(sigs, p, m).len() ==> #[trigger] kids_upto(sigs, p, m)[k] < m && is_kid(
                sigs,
                p,
                kids_upto(sigs, p, m)[k],
            ),
        forall|c: nat| c < m && is_kid(sigs, p, c) ==> kids_upto(sigs, p, m).contains(c),
    decreases m,
{
    if m > 0 {
        lemma_kids_upto(sigs, p, (m - 1) as nat);
        let rest = kids_upto(sigs, p, (m - 1) as nat);
        assert forall|c: nat| c < m && is_kid(sigs, p, c) implies kids_upto(sigs, p, m).contains(c) by {
            if c < m - 1 {
                let k = choose|k: int| 0 <= k < rest.len() && rest[k] == c;
                if is_kid(sigs, p, (m - 1) as nat) {
                    assert(kids_upto(sigs, p, m)[k] == c);
                }
            } else {
                assert(kids_upto(sigs, p, m).last() == c);
            }
        }
    }
}

/// The context the recursive helpers share: a rank that orders the
/// hierarchy, a bound on every rank, and minted atoms that fit.
spec fn ctx(sigs: Seq<SigInfo>, rank: spec_fn(nat) -> nat, top: nat) -> bool {
    &&& ranked(sigs, rank)
    &&& forall|i: nat| i < sigs.len() ==> #[trigger] rank(i) <= top
    &&& forall|i: int| 0 <= i < sigs.len() ==> (#[trigger] sigs[i]).minted_first + sigs[i].minted_count <= usize::MAX
}

/// The children lists hold, for every signature, its children in order.
spec fn kids_ok(sigs: Seq<SigInfo>, kids: Seq<Vec<usize>>) -> bool {
    &&& kids.len() == sigs.len()
    &&& forall|p: int| 0 <= p < sigs.len() ==> nats((#[trigger] kids[p])@) == kids_of(sigs, p as nat)
}

/// A signature's lower bound, and its children's lower bounds together.
struct Lowered {
    own: TupleSet,
    kids: TupleSet,
}

spec fn lowered_is(sigs: Seq<SigInfo>, rank: spec_fn(nat) -> nat, s: nat, l: Lowered) -> bool {
    &&& l.own.wf()
    &&& l.own.ar() == 1
    &&& l.own@ == low(sigs, rank, s)
    &&& l.kids.wf()
    &&& l.kids.ar() == 1
    &&& l.kids@ == low_list(sigs, rank, s, kids_of(sigs, s))
}

spec fn lows_ok(sigs: Seq<SigInfo>, rank: spec_fn(nat) -> nat, lows: Seq<Option<Lowered>>) -> bool {
    &&& lows.len() == sigs.len()
    &&& forall|i: int| 0 <= i < lows.len() && (#[trigger] lows[i]) is Some ==> lowered_is(sigs, rank, i as nat, lows[i]->0)
}

spec fn ups_ok(sigs: Seq<SigInfo>, rank: spec_fn(nat) -> nat, top: nat, ups: Seq<Option<TupleSet>>) -> bool {
    &&& ups.len() == sigs.len()
    &&& forall|i: int|
        0 <= i < ups.len() && (#[trigger] ups[i]) is Some ==> {
            let u = ups[i]->0;
            u.wf() && u.ar() == 1 && u@ == up(sigs, rank, top, i as nat)
        }
}

/// The unary tuples of the atoms minted for `si`.
fn minted_atoms(si: &SigInfo) -> (s: TupleSet)
    requires
        si.minted_first + si.minted_count <= usize::MAX,
    ensures
        s.wf(),
        s.ar() == 1,
        s@ == minted(*si),
{
    let mut set = TupleSet::empty(1);
    let mut k: usize = 0;
    while k < si.minted_count
        invariant
            k <= si.minted_count,
            si.minted_first + si.minted_count <= usize::MAX,
            set.wf(),
            set.ar() == 1,
            set@ == Set::new(|t: Seq<nat>| t.len() == 1 && si.minted_first <= t[0] < si.minted_first + k),
        decreases si.minted_count - k,
    {
        let t = Tuple::new(vec![AtomId::from_index(si.minted_first + k)]);
        let ghost tv = t@;
        assert(tv =~= seq![(si.minted_first + k) as nat]);
        let ghost before = set@;
        set.insert(t);
        k = k + 1;
        proof {
            let target = Set::new(|t: Seq<nat>| t.len() == 1 && si.minted_first <= t[0] < si.minted_first + k);
            assert forall|u: Seq<nat>| target.contains(u) implies set@.contains(u) by {
                if u[0] == si.minted_first + k - 1 {
                    assert(u =~= tv);
                } else {
                    assert(before.contains(u));
                }
            }
            assert(set@ =~= target);
        }
    }
    assert(set@ =~= minted(*si));
    set
}

/// The lower bound of `s` and of its children together, memoised in
/// `lows`.
fn lower_of(
    sigs: &[SigInfo],
    kids: &Vec<Vec<usize>>,
    s: usize,
    lows: &mut Vec<Option<Lowered>>,
    Ghost(rank): Ghost<spec_fn(nat) -> nat>,
    Ghost(top): Ghost<nat>,
) -> (lo: Lowered)
    requires
        s < sigs@.len(),
        ctx(sigs@, rank, top),
        kids_ok(sigs@, kids@),
        lows_ok(sigs@, rank, old(lows)@),
    ensures
        lows_ok(sigs@, rank, final(lows)@),
        lowered_is(sigs@, rank, s as nat, lo),
    decreases rank(s as nat),
{
    if let Some(l) = &lows[s] {
        return Lowered { own: l.own.duplicate(), kids: l.kids.duplicate() };
    }
    let ks = &kids[s];
    let ghost cs = kids_of(sigs@, s as nat);
    proof {
        lemma_kids_upto(sigs@, s as nat, sigs@.len());
        assert(nats(ks@) == cs);
    }
    let mut acc = TupleSet::empty(1);
    let mut j: usize = 0;
    while j < ks.len()
        invariant
            s < sigs@.len(),
            ctx(sigs@, rank, top),
            kids_ok(sigs@, kids@),
            ks == kids@[s as int],
            cs == kids_of(sigs@, s as nat),
            nats(ks@) == cs,
            forall|k: int| 0 <= k < cs.len() ==> #[trigger] cs[k] < sigs@.len() && is_kid(sigs@, s as nat, cs[k]),
            lows_ok(sigs@, rank, lows@),
            j <= ks@.len(),
            acc.wf(),
            acc.ar() == 1,
            acc@ == low_list(sigs@, rank, s as nat, cs.take(j as int)),
        decreases ks@.len() - j,
    {
        let c = ks[j];
        proof {
            assert(cs[j as int] == c as nat);
            assert(sigs@[c as int].parent == Some(s));
        }
        let lc = lower_of(sigs, kids, c, lows, Ghost(rank), Ghost(top));
        let ghost prev = acc@;
        acc = union(&acc, &lc.own);
        proof {
            let next = cs.take(j + 1);
            assert(next.drop_last() =~= cs.take(j as int));
            assert(next.last() == c as nat);
            assert(rank(c as nat) < rank(s as nat));
            assert(low_child(sigs@, rank, s as nat, c as nat) == low(sigs@, rank, c as nat));
            assert(low_list(sigs@, rank, s as nat, next) == low_list(sigs@, rank, s as nat, next.drop_last()).union(
                low_child(sigs@, rank, s as nat, next.last()),
            ));
            assert(acc@ == prev + lc.own@);
        }
        j = j + 1;
    }
    assert(cs.take(j as int) =~= cs);
    let kids_low = acc.duplicate();
    let own = if sigs[s].exact {
        let m = minted_atoms(&sigs[s]);
        union(&acc, &m)
    } else {
        acc
    };
    lows.set(s, Some(Lowered { own: own.duplicate(), kids: kids_low.duplicate() }));
    Lowered { own, kids: kids_low }
}

/// Whether `s` gets bounds.
fn visited_of(sigs: &[SigInfo], s: usize, Ghost(rank): Ghost<spec_fn(nat) -> nat>, Ghost(top): Ghost<nat>) -> (b: bool)
    requires
        s < sigs@.len(),
        ctx(sigs@, rank, top),
    ensures
        b == visited(sigs@, rank, top, s as nat),
    decreases top - rank(s as nat),
{
    let si = sigs[s];
    if !si.scopable {
        return false;
    }
    if si.top_level {
        return true;
    }
    match si.parent {
        None => false,
        Some(p) => {
            assert(sigs@[s as int].parent == Some(p));
            assert(rank(p as nat) <= top);
            visited_of(sigs, p, Ghost(rank), Ghost(top))
        },
    }
}

/// The upper bound of `s`, memoised in `ups`.
fn upper_of(
    sigs: &[SigInfo],
    kids: &Vec<Vec<usize>>,
    s: usize,
    lows: &mut Vec<Option<Lowered>>,
    ups: &mut Vec<Option<TupleSet>>,
    Ghost(rank): Ghost<spec_fn(nat) -> nat>,
    Ghost(top): Ghost<nat>,
) -> (u: TupleSet)
    requires
        s < sigs@.len(),
        ctx(sigs@, rank, top),
        kids_ok(sigs@, kids@),
        lows_ok(sigs@, rank, old(lows)@),
        ups_ok(sigs@, rank, top, old(ups)@),
    ensures
        lows_ok(sigs@, rank, final(lows)@),
        ups_ok(sigs@, rank, top, final(ups)@),
        u.wf(),
        u.ar() == 1,
        u@ == up(sigs@, rank, top, s as nat),
    decreases top - rank(s as nat),
{
    if let Some(u) = &ups[s] {
        return u.duplicate();
    }
    let ls = lower_of(sigs, kids, s, lows, Ghost(rank), Ghost(top));
    let m = minted_atoms(&sigs[s]);
    let mut u = union(&ls.kids, &m);
    let si = sigs[s];
    if !si.top_level {
        if let Some(p) = si.parent {
            if si.scope as usize > ls.own.len() {
                assert(sigs@[s as int].parent == Some(p));
                assert(rank(p as nat) <= top);
                let pu = upper_of(sigs, kids, p, lows, ups, Ghost(rank), Ghost(top));
                let pl = lower_of(sigs, kids, p, lows, Ghost(rank), Ghost(top));
                let floating = diff(&pu, &pl.kids);
                u = union(&u, &floating);
            }
        }
    }
    ups.set(s, Some(u.duplicate()));
    u
}

/// The atom bounds of one signature: the atoms it must hold and the atoms
/// it may hold, as unary tuple sets.
pub struct AtomBounds {
    /// The atoms it must hold.
    pub lower: TupleSet,
    /// The atoms it may hold.
    pub upper: TupleSet,
}

/// The atom bounds of every signature that gets them (`None` for the
/// others), by position.
pub fn compute_atom_bounds(sigs: &[SigInfo]) -> (res: Vec<Option<AtomBounds>>)
    requires
        hierarchy_wf(sigs@),
    ensures
        res@.len() == sigs@.len(),
        forall|i: int|
            0 <= i < sigs@.len() ==> ((#[trigger] res@[i]) is Some <==> visited(sigs@, rank_of(sigs@), top_of(sigs@), i as nat)),
        forall|i: int|
            0 <= i < sigs@.len() && (#[trigger] res@[i]) is Some ==> {
                let b = res@[i]->0;
                &&& b.lower.wf()
                &&& b.lower.ar() == 1
                &&& b.lower@ == low(sigs@, rank_of(sigs@), i as nat)
                &&& b.upper.wf()
                &&& b.upper.ar() == 1
                &&& b.upper@ == up(sigs@, rank_of(sigs@), top_of(sigs@), i as nat)
            },
        forall|i: int, p: int, t: Seq<nat>|
            #![trigger res@[i], res@[p], sigs@[i].parent, res@[p]->0.upper@.contains(t)]
            0 <= i < sigs@.len() && 0 <= p < sigs@.len() && res@[i] is Some && res@[p] is Some && !sigs@[i].top_level
                && sigs@[i].parent == Some(p as usize) && sigs@[i].scope > res@[i]->0.lower@.len() && res@[p]->0.upper@.contains(t)
                && (forall|k: int|
                0 <= k < sigs@.len() && is_kid(sigs@, p as nat, k as nat) && res@[k] is Some ==> !(#[trigger] res@[k]->0.lower@).contains(
                    t,
                )) ==> res@[i]->0.upper@.contains(t),
{
    let ghost rank = rank_of(sigs@);
    let ghost top = top_of(sigs@);
    proof {
        assert(ranked(sigs@, rank));
        assert forall|i: nat| i < sigs@.len() implies #[trigger] rank(i) <= top by {
            lemma_max_rank(rank, sigs@.len(), i);
        }
    }
    let n = sigs.len();
    let kids = children_of(sigs);
    let mut lows: Vec<Option<Lowered>> = Vec::new();
    let mut ups: Vec<Option<TupleSet>> = Vec::new();
    let mut i: usize = 0;
    while i < n
        invariant
            i <= n,
            n == sigs@.len(),
            lows@.len() == i,
            ups@.len() == i,
            forall|k: int| 0 <= k < i ==> (#[trigger] lows@[k]) is None,
            forall|k: int| 0 <= k < i ==> (#[trigger] ups@[k]) is None,
        decreases n - i,
    {
        lows.push(None);
        ups.push(None);
        i = i + 1;
    }
    let mut res: Vec<Option<AtomBounds>> = Vec::new();
    let mut i: usize = 0;
    while i < n
        invariant
            i <= n,
            n == sigs@.len(),
            ctx(sigs@, rank, top),
            rank == rank_of(sigs@),
            top == top_of(sigs@),
            kids_ok(sigs@, kids@),
            lows_ok(sigs@, rank, lows@),
            ups_ok(sigs@, rank, top, ups@),
            res@.len() == i,
            forall|k: int| 0 <= k < i ==> ((#[trigger] res@[k]) is Some <==> visited(sigs@, rank, top, k as nat)),
            forall|k: int|
                0 <= k < i && (#[trigger] res@[k]) is Some ==> {
                    let b = res@[k]->0;
                    &&& b.lower.wf()
                    &&& b.lower.ar() == 1
                    &&& b.lower@ == low(sigs@, rank, k as nat)
                    &&& b.upper.wf()
                    &&& b.upper.ar() == 1
                    &&& b.upper@ == up(sigs@, rank, top, k as nat)
                },
        decreases n - i,
    {
        if visited_of(sigs, i, Ghost(rank), Ghost(top)) {
            let l = lower_of(sigs, &kids, i, &mut lows, Ghost(rank), Ghost(top));
            let u = upper_of(sigs, &kids, i, &mut lows, &mut ups, Ghost(rank), Ghost(top));
            res.push(Some(AtomBounds { lower: l.own, upper: u }));
        } else {
            res.push(None);
        }
        i = i + 1;
    }
    proof {
        assert forall|i: int, p: int, t: Seq<nat>|
            #![trigger res@[i], res@[p], sigs@[i].parent, res@[p]->0.upper@.contains(t)]
            0 <= i < sigs@.len() && 0 <= p < sigs@.len() && res@[i] is Some && res@[p] is Some && !sigs@[i].top_level
                && sigs@[i].parent == Some(p as usize) && sigs@[i].scope > res@[i]->0.lower@.len() && res@[p]->0.upper@.contains(t)
                && (forall|k: int|
                0 <= k < sigs@.len() && is_kid(sigs@, p as nat, k as nat) && res@[k] is Some ==> !(#[trigger] res@[k]->0.lower@).contains(
                    t,
                )) implies res@[i]->0.upper@.contains(t) by {
            assert forall|k: nat| k < sigs@.len() && is_kid(sigs@, p as nat, k) implies !low(sigs@, rank, k).contains(t) by {
                assert(sigs@[k as int].parent == Some(p as usize));
                assert(visited(sigs@, rank, top, p as nat));
                assert(visited(sigs@, rank, top, k));
                assert(res@[k as int] is Some);
                assert(res@[k as int]->0.lower@ == low(sigs@, rank, k));
            }
            lemma_floating_reaches(sigs@, rank, top, i as nat, p as usize, t);
        }
    }
    res
}

/// The atoms of `p`'s lower bound from its children: each comes from one
/// listed child's lower bound.
proof fn lemma_low_list_from(sigs: Seq<SigInfo>, rank: spec_fn(nat) -> nat, p: nat, cs: Seq<nat>, t: Seq<nat>)
    requires
        low_list(sigs, rank, p, cs).contains(t),
    ensures
        exists|k: int| 0 <= k < cs.len() && #[trigger] low_child(sigs, rank, p, cs[k]).contains(t),
    decreases cs.len(),
{
    if cs.len() > 0 {
        if low_child(sigs, rank, p, cs.last()).contains(t) {
            assert(low_child(sigs, rank, p, cs[cs.len() - 1]).contains(t));
        } else {
            lemma_low_list_from(sigs, rank, p, cs.drop_last(), t);
            let k = choose|k: int| 0 <= k < cs.drop_last().len() && #[trigger] low_child(sigs, rank, p, cs.drop_last()[k]).contains(t);
            assert(cs.drop_last()[k] == cs[k]);
        }
    }
}

/// A child that can still grow receives every atom of its parent's upper
/// bound that no child of the parent must hold.
proof fn lemma_floating_reaches(sigs: Seq<SigInfo>, rank: spec_fn(nat) -> nat, top: nat, i: nat, pu: usize, t: Seq<nat>)
    requires
        ctx(sigs, rank, top),
        i < sigs.len(),
        (pu as nat) < sigs.len(),
        !sigs[i as int].top_level,
        sigs[i as int].parent == Some(pu),
        grows(sigs, rank, i),
        up(sigs, rank, top, pu as nat).contains(t),
        forall|k: nat| k < sigs.len() && is_kid(sigs, pu as nat, k) ==> !low(sigs, rank, k).contains(t),
    ensures
        up(sigs, rank, top, i).contains(t),
{
    let p = pu as nat;
    assert(sigs[i as int].parent->0 == pu);
    assert(rank(p) > rank(i));
    assert(rank(p) <= top);
    lemma_kids_upto(sigs, p, sigs.len());
    if low_list(sigs, rank, p, kids_of(sigs, p)).contains(t) {
        lemma_low_list_from(sigs, rank, p, kids_of(sigs, p), t);
        let k = choose|k: int| 0 <= k < kids_of(sigs, p).len() && #[trigger] low_child(sigs, rank, p, kids_of(sigs, p)[k]).contains(t);
        let c = kids_of(sigs, p)[k];
        assert(c < sigs.len() && is_kid(sigs, p, c));
        assert(sigs[c as int].parent->0 == pu);
        assert(rank(c) < rank(p));
        assert(low_child(sigs, rank, p, c) == low(sigs, rank, c));
    }
    assert(floating(sigs, rank, top, p).contains(t));
}

} // verus!
