//! Symmetry breaking: the coarsest partition of the atoms into classes of
//! interchangeable atoms, and the order of the relations whose bits the
//! lex-leader predicate ranges over.
//!
//! Two atoms are interchangeable when, for every input tuple set and every
//! column, the tuples they appear in there agree once that column is removed.
//! The relation order is by arity, then name (byte-wise), which for the
//! relation-ordered bounds listing is the stable order of the listing.

use vstd::prelude::*;

use vstd::utf8::encode_utf8;

use crate::bounds::{AtomId, Bounds, RelBound};
use crate::ir::{Ir, RelId};
use crate::lex::{lemma_lex_asymmetric, lemma_lex_irreflexive, lemma_lex_total, lemma_lex_transitive, lex_lt};

verus! {

broadcast use crate::bounds::Bounds::lemma_wf;

/// The symmetry-breaking plan for one command: the atom classes, each in
/// ascending order and the classes by ascending least atom, and the
/// relations that contribute bits, in `(arity, name)` order.
pub struct SbpPlan {
    classes: Vec<Vec<AtomId>>,
    relparts: Vec<RelId>,
}

/// The atom indices of each class.
pub open spec fn class_views(classes: Seq<Vec<AtomId>>) -> Seq<Seq<nat>> {
    classes.map_values(|c: Vec<AtomId>| crate::bounds::atom_indices(c@))
}

impl SbpPlan {
    /// The classes as atom indices.
    pub closed spec fn class_seqs(&self) -> Seq<Seq<nat>> {
        class_views(self.classes@)
    }

    /// The contributing relations, in order.
    pub closed spec fn parts(&self) -> Seq<RelId> {
        self.relparts@
    }

    /// Whether the plan yields no bits: no contributing relation, or no class
    /// with two atoms.
    pub fn is_trivial(&self) -> (b: bool)
        ensures
            b == (self.parts().len() == 0 || forall|i: int| 0 <= i < self.class_seqs().len() ==> (#[trigger] self.class_seqs()[i]).len() < 2),
    {
        if self.relparts.len() == 0 {
            return true;
        }
        let mut i: usize = 0;
        while i < self.classes.len()
            invariant
                i <= self.classes@.len(),
                self.parts().len() > 0,
                forall|k: int| 0 <= k < i ==> (#[trigger] self.class_seqs()[k]).len() < 2,
            decreases self.classes@.len() - i,
        {
            proof {
                assert(self.class_seqs()[i as int] == crate::bounds::atom_indices(self.classes@[i as int]@));
            }
            if self.classes[i].len() >= 2 {
                assert(self.class_seqs().len() == self.classes@.len());
                assert(self.class_seqs()[i as int].len() >= 2);
                assert(self.parts().len() > 0);
                return false;
            }
            assert(self.class_seqs()[i as int].len() < 2);
            i = i + 1;
        }
        true
    }

    /// The classes, in canonical order.
    pub fn classes(&self) -> (c: &[Vec<AtomId>])
        ensures
            class_views(c@) == self.class_seqs(),
    {
        self.classes.as_slice()
    }

    /// The relation order.
    pub fn relparts(&self) -> (r: &[RelId])
        ensures
            r@ == self.parts(),
    {
        self.relparts.as_slice()
    }
}

/// The bytes of a relation's name, each as a number.
pub open spec fn name_bytes(ir: Ir, r: RelId) -> Seq<nat> {
    encode_utf8(ir.relations@[r.index as int].name@).map_values(|b: u8| b as nat)
}

/// A skolem relation: its name begins with `$`.
pub open spec fn skolem_name(ir: Ir, r: RelId) -> bool {
    name_bytes(ir, r).len() > 0 && name_bytes(ir, r)[0] == 36
}

/// One of the builtin sig relations `Int`, `seq/Int` and `String`.
pub open spec fn builtin_sig_name(ir: Ir, r: RelId) -> bool {
    let n = ir.relations@[r.index as int].name@;
    n == "Int"@ || n == "seq/Int"@ || n == "String"@
}

/// A relation with bounds of its own: not a metamodel field placeholder.
pub open spec fn reference_bounded(ir: Ir, r: RelId) -> bool {
    !ir.relations@[r.index as int].is_meta_field
}

/// Every relation the bounds list is one of the IR's.
pub open spec fn bounds_in_ir(ir: Ir, bounds: Bounds) -> bool {
    forall|i: int| 0 <= i < bounds.entries().len() ==> (#[trigger] bounds.entries()[i]).0.index < ir.relations@.len()
}

/// Whether the relation is a skolem (name begins with `$`).
pub fn is_skolem(ir: &Ir, rel: RelId) -> (b: bool)
    requires
        rel.index < ir.relations@.len(),
    ensures
        b == skolem_name(*ir, rel),
{
    let bytes = ir.relations[rel.index].name.as_str().as_bytes();
    bytes.len() > 0 && bytes[0] == 36u8
}

/// Whether the relation is one of the builtin sig relations.
pub fn is_builtin_sig(ir: &Ir, rel: RelId) -> (b: bool)
    requires
        rel.index < ir.relations@.len(),
    ensures
        b == builtin_sig_name(*ir, rel),
{
    let name = &ir.relations[rel.index].name;
    let int_name = "Int".to_owned();
    let seq_name = "seq/Int".to_owned();
    let string_name = "String".to_owned();
    *name == int_name || *name == seq_name || *name == string_name
}

/// Whether the relation has bounds of its own (is no metamodel field
/// placeholder).
pub fn is_reference_bounded(ir: &Ir, rel: RelId) -> (b: bool)
    requires
        rel.index < ir.relations@.len(),
    ensures
        b == reference_bounded(*ir, rel),
{
    !ir.relations[rel.index].is_meta_field
}

/// The relation order: arity, then name byte-wise, then relation index
/// (the listing order of the bounds).
pub open spec fn rel_precedes(ir: Ir, a: RelId, b: RelId) -> bool {
    let aa = ir.relations@[a.index as int].arity;
    let ab = ir.relations@[b.index as int].arity;
    ||| aa < ab
    ||| aa == ab && lex_lt(name_bytes(ir, a), name_bytes(ir, b))
    ||| aa == ab && name_bytes(ir, a) == name_bytes(ir, b) && a.index < b.index
}

/// The relation order is a strict total order.
pub proof fn lemma_rel_precedes_order(ir: Ir, a: RelId, b: RelId, c: RelId)
    ensures
        !rel_precedes(ir, a, a),
        rel_precedes(ir, a, b) && rel_precedes(ir, b, c) ==> rel_precedes(ir, a, c),
        a.index != b.index ==> rel_precedes(ir, a, b) || rel_precedes(ir, b, a),
        rel_precedes(ir, a, b) ==> !rel_precedes(ir, b, a),
{
    lemma_lex_irreflexive(name_bytes(ir, a));
    if rel_precedes(ir, a, b) && rel_precedes(ir, b, c) {
        if lex_lt(name_bytes(ir, a), name_bytes(ir, b)) && lex_lt(name_bytes(ir, b), name_bytes(ir, c)) {
            lemma_lex_transitive(name_bytes(ir, a), name_bytes(ir, b), name_bytes(ir, c));
        }
    }
    if a.index != b.index && name_bytes(ir, a) != name_bytes(ir, b) {
        lemma_lex_total(name_bytes(ir, a), name_bytes(ir, b));
    }
    if rel_precedes(ir, a, b) && lex_lt(name_bytes(ir, a), name_bytes(ir, b)) {
        lemma_lex_asymmetric(name_bytes(ir, a), name_bytes(ir, b));
    }
    if rel_precedes(ir, a, b) && name_bytes(ir, a) == name_bytes(ir, b) {
        lemma_lex_irreflexive(name_bytes(ir, b));
    }
}

/// Whether a bound relation contributes bits: its lower and upper bounds
/// differ in size, it has bounds of its own, and in temporal mode it is no
/// skolem.
pub open spec fn contributes(ir: Ir, e: (RelId, RelBound), temporal: bool) -> bool {
    &&& e.1.lo()@.len() != e.1.hi()@.len()
    &&& reference_bounded(ir, e.0)
    &&& !(temporal && skolem_name(ir, e.0))
}

/// Whether `a` precedes `b` in the relation order.
fn precedes(ir: &Ir, a: RelId, b: RelId) -> (r: bool)
    requires
        a.index < ir.relations@.len(),
        b.index < ir.relations@.len(),
    ensures
        r == rel_precedes(*ir, a, b),
{
    let ra = &ir.relations[a.index];
    let rb = &ir.relations[b.index];
    if ra.arity != rb.arity {
        return ra.arity < rb.arity;
    }
    let x = ra.name.as_str().as_bytes();
    let y = rb.name.as_str().as_bytes();
    let ghost vx = name_bytes(*ir, a);
    let ghost vy = name_bytes(*ir, b);
    proof {
        assert(vx =~= x@.map_values(|u: u8| u as nat));
        assert(vy =~= y@.map_values(|u: u8| u as nat));
    }
    let mut i: usize = 0;
    while i < x.len() && i < y.len()
        invariant
            i <= x@.len(),
            i <= y@.len(),
            vx == x@.map_values(|u: u8| u as nat),
            vy == y@.map_values(|u: u8| u as nat),
            vx == name_bytes(*ir, a),
            vy == name_bytes(*ir, b),
            ir.relations@[a.index as int].arity == ir.relations@[b.index as int].arity,
            vx.take(i as int) == vy.take(i as int),
        decreases x@.len() - i,
    {
        if x[i] != y[i] {
            proof {
                crate::lex::lemma_lex_common_prefix(vx, vy, i as int);
                assert(vx[i as int] == x@[i as int] as nat);
                assert(vy[i as int] == y@[i as int] as nat);
                assert(vx.skip(i as int)[0] == vx[i as int]);
                assert(vy.skip(i as int)[0] == vy[i as int]);
                assert(vx != vy);
                assert(lex_lt(vx.skip(i as int), vy.skip(i as int)) == (vx[i as int] < vy[i as int]));
            }
            return x[i] < y[i];
        }
        proof {
            assert(vx.take(i + 1) =~= vx.take(i as int).push(vx[i as int]));
            assert(vy.take(i + 1) =~= vy.take(i as int).push(vy[i as int]));
        }
        i = i + 1;
    }
    proof {
        crate::lex::lemma_lex_common_prefix(vx, vy, i as int);
        if i == x@.len() && i == y@.len() {
            assert(vx =~= vx.take(i as int));
            assert(vy =~= vy.take(i as int));
            lemma_lex_irreflexive(vx);
        } else if i == x@.len() {
            assert(vx.skip(i as int).len() == 0);
            if vx == vy {
                assert(vx.len() == vy.len());
            }
        } else {
            assert(vy.skip(i as int).len() == 0);
            if vx == vy {
                assert(vx.len() == vy.len());
            }
        }
    }
    if x.len() != y.len() {
        return x.len() < y.len();
    }
    a.index < b.index
}

/// Inserts `r` into the strictly ordered `parts` at its place.
fn insert_ordered(ir: &Ir, parts: &mut Vec<RelId>, r: RelId)
    requires
        r.index < ir.relations@.len(),
        forall|i: int| 0 <= i < old(parts)@.len() ==> (#[trigger] old(parts)@[i]).index < ir.relations@.len(),
        forall|i: int| 0 <= i < old(parts)@.len() ==> (#[trigger] old(parts)@[i]).index != r.index,
        forall|i: int, j: int| 0 <= i < j < old(parts)@.len() ==> rel_precedes(*ir, #[trigger] old(parts)@[i], #[trigger] old(parts)@[j]),
    ensures
        final(parts)@.to_set() == old(parts)@.to_set().insert(r),
        final(parts)@.len() == old(parts)@.len() + 1,
        forall|i: int| 0 <= i < final(parts)@.len() ==> (#[trigger] final(parts)@[i]).index < ir.relations@.len(),
        forall|i: int, j: int| 0 <= i < j < final(parts)@.len() ==> rel_precedes(*ir, #[trigger] final(parts)@[i], #[trigger] final(parts)@[j]),
{
    let ghost p0 = parts@;
    let mut p: usize = 0;
    while p < parts.len() && precedes(ir, parts[p], r)
        invariant
            p <= parts@.len(),
            parts@ == p0,
            r.index < ir.relations@.len(),
            forall|i: int| 0 <= i < parts@.len() ==> (#[trigger] parts@[i]).index < ir.relations@.len(),
            forall|i: int| 0 <= i < p ==> rel_precedes(*ir, #[trigger] parts@[i], r),
        decreases parts@.len() - p,
    {
        p = p + 1;
    }
    proof {
        if p < p0.len() {
            assert(!rel_precedes(*ir, p0[p as int], r));
            lemma_rel_precedes_order(*ir, p0[p as int], r, r);
            assert(p0[p as int].index != r.index);
            lemma_rel_precedes_order(*ir, r, p0[p as int], r);
            assert(rel_precedes(*ir, r, p0[p as int]));
        }
    }
    parts.insert(p, r);
    proof {
        let q = parts@;
        assert(q == p0.insert(p as int, r));
        assert forall|i: int, j: int| 0 <= i < j < q.len() implies rel_precedes(*ir, #[trigger] q[i], #[trigger] q[j]) by {
            if j < p {
            } else if j == p {
                assert(q[i] == p0[i]);
            } else if i < p {
                assert(q[j] == p0[j - 1]);
                if p < p0.len() {
                    if j - 1 > p {
                        assert(rel_precedes(*ir, p0[p as int], p0[j - 1]));
                        lemma_rel_precedes_order(*ir, r, p0[p as int], p0[j - 1]);
                    }
                    lemma_rel_precedes_order(*ir, q[i], r, p0[j - 1]);
                }
            } else if i == p {
                assert(q[j] == p0[j - 1]);
                if j - 1 > p {
                    assert(rel_precedes(*ir, p0[p as int], p0[j - 1]));
                    lemma_rel_precedes_order(*ir, r, p0[p as int], p0[j - 1]);
                }
            } else {
                assert(q[i] == p0[i - 1]);
                assert(q[j] == p0[j - 1]);
            }
        }
        assert(q.to_set() =~= p0.to_set().insert(r)) by {
            assert forall|x: RelId| q.to_set().contains(x) implies p0.to_set().insert(r).contains(x) by {
                let k = choose|k: int| 0 <= k < q.len() && q[k] == x;
                if k < p {
                    assert(p0[k] == x);
                } else if k > p {
                    assert(p0[k - 1] == x);
                }
            }
            assert forall|x: RelId| p0.to_set().insert(r).contains(x) implies q.to_set().contains(x) by {
                if x == r {
                    assert(q[p as int] == r);
                } else {
                    let k = choose|k: int| 0 <= k < p0.len() && p0[k] == x;
                    if k < p {
                        assert(q[k] == x);
                    } else {
                        assert(q[k + 1] == x);
                    }
                }
            }
        }
    }
}

/// The relation order for the lex-leader predicate: every contributing
/// relation of the bounds, ordered by arity, then name byte-wise (the
/// bounds' own order among equal names).
pub fn rel_parts(ir: &Ir, bounds: &Bounds, temporal: bool) -> (parts: Vec<RelId>)
    requires
        bounds.wf(),
        bounds_in_ir(*ir, *bounds),
    ensures
        forall|r: RelId| parts@.contains(r) <==> exists|i: int|
            0 <= i < bounds.entries().len() && (#[trigger] bounds.entries()[i]).0 == r && contributes(*ir, bounds.entries()[i], temporal),
        forall|i: int, j: int| 0 <= i < j < parts@.len() ==> rel_precedes(*ir, #[trigger] parts@[i], #[trigger] parts@[j]),
{
    let entries = bounds.iter();
    let mut parts: Vec<RelId> = Vec::new();
    let mut k: usize = 0;
    while k < entries.len()
        invariant
            k <= entries@.len(),
            entries@ == bounds.entries(),
            bounds.wf(),
            bounds_in_ir(*ir, *bounds),
            forall|i: int| 0 <= i < parts@.len() ==> (#[trigger] parts@[i]).index < ir.relations@.len(),
            forall|i: int| 0 <= i < parts@.len() ==> exists|m: int| 0 <= m < k && (#[trigger] entries@[m]).0 == #[trigger] parts@[i],
            forall|r: RelId| parts@.contains(r) <==> exists|i: int|
                0 <= i < k && (#[trigger] entries@[i]).0 == r && contributes(*ir, entries@[i], temporal),
            forall|i: int, j: int| 0 <= i < j < parts@.len() ==> rel_precedes(*ir, #[trigger] parts@[i], #[trigger] parts@[j]),
        decreases entries@.len() - k,
    {
        let rel = entries[k].0;
        let bound = &entries[k].1;
        assert(bound.wf());
        let keep = bound.lower().len() != bound.upper().len() && is_reference_bounded(ir, rel) && !(temporal && is_skolem(ir, rel));
        let ghost before = parts@;
        if keep {
            proof {
                assert forall|i: int| 0 <= i < parts@.len() implies (#[trigger] parts@[i]).index != rel.index by {
                    let m = choose|m: int| 0 <= m < k && (#[trigger] entries@[m]).0 == #[trigger] parts@[i];
                    assert(entries@[m].0.index < entries@[k as int].0.index);
                }
            }
            insert_ordered(ir, &mut parts, rel);
        }
        proof {
            assert forall|r: RelId| parts@.contains(r) <==> exists|i: int|
                0 <= i < k + 1 && (#[trigger] entries@[i]).0 == r && contributes(*ir, entries@[i], temporal) by {
                if keep {
                    assert(parts@.to_set().contains(r) == before.to_set().insert(rel).contains(r));
                    if r == rel {
                        assert(entries@[k as int].0 == r);
                    }
                    if exists|i: int| 0 <= i < k + 1 && (#[trigger] entries@[i]).0 == r && contributes(*ir, entries@[i], temporal) {
                        let i = choose|i: int| 0 <= i < k + 1 && (#[trigger] entries@[i]).0 == r && contributes(*ir, entries@[i], temporal);
                        if i < k {
                            assert(before.contains(r));
                        }
                    }
                } else {
                    if exists|i: int| 0 <= i < k + 1 && (#[trigger] entries@[i]).0 == r && contributes(*ir, entries@[i], temporal) {
                        let i = choose|i: int| 0 <= i < k + 1 && (#[trigger] entries@[i]).0 == r && contributes(*ir, entries@[i], temporal);
                        assert(i != k);
                    }
                }
            }
            assert forall|i: int| 0 <= i < parts@.len() implies exists|m: int| 0 <= m < k + 1 && (#[trigger] entries@[m]).0 == #[trigger] parts@[i] by {
                let r = parts@[i];
                assert(parts@.contains(r));
                let m = choose|m: int| 0 <= m < k + 1 && (#[trigger] entries@[m]).0 == r && contributes(*ir, entries@[m], temporal);
            }
        }
        k = k + 1;
    }
    parts
}

/// A list of numbers as naturals.
pub open spec fn nats(s: Seq<usize>) -> Seq<nat> {
    s.map_values(|x: usize| x as nat)
}

/// Nested lists of numbers as naturals: input sets of rows.
pub open spec fn input_views(v: Seq<Vec<Vec<usize>>>) -> Seq<Seq<Seq<nat>>> {
    v.map_values(|rows: Vec<Vec<usize>>| rows@.map_values(|row: Vec<usize>| nats(row@)))
}

/// The tuple sets of the bounds that the partition must respect: for each
/// bound relation that is no skolem, no builtin sig and has bounds of its
/// own, its lower bound when nonempty and smaller than the upper, then its
/// upper bound when nonempty, each as its tuples in order.
pub open spec fn bound_inputs(ir: Ir, entries: Seq<(RelId, RelBound)>) -> Seq<Seq<Seq<nat>>>
    decreases entries.len(),
{
    if entries.len() == 0 {
        Seq::empty()
    } else {
        let rest = bound_inputs(ir, entries.drop_last());
        let e = entries.last();
        if skolem_name(ir, e.0) || builtin_sig_name(ir, e.0) || !reference_bounded(ir, e.0) {
            rest
        } else {
            let lo = e.1.lo().ordered();
            let hi = e.1.hi().ordered();
            let with_lo = if lo.len() > 0 && lo.len() < hi.len() {
                rest.push(lo)
            } else {
                rest
            };
            if hi.len() > 0 {
                with_lo.push(hi)
            } else {
                with_lo
            }
        }
    }
}

/// Every tuple set the partition must respect: a singleton for each atom
/// from `int_start` below `n` (the integer and string atoms), then those of
/// the bounds.
pub open spec fn partition_inputs(ir: Ir, entries: Seq<(RelId, RelBound)>, int_start: nat, n: nat) -> Seq<Seq<Seq<nat>>> {
    Seq::new(
        if int_start < n {
            (n - int_start) as nat
        } else {
            0
        },
        |k: int| seq![seq![(int_start + k) as nat]],
    ) + bound_inputs(ir, entries)
}

/// Whether atom `a` stands in column `c` of row `u` of input set `t`, the
/// rest of that row being `rest`.
pub open spec fn row_match(inputs: Seq<Seq<Seq<nat>>>, a: nat, t: nat, u: int, c: nat, rest: Seq<nat>) -> bool {
    &&& c < inputs[t as int][u].len()
    &&& inputs[t as int][u][c as int] == a
    &&& rest == inputs[t as int][u].remove(c as int)
}

/// Whether atom `a` stands in column `c` of a tuple of input set `t`, the
/// rest of that tuple being `rest`.
pub open spec fn occurs(inputs: Seq<Seq<Seq<nat>>>, a: nat, t: nat, c: nat, rest: Seq<nat>) -> bool {
    &&& t < inputs.len()
    &&& exists|u: int| 0 <= u < inputs[t as int].len() && #[trigger] row_match(inputs, a, t, u, c, rest)
}

/// Atoms the inputs cannot tell apart: each occurs wherever the other does,
/// with the same rest.
pub open spec fn same_signature(inputs: Seq<Seq<Seq<nat>>>, a: nat, b: nat) -> bool {
    forall|t: nat, c: nat, rest: Seq<nat>|
        #![trigger occurs(inputs, a, t, c, rest)]
        #![trigger occurs(inputs, b, t, c, rest)]
        occurs(inputs, a, t, c, rest) == occurs(inputs, b, t, c, rest)
}

/// Whether some class holds `a`.
pub open spec fn in_some_class(classes: Seq<Seq<nat>>, a: nat) -> bool {
    exists|i: int| 0 <= i < classes.len() && #[trigger] classes[i].contains(a)
}

/// Classes of atoms below `n`: each nonempty and ascending, the classes by
/// ascending least atom, together covering every atom.
pub open spec fn is_symmetry_partition_shape(classes: Seq<Seq<nat>>, n: nat) -> bool {
    &&& forall|i: int| 0 <= i < classes.len() ==> (#[trigger] classes[i]).len() > 0
    &&& forall|i: int, j: int, k: int|
        0 <= i < classes.len() && 0 <= j < k < classes[i].len() ==> #[trigger] classes[i][j] < #[trigger] classes[i][k]
    &&& forall|i: int, j: int| 0 <= i < j < classes.len() ==> (#[trigger] classes[i])[0] < (#[trigger] classes[j])[0]
    &&& forall|a: nat| a < n ==> #[trigger] in_some_class(classes, a)
    &&& forall|i: int, x: nat| 0 <= i < classes.len() && #[trigger] classes[i].contains(x) ==> x < n
}

/// The coarsest symmetry partition of the atoms below `n`: classes of atoms
/// with the same signature, each ascending and nonempty, the classes by
/// ascending least atom, together covering every atom once.
pub open spec fn is_symmetry_partition(classes: Seq<Seq<nat>>, inputs: Seq<Seq<Seq<nat>>>, n: nat) -> bool {
    &&& is_symmetry_partition_shape(classes, n)
    &&& forall|i: int, j: int, x: nat, y: nat|
        0 <= i < classes.len() && 0 <= j < classes.len() && #[trigger] classes[i].contains(x) && #[trigger] classes[j].contains(y) ==> (i
            == j <==> same_signature(inputs, x, y))
}

/// The rows of a tuple set, in its order, as atom indices.
fn tuple_rows(ts: &crate::bounds::TupleSet) -> (rows: Vec<Vec<usize>>)
    ensures
        rows@.map_values(|row: Vec<usize>| nats(row@)) == ts.ordered(),
{
    let tuples = ts.iter();
    let mut rows: Vec<Vec<usize>> = Vec::new();
    let mut i: usize = 0;
    while i < tuples.len()
        invariant
            i <= tuples@.len(),
            crate::bounds::tuple_views(tuples@) == ts.ordered(),
            rows@.len() == i,
            forall|k: int| 0 <= k < i ==> nats((#[trigger] rows@[k])@) == tuples@[k]@,
        decreases tuples@.len() - i,
    {
        let atoms = tuples[i].atoms();
        let mut row: Vec<usize> = Vec::new();
        let mut j: usize = 0;
        while j < atoms.len()
            invariant
                j <= atoms@.len(),
                row@.len() == j,
                forall|m: int| 0 <= m < j ==> (#[trigger] row@[m]) == atoms@[m].index,
            decreases atoms@.len() - j,
        {
            row.push(atoms[j].index);
            j = j + 1;
        }
        proof {
            assert(nats(row@) =~= crate::bounds::atom_indices(atoms@));
        }
        rows.push(row);
        proof {
            assert(nats(rows@[i as int]@) == tuples@[i as int]@);
        }
        i = i + 1;
    }
    proof {
        assert(rows@.map_values(|row: Vec<usize>| nats(row@)) =~= crate::bounds::tuple_views(tuples@));
    }
    rows
}

/// The bound inputs of the first `k` entries extend to those of `k + 1`.
proof fn lemma_bound_inputs_step(ir: Ir, entries: Seq<(RelId, RelBound)>, k: int)
    requires
        0 <= k < entries.len(),
    ensures
        bound_inputs(ir, entries.take(k + 1)) == ({
            let rest = bound_inputs(ir, entries.take(k));
            let e = entries[k];
            if skolem_name(ir, e.0) || builtin_sig_name(ir, e.0) || !reference_bounded(ir, e.0) {
                rest
            } else {
                let lo = e.1.lo().ordered();
                let hi = e.1.hi().ordered();
                let with_lo = if lo.len() > 0 && lo.len() < hi.len() {
                    rest.push(lo)
                } else {
                    rest
                };
                if hi.len() > 0 {
                    with_lo.push(hi)
                } else {
                    with_lo
                }
            }
        }),
{
    assert(entries.take(k + 1).drop_last() =~= entries.take(k));
}

/// The input tuple sets of the partition, as rows of atom indices.
fn partition_tuplesets(ir: &Ir, bounds: &Bounds, int_start: usize, n: usize) -> (inputs: Vec<Vec<Vec<usize>>>)
    requires
        bounds.wf(),
        bounds_in_ir(*ir, *bounds),
    ensures
        input_views(inputs@) == partition_inputs(*ir, bounds.entries(), int_start as nat, n as nat),
{
    let mut inputs: Vec<Vec<Vec<usize>>> = Vec::new();
    let mut i: usize = int_start;
    while i < n
        invariant
            int_start <= i <= n || (i == int_start && int_start >= n),
            inputs@.len() == i - int_start || (i == int_start && inputs@.len() == 0),
            forall|k: int| 0 <= k < inputs@.len() ==> (#[trigger] input_views(inputs@)[k]) == seq![seq![(int_start + k) as nat]],
        decreases n - i,
    {
        let mut row: Vec<usize> = Vec::new();
        row.push(i);
        let mut single: Vec<Vec<usize>> = Vec::new();
        single.push(row);
        let ghost v0 = input_views(inputs@);
        inputs.push(single);
        proof {
            let k = inputs@.len() - 1;
            assert(k == i - int_start);
            assert(input_views(inputs@)[k] =~= seq![seq![(int_start + k) as nat]]) by {
                assert(input_views(inputs@)[k][0] =~= seq![(int_start + k) as nat]);
            }
            assert forall|m: int| 0 <= m < inputs@.len() implies (#[trigger] input_views(inputs@)[m]) == seq![seq![(int_start + m) as nat]] by {
                if m < k {
                    assert(input_views(inputs@)[m] == v0[m]);
                }
            }
        }
        i = i + 1;
    }
    let ghost singles = input_views(inputs@);
    proof {
        assert(singles =~= Seq::new(
            if int_start < n {
                (n - int_start) as nat
            } else {
                0
            },
            |k: int| seq![seq![(int_start + k) as nat]],
        ));
        assert(bounds.entries().take(0) =~= Seq::<(RelId, RelBound)>::empty());
        assert(input_views(inputs@) =~= singles + bound_inputs(*ir, bounds.entries().take(0)));
    }
    let entries = bounds.iter();
    let mut k: usize = 0;
    while k < entries.len()
        invariant
            k <= entries@.len(),
            entries@ == bounds.entries(),
            bounds.wf(),
            bounds_in_ir(*ir, *bounds),
            input_views(inputs@) == singles + bound_inputs(*ir, bounds.entries().take(k as int)),
        decreases entries@.len() - k,
    {
        let rel = entries[k].0;
        let bound = &entries[k].1;
        assert(bound.wf());
        proof {
            lemma_bound_inputs_step(*ir, bounds.entries(), k as int);
            crate::bounds::TupleSet::lemma_wf(&bound.lo());
            crate::bounds::TupleSet::lemma_wf(&bound.hi());
        }
        let ghost before = input_views(inputs@);
        if !(is_skolem(ir, rel) || is_builtin_sig(ir, rel) || !is_reference_bounded(ir, rel)) {
            let lower = bound.lower();
            let upper = bound.upper();
            let lower_empty = lower.is_empty();
            let upper_empty = upper.is_empty();
            proof {
                let lo = bound.lo().ordered();
                let hi = bound.hi().ordered();
                if lo.len() > 0 {
                    assert(bound.lo()@.contains(lo[0]));
                } else {
                    assert(lo =~= Seq::<Seq<nat>>::empty());
                    assert(bound.lo()@ =~= Set::<Seq<nat>>::empty());
                }
                if hi.len() > 0 {
                    assert(bound.hi()@.contains(hi[0]));
                } else {
                    assert(hi =~= Seq::<Seq<nat>>::empty());
                    assert(bound.hi()@ =~= Set::<Seq<nat>>::empty());
                }
                assert(lower_empty == (lo.len() == 0));
                assert(upper_empty == (hi.len() == 0));
            }
            if !lower_empty && lower.len() < upper.len() {
                let rows = tuple_rows(lower);
                inputs.push(rows);
                proof {
                    assert(input_views(inputs@) =~= before.push(bound.lo().ordered()));
                }
            }
            let ghost mid = input_views(inputs@);
            if !upper_empty {
                let rows = tuple_rows(upper);
                inputs.push(rows);
                proof {
                    assert(input_views(inputs@) =~= mid.push(bound.hi().ordered()));
                }
            }
        }
        k = k + 1;
    }
    proof {
        assert(bounds.entries().take(k as int) =~= bounds.entries());
    }
    inputs
}

/// One signature entry: an input set, a column, and the rest of a tuple.
pub type SigEntry = (usize, usize, Vec<usize>);

/// The entries as naturals.
pub open spec fn entry_views(s: Seq<SigEntry>) -> Seq<(nat, nat, Seq<nat>)> {
    s.map_values(|e: SigEntry| (e.0 as nat, e.1 as nat, nats(e.2@)))
}

/// A row without column `c`.
fn without_column(row: &Vec<usize>, c: usize) -> (out: Vec<usize>)
    requires
        c < row@.len(),
    ensures
        nats(out@) == nats(row@).remove(c as int),
{
    let mut out: Vec<usize> = Vec::new();
    let mut k: usize = 0;
    while k < row.len()
        invariant
            k <= row@.len(),
            c < row@.len(),
            k <= c ==> nats(out@) == nats(row@).take(k as int),
            k > c ==> nats(out@) == nats(row@).take(k as int).remove(c as int),
        decreases row@.len() - k,
    {
        let ghost o0 = nats(out@);
        if k != c {
            out.push(row[k]);
        }
        proof {
            let r = nats(row@);
            if k < c {
                assert(nats(out@) =~= r.take(k + 1));
            } else if k == c {
                assert(nats(out@) =~= r.take(k + 1).remove(c as int));
            } else {
                assert(o0 == r.take(k as int).remove(c as int));
                assert(nats(out@) == o0.push(r[k as int]));
                assert(r.take(k + 1).remove(c as int) =~= r.take(k as int).remove(c as int).push(r[k as int]));
            }
        }
        k = k + 1;
    }
    proof {
        assert(nats(row@).take(k as int) =~= nats(row@));
    }
    out
}

/// Everything the signature of atom `a` holds: each input set, column and
/// rest of a tuple where `a` stands in that column.
fn signature(inputs: &Vec<Vec<Vec<usize>>>, a: usize) -> (sig: Vec<SigEntry>)
    ensures
        forall|t: nat, c: nat, rest: Seq<nat>| #[trigger] entry_views(sig@).contains((t, c, rest)) <==> occurs(input_views(inputs@), a as nat, t, c, rest),
{
    let ghost iv = input_views(inputs@);
    let mut sig: Vec<SigEntry> = Vec::new();
    let mut t: usize = 0;
    while t < inputs.len()
        invariant
            t <= inputs@.len(),
            iv == input_views(inputs@),
            forall|tt: nat, c: nat, rest: Seq<nat>| #[trigger] entry_views(sig@).contains((tt, c, rest)) <==> (tt < t && occurs(iv, a as nat, tt, c, rest)),
        decreases inputs@.len() - t,
    {
        let rows = &inputs[t];
        assert(iv[t as int] == rows@.map_values(|row: Vec<usize>| nats(row@)));
        let mut u: usize = 0;
        while u < rows.len()
            invariant
                t < inputs@.len(),
                u <= rows@.len(),
                rows == inputs@[t as int],
                iv == input_views(inputs@),
                iv[t as int] == rows@.map_values(|row: Vec<usize>| nats(row@)),
                forall|tt: nat, c: nat, rest: Seq<nat>| #[trigger] entry_views(sig@).contains((tt, c, rest)) <==> ((tt < t && occurs(iv, a as nat, tt, c, rest)) || (tt
                    == t && exists|v: int| 0 <= v < u && #[trigger] row_match(iv, a as nat, tt, v, c, rest))),
            decreases rows@.len() - u,
        {
            let row = &rows[u];
            assert(iv[t as int][u as int] == nats(row@));
            let mut c: usize = 0;
            while c < row.len()
                invariant
                    t < inputs@.len(),
                    u < rows@.len(),
                    c <= row@.len(),
                    row == rows@[u as int],
                    rows == inputs@[t as int],
                    iv == input_views(inputs@),
                    iv[t as int][u as int] == nats(row@),
                    forall|tt: nat, cc: nat, rest: Seq<nat>| #[trigger] entry_views(sig@).contains((tt, cc, rest)) <==> ((tt < t && occurs(iv, a as nat, tt, cc, rest))
                        || (tt == t && exists|v: int| 0 <= v < u && #[trigger] row_match(iv, a as nat, tt, v, cc, rest)) || (tt == t && cc < c
                        && row_match(iv, a as nat, tt, u as int, cc, rest))),
                decreases row@.len() - c,
            {
                let ghost s0 = entry_views(sig@);
                if row[c] == a {
                    let rest = without_column(row, c);
                    sig.push((t, c, rest));
                    proof {
                        assert(entry_views(sig@) =~= s0.push((t as nat, c as nat, nats(row@).remove(c as int))));
                    }
                }
                proof {
                    assert forall|tt: nat, cc: nat, rest: Seq<nat>| #[trigger] entry_views(sig@).contains((tt, cc, rest)) <==> ((tt < t && occurs(
                        iv,
                        a as nat,
                        tt,
                        cc,
                        rest,
                    )) || (tt == t && exists|v: int| 0 <= v < u && #[trigger] row_match(iv, a as nat, tt, v, cc, rest)) || (tt == t && cc < c + 1
                        && row_match(iv, a as nat, tt, u as int, cc, rest))) by {
                        if entry_views(sig@).contains((tt, cc, rest)) && !s0.contains((tt, cc, rest)) {
                            let k = choose|k: int| 0 <= k < entry_views(sig@).len() && entry_views(sig@)[k] == (tt, cc, rest);
                            if k < s0.len() {
                                assert(s0[k] == entry_views(sig@)[k]);
                            }
                        }
                        if s0.contains((tt, cc, rest)) {
                            let k = choose|k: int| 0 <= k < s0.len() && s0[k] == (tt, cc, rest);
                            assert(entry_views(sig@)[k] == s0[k]);
                        }
                        if tt == t && cc == c && row_match(iv, a as nat, tt, u as int, cc, rest) {
                            assert(entry_views(sig@)[entry_views(sig@).len() - 1] == (tt, cc, rest));
                        }
                    }
                }
                c = c + 1;
            }
            proof {
                assert forall|tt: nat, cc: nat, rest: Seq<nat>| #[trigger] entry_views(sig@).contains((tt, cc, rest)) <==> ((tt < t && occurs(
                    iv,
                    a as nat,
                    tt,
                    cc,
                    rest,
                )) || (tt == t && exists|v: int| 0 <= v < u + 1 && #[trigger] row_match(iv, a as nat, tt, v, cc, rest))) by {
                    if tt == t && exists|v: int| 0 <= v < u + 1 && #[trigger] row_match(iv, a as nat, tt, v, cc, rest) {
                        let v = choose|v: int| 0 <= v < u + 1 && #[trigger] row_match(iv, a as nat, tt, v, cc, rest);
                        if v < u {
                            assert(exists|w: int| 0 <= w < u && #[trigger] row_match(iv, a as nat, tt, w, cc, rest));
                        }
                    }
                }
            }
            u = u + 1;
        }
        proof {
            assert forall|tt: nat, cc: nat, rest: Seq<nat>| #[trigger] entry_views(sig@).contains((tt, cc, rest)) <==> (tt < t + 1 && occurs(
                iv,
                a as nat,
                tt,
                cc,
                rest,
            )) by {}
        }
        t = t + 1;
    }
    sig
}

/// Whether two entries are equal.
fn entry_eq(x: &SigEntry, y: &SigEntry) -> (b: bool)
    ensures
        b == ((x.0 as nat, x.1 as nat, nats(x.2@)) == (y.0 as nat, y.1 as nat, nats(y.2@))),
{
    if x.0 != y.0 || x.1 != y.1 || x.2.len() != y.2.len() {
        proof {
            if x.2.len() != y.2.len() {
                assert(nats(x.2@).len() != nats(y.2@).len());
            }
        }
        return false;
    }
    let mut k: usize = 0;
    while k < x.2.len()
        invariant
            k <= x.2@.len(),
            x.2@.len() == y.2@.len(),
            forall|m: int| 0 <= m < k ==> x.2@[m] == y.2@[m],
        decreases x.2@.len() - k,
    {
        if x.2[k] != y.2[k] {
            proof {
                assert(nats(x.2@)[k as int] != nats(y.2@)[k as int]);
            }
            return false;
        }
        k = k + 1;
    }
    proof {
        assert(nats(x.2@) =~= nats(y.2@));
    }
    true
}

/// Whether every entry of `x` is one of `y`'s.
fn entries_within(x: &Vec<SigEntry>, y: &Vec<SigEntry>) -> (b: bool)
    ensures
        b == (forall|e: (nat, nat, Seq<nat>)| #[trigger] entry_views(x@).contains(e) ==> entry_views(y@).contains(e)),
{
    let mut i: usize = 0;
    while i < x.len()
        invariant
            i <= x@.len(),
            forall|m: int| 0 <= m < i ==> entry_views(y@).contains(#[trigger] entry_views(x@)[m]),
        decreases x@.len() - i,
    {
        let mut j: usize = 0;
        let mut found = false;
        while j < y.len()
            invariant
                i < x@.len(),
                j <= y@.len(),
                found ==> entry_views(y@).contains(entry_views(x@)[i as int]),
                !found ==> forall|m: int| 0 <= m < j ==> entry_views(y@)[m] != entry_views(x@)[i as int],
            decreases y@.len() - j,
        {
            if !found && entry_eq(&x[i], &y[j]) {
                found = true;
                assert(entry_views(y@)[j as int] == entry_views(x@)[i as int]);
            }
            j = j + 1;
        }
        if !found {
            proof {
                let e = entry_views(x@)[i as int];
                assert(entry_views(x@).contains(e));
                if entry_views(y@).contains(e) {
                    let m = choose|m: int| 0 <= m < entry_views(y@).len() && entry_views(y@)[m] == e;
                }
            }
            return false;
        }
        i = i + 1;
    }
    proof {
        assert forall|e: (nat, nat, Seq<nat>)| #[trigger] entry_views(x@).contains(e) implies entry_views(y@).contains(e) by {
            let m = choose|m: int| 0 <= m < entry_views(x@).len() && entry_views(x@)[m] == e;
        }
    }
    true
}

/// Signature lists with the same entries stand for atoms with the same
/// signature.
proof fn lemma_same_entries(iv: Seq<Seq<Seq<nat>>>, x: Seq<(nat, nat, Seq<nat>)>, y: Seq<(nat, nat, Seq<nat>)>, a: nat, b: nat)
    requires
        forall|t: nat, c: nat, rest: Seq<nat>| #[trigger] x.contains((t, c, rest)) <==> occurs(iv, a, t, c, rest),
        forall|t: nat, c: nat, rest: Seq<nat>| #[trigger] y.contains((t, c, rest)) <==> occurs(iv, b, t, c, rest),
    ensures
        ((forall|e: (nat, nat, Seq<nat>)| #[trigger] x.contains(e) ==> y.contains(e)) && (forall|e: (nat, nat, Seq<nat>)|
            #[trigger] y.contains(e) ==> x.contains(e))) == same_signature(iv, a, b),
{
    if same_signature(iv, a, b) {
        assert forall|e: (nat, nat, Seq<nat>)| #[trigger] x.contains(e) implies y.contains(e) by {
            assert(x.contains((e.0, e.1, e.2)));
            assert(occurs(iv, a, e.0, e.1, e.2));
        }
        assert forall|e: (nat, nat, Seq<nat>)| #[trigger] y.contains(e) implies x.contains(e) by {
            assert(y.contains((e.0, e.1, e.2)));
            assert(occurs(iv, b, e.0, e.1, e.2));
        }
    }
    if (forall|e: (nat, nat, Seq<nat>)| #[trigger] x.contains(e) ==> y.contains(e)) && (forall|e: (nat, nat, Seq<nat>)|
        #[trigger] y.contains(e) ==> x.contains(e)) {
        assert forall|t: nat, c: nat, rest: Seq<nat>| occurs(iv, a, t, c, rest) == occurs(iv, b, t, c, rest) by {
            if occurs(iv, a, t, c, rest) {
                assert(x.contains((t, c, rest)));
            }
            if occurs(iv, b, t, c, rest) {
                assert(y.contains((t, c, rest)));
            }
        }
    }
}

/// Detects the coarsest symmetry partition of the `n` atoms over the input
/// tuple sets (see [`partition_inputs`]): atoms with the same signature
/// share a class; classes ascending, ordered by least atom.
pub fn detect_partition(ir: &Ir, bounds: &Bounds, int_start: usize, n: usize) -> (classes: Vec<Vec<AtomId>>)
    requires
        bounds.wf(),
        bounds_in_ir(*ir, *bounds),
    ensures
        is_symmetry_partition(class_views(classes@), partition_inputs(*ir, bounds.entries(), int_start as nat, n as nat), n as nat),
{
    let inputs = partition_tuplesets(ir, bounds, int_start, n);
    let ghost iv = input_views(inputs@);
    let mut class_of: Vec<usize> = Vec::new();
    let mut firsts: Vec<usize> = Vec::new();
    let mut reps: Vec<Vec<SigEntry>> = Vec::new();
    let mut a: usize = 0;
    while a < n
        invariant
            a <= n,
            iv == input_views(inputs@),
            class_of@.len() == a,
            firsts@.len() == reps@.len(),
            forall|x: int| 0 <= x < a ==> (#[trigger] class_of@[x]) < firsts@.len(),
            forall|ci: int| 0 <= ci < firsts@.len() ==> (#[trigger] firsts@[ci]) < a && class_of@[firsts@[ci] as int] == ci,
            forall|ci: int, cj: int| 0 <= ci < cj < firsts@.len() ==> (#[trigger] firsts@[ci]) < (#[trigger] firsts@[cj]),
            forall|x: int| 0 <= x < a ==> firsts@[#[trigger] class_of@[x] as int] <= x,
            forall|ci: int| #![trigger reps@[ci]] 0 <= ci < reps@.len() ==> forall|t: nat, c: nat, rest: Seq<nat>| #[trigger] entry_views(reps@[ci]@).contains((t, c, rest))
                <==> occurs(iv, firsts@[ci] as nat, t, c, rest),
            forall|x: int| 0 <= x < a ==> same_signature(iv, x as nat, firsts@[#[trigger] class_of@[x] as int] as nat),
            forall|ci: int, cj: int| 0 <= ci < firsts@.len() && 0 <= cj < firsts@.len() && ci != cj ==> !same_signature(
                iv,
                #[trigger] firsts@[ci] as nat,
                #[trigger] firsts@[cj] as nat,
            ),
        decreases n - a,
    {
        let sig = signature(&inputs, a);
        let mut found = reps.len();
        let mut i: usize = 0;
        while i < reps.len()
            invariant
                i <= reps@.len(),
                found == reps@.len() || found < i,
                found < reps@.len() ==> same_signature(iv, firsts@[found as int] as nat, a as nat),
                found == reps@.len() ==> forall|m: int| 0 <= m < i ==> !same_signature(iv, #[trigger] firsts@[m] as nat, a as nat),
                iv == input_views(inputs@),
                firsts@.len() == reps@.len(),
                forall|ci: int| #![trigger reps@[ci]] 0 <= ci < reps@.len() ==> forall|t: nat, c: nat, rest: Seq<nat>| #[trigger] entry_views(reps@[ci]@).contains(
                    (t, c, rest),
                ) <==> occurs(iv, firsts@[ci] as nat, t, c, rest),
                forall|t: nat, c: nat, rest: Seq<nat>| #[trigger] entry_views(sig@).contains((t, c, rest)) <==> occurs(iv, a as nat, t, c, rest),
            decreases reps@.len() - i,
        {
            if found == reps.len() {
                let w1 = entries_within(&reps[i], &sig);
                let w2 = entries_within(&sig, &reps[i]);
                proof {
                    lemma_same_entries(iv, entry_views(reps@[i as int]@), entry_views(sig@), firsts@[i as int] as nat, a as nat);
                }
                if w1 && w2 {
                    found = i;
                }
            }
            i = i + 1;
        }
        if found < reps.len() {
            class_of.push(found);
            proof {
                assert forall|x: int| 0 <= x < a + 1 implies same_signature(iv, x as nat, firsts@[#[trigger] class_of@[x] as int] as nat) by {
                    if x == a {
                    }
                }
            }
        } else {
            class_of.push(reps.len());
            firsts.push(a);
            reps.push(sig);
            proof {
                assert forall|ci: int, cj: int| 0 <= ci < firsts@.len() && 0 <= cj < firsts@.len() && ci != cj implies !same_signature(
                    iv,
                    #[trigger] firsts@[ci] as nat,
                    #[trigger] firsts@[cj] as nat,
                ) by {
                    let last = firsts@.len() - 1;
                    if ci == last {
                        assert(!same_signature(iv, firsts@[cj] as nat, a as nat));
                    }
                    if cj == last {
                        assert(!same_signature(iv, firsts@[ci] as nat, a as nat));
                    }
                }
            }
        }
        a = a + 1;
    }
    let classes = collect_classes(&class_of, &firsts, n);
    proof {
        let cv = class_views(classes@);
        assert forall|i: int, j: int, x: nat, y: nat|
            0 <= i < cv.len() && 0 <= j < cv.len() && #[trigger] cv[i].contains(x) && #[trigger] cv[j].contains(y) implies (i == j
            <==> same_signature(iv, x, y)) by {
            assert(class_of@[x as int] == i);
            assert(class_of@[y as int] == j);
            assert(same_signature(iv, x, firsts@[i] as nat));
            assert(same_signature(iv, y, firsts@[j] as nat));
            if i != j {
                assert(!same_signature(iv, firsts@[i] as nat, firsts@[j] as nat));
            }
        }
    }
    classes
}

/// Lists the atoms of each class in ascending order, the classes in their
/// numbering.
fn collect_classes(class_of: &Vec<usize>, firsts: &Vec<usize>, n: usize) -> (classes: Vec<Vec<AtomId>>)
    requires
        class_of@.len() == n,
        forall|x: int| 0 <= x < n ==> (#[trigger] class_of@[x]) < firsts@.len(),
        forall|ci: int| 0 <= ci < firsts@.len() ==> (#[trigger] firsts@[ci]) < n && class_of@[firsts@[ci] as int] == ci,
        forall|ci: int, cj: int| 0 <= ci < cj < firsts@.len() ==> (#[trigger] firsts@[ci]) < (#[trigger] firsts@[cj]),
        forall|x: int| 0 <= x < n ==> firsts@[#[trigger] class_of@[x] as int] <= x,
    ensures
        class_views(classes@).len() == firsts@.len(),
        forall|i: int| 0 <= i < firsts@.len() ==> (#[trigger] class_views(classes@)[i]).len() > 0 && class_views(classes@)[i][0] == firsts@[i],
        forall|i: int, j: int, k: int|
            0 <= i < class_views(classes@).len() && 0 <= j < k < class_views(classes@)[i].len() ==> #[trigger] class_views(classes@)[i][j]
                < #[trigger] class_views(classes@)[i][k],
        forall|i: int, x: nat| 0 <= i < firsts@.len() ==> (#[trigger] class_views(classes@)[i].contains(x) <==> (x < n && class_of@[x as int] == i)),
        is_symmetry_partition_shape(class_views(classes@), n as nat),
{
    let mut classes: Vec<Vec<AtomId>> = Vec::new();
    let mut ci: usize = 0;
    while ci < firsts.len()
        invariant
            ci <= firsts@.len(),
            class_of@.len() == n,
            classes@.len() == ci,
            forall|x: int| 0 <= x < n ==> (#[trigger] class_of@[x]) < firsts@.len(),
            forall|c: int| 0 <= c < firsts@.len() ==> (#[trigger] firsts@[c]) < n && class_of@[firsts@[c] as int] == c,
            forall|x: int| 0 <= x < n ==> firsts@[#[trigger] class_of@[x] as int] <= x,
            forall|i: int| 0 <= i < ci ==> (#[trigger] class_views(classes@)[i]).len() > 0 && class_views(classes@)[i][0] == firsts@[i],
            forall|i: int, j: int, k: int|
                0 <= i < ci && 0 <= j < k < class_views(classes@)[i].len() ==> #[trigger] class_views(classes@)[i][j]
                    < #[trigger] class_views(classes@)[i][k],
            forall|i: int, x: nat| 0 <= i < ci ==> (#[trigger] class_views(classes@)[i].contains(x) <==> (x < n && class_of@[x as int] == i)),
        decreases firsts@.len() - ci,
    {
        let mut members: Vec<AtomId> = Vec::new();
        let mut x: usize = 0;
        while x < n
            invariant
                x <= n,
                ci < firsts@.len(),
                class_of@.len() == n,
                forall|m: int| 0 <= m < members@.len() ==> (#[trigger] members@[m]).index < x && class_of@[members@[m].index as int] == ci,
                forall|m: int, p: int| 0 <= m < p < members@.len() ==> (#[trigger] members@[m]).index < (#[trigger] members@[p]).index,
                forall|y: nat| y < x && class_of@[y as int] == ci ==> #[trigger] crate::bounds::atom_indices(members@).contains(y),
                forall|y: nat| #[trigger] crate::bounds::atom_indices(members@).contains(y) ==> y < x && class_of@[y as int] == ci,
            decreases n - x,
        {
            let ghost m0 = members@;
            if class_of[x] == ci {
                members.push(AtomId::from_index(x));
            }
            proof {
                let v = crate::bounds::atom_indices(members@);
                let v0 = crate::bounds::atom_indices(m0);
                assert forall|y: nat| y < x + 1 && class_of@[y as int] == ci implies #[trigger] v.contains(y) by {
                    if y < x {
                        assert(v0.contains(y));
                        let k = choose|k: int| 0 <= k < v0.len() && v0[k] == y;
                        assert(v[k] == y);
                    } else {
                        assert(v[v.len() - 1] == y);
                    }
                }
                assert forall|y: nat| #[trigger] v.contains(y) implies y < x + 1 && class_of@[y as int] == ci by {
                    let k = choose|k: int| 0 <= k < v.len() && v[k] == y;
                    if k < v0.len() {
                        assert(v0[k] == y);
                    }
                }
            }
            x = x + 1;
        }
        let ghost mv = crate::bounds::atom_indices(members@);
        proof {
            let f = firsts@[ci as int] as nat;
            assert(mv.contains(f));
            let p = choose|p: int| 0 <= p < mv.len() && mv[p] == f;
            assert(mv.len() > 0);
            assert(mv[0] == members@[0].index);
            assert(mv.contains(mv[0]));
            assert(firsts@[class_of@[mv[0] as int] as int] <= mv[0]);
            if p > 0 {
                assert(members@[0].index < members@[p].index);
            }
        }
        let ghost cv0 = class_views(classes@);
        proof {
            assert(mv[0] == firsts@[ci as int]);
            assert forall|j: int, k: int| 0 <= j < k < mv.len() implies mv[j] < mv[k] by {
                assert(members@[j].index < members@[k].index);
            }
        }
        classes.push(members);
        proof {
            let cv = class_views(classes@);
            assert forall|i: int| 0 <= i < ci implies #[trigger] cv[i] == cv0[i] by {}
            assert(cv[ci as int] == mv);
            assert forall|i: int| 0 <= i < ci + 1 implies (#[trigger] cv[i]).len() > 0 && cv[i][0] == firsts@[i] by {
                if i < ci {
                    assert(cv[i] == cv0[i]);
                }
            }
            assert forall|i: int, j: int, k: int| 0 <= i < ci + 1 && 0 <= j < k < cv[i].len() implies #[trigger] cv[i][j] < #[trigger] cv[i][k] by {
                if i < ci {
                    assert(cv[i] == cv0[i]);
                }
            }
            assert forall|i: int, y: nat| 0 <= i < ci + 1 implies (#[trigger] cv[i].contains(y) <==> (y < n && class_of@[y as int] == i)) by {
                if i < ci {
                    assert(cv[i] == cv0[i]);
                }
            }
        }
        ci = ci + 1;
    }
    proof {
        let cv = class_views(classes@);
        assert forall|i: int, j: int| 0 <= i < j < cv.len() implies (#[trigger] cv[i])[0] < (#[trigger] cv[j])[0] by {}
        assert forall|y: nat| y < n implies #[trigger] in_some_class(cv, y) by {
            let c = class_of@[y as int] as int;
            assert(cv[c].contains(y));
        }
        assert forall|i: int, y: nat| 0 <= i < cv.len() && #[trigger] cv[i].contains(y) implies y < n by {}
    }
    classes
}

/// The symmetry-breaking plan of a command over `bounds`: the coarsest atom
/// partition, with every atom from `int_start` on (the integers and the
/// strings) refining it as its own singleton, and the relation order.
pub fn build_plan(ir: &Ir, bounds: &Bounds, int_start: usize, temporal: bool) -> (plan: SbpPlan)
    requires
        bounds.wf(),
        bounds_in_ir(*ir, *bounds),
    ensures
        is_symmetry_partition(
            plan.class_seqs(),
            partition_inputs(*ir, bounds.entries(), int_start as nat, bounds.univ()@.len()),
            bounds.univ()@.len(),
        ),
        forall|r: RelId| plan.parts().contains(r) <==> exists|i: int|
            0 <= i < bounds.entries().len() && (#[trigger] bounds.entries()[i]).0 == r && contributes(*ir, bounds.entries()[i], temporal),
        forall|i: int, j: int| 0 <= i < j < plan.parts().len() ==> rel_precedes(*ir, #[trigger] plan.parts()[i], #[trigger] plan.parts()[j]),
{
    let n = bounds.universe().len();
    let classes = detect_partition(ir, bounds, int_start, n);
    let relparts = rel_parts(ir, bounds, temporal);
    SbpPlan { classes, relparts }
}

} // verus!
