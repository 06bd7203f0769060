//! The boolean encoding of the relational operators over [`Matrix`] values.
//!
//! Each operator builds its result matrix cell by cell with gate
//! constructors of a [`Circuit`]. Its contract says what the result denotes:
//! under every assignment that satisfies the circuit's clauses, the result
//! denotes the operator's set-level meaning (the same one the concrete
//! evaluator computes) applied to what the operands denote.

use vstd::prelude::*;

pub mod closure;
pub mod freevars;
pub mod formula;
pub mod integer;
pub mod join;
pub mod leaves;
pub mod overriding;
pub mod sbp;
pub mod symmetry;
pub mod terms;
pub mod walk;

use vstd::arithmetic::power2::{lemma_pow2_strictly_increases, lemma_pow2_unfold, pow2};
use vstd::std_specs::bits::u64_leading_zeros;

use crate::bounds::{atom_indices, AtomId, Tuple};
use crate::circuit::{
    lemma_extends_refl, lemma_extends_trans, lemma_sat_prefix, sat, val, valid, Assignment, Bool,
    Circuit,
};
use crate::matrix::Matrix;
use crate::relspec::{
    lemma_take_to_set_ends, lemma_take_to_set_step, pair, product_spec, transpose_spec,
};
use crate::tuple_map::{entry_keys, entry_vals};

verus! {

broadcast use crate::matrix::Matrix::lemma_wf;

/// `c` grew from `c0`: still well-formed, and an extension of it.
pub open spec fn grown(c0: &Circuit, c: &Circuit) -> bool {
    c.wf() && c.extends_from(c0)
}

/// An assignment satisfying a grown circuit satisfies the earlier one.
pub proof fn lemma_sat_back(c0: &Circuit, c1: &Circuit, s: Assignment)
    requires
        c1.extends_from(c0),
        sat(c1.cls(), s),
    ensures
        sat(c0.cls(), s),
{
    lemma_sat_prefix(c0.cls(), c1.cls(), s);
}

/// Growth is transitive.
pub proof fn lemma_grown_trans(c0: &Circuit, c1: &Circuit, c2: &Circuit)
    requires
        grown(c0, c1),
        grown(c1, c2),
    ensures
        grown(c0, c2),
{
    lemma_extends_trans(c0.nv(), c0.cls(), c1.nv(), c1.cls(), c2.nv(), c2.cls());
}

/// Growth chains.
pub broadcast proof fn lemma_grown_chain(c0: &Circuit, c1: &Circuit, c2: &Circuit)
    requires
        grown(c0, c1),
        grown(c1, c2),
    ensures
        #![trigger grown(c0, c1), grown(c1, c2)]
        grown(c0, c2),
{
    lemma_grown_trans(c0, c1, c2);
}

/// Every circuit has grown from itself.
pub proof fn lemma_grown_refl(c: &Circuit)
    requires
        c.wf(),
    ensures
        grown(c, c),
{
    lemma_extends_refl(c.nv(), c.cls());
}

/// The stored cell of an operand at the `i`-th tuple of its order, and its
/// validity.
pub(crate) proof fn lemma_cell_at(m: &Matrix, i: int, n: nat)
    requires
        m.wf(),
        m.valid_below(n),
        0 <= i < m.order().len(),
    ensures
        m.dom().contains(m.order()[i]),
        m.cell(m.order()[i]) == m.values()[i],
        valid(m.values()[i], n),
        m.order()[i].len() == m.ar(),
        !m.order().take(i).to_set().contains(m.order()[i]),
{
    assert(m.order().to_set().contains(m.order()[i]));
    if m.order().take(i).to_set().contains(m.order()[i]) {
        let k = choose|k: int| 0 <= k < m.order().take(i).len() && m.order().take(i)[k] == m.order()[i];
        assert(m.order()[k] == m.order()[i]);
    }
}

/// The cell a matrix gives any tuple is valid.
proof fn lemma_cell_valid(m: &Matrix, t: Seq<nat>, n: nat)
    requires
        m.valid_below(n),
    ensures
        valid(m.cell(t), n),
{
}

/// The number of bits of `x`: `64 − leading_zeros(x)` bounds `x` by the
/// powers of two on either side.
proof fn lemma_bit_length(x: u64)
    ensures
        0 <= u64_leading_zeros(x) <= 64,
        (x as nat) < pow2((64 - u64_leading_zeros(x)) as nat),
        x > 0 ==> pow2((63 - u64_leading_zeros(x)) as nat) <= x,
    decreases x,
{
    reveal(u64_leading_zeros);
    vstd::arithmetic::power2::lemma2_to64();
    if x > 0 {
        let h = (x / 2) as u64;
        lemma_bit_length(h);
        let lh = u64_leading_zeros(h);
        assert(u64_leading_zeros(x) == lh - 1);
        vstd::arithmetic::power2::lemma2_to64();
        lemma_pow2_unfold(64);
        assert(x <= 2 * h + 1);
        lemma_pow2_unfold((65 - lh) as nat);
        if h > 0 {
            assert(lh >= 1) by {
                if lh == 0 {
                    assert(pow2(63) <= h);
                }
            }
            lemma_pow2_unfold((64 - lh + 1) as nat);
            if 63 - lh > 0 {
                lemma_pow2_unfold((63 - lh + 1) as nat);
            }
        } else {
            assert(lh == 64);
        }
    }
}

/// `⌈log₂ n⌉` for `n ≥ 1`, and 0 for `n ≤ 1`: the smallest `k` with
/// `2^k ≥ n`, the closure's round count.
pub fn log2_ceil(n: usize) -> (k: u32)
    ensures
        n <= pow2(k as nat),
        k == 0 || pow2((k - 1) as nat) < n,
{
    if n <= 1 {
        proof {
            vstd::arithmetic::power2::lemma2_to64();
        }
        return 0;
    }
    let x = (n - 1) as u64;
    let lz = x.leading_zeros();
    proof {
        lemma_bit_length(x);
    }
    64 - lz
}

/// The image of a tuple under the transposition of atoms `p` and `c`.
pub open spec fn swap_atoms(t: Seq<nat>, p: nat, c: nat) -> Seq<nat> {
    t.map_values(|a: nat| if a == p { c } else if a == c { p } else { a })
}

/// `t` with every `prev` replaced by `cur` and every `cur` by `prev` (the
/// transposition of two atoms); all other atoms unchanged.
#[verifier::spinoff_prover]
pub fn swap_tuple(t: &Tuple, prev: AtomId, cur: AtomId) -> (r: Tuple)
    requires
        t@.len() >= 1,
    ensures
        r@ == swap_atoms(t@, prev.index as nat, cur.index as nat),
{
    let atoms = t.atoms();
    let mut out: Vec<AtomId> = Vec::new();
    let mut i: usize = 0;
    while i < atoms.len()
        invariant
            i <= atoms.len(),
            atom_indices(atoms@) == t@,
            atom_indices(out@) == swap_atoms(t@, prev.index as nat, cur.index as nat).take(i as int),
        decreases atoms.len() - i,
    {
        let a = atoms[i];
        let b = if a.index == prev.index {
            cur
        } else if a.index == cur.index {
            prev
        } else {
            a
        };
        let ghost prev_out = out@;
        out.push(b);
        proof {
            assert(atom_indices(out@) =~= atom_indices(prev_out).push(b.index as nat));
            assert(t@[i as int] == a.index as nat);
            assert(swap_atoms(t@, prev.index as nat, cur.index as nat)[i as int] == b.index as nat);
        }
        i = i + 1;
        assert(atom_indices(out@) =~= swap_atoms(t@, prev.index as nat, cur.index as nat).take(i as int));
    }
    assert(swap_atoms(t@, prev.index as nat, cur.index as nat).take(i as int) =~= swap_atoms(
        t@,
        prev.index as nat,
        cur.index as nat,
    ));
    Tuple::new(out)
}

/// The atoms occurring in some tuple of `d`.
pub open spec fn support(d: Set<Seq<nat>>) -> Set<nat> {
    Set::new(|a: nat| exists|t: Seq<nat>, i: int| d.contains(t) && 0 <= i < t.len() && t[i] == a)
}

/// The number of distinct atoms occurring in a matrix's candidate tuples:
/// the bound on the closure's path lengths.
#[verifier::spinoff_prover]
pub fn support_size(m: &Matrix) -> (n: usize)
    requires
        m.wf(),
    ensures
        support(m.dom()).finite(),
        n == support(m.dom()).len(),
{
    let cells = m.iter();
    let ghost ks = m.order();
    let mut seen: Vec<usize> = Vec::new();
    let mut i: usize = 0;
    proof {
        lemma_take_to_set_ends(ks);
        assert(seen@.map_values(|a: usize| a as nat).to_set() =~= support(ks.take(0).to_set()));
    }
    while i < cells.len()
        invariant
            i <= cells.len(),
            entry_keys(cells@) == ks,
            ks == m.order(),
            seen@.no_duplicates(),
            seen@.map_values(|a: usize| a as nat).to_set() == support(ks.take(i as int).to_set()),
        decreases cells.len() - i,
    {
        let atoms = cells[i].0.atoms();
        proof {
            assert(ks[i as int] == cells@[i as int].0@);
            lemma_take_to_set_step(ks, i as int);
        }
        let ghost base = seen@.map_values(|a: usize| a as nat).to_set();
        let ghost tv = ks[i as int];
        let mut j: usize = 0;
        while j < atoms.len()
            invariant
                j <= atoms.len(),
                atom_indices(atoms@) == tv,
                seen@.no_duplicates(),
                seen@.map_values(|a: usize| a as nat).to_set() == base.union(tv.take(j as int).to_set()),
            decreases atoms.len() - j,
        {
            let a = atoms[j].index;
            let mut k: usize = 0;
            let mut found = false;
            while k < seen.len()
                invariant
                    k <= seen.len(),
                    found == exists|q: int| 0 <= q < k && seen@[q] == a,
                decreases seen.len() - k,
            {
                if seen[k] == a {
                    found = true;
                }
                k = k + 1;
            }
            let ghost before = seen@;
            if !found {
                seen.push(a);
                proof {
                    assert forall|p: int, q: int| 0 <= p < q < seen@.len() implies seen@[p] != seen@[q] by {
                        if q == seen@.len() - 1 {
                            assert(seen@[p] == before[p]);
                        }
                    }
                }
            }
            proof {
                assert(tv[j as int] == a as nat);
                lemma_take_to_set_step(tv, j as int);
                let sv = seen@.map_values(|x: usize| x as nat);
                let bvs = before.map_values(|y: usize| y as nat);
                assert(sv.to_set() =~= base.union(tv.take(j + 1).to_set())) by {
                    assert forall|x: nat| sv.to_set().contains(x) implies base.union(tv.take(j + 1).to_set()).contains(x) by {
                        let q = choose|q: int| 0 <= q < sv.len() && sv[q] == x;
                        if q < before.len() {
                            assert(bvs[q] == x);
                            assert(bvs.to_set().contains(x));
                        } else {
                            assert(x == a as nat);
                            assert(tv.take(j + 1).to_set().contains(x));
                        }
                    }
                    assert forall|x: nat| base.union(tv.take(j + 1).to_set()).contains(x) implies sv.to_set().contains(x) by {
                        if x == a as nat {
                            if found {
                                let q = choose|q: int| 0 <= q < k && before[q] == a;
                                assert(sv[q] == x);
                            } else {
                                assert(sv[before.len() as int] == x);
                            }
                        } else {
                            assert(bvs.to_set().contains(x));
                            let q = choose|q: int| 0 <= q < bvs.len() && bvs[q] == x;
                            assert(sv[q] == x);
                        }
                    }
                }
            }
            j = j + 1;
        }
        proof {
            assert(tv.take(j as int) =~= tv);
            let d0 = ks.take(i as int).to_set();
            let d1 = ks.take(i + 1).to_set();
            assert(support(d1) =~= base.union(tv.to_set())) by {
                assert forall|x: nat| support(d1).contains(x) implies base.union(tv.to_set()).contains(x) by {
                    let (t, q) = choose|t: Seq<nat>, q: int| d1.contains(t) && 0 <= q < t.len() && t[q] == x;
                    if t != tv {
                        assert(d0.contains(t));
                        assert(support(d0).contains(x));
                    } else {
                        assert(tv.to_set().contains(x));
                    }
                }
                assert forall|x: nat| base.union(tv.to_set()).contains(x) implies support(d1).contains(x) by {
                    if base.contains(x) {
                        let (t, q) = choose|t: Seq<nat>, q: int| d0.contains(t) && 0 <= q < t.len() && t[q] == x;
                        assert(d1.contains(t));
                    } else {
                        let q = choose|q: int| 0 <= q < tv.len() && tv[q] == x;
                        assert(d1.contains(tv));
                    }
                }
            }
        }
        i = i + 1;
    }
    proof {
        assert(ks.take(i as int).to_set() == m.dom());
        let sv = seen@.map_values(|x: usize| x as nat);
        assert(sv.no_duplicates()) by {
            assert forall|p: int, q: int| 0 <= p < q < sv.len() implies sv[p] != sv[q] by {
                assert(seen@[p] != seen@[q]);
            }
        }
        sv.unique_seq_to_set();
    }
    seen.len()
}

/// Transpose of a binary matrix: each tuple reversed, its cell unchanged.
#[verifier::spinoff_prover]
pub fn transpose(a: &Matrix) -> (out: Matrix)
    requires
        a.wf(),
        a.ar() == 2,
    ensures
        out.wf(),
        out.ar() == 2,
        forall|n: nat| a.valid_below(n) ==> out.valid_below(n),
        out.dom().subset_of(transpose_spec(a.dom())),
        forall|u: Seq<nat>| u.len() == 2 ==> #[trigger] out.cell(u) == a.cell(pair(u[1], u[0])),
        forall|s: Assignment| #[trigger] out.denote(s) == transpose_spec(a.denote(s)),
{
    let mut out = Matrix::empty(2);
    let cells = a.iter();
    let ghost ka = a.order();
    let ghost kt = ka.map_values(|t: Seq<nat>| pair(t[1], t[0]));
    let mut i: usize = 0;
    proof {
        lemma_take_to_set_ends(ka);
    }
    while i < cells.len()
        invariant
            i <= cells.len(),
            a.wf(),
            a.ar() == 2,
            entry_keys(cells@) == ka,
            entry_vals(cells@) == a.values(),
            ka == a.order(),
            out.wf(),
            out.ar() == 2,
            forall|u: Seq<nat>| #[trigger] out.dom().contains(u) <==> (u.len() == 2 && ka.take(i as int).to_set().contains(pair(u[1], u[0])) && a.cells()[pair(u[1], u[0])] != Bool::Const(false)),
            forall|u: Seq<nat>| #[trigger] out.dom().contains(u) ==> out.cells()[u] == a.cells()[pair(u[1], u[0])],
        decreases cells.len() - i,
    {
        let t = &cells[i].0;
        let v = cells[i].1;
        proof {
            assert(ka[i as int] == cells@[i as int].0@);
            assert(a.values()[i as int] == cells@[i as int].1);
            assert(a.cells()[ka[i as int]] == a.values()[i as int]);
            assert(a.dom().contains(ka[i as int]));
            lemma_take_to_set_step(ka, i as int);
        }
        let x0 = t.atom(0);
        let x1 = t.atom(1);
        let ghost out0 = out;
        out.set(Tuple::new(vec![x1, x0]), v);
        proof {
            let tv = ka[i as int];
            assert(tv =~= pair(tv[0], tv[1]));
            assert(atom_indices(seq![x1, x0]) =~= pair(tv[1], tv[0]));
            assert forall|u: Seq<nat>| #[trigger] out.dom().contains(u) <==> (u.len() == 2 && ka.take(i + 1).to_set().contains(pair(u[1], u[0])) && a.cells()[pair(u[1], u[0])] != Bool::Const(false)) by {
                if u.len() == 2 && pair(u[1], u[0]) == tv {
                    assert(u =~= pair(tv[1], tv[0]));
                }
                if u == pair(tv[1], tv[0]) {
                    assert(pair(u[1], u[0]) =~= tv);
                }
            }
            assert forall|u: Seq<nat>| #[trigger] out.dom().contains(u) implies out.cells()[u] == a.cells()[pair(u[1], u[0])] by {
                if u == pair(tv[1], tv[0]) {
                    assert(pair(u[1], u[0]) =~= tv);
                }
            }
        }
        i = i + 1;
    }
    proof {
        assert(ka.take(i as int).to_set() == a.dom());
        assert forall|u: Seq<nat>| u.len() == 2 implies #[trigger] out.cell(u) == a.cell(pair(u[1], u[0])) by {}
        assert forall|n: nat| a.valid_below(n) implies out.valid_below(n) by {
            assert forall|u: Seq<nat>| #[trigger] out.dom().contains(u) implies valid(out.cells()[u], n) by {
                assert(a.dom().contains(pair(u[1], u[0])));
            }
        }
        assert forall|s: Assignment| #[trigger] out.denote(s) == transpose_spec(a.denote(s)) by {
            assert forall|u: Seq<nat>| out.denote(s).contains(u) <==> transpose_spec(a.denote(s)).contains(u) by {
                Matrix::lemma_denote_cell(&out, u, s);
                if u.len() == 2 {
                    assert(out.cell(u) == a.cell(pair(u[1], u[0])));
                    Matrix::lemma_denote_cell(a, pair(u[1], u[0]), s);
                } else {
                    assert(!out.dom().contains(u));
                }
            }
            assert(out.denote(s) =~= transpose_spec(a.denote(s)));
        }
    }
    out
}

/// Intersection `a & b`: a cell `a[t] ∧ b[t]` for each tuple of `a` that
/// `b` also stores.
#[verifier::spinoff_prover]
pub fn intersect(c: &mut Circuit, a: &Matrix, b: &Matrix) -> (out: Matrix)
    requires
        old(c).wf(),
        a.wf(),
        b.wf(),
        a.ar() == b.ar(),
        a.valid_below(old(c).nv()),
        b.valid_below(old(c).nv()),
        old(c).nv() + a.dom().len() <= u32::MAX,
    ensures
        grown(old(c), final(c)),
        final(c).nv() <= old(c).nv() + a.dom().len(),
        out.wf(),
        out.ar() == a.ar(),
        out.valid_below(final(c).nv()),
        out.dom().subset_of(a.dom().intersect(b.dom())),
        forall|s: Assignment| #[trigger] sat(final(c).cls(), s) ==> out.denote(s) == a.denote(s).intersect(b.denote(s)),
{
    let ghost c0 = *c;
    proof {
        lemma_grown_refl(&c0);
        lemma_take_to_set_ends(a.order());
    }
    let mut out = Matrix::empty(a.arity());
    let ea = a.iter();
    let ghost ka = a.order();
    let mut i: usize = 0;
    while i < ea.len()
        invariant
            i <= ea.len(),
            entry_keys(ea@) == ka,
            entry_vals(ea@) == a.values(),
            ka == a.order(),
            a.wf(),
            b.wf(),
            a.ar() == b.ar(),
            a.valid_below(c0.nv()),
            b.valid_below(c0.nv()),
            c0.nv() + a.dom().len() <= u32::MAX,
            grown(&c0, c),
            c.nv() <= c0.nv() + i,
            out.wf(),
            out.ar() == a.ar(),
            out.valid_below(c.nv()),
            out.dom().subset_of(ka.take(i as int).to_set().intersect(b.dom())),
            forall|s: Assignment| #[trigger] sat(c.cls(), s) ==> out.denote(s) == a.denote(s).intersect(
                b.denote(s),
            ).intersect(ka.take(i as int).to_set()),
        decreases ea.len() - i,
    {
        let t = &ea[i].0;
        let av = ea[i].1;
        proof {
            assert(ka[i as int] == ea@[i as int].0@);
            assert(a.values()[i as int] == ea@[i as int].1);
            lemma_cell_at(a, i as int, c.nv());
            lemma_cell_valid(b, t@, c.nv());
            lemma_take_to_set_step(ka, i as int);
        }
        let ghost c1 = *c;
        let ghost out0 = out;
        if b.contains_key(t) {
            let bv = b.get(t);
            let v = c.and(av, bv);
            out.set(t.duplicate(), v);
            proof {
                let tv = t@;
                lemma_grown_trans(&c0, &c1, c);
                let ti1 = ka.take(i + 1).to_set();
                assert forall|s: Assignment| #[trigger] sat(c.cls(), s) implies out.denote(s) == a.denote(s).intersect(
                    b.denote(s),
                ).intersect(ti1) by {
                    lemma_sat_back(&c1, c, s);
                    Matrix::lemma_denote_insert(&out0, &out, tv, v, s);
                    Matrix::lemma_denote_cell(a, tv, s);
                    Matrix::lemma_denote_cell(b, tv, s);
                    assert(out.denote(s) =~= a.denote(s).intersect(b.denote(s)).intersect(ti1));
                }
            }
        } else {
            proof {
                let tv = t@;
                let ti1 = ka.take(i + 1).to_set();
                assert forall|s: Assignment| #[trigger] sat(c.cls(), s) implies out.denote(s) == a.denote(s).intersect(
                    b.denote(s),
                ).intersect(ti1) by {
                    assert(out.denote(s) =~= a.denote(s).intersect(b.denote(s)).intersect(ti1));
                }
            }
        }
        i = i + 1;
    }
    proof {
        assert forall|s: Assignment| #[trigger] sat(c.cls(), s) implies out.denote(s) == a.denote(s).intersect(b.denote(s)) by {
            assert(out.denote(s) =~= a.denote(s).intersect(b.denote(s)));
        }
    }
    out
}

/// Difference `a - b`: a cell `a[t] ∧ ¬b[t]` for each tuple of `a`.
#[verifier::spinoff_prover]
pub fn diff(c: &mut Circuit, a: &Matrix, b: &Matrix) -> (out: Matrix)
    requires
        old(c).wf(),
        a.wf(),
        b.wf(),
        a.ar() == b.ar(),
        a.valid_below(old(c).nv()),
        b.valid_below(old(c).nv()),
        old(c).nv() + a.dom().len() <= u32::MAX,
    ensures
        grown(old(c), final(c)),
        final(c).nv() <= old(c).nv() + a.dom().len(),
        out.wf(),
        out.ar() == a.ar(),
        out.valid_below(final(c).nv()),
        out.dom().subset_of(a.dom()),
        forall|s: Assignment| #[trigger] sat(final(c).cls(), s) ==> out.denote(s) == a.denote(s).difference(b.denote(s)),
{
    let ghost c0 = *c;
    proof {
        lemma_grown_refl(&c0);
        lemma_take_to_set_ends(a.order());
    }
    let mut out = Matrix::empty(a.arity());
    let ea = a.iter();
    let ghost ka = a.order();
    let mut i: usize = 0;
    while i < ea.len()
        invariant
            i <= ea.len(),
            entry_keys(ea@) == ka,
            entry_vals(ea@) == a.values(),
            ka == a.order(),
            a.wf(),
            b.wf(),
            a.ar() == b.ar(),
            a.valid_below(c0.nv()),
            b.valid_below(c0.nv()),
            c0.nv() + a.dom().len() <= u32::MAX,
            grown(&c0, c),
            c.nv() <= c0.nv() + i,
            out.wf(),
            out.ar() == a.ar(),
            out.valid_below(c.nv()),
            out.dom().subset_of(ka.take(i as int).to_set()),
            forall|s: Assignment| #[trigger] sat(c.cls(), s) ==> out.denote(s) == a.denote(s).difference(
                b.denote(s),
            ).intersect(ka.take(i as int).to_set()),
        decreases ea.len() - i,
    {
        let t = &ea[i].0;
        let av = ea[i].1;
        proof {
            assert(ka[i as int] == ea@[i as int].0@);
            assert(a.values()[i as int] == ea@[i as int].1);
            lemma_cell_at(a, i as int, c.nv());
            lemma_cell_valid(b, t@, c.nv());
            lemma_take_to_set_step(ka, i as int);
        }
        let bv = b.get(t);
        let ghost c1 = *c;
        let ghost out0 = out;
        let nbv = c.not(bv);
        let v = c.and(av, nbv);
        out.set(t.duplicate(), v);
        proof {
            let tv = t@;
            lemma_grown_trans(&c0, &c1, c);
            let ti1 = ka.take(i + 1).to_set();
            assert forall|s: Assignment| #[trigger] sat(c.cls(), s) implies out.denote(s) == a.denote(s).difference(
                b.denote(s),
            ).intersect(ti1) by {
                lemma_sat_back(&c1, c, s);
                Matrix::lemma_denote_insert(&out0, &out, tv, v, s);
                Matrix::lemma_denote_cell(a, tv, s);
                Matrix::lemma_denote_cell(b, tv, s);
                assert(out.denote(s) =~= a.denote(s).difference(b.denote(s)).intersect(ti1));
            }
        }
        i = i + 1;
    }
    proof {
        assert forall|s: Assignment| #[trigger] sat(c.cls(), s) implies out.denote(s) == a.denote(s).difference(b.denote(s)) by {
            assert(out.denote(s) =~= a.denote(s).difference(b.denote(s)));
        }
    }
    out
}

/// Relation-valued if-then-else `cond ? t : e`, cell by cell: `cond ? t[x] :
/// e[x]` for each tuple of `t`, then `cond ? false : e[x]` for each tuple of
/// `e` outside `t`.
#[verifier::spinoff_prover]
pub fn rel_ite(c: &mut Circuit, cond: Bool, t: &Matrix, e: &Matrix) -> (out: Matrix)
    requires
        old(c).wf(),
        t.wf(),
        e.wf(),
        t.ar() == e.ar(),
        valid(cond, old(c).nv()),
        t.valid_below(old(c).nv()),
        e.valid_below(old(c).nv()),
        old(c).nv() + 3 * (t.dom().len() + e.dom().len()) <= u32::MAX,
    ensures
        grown(old(c), final(c)),
        final(c).nv() <= old(c).nv() + 3 * (t.dom().len() + e.dom().len()),
        out.wf(),
        out.ar() == t.ar(),
        out.valid_below(final(c).nv()),
        out.dom().subset_of(t.dom().union(e.dom())),
        forall|s: Assignment| #[trigger] sat(final(c).cls(), s) ==> out.denote(s) == if val(cond, s) {
            t.denote(s)
        } else {
            e.denote(s)
        },
{
    let ghost c0 = *c;
    proof {
        lemma_grown_refl(&c0);
        lemma_take_to_set_ends(t.order());
        lemma_take_to_set_ends(e.order());
    }
    let mut out = Matrix::empty(t.arity());
    let et = t.iter();
    let ghost kt = t.order();
    let ghost bound = t.dom().len() + e.dom().len();
    let mut i: usize = 0;
    while i < et.len()
        invariant
            i <= et.len(),
            entry_keys(et@) == kt,
            entry_vals(et@) == t.values(),
            kt == t.order(),
            t.wf(),
            e.wf(),
            t.ar() == e.ar(),
            valid(cond, c0.nv()),
            t.valid_below(c0.nv()),
            e.valid_below(c0.nv()),
            bound == t.dom().len() + e.dom().len(),
            c0.nv() + 3 * bound <= u32::MAX,
            grown(&c0, c),
            c.nv() <= c0.nv() + 3 * i,
            out.wf(),
            out.ar() == t.ar(),
            out.valid_below(c.nv()),
            out.dom().subset_of(kt.take(i as int).to_set()),
            forall|s: Assignment| #[trigger] sat(c.cls(), s) ==> out.denote(s) == (if val(cond, s) {
                t.denote(s)
            } else {
                e.denote(s)
            }).intersect(kt.take(i as int).to_set()),
        decreases et.len() - i,
    {
        let x = &et[i].0;
        let tv = et[i].1;
        proof {
            assert(kt[i as int] == et@[i as int].0@);
            assert(t.values()[i as int] == et@[i as int].1);
            lemma_cell_at(t, i as int, c.nv());
            lemma_cell_valid(e, x@, c.nv());
            lemma_take_to_set_step(kt, i as int);
        }
        let ev = e.get(x);
        let ghost c1 = *c;
        let ghost out0 = out;
        let v = c.ite(cond, tv, ev);
        out.set(x.duplicate(), v);
        proof {
            let xv = x@;
            lemma_grown_trans(&c0, &c1, c);
            let ti1 = kt.take(i + 1).to_set();
            assert forall|s: Assignment| #[trigger] sat(c.cls(), s) implies out.denote(s) == (if val(cond, s) {
                t.denote(s)
            } else {
                e.denote(s)
            }).intersect(ti1) by {
                lemma_sat_back(&c1, c, s);
                Matrix::lemma_denote_insert(&out0, &out, xv, v, s);
                Matrix::lemma_denote_cell(t, xv, s);
                Matrix::lemma_denote_cell(e, xv, s);
                assert(out.denote(s) =~= (if val(cond, s) {
                    t.denote(s)
                } else {
                    e.denote(s)
                }).intersect(ti1));
            }
        }
        i = i + 1;
    }
    let ee = e.iter();
    let ghost ke = e.order();
    let mut j: usize = 0;
    while j < ee.len()
        invariant
            j <= ee.len(),
            i == et.len(),
            entry_keys(et@) == kt,
            entry_keys(ee@) == ke,
            entry_vals(ee@) == e.values(),
            kt == t.order(),
            ke == e.order(),
            t.wf(),
            e.wf(),
            t.ar() == e.ar(),
            valid(cond, c0.nv()),
            e.valid_below(c0.nv()),
            bound == t.dom().len() + e.dom().len(),
            c0.nv() + 3 * bound <= u32::MAX,
            grown(&c0, c),
            c.nv() <= c0.nv() + 3 * (t.dom().len() + j),
            out.wf(),
            out.ar() == t.ar(),
            out.valid_below(c.nv()),
            out.dom().subset_of(t.dom().union(ke.take(j as int).to_set())),
            forall|s: Assignment| #[trigger] sat(c.cls(), s) ==> out.denote(s) == (if val(cond, s) {
                t.denote(s)
            } else {
                e.denote(s)
            }).intersect(t.dom().union(ke.take(j as int).to_set())),
        decreases ee.len() - j,
    {
        let x = &ee[j].0;
        let ev = ee[j].1;
        proof {
            assert(ke[j as int] == ee@[j as int].0@);
            assert(e.values()[j as int] == ee@[j as int].1);
            lemma_cell_at(e, j as int, c.nv());
            lemma_take_to_set_step(ke, j as int);
        }
        let ghost c1 = *c;
        let ghost out0 = out;
        if !t.contains_key(x) {
            let v = c.ite(cond, Bool::Const(false), ev);
            out.set(x.duplicate(), v);
            proof {
                let xv = x@;
                lemma_grown_trans(&c0, &c1, c);
                let tj1 = t.dom().union(ke.take(j + 1).to_set());
                assert forall|s: Assignment| #[trigger] sat(c.cls(), s) implies out.denote(s) == (if val(cond, s) {
                    t.denote(s)
                } else {
                    e.denote(s)
                }).intersect(tj1) by {
                    lemma_sat_back(&c1, c, s);
                    Matrix::lemma_denote_insert(&out0, &out, xv, v, s);
                    Matrix::lemma_denote_cell(t, xv, s);
                    Matrix::lemma_denote_cell(e, xv, s);
                    assert(out.denote(s) =~= (if val(cond, s) {
                        t.denote(s)
                    } else {
                        e.denote(s)
                    }).intersect(tj1));
                }
            }
        } else {
            proof {
                let tj1 = t.dom().union(ke.take(j + 1).to_set());
                assert forall|s: Assignment| #[trigger] sat(c.cls(), s) implies out.denote(s) == (if val(cond, s) {
                    t.denote(s)
                } else {
                    e.denote(s)
                }).intersect(tj1) by {
                    assert(out.denote(s) =~= (if val(cond, s) {
                        t.denote(s)
                    } else {
                        e.denote(s)
                    }).intersect(tj1));
                }
            }
        }
        j = j + 1;
    }
    proof {
        assert(ke.take(j as int).to_set() == e.dom());
        assert forall|s: Assignment| #[trigger] sat(c.cls(), s) implies out.denote(s) == if val(cond, s) {
            t.denote(s)
        } else {
            e.denote(s)
        } by {
            assert(out.denote(s) =~= if val(cond, s) {
                t.denote(s)
            } else {
                e.denote(s)
            });
        }
    }
    out
}

/// Concatenation is injective once the length of the left part is fixed.
proof fn lemma_concat_injective(x: Seq<nat>, y: Seq<nat>, x2: Seq<nat>, y2: Seq<nat>)
    requires
        x.len() == x2.len(),
        x + y == x2 + y2,
    ensures
        x == x2,
        y == y2,
{
    assert(x =~= (x + y).take(x.len() as int));
    assert(x2 =~= (x2 + y2).take(x.len() as int));
    assert(y =~= (x + y).skip(x.len() as int));
    assert(y2 =~= (x2 + y2).skip(x.len() as int));
}

/// What the product loop has denoted after the rows before `xi`, and the
/// columns of `tj` in row `xi`.
pub open spec fn product_part(
    a: Set<Seq<nat>>,
    b: Set<Seq<nat>>,
    ti: Set<Seq<nat>>,
    xi: Seq<nat>,
    tj: Set<Seq<nat>>,
) -> Set<Seq<nat>> {
    product_spec(a.intersect(ti), b).union(product_spec(a.intersect(set![xi]), b.intersect(tj)))
}

/// One more column in the current row adds at most the tuple `xi + yj`,
/// which no earlier step produced.
proof fn lemma_product_step(
    a: Set<Seq<nat>>,
    b: Set<Seq<nat>>,
    ti: Set<Seq<nat>>,
    xi: Seq<nat>,
    tj: Set<Seq<nat>>,
    yj: Seq<nat>,
    n: nat,
)
    requires
        forall|x: Seq<nat>| #[trigger] a.contains(x) ==> x.len() == n,
        xi.len() == n,
        !ti.contains(xi),
        !tj.contains(yj),
    ensures
        !product_part(a, b, ti, xi, tj).contains(xi + yj),
        product_part(a, b, ti, xi, tj.insert(yj)) == if a.contains(xi) && b.contains(yj) {
            product_part(a, b, ti, xi, tj).insert(xi + yj)
        } else {
            product_part(a, b, ti, xi, tj)
        },
{
    let t = xi + yj;
    let old_part = product_part(a, b, ti, xi, tj);
    let new_part = product_part(a, b, ti, xi, tj.insert(yj));
    if old_part.contains(t) {
        if product_spec(a.intersect(ti), b).contains(t) {
            let (x, y) = choose|x: Seq<nat>, y: Seq<nat>| a.intersect(ti).contains(x) && b.contains(y) && t == x + y;
            lemma_concat_injective(x, y, xi, yj);
        } else {
            let (x, y) = choose|x: Seq<nat>, y: Seq<nat>| a.intersect(set![xi]).contains(x) && b.intersect(tj).contains(y) && t == x + y;
            lemma_concat_injective(x, y, xi, yj);
        }
    }
    let target = if a.contains(xi) && b.contains(yj) { old_part.insert(t) } else { old_part };
    assert forall|u: Seq<nat>| new_part.contains(u) implies target.contains(u) by {
        if !product_spec(a.intersect(ti), b).contains(u) {
            let (x, y) = choose|x: Seq<nat>, y: Seq<nat>| a.intersect(set![xi]).contains(x) && b.intersect(tj.insert(yj)).contains(y) && u == x + y;
            if y != yj {
                assert(product_spec(a.intersect(set![xi]), b.intersect(tj)).contains(u));
            }
        }
    }
    assert forall|u: Seq<nat>| target.contains(u) implies new_part.contains(u) by {
        if u == t && a.contains(xi) && b.contains(yj) {
            assert(a.intersect(set![xi]).contains(xi));
            assert(b.intersect(tj.insert(yj)).contains(yj));
        } else if !product_spec(a.intersect(ti), b).contains(u) {
            let (x, y) = choose|x: Seq<nat>, y: Seq<nat>| a.intersect(set![xi]).contains(x) && b.intersect(tj).contains(y) && u == x + y;
            assert(b.intersect(tj.insert(yj)).contains(y));
        }
    }
    assert(new_part =~= target);
}

/// Finishing a row: all of `b`'s columns seen, the row joins the finished
/// ones.
proof fn lemma_product_row(a: Set<Seq<nat>>, b: Set<Seq<nat>>, ti: Set<Seq<nat>>, xi: Seq<nat>, tb: Set<Seq<nat>>)
    requires
        b.subset_of(tb),
    ensures
        product_part(a, b, ti, xi, tb) == product_spec(a.intersect(ti.insert(xi)), b),
        product_part(a, b, ti, xi, Set::empty()) == product_spec(a.intersect(ti), b),
{
    let l = product_part(a, b, ti, xi, tb);
    let r = product_spec(a.intersect(ti.insert(xi)), b);
    assert forall|u: Seq<nat>| l.contains(u) implies r.contains(u) by {
        if product_spec(a.intersect(ti), b).contains(u) {
            let (x, y) = choose|x: Seq<nat>, y: Seq<nat>| a.intersect(ti).contains(x) && b.contains(y) && u == x + y;
            assert(a.intersect(ti.insert(xi)).contains(x));
        } else {
            let (x, y) = choose|x: Seq<nat>, y: Seq<nat>| a.intersect(set![xi]).contains(x) && b.intersect(tb).contains(y) && u == x + y;
            assert(a.intersect(ti.insert(xi)).contains(x));
        }
    }
    assert forall|u: Seq<nat>| r.contains(u) implies l.contains(u) by {
        let (x, y) = choose|x: Seq<nat>, y: Seq<nat>| a.intersect(ti.insert(xi)).contains(x) && b.contains(y) && u == x + y;
        if x == xi {
            assert(a.intersect(set![xi]).contains(x));
            assert(b.intersect(tb).contains(y));
        } else {
            assert(a.intersect(ti).contains(x));
        }
    }
    assert(l =~= r);
    let l0 = product_part(a, b, ti, xi, Set::empty());
    assert forall|u: Seq<nat>| l0.contains(u) implies product_spec(a.intersect(ti), b).contains(u) by {
        if !product_spec(a.intersect(ti), b).contains(u) {
            let (x, y) = choose|x: Seq<nat>, y: Seq<nat>| a.intersect(set![xi]).contains(x) && b.intersect(Set::empty()).contains(y) && u == x + y;
        }
    }
    assert(l0 =~= product_spec(a.intersect(ti), b));
}

/// Product `a -> b`: for each tuple of `a` and each of `b`, in order, the
/// concatenation with cell `a[x] ∧ b[y]`.
#[verifier::spinoff_prover]
pub fn product(c: &mut Circuit, a: &Matrix, b: &Matrix) -> (out: Matrix)
    requires
        old(c).wf(),
        a.wf(),
        b.wf(),
        a.ar() + b.ar() <= usize::MAX,
        a.valid_below(old(c).nv()),
        b.valid_below(old(c).nv()),
        old(c).nv() + a.dom().len() * b.dom().len() <= u32::MAX,
    ensures
        grown(old(c), final(c)),
        final(c).nv() <= old(c).nv() + a.dom().len() * b.dom().len(),
        out.wf(),
        out.ar() == a.ar() + b.ar(),
        out.valid_below(final(c).nv()),
        forall|s: Assignment| #[trigger] sat(final(c).cls(), s) ==> out.denote(s) == product_spec(a.denote(s), b.denote(s)),
{
    let ghost c0 = *c;
    let ghost na = a.dom().len();
    let ghost nb = b.dom().len();
    proof {
        lemma_grown_refl(&c0);
        lemma_take_to_set_ends(a.order());
        lemma_take_to_set_ends(b.order());
        assert forall|s: Assignment| #[trigger] sat(c.cls(), s) implies Set::<Seq<nat>>::empty() == product_spec(a.denote(s).intersect(a.order().take(0).to_set()), b.denote(s)) by {
            assert(product_spec(a.denote(s).intersect(a.order().take(0).to_set()), b.denote(s)) =~= Set::<Seq<nat>>::empty());
        }
    }
    let mut out = Matrix::empty(a.arity() + b.arity());
    let ea = a.iter();
    let eb = b.iter();
    let ghost ka = a.order();
    let ghost kb = b.order();
    let mut i: usize = 0;
    while i < ea.len()
        invariant
            i <= ea.len(),
            entry_keys(ea@) == ka,
            entry_vals(ea@) == a.values(),
            entry_keys(eb@) == kb,
            entry_vals(eb@) == b.values(),
            ka == a.order(),
            kb == b.order(),
            na == a.dom().len(),
            nb == b.dom().len(),
            a.wf(),
            b.wf(),
            a.valid_below(c0.nv()),
            b.valid_below(c0.nv()),
            c0.nv() + na * nb <= u32::MAX,
            grown(&c0, c),
            c.nv() <= c0.nv() + i * nb,
            out.wf(),
            out.ar() == a.ar() + b.ar(),
            out.valid_below(c.nv()),
            forall|s: Assignment| #[trigger] sat(c.cls(), s) ==> out.denote(s) == product_spec(
                a.denote(s).intersect(ka.take(i as int).to_set()),
                b.denote(s),
            ),
        decreases ea.len() - i,
    {
        let x = &ea[i].0;
        let av = ea[i].1;
        proof {
            assert(ka[i as int] == ea@[i as int].0@);
            assert(a.values()[i as int] == ea@[i as int].1);
            lemma_cell_at(a, i as int, c.nv());
            lemma_take_to_set_step(ka, i as int);
            assert(i * nb + nb == (i + 1) * nb) by (nonlinear_arith);
            assert((i + 1) * nb <= na * nb) by (nonlinear_arith)
                requires
                    i + 1 <= na,
            ;
        }
        let ghost xv = x@;
        let ghost ti = ka.take(i as int).to_set();
        let mut j: usize = 0;
        proof {
            assert forall|s: Assignment| #[trigger] sat(c.cls(), s) implies out.denote(s) == product_part(
                a.denote(s), b.denote(s), ti, xv, kb.take(0).to_set()) by {
                lemma_product_row(a.denote(s), b.denote(s), ti, xv, kb.to_set());
            }
        }
        while j < eb.len()
            invariant
                j <= eb.len(),
                i < ea.len(),
                entry_keys(ea@) == ka,
                entry_keys(eb@) == kb,
                entry_vals(eb@) == b.values(),
                ka == a.order(),
                kb == b.order(),
                nb == b.dom().len(),
                a.wf(),
                b.wf(),
                xv == ka[i as int],
                xv == x@,
                av == a.cell(xv),
                valid(av, c0.nv()),
                ti == ka.take(i as int).to_set(),
                !ti.contains(xv),
                b.valid_below(c0.nv()),
                c0.nv() + (i + 1) * nb <= u32::MAX,
                grown(&c0, c),
                c.nv() <= c0.nv() + i * nb + j,
                out.wf(),
                out.ar() == a.ar() + b.ar(),
                out.valid_below(c.nv()),
                forall|s: Assignment| #[trigger] sat(c.cls(), s) ==> out.denote(s) == product_part(
                    a.denote(s), b.denote(s), ti, xv, kb.take(j as int).to_set()),
            decreases eb.len() - j,
        {
            let y = &eb[j].0;
            let bv = eb[j].1;
            proof {
                assert(kb[j as int] == eb@[j as int].0@);
                assert(b.values()[j as int] == eb@[j as int].1);
                lemma_cell_at(b, j as int, c.nv());
                lemma_take_to_set_step(kb, j as int);
                assert(i * nb + j < (i + 1) * nb) by (nonlinear_arith)
                    requires
                        j < nb,
                ;
            }
            let ghost c1 = *c;
            let ghost out0 = out;
            let v = c.and(av, bv);
            out.set(x.concat(y), v);
            proof {
                let yv = y@;
                let t = xv + yv;
                lemma_grown_trans(&c0, &c1, c);
                let tj = kb.take(j as int).to_set();
                assert forall|s: Assignment| #[trigger] sat(c.cls(), s) implies out.denote(s) == product_part(
                    a.denote(s), b.denote(s), ti, xv, kb.take(j + 1).to_set()) by {
                    lemma_sat_back(&c1, c, s);
                    Matrix::lemma_denote_cell(a, xv, s);
                    Matrix::lemma_denote_cell(b, yv, s);
                    lemma_product_step(a.denote(s), b.denote(s), ti, xv, tj, yv, a.ar());
                    if v == Bool::Const(false) {
                        Matrix::lemma_denote_same(&out0, &out, s);
                    } else {
                        Matrix::lemma_denote_insert(&out0, &out, t, v, s);
                        if !val(v, s) {
                            assert(out0.denote(s).remove(t) =~= out0.denote(s));
                        }
                    }
                }
            }
            j = j + 1;
        }
        proof {
            assert(kb.len() == eb@.len());
            lemma_take_to_set_ends(kb);
            assert(kb.take(j as int).to_set() == b.dom());
            assert forall|s: Assignment| #[trigger] sat(c.cls(), s) implies out.denote(s) == product_spec(
                a.denote(s).intersect(ka.take(i + 1).to_set()),
                b.denote(s),
            ) by {
                lemma_product_row(a.denote(s), b.denote(s), ti, xv, kb.to_set());
            }
        }
        i = i + 1;
    }
    proof {
        assert forall|s: Assignment| #[trigger] sat(c.cls(), s) implies out.denote(s) == product_spec(a.denote(s), b.denote(s)) by {
            assert(a.denote(s).intersect(ka.take(i as int).to_set()) =~= a.denote(s));
        }
    }
    out
}

/// Union `a + b`: a cell `a[t] ∨ b[t]` for each tuple of `a`, then `b[t]`
/// for each tuple of `b` outside `a`.
#[verifier::spinoff_prover]
pub fn union(c: &mut Circuit, a: &Matrix, b: &Matrix) -> (out: Matrix)
    requires
        old(c).wf(),
        a.wf(),
        b.wf(),
        a.ar() == b.ar(),
        a.valid_below(old(c).nv()),
        b.valid_below(old(c).nv()),
        old(c).nv() + a.dom().len() <= u32::MAX,
    ensures
        grown(old(c), final(c)),
        final(c).nv() <= old(c).nv() + a.dom().len(),
        out.wf(),
        out.ar() == a.ar(),
        out.valid_below(final(c).nv()),
        out.dom().subset_of(a.dom().union(b.dom())),
        forall|s: Assignment| #[trigger] sat(final(c).cls(), s) ==> out.denote(s) == a.denote(s).union(b.denote(s)),
        a.all_const() && b.all_const() ==> out.all_const() && final(c).same(old(c)),
{
    let ghost c0 = *c;
    let ghost cst = a.all_const() && b.all_const();
    proof {
        lemma_grown_refl(&c0);
        lemma_take_to_set_ends(a.order());
    }
    let mut out = Matrix::empty(a.arity());
    let ea = a.iter();
    let ghost ka = a.order();
    let mut i: usize = 0;
    while i < ea.len()
        invariant
            i <= ea.len(),
            entry_keys(ea@) == ka,
            entry_vals(ea@) == a.values(),
            ka == a.order(),
            a.wf(),
            b.wf(),
            a.ar() == b.ar(),
            a.valid_below(c0.nv()),
            b.valid_below(c0.nv()),
            c0.nv() + a.dom().len() <= u32::MAX,
            grown(&c0, c),
            c.nv() <= c0.nv() + i,
            out.wf(),
            out.ar() == a.ar(),
            out.valid_below(c.nv()),
            out.dom().subset_of(ka.take(i as int).to_set()),
            forall|s: Assignment| #[trigger] sat(c.cls(), s) ==> out.denote(s) == a.denote(s).union(
                b.denote(s),
            ).intersect(ka.take(i as int).to_set()),
            cst == (a.all_const() && b.all_const()),
            cst ==> out.all_const() && c.same(&c0),
        decreases ea.len() - i,
    {
        let t = &ea[i].0;
        let av = ea[i].1;
        proof {
            assert(ka[i as int] == ea@[i as int].0@);
            assert(a.values()[i as int] == ea@[i as int].1);
            lemma_cell_at(a, i as int, c.nv());
            lemma_cell_valid(b, t@, c.nv());
        }
        let bv = b.get(t);
        let ghost c1 = *c;
        let ghost out0 = out;
        proof {
            if cst {
                assert(a.dom().contains(ka[i as int]));
                if b.dom().contains(t@) {
                    assert(b.cells()[t@] is Const);
                }
            }
        }
        let v = c.or(av, bv);
        out.set(t.duplicate(), v);
        proof {
            let tv = t@;
            if cst {
                assert forall|u: Seq<nat>| out.dom().contains(u) implies (#[trigger] out.cells()[u]) is Const by {
                    if u != tv {
                        assert(out0.dom().contains(u));
                    }
                }
            }
            lemma_grown_trans(&c0, &c1, c);
            lemma_take_to_set_step(ka, i as int);
            let ti = ka.take(i as int).to_set();
            let ti1 = ka.take(i + 1).to_set();
            assert forall|s: Assignment| #[trigger] sat(c.cls(), s) implies out.denote(s) == a.denote(s).union(
                b.denote(s),
            ).intersect(ti1) by {
                lemma_sat_back(&c1, c, s);
                Matrix::lemma_denote_insert(&out0, &out, tv, v, s);
                Matrix::lemma_denote_cell(a, tv, s);
                Matrix::lemma_denote_cell(b, tv, s);
                let u = a.denote(s).union(b.denote(s));
                if val(v, s) {
                    assert(out.denote(s) =~= u.intersect(ti1));
                } else {
                    assert(out.denote(s) =~= u.intersect(ti1));
                }
            }
        }
        i = i + 1;
    }
    proof {
        lemma_take_to_set_ends(b.order());
    }
    let eb = b.iter();
    let ghost kb = b.order();
    let mut j: usize = 0;
    while j < eb.len()
        invariant
            j <= eb.len(),
            i == ea.len(),
            entry_keys(ea@) == ka,
            entry_keys(eb@) == kb,
            entry_vals(eb@) == b.values(),
            ka == a.order(),
            kb == b.order(),
            a.wf(),
            b.wf(),
            a.ar() == b.ar(),
            b.valid_below(c0.nv()),
            grown(&c0, c),
            c.nv() <= c0.nv() + a.dom().len(),
            out.wf(),
            out.ar() == a.ar(),
            out.valid_below(c.nv()),
            out.dom().subset_of(a.dom().union(kb.take(j as int).to_set())),
            forall|s: Assignment| #[trigger] sat(c.cls(), s) ==> out.denote(s) == a.denote(s).union(
                b.denote(s),
            ).intersect(a.dom().union(kb.take(j as int).to_set())),
            cst == (a.all_const() && b.all_const()),
            cst ==> out.all_const() && c.same(&c0),
        decreases eb.len() - j,
    {
        let t = &eb[j].0;
        let bv = eb[j].1;
        proof {
            assert(kb[j as int] == eb@[j as int].0@);
            assert(b.values()[j as int] == eb@[j as int].1);
            lemma_cell_at(b, j as int, c.nv());
            lemma_take_to_set_step(kb, j as int);
        }
        let ghost out0 = out;
        if !a.contains_key(t) {
            out.set(t.duplicate(), bv);
        }
        proof {
            let tv = t@;
            if cst {
                assert(b.dom().contains(kb[j as int]));
                assert forall|u: Seq<nat>| out.dom().contains(u) implies (#[trigger] out.cells()[u]) is Const by {
                    if u != tv {
                        assert(out0.dom().contains(u));
                    }
                }
            }
            let tj1 = a.dom().union(kb.take(j + 1).to_set());
            assert forall|s: Assignment| #[trigger] sat(c.cls(), s) implies out.denote(s) == a.denote(s).union(
                b.denote(s),
            ).intersect(tj1) by {
                Matrix::lemma_denote_cell(b, tv, s);
                let u = a.denote(s).union(b.denote(s));
                if !a.dom().contains(tv) {
                    Matrix::lemma_denote_insert(&out0, &out, tv, bv, s);
                    assert(out.denote(s) =~= u.intersect(tj1));
                } else {
                    assert(out.denote(s) =~= u.intersect(tj1));
                }
            }
        }
        j = j + 1;
    }
    proof {
        assert(kb.take(j as int).to_set() == b.dom());
        assert forall|s: Assignment| #[trigger] sat(c.cls(), s) implies out.denote(s) == a.denote(s).union(b.denote(s)) by {
            assert(out.denote(s) =~= a.denote(s).union(b.denote(s)));
        }
    }
    out
}

} // verus!
