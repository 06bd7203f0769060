//! Integer terms over relation matrices: cardinality, the integer value of a
//! set of `Int` atoms and the `Int` atom of an integer value, and the
//! composition of integer operations with their overflow flags.
//!
//! The `Int` atoms are the universe positions `int_start .. int_end`; at
//! bitwidth `bw` they stand for `−2^(bw−1)`, `−2^(bw−1) + 1`, … in order.

use vstd::prelude::*;

use vstd::arithmetic::power2::{lemma_pow2_pos, pow2};

use crate::bounds::{AtomId, TupleSet};
use crate::circuit::{all_valid, sat, val, valid, Assignment, Bool, Circuit};
use crate::encode::integer::{
    bit, div_value, in_range, is_mask_width, lemma_sval_wrap, rem_value, shl_overflow, sval, uval, wrap, IntBuilder, IntVal,
};
use crate::ir::{IntBinOp, IntCmpOp};
use crate::encode::{grown, lemma_cell_at, lemma_grown_refl, lemma_grown_trans, lemma_sat_back};
use crate::relspec::{lemma_take_to_set_ends, lemma_take_to_set_step};
use crate::tuple_map::{entry_keys, entry_vals};
use crate::matrix::Matrix;

verus! {

/// How many of the formulas hold.
pub open spec fn count_true(cells: Seq<Bool>, s: Assignment) -> nat
    decreases cells.len(),
{
    if cells.len() == 0 {
        0
    } else {
        count_true(cells.drop_last(), s) + if val(cells.last(), s) {
            1nat
        } else {
            0nat
        }
    }
}

/// The bits of a constant value, each gated by `cell`: the value where the
/// cell holds, else zero. A constant's bits need no gate: each becomes the
/// cell (bit set) or false.
pub fn gate_intval(cell: Bool, konst: &IntVal) -> (r: IntVal)
    requires
        forall|k: int| 0 <= k < konst@.len() ==> (#[trigger] konst@[k]) is Const,
    ensures
        r@.len() == konst@.len(),
        forall|k: int| 0 <= k < r@.len() ==> #[trigger] r@[k] == if konst@[k] == Bool::Const(true) {
            cell
        } else {
            Bool::Const(false)
        },
        forall|n: nat| valid(cell, n) ==> all_valid(r@, n),
        forall|s: Assignment| #[trigger] uval(r@, s) == bit(cell, s) * uval(konst@, s),
        forall|s: Assignment| #[trigger] sval(r@, s) == bit(cell, s) * sval(konst@, s),
{
    let src = konst.bits();
    let mut bits: Vec<Bool> = Vec::new();
    let mut k: usize = 0;
    while k < src.len()
        invariant
            k <= src@.len(),
            src@ == konst@,
            bits@.len() == k,
            forall|j: int| 0 <= j < k ==> #[trigger] bits@[j] == if src@[j] == Bool::Const(true) {
                cell
            } else {
                Bool::Const(false)
            },
        decreases src@.len() - k,
    {
        let b = match src[k] {
            Bool::Const(true) => cell,
            _ => Bool::Const(false),
        };
        bits.push(b);
        k = k + 1;
    }
    let r = IntVal::from_bits(bits);
    proof {
        assert forall|s: Assignment| #[trigger] uval(r@, s) == bit(cell, s) * uval(konst@, s) && sval(r@, s) == bit(cell, s) * sval(
            konst@,
            s,
        ) by {
            if val(cell, s) {
                assert forall|j: int| 0 <= j < r@.len() implies val(#[trigger] r@[j], s) == val(konst@[j], s) by {
                    assert(konst@[j] is Const);
                }
                crate::encode::integer::lemma_uval_same(r@, konst@, s);
            } else {
                let z = Seq::new(r@.len(), |i: int| Bool::Const(false));
                assert forall|j: int| 0 <= j < r@.len() implies val(#[trigger] r@[j], s) == val(z[j], s) by {}
                crate::encode::integer::lemma_uval_same(r@, z, s);
                crate::encode::integer::lemma_uval_zeros(r@.len(), s);
                if r@.len() >= 1 {
                    assert(sval(z, s) == uval(z, s) - pow2(z.len()) * bit(z.last(), s));
                }
            }
        }
    }
    r
}

/// The integer an atom stands for: for the `Int` atoms (positions
/// `int_start .. int_end`) at a nonzero bitwidth, `−2^(bw−1)` plus the offset
/// into the run (the offset capped at `i64::MAX`); nothing for other atoms.
pub open spec fn int_atom_value(idx: nat, int_start: nat, int_end: nat, bw: nat) -> Option<int> {
    if int_start <= idx < int_end && bw != 0 {
        let off = idx - int_start;
        Some(-pow2((bw - 1) as nat) + if off <= i64::MAX { off } else { i64::MAX as int })
    } else {
        None
    }
}

/// The integer value of an `Int` atom, if `atom` is one.
pub fn atom_int_value(atom: AtomId, int_start: usize, int_end: usize, bitwidth: u32) -> (v: Option<i64>)
    requires
        bitwidth <= 63,
    ensures
        v matches Some(x) ==> int_atom_value(atom.index as nat, int_start as nat, int_end as nat, bitwidth as nat) == Some(x as int),
        v is None ==> int_atom_value(atom.index as nat, int_start as nat, int_end as nat, bitwidth as nat) is None,
{
    let idx = atom.index();
    if idx < int_start || idx >= int_end {
        return None;
    }
    let bw = bitwidth;
    if bw == 0 {
        return None;
    }
    proof {
        vstd::arithmetic::power2::lemma2_to64();
        vstd::arithmetic::power2::lemma2_to64_rest();
        if bw - 1 < 62 {
            vstd::arithmetic::power2::lemma_pow2_strictly_increases((bw - 1) as nat, 62);
        }
        vstd::bits::lemma_u64_shl_is_mul(1, (bw - 1) as u64);
    }
    let half: u64 = 1u64 << ((bw - 1) as u64);
    let low: i64 = -(half as i64);
    let d = idx - int_start;
    let off: i64 = if (d as u64) <= (i64::MAX as u64) {
        d as i64
    } else {
        i64::MAX
    };
    Some(low + off)
}

/// Cardinality `#m`: the matrix's cells counted by a ripple of one-bit
/// additions, then read at the builder's width. The count's wrap is the
/// value; the flag says the count leaves the signed range.
pub fn int_card(ib: &mut IntBuilder, m: &Matrix) -> (r: (IntVal, Bool))
    requires
        old(ib).c().wf(),
        old(ib).wid() >= 1,
        m.wf(),
        m.valid_below(old(ib).c().nv()),
        old(ib).c().nv() + 9 * m.values().len() * m.values().len() + 1 <= u32::MAX,
    ensures
        grown(&old(ib).c(), &final(ib).c()),
        final(ib).c().nv() <= old(ib).c().nv() + 9 * m.values().len() * m.values().len() + 1,
        final(ib).wid() == old(ib).wid(),
        r.0@.len() == old(ib).wid(),
        all_valid(r.0@, final(ib).c().nv()),
        valid(r.1, final(ib).c().nv()),
        forall|s: Assignment| #[trigger] sat(final(ib).c().cls(), s) ==> sval(r.0@, s) == wrap(count_true(m.values(), s) as int, old(ib).wid())
            && val(r.1, s) == !in_range(count_true(m.values(), s) as int, old(ib).wid()),
{
    let ghost c0 = ib.c();
    let entries = m.iter();
    let ghost cells = m.values();
    let n = entries.len();
    proof {
        lemma_grown_refl(&c0);
        crate::matrix::Matrix::lemma_wf(m);
        assert(cells.len() == n);
        assert forall|j: int| 0 <= j < n implies valid(#[trigger] cells[j], c0.nv()) && entries@[j].1 == cells[j] by {
            assert(crate::tuple_map::entry_vals(entries@)[j] == entries@[j].1);
            assert(m.dom().contains(m.order()[j]));
        }
        assert(cells.take(0) =~= Seq::<Bool>::empty());
    }
    let mut acc: Vec<Bool> = Vec::new();
    acc.push(Bool::Const(false));
    proof {
        assert(acc@.drop_last() =~= Seq::<Bool>::empty());
        vstd::arithmetic::power2::lemma2_to64();
        assert forall|s: Assignment| #[trigger] sat(ib.c().cls(), s) implies uval(acc@, s) == count_true(cells.take(0), s) by {
            assert(uval(acc@.drop_last(), s) == 0);
        }
    }
    let mut i: usize = 0;
    while i < n
        invariant
            i <= n,
            n == cells.len(),
            n == entries@.len(),
            forall|j: int| 0 <= j < n ==> valid(#[trigger] cells[j], c0.nv()) && entries@[j].1 == cells[j],
            c0.wf(),
            c0.nv() + 9 * n * n + 1 <= u32::MAX,
            grown(&c0, &ib.c()),
            ib.wid() == old(ib).wid(),
            1 <= acc@.len() <= i + 1,
            ib.c().nv() <= c0.nv() + 9 * n * i,
            all_valid(acc@, ib.c().nv()),
            forall|s: Assignment| #[trigger] sat(ib.c().cls(), s) ==> uval(acc@, s) == count_true(cells.take(i as int), s),
        decreases n - i,
    {
        let ghost c1 = ib.c();
        proof {
            assert(9 * n * i + 9 * n == 9 * n * (i + 1)) by (nonlinear_arith);
            assert(9 * (i + 1) <= 9 * n) by (nonlinear_arith)
                requires
                    i < n,
            ;
            assert(9 * n * (i + 1) <= 9 * n * n) by (nonlinear_arith)
                requires
                    i < n,
            ;
        }
        proof {
            assert(valid(cells[i as int], c0.nv()));
            assert(entries@[i as int].1 == cells[i as int]);
        }
        let next = ib.add_bit(acc.as_slice(), entries[i].1);
        acc = next;
        proof {
            lemma_grown_trans(&c0, &c1, &ib.c());
            assert(cells.take(i + 1).drop_last() =~= cells.take(i as int));
            assert forall|s: Assignment| #[trigger] sat(ib.c().cls(), s) implies uval(acc@, s) == count_true(cells.take(i + 1), s) by {
                lemma_sat_back(&c1, &ib.c(), s);
            }
        }
        i = i + 1;
    }
    proof {
        assert(cells.take(n as int) =~= cells);
        assert(9 * n * i <= 9 * n * n) by (nonlinear_arith)
            requires
                i <= n,
        ;
    }
    let ghost c2 = ib.c();
    let r = ib.unsigned_to_signed(acc.as_slice());
    proof {
        lemma_grown_trans(&c0, &c2, &ib.c());
        assert forall|s: Assignment| #[trigger] sat(ib.c().cls(), s) implies sval(r.0@, s) == wrap(count_true(cells, s) as int, old(ib).wid())
            && val(r.1, s) == !in_range(count_true(cells, s) as int, old(ib).wid()) by {
            lemma_sat_back(&c2, &ib.c(), s);
            lemma_sval_wrap(r.0@, count_true(cells, s) as int, s);
            lemma_pow2_pos((old(ib).wid() - 1) as nat);
        }
    }
    r
}

/// The integer an atom stands for, zero for an atom that stands for none.
pub open spec fn atom_value_or_zero(idx: nat, int_start: nat, int_end: nat, bw: nat) -> int {
    match int_atom_value(idx, int_start, int_end, bw) {
        Some(x) => x,
        None => 0,
    }
}

/// `Int[v]`: the unary matrix over the `Int` atoms whose cell for each atom
/// says that `v` equals the atom's value (at the builder's width).
pub fn int_to_atom(ib: &mut IntBuilder, v: &IntVal, int_start: usize, int_end: usize, bitwidth: u32) -> (m: Matrix)
    requires
        old(ib).c().wf(),
        1 <= old(ib).wid() <= 64,
        v@.len() == old(ib).wid(),
        all_valid(v@, old(ib).c().nv()),
        bitwidth <= 63,
        int_start <= int_end,
        old(ib).c().nv() + (int_end - int_start) * (3 * old(ib).wid() + 1) <= u32::MAX,
    ensures
        grown(&old(ib).c(), &final(ib).c()),
        final(ib).c().nv() <= old(ib).c().nv() + (int_end - int_start) * (3 * old(ib).wid() + 1),
        final(ib).wid() == old(ib).wid(),
        m.wf(),
        m.ar() == 1,
        m.valid_below(final(ib).c().nv()),
        forall|t: Seq<nat>| #[trigger] m.dom().contains(t) ==> t.len() == 1 && int_start <= t[0] < int_end,
        forall|s: Assignment, i: nat|
            #![trigger sat(final(ib).c().cls(), s), m.cell(seq![i])]
            sat(final(ib).c().cls(), s) && int_start <= i < int_end ==> val(m.cell(seq![i]), s) == (sval(v@, s) == wrap(
                atom_value_or_zero(i, int_start as nat, int_end as nat, bitwidth as nat),
                old(ib).wid(),
            )),
{
    let ghost c0 = ib.c();
    let w = ib.width();
    proof {
        lemma_grown_refl(&c0);
    }
    let mut m = Matrix::empty(1);
    let mut i: usize = int_start;
    while i < int_end
        invariant
            int_start <= i <= int_end,
            w == ib.wid(),
            ib.wid() == old(ib).wid(),
            1 <= w <= 64,
            bitwidth <= 63,
            v@.len() == w,
            c0.wf(),
            all_valid(v@, c0.nv()),
            c0.nv() + (int_end - int_start) * (3 * w + 1) <= u32::MAX,
            grown(&c0, &ib.c()),
            ib.c().nv() <= c0.nv() + (i - int_start) * (3 * w + 1),
            m.wf(),
            m.ar() == 1,
            m.valid_below(ib.c().nv()),
            forall|t: Seq<nat>| #[trigger] m.dom().contains(t) ==> t.len() == 1 && int_start <= t[0] < i,
            forall|s: Assignment, j: nat|
                #![trigger sat(ib.c().cls(), s), m.cell(seq![j])]
                sat(ib.c().cls(), s) && int_start <= j < i ==> val(m.cell(seq![j]), s) == (sval(v@, s) == wrap(
                    atom_value_or_zero(j, int_start as nat, int_end as nat, bitwidth as nat),
                    w as nat,
                )),
        decreases int_end - i,
    {
        let ghost c1 = ib.c();
        let ghost m0 = m.cells();
        let ghost mm = m;
        let atom = AtomId::from_index(i);
        let value: i64 = match atom_int_value(atom, int_start, int_end, bitwidth) {
            Some(x) => x,
            None => 0,
        };
        let konst = IntVal::constant(value, w);
        proof {
            assert((i - int_start) * (3 * w + 1) + (3 * w + 1) == (i + 1 - int_start) * (3 * w + 1)) by (nonlinear_arith);
            assert((i + 1 - int_start) * (3 * w + 1) <= (int_end - int_start) * (3 * w + 1)) by (nonlinear_arith)
                requires
                    i < int_end,
            ;
        }
        let cell = ib.eq(v, &konst);
        let mut atoms: Vec<AtomId> = Vec::new();
        atoms.push(atom);
        let t = crate::bounds::Tuple::new(atoms);
        proof {
            assert(t@ =~= seq![i as nat]);
            assert(!m.dom().contains(t@));
        }
        m.set(t, cell);
        proof {
            lemma_grown_trans(&c0, &c1, &ib.c());
            assert forall|tt: Seq<nat>| #[trigger] m.dom().contains(tt) implies valid(m.cells()[tt], ib.c().nv()) by {
                if tt != t@ {
                    assert(m0.dom().contains(tt));
                }
            }
            assert forall|s: Assignment, j: nat|
                #![trigger sat(ib.c().cls(), s), m.cell(seq![j])]
                sat(ib.c().cls(), s) && int_start <= j < i + 1 implies val(m.cell(seq![j]), s) == (sval(v@, s) == wrap(
                    atom_value_or_zero(j, int_start as nat, int_end as nat, bitwidth as nat),
                    w as nat,
                )) by {
                lemma_sat_back(&c1, &ib.c(), s);
                if j == i {
                    assert(seq![j] == t@);
                } else {
                    assert(seq![j] != t@) by {
                        assert(seq![j][0] != t@[0]);
                    }
                    assert(m.cell(seq![j]) == mm.cell(seq![j]));
                    assert(sat(c1.cls(), s));
                }
            }
        }
        i = i + 1;
    }
    m
}

/// The `(cell, value)` terms of the unary tuples of a matrix that are `Int`
/// atoms, in tuple order.
pub open spec fn int_terms(order: Seq<Seq<nat>>, cells: Seq<Bool>, int_start: nat, int_end: nat, bw: nat) -> Seq<(Bool, int)>
    decreases order.len(),
{
    if order.len() == 0 || cells.len() == 0 {
        Seq::empty()
    } else {
        let rest = int_terms(order.drop_last(), cells.drop_last(), int_start, int_end, bw);
        let t = order.last();
        if t.len() == 1 && int_atom_value(t[0], int_start, int_end, bw) is Some {
            rest.push((cells.last(), int_atom_value(t[0], int_start, int_end, bw)->0))
        } else {
            rest
        }
    }
}

/// The sum of the present terms, each value wrapped to `w`.
pub open spec fn terms_total(terms: Seq<(Bool, int)>, w: nat, s: Assignment) -> int
    decreases terms.len(),
{
    if terms.len() == 0 {
        0
    } else {
        terms_total(terms.drop_last(), w, s) + bit(terms.last().0, s) * wrap(terms.last().1, w)
    }
}

/// Whether some step of the running sum, kept wrapped to `w`, leaves the
/// signed range when the next present term is added.
pub open spec fn terms_overflow(terms: Seq<(Bool, int)>, w: nat, s: Assignment) -> bool
    decreases terms.len(),
{
    if terms.len() == 0 {
        false
    } else {
        terms_overflow(terms.drop_last(), w, s) || !in_range(
            wrap(terms_total(terms.drop_last(), w, s), w) + bit(terms.last().0, s) * wrap(terms.last().1, w),
            w,
        )
    }
}

/// Wrapping before an addition changes nothing after it.
pub proof fn lemma_wrap_add(x: int, y: int, w: nat)
    requires
        w >= 1,
    ensures
        wrap(wrap(x, w) + y, w) == wrap(x + y, w),
{
    let m = pow2(w) as int;
    let h = pow2((w - 1) as nat) as int;
    lemma_pow2_pos(w);
    crate::encode::integer::lemma_wrap_mod(x, w);
    vstd::arithmetic::div_mod::lemma_add_mod_noop(wrap(x, w), y + h, m);
    vstd::arithmetic::div_mod::lemma_add_mod_noop(x, y + h, m);
    assert(wrap(x, w) + y + h == wrap(x, w) + (y + h));
    assert(x + y + h == x + (y + h));
}

/// A value held as a list of (cell, value) pairs.
pub open spec fn pair_views(v: Seq<(Bool, i64)>) -> Seq<(Bool, int)> {
    v.map_values(|p: (Bool, i64)| (p.0, p.1 as int))
}

/// `int[m]`: the sum of the values of the `Int` atoms among the matrix's
/// unary tuples, each gated by its cell and added in two's complement at
/// the builder's width; the flag is set when any addition overflows.
pub fn int_atom_to_int(ib: &mut IntBuilder, m: &Matrix, int_start: usize, int_end: usize, bitwidth: u32) -> (r: (IntVal, Bool))
    requires
        old(ib).c().wf(),
        1 <= old(ib).wid() <= 64,
        bitwidth <= 63,
        m.wf(),
        m.valid_below(old(ib).c().nv()),
        old(ib).c().nv() + m.values().len() * (9 * old(ib).wid() + 4) <= u32::MAX,
    ensures
        grown(&old(ib).c(), &final(ib).c()),
        final(ib).c().nv() <= old(ib).c().nv() + m.values().len() * (9 * old(ib).wid() + 4),
        final(ib).wid() == old(ib).wid(),
        r.0@.len() == old(ib).wid(),
        all_valid(r.0@, final(ib).c().nv()),
        valid(r.1, final(ib).c().nv()),
        forall|s: Assignment| #[trigger] sat(final(ib).c().cls(), s) ==> {
            let terms = int_terms(m.order(), m.values(), int_start as nat, int_end as nat, bitwidth as nat);
            &&& sval(r.0@, s) == wrap(terms_total(terms, old(ib).wid(), s), old(ib).wid())
            &&& val(r.1, s) == terms_overflow(terms, old(ib).wid(), s)
        },
{
    let ghost c0 = ib.c();
    let w = ib.width();
    let entries = m.iter();
    let ghost order = m.order();
    let ghost cells = m.values();
    let ghost all_terms = int_terms(order, cells, int_start as nat, int_end as nat, bitwidth as nat);
    proof {
        lemma_grown_refl(&c0);
        crate::matrix::Matrix::lemma_wf(m);
        assert(order.take(0) =~= Seq::<Seq<nat>>::empty());
        assert forall|p: int| 0 <= p < cells.len() implies valid(#[trigger] cells[p], c0.nv()) by {
            assert(m.cells()[order[p]] == cells[p]);
            assert(m.dom().contains(order[p]));
        }
    }
    let mut terms: Vec<(Bool, i64)> = Vec::new();
    let mut k: usize = 0;
    while k < entries.len()
        invariant
            k <= entries@.len(),
            entries@.len() == order.len(),
            order.len() == cells.len(),
            crate::tuple_map::entry_keys(entries@) == order,
            crate::tuple_map::entry_vals(entries@) == cells,
            bitwidth <= 63,
            terms@.len() <= k,
            forall|j: int| 0 <= j < terms@.len() ==> valid((#[trigger] terms@[j]).0, c0.nv()),
            forall|p: int| 0 <= p < cells.len() ==> valid(#[trigger] cells[p], c0.nv()),
            pair_views(terms@) == int_terms(order.take(k as int), cells.take(k as int), int_start as nat, int_end as nat, bitwidth as nat),
        decreases entries@.len() - k,
    {
        let t = &entries[k].0;
        let cell = entries[k].1;
        proof {
            assert(order[k as int] == t@);
            assert(cells[k as int] == cell);
            assert(order.take(k + 1).drop_last() =~= order.take(k as int));
            assert(cells.take(k + 1).drop_last() =~= cells.take(k as int));
        }
        let ghost tv0 = pair_views(terms@);
        let ghost tt0 = terms@;
        proof {
            assert(valid(cells[k as int], c0.nv()));
        }
        if t.arity() == 1 {
            let atom = t.atoms()[0];
            proof {
                assert(t@[0] == atom.index as nat);
            }
            match atom_int_value(atom, int_start, int_end, bitwidth) {
                Some(v) => {
                    terms.push((cell, v));
                    proof {
                        assert(pair_views(terms@) =~= tv0.push((cell, v as int)));
                        assert forall|j: int| 0 <= j < terms@.len() implies valid((#[trigger] terms@[j]).0, c0.nv()) by {
                            if j < tt0.len() {
                                assert(terms@[j] == tt0[j]);
                            }
                        }
                    }
                },
                None => {},
            }
        }
        k = k + 1;
    }
    proof {
        assert(order.take(k as int) =~= order);
        assert(cells.take(k as int) =~= cells);
    }
    let mut acc = IntVal::constant(0, w);
    let mut overflow = Bool::Const(false);
    proof {
        assert(pair_views(terms@).take(0) =~= Seq::<(Bool, int)>::empty());
        assert forall|s: Assignment| #[trigger] sat(ib.c().cls(), s) implies sval(acc@, s) == wrap(terms_total(pair_views(terms@).take(0), w as nat, s), w as nat)
            && val(overflow, s) == terms_overflow(pair_views(terms@).take(0), w as nat, s) by {}
    }
    let mut i: usize = 0;
    while i < terms.len()
        invariant
            i <= terms@.len(),
            terms@.len() <= cells.len(),
            w == ib.wid(),
            ib.wid() == old(ib).wid(),
            1 <= w <= 64,
            forall|j: int| 0 <= j < terms@.len() ==> valid((#[trigger] terms@[j]).0, c0.nv()),
            c0.wf(),
            c0.nv() + cells.len() * (9 * w + 4) <= u32::MAX,
            grown(&c0, &ib.c()),
            ib.c().nv() <= c0.nv() + i * (9 * w + 4),
            acc@.len() == w,
            all_valid(acc@, ib.c().nv()),
            valid(overflow, ib.c().nv()),
            forall|s: Assignment| #[trigger] sat(ib.c().cls(), s) ==> sval(acc@, s) == wrap(terms_total(pair_views(terms@).take(i as int), w as nat, s), w as nat)
                && val(overflow, s) == terms_overflow(pair_views(terms@).take(i as int), w as nat, s),
        decreases terms@.len() - i,
    {
        let ghost c1 = ib.c();
        let ghost acc0 = acc@;
        let ghost ov0 = overflow;
        let (cell, value) = terms[i];
        proof {
            assert(i * (9 * w + 4) + (9 * w + 4) == (i + 1) * (9 * w + 4)) by (nonlinear_arith);
            assert((i + 1) * (9 * w + 4) <= cells.len() * (9 * w + 4)) by (nonlinear_arith)
                requires
                    i < cells.len(),
            ;
            assert(valid(cell, c0.nv()));
        }
        let konst = IntVal::constant(value, w);
        let gated = gate_intval(cell, &konst);
        let (next, add_of) = ib.add_signed(&acc, &gated);
        let ghost c2 = ib.c();
        let of = ib.circuit_mut().or(overflow, add_of);
        acc = next;
        overflow = of;
        proof {
            lemma_grown_trans(&c1, &c2, &ib.c());
            lemma_grown_trans(&c0, &c1, &ib.c());
            let pv = pair_views(terms@);
            assert(pv.take(i + 1).drop_last() =~= pv.take(i as int));
            assert(pv.take(i + 1).last() == (cell, value as int));
            assert forall|s: Assignment| #[trigger] sat(ib.c().cls(), s) implies sval(acc@, s) == wrap(terms_total(pv.take(i + 1), w as nat, s), w as nat)
                && val(overflow, s) == terms_overflow(pv.take(i + 1), w as nat, s) by {
                lemma_sat_back(&c2, &ib.c(), s);
                lemma_sat_back(&c1, &c2, s);
                let tot = terms_total(pv.take(i as int), w as nat, s);
                assert(sval(acc0, s) == wrap(tot, w as nat));
                assert(sval(gated@, s) == bit(cell, s) * wrap(value as int, w as nat));
                lemma_wrap_add(tot, bit(cell, s) * wrap(value as int, w as nat), w as nat);
            }
        }
        i = i + 1;
    }
    proof {
        assert(pair_views(terms@).take(i as int) =~= pair_views(terms@));
        assert(i * (9 * w + 4) <= cells.len() * (9 * w + 4)) by (nonlinear_arith)
            requires
                i <= cells.len(),
        ;
    }
    (acc, overflow)
}

/// What the result `r` of integer operation `op` on `a` and `b` holds at
/// width `w`, `m` being the shift mask width: the wrapped sum, difference
/// or product; the quotient and remainder of signed division; the shifted
/// value.
pub open spec fn int_op_result(op: IntBinOp, a: Seq<Bool>, b: Seq<Bool>, w: nat, m: nat, r: Seq<Bool>, s: Assignment) -> bool {
    let x = sval(a, s);
    let y = sval(b, s);
    match op {
        IntBinOp::Add => sval(r, s) == wrap(x + y, w),
        IntBinOp::Sub => sval(r, s) == wrap(x - y, w),
        IntBinOp::Mul => sval(r, s) == wrap(x * y, w),
        IntBinOp::Div => sval(r, s) == div_value(x, y, w),
        IntBinOp::Rem => sval(r, s) == rem_value(x, y),
        IntBinOp::Shl => uval(r, s) == (uval(a, s) * pow2(uval(b.take(m as int), s) as nat)) % (pow2(w) as int),
        IntBinOp::Sha => sval(r, s) == x / (pow2(uval(b.take(m as int), s) as nat) as int),
        IntBinOp::Shr => uval(r, s) == uval(a, s) / (pow2(uval(b.take(m as int), s) as nat) as int),
    }
}

/// Whether integer operation `op` on `a` and `b` overflows by itself at
/// width `w` (`m` the shift mask width): the exact result leaves the signed
/// range, division by zero or of the most negative value by `−1`, the left
/// shift's own check; the right shifts never do.
pub open spec fn int_op_flag(op: IntBinOp, a: Seq<Bool>, b: Seq<Bool>, w: nat, m: nat, s: Assignment) -> bool {
    let x = sval(a, s);
    let y = sval(b, s);
    match op {
        IntBinOp::Add => !in_range(x + y, w),
        IntBinOp::Sub => !in_range(x - y, w),
        IntBinOp::Mul => !in_range(x * y, w),
        IntBinOp::Div => y == 0 || (x == -pow2((w - 1) as nat) && y == -1),
        IntBinOp::Rem => y == 0,
        IntBinOp::Shl => shl_overflow(a, b, m, s),
        IntBinOp::Sha => false,
        IntBinOp::Shr => false,
    }
}

/// A binary integer operation on operands with their overflow flags: the
/// result, and the flag of either operand or of the operation itself.
pub fn int_binary(ib: &mut IntBuilder, op: IntBinOp, a: &IntVal, oa: Bool, b: &IntVal, ob: Bool) -> (r: (IntVal, Bool))
    requires
        old(ib).c().wf(),
        old(ib).wid() >= 1,
        (op == IntBinOp::Div || op == IntBinOp::Rem) ==> old(ib).wid() <= 63,
        a@.len() == old(ib).wid(),
        b@.len() == old(ib).wid(),
        all_valid(a@, old(ib).c().nv()),
        all_valid(b@, old(ib).c().nv()),
        valid(oa, old(ib).c().nv()),
        valid(ob, old(ib).c().nv()),
        old(ib).c().nv() + 128 * old(ib).wid() * old(ib).wid() + 2 <= u32::MAX,
    ensures
        grown(&old(ib).c(), &final(ib).c()),
        final(ib).c().nv() <= old(ib).c().nv() + 128 * old(ib).wid() * old(ib).wid() + 2,
        final(ib).wid() == old(ib).wid(),
        r.0@.len() == old(ib).wid(),
        all_valid(r.0@, final(ib).c().nv()),
        valid(r.1, final(ib).c().nv()),
        forall|m: nat, s: Assignment| #[trigger] is_mask_width(m, old(ib).wid()) && #[trigger] sat(final(ib).c().cls(), s) ==> int_op_result(
            op,
            a@,
            b@,
            old(ib).wid(),
            m,
            r.0@,
            s,
        ) && val(r.1, s) == (val(oa, s) || val(ob, s) || int_op_flag(op, a@, b@, old(ib).wid(), m, s)),
{
    let ghost c0 = ib.c();
    let ghost w = ib.wid();
    proof {
        lemma_grown_refl(&c0);
        assert(3 * w * w <= 128 * w * w && 9 * w * w <= 128 * w * w && 44 * w * w <= 128 * w * w && 9 * w + 3 <= 128 * w * w) by (nonlinear_arith)
            requires
                w >= 1,
        ;
    }
    let (val_, op_of) = match op {
        IntBinOp::Add => ib.add_signed(a, b),
        IntBinOp::Sub => ib.sub_signed(a, b),
        IntBinOp::Mul => ib.multiply(a, b),
        IntBinOp::Div => {
            let dr = ib.div_rem(a, b);
            (dr.quotient, dr.div_overflow)
        },
        IntBinOp::Rem => {
            let dr = ib.div_rem(a, b);
            (dr.remainder, dr.rem_overflow)
        },
        IntBinOp::Shl => ib.shl(a, b),
        IntBinOp::Sha => (ib.sha(a, b), Bool::Const(false)),
        IntBinOp::Shr => (ib.shr(a, b), Bool::Const(false)),
    };
    let ghost c1 = ib.c();
    let inherited = ib.circuit_mut().or(oa, ob);
    let ghost c2 = ib.c();
    let overflow = ib.circuit_mut().or(inherited, op_of);
    proof {
        lemma_grown_trans(&c0, &c1, &c2);
        lemma_grown_trans(&c0, &c2, &ib.c());
        assert forall|m: nat, s: Assignment| #[trigger] is_mask_width(m, w) && #[trigger] sat(ib.c().cls(), s) implies int_op_result(
            op,
            a@,
            b@,
            w,
            m,
            val_@,
            s,
        ) && val(overflow, s) == (val(oa, s) || val(ob, s) || int_op_flag(op, a@, b@, w, m, s)) by {
            lemma_sat_back(&c2, &ib.c(), s);
            lemma_sat_back(&c1, &c2, s);
        }
    }
    (val_, overflow)
}

/// An integer `cond ? t : e`: the bitwise select, the flag of the branch
/// taken.
pub fn int_ite(ib: &mut IntBuilder, cond: Bool, t: &IntVal, t_of: Bool, e: &IntVal, e_of: Bool) -> (r: (IntVal, Bool))
    requires
        old(ib).c().wf(),
        t@.len() == old(ib).wid(),
        e@.len() == old(ib).wid(),
        valid(cond, old(ib).c().nv()),
        all_valid(t@, old(ib).c().nv()),
        all_valid(e@, old(ib).c().nv()),
        valid(t_of, old(ib).c().nv()),
        valid(e_of, old(ib).c().nv()),
        old(ib).c().nv() + 3 * old(ib).wid() + 3 <= u32::MAX,
    ensures
        grown(&old(ib).c(), &final(ib).c()),
        final(ib).c().nv() <= old(ib).c().nv() + 3 * old(ib).wid() + 3,
        final(ib).wid() == old(ib).wid(),
        r.0@.len() == old(ib).wid(),
        all_valid(r.0@, final(ib).c().nv()),
        valid(r.1, final(ib).c().nv()),
        forall|s: Assignment| #[trigger] sat(final(ib).c().cls(), s) ==> sval(r.0@, s) == (if val(cond, s) {
            sval(t@, s)
        } else {
            sval(e@, s)
        }) && val(r.1, s) == (if val(cond, s) {
            val(t_of, s)
        } else {
            val(e_of, s)
        }),
{
    let ghost c0 = ib.c();
    let v = ib.mux(cond, t, e);
    let ghost c1 = ib.c();
    let overflow = ib.circuit_mut().ite(cond, t_of, e_of);
    proof {
        lemma_grown_trans(&c0, &c1, &ib.c());
        assert forall|s: Assignment| #[trigger] sat(ib.c().cls(), s) implies sval(v@, s) == (if val(cond, s) {
            sval(t@, s)
        } else {
            sval(e@, s)
        }) by {
            lemma_sat_back(&c1, &ib.c(), s);
        }
    }
    (v, overflow)
}

/// One summand of a `sum`: its membership cell, the body's value for that
/// binding and the body's overflow flag, as plain values.
pub open spec fn summand_views(v: Seq<(Bool, IntVal, Bool)>) -> Seq<(Bool, Seq<Bool>, Bool)> {
    v.map_values(|p: (Bool, IntVal, Bool)| (p.0, p.1@, p.2))
}

/// The sum of the body values of the present summands.
pub open spec fn summands_total(terms: Seq<(Bool, Seq<Bool>, Bool)>, s: Assignment) -> int
    decreases terms.len(),
{
    if terms.len() == 0 {
        0
    } else {
        summands_total(terms.drop_last(), s) + bit(terms.last().0, s) * sval(terms.last().1, s)
    }
}

/// Whether a `sum` overflows: at some step the running sum, kept wrapped to
/// `w`, leaves the signed range when the next present value is added, or a
/// present summand's body overflows.
pub open spec fn summands_overflow(terms: Seq<(Bool, Seq<Bool>, Bool)>, w: nat, s: Assignment) -> bool
    decreases terms.len(),
{
    if terms.len() == 0 {
        false
    } else {
        ||| summands_overflow(terms.drop_last(), w, s)
        ||| !in_range(wrap(summands_total(terms.drop_last(), s), w) + bit(terms.last().0, s) * sval(terms.last().1, s), w)
        ||| val(terms.last().0, s) && val(terms.last().2, s)
    }
}

/// `sum x: B | e` over its summands, one per candidate tuple of `B` in
/// order: each body value contributes where its tuple is present, added in
/// two's complement; the flag collects every addition's overflow and the
/// overflow of each present body.
pub fn int_sum(ib: &mut IntBuilder, terms: &[(Bool, IntVal, Bool)]) -> (r: (IntVal, Bool))
    requires
        old(ib).c().wf(),
        1 <= old(ib).wid() <= 64,
        forall|j: int| 0 <= j < terms@.len() ==> {
            &&& valid((#[trigger] terms@[j]).0, old(ib).c().nv())
            &&& terms@[j].1@.len() == old(ib).wid()
            &&& all_valid(terms@[j].1@, old(ib).c().nv())
            &&& valid(terms@[j].2, old(ib).c().nv())
        },
        old(ib).c().nv() + terms@.len() * (12 * old(ib).wid() + 6) <= u32::MAX,
    ensures
        grown(&old(ib).c(), &final(ib).c()),
        final(ib).c().nv() <= old(ib).c().nv() + terms@.len() * (12 * old(ib).wid() + 6),
        final(ib).wid() == old(ib).wid(),
        r.0@.len() == old(ib).wid(),
        all_valid(r.0@, final(ib).c().nv()),
        valid(r.1, final(ib).c().nv()),
        forall|s: Assignment| #[trigger] sat(final(ib).c().cls(), s) ==> sval(r.0@, s) == wrap(summands_total(summand_views(terms@), s), old(ib).wid())
            && val(r.1, s) == summands_overflow(summand_views(terms@), old(ib).wid(), s),
{
    let ghost c0 = ib.c();
    let w = ib.width();
    let ghost tv = summand_views(terms@);
    let mut acc = IntVal::constant(0, w);
    let mut overflow = Bool::Const(false);
    proof {
        lemma_grown_refl(&c0);
        assert(tv.take(0) =~= Seq::<(Bool, Seq<Bool>, Bool)>::empty());
    }
    let mut i: usize = 0;
    while i < terms.len()
        invariant
            i <= terms@.len(),
            tv == summand_views(terms@),
            w == ib.wid(),
            ib.wid() == old(ib).wid(),
            1 <= w <= 64,
            forall|j: int| 0 <= j < terms@.len() ==> {
                &&& valid((#[trigger] terms@[j]).0, c0.nv())
                &&& terms@[j].1@.len() == w
                &&& all_valid(terms@[j].1@, c0.nv())
                &&& valid(terms@[j].2, c0.nv())
            },
            c0.wf(),
            c0.nv() + terms@.len() * (12 * w + 6) <= u32::MAX,
            grown(&c0, &ib.c()),
            ib.c().nv() <= c0.nv() + i * (12 * w + 6),
            acc@.len() == w,
            all_valid(acc@, ib.c().nv()),
            valid(overflow, ib.c().nv()),
            forall|s: Assignment| #[trigger] sat(ib.c().cls(), s) ==> sval(acc@, s) == wrap(summands_total(tv.take(i as int), s), w as nat) && val(
                overflow,
                s,
            ) == summands_overflow(tv.take(i as int), w as nat, s),
        decreases terms@.len() - i,
    {
        let ghost c1 = ib.c();
        let ghost acc0 = acc@;
        let ghost ov0 = overflow;
        let member = terms[i].0;
        let body = &terms[i].1;
        let body_of = terms[i].2;
        proof {
            assert(i * (12 * w + 6) + (12 * w + 6) == (i + 1) * (12 * w + 6)) by (nonlinear_arith);
            assert((i + 1) * (12 * w + 6) <= terms@.len() * (12 * w + 6)) by (nonlinear_arith)
                requires
                    i < terms@.len(),
            ;
        }
        let zero = IntVal::constant(0, w);
        let gated = ib.mux(member, body, &zero);
        let ghost c2 = ib.c();
        let (next, add_of) = ib.add_signed(&acc, &gated);
        let ghost c3 = ib.c();
        let present_of = ib.circuit_mut().and(member, body_of);
        let ghost c4 = ib.c();
        let step = ib.circuit_mut().or(add_of, present_of);
        let ghost c5 = ib.c();
        let of = ib.circuit_mut().or(overflow, step);
        acc = next;
        overflow = of;
        proof {
            lemma_grown_trans(&c1, &c2, &c3);
            lemma_grown_trans(&c1, &c3, &c4);
            lemma_grown_trans(&c1, &c4, &c5);
            lemma_grown_trans(&c1, &c5, &ib.c());
            lemma_grown_trans(&c0, &c1, &ib.c());
            assert(tv.take(i + 1).drop_last() =~= tv.take(i as int));
            assert(tv.take(i + 1).last() == (member, body@, body_of));
            assert forall|s: Assignment| #[trigger] sat(ib.c().cls(), s) implies sval(acc@, s) == wrap(summands_total(tv.take(i + 1), s), w as nat)
                && val(overflow, s) == summands_overflow(tv.take(i + 1), w as nat, s) by {
                lemma_sat_back(&c5, &ib.c(), s);
                lemma_sat_back(&c4, &c5, s);
                lemma_sat_back(&c3, &c4, s);
                lemma_sat_back(&c2, &c3, s);
                lemma_sat_back(&c1, &c2, s);
                let tot = summands_total(tv.take(i as int), s);
                assert(sval(zero@, s) == 0) by {
                    lemma_pow2_pos((w - 1) as nat);
                    crate::encode::integer::lemma_wrap_in_range(0, 0, w as nat);
                    assert(0 + pow2(w as nat) * 0 == 0);
                }
                assert(sval(gated@, s) == bit(member, s) * sval(body@, s));
                lemma_wrap_add(tot, bit(member, s) * sval(body@, s), w as nat);
            }
        }
        i = i + 1;
    }
    proof {
        assert(tv.take(i as int) =~= tv);
        assert(i * (12 * w + 6) <= terms@.len() * (12 * w + 6)) by (nonlinear_arith)
            requires
                i <= terms@.len(),
        ;
    }
    (acc, overflow)
}

/// The values of the `Int` atoms among the unary tuples of `ts`, in order.
pub open spec fn atom_values(ts: Seq<Seq<nat>>, int_start: nat, int_end: nat, bw: nat) -> Seq<int>
    decreases ts.len(),
{
    if ts.len() == 0 {
        Seq::empty()
    } else {
        let rest = atom_values(ts.drop_last(), int_start, int_end, bw);
        let t = ts.last();
        if t.len() == 1 && int_atom_value(t[0], int_start, int_end, bw) is Some {
            rest.push(int_atom_value(t[0], int_start, int_end, bw)->0)
        } else {
            rest
        }
    }
}

/// The running two's-complement sum of `vals` at width `w`, and whether some
/// addition left the signed range.
pub open spec fn running_sum(vals: Seq<int>, w: nat) -> (int, bool)
    decreases vals.len(),
{
    if vals.len() == 0 {
        (0, false)
    } else {
        let prev = running_sum(vals.drop_last(), w);
        (wrap(prev.0 + vals.last(), w), prev.1 || !in_range(prev.0 + vals.last(), w))
    }
}

/// The tuples of `order` whose cell holds under `s`, in order.
pub open spec fn present(order: Seq<Seq<nat>>, cells: Seq<Bool>, s: Assignment) -> Seq<Seq<nat>>
    decreases order.len(),
{
    if order.len() == 0 || cells.len() == 0 {
        Seq::empty()
    } else {
        let rest = present(order.drop_last(), cells.drop_last(), s);
        if val(cells.last(), s) {
            rest.push(order.last())
        } else {
            rest
        }
    }
}

/// A wrapped value lies in the signed range.
pub proof fn lemma_wrap_range(x: int, w: nat)
    requires
        w >= 1,
    ensures
        in_range(wrap(x, w), w),
{
    vstd::arithmetic::power2::lemma_pow2_unfold(w);
    lemma_pow2_pos(w);
    vstd::arithmetic::div_mod::lemma_mod_bound(x + pow2((w - 1) as nat), pow2(w) as int);
}

/// An `Int` atom's value lies in the signed range of its bitwidth, so in
/// that of any wider width.
pub proof fn lemma_atom_value_range(idx: nat, int_start: nat, int_end: nat, bw: nat, w: nat)
    requires
        1 <= bw <= w,
        int_end <= int_start + pow2(bw),
        int_atom_value(idx, int_start, int_end, bw) is Some,
    ensures
        in_range(int_atom_value(idx, int_start, int_end, bw)->0, w),
{
    vstd::arithmetic::power2::lemma_pow2_unfold(bw);
    if bw < w {
        vstd::arithmetic::power2::lemma_pow2_strictly_increases((bw - 1) as nat, (w - 1) as nat);
    }
}

/// The gated terms of a cell list, summed as the circuit sums them, agree
/// with the running sum of the present atoms' values.
proof fn lemma_terms_running(order: Seq<Seq<nat>>, cells: Seq<Bool>, s: Assignment, int_start: nat, int_end: nat, bw: nat, w: nat)
    requires
        order.len() == cells.len(),
        1 <= bw <= w,
        int_end <= int_start + pow2(bw),
    ensures
        wrap(terms_total(int_terms(order, cells, int_start, int_end, bw), w, s), w) == running_sum(
            atom_values(present(order, cells, s), int_start, int_end, bw),
            w,
        ).0,
        terms_overflow(int_terms(order, cells, int_start, int_end, bw), w, s) == running_sum(
            atom_values(present(order, cells, s), int_start, int_end, bw),
            w,
        ).1,
    decreases order.len(),
{
    if order.len() == 0 {
        lemma_pow2_pos((w - 1) as nat);
        crate::encode::integer::lemma_wrap_in_range(0, 0, w);
        assert(present(order, cells, s) =~= Seq::<Seq<nat>>::empty());
    } else {
        let o1 = order.drop_last();
        let c1 = cells.drop_last();
        lemma_terms_running(o1, c1, s, int_start, int_end, bw, w);
        let t = order.last();
        let c = cells.last();
        let terms1 = int_terms(o1, c1, int_start, int_end, bw);
        let p1 = present(o1, c1, s);
        let tot1 = terms_total(terms1, w, s);
        let run1 = running_sum(atom_values(p1, int_start, int_end, bw), w);
        lemma_wrap_range(tot1, w);
        if val(c, s) {
            assert(p1.push(t).drop_last() =~= p1);
        }
        if t.len() == 1 && int_atom_value(t[0], int_start, int_end, bw) is Some {
            let v = int_atom_value(t[0], int_start, int_end, bw)->0;
            lemma_atom_value_range(t[0], int_start, int_end, bw, w);
            crate::encode::integer::lemma_wrap_in_range(v, 0, w);
            assert(int_terms(order, cells, int_start, int_end, bw) == terms1.push((c, v)));
            assert(terms1.push((c, v)).drop_last() =~= terms1);
            lemma_wrap_add(tot1, bit(c, s) * v, w);
            if val(c, s) {
                assert(atom_values(p1.push(t), int_start, int_end, bw) == atom_values(p1, int_start, int_end, bw).push(v));
                assert(atom_values(p1, int_start, int_end, bw).push(v).drop_last() =~= atom_values(p1, int_start, int_end, bw));
            } else {
                crate::encode::integer::lemma_wrap_in_range(wrap(tot1, w), 0, w);
            }
        }
    }
}

/// The tuples kept by [`present`] come from `order`, in its order.
proof fn lemma_present_from(order: Seq<Seq<nat>>, cells: Seq<Bool>, s: Assignment)
    requires
        order.len() == cells.len(),
        crate::lex::lex_sorted(order),
    ensures
        crate::lex::lex_sorted(present(order, cells, s)),
        forall|x: Seq<nat>| present(order, cells, s).contains(x) <==> exists|i: int| 0 <= i < order.len() && order[i] == x && val(cells[i], s),
    decreases order.len(),
{
    if order.len() > 0 {
        let o1 = order.drop_last();
        let c1 = cells.drop_last();
        assert(crate::lex::lex_sorted(o1)) by {
            assert forall|i: int, j: int| 0 <= i < j < o1.len() implies crate::lex::lex_lt(#[trigger] o1[i], #[trigger] o1[j]) by {
                assert(o1[i] == order[i] && o1[j] == order[j]);
            }
        }
        lemma_present_from(o1, c1, s);
        let p1 = present(o1, c1, s);
        let t = order.last();
        if val(cells.last(), s) {
            let p = p1.push(t);
            assert forall|i: int, j: int| 0 <= i < j < p.len() implies crate::lex::lex_lt(#[trigger] p[i], #[trigger] p[j]) by {
                if j == p1.len() {
                    assert(p1.contains(p[i]));
                    let k = choose|k: int| 0 <= k < o1.len() && o1[k] == p[i] && val(c1[k], s);
                    assert(order[k] == p[i]);
                    assert(crate::lex::lex_lt(order[k], order[order.len() - 1]));
                } else {
                    assert(p[i] == p1[i] && p[j] == p1[j]);
                }
            }
            assert forall|x: Seq<nat>| p.contains(x) <==> exists|i: int| 0 <= i < order.len() && order[i] == x && val(cells[i], s) by {
                if p.contains(x) {
                    let q = choose|q: int| 0 <= q < p.len() && p[q] == x;
                    if q == p1.len() {
                        assert(order[order.len() - 1] == x && val(cells[order.len() - 1], s));
                    } else {
                        assert(p1[q] == x);
                        assert(p1.contains(x));
                        let k = choose|k: int| 0 <= k < o1.len() && o1[k] == x && val(c1[k], s);
                        assert(order[k] == x && val(cells[k], s));
                    }
                }
                if exists|i: int| 0 <= i < order.len() && order[i] == x && val(cells[i], s) {
                    let i = choose|i: int| 0 <= i < order.len() && order[i] == x && val(cells[i], s);
                    if i == order.len() - 1 {
                        assert(p[p1.len() as int] == x);
                    } else {
                        assert(o1[i] == x && val(c1[i], s));
                        assert(p1.contains(x));
                        let q = choose|q: int| 0 <= q < p1.len() && p1[q] == x;
                        assert(p[q] == x);
                    }
                }
            }
        } else {
            assert forall|x: Seq<nat>| p1.contains(x) <==> exists|i: int| 0 <= i < order.len() && order[i] == x && val(cells[i], s) by {
                if exists|i: int| 0 <= i < order.len() && order[i] == x && val(cells[i], s) {
                    let i = choose|i: int| 0 <= i < order.len() && order[i] == x && val(cells[i], s);
                    assert(i != order.len() - 1);
                    assert(o1[i] == x && val(c1[i], s));
                }
                if p1.contains(x) {
                    let k = choose|k: int| 0 <= k < o1.len() && o1[k] == x && val(c1[k], s);
                    assert(order[k] == x && val(cells[k], s));
                }
            }
        }
    }
}

/// The circuit's `int[m]` and the concrete `int[·]` agree: under any
/// assignment, the value and overflow flag the gated sum over the matrix
/// denotes are those of the running sum over the `Int` atoms of the set the
/// matrix denotes, taken in order.
pub proof fn lemma_int_cast_agrees(m: Matrix, ts: TupleSet, s: Assignment, int_start: nat, int_end: nat, bw: nat, w: nat)
    requires
        m.wf(),
        ts.wf(),
        ts@ == m.denote(s),
        1 <= bw <= w,
        int_end <= int_start + pow2(bw),
    ensures
        wrap(terms_total(int_terms(m.order(), m.values(), int_start, int_end, bw), w, s), w) == running_sum(
            atom_values(ts.ordered(), int_start, int_end, bw),
            w,
        ).0,
        terms_overflow(int_terms(m.order(), m.values(), int_start, int_end, bw), w, s) == running_sum(
            atom_values(ts.ordered(), int_start, int_end, bw),
            w,
        ).1,
{
    Matrix::lemma_wf(&m);
    TupleSet::lemma_wf(&ts);
    let order = m.order();
    let cells = m.values();
    lemma_present_from(order, cells, s);
    let p = present(order, cells, s);
    assert(p.to_set() =~= ts.ordered().to_set()) by {
        assert forall|x: Seq<nat>| p.to_set().contains(x) implies ts.ordered().to_set().contains(x) by {
            assert(p.contains(x));
            let i = choose|i: int| 0 <= i < order.len() && order[i] == x && val(cells[i], s);
            assert(m.cells()[order[i]] == cells[i]);
            assert(order.to_set().contains(x));
            assert(m.denote(s).contains(x));
        }
        assert forall|x: Seq<nat>| ts.ordered().to_set().contains(x) implies p.to_set().contains(x) by {
            assert(m.denote(s).contains(x));
            assert(order.to_set().contains(x));
            let i = choose|i: int| 0 <= i < order.len() && order[i] == x;
            assert(m.cells()[order[i]] == cells[i]);
            assert(p.contains(x));
        }
    }
    crate::lex::lemma_lex_sorted_unique(p, ts.ordered());
    lemma_terms_running(order, cells, s, int_start, int_end, bw, w);
}

/// [`lemma_int_cast_agrees`] over the set a matrix denotes, listed in
/// lexicographic order.
pub proof fn lemma_int_cast_agrees_set(m: Matrix, s: Assignment, int_start: nat, int_end: nat, bw: nat, w: nat)
    requires
        m.wf(),
        1 <= bw <= w,
        int_end <= int_start + pow2(bw),
    ensures
        wrap(terms_total(int_terms(m.order(), m.values(), int_start, int_end, bw), w, s), w) == running_sum(
            atom_values(crate::evaluator::sorted_of(m.denote(s)), int_start, int_end, bw),
            w,
        ).0,
        terms_overflow(int_terms(m.order(), m.values(), int_start, int_end, bw), w, s) == running_sum(
            atom_values(crate::evaluator::sorted_of(m.denote(s)), int_start, int_end, bw),
            w,
        ).1,
{
    Matrix::lemma_wf(&m);
    let order = m.order();
    let cells = m.values();
    lemma_present_from(order, cells, s);
    let p = present(order, cells, s);
    assert(p.to_set() =~= m.denote(s)) by {
        assert forall|x: Seq<nat>| p.to_set().contains(x) implies m.denote(s).contains(x) by {
            assert(p.contains(x));
            let i = choose|i: int| 0 <= i < order.len() && order[i] == x && val(cells[i], s);
            assert(m.cells()[order[i]] == cells[i]);
            assert(order.to_set().contains(x));
        }
        assert forall|x: Seq<nat>| m.denote(s).contains(x) implies p.to_set().contains(x) by {
            assert(order.to_set().contains(x));
            let i = choose|i: int| 0 <= i < order.len() && order[i] == x;
            assert(m.cells()[order[i]] == cells[i]);
            assert(p.contains(x));
        }
    }
    let q = crate::evaluator::sorted_of(m.denote(s));
    assert(crate::lex::lex_sorted(q) && q.to_set() == m.denote(s));
    crate::lex::lemma_lex_sorted_unique(p, q);
    lemma_terms_running(order, cells, s, int_start, int_end, bw, w);
}

/// The meaning of an integer comparison.
pub open spec fn int_cmp_spec(op: IntCmpOp, a: int, b: int) -> bool {
    match op {
        IntCmpOp::Eq => a == b,
        IntCmpOp::Lt => a < b,
        IntCmpOp::Le => a <= b,
        IntCmpOp::Gt => a > b,
        IntCmpOp::Ge => a >= b,
    }
}

/// A comparison under one operand's overflow guard: where the formula's
/// polarity agrees with the operand's dependence on a universal quantifier,
/// an overflow makes the comparison true; otherwise it makes it false.
pub open spec fn guard_spec(atom: bool, overflowed: bool, positive: bool, forall_dep: bool) -> bool {
    if positive == forall_dep {
        atom || overflowed
    } else {
        atom && !overflowed
    }
}

/// Guards a comparison atom with one operand's overflow flag: `atom ∨ of`
/// where the polarity (`positive`) and the operand's universal dependence
/// (`forall_dep`) agree, `atom ∧ ¬of` where they differ. A constant-false
/// flag leaves the atom and the circuit as they are.
pub fn apply_overflow_guard(c: &mut Circuit, atom: Bool, of: Bool, positive: bool, forall_dep: bool) -> (r: Bool)
    requires
        old(c).wf(),
        valid(atom, old(c).nv()),
        valid(of, old(c).nv()),
        old(c).nv() < u32::MAX,
    ensures
        grown(old(c), final(c)),
        final(c).nv() <= old(c).nv() + 1,
        valid(r, final(c).nv()),
        forall|s: Assignment| #[trigger] sat(final(c).cls(), s) ==> val(r, s) == guard_spec(val(atom, s), val(of, s), positive, forall_dep),
        of == Bool::Const(false) ==> r == atom && *final(c) == *old(c),
{
    let ghost c0 = *c;
    proof {
        lemma_grown_refl(&c0);
    }
    if let Bool::Const(false) = of {
        return atom;
    }
    if positive == forall_dep {
        c.or(atom, of)
    } else {
        let nof = c.not(of);
        c.and(atom, nof)
    }
}

/// An integer comparison of two values at the builder's width; unless
/// overflow is allowed, each operand's flag then guards it in turn (left
/// first), with `lhs_dep` and `rhs_dep` the operands' universal dependence.
pub fn int_compare(
    ib: &mut IntBuilder,
    op: IntCmpOp,
    a: &IntVal,
    b: &IntVal,
    oa: Bool,
    ob: Bool,
    allow_overflow: bool,
    positive: bool,
    lhs_dep: bool,
    rhs_dep: bool,
) -> (r: Bool)
    requires
        old(ib).c().wf(),
        old(ib).wid() >= 1,
        a@.len() == old(ib).wid(),
        b@.len() == old(ib).wid(),
        all_valid(a@, old(ib).c().nv()),
        all_valid(b@, old(ib).c().nv()),
        valid(oa, old(ib).c().nv()),
        valid(ob, old(ib).c().nv()),
        old(ib).c().nv() + 4 * old(ib).wid() + 3 <= u32::MAX,
    ensures
        grown(&old(ib).c(), &final(ib).c()),
        final(ib).c().nv() <= old(ib).c().nv() + 4 * old(ib).wid() + 3,
        final(ib).wid() == old(ib).wid(),
        valid(r, final(ib).c().nv()),
        forall|s: Assignment| #[trigger] sat(final(ib).c().cls(), s) ==> {
            let atom = int_cmp_spec(op, sval(a@, s), sval(b@, s));
            val(r, s) == if allow_overflow {
                atom
            } else {
                guard_spec(guard_spec(atom, val(oa, s), positive, lhs_dep), val(ob, s), positive, rhs_dep)
            }
        },
{
    let ghost c0 = ib.c();
    let atom = match op {
        IntCmpOp::Eq => ib.eq(a, b),
        IntCmpOp::Lt => ib.signed_lt(a, b),
        IntCmpOp::Gt => ib.signed_gt(a, b),
        IntCmpOp::Le => ib.signed_le(a, b),
        IntCmpOp::Ge => ib.signed_ge(a, b),
    };
    if allow_overflow {
        return atom;
    }
    let ghost c1 = ib.c();
    let c = ib.circuit_mut();
    let g = apply_overflow_guard(c, atom, oa, positive, lhs_dep);
    let ghost c2 = *c;
    let r = apply_overflow_guard(c, g, ob, positive, rhs_dep);
    proof {
        lemma_grown_trans(&c1, &c2, c);
        lemma_grown_trans(&c0, &c1, c);
        assert forall|s: Assignment| #[trigger] sat(c.cls(), s) implies val(r, s) == guard_spec(
            guard_spec(int_cmp_spec(op, sval(a@, s), sval(b@, s)), val(oa, s), positive, lhs_dep),
            val(ob, s),
            positive,
            rhs_dep,
        ) by {
            lemma_sat_back(&c2, c, s);
            lemma_sat_back(&c1, &c2, s);
        }
    }
    r
}

/// A matrix emptied when `of` holds: each cell conjoined with `¬of`.
pub fn empty_on_overflow(c: &mut Circuit, m: &Matrix, of: Bool) -> (out: Matrix)
    requires
        old(c).wf(),
        m.wf(),
        m.valid_below(old(c).nv()),
        valid(of, old(c).nv()),
        old(c).nv() + m.values().len() <= u32::MAX,
    ensures
        grown(old(c), final(c)),
        final(c).nv() <= old(c).nv() + m.values().len(),
        out.wf(),
        out.ar() == m.ar(),
        out.valid_below(final(c).nv()),
        out.dom().subset_of(m.dom()),
        forall|s: Assignment| #[trigger] sat(final(c).cls(), s) ==> out.denote(s) == if val(of, s) {
            Set::<Seq<nat>>::empty()
        } else {
            m.denote(s)
        },
{
    let ghost c0 = *c;
    proof {
        lemma_grown_refl(&c0);
        lemma_take_to_set_ends(m.order());
        Matrix::lemma_wf(m);
    }
    let nof = c.not(of);
    let mut out = Matrix::empty(m.arity());
    let cells = m.iter();
    let ghost km = m.order();
    let mut i: usize = 0;
    while i < cells.len()
        invariant
            i <= cells.len(),
            entry_keys(cells@) == km,
            entry_vals(cells@) == m.values(),
            km == m.order(),
            km.len() == m.values().len(),
            m.wf(),
            m.valid_below(c0.nv()),
            valid(nof, c0.nv()),
            forall|s: Assignment| val(nof, s) == !val(of, s),
            c0.nv() + m.values().len() <= u32::MAX,
            grown(&c0, c),
            c.nv() <= c0.nv() + i,
            out.wf(),
            out.ar() == m.ar(),
            out.valid_below(c.nv()),
            out.dom().subset_of(km.take(i as int).to_set()),
            forall|s: Assignment| #[trigger] sat(c.cls(), s) ==> out.denote(s) == (if val(of, s) {
                Set::<Seq<nat>>::empty()
            } else {
                m.denote(s)
            }).intersect(km.take(i as int).to_set()),
        decreases cells.len() - i,
    {
        let x = &cells[i].0;
        let v = cells[i].1;
        proof {
            assert(km[i as int] == cells@[i as int].0@);
            assert(m.values()[i as int] == cells@[i as int].1);
            lemma_cell_at(m, i as int, c.nv());
            lemma_take_to_set_step(km, i as int);
        }
        let ghost c1 = *c;
        let ghost out0 = out;
        let g = c.and(v, nof);
        out.set(x.duplicate(), g);
        proof {
            let xv = x@;
            lemma_grown_trans(&c0, &c1, c);
            let ti1 = km.take(i + 1).to_set();
            assert forall|s: Assignment| #[trigger] sat(c.cls(), s) implies out.denote(s) == (if val(of, s) {
                Set::<Seq<nat>>::empty()
            } else {
                m.denote(s)
            }).intersect(ti1) by {
                lemma_sat_back(&c1, c, s);
                Matrix::lemma_denote_insert(&out0, &out, xv, g, s);
                Matrix::lemma_denote_cell(m, xv, s);
                assert(out.denote(s) =~= (if val(of, s) {
                    Set::<Seq<nat>>::empty()
                } else {
                    m.denote(s)
                }).intersect(ti1));
            }
        }
        i = i + 1;
    }
    proof {
        assert forall|s: Assignment| #[trigger] sat(c.cls(), s) implies out.denote(s) == if val(of, s) {
            Set::<Seq<nat>>::empty()
        } else {
            m.denote(s)
        } by {
            assert(out.denote(s) =~= if val(of, s) {
                Set::<Seq<nat>>::empty()
            } else {
                m.denote(s)
            });
        }
    }
    out
}

} // verus!
