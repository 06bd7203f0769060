//! Two's-complement integer encoding over boolean circuits.
//!
//! An [`IntVal`] is a fixed-width two's-complement bit vector, least
//! significant bit first. Under an assignment its bits denote an unsigned
//! value ([`uval`]) and a signed one ([`sval`]); every operation states what
//! its result denotes under each assignment that satisfies the circuit.
//! Overflow-capable operations also return an overflow flag, which holds
//! exactly when the exact result leaves the signed range of the width.

use vstd::prelude::*;

use vstd::arithmetic::power2::{lemma_pow2_pos, lemma_pow2_unfold, pow2};

use crate::circuit::{all_const, all_valid, any_true, sat, val, valid, Assignment, Bool, Circuit};
use crate::encode::{grown, lemma_grown_refl, lemma_grown_trans, lemma_sat_back, log2_ceil};

verus! {

/// One bit as a number.
pub open spec fn bit(b: Bool, s: Assignment) -> int {
    if val(b, s) {
        1
    } else {
        0
    }
}

/// The unsigned value of a bit vector, least significant bit first.
pub open spec fn uval(bits: Seq<Bool>, s: Assignment) -> int
    decreases bits.len(),
{
    if bits.len() == 0 {
        0
    } else {
        uval(bits.drop_last(), s) + pow2((bits.len() - 1) as nat) * bit(bits.last(), s)
    }
}

/// The two's-complement value of a bit vector: the top bit weighs
/// `−2^(w−1)`.
pub open spec fn sval(bits: Seq<Bool>, s: Assignment) -> int {
    if bits.len() == 0 {
        0
    } else {
        uval(bits, s) - pow2(bits.len()) * bit(bits.last(), s)
    }
}

/// The signed range of width `w`.
pub open spec fn in_range(x: int, w: nat) -> bool {
    w >= 1 && -pow2((w - 1) as nat) <= x < pow2((w - 1) as nat)
}

/// Appending a bit adds its weight.
pub proof fn lemma_uval_push(b: Seq<Bool>, x: Bool, s: Assignment)
    ensures
        uval(b.push(x), s) == uval(b, s) + pow2(b.len()) * bit(x, s),
{
    assert(b.push(x).drop_last() =~= b);
}

/// An unsigned value lies in `[0, 2^w)`.
pub proof fn lemma_uval_bounds(b: Seq<Bool>, s: Assignment)
    ensures
        0 <= uval(b, s) < pow2(b.len()),
    decreases b.len(),
{
    lemma_pow2_pos(b.len());
    if b.len() > 0 {
        lemma_uval_bounds(b.drop_last(), s);
        lemma_pow2_unfold(b.len());
    } else {
        vstd::arithmetic::power2::lemma2_to64();
    }
}

/// A signed value is the low bits' unsigned value less the top bit's
/// weight, and lies in the signed range.
pub proof fn lemma_sval_split(b: Seq<Bool>, s: Assignment)
    requires
        b.len() >= 1,
    ensures
        sval(b, s) == uval(b.drop_last(), s) - pow2((b.len() - 1) as nat) * bit(b.last(), s),
        in_range(sval(b, s), b.len()),
{
    lemma_pow2_unfold(b.len());
    lemma_uval_bounds(b.drop_last(), s);
    lemma_pow2_pos((b.len() - 1) as nat);
    let h = pow2((b.len() - 1) as nat);
    assert(uval(b, s) == uval(b.drop_last(), s) + h * bit(b.last(), s));
    if val(b.last(), s) {
        assert(sval(b, s) == uval(b.drop_last(), s) + h - 2 * h);
    } else {
        assert(sval(b, s) == uval(b.drop_last(), s));
    }
}

/// The arithmetic of one full-adder stage.
proof fn lemma_full_add_bits(a: bool, b: bool, c: bool)
    ensures
        (if a { 1int } else { 0 }) + (if b { 1int } else { 0 }) + (if c { 1int } else { 0 }) == (if a != b != c { 1int } else { 0 })
            + 2 * (if (a && b) || (c && (a != b)) { 1int } else { 0 }),
{
}

/// Vectors whose bits agree under `s` have the same values.
pub proof fn lemma_uval_same(a: Seq<Bool>, b: Seq<Bool>, s: Assignment)
    requires
        a.len() == b.len(),
        forall|i: int| 0 <= i < a.len() ==> val(#[trigger] a[i], s) == val(b[i], s),
    ensures
        uval(a, s) == uval(b, s),
        sval(a, s) == sval(b, s),
    decreases a.len(),
{
    if a.len() > 0 {
        lemma_uval_same(a.drop_last(), b.drop_last(), s);
        assert(val(a[a.len() - 1], s) == val(b[b.len() - 1], s));
    }
}

/// The two's-complement wrap of `x` to width `w`: the value of the signed
/// range of `w` bits congruent to `x` modulo `2^w`.
pub open spec fn wrap(x: int, w: nat) -> int {
    (x + pow2((w - 1) as nat)) % (pow2(w) as int) - pow2((w - 1) as nat)
}

/// A value in range wraps to itself, whatever multiple of `2^w` is added;
/// adding a nonzero multiple of `2^w` (at most one) leaves the range.
pub proof fn lemma_wrap_in_range(r: int, k: int, w: nat)
    requires
        in_range(r, w),
    ensures
        wrap(r + pow2(w) * k, w) == r,
        -1 <= k <= 1 ==> in_range(r + pow2(w) * k, w) == (k == 0),
{
    let h = pow2((w - 1) as nat) as int;
    lemma_pow2_unfold(w);
    lemma_pow2_pos(w);
    let m = pow2(w) as int;
    assert(0 <= r + h < m);
    vstd::arithmetic::div_mod::lemma_mod_multiples_vanish(k, r + h, m);
    vstd::arithmetic::div_mod::lemma_small_mod((r + h) as nat, m as nat);
    assert(r + pow2(w) * k + h == m * k + (r + h));
    if k == 1 {
        assert(r + pow2(w) * k == r + 2 * h);
    } else if k == -1 {
        assert(pow2(w) * k == -(pow2(w) as int)) by (nonlinear_arith)
            requires
                k == -1,
        ;
        assert(r + pow2(w) * k == r - 2 * h);
    } else if k == 0 {
        assert(r + pow2(w) * k == r);
    }
}

/// A vector holding `x mod 2^w` in its bits holds `x`'s wrap as its signed
/// value.
pub proof fn lemma_sval_wrap(bits: Seq<Bool>, x: int, s: Assignment)
    requires
        bits.len() >= 1,
        uval(bits, s) == x % (pow2(bits.len()) as int),
    ensures
        sval(bits, s) == wrap(x, bits.len()),
{
    let w = bits.len();
    lemma_pow2_pos(w);
    lemma_sval_split(bits, s);
    vstd::arithmetic::div_mod::lemma_fundamental_div_mod(x, pow2(w) as int);
    let k = bit(bits.last(), s) + x / (pow2(w) as int);
    assert(x == sval(bits, s) + pow2(w) * k) by (nonlinear_arith)
        requires
            x == pow2(w) * (x / (pow2(w) as int)) + x % (pow2(w) as int),
            sval(bits, s) == uval(bits, s) - pow2(w) * bit(bits.last(), s),
            uval(bits, s) == x % (pow2(w) as int),
            k == bit(bits.last(), s) + x / (pow2(w) as int),
    ;
    lemma_wrap_in_range(sval(bits, s), k, w);
}

/// The signed reading of a ripple sum: the signed sum of the operands and
/// the carry in is the signed result plus `2^w` times the difference of the
/// carries into and out of the top bit.
proof fn lemma_signed_sum(a: Seq<Bool>, b: Seq<Bool>, r: Seq<Bool>, cin: Bool, cmsb: Bool, cout: Bool, s: Assignment)
    requires
        a.len() == b.len(),
        r.len() == a.len(),
        a.len() >= 1,
        uval(r, s) + pow2(a.len()) * bit(cout, s) == uval(a, s) + uval(b, s) + bit(cin, s),
        uval(r.drop_last(), s) + pow2((a.len() - 1) as nat) * bit(cmsb, s) == uval(a.drop_last(), s) + uval(b.drop_last(), s)
            + bit(cin, s),
    ensures
        sval(a, s) + sval(b, s) + bit(cin, s) == sval(r, s) + pow2(a.len()) * (bit(cmsb, s) - bit(cout, s)),
{
    lemma_sval_split(a, s);
    lemma_sval_split(b, s);
    lemma_sval_split(r, s);
    lemma_pow2_unfold(a.len());
    let h = pow2((a.len() - 1) as nat) as int;
    let ua = uval(a.drop_last(), s);
    let ub = uval(b.drop_last(), s);
    let ur = uval(r.drop_last(), s);
    let am = bit(a.last(), s);
    let bm = bit(b.last(), s);
    let rm = bit(r.last(), s);
    let ci = bit(cin, s);
    let cm = bit(cmsb, s);
    let co = bit(cout, s);
    assert(uval(a, s) == ua + h * am);
    assert(uval(b, s) == ub + h * bm);
    assert(uval(r, s) == ur + h * rm);
    assert(ua - h * am + ub - h * bm + ci == ur - h * rm + 2 * h * (cm - co)) by (nonlinear_arith)
        requires
            ur + h * rm + 2 * h * co == ua + h * am + ub + h * bm + ci,
            ur + h * cm == ua + ub + ci,
    ;
}

/// The complement of every bit.
pub open spec fn complement(b: Seq<Bool>) -> Seq<Bool> {
    b.map_values(|x: Bool| crate::circuit::negation(x))
}

/// Complementing every bit negates the signed value and subtracts one.
pub proof fn lemma_complement(b: Seq<Bool>, s: Assignment)
    ensures
        uval(complement(b), s) == pow2(b.len()) - 1 - uval(b, s),
        b.len() >= 1 ==> sval(complement(b), s) == -sval(b, s) - 1,
    decreases b.len(),
{
    vstd::arithmetic::power2::lemma2_to64();
    if b.len() > 0 {
        let d = b.drop_last();
        lemma_complement(d, s);
        assert(complement(b).drop_last() =~= complement(d));
        assert(complement(b).last() == crate::circuit::negation(b.last()));
        assert(val(crate::circuit::negation(b.last()), s) == !val(b.last(), s));
        lemma_pow2_unfold(b.len());
        if b.len() >= 1 {
            lemma_sval_split(b, s);
            lemma_sval_split(complement(b), s);
        }
    } else {
        assert(complement(b) =~= Seq::<Bool>::empty());
    }
}

/// The low bits of a machine integer: bit `i` of `value`'s two's
/// complement is `(value >> i) & 1`, and the first `k` of them make
/// `value mod 2^k`.
proof fn lemma_low_bits(value: i64, k: nat)
    requires
        k < 64,
    ensures
        (value as int) % (pow2(k + 1) as int) == (value as int) % (pow2(k) as int) + pow2(k) * (if (value >> k as usize) & 1 == 1 {
            1int
        } else {
            0
        }),
{
    let u = #[verifier::truncate] (value as u64);
    let i = k as usize;
    assert(((value >> i) & 1i64 == 1i64) == ((u >> (i as u64)) & 1u64 == 1u64)) by (bit_vector)
        requires
            i < 64,
            u == value as u64,
    ;
    assert(value < 0 ==> u as int == value as int + 0x1_0000_0000_0000_0000int) by (bit_vector)
        requires
            u == value as u64,
    ;
    assert(value >= 0 ==> u as int == value as int) by (bit_vector)
        requires
            u == value as u64,
    ;
    let x = u >> (i as u64);
    vstd::bits::lemma_u64_shr_is_div(u, i as u64);
    assert((x & 1u64 == 1u64) == (x % 2 == 1)) by (bit_vector);
    let p = pow2(k) as int;
    lemma_pow2_pos(k);
    lemma_pow2_unfold(k + 1);
    vstd::arithmetic::div_mod::lemma_mod_breakdown(u as int, p, 2);
    assert(p * 2 == pow2(k + 1));
    vstd::arithmetic::power2::lemma2_to64();
    let t: int = if value < 0 { 1 } else { 0 };
    assert(u as int == value as int + pow2(64) * t);
    assert forall|m: nat| m <= 64 implies #[trigger] ((value as int) % (pow2(m) as int)) == (u as int) % (pow2(m) as int) by {
        vstd::arithmetic::power2::lemma_pow2_adds(m, (64 - m) as nat);
        lemma_pow2_pos(m);
        let q = pow2((64 - m) as nat) as int;
        assert(pow2(64) * t == (pow2(m) as int) * (q * t)) by (nonlinear_arith)
            requires
                pow2(64) == pow2(m) * q,
        ;
        vstd::arithmetic::div_mod::lemma_mod_multiples_vanish(q * t, value as int, pow2(m) as int);
    }
    assert((value as int) % (pow2(k) as int) == (u as int) % (pow2(k) as int));
    assert((value as int) % (pow2(k + 1) as int) == (u as int) % (pow2(k + 1) as int));
}

/// The value of a concatenation: the high part weighs `2^|x|`.
pub proof fn lemma_uval_concat(x: Seq<Bool>, y: Seq<Bool>, s: Assignment)
    ensures
        uval(x + y, s) == uval(x, s) + pow2(x.len()) * uval(y, s),
    decreases y.len(),
{
    if y.len() == 0 {
        assert(x + y =~= x);
    } else {
        let yd = y.drop_last();
        lemma_uval_concat(x, yd, s);
        assert((x + y).drop_last() =~= x + yd);
        assert((x + y).last() == y.last());
        vstd::arithmetic::power2::lemma_pow2_adds(x.len(), yd.len());
        assert(pow2(x.len()) * uval(yd, s) + pow2(x.len() + yd.len()) * bit(y.last(), s) == pow2(x.len()) * (uval(yd, s) + pow2(
            yd.len(),
        ) * bit(y.last(), s))) by (nonlinear_arith)
            requires
                pow2(x.len() + yd.len()) == pow2(x.len()) * pow2(yd.len()),
        ;
    }
}

/// A vector's value is zero exactly when none of its bits holds.
pub proof fn lemma_uval_zero(b: Seq<Bool>, s: Assignment)
    ensures
        (uval(b, s) == 0) == !any_true(b, s),
    decreases b.len(),
{
    if b.len() > 0 {
        let d = b.drop_last();
        lemma_uval_zero(d, s);
        lemma_uval_bounds(d, s);
        lemma_pow2_pos(d.len());
        if any_true(d, s) {
            let k = choose|k: int| 0 <= k < d.len() && val(#[trigger] d[k], s);
            assert(val(b[k], s));
        }
        if any_true(b, s) {
            let k = choose|k: int| 0 <= k < b.len() && val(#[trigger] b[k], s);
            if k < d.len() {
                assert(val(d[k], s));
            }
        }
        if val(b.last(), s) {
            assert(val(b[b.len() - 1], s));
        }
    }
}

/// Equal-width vectors have equal values exactly when their bits agree.
pub proof fn lemma_uval_eq(a: Seq<Bool>, b: Seq<Bool>, s: Assignment)
    requires
        a.len() == b.len(),
    ensures
        (uval(a, s) == uval(b, s)) == (forall|i: int| 0 <= i < a.len() ==> val(#[trigger] a[i], s) == val(b[i], s)),
    decreases a.len(),
{
    if a.len() > 0 {
        let da = a.drop_last();
        let db = b.drop_last();
        lemma_uval_eq(da, db, s);
        lemma_uval_bounds(da, s);
        lemma_uval_bounds(db, s);
        if forall|i: int| 0 <= i < a.len() ==> val(#[trigger] a[i], s) == val(b[i], s) {
            assert forall|i: int| 0 <= i < da.len() implies val(#[trigger] da[i], s) == val(db[i], s) by {
                assert(val(a[i], s) == val(b[i], s));
            }
            assert(val(a[a.len() - 1], s) == val(b[b.len() - 1], s));
        }
        if uval(a, s) == uval(b, s) {
            let h = pow2(da.len()) as int;
            let ba = bit(a.last(), s);
            let bb = bit(b.last(), s);
            let ua = uval(da, s);
            let ub = uval(db, s);
            assert(uval(a, s) == ua + h * ba);
            assert(uval(b, s) == ub + h * bb);
            assert(ba == bb) by (nonlinear_arith)
                requires
                    ua + h * ba == ub + h * bb,
                    0 <= ua < h,
                    0 <= ub < h,
                    ba == 0 || ba == 1,
                    bb == 0 || bb == 1,
            ;
            assert forall|i: int| 0 <= i < a.len() implies val(#[trigger] a[i], s) == val(b[i], s) by {
                if i < da.len() {
                    assert(val(da[i], s) == val(db[i], s));
                }
            }
        }
    }
}

/// One borrow stage: the borrow out of the extended operands is the
/// borrow of the top bits, or an equal top bit passing the lower borrow on.
proof fn lemma_borrow_step(x: int, y: int, h: int, ai: bool, bi: bool, br: bool)
    requires
        0 <= x < h,
        0 <= y < h,
        br == (x < y),
    ensures
        ((!ai && bi) || (!ai && br) || (bi && br)) == (x + h * (if ai { 1int } else { 0 }) < y + h * (if bi { 1int } else { 0 })),
{
}

/// Constant-false bits add nothing.
pub proof fn lemma_uval_zeros(n: nat, s: Assignment)
    ensures
        uval(Seq::new(n, |i: int| Bool::Const(false)), s) == 0,
    decreases n,
{
    if n > 0 {
        lemma_uval_zeros((n - 1) as nat, s);
        assert(Seq::new(n, |i: int| Bool::Const(false)).drop_last() =~= Seq::new((n - 1) as nat, |i: int| Bool::Const(false)));
    }
}

/// Splitting a vector at `k`: the low part's value plus `2^k` times the
/// high part's.
pub proof fn lemma_uval_split(b: Seq<Bool>, k: int, s: Assignment)
    requires
        0 <= k <= b.len(),
    ensures
        uval(b, s) == uval(b.take(k), s) + pow2(k as nat) * uval(b.skip(k), s),
        0 <= uval(b.take(k), s) < pow2(k as nat),
{
    assert(b =~= b.take(k) + b.skip(k));
    lemma_uval_concat(b.take(k), b.skip(k), s);
    lemma_uval_bounds(b.take(k), s);
}

/// Bit `k` of `a` shifted right by `amt`, the vacated high bits filled with
/// `fill`.
pub open spec fn shr_bit(a: Seq<Bool>, amt: int, fill: Bool, k: int, s: Assignment) -> bool {
    if k + amt < a.len() {
        val(a[k + amt], s)
    } else {
        val(fill, s)
    }
}

/// The signed value splits into the unsigned low `k` bits and the signed
/// high part weighing `2^k`.
pub proof fn lemma_sval_split_at(b: Seq<Bool>, k: int, s: Assignment)
    requires
        0 <= k < b.len(),
    ensures
        sval(b, s) == uval(b.take(k), s) + pow2(k as nat) * sval(b.skip(k), s),
{
    lemma_uval_split(b, k, s);
    let hi = b.skip(k);
    assert(hi.last() == b.last());
    vstd::arithmetic::power2::lemma_pow2_adds(k as nat, hi.len());
    assert(pow2(k as nat) * (uval(hi, s) - pow2(hi.len()) * bit(hi.last(), s)) == pow2(k as nat) * uval(hi, s) - pow2(b.len())
        * bit(b.last(), s)) by (nonlinear_arith)
        requires
            pow2(b.len()) == pow2(k as nat) * pow2(hi.len()),
            bit(hi.last(), s) == bit(b.last(), s),
    ;
}

/// Repeating the top bit keeps the signed value.
pub proof fn lemma_sval_sign_extend(b: Seq<Bool>, e: Seq<Bool>, s: Assignment)
    requires
        b.len() >= 1,
        b.len() <= e.len(),
        forall|k: int| 0 <= k < e.len() ==> val(#[trigger] e[k], s) == if k < b.len() { val(b[k], s) } else { val(b.last(), s) },
    ensures
        sval(e, s) == sval(b, s),
    decreases e.len() - b.len(),
{
    if e.len() == b.len() {
        lemma_uval_same(e, b, s);
    } else {
        let d = e.drop_last();
        lemma_sval_sign_extend(b, d, s);
        lemma_sval_split(e, s);
        lemma_sval_split(d, s);
        assert(d.drop_last() =~= e.drop_last().drop_last());
        assert(val(e.last(), s) == val(b.last(), s));
        assert(val(d.last(), s) == val(b.last(), s));
        lemma_pow2_unfold((e.len() - 1) as nat);
        assert(uval(d, s) == uval(d.drop_last(), s) + pow2((d.len() - 1) as nat) * bit(d.last(), s));
    }
}

/// A vector holding `a` shifted right by `amt`, zero-filled, holds
/// `uval(a) / 2^amt`.
pub proof fn lemma_shr_zero_fill(a: Seq<Bool>, r: Seq<Bool>, amt: nat, s: Assignment)
    requires
        r.len() == a.len(),
        forall|k: int| 0 <= k < r.len() ==> val(#[trigger] r[k], s) == shr_bit(a, amt as int, Bool::Const(false), k, s),
    ensures
        uval(r, s) == uval(a, s) / (pow2(amt) as int),
{
    lemma_pow2_pos(amt);
    lemma_uval_bounds(a, s);
    if amt < a.len() {
        let hi = a.skip(amt as int);
        let z = Seq::new(amt, |i: int| Bool::Const(false));
        lemma_uval_split(a, amt as int, s);
        assert forall|k: int| 0 <= k < r.len() implies val(#[trigger] r[k], s) == val((hi + z)[k], s) by {
            if k < hi.len() {
                assert((hi + z)[k] == hi[k]);
            } else {
                assert((hi + z)[k] == z[k - hi.len()]);
            }
        }
        lemma_uval_same(r, hi + z, s);
        lemma_uval_concat(hi, z, s);
        lemma_uval_zeros(amt, s);
        let q = uval(hi, s);
        assert(pow2(amt) * q == q * pow2(amt)) by (nonlinear_arith);
        vstd::arithmetic::div_mod::lemma_fundamental_div_mod_converse(uval(a, s), pow2(amt) as int, q, uval(a.take(amt as int), s));
    } else {
        let z = Seq::new(a.len(), |i: int| Bool::Const(false));
        lemma_uval_same(r, z, s);
        lemma_uval_zeros(a.len(), s);
        if amt > a.len() {
            vstd::arithmetic::power2::lemma_pow2_strictly_increases(a.len(), amt);
        }
        vstd::arithmetic::div_mod::lemma_fundamental_div_mod_converse(uval(a, s), pow2(amt) as int, 0, uval(a, s));
    }
}

/// A vector holding `a` shifted right by `amt`, sign-filled, holds the
/// floor of `sval(a) / 2^amt`.
pub proof fn lemma_shr_sign_fill(a: Seq<Bool>, r: Seq<Bool>, amt: nat, s: Assignment)
    requires
        a.len() >= 1,
        r.len() == a.len(),
        forall|k: int| 0 <= k < r.len() ==> val(#[trigger] r[k], s) == shr_bit(a, amt as int, a.last(), k, s),
    ensures
        sval(r, s) == sval(a, s) / (pow2(amt) as int),
{
    lemma_pow2_pos(amt);
    lemma_sval_split(a, s);
    if amt < a.len() {
        let hi = a.skip(amt as int);
        assert(hi.last() == a.last());
        lemma_sval_sign_extend(hi, r, s);
        lemma_sval_split_at(a, amt as int, s);
        lemma_uval_bounds(a.take(amt as int), s);
        let q = sval(hi, s);
        assert(pow2(amt) * q == q * pow2(amt)) by (nonlinear_arith);
        vstd::arithmetic::div_mod::lemma_fundamental_div_mod_converse(sval(a, s), pow2(amt) as int, q, uval(a.take(amt as int), s));
    } else {
        let one = seq![a.last()];
        lemma_sval_sign_extend(one, r, s);
        assert(one.drop_last() =~= Seq::<Bool>::empty());
        vstd::arithmetic::power2::lemma2_to64();
        assert(uval(Seq::<Bool>::empty(), s) == 0);
        assert(uval(one, s) == bit(a.last(), s));
        lemma_uval_bounds(a.drop_last(), s);
        if amt > a.len() - 1 {
            vstd::arithmetic::power2::lemma_pow2_strictly_increases((a.len() - 1) as nat, amt);
        }
        let sv = sval(a, s);
        let m = pow2(amt) as int;
        if val(a.last(), s) {
            assert(sval(one, s) == -1);
            vstd::arithmetic::div_mod::lemma_fundamental_div_mod_converse(sv, m, -1, sv + m);
        } else {
            assert(sval(one, s) == 0);
            vstd::arithmetic::div_mod::lemma_fundamental_div_mod_converse(sv, m, 0, sv);
        }
    }
}

/// `2^k` exceeds `k`.
pub proof fn lemma_pow2_above_self(k: nat)
    ensures
        k < pow2(k),
    decreases k,
{
    vstd::arithmetic::power2::lemma2_to64();
    if k > 0 {
        lemma_pow2_above_self((k - 1) as nat);
        lemma_pow2_unfold(k);
    }
}

/// The mask width of `w` is unique.
pub proof fn lemma_mask_width_unique(m1: nat, m2: nat, w: nat)
    requires
        is_mask_width(m1, w),
        is_mask_width(m2, w),
    ensures
        m1 == m2,
{
    if m1 < m2 {
        if m1 < (m2 - 1) as nat {
            vstd::arithmetic::power2::lemma_pow2_strictly_increases(m1, (m2 - 1) as nat);
        }
    } else if m2 < m1 {
        if m2 < (m1 - 1) as nat {
            vstd::arithmetic::power2::lemma_pow2_strictly_increases(m2, (m1 - 1) as nat);
        }
    }
}

/// One barrel stage: where the amount bit holds, the stage shifts the
/// running value right by `sh` more.
proof fn lemma_shr_stage(
    a: Seq<Bool>,
    cur: Seq<Bool>,
    shifted: Seq<Bool>,
    next: Seq<Bool>,
    bb: Bool,
    amt: int,
    sh: int,
    fill: Bool,
    s: Assignment,
)
    requires
        amt >= 0,
        sh >= 0,
        cur.len() == a.len(),
        shifted.len() == a.len(),
        next.len() == a.len(),
        forall|k: int| 0 <= k < a.len() ==> val(#[trigger] cur[k], s) == shr_bit(a, amt, fill, k, s),
        forall|k: int| 0 <= k < a.len() ==> #[trigger] shifted[k] == if k + sh < a.len() { cur[k + sh] } else { fill },
        forall|k: int| 0 <= k < a.len() ==> val(#[trigger] next[k], s) == if val(bb, s) { val(shifted[k], s) } else { val(cur[k], s) },
    ensures
        forall|k: int| 0 <= k < a.len() ==> val(#[trigger] next[k], s) == shr_bit(a, amt + sh * bit(bb, s), fill, k, s),
{
    assert forall|k: int| 0 <= k < a.len() implies val(#[trigger] next[k], s) == shr_bit(a, amt + sh * bit(bb, s), fill, k, s) by {
        if val(bb, s) {
            assert(shifted[k] == if k + sh < a.len() { cur[k + sh] } else { fill });
            if k + sh < a.len() {
                assert(val(cur[k + sh], s) == shr_bit(a, amt, fill, k + sh, s));
            }
        } else {
            assert(val(cur[k], s) == shr_bit(a, amt, fill, k, s));
        }
    }
}

/// Bit `k` of `a` shifted left by `amt`, the vacated low bits zero.
pub open spec fn shl_bit(a: Seq<Bool>, amt: int, k: int, s: Assignment) -> bool {
    if amt <= k && k - amt < a.len() {
        val(a[k - amt], s)
    } else {
        false
    }
}

/// A vector holding `a` shifted left by `amt` holds `uval(a)·2^amt`
/// reduced modulo `2^w`.
pub proof fn lemma_shl_value(a: Seq<Bool>, r: Seq<Bool>, amt: nat, s: Assignment)
    requires
        r.len() == a.len(),
        forall|k: int| 0 <= k < r.len() ==> val(#[trigger] r[k], s) == shl_bit(a, amt as int, k, s),
    ensures
        uval(r, s) == (uval(a, s) * pow2(amt)) % (pow2(a.len()) as int),
{
    let n = a.len();
    lemma_pow2_pos(amt);
    lemma_pow2_pos(n);
    lemma_uval_bounds(a, s);
    if amt < n {
        let keep = (n - amt) as int;
        let lo = a.take(keep);
        let z = Seq::new(amt, |i: int| Bool::Const(false));
        assert forall|k: int| 0 <= k < r.len() implies val(#[trigger] r[k], s) == val((z + lo)[k], s) by {
            if k < amt {
                assert((z + lo)[k] == z[k]);
            } else {
                assert((z + lo)[k] == lo[k - amt]);
            }
        }
        lemma_uval_same(r, z + lo, s);
        lemma_uval_concat(z, lo, s);
        lemma_uval_zeros(amt, s);
        lemma_uval_split(a, keep, s);
        let l = uval(lo, s);
        let h = uval(a.skip(keep), s);
        lemma_uval_bounds(a.skip(keep), s);
        vstd::arithmetic::power2::lemma_pow2_adds(amt, keep as nat);
        let pa = pow2(amt) as int;
        let pk = pow2(keep as nat) as int;
        assert(uval(a, s) * pa == h * (pa * pk) + pa * l) by (nonlinear_arith)
            requires
                uval(a, s) == l + pk * h,
        ;
        assert(0 <= pa * l < pa * pk) by (nonlinear_arith)
            requires
                0 <= l < pk,
                pa > 0,
        ;
        assert(pa * pk == pow2(n));
        vstd::arithmetic::div_mod::lemma_fundamental_div_mod_converse(uval(a, s) * pa, pa * pk, h, pa * l);
    } else {
        let z = Seq::new(n, |i: int| Bool::Const(false));
        lemma_uval_same(r, z, s);
        lemma_uval_zeros(n, s);
        vstd::arithmetic::power2::lemma_pow2_adds(n, (amt - n) as nat);
        let q = uval(a, s) * pow2((amt - n) as nat);
        assert(uval(a, s) * pow2(amt) == q * (pow2(n) as int) + 0) by (nonlinear_arith)
            requires
                pow2(amt) == pow2(n) * pow2((amt - n) as nat),
                q == uval(a, s) * pow2((amt - n) as nat),
        ;
        vstd::arithmetic::div_mod::lemma_fundamental_div_mod_converse(uval(a, s) * pow2(amt), pow2(n) as int, q, 0);
    }
}

/// One move stage of the left shift, below the mask width: where amount
/// bit `i` holds, the running value moves left by `2^i`.
proof fn lemma_shl_move(a: Seq<Bool>, b: Seq<Bool>, cur: Seq<Bool>, next: Seq<Bool>, sh: int, i: int, mask: nat, s: Assignment)
    requires
        0 <= i < mask,
        i < b.len(),
        sh == pow2(i as nat),
        cur.len() == a.len(),
        next.len() == a.len(),
        forall|k: int| 0 <= k < a.len() ==> val(#[trigger] cur[k], s) == shl_bit(a, shl_amount(b, mask, i, s), k, s),
        forall|k: int| 0 <= k < next.len() ==> val(#[trigger] next[k], s) == if val(b[i], s) {
            val(shift_left_seq(cur, sh)[k], s)
        } else {
            val(cur[k], s)
        },
    ensures
        forall|k: int| 0 <= k < a.len() ==> val(#[trigger] next[k], s) == shl_bit(a, shl_amount(b, mask, i + 1, s), k, s),
{
    let amt = uval(b.take(i), s);
    assert(b.take(i + 1) =~= b.take(i).push(b[i]));
    lemma_uval_push(b.take(i), b[i], s);
    lemma_uval_bounds(b.take(i), s);
    lemma_pow2_pos(i as nat);
    let sq = shift_left_seq(cur, sh);
    assert(sq.len() == a.len());
    assert forall|k: int| 0 <= k < a.len() implies #[trigger] sq[k] == if k >= sh && k - sh < a.len() {
        cur[k - sh]
    } else {
        Bool::Const(false)
    } by {}
    lemma_shl_stage(a, cur, sq, next, b[i], amt, sh, s);
}

/// One left-shift barrel stage: where the amount bit holds, the stage
/// shifts the running value left by `sh` more.
proof fn lemma_shl_stage(
    a: Seq<Bool>,
    cur: Seq<Bool>,
    shifted: Seq<Bool>,
    next: Seq<Bool>,
    bb: Bool,
    amt: int,
    sh: int,
    s: Assignment,
)
    requires
        amt >= 0,
        sh >= 0,
        cur.len() == a.len(),
        shifted.len() == a.len(),
        next.len() == a.len(),
        forall|k: int| 0 <= k < a.len() ==> val(#[trigger] cur[k], s) == shl_bit(a, amt, k, s),
        forall|k: int| 0 <= k < a.len() ==> #[trigger] shifted[k] == if k >= sh && k - sh < a.len() {
            cur[k - sh]
        } else {
            Bool::Const(false)
        },
        forall|k: int| 0 <= k < a.len() ==> val(#[trigger] next[k], s) == if val(bb, s) { val(shifted[k], s) } else { val(cur[k], s) },
    ensures
        forall|k: int| 0 <= k < a.len() ==> val(#[trigger] next[k], s) == shl_bit(a, amt + sh * bit(bb, s), k, s),
{
    assert forall|k: int| 0 <= k < a.len() implies val(#[trigger] next[k], s) == shl_bit(a, amt + sh * bit(bb, s), k, s) by {
        if val(bb, s) {
            assert(shifted[k] == if k >= sh && k - sh < a.len() { cur[k - sh] } else { Bool::Const(false) });
            if k >= sh {
                assert(val(cur[k - sh], s) == shl_bit(a, amt, k - sh, s));
            }
        } else {
            assert(val(cur[k], s) == shl_bit(a, amt, k, s));
        }
    }
}

/// Where the overflow check of left-shift stage `i` starts at width `w`:
/// `2^i` bits below the top bit, or at the bottom when that reaches past it.
pub open spec fn shl_lo(w: int, i: nat) -> int {
    if pow2(i) >= w - 1 {
        0
    } else {
        w - 1 - pow2(i)
    }
}

/// Whether `a` shifted left by `amt` has two neighbouring bits that differ
/// between bit `lo` and the top bit.
pub open spec fn shl_changes(a: Seq<Bool>, amt: int, lo: int, s: Assignment) -> bool {
    exists|j: int| lo <= j < a.len() - 1 && #[trigger] shl_bit(a, amt, j, s) != shl_bit(a, amt, j + 1, s)
}

/// The shift amount in force before left-shift stage `i`: the amount bits
/// below `i`, of which only those below the mask width `m` count.
pub open spec fn shl_amount(b: Seq<Bool>, m: nat, i: int, s: Assignment) -> int {
    if i < m {
        uval(b.take(i), s)
    } else {
        uval(b.take(m as int), s)
    }
}

/// Whether left-shift stage `i` flags overflow: amount bit `i` is set and
/// the running value has a bit transition in the stage's checked region.
/// Every amount bit has a stage, those at or above the mask width too.
pub open spec fn shl_stage_flag(a: Seq<Bool>, b: Seq<Bool>, m: nat, i: int, s: Assignment) -> bool {
    val(b[i], s) && shl_changes(a, shl_amount(b, m, i, s), shl_lo(a.len() as int, i as nat), s)
}

/// The left shift's overflow flag: some stage flags.
pub open spec fn shl_overflow(a: Seq<Bool>, b: Seq<Bool>, m: nat, s: Assignment) -> bool {
    exists|i: int| 0 <= i < a.len() && #[trigger] shl_stage_flag(a, b, m, i, s)
}

/// Under a vector that holds `a` shifted left by `amt`, its transitions
/// from bit `lo` up are those of the shifted value.
proof fn lemma_changes_match(a: Seq<Bool>, cur: Seq<Bool>, amt: int, lo: int, s: Assignment)
    requires
        0 <= lo,
        cur.len() == a.len(),
        forall|k: int| 0 <= k < a.len() ==> val(#[trigger] cur[k], s) == shl_bit(a, amt, k, s),
    ensures
        (exists|j: int| lo <= j < cur.len() - 1 && #[trigger] differs_at(cur, j, s)) == shl_changes(a, amt, lo, s),
{
    if exists|j: int| lo <= j < cur.len() - 1 && #[trigger] differs_at(cur, j, s) {
        let j = choose|j: int| lo <= j < cur.len() - 1 && #[trigger] differs_at(cur, j, s);
        assert(val(cur[j], s) == shl_bit(a, amt, j, s));
        assert(val(cur[j + 1], s) == shl_bit(a, amt, j + 1, s));
        assert(shl_bit(a, amt, j, s) != shl_bit(a, amt, j + 1, s));
    }
    if shl_changes(a, amt, lo, s) {
        let j = choose|j: int| lo <= j < a.len() - 1 && #[trigger] shl_bit(a, amt, j, s) != shl_bit(a, amt, j + 1, s);
        assert(val(cur[j], s) == shl_bit(a, amt, j, s));
        assert(val(cur[j + 1], s) == shl_bit(a, amt, j + 1, s));
        assert(differs_at(cur, j, s));
    }
}

/// Equal-width vectors with equal signed values agree bit for bit.
pub proof fn lemma_sval_injective(x: Seq<Bool>, y: Seq<Bool>, s: Assignment)
    requires
        x.len() == y.len(),
        x.len() >= 1,
        sval(x, s) == sval(y, s),
    ensures
        forall|k: int| 0 <= k < x.len() ==> val(#[trigger] x[k], s) == val(y[k], s),
{
    lemma_uval_bounds(x, s);
    lemma_uval_bounds(y, s);
    lemma_uval_eq(x, y, s);
}

/// A vector is congruent modulo `2^w` to its signed value.
pub proof fn lemma_uval_sval_mod(b: Seq<Bool>, s: Assignment)
    requires
        b.len() >= 1,
    ensures
        uval(b, s) == sval(b, s) % (pow2(b.len()) as int),
{
    let m = pow2(b.len()) as int;
    lemma_pow2_pos(b.len());
    lemma_uval_bounds(b, s);
    let t = bit(b.last(), s);
    assert(sval(b, s) == (-t) * m + uval(b, s)) by (nonlinear_arith)
        requires
            sval(b, s) == uval(b, s) - m * t,
    ;
    vstd::arithmetic::div_mod::lemma_fundamental_div_mod_converse(sval(b, s), m, -t, uval(b, s));
}

/// Products of numbers congruent modulo `m` are congruent.
pub proof fn lemma_mul_congruent(ua: int, ub: int, sa: int, sb: int, m: int)
    requires
        m > 0,
        ua % m == sa % m,
        ub % m == sb % m,
    ensures
        (ua * ub) % m == (sa * sb) % m,
{
    vstd::arithmetic::div_mod::lemma_mul_mod_noop(ua, ub, m);
    vstd::arithmetic::div_mod::lemma_mul_mod_noop(sa, sb, m);
}

/// The signed product of two `w`-bit values lies in the `2w`-bit signed
/// range.
pub proof fn lemma_product_in_range(sa: int, sb: int, w: nat)
    requires
        in_range(sa, w),
        in_range(sb, w),
    ensures
        in_range(sa * sb, 2 * w),
{
    let h = pow2((w - 1) as nat) as int;
    vstd::arithmetic::power2::lemma_pow2_adds((w - 1) as nat, (w - 1) as nat);
    lemma_pow2_unfold((2 * w - 1) as nat);
    lemma_pow2_pos((w - 1) as nat);
    assert((w - 1) + (w - 1) == 2 * w - 2);
    assert(pow2((2 * w - 1) as nat) == 2 * (h * h));
    assert(-(h * h) <= sa * sb <= h * h) by (nonlinear_arith)
        requires
            -h <= sa < h,
            -h <= sb < h,
            h > 0,
    ;
    assert(h * h > 0) by (nonlinear_arith)
        requires
            h > 0,
    ;
}

/// One shift-add step modulo `m`: adding `x·2^e` (reduced), gated by the
/// bit `bt`, to `x·t` (reduced) gives `x·(t + 2^e·bt)` (reduced).
proof fn lemma_shift_add_step(x: int, t: int, p: int, g: int, bt: int, e: int, m: int)
    requires
        m > 0,
        p == (x * t) % m,
        bt == 0 || bt == 1,
        g == bt * ((x * e) % m),
    ensures
        (p + g) % m == (x * (t + e * bt)) % m,
{
    if bt == 0 {
        assert(g == 0);
        assert(t + e * bt == t);
        vstd::arithmetic::div_mod::lemma_mod_twice(x * t, m);
    } else {
        assert(g == (x * e) % m);
        assert(x * (t + e * bt) == x * t + x * e) by (nonlinear_arith)
            requires
                bt == 1,
        ;
        vstd::arithmetic::div_mod::lemma_add_mod_noop(x * t, x * e, m);
    }
}

/// The product bits: the low half wraps the signed product, and some high
/// bit differs from the low half's sign exactly when the product leaves the
/// low half's signed range.
proof fn lemma_product_halves(prod: Seq<Bool>, ua: int, ub: int, sa: int, sb: int, w: nat, s: Assignment)
    requires
        w >= 1,
        prod.len() == 2 * w,
        in_range(sa, w),
        in_range(sb, w),
        ua % (pow2(2 * w) as int) == sa % (pow2(2 * w) as int),
        ub % (pow2(2 * w) as int) == sb % (pow2(2 * w) as int),
        uval(prod, s) == (ua * ub) % (pow2(2 * w) as int),
    ensures
        sval(prod.take(w as int), s) == wrap(sa * sb, w),
        (exists|j: int| w <= j < 2 * w && #[trigger] val(prod[j], s) != val(prod[w - 1], s)) == !in_range(sa * sb, w),
{
    let dw = (2 * w) as nat;
    let m = pow2(dw) as int;
    let hw = pow2(w) as int;
    let p = sa * sb;
    let low = prod.take(w as int);
    lemma_pow2_pos(dw);
    lemma_pow2_pos(w);
    lemma_mul_congruent(ua, ub, sa, sb, m);
    vstd::arithmetic::power2::lemma_pow2_adds(w, w);
    assert(w + w == dw);
    lemma_uval_split(prod, w as int, s);
    let hi = uval(prod.skip(w as int), s);
    assert(uval(prod, s) == hi * hw + uval(low, s)) by (nonlinear_arith)
        requires
            uval(prod, s) == uval(low, s) + hw * hi,
    ;
    vstd::arithmetic::div_mod::lemma_fundamental_div_mod_converse(uval(prod, s), hw, hi, uval(low, s));
    vstd::arithmetic::div_mod::lemma_mod_mod(p, hw, hw);
    assert(hw * hw == m);
    lemma_sval_wrap(low, p, s);
    lemma_product_in_range(sa, sb, w);
    lemma_sval_split(low, s);
    assert(low.last() == prod[w - 1]);
    if in_range(p, w) {
        lemma_wrap_in_range(p, 0, w);
        assert(p + pow2(w) * 0 == p);
        lemma_sval_wrap(prod, p, s);
        lemma_wrap_in_range(p, 0, dw);
        assert(p + pow2(dw) * 0 == p);
        let ext = Seq::new(dw, |k: int| if k < w { low[k] } else { low.last() });
        lemma_sval_sign_extend(low, ext, s);
        lemma_sval_injective(ext, prod, s);
        if exists|j: int| w <= j < 2 * w && #[trigger] val(prod[j], s) != val(prod[w - 1], s) {
            let j = choose|j: int| w <= j < 2 * w && #[trigger] val(prod[j], s) != val(prod[w - 1], s);
            assert(val(ext[j], s) == val(prod[j], s));
        }
    } else {
        if !exists|j: int| w <= j < 2 * w && #[trigger] val(prod[j], s) != val(prod[w - 1], s) {
            assert forall|k: int| 0 <= k < prod.len() implies val(#[trigger] prod[k], s) == if k < low.len() {
                val(low[k], s)
            } else {
                val(low.last(), s)
            } by {
                if k >= w {
                    assert(!(val(prod[k], s) != val(prod[w - 1], s)));
                }
            }
            lemma_sval_sign_extend(low, prod, s);
            lemma_sval_wrap(prod, p, s);
            lemma_wrap_in_range(p, 0, dw);
            assert(p + pow2(dw) * 0 == p);
        }
    }
}

/// A vector whose value is below `2^k` loses nothing when cut to its low
/// `k` bits.
pub proof fn lemma_uval_low(b: Seq<Bool>, k: int, s: Assignment)
    requires
        0 <= k <= b.len(),
        uval(b, s) < pow2(k as nat),
    ensures
        uval(b.take(k), s) == uval(b, s),
{
    lemma_uval_split(b, k, s);
    lemma_uval_bounds(b.skip(k), s);
    lemma_pow2_pos(k as nat);
    let h = uval(b.skip(k), s);
    let p = pow2(k as nat) as int;
    assert(h >= 1 ==> p * h >= p) by (nonlinear_arith)
        requires
            p > 0,
    ;
    assert(uval(b, s) == uval(b.take(k), s) + p * h);
    if h == 0 {
        assert(p * h == 0) by (nonlinear_arith)
            requires
                h == 0,
        ;
    }
}

/// The value of a vector with one bit put below it: that bit plus twice the
/// vector's value.
pub proof fn lemma_uval_prepend(x: Bool, rest: Seq<Bool>, s: Assignment)
    ensures
        uval(seq![x] + rest, s) == bit(x, s) + 2 * uval(rest, s),
{
    lemma_uval_concat(seq![x], rest, s);
    assert(seq![x].drop_last() =~= Seq::<Bool>::empty());
    vstd::arithmetic::power2::lemma2_to64();
    assert(uval(Seq::<Bool>::empty(), s) == 0);
    assert(seq![x].last() == x);
    assert(uval(seq![x], s) == bit(x, s));
    assert(seq![x].len() == 1);
}

/// One step of restoring division: bringing down the next bit `bt` below
/// the processed high part `d`, and subtracting `y` where the candidate
/// reaches it, keeps the remainder and extends the quotient.
proof fn lemma_restoring_step(d: int, y: int, bt: int)
    requires
        d >= 0,
        y >= 1,
        bt == 0 || bt == 1,
    ensures
        ({
            let cand = bt + 2 * (d % y);
            let d2 = bt + 2 * d;
            &&& 0 <= cand < 2 * y
            &&& cand >= y ==> d2 % y == cand - y && d2 / y == 2 * (d / y) + 1
            &&& cand < y ==> d2 % y == cand && d2 / y == 2 * (d / y)
        }),
{
    let q = d / y;
    let r = d % y;
    vstd::arithmetic::div_mod::lemma_fundamental_div_mod(d, y);
    let cand = bt + 2 * r;
    let d2 = bt + 2 * d;
    assert(d2 == y * (2 * q) + cand) by (nonlinear_arith)
        requires
            d == y * q + r,
            d2 == bt + 2 * d,
            cand == bt + 2 * r,
    ;
    if cand >= y {
        assert(d2 == (2 * q + 1) * y + (cand - y)) by (nonlinear_arith)
            requires
                d2 == y * (2 * q) + cand,
        ;
        vstd::arithmetic::div_mod::lemma_fundamental_div_mod_converse(d2, y, 2 * q + 1, cand - y);
    } else {
        assert(d2 == (2 * q) * y + cand) by (nonlinear_arith)
            requires
                d2 == y * (2 * q) + cand,
        ;
        vstd::arithmetic::div_mod::lemma_fundamental_div_mod_converse(d2, y, 2 * q, cand);
    }
}

/// Wrapping keeps the residue modulo `2^w`.
pub proof fn lemma_wrap_mod(x: int, w: nat)
    requires
        w >= 1,
    ensures
        wrap(x, w) % (pow2(w) as int) == x % (pow2(w) as int),
{
    let m = pow2(w) as int;
    let h = pow2((w - 1) as nat) as int;
    lemma_pow2_unfold(w);
    lemma_pow2_pos(w);
    vstd::arithmetic::div_mod::lemma_sub_mod_noop(x + h, h, m);
    vstd::arithmetic::div_mod::lemma_small_mod(h as nat, m as nat);
    vstd::arithmetic::div_mod::lemma_mod_twice(x + h, m);
}

/// The magnitude of an integer.
pub open spec fn magnitude(x: int) -> int {
    if x < 0 {
        -x
    } else {
        x
    }
}

/// Division truncating toward zero.
pub open spec fn trunc_div(a: int, b: int) -> int {
    if (a < 0) == (b < 0) {
        magnitude(a) / magnitude(b)
    } else {
        -(magnitude(a) / magnitude(b))
    }
}

/// The remainder of [`trunc_div`]: it takes the dividend's sign.
pub open spec fn trunc_rem(a: int, b: int) -> int {
    if a < 0 {
        -(magnitude(a) % magnitude(b))
    } else {
        magnitude(a) % magnitude(b)
    }
}

/// The quotient `a ÷ b` at width `w`: truncating division wrapped to the
/// width, and `−sign(a)` (wrapped) for a zero divisor.
pub open spec fn div_value(a: int, b: int, w: nat) -> int {
    if b == 0 {
        wrap(
            if a < 0 {
                1
            } else if a == 0 {
                0
            } else {
                -1
            },
            w,
        )
    } else {
        wrap(trunc_div(a, b), w)
    }
}

/// The remainder `a mod b`: the truncating remainder, and the dividend for
/// a zero divisor.
pub open spec fn rem_value(a: int, b: int) -> int {
    if b == 0 {
        a
    } else {
        trunc_rem(a, b)
    }
}

/// The top bit of a vector is its sign, and its value is zero exactly
/// when its unsigned value is.
pub proof fn lemma_sign_and_zero(b: Seq<Bool>, s: Assignment)
    requires
        b.len() >= 1,
    ensures
        val(b[b.len() - 1], s) == (sval(b, s) < 0),
        (uval(b, s) == 0) == (sval(b, s) == 0),
        -pow2((b.len() - 1) as nat) <= sval(b, s) < pow2((b.len() - 1) as nat),
{
    lemma_sval_split(b, s);
    lemma_uval_bounds(b.drop_last(), s);
    lemma_uval_sval_mod(b, s);
    lemma_pow2_unfold(b.len());
    lemma_pow2_pos(b.len());
    assert(b.last() == b[b.len() - 1]);
    if sval(b, s) == 0 {
        vstd::arithmetic::div_mod::lemma_small_mod(0, pow2(b.len()));
    }
    if uval(b, s) == 0 {
        assert(sval(b, s) == uval(b, s) - pow2(b.len()) * bit(b.last(), s));
    }
}

/// Flipping the top bit shifts the signed value into the unsigned range:
/// the result's unsigned value is the signed value plus `2^(w−1)`.
pub proof fn lemma_flip_top(b: Seq<Bool>, f: Seq<Bool>, s: Assignment)
    requires
        b.len() >= 1,
        f.len() == b.len(),
        f.drop_last() == b.drop_last(),
        val(f.last(), s) == !val(b.last(), s),
    ensures
        uval(f, s) == sval(b, s) + pow2((b.len() - 1) as nat),
{
    lemma_sval_split(b, s);
}

/// A fixed-width two's-complement integer, least significant bit first.
pub struct IntVal {
    bits: Vec<Bool>,
}

impl View for IntVal {
    type V = Seq<Bool>;

    closed spec fn view(&self) -> Seq<Bool> {
        self.bits@
    }
}

impl IntVal {
    /// The constant `value` in `width` bits: bit `i` is `(value >> i) & 1`,
    /// so the bits hold `value mod 2^width` (two's complement, wrapping).
    pub fn constant(value: i64, width: usize) -> (v: IntVal)
        requires
            width <= 64,
        ensures
            v@.len() == width,
            forall|i: int| 0 <= i < width ==> (#[trigger] v@[i]) is Const,
            forall|n: nat| all_valid(v@, n),
            forall|s: Assignment| #[trigger] uval(v@, s) == (value as int) % (pow2(width as nat) as int),
            forall|s: Assignment| width >= 1 ==> #[trigger] sval(v@, s) == wrap(value as int, width as nat),
    {
        let mut bits: Vec<Bool> = Vec::new();
        let mut i: usize = 0;
        proof {
            vstd::arithmetic::power2::lemma2_to64();
            assert(bits@ =~= Seq::<Bool>::empty());
        }
        while i < width
            invariant
                i <= width <= 64,
                bits@.len() == i,
                forall|j: int| 0 <= j < i ==> (#[trigger] bits@[j]) is Const,
                forall|s: Assignment| #[trigger] uval(bits@, s) == (value as int) % (pow2(i as nat) as int),
            decreases width - i,
        {
            let b = (value >> i) & 1 == 1;
            let ghost b0 = bits@;
            bits.push(Bool::Const(b));
            proof {
                lemma_low_bits(value, i as nat);
                assert forall|s: Assignment| #[trigger] uval(bits@, s) == (value as int) % (pow2((i + 1) as nat) as int) by {
                    lemma_uval_push(b0, Bool::Const(b), s);
                }
            }
            i = i + 1;
        }
        let v = IntVal { bits };
        proof {
            assert forall|s: Assignment| width >= 1 implies #[trigger] sval(v@, s) == wrap(value as int, width as nat) by {
                lemma_sval_wrap(v@, value as int, s);
            }
        }
        v
    }

    /// The bits, least significant first.
    pub fn bits(&self) -> (b: &[Bool])
        ensures
            b@ == self@,
    {
        self.bits.as_slice()
    }

    /// The bit width.
    pub fn width(&self) -> (w: usize)
        ensures
            w == self@.len(),
    {
        self.bits.len()
    }

    /// Builds a value directly from bits, least significant first.
    pub fn from_bits(bits: Vec<Bool>) -> (v: IntVal)
        ensures
            v@ == bits@,
    {
        IntVal { bits }
    }
}

/// A copy of a list of bits.
fn copy_bits(v: &Vec<Bool>) -> (r: Vec<Bool>)
    ensures
        r@ == v@,
{
    let mut r: Vec<Bool> = Vec::new();
    let mut i: usize = 0;
    while i < v.len()
        invariant
            i <= v.len(),
            r@ == v@.take(i as int),
        decreases v.len() - i,
    {
        r.push(v[i]);
        i = i + 1;
        assert(r@ =~= v@.take(i as int));
    }
    assert(v@.take(i as int) =~= v@);
    r
}

/// Right shift of a bit list by `sh`, kept to `width` bits: bit `k` is bit
/// `k + sh` of the input when that exists below `width`, else `fill`.
pub fn shift_right_bits(bits: &[Bool], sh: usize, width: usize, fill: Bool) -> (out: Vec<Bool>)
    requires
        sh + width <= usize::MAX,
    ensures
        out@.len() == width,
        forall|k: int| 0 <= k < width ==> #[trigger] out@[k] == if k + sh < width && k + sh < bits@.len() {
            bits@[k + sh]
        } else {
            fill
        },
{
    let mut out: Vec<Bool> = Vec::new();
    let mut k: usize = 0;
    while k < width
        invariant
            k <= width,
            sh + width <= usize::MAX,
            out@.len() == k,
            forall|j: int| 0 <= j < k ==> #[trigger] out@[j] == if j + sh < width && j + sh < bits@.len() {
                bits@[j + sh]
            } else {
                fill
            },
        decreases width - k,
    {
        let src = k + sh;
        let b = if src < width {
            if src < bits.len() {
                bits[src]
            } else {
                fill
            }
        } else {
            fill
        };
        out.push(b);
        k = k + 1;
    }
    out
}

/// Left shift of a bit list by `sh`, zero-filling, kept to `width` bits:
/// bit `k` is bit `k − sh` of the input when `k ≥ sh` and that bit exists,
/// else false.
pub fn shift_left_bits(bits: &[Bool], sh: usize, width: usize) -> (out: Vec<Bool>)
    ensures
        out@.len() == width,
        forall|k: int| 0 <= k < width ==> #[trigger] out@[k] == if k >= sh && k - sh < bits@.len() {
            bits@[k - sh]
        } else {
            Bool::Const(false)
        },
{
    let mut out: Vec<Bool> = Vec::new();
    let mut k: usize = 0;
    while k < width
        invariant
            k <= width,
            out@.len() == k,
            forall|j: int| 0 <= j < k ==> #[trigger] out@[j] == if j >= sh && j - sh < bits@.len() {
                bits@[j - sh]
            } else {
                Bool::Const(false)
            },
        decreases width - k,
    {
        let b = if k >= sh {
            if k - sh < bits.len() {
                bits[k - sh]
            } else {
                Bool::Const(false)
            }
        } else {
            Bool::Const(false)
        };
        out.push(b);
        k = k + 1;
    }
    out
}

/// The mask width `⌈log₂ w⌉`: the number of low shift-amount bits that
/// affect a shift at width `w`.
pub open spec fn is_mask_width(m: nat, w: nat) -> bool {
    w <= pow2(m) && (m == 0 || pow2((m - 1) as nat) < w)
}

/// The shift of barrel stage `i` below the mask width: `2^i`, which stays
/// below the value width.
fn stage_amount(i: usize, mask: usize, w: usize) -> (sh: usize)
    requires
        i < mask,
        w >= 1,
        is_mask_width(mask as nat, w as nat),
    ensures
        sh == pow2(i as nat),
        sh < w,
{
    proof {
        lemma_pow2_above_self(i as nat);
        if i < mask - 1 {
            vstd::arithmetic::power2::lemma_pow2_strictly_increases(i as nat, (mask - 1) as nat);
        }
        if i >= 64 {
            vstd::arithmetic::power2::lemma2_to64();
            if (mask - 1) as nat > 64 {
                vstd::arithmetic::power2::lemma_pow2_strictly_increases(64, (mask - 1) as nat);
            }
            assert(pow2((mask - 1) as nat) >= pow2(64));
            assert(false);
        }
        if i >= usize::BITS {
            vstd::arithmetic::power2::lemma2_to64();
            assert(usize::BITS == 32);
            if (mask - 1) as nat > 32 {
                vstd::arithmetic::power2::lemma_pow2_strictly_increases(32, (mask - 1) as nat);
            }
            assert(pow2((mask - 1) as nat) >= pow2(32));
            assert(false);
        }
    }
    let sh: usize = 1usize << i;
    proof {
        vstd::bits::lemma_usize_shl_is_mul(1, i);
    }
    sh
}

/// Whether bits `j` and `j + 1` differ.
pub open spec fn differs_at(bits: Seq<Bool>, j: int, s: Assignment) -> bool {
    val(bits[j], s) != val(bits[j + 1], s)
}

/// Where the overflow check of left-shift stage `i` starts at width `w`.
fn shl_region_start(i: usize, w: usize) -> (lo: usize)
    requires
        w >= 1,
    ensures
        lo == shl_lo(w as int, i as nat),
        lo < w,
{
    proof {
        vstd::arithmetic::power2::lemma2_to64();
    }
    let k: usize = if i < 32 || (i < 64 && usize::BITS == 64) {
        proof {
            if i < 31 {
                vstd::arithmetic::power2::lemma_pow2_strictly_increases(i as nat, 31);
            }
            if 31 < i && i < 63 {
                vstd::arithmetic::power2::lemma_pow2_strictly_increases(i as nat, 63);
            }
            if usize::BITS == 32 {
                assert(usize::MAX == 0xffff_ffff);
            } else {
                assert(usize::MAX == 0xffff_ffff_ffff_ffff);
            }
            vstd::arithmetic::power2::lemma2_to64_rest();
            assert(1 * pow2(i as nat) <= usize::MAX);
            vstd::bits::lemma_usize_shl_is_mul(1, i);
        }
        1usize << i
    } else {
        proof {
            if i > 32 {
                vstd::arithmetic::power2::lemma_pow2_strictly_increases(32, i as nat);
            }
            if i > 64 {
                vstd::arithmetic::power2::lemma_pow2_strictly_increases(64, i as nat);
            }
        }
        w
    };
    if k >= w - 1 {
        0
    } else {
        w - 1 - k
    }
}

/// A bit list shifted right by `sh` within its width, vacated high bits
/// filled with `fill`.
pub open spec fn shift_right_seq(bits: Seq<Bool>, sh: int, fill: Bool) -> Seq<Bool> {
    Seq::new(bits.len(), |k: int| if k + sh < bits.len() { bits[k + sh] } else { fill })
}

/// A bit list shifted left by `sh` within its width, vacated low bits
/// false.
pub open spec fn shift_left_seq(bits: Seq<Bool>, sh: int) -> Seq<Bool> {
    Seq::new(bits.len(), |k: int| if k >= sh && k - sh < bits.len() { bits[k - sh] } else { Bool::Const(false) })
}

/// The low `n` bits of a bit list.
fn take_bits(bits: &[Bool], n: usize) -> (out: Vec<Bool>)
    requires
        n <= bits@.len(),
    ensures
        out@ == bits@.take(n as int),
{
    let mut out: Vec<Bool> = Vec::new();
    let mut k: usize = 0;
    while k < n
        invariant
            k <= n <= bits@.len(),
            out@ == bits@.take(k as int),
        decreases n - k,
    {
        out.push(bits[k]);
        proof {
            assert(bits@.take(k + 1) =~= bits@.take(k as int).push(bits@[k as int]));
        }
        k = k + 1;
    }
    out
}

/// The results of [`IntBuilder::div_rem`]: the quotient, the remainder and
/// their overflow flags.
pub struct DivRem {
    /// `a ÷ b`.
    pub quotient: IntVal,
    /// `a mod b`.
    pub remainder: IntVal,
    /// Overflow of `÷`: a zero divisor, or the most negative value divided
    /// by `−1`.
    pub div_overflow: Bool,
    /// Overflow of `mod`: a zero divisor.
    pub rem_overflow: Bool,
}

/// Integer gate builder: a circuit and the fixed bit width of its values.
pub struct IntBuilder {
    circ: Circuit,
    width: usize,
}

impl IntBuilder {
    /// The circuit the gates are added to.
    pub closed spec fn c(&self) -> Circuit {
        self.circ
    }

    /// The bit width.
    pub closed spec fn wid(&self) -> nat {
        self.width as nat
    }

    /// Wraps a circuit for a fixed bit width.
    pub fn new(circ: Circuit, width: usize) -> (b: IntBuilder)
        ensures
            b.c() == circ,
            b.wid() == width,
    {
        IntBuilder { circ, width }
    }

    /// The bit width.
    pub fn width(&self) -> (w: usize)
        ensures
            w == self.wid(),
    {
        self.width
    }

    /// The circuit, to build further gates on.
    pub fn circuit_mut(&mut self) -> (c: &mut Circuit)
        ensures
            *c == old(self).c(),
            final(self).c() == *final(c),
            final(self).wid() == old(self).wid(),
    {
        &mut self.circ
    }

    /// Gives back the circuit.
    pub fn into_circuit(self) -> (c: Circuit)
        ensures
            c == self.c(),
    {
        self.circ
    }

    /// A full adder: `(sum, carry_out)` of `a + b + carry_in`.
    #[verifier::spinoff_prover]
    fn full_add(&mut self, a: Bool, b: Bool, cin: Bool) -> (r: (Bool, Bool))
        requires
            old(self).c().wf(),
            valid(a, old(self).c().nv()),
            valid(b, old(self).c().nv()),
            valid(cin, old(self).c().nv()),
            old(self).c().nv() + 9 <= u32::MAX,
        ensures
            grown(&old(self).c(), &final(self).c()),
            final(self).c().nv() <= old(self).c().nv() + 9,
            final(self).wid() == old(self).wid(),
            valid(r.0, final(self).c().nv()),
            valid(r.1, final(self).c().nv()),
            forall|s: Assignment| #[trigger] sat(final(self).c().cls(), s) ==> bit(a, s) + bit(b, s) + bit(cin, s) == bit(r.0, s)
                + 2 * bit(r.1, s),
            a is Const && b is Const && cin is Const ==> r.0 is Const && r.1 is Const && final(self).c().same(&old(self).c()),
    {
        let ghost c0 = self.circ;
        let axb = self.circ.xor(a, b);
        let ghost c1 = self.circ;
        let sum = self.circ.xor(axb, cin);
        let ghost c2 = self.circ;
        let ab = self.circ.and(a, b);
        let ghost c3 = self.circ;
        let cx = self.circ.and(cin, axb);
        let ghost c4 = self.circ;
        let carry = self.circ.or(ab, cx);
        proof {
            lemma_grown_trans(&c0, &c1, &c2);
            lemma_grown_trans(&c0, &c2, &c3);
            lemma_grown_trans(&c0, &c3, &c4);
            lemma_grown_trans(&c0, &c4, &self.circ);
            assert forall|s: Assignment| #[trigger] sat(self.circ.cls(), s) implies bit(a, s) + bit(b, s) + bit(cin, s) == bit(sum, s)
                + 2 * bit(carry, s) by {
                lemma_sat_back(&c4, &self.circ, s);
                lemma_sat_back(&c3, &c4, s);
                lemma_sat_back(&c2, &c3, s);
                lemma_sat_back(&c1, &c2, s);
                assert(val(axb, s) == (val(a, s) != val(b, s)));
                assert(val(sum, s) == (val(axb, s) != val(cin, s)));
                assert(val(carry, s) == ((val(a, s) && val(b, s)) || (val(cin, s) && val(axb, s))));
                lemma_full_add_bits(val(a, s), val(b, s), val(cin, s));
            }
        }
        (sum, carry)
    }

    /// A ripple-carry sum of two equal-width vectors and a carry in: the
    /// sum bits, the carry into the top bit, and the carry out.
    fn ripple(&mut self, a: &[Bool], b: &[Bool], cin: Bool) -> (r: (Vec<Bool>, Bool, Bool))
        requires
            old(self).c().wf(),
            a@.len() == b@.len(),
            all_valid(a@, old(self).c().nv()),
            all_valid(b@, old(self).c().nv()),
            valid(cin, old(self).c().nv()),
            old(self).c().nv() + 9 * a@.len() <= u32::MAX,
        ensures
            grown(&old(self).c(), &final(self).c()),
            final(self).c().nv() <= old(self).c().nv() + 9 * a@.len(),
            final(self).wid() == old(self).wid(),
            r.0@.len() == a@.len(),
            all_valid(r.0@, final(self).c().nv()),
            valid(r.1, final(self).c().nv()),
            valid(r.2, final(self).c().nv()),
            forall|s: Assignment| #[trigger] sat(final(self).c().cls(), s) ==> uval(r.0@, s) + pow2(a@.len()) * bit(r.2, s) == uval(a@, s)
                + uval(b@, s) + bit(cin, s),
            forall|s: Assignment| #[trigger] sat(final(self).c().cls(), s) ==> a@.len() >= 1 ==> uval(r.0@.drop_last(), s) + pow2(
                (a@.len() - 1) as nat,
            ) * bit(r.1, s) == uval(a@.drop_last(), s) + uval(b@.drop_last(), s) + bit(cin, s),
            all_const(a@) && all_const(b@) && cin is Const ==> all_const(r.0@) && r.1 is Const && r.2 is Const && final(self).c().same(
                &old(self).c(),
            ),
    {
        let ghost c0 = self.circ;
        let ghost w = a@.len();
        proof {
            lemma_grown_refl(&c0);
            vstd::arithmetic::power2::lemma2_to64();
            assert(a@.take(0) =~= Seq::<Bool>::empty());
            assert(b@.take(0) =~= Seq::<Bool>::empty());
        }
        let mut out: Vec<Bool> = Vec::new();
        let mut carry = cin;
        let mut carry_into_msb = Bool::Const(false);
        let mut i: usize = 0;
        proof {
            assert(out@ =~= Seq::<Bool>::empty());
        }
        while i < a.len()
            invariant
                i <= w,
                w == a@.len(),
                w == b@.len(),
                c0.wf(),
                all_valid(a@, c0.nv()),
                all_valid(b@, c0.nv()),
                valid(cin, c0.nv()),
                c0.nv() + 9 * w <= u32::MAX,
                grown(&c0, &self.circ),
                self.circ.nv() <= c0.nv() + 9 * i,
                self.width == old(self).width,
                out@.len() == i,
                all_valid(out@, self.circ.nv()),
                valid(carry, self.circ.nv()),
                valid(carry_into_msb, self.circ.nv()),
                all_const(a@) && all_const(b@) && cin is Const ==> all_const(out@) && carry is Const && carry_into_msb is Const
                    && self.circ.same(&c0),
                forall|s: Assignment| #[trigger] sat(self.circ.cls(), s) ==> uval(out@, s) + pow2(i as nat) * bit(carry, s) == uval(
                    a@.take(i as int),
                    s,
                ) + uval(b@.take(i as int), s) + bit(cin, s),
                forall|s: Assignment| #[trigger] sat(self.circ.cls(), s) ==> i == w && w >= 1 ==> uval(out@.drop_last(), s) + pow2(
                    (w - 1) as nat,
                ) * bit(carry_into_msb, s) == uval(a@.drop_last(), s) + uval(b@.drop_last(), s) + bit(cin, s),
            decreases w - i,
        {
            if i == a.len() - 1 {
                carry_into_msb = carry;
            }
            let ghost c1 = self.circ;
            let ghost o0 = out@;
            let ghost cy = carry;
            let (sm, cr) = self.full_add(a[i], b[i], carry);
            out.push(sm);
            carry = cr;
            proof {
                if all_const(a@) && all_const(b@) && cin is Const {
                    assert(a@[i as int] is Const && b@[i as int] is Const);
                    assert(all_const(out@)) by {
                        assert forall|j: int| 0 <= j < out@.len() implies (#[trigger] out@[j]) is Const by {
                            if j < o0.len() {
                                assert(out@[j] == o0[j]);
                            }
                        }
                    }
                }
                lemma_grown_trans(&c0, &c1, &self.circ);
                assert(a@.take(i + 1) =~= a@.take(i as int).push(a@[i as int]));
                assert(b@.take(i + 1) =~= b@.take(i as int).push(b@[i as int]));
                assert(out@.drop_last() =~= o0);
                assert forall|s: Assignment| #[trigger] sat(self.circ.cls(), s) implies uval(out@, s) + pow2((i + 1) as nat) * bit(carry, s)
                    == uval(a@.take(i + 1), s) + uval(b@.take(i + 1), s) + bit(cin, s) by {
                    lemma_sat_back(&c1, &self.circ, s);
                    lemma_uval_push(o0, sm, s);
                    lemma_uval_push(a@.take(i as int), a@[i as int], s);
                    lemma_uval_push(b@.take(i as int), b@[i as int], s);
                    lemma_pow2_unfold((i + 1) as nat);
                    assert(pow2(i as nat) * bit(a@[i as int], s) + pow2(i as nat) * bit(b@[i as int], s) + pow2(i as nat) * bit(cy, s)
                        == pow2(i as nat) * bit(sm, s) + 2 * pow2(i as nat) * bit(carry, s)) by (nonlinear_arith)
                        requires
                            bit(a@[i as int], s) + bit(b@[i as int], s) + bit(cy, s) == bit(sm, s) + 2 * bit(carry, s),
                    ;
                }
                assert forall|s: Assignment| #[trigger] sat(self.circ.cls(), s) implies i + 1 == w && w >= 1 ==> uval(out@.drop_last(), s)
                    + pow2((w - 1) as nat) * bit(carry_into_msb, s) == uval(a@.drop_last(), s) + uval(b@.drop_last(), s) + bit(cin, s) by {
                    lemma_sat_back(&c1, &self.circ, s);
                    if i + 1 == w {
                        assert(a@.take(i as int) =~= a@.drop_last());
                        assert(b@.take(i as int) =~= b@.drop_last());
                    }
                }
            }
            i = i + 1;
        }
        proof {
            assert(a@.take(i as int) =~= a@);
            assert(b@.take(i as int) =~= b@);
        }
        (out, carry_into_msb, carry)
    }

    /// Signed two's-complement addition at the fixed width, with a signed
    /// overflow flag (carry into the top bit differing from the carry out).
    pub fn add_signed(&mut self, a: &IntVal, b: &IntVal) -> (r: (IntVal, Bool))
        requires
            old(self).c().wf(),
            a@.len() == old(self).wid(),
            b@.len() == old(self).wid(),
            old(self).wid() >= 1,
            all_valid(a@, old(self).c().nv()),
            all_valid(b@, old(self).c().nv()),
            old(self).c().nv() + 9 * old(self).wid() + 3 <= u32::MAX,
        ensures
            grown(&old(self).c(), &final(self).c()),
            final(self).c().nv() <= old(self).c().nv() + 9 * old(self).wid() + 3,
            final(self).wid() == old(self).wid(),
            r.0@.len() == old(self).wid(),
            all_valid(r.0@, final(self).c().nv()),
            valid(r.1, final(self).c().nv()),
            forall|s: Assignment| #[trigger] sat(final(self).c().cls(), s) ==> sval(r.0@, s) == wrap(sval(a@, s) + sval(b@, s), old(self).wid())
                && val(r.1, s) == !in_range(sval(a@, s) + sval(b@, s), old(self).wid()),
    {
        let ghost c0 = self.circ;
        let (bits, cmsb, cout) = self.ripple(a.bits(), b.bits(), Bool::Const(false));
        let ghost c1 = self.circ;
        let overflow = self.circ.xor(cmsb, cout);
        proof {
            lemma_grown_trans(&c0, &c1, &self.circ);
            assert forall|s: Assignment| #[trigger] sat(self.circ.cls(), s) implies sval(bits@, s) == wrap(sval(a@, s) + sval(b@, s), self.wid())
                && val(overflow, s) == !in_range(sval(a@, s) + sval(b@, s), self.wid()) by {
                lemma_sat_back(&c1, &self.circ, s);
                lemma_signed_sum(a@, b@, bits@, Bool::Const(false), cmsb, cout, s);
                lemma_sval_split(bits@, s);
                lemma_wrap_in_range(sval(bits@, s), bit(cmsb, s) - bit(cout, s), a@.len());
            }
        }
        (IntVal { bits }, overflow)
    }

    /// Bitwise complement; no gate.
    fn invert(&self, a: &IntVal) -> (r: IntVal)
        ensures
            r@ == complement(a@),
            forall|n: nat| all_valid(a@, n) ==> all_valid(r@, n),
    {
        let mut bits: Vec<Bool> = Vec::new();
        let mut i: usize = 0;
        while i < a.bits.len()
            invariant
                i <= a@.len(),
                bits@ == complement(a@).take(i as int),
            decreases a@.len() - i,
        {
            let nb = self.circ.not(a.bits[i]);
            bits.push(nb);
            i = i + 1;
            assert(bits@ =~= complement(a@).take(i as int));
        }
        assert(complement(a@).take(i as int) =~= complement(a@));
        IntVal { bits }
    }

    /// Signed two's-complement subtraction `a − b` at the fixed width, as
    /// `a + ¬b + 1`, with the signed overflow flag.
    pub fn sub_signed(&mut self, a: &IntVal, b: &IntVal) -> (r: (IntVal, Bool))
        requires
            old(self).c().wf(),
            a@.len() == old(self).wid(),
            b@.len() == old(self).wid(),
            old(self).wid() >= 1,
            all_valid(a@, old(self).c().nv()),
            all_valid(b@, old(self).c().nv()),
            old(self).c().nv() + 9 * old(self).wid() + 3 <= u32::MAX,
        ensures
            grown(&old(self).c(), &final(self).c()),
            final(self).c().nv() <= old(self).c().nv() + 9 * old(self).wid() + 3,
            final(self).wid() == old(self).wid(),
            r.0@.len() == old(self).wid(),
            all_valid(r.0@, final(self).c().nv()),
            valid(r.1, final(self).c().nv()),
            forall|s: Assignment| #[trigger] sat(final(self).c().cls(), s) ==> sval(r.0@, s) == wrap(sval(a@, s) - sval(b@, s), old(self).wid())
                && val(r.1, s) == !in_range(sval(a@, s) - sval(b@, s), old(self).wid()),
    {
        let ghost c0 = self.circ;
        let nb = self.invert(b);
        let (bits, cmsb, cout) = self.ripple(a.bits(), nb.bits(), Bool::Const(true));
        let ghost c1 = self.circ;
        let overflow = self.circ.xor(cmsb, cout);
        proof {
            lemma_grown_trans(&c0, &c1, &self.circ);
            assert forall|s: Assignment| #[trigger] sat(self.circ.cls(), s) implies sval(bits@, s) == wrap(sval(a@, s) - sval(b@, s), self.wid())
                && val(overflow, s) == !in_range(sval(a@, s) - sval(b@, s), self.wid()) by {
                lemma_sat_back(&c1, &self.circ, s);
                lemma_complement(b@, s);
                lemma_signed_sum(a@, nb@, bits@, Bool::Const(true), cmsb, cout, s);
                lemma_sval_split(bits@, s);
                lemma_wrap_in_range(sval(bits@, s), bit(cmsb, s) - bit(cout, s), a@.len());
            }
        }
        (IntVal { bits }, overflow)
    }

    /// Signed negation `−a` as `¬a + 1`. From two bits on, the result is
    /// the wrap of `−a` and the flag says `−a` is out of range (only for
    /// the most negative value).
    pub fn negate(&mut self, a: &IntVal) -> (r: (IntVal, Bool))
        requires
            old(self).c().wf(),
            a@.len() == old(self).wid(),
            1 <= old(self).wid() <= 64,
            all_valid(a@, old(self).c().nv()),
            old(self).c().nv() + 9 * old(self).wid() + 3 <= u32::MAX,
        ensures
            grown(&old(self).c(), &final(self).c()),
            final(self).c().nv() <= old(self).c().nv() + 9 * old(self).wid() + 3,
            final(self).wid() == old(self).wid(),
            r.0@.len() == old(self).wid(),
            all_valid(r.0@, final(self).c().nv()),
            valid(r.1, final(self).c().nv()),
            forall|s: Assignment| #[trigger] sat(final(self).c().cls(), s) ==> sval(r.0@, s) == wrap(
                -sval(a@, s) - 1 + wrap(1, old(self).wid()),
                old(self).wid(),
            ) && val(r.1, s) == !in_range(-sval(a@, s) - 1 + wrap(1, old(self).wid()), old(self).wid()),
            old(self).wid() >= 2 ==> forall|s: Assignment| #[trigger] sat(final(self).c().cls(), s) ==> sval(r.0@, s) == wrap(
                -sval(a@, s),
                old(self).wid(),
            ) && val(r.1, s) == !in_range(-sval(a@, s), old(self).wid()),
    {
        let inv = self.invert(a);
        let one = IntVal::constant(1, self.width);
        let r = self.add_signed(&inv, &one);
        proof {
            let w = self.wid();
            if w >= 2 {
                lemma_pow2_unfold((w - 1) as nat);
                lemma_pow2_pos((w - 2) as nat);
                lemma_pow2_unfold(w);
                lemma_wrap_in_range(1, 0, w);
            }
            assert forall|s: Assignment| #[trigger] sat(self.circ.cls(), s) implies sval(r.0@, s) == wrap(
                -sval(a@, s) - 1 + wrap(1, w),
                w,
            ) && val(r.1, s) == !in_range(-sval(a@, s) - 1 + wrap(1, w), w) by {
                lemma_complement(a@, s);
                assert(sval(one@, s) == wrap(1, w));
            }
        }
        r
    }

    /// Bitwise select `cond ? a : b`.
    pub fn mux(&mut self, cond: Bool, a: &IntVal, b: &IntVal) -> (r: IntVal)
        requires
            old(self).c().wf(),
            a@.len() == old(self).wid(),
            b@.len() == old(self).wid(),
            valid(cond, old(self).c().nv()),
            all_valid(a@, old(self).c().nv()),
            all_valid(b@, old(self).c().nv()),
            old(self).c().nv() + 3 * old(self).wid() <= u32::MAX,
        ensures
            grown(&old(self).c(), &final(self).c()),
            final(self).c().nv() <= old(self).c().nv() + 3 * old(self).wid(),
            final(self).wid() == old(self).wid(),
            r@.len() == old(self).wid(),
            all_valid(r@, final(self).c().nv()),
            forall|s: Assignment| #[trigger] sat(final(self).c().cls(), s) ==> forall|i: int| 0 <= i < r@.len() ==> val(#[trigger] r@[i], s)
                == if val(cond, s) { val(a@[i], s) } else { val(b@[i], s) },
            forall|s: Assignment| #[trigger] sat(final(self).c().cls(), s) ==> uval(r@, s) == if val(cond, s) {
                uval(a@, s)
            } else {
                uval(b@, s)
            } && sval(r@, s) == if val(cond, s) {
                sval(a@, s)
            } else {
                sval(b@, s)
            },
    {
        let ghost c0 = self.circ;
        proof {
            lemma_grown_refl(&c0);
        }
        let mut bits: Vec<Bool> = Vec::new();
        let mut i: usize = 0;
        while i < self.width
            invariant
                i <= self.width,
                self.width == old(self).width,
                a@.len() == self.width,
                b@.len() == self.width,
                c0.wf(),
                valid(cond, c0.nv()),
                all_valid(a@, c0.nv()),
                all_valid(b@, c0.nv()),
                c0.nv() + 3 * self.width <= u32::MAX,
                grown(&c0, &self.circ),
                self.circ.nv() <= c0.nv() + 3 * i,
                bits@.len() == i,
                all_valid(bits@, self.circ.nv()),
                forall|s: Assignment| #[trigger] sat(self.circ.cls(), s) ==> forall|j: int| 0 <= j < i ==> val(#[trigger] bits@[j], s)
                    == if val(cond, s) { val(a@[j], s) } else { val(b@[j], s) },
            decreases self.width - i,
        {
            let ghost c1 = self.circ;
            let ghost b0 = bits@;
            let v = self.circ.ite(cond, a.bits[i], b.bits[i]);
            bits.push(v);
            proof {
                lemma_grown_trans(&c0, &c1, &self.circ);
                assert forall|s: Assignment| #[trigger] sat(self.circ.cls(), s) implies forall|j: int| 0 <= j < i + 1 ==> val(#[trigger] bits@[j], s)
                    == if val(cond, s) { val(a@[j], s) } else { val(b@[j], s) } by {
                    lemma_sat_back(&c1, &self.circ, s);
                    assert forall|j: int| 0 <= j < i + 1 implies val(#[trigger] bits@[j], s) == if val(cond, s) {
                        val(a@[j], s)
                    } else {
                        val(b@[j], s)
                    } by {
                        if j < i {
                            assert(bits@[j] == b0[j]);
                        }
                    }
                }
            }
            i = i + 1;
        }
        proof {
            assert forall|s: Assignment| #[trigger] sat(self.circ.cls(), s) implies uval(bits@, s) == if val(cond, s) {
                uval(a@, s)
            } else {
                uval(b@, s)
            } && sval(bits@, s) == if val(cond, s) {
                sval(a@, s)
            } else {
                sval(b@, s)
            } by {
                if val(cond, s) {
                    lemma_uval_same(bits@, a@, s);
                } else {
                    lemma_uval_same(bits@, b@, s);
                }
            }
        }
        IntVal { bits }
    }

    /// Whether `a` is zero: no bit set.
    pub fn is_zero(&mut self, a: &IntVal) -> (r: Bool)
        requires
            old(self).c().wf(),
            all_valid(a@, old(self).c().nv()),
            old(self).c().nv() + 1 <= u32::MAX,
        ensures
            grown(&old(self).c(), &final(self).c()),
            final(self).c().nv() <= old(self).c().nv() + 1,
            final(self).wid() == old(self).wid(),
            valid(r, final(self).c().nv()),
            forall|s: Assignment| #[trigger] sat(final(self).c().cls(), s) ==> val(r, s) == (uval(a@, s) == 0),
    {
        let copy = copy_bits(&a.bits);
        let anyset = self.circ.or_many(copy);
        let r = self.circ.not(anyset);
        proof {
            assert forall|s: Assignment| #[trigger] sat(self.circ.cls(), s) implies val(r, s) == (uval(a@, s) == 0) by {
                lemma_uval_zero(a@, s);
            }
        }
        r
    }

    /// Equality `a = b`: the conjunction of the bitwise `iff`s.
    pub fn eq(&mut self, a: &IntVal, b: &IntVal) -> (r: Bool)
        requires
            old(self).c().wf(),
            a@.len() == old(self).wid(),
            b@.len() == old(self).wid(),
            all_valid(a@, old(self).c().nv()),
            all_valid(b@, old(self).c().nv()),
            old(self).c().nv() + 3 * old(self).wid() + 1 <= u32::MAX,
        ensures
            grown(&old(self).c(), &final(self).c()),
            final(self).c().nv() <= old(self).c().nv() + 3 * old(self).wid() + 1,
            final(self).wid() == old(self).wid(),
            valid(r, final(self).c().nv()),
            forall|s: Assignment| #[trigger] sat(final(self).c().cls(), s) ==> val(r, s) == (uval(a@, s) == uval(b@, s)),
            forall|s: Assignment| #[trigger] sat(final(self).c().cls(), s) ==> val(r, s) == (sval(a@, s) == sval(b@, s)),
    {
        let ghost c0 = self.circ;
        proof {
            lemma_grown_refl(&c0);
        }
        let mut parts: Vec<Bool> = Vec::new();
        let mut i: usize = 0;
        while i < self.width
            invariant
                i <= self.width,
                self.width == old(self).width,
                a@.len() == self.width,
                b@.len() == self.width,
                c0.wf(),
                all_valid(a@, c0.nv()),
                all_valid(b@, c0.nv()),
                c0.nv() + 3 * self.width + 1 <= u32::MAX,
                grown(&c0, &self.circ),
                self.circ.nv() <= c0.nv() + 3 * i,
                parts@.len() == i,
                all_valid(parts@, self.circ.nv()),
                forall|s: Assignment| #[trigger] sat(self.circ.cls(), s) ==> forall|j: int| 0 <= j < i ==> val(#[trigger] parts@[j], s)
                    == (val(a@[j], s) == val(b@[j], s)),
            decreases self.width - i,
        {
            let ghost c1 = self.circ;
            let ghost p0 = parts@;
            let e = self.circ.iff(a.bits[i], b.bits[i]);
            parts.push(e);
            proof {
                lemma_grown_trans(&c0, &c1, &self.circ);
                assert forall|s: Assignment| #[trigger] sat(self.circ.cls(), s) implies forall|j: int| 0 <= j < i + 1 ==> val(#[trigger] parts@[j], s)
                    == (val(a@[j], s) == val(b@[j], s)) by {
                    lemma_sat_back(&c1, &self.circ, s);
                    assert forall|j: int| 0 <= j < i + 1 implies val(#[trigger] parts@[j], s) == (val(a@[j], s) == val(b@[j], s)) by {
                        if j < i {
                            assert(parts@[j] == p0[j]);
                        }
                    }
                }
            }
            i = i + 1;
        }
        let ghost c2 = self.circ;
        let ghost ps = parts@;
        let r = self.circ.and_many(parts);
        proof {
            lemma_grown_trans(&c0, &c2, &self.circ);
            assert forall|s: Assignment| #[trigger] sat(self.circ.cls(), s) implies val(r, s) == (uval(a@, s) == uval(b@, s)) && val(r, s) == (
            sval(a@, s) == sval(b@, s)) by {
                lemma_sat_back(&c2, &self.circ, s);
                lemma_uval_eq(a@, b@, s);
                if forall|j: int| 0 <= j < a@.len() ==> val(#[trigger] a@[j], s) == val(b@[j], s) {
                    lemma_uval_same(a@, b@, s);
                    assert forall|j: int| 0 <= j < ps.len() implies val(#[trigger] ps[j], s) by {}
                } else {
                    let j = choose|j: int| 0 <= j < a@.len() && val(#[trigger] a@[j], s) != val(b@[j], s);
                    assert(!val(ps[j], s));
                    if a@.len() >= 1 {
                        lemma_sval_split(a@, s);
                        lemma_sval_split(b@, s);
                        lemma_uval_bounds(a@.drop_last(), s);
                        lemma_uval_bounds(b@.drop_last(), s);
                        lemma_pow2_unfold(a@.len());
                    }
                }
            }
        }
        r
    }

    /// Unsigned less-than over equal-width vectors: the borrow out of
    /// `a − b`.
    #[verifier::spinoff_prover]
    fn unsigned_lt(&mut self, a: &[Bool], b: &[Bool]) -> (r: Bool)
        requires
            old(self).c().wf(),
            a@.len() == b@.len(),
            all_valid(a@, old(self).c().nv()),
            all_valid(b@, old(self).c().nv()),
            old(self).c().nv() + 4 * a@.len() <= u32::MAX,
        ensures
            grown(&old(self).c(), &final(self).c()),
            final(self).c().nv() <= old(self).c().nv() + 4 * a@.len(),
            final(self).wid() == old(self).wid(),
            valid(r, final(self).c().nv()),
            forall|s: Assignment| #[trigger] sat(final(self).c().cls(), s) ==> val(r, s) == (uval(a@, s) < uval(b@, s)),
    {
        let ghost c0 = self.circ;
        proof {
            lemma_grown_refl(&c0);
            assert(a@.take(0) =~= Seq::<Bool>::empty());
            assert(b@.take(0) =~= Seq::<Bool>::empty());
        }
        let mut borrow = Bool::Const(false);
        let mut i: usize = 0;
        while i < a.len()
            invariant
                i <= a@.len(),
                a@.len() == b@.len(),
                self.width == old(self).width,
                c0.wf(),
                all_valid(a@, c0.nv()),
                all_valid(b@, c0.nv()),
                c0.nv() + 4 * a@.len() <= u32::MAX,
                grown(&c0, &self.circ),
                self.circ.nv() <= c0.nv() + 4 * i,
                valid(borrow, self.circ.nv()),
                forall|s: Assignment| #[trigger] sat(self.circ.cls(), s) ==> val(borrow, s) == (uval(a@.take(i as int), s) < uval(
                    b@.take(i as int),
                    s,
                )),
            decreases a@.len() - i,
        {
            let ghost c1 = self.circ;
            let ghost br = borrow;
            let na = self.circ.not(a[i]);
            let nab = self.circ.and(na, b[i]);
            let ghost c2 = self.circ;
            let nabr = self.circ.and(na, borrow);
            let ghost c3 = self.circ;
            let bbr = self.circ.and(b[i], borrow);
            let ghost c4 = self.circ;
            let mut three: Vec<Bool> = Vec::new();
            three.push(nab);
            three.push(nabr);
            three.push(bbr);
            assert(three@ =~= seq![nab, nabr, bbr]);
            borrow = self.circ.or_many(three);
            proof {
                lemma_grown_trans(&c1, &c2, &c3);
                lemma_grown_trans(&c1, &c3, &c4);
                lemma_grown_trans(&c1, &c4, &self.circ);
                lemma_grown_trans(&c0, &c1, &self.circ);
                assert(a@.take(i + 1) =~= a@.take(i as int).push(a@[i as int]));
                assert(b@.take(i + 1) =~= b@.take(i as int).push(b@[i as int]));
                assert forall|s: Assignment| #[trigger] sat(self.circ.cls(), s) implies val(borrow, s) == (uval(a@.take(i + 1), s) < uval(
                    b@.take(i + 1),
                    s,
                )) by {
                    lemma_sat_back(&c4, &self.circ, s);
                    lemma_sat_back(&c3, &c4, s);
                    lemma_sat_back(&c2, &c3, s);
                    lemma_sat_back(&c1, &c2, s);
                    let items = seq![nab, nabr, bbr];
                    assert(any_true(items, s) == (val(items[0], s) || val(items[1], s) || val(items[2], s)));
                    assert(val(borrow, s) == (val(items[0], s) || val(items[1], s) || val(items[2], s)));
                    lemma_uval_push(a@.take(i as int), a@[i as int], s);
                    lemma_uval_push(b@.take(i as int), b@[i as int], s);
                    lemma_uval_bounds(a@.take(i as int), s);
                    lemma_uval_bounds(b@.take(i as int), s);
                    lemma_borrow_step(
                        uval(a@.take(i as int), s),
                        uval(b@.take(i as int), s),
                        pow2(i as nat) as int,
                        val(a@[i as int], s),
                        val(b@[i as int], s),
                        val(br, s),
                    );
                }
            }
            i = i + 1;
        }
        proof {
            assert(a@.take(i as int) =~= a@);
            assert(b@.take(i as int) =~= b@);
        }
        borrow
    }

    /// Signed less-than `a < b`: flip both sign bits, compare unsigned.
    pub fn signed_lt(&mut self, a: &IntVal, b: &IntVal) -> (r: Bool)
        requires
            old(self).c().wf(),
            a@.len() == old(self).wid(),
            b@.len() == old(self).wid(),
            old(self).wid() >= 1,
            all_valid(a@, old(self).c().nv()),
            all_valid(b@, old(self).c().nv()),
            old(self).c().nv() + 4 * old(self).wid() <= u32::MAX,
        ensures
            grown(&old(self).c(), &final(self).c()),
            final(self).c().nv() <= old(self).c().nv() + 4 * old(self).wid(),
            final(self).wid() == old(self).wid(),
            valid(r, final(self).c().nv()),
            forall|s: Assignment| #[trigger] sat(final(self).c().cls(), s) ==> val(r, s) == (sval(a@, s) < sval(b@, s)),
    {
        let msb = self.width - 1;
        let mut af = copy_bits(&a.bits);
        let mut bf = copy_bits(&b.bits);
        let fa = self.circ.not(af[msb]);
        af.set(msb, fa);
        let fb = self.circ.not(bf[msb]);
        bf.set(msb, fb);
        proof {
            assert(af@.drop_last() =~= a@.drop_last());
            assert(bf@.drop_last() =~= b@.drop_last());
            assert forall|n: nat| all_valid(a@, n) implies all_valid(af@, n) by {
                assert forall|j: int| 0 <= j < af@.len() implies valid(#[trigger] af@[j], n) by {
                    assert(valid(a@[j], n));
                }
            }
            assert forall|n: nat| all_valid(b@, n) implies all_valid(bf@, n) by {
                assert forall|j: int| 0 <= j < bf@.len() implies valid(#[trigger] bf@[j], n) by {
                    assert(valid(b@[j], n));
                }
            }
        }
        let r = self.unsigned_lt(af.as_slice(), bf.as_slice());
        proof {
            assert forall|s: Assignment| #[trigger] sat(self.circ.cls(), s) implies val(r, s) == (sval(a@, s) < sval(b@, s)) by {
                lemma_flip_top(a@, af@, s);
                lemma_flip_top(b@, bf@, s);
            }
        }
        r
    }

    /// Signed `a ≤ b`, as `¬(b < a)`.
    pub fn signed_le(&mut self, a: &IntVal, b: &IntVal) -> (r: Bool)
        requires
            old(self).c().wf(),
            a@.len() == old(self).wid(),
            b@.len() == old(self).wid(),
            old(self).wid() >= 1,
            all_valid(a@, old(self).c().nv()),
            all_valid(b@, old(self).c().nv()),
            old(self).c().nv() + 4 * old(self).wid() <= u32::MAX,
        ensures
            grown(&old(self).c(), &final(self).c()),
            final(self).c().nv() <= old(self).c().nv() + 4 * old(self).wid(),
            final(self).wid() == old(self).wid(),
            valid(r, final(self).c().nv()),
            forall|s: Assignment| #[trigger] sat(final(self).c().cls(), s) ==> val(r, s) == (sval(a@, s) <= sval(b@, s)),
    {
        let gt = self.signed_lt(b, a);
        self.circ.not(gt)
    }

    /// Signed `a > b`, as `b < a`.
    pub fn signed_gt(&mut self, a: &IntVal, b: &IntVal) -> (r: Bool)
        requires
            old(self).c().wf(),
            a@.len() == old(self).wid(),
            b@.len() == old(self).wid(),
            old(self).wid() >= 1,
            all_valid(a@, old(self).c().nv()),
            all_valid(b@, old(self).c().nv()),
            old(self).c().nv() + 4 * old(self).wid() <= u32::MAX,
        ensures
            grown(&old(self).c(), &final(self).c()),
            final(self).c().nv() <= old(self).c().nv() + 4 * old(self).wid(),
            final(self).wid() == old(self).wid(),
            valid(r, final(self).c().nv()),
            forall|s: Assignment| #[trigger] sat(final(self).c().cls(), s) ==> val(r, s) == (sval(a@, s) > sval(b@, s)),
    {
        self.signed_lt(b, a)
    }

    /// Signed `a ≥ b`, as `¬(a < b)`.
    pub fn signed_ge(&mut self, a: &IntVal, b: &IntVal) -> (r: Bool)
        requires
            old(self).c().wf(),
            a@.len() == old(self).wid(),
            b@.len() == old(self).wid(),
            old(self).wid() >= 1,
            all_valid(a@, old(self).c().nv()),
            all_valid(b@, old(self).c().nv()),
            old(self).c().nv() + 4 * old(self).wid() <= u32::MAX,
        ensures
            grown(&old(self).c(), &final(self).c()),
            final(self).c().nv() <= old(self).c().nv() + 4 * old(self).wid(),
            final(self).wid() == old(self).wid(),
            valid(r, final(self).c().nv()),
            forall|s: Assignment| #[trigger] sat(final(self).c().cls(), s) ==> val(r, s) == (sval(a@, s) >= sval(b@, s)),
    {
        let lt = self.signed_lt(a, b);
        self.circ.not(lt)
    }

    /// Narrows an exact unsigned accumulator to the fixed width: the low
    /// bits (zero-padded), and an overflow flag set when any bit at or above
    /// the sign position is set (the count exceeds `2^(w−1) − 1`).
    pub fn unsigned_to_signed(&mut self, acc: &[Bool]) -> (r: (IntVal, Bool))
        requires
            old(self).c().wf(),
            old(self).wid() >= 1,
            all_valid(acc@, old(self).c().nv()),
            old(self).c().nv() + 1 <= u32::MAX,
        ensures
            grown(&old(self).c(), &final(self).c()),
            final(self).c().nv() <= old(self).c().nv() + 1,
            final(self).wid() == old(self).wid(),
            r.0@.len() == old(self).wid(),
            all_valid(r.0@, final(self).c().nv()),
            valid(r.1, final(self).c().nv()),
            forall|s: Assignment| #[trigger] sat(final(self).c().cls(), s) ==> uval(r.0@, s) == uval(acc@, s) % (pow2(
                old(self).wid(),
            ) as int) && val(r.1, s) == (uval(acc@, s) >= pow2((old(self).wid() - 1) as nat)) && (!val(r.1, s) ==> sval(
                r.0@,
                s,
            ) == uval(acc@, s)),
    {
        let ghost w = self.width as nat;
        let mut bits: Vec<Bool> = Vec::new();
        let mut i: usize = 0;
        while i < self.width
            invariant
                i <= self.width,
                self.width == old(self).width,
                self.circ == old(self).circ,
                bits@.len() == i,
                forall|j: int| 0 <= j < i ==> #[trigger] bits@[j] == if j < acc@.len() { acc@[j] } else { Bool::Const(false) },
            decreases self.width - i,
        {
            let b = if i < acc.len() { acc[i] } else { Bool::Const(false) };
            bits.push(b);
            i = i + 1;
        }
        let mut high: Vec<Bool> = Vec::new();
        let mut k: usize = self.width - 1;
        let ghost lo = (self.width - 1) as int;
        while k < acc.len()
            invariant
                lo == self.width - 1,
                lo <= k,
                k > lo ==> k <= acc@.len(),
                high@.len() == k - lo,
                forall|j: int| 0 <= j < high@.len() ==> #[trigger] high@[j] == acc@[lo + j],
            decreases acc@.len() - k,
        {
            high.push(acc[k]);
            k = k + 1;
        }
        proof {
            if lo < acc@.len() {
                assert(high@ =~= acc@.skip(lo));
            } else {
                assert(high@.len() == 0);
            }
        }
        let ghost hs = high@;
        let ghost c0 = self.circ;
        proof {
            assert(all_valid(hs, c0.nv())) by {
                assert forall|j: int| 0 <= j < hs.len() implies valid(#[trigger] hs[j], c0.nv()) by {
                    assert(hs[j] == acc@[lo + j]);
                }
            }
        }
        let overflow = self.circ.or_many(high);
        proof {
            assert(all_valid(bits@, self.circ.nv())) by {
                assert forall|j: int| 0 <= j < bits@.len() implies valid(#[trigger] bits@[j], self.circ.nv()) by {
                    if j < acc@.len() {
                        assert(valid(acc@[j], c0.nv()));
                    }
                }
            }
            assert forall|s: Assignment| #[trigger] sat(self.circ.cls(), s) implies uval(bits@, s) == uval(acc@, s) % (pow2(w) as int) by {
                lemma_pow2_pos(w);
                lemma_uval_bounds(acc@, s);
                if acc@.len() >= w {
                    lemma_uval_split(acc@, w as int, s);
                    assert(bits@ =~= acc@.take(w as int));
                    let q = uval(acc@.skip(w as int), s);
                    assert(pow2(w) * q == q * pow2(w)) by (nonlinear_arith);
                    vstd::arithmetic::div_mod::lemma_fundamental_div_mod_converse(uval(acc@, s), pow2(w) as int, q, uval(bits@, s));
                } else {
                    let z = Seq::new((w - acc@.len()) as nat, |i: int| Bool::Const(false));
                    assert(bits@ =~= acc@ + z);
                    lemma_uval_concat(acc@, z, s);
                    lemma_uval_zeros((w - acc@.len()) as nat, s);
                    vstd::arithmetic::power2::lemma_pow2_strictly_increases(acc@.len(), w);
                    vstd::arithmetic::div_mod::lemma_small_mod(uval(acc@, s) as nat, pow2(w));
                }
            }
            assert forall|s: Assignment| #[trigger] sat(self.circ.cls(), s) implies val(overflow, s) == (uval(acc@, s) >= pow2((w - 1) as nat)) by {
                assert(val(overflow, s) == any_true(hs, s));
                lemma_uval_bounds(acc@, s);
                lemma_pow2_pos((w - 1) as nat);
                if lo < acc@.len() {
                    lemma_uval_split(acc@, lo, s);
                    lemma_uval_zero(hs, s);
                    lemma_uval_bounds(hs, s);
                    let q = uval(hs, s);
                    let h = pow2((w - 1) as nat) as int;
                    assert(lo as nat == (w - 1) as nat);
                    assert(hs == acc@.skip(lo));
                    assert(q >= 1 ==> h * q >= h) by (nonlinear_arith)
                        requires
                            h > 0,
                    ;
                    assert(uval(acc@, s) == uval(acc@.take(lo), s) + h * q);
                } else {
                    assert(!any_true(hs, s));
                    if acc@.len() < w - 1 {
                        vstd::arithmetic::power2::lemma_pow2_strictly_increases(acc@.len(), (w - 1) as nat);
                    }
                }
            }
            assert forall|s: Assignment| #[trigger] sat(self.circ.cls(), s) implies (!val(overflow, s) ==> sval(bits@, s) == uval(acc@, s)) by {
                if !val(overflow, s) {
                    lemma_uval_bounds(acc@, s);
                    lemma_sval_split(bits@, s);
                    lemma_uval_bounds(bits@.drop_last(), s);
                    lemma_pow2_unfold(w);
                    lemma_pow2_pos((w - 1) as nat);
                    vstd::arithmetic::div_mod::lemma_small_mod(uval(acc@, s) as nat, pow2(w));
                    assert(uval(bits@, s) == uval(bits@.drop_last(), s) + pow2((w - 1) as nat) * bit(bits@.last(), s));
                }
            }
        }
        (IntVal { bits }, overflow)
    }

    /// The right-shift barrel over the low `⌈log₂ w⌉` amount bits: stage
    /// `i` shifts by `2^i` where amount bit `i` is set, filling vacated high
    /// bits with `fill`.
    #[verifier::rlimit(30)]
    fn shift_right(&mut self, a: &IntVal, b: &IntVal, fill: Bool) -> (r: IntVal)
        requires
            old(self).c().wf(),
            a@.len() == old(self).wid(),
            b@.len() == old(self).wid(),
            old(self).wid() >= 1,
            all_valid(a@, old(self).c().nv()),
            all_valid(b@, old(self).c().nv()),
            valid(fill, old(self).c().nv()),
            old(self).c().nv() + 3 * old(self).wid() * old(self).wid() <= u32::MAX,
        ensures
            grown(&old(self).c(), &final(self).c()),
            final(self).c().nv() <= old(self).c().nv() + 3 * old(self).wid() * old(self).wid(),
            final(self).wid() == old(self).wid(),
            r@.len() == old(self).wid(),
            all_valid(r@, final(self).c().nv()),
            forall|m: nat, s: Assignment| #[trigger] is_mask_width(m, old(self).wid()) && #[trigger] sat(final(self).c().cls(), s) ==> forall|k: int|
                0 <= k < r@.len() ==> val(#[trigger] r@[k], s) == shr_bit(a@, uval(b@.take(m as int), s), fill, k, s),
    {
        let ghost c0 = self.circ;
        let w = self.width;
        let mask = log2_ceil(w) as usize;
        let ghost wn = w as nat;
        proof {
            lemma_grown_refl(&c0);
            if mask > 0 {
                vstd::arithmetic::power2::lemma_pow2_strictly_increases((mask - 1) as nat, mask as nat);
                lemma_pow2_above_self((mask - 1) as nat);
            }
            assert(mask <= w);
            vstd::arithmetic::power2::lemma2_to64();
            assert(b@.take(0) =~= Seq::<Bool>::empty());
        }
        let mut cur = copy_bits(&a.bits);
        let mut i: usize = 0;
        while i < mask
            invariant
                i <= mask <= w,
                w == self.width,
                self.width == old(self).width,
                w >= 1,
                is_mask_width(mask as nat, w as nat),
                a@.len() == w,
                b@.len() == w,
                c0.wf(),
                all_valid(b@, c0.nv()),
                valid(fill, c0.nv()),
                c0.nv() + 3 * w * w <= u32::MAX,
                grown(&c0, &self.circ),
                self.circ.nv() <= c0.nv() + 3 * w * i,
                cur@.len() == w,
                all_valid(cur@, self.circ.nv()),
                forall|s: Assignment| #[trigger] sat(self.circ.cls(), s) ==> forall|k: int| 0 <= k < w ==> val(#[trigger] cur@[k], s)
                    == shr_bit(a@, uval(b@.take(i as int), s), fill, k, s),
            decreases mask - i,
        {
            let ghost cur_h = cur@;
            let ghost circ_h = self.circ;
            assert(forall|s: Assignment| #[trigger] sat(circ_h.cls(), s) ==> forall|k: int| 0 <= k < w ==> val(#[trigger] cur_h[k], s)
                == shr_bit(a@, uval(b@.take(i as int), s), fill, k, s));
            let sh = stage_amount(i, mask, w);
            proof {
                assert(3 * w * i + 3 * w <= 3 * w * w) by (nonlinear_arith)
                    requires
                        i < w,
                ;
            }
            let ghost c1 = self.circ;
            let ghost cur0 = cur@;
            let next = self.barrel_stage(cur, b.bits[i], sh, fill, false);
            cur = next;
            proof {
                lemma_grown_trans(&c0, &c1, &self.circ);
                assert(3 * w * i + 3 * w == 3 * w * (i + 1)) by (nonlinear_arith);
                assert(self.circ.nv() <= c0.nv() + 3 * w * (i + 1));
                assert(b@.take(i + 1) =~= b@.take(i as int).push(b@[i as int]));
                assert forall|s: Assignment| #[trigger] sat(self.circ.cls(), s) implies forall|j: int| 0 <= j < w ==> val(#[trigger] cur@[j], s)
                    == shr_bit(a@, uval(b@.take(i + 1), s), fill, j, s) by {
                    lemma_sat_back(&c1, &self.circ, s);
                    assert(circ_h == c1);
                    assert(sat(circ_h.cls(), s));
                    assert(cur0 == cur_h);
                    assert(forall|k: int| 0 <= k < w ==> val(#[trigger] cur0[k], s) == shr_bit(a@, uval(b@.take(i as int), s), fill, k, s));
                    lemma_uval_push(b@.take(i as int), b@[i as int], s);
                    lemma_uval_bounds(b@.take(i as int), s);
                    lemma_shr_stage(a@, cur0, shift_right_seq(cur0, sh as int, fill), cur@, b@[i as int], uval(b@.take(i as int), s), sh as int, fill, s);
                }
            }
            i = i + 1;
        }
        proof {
            assert(3 * w * i <= 3 * w * w) by (nonlinear_arith)
                requires
                    i <= w,
            ;
            assert forall|m: nat, s: Assignment| #[trigger] is_mask_width(m, w as nat) && #[trigger] sat(self.circ.cls(), s) implies forall|k: int|
                0 <= k < cur@.len() ==> val(#[trigger] cur@[k], s) == shr_bit(a@, uval(b@.take(m as int), s), fill, k, s) by {
                lemma_mask_width_unique(m, mask as nat, w as nat);
            }
        }
        IntVal { bits: cur }
    }

    /// The overflow check of left-shift stage `i`, folded into `overflow`.
    #[verifier::spinoff_prover]
    fn shl_check(&mut self, a: &IntVal, b: &IntVal, cur: &[Bool], overflow: Bool, i: usize, mask: usize) -> (ov: Bool)
        requires
            old(self).c().wf(),
            i < old(self).wid(),
            a@.len() == old(self).wid(),
            b@.len() == old(self).wid(),
            cur@.len() == old(self).wid(),
            all_valid(b@, old(self).c().nv()),
            all_valid(cur@, old(self).c().nv()),
            valid(overflow, old(self).c().nv()),
            old(self).c().nv() + 3 * old(self).wid() + 3 <= u32::MAX,
            forall|s: Assignment| #[trigger] sat(old(self).c().cls(), s) ==> forall|k: int| 0 <= k < a@.len() ==> val(#[trigger] cur@[k], s)
                == shl_bit(a@, shl_amount(b@, mask as nat, i as int, s), k, s),
            forall|s: Assignment| #[trigger] sat(old(self).c().cls(), s) ==> val(overflow, s) == exists|t: int|
                0 <= t < i && #[trigger] shl_stage_flag(a@, b@, mask as nat, t, s),
        ensures
            grown(&old(self).c(), &final(self).c()),
            final(self).c().nv() <= old(self).c().nv() + 3 * old(self).wid() + 3,
            final(self).wid() == old(self).wid(),
            valid(ov, final(self).c().nv()),
            forall|s: Assignment| #[trigger] sat(final(self).c().cls(), s) ==> val(ov, s) == exists|t: int|
                0 <= t < i + 1 && #[trigger] shl_stage_flag(a@, b@, mask as nat, t, s),
    {
        let w = self.width;
        let ghost c1 = self.circ;
        let lo = shl_region_start(i, w);
        let ch = self.transitions(cur, lo);
        let ghost ca = self.circ;
        let st = self.circ.and(b.bits[i], ch);
        let ghost cb = self.circ;
        let ov = self.circ.or(overflow, st);
        proof {
            lemma_grown_trans(&c1, &ca, &cb);
            lemma_grown_trans(&c1, &cb, &self.circ);
            assert forall|s: Assignment| #[trigger] sat(self.circ.cls(), s) implies val(ov, s) == exists|t: int|
                0 <= t < i + 1 && #[trigger] shl_stage_flag(a@, b@, mask as nat, t, s) by {
                lemma_sat_back(&cb, &self.circ, s);
                lemma_sat_back(&ca, &cb, s);
                lemma_sat_back(&c1, &ca, s);
                lemma_changes_match(a@, cur@, shl_amount(b@, mask as nat, i as int, s), lo as int, s);
                assert(val(st, s) == shl_stage_flag(a@, b@, mask as nat, i as int, s));
                if exists|t: int| 0 <= t < i + 1 && #[trigger] shl_stage_flag(a@, b@, mask as nat, t, s) {
                    let t = choose|t: int| 0 <= t < i + 1 && #[trigger] shl_stage_flag(a@, b@, mask as nat, t, s);
                    if t < i {
                        assert(val(overflow, s));
                    }
                }
            }
        }
        ov
    }

    /// The value part of left-shift stage `i`: below the mask width, shifts
    /// `cur` left by `2^i` where amount bit `i` is set.
    #[verifier::spinoff_prover]
    fn shl_move(&mut self, a: &IntVal, b: &IntVal, cur: Vec<Bool>, i: usize, mask: usize) -> (next: Vec<Bool>)
        requires
            old(self).c().wf(),
            i < old(self).wid(),
            is_mask_width(mask as nat, old(self).wid() as nat),
            a@.len() == old(self).wid(),
            b@.len() == old(self).wid(),
            cur@.len() == old(self).wid(),
            all_valid(b@, old(self).c().nv()),
            all_valid(cur@, old(self).c().nv()),
            old(self).c().nv() + 3 * old(self).wid() <= u32::MAX,
            forall|s: Assignment| #[trigger] sat(old(self).c().cls(), s) ==> forall|k: int| 0 <= k < a@.len() ==> val(#[trigger] cur@[k], s)
                == shl_bit(a@, shl_amount(b@, mask as nat, i as int, s), k, s),
        ensures
            grown(&old(self).c(), &final(self).c()),
            final(self).c().nv() <= old(self).c().nv() + 3 * old(self).wid(),
            final(self).wid() == old(self).wid(),
            next@.len() == old(self).wid(),
            all_valid(next@, final(self).c().nv()),
            forall|s: Assignment| #[trigger] sat(final(self).c().cls(), s) ==> forall|k: int| 0 <= k < a@.len() ==> val(#[trigger] next@[k], s)
                == shl_bit(a@, shl_amount(b@, mask as nat, i + 1, s), k, s),
    {
        let w = self.width;
        let ghost c1 = self.circ;
        let ghost cur0 = cur@;
        proof {
            lemma_grown_refl(&c1);
        }
        if i < mask {
            let sh = stage_amount(i, mask, w);
            let next = self.barrel_stage(cur, b.bits[i], sh, Bool::Const(false), true);
            proof {
                assert(b@.take(i + 1) =~= b@.take(i as int).push(b@[i as int]));
                assert forall|s: Assignment| #[trigger] sat(self.circ.cls(), s) implies forall|k: int| 0 <= k < a@.len() ==> val(#[trigger] next@[k], s)
                    == shl_bit(a@, shl_amount(b@, mask as nat, i + 1, s), k, s) by {
                    lemma_sat_back(&c1, &self.circ, s);
                    lemma_shl_move(a@, b@, cur0, next@, sh as int, i as int, mask as nat, s);
                }
            }
            next
        } else {
            cur
        }
    }

    /// One stage of the left shift: its overflow check, then its move.
    fn shl_step(&mut self, a: &IntVal, b: &IntVal, cur: Vec<Bool>, overflow: Bool, i: usize, mask: usize) -> (r: (Vec<Bool>, Bool))
        requires
            old(self).c().wf(),
            i < old(self).wid(),
            is_mask_width(mask as nat, old(self).wid() as nat),
            a@.len() == old(self).wid(),
            b@.len() == old(self).wid(),
            cur@.len() == old(self).wid(),
            all_valid(b@, old(self).c().nv()),
            all_valid(cur@, old(self).c().nv()),
            valid(overflow, old(self).c().nv()),
            old(self).c().nv() + 9 * old(self).wid() <= u32::MAX,
            forall|s: Assignment| #[trigger] sat(old(self).c().cls(), s) ==> forall|k: int| 0 <= k < a@.len() ==> val(#[trigger] cur@[k], s)
                == shl_bit(a@, shl_amount(b@, mask as nat, i as int, s), k, s),
            forall|s: Assignment| #[trigger] sat(old(self).c().cls(), s) ==> val(overflow, s) == exists|t: int|
                0 <= t < i && #[trigger] shl_stage_flag(a@, b@, mask as nat, t, s),
        ensures
            grown(&old(self).c(), &final(self).c()),
            final(self).c().nv() <= old(self).c().nv() + 9 * old(self).wid(),
            final(self).wid() == old(self).wid(),
            r.0@.len() == old(self).wid(),
            all_valid(r.0@, final(self).c().nv()),
            valid(r.1, final(self).c().nv()),
            forall|s: Assignment| #[trigger] sat(final(self).c().cls(), s) ==> forall|k: int| 0 <= k < a@.len() ==> val(#[trigger] r.0@[k], s)
                == shl_bit(a@, shl_amount(b@, mask as nat, i + 1, s), k, s),
            forall|s: Assignment| #[trigger] sat(final(self).c().cls(), s) ==> val(r.1, s) == exists|t: int|
                0 <= t < i + 1 && #[trigger] shl_stage_flag(a@, b@, mask as nat, t, s),
    {
        let ghost c1 = self.circ;
        let ov = self.shl_check(a, b, cur.as_slice(), overflow, i, mask);
        let ghost c2 = self.circ;
        proof {
            assert forall|s: Assignment| #[trigger] sat(c2.cls(), s) implies forall|k: int| 0 <= k < a@.len() ==> val(#[trigger] cur@[k], s)
                == shl_bit(a@, shl_amount(b@, mask as nat, i as int, s), k, s) by {
                lemma_sat_back(&c1, &c2, s);
            }
        }
        let next = self.shl_move(a, b, cur, i, mask);
        proof {
            lemma_grown_trans(&c1, &c2, &self.circ);
            assert forall|s: Assignment| #[trigger] sat(self.circ.cls(), s) implies val(ov, s) == exists|t: int|
                0 <= t < i + 1 && #[trigger] shl_stage_flag(a@, b@, mask as nat, t, s) by {
                lemma_sat_back(&c2, &self.circ, s);
            }
        }
        (next, ov)
    }

    /// Left shift `a << b` (zero fill) with its own overflow flag. Only the
    /// low `⌈log₂ w⌉` amount bits move the value, which becomes
    /// `uval(a)·2^amount` reduced modulo `2^w`. The flag checks every amount
    /// bit `i`, also those at or above the mask width that move nothing:
    /// where it is set, it flags when the running value has a bit transition
    /// within `2^i` bits below its top bit.
    #[verifier::rlimit(40)]
    pub fn shl(&mut self, a: &IntVal, b: &IntVal) -> (r: (IntVal, Bool))
        requires
            old(self).c().wf(),
            a@.len() == old(self).wid(),
            b@.len() == old(self).wid(),
            old(self).wid() >= 1,
            all_valid(a@, old(self).c().nv()),
            all_valid(b@, old(self).c().nv()),
            old(self).c().nv() + 9 * old(self).wid() * old(self).wid() <= u32::MAX,
        ensures
            grown(&old(self).c(), &final(self).c()),
            final(self).c().nv() <= old(self).c().nv() + 9 * old(self).wid() * old(self).wid(),
            final(self).wid() == old(self).wid(),
            r.0@.len() == old(self).wid(),
            all_valid(r.0@, final(self).c().nv()),
            valid(r.1, final(self).c().nv()),
            forall|m: nat, s: Assignment| #[trigger] is_mask_width(m, old(self).wid()) && #[trigger] sat(final(self).c().cls(), s) ==> uval(r.0@, s)
                == (uval(a@, s) * pow2(uval(b@.take(m as int), s) as nat)) % (pow2(old(self).wid()) as int),
            forall|m: nat, s: Assignment| #[trigger] is_mask_width(m, old(self).wid()) && #[trigger] sat(final(self).c().cls(), s) ==> val(r.1, s)
                == shl_overflow(a@, b@, m, s),
    {
        let ghost c0 = self.circ;
        let w = self.width;
        let mask = log2_ceil(w) as usize;
        proof {
            lemma_grown_refl(&c0);
            if mask > 0 {
                vstd::arithmetic::power2::lemma_pow2_strictly_increases((mask - 1) as nat, mask as nat);
                lemma_pow2_above_self((mask - 1) as nat);
            }
            assert(mask <= w);
            assert(b@.take(0) =~= Seq::<Bool>::empty());
            assert forall|s: Assignment| #[trigger] sat(c0.cls(), s) implies forall|k: int| 0 <= k < w ==> val(#[trigger] a@[k], s)
                == shl_bit(a@, shl_amount(b@, mask as nat, 0, s), k, s) by {
                if mask == 0 {
                    assert(b@.take(mask as int) =~= Seq::<Bool>::empty());
                }
            }
        }
        let mut cur = copy_bits(&a.bits);
        let mut overflow = Bool::Const(false);
        let mut i: usize = 0;
        while i < w
            invariant
                i <= w,
                mask <= w,
                w == self.width,
                self.width == old(self).width,
                w >= 1,
                is_mask_width(mask as nat, w as nat),
                a@.len() == w,
                b@.len() == w,
                c0.wf(),
                all_valid(b@, c0.nv()),
                c0.nv() + 9 * w * w <= u32::MAX,
                grown(&c0, &self.circ),
                self.circ.nv() <= c0.nv() + 9 * w * i,
                cur@.len() == w,
                all_valid(cur@, self.circ.nv()),
                valid(overflow, self.circ.nv()),
                forall|s: Assignment| #[trigger] sat(self.circ.cls(), s) ==> forall|k: int| 0 <= k < w ==> val(#[trigger] cur@[k], s)
                    == shl_bit(a@, shl_amount(b@, mask as nat, i as int, s), k, s),
                forall|s: Assignment| #[trigger] sat(self.circ.cls(), s) ==> val(overflow, s) == exists|t: int|
                    0 <= t < i && #[trigger] shl_stage_flag(a@, b@, mask as nat, t, s),
            decreases w - i,
        {
            let ghost c1 = self.circ;
            proof {
                assert(9 * w * i + 9 * w <= 9 * w * w) by (nonlinear_arith)
                    requires
                        i < w,
                ;
                assert(9 * w * i + 9 * w == 9 * w * (i + 1)) by (nonlinear_arith);
            }
            let (next, ov) = self.shl_step(a, b, cur, overflow, i, mask);
            cur = next;
            overflow = ov;
            proof {
                lemma_grown_trans(&c0, &c1, &self.circ);
            }
            i = i + 1;
        }
        proof {
            assert forall|m: nat, s: Assignment| #[trigger] is_mask_width(m, w as nat) && #[trigger] sat(self.circ.cls(), s) implies uval(cur@, s)
                == (uval(a@, s) * pow2(uval(b@.take(m as int), s) as nat)) % (pow2(w as nat) as int) && val(overflow, s) == shl_overflow(a@, b@, m, s) by {
                lemma_mask_width_unique(m, mask as nat, w as nat);
                lemma_uval_bounds(b@.take(m as int), s);
                lemma_shl_value(a@, cur@, uval(b@.take(m as int), s) as nat, s);
            }
        }
        (IntVal { bits: cur }, overflow)
    }

    /// Arithmetic right shift `a >> b` (sign fill): only the low `⌈log₂ w⌉`
    /// amount bits count, and the result is the floor of `a / 2^amount`.
    pub fn sha(&mut self, a: &IntVal, b: &IntVal) -> (r: IntVal)
        requires
            old(self).c().wf(),
            a@.len() == old(self).wid(),
            b@.len() == old(self).wid(),
            old(self).wid() >= 1,
            all_valid(a@, old(self).c().nv()),
            all_valid(b@, old(self).c().nv()),
            old(self).c().nv() + 3 * old(self).wid() * old(self).wid() <= u32::MAX,
        ensures
            grown(&old(self).c(), &final(self).c()),
            final(self).c().nv() <= old(self).c().nv() + 3 * old(self).wid() * old(self).wid(),
            final(self).wid() == old(self).wid(),
            r@.len() == old(self).wid(),
            all_valid(r@, final(self).c().nv()),
            forall|m: nat, s: Assignment| #[trigger] is_mask_width(m, old(self).wid()) && #[trigger] sat(final(self).c().cls(), s) ==> sval(r@, s)
                == sval(a@, s) / (pow2(uval(b@.take(m as int), s) as nat) as int),
    {
        let fill = a.bits[self.width - 1];
        let r = self.shift_right(a, b, fill);
        proof {
            assert forall|m: nat, s: Assignment| #[trigger] is_mask_width(m, self.wid()) && #[trigger] sat(self.circ.cls(), s) implies sval(r@, s)
                == sval(a@, s) / (pow2(uval(b@.take(m as int), s) as nat) as int) by {
                lemma_uval_bounds(b@.take(m as int), s);
                lemma_shr_sign_fill(a@, r@, uval(b@.take(m as int), s) as nat, s);
            }
        }
        r
    }

    /// Logical right shift `a >>> b` (zero fill): only the low `⌈log₂ w⌉`
    /// amount bits count, and the result's bits are `uval(a) / 2^amount`.
    pub fn shr(&mut self, a: &IntVal, b: &IntVal) -> (r: IntVal)
        requires
            old(self).c().wf(),
            a@.len() == old(self).wid(),
            b@.len() == old(self).wid(),
            old(self).wid() >= 1,
            all_valid(a@, old(self).c().nv()),
            all_valid(b@, old(self).c().nv()),
            old(self).c().nv() + 3 * old(self).wid() * old(self).wid() <= u32::MAX,
        ensures
            grown(&old(self).c(), &final(self).c()),
            final(self).c().nv() <= old(self).c().nv() + 3 * old(self).wid() * old(self).wid(),
            final(self).wid() == old(self).wid(),
            r@.len() == old(self).wid(),
            all_valid(r@, final(self).c().nv()),
            forall|m: nat, s: Assignment| #[trigger] is_mask_width(m, old(self).wid()) && #[trigger] sat(final(self).c().cls(), s) ==> uval(r@, s)
                == uval(a@, s) / (pow2(uval(b@.take(m as int), s) as nat) as int),
    {
        let r = self.shift_right(a, b, Bool::Const(false));
        proof {
            assert forall|m: nat, s: Assignment| #[trigger] is_mask_width(m, self.wid()) && #[trigger] sat(self.circ.cls(), s) implies uval(r@, s)
                == uval(a@, s) / (pow2(uval(b@.take(m as int), s) as nat) as int) by {
                lemma_uval_bounds(b@.take(m as int), s);
                lemma_shr_zero_fill(a@, r@, uval(b@.take(m as int), s) as nat, s);
            }
        }
        r
    }

    /// One barrel stage: where `sel` holds, `cur` shifted by `sh` (left, or
    /// right with `fill`), else `cur` unchanged.
    fn barrel_stage(&mut self, cur: Vec<Bool>, sel: Bool, sh: usize, fill: Bool, left: bool) -> (next: Vec<Bool>)
        requires
            old(self).c().wf(),
            cur@.len() == old(self).wid(),
            sh < old(self).wid(),
            all_valid(cur@, old(self).c().nv()),
            valid(sel, old(self).c().nv()),
            valid(fill, old(self).c().nv()),
            old(self).c().nv() + 3 * old(self).wid() <= u32::MAX,
        ensures
            grown(&old(self).c(), &final(self).c()),
            final(self).c().nv() <= old(self).c().nv() + 3 * old(self).wid(),
            final(self).wid() == old(self).wid(),
            next@.len() == old(self).wid(),
            all_valid(next@, final(self).c().nv()),
            forall|s: Assignment| #[trigger] sat(final(self).c().cls(), s) ==> forall|k: int| 0 <= k < next@.len() ==> val(#[trigger] next@[k], s)
                == if val(sel, s) {
                val(
                    (if left {
                        shift_left_seq(cur@, sh as int)
                    } else {
                        shift_right_seq(cur@, sh as int, fill)
                    })[k],
                    s,
                )
            } else {
                val(cur@[k], s)
            },
    {
        let w = self.width;
        let ghost cur0 = cur@;
        let ghost moved = if left {
            shift_left_seq(cur0, sh as int)
        } else {
            shift_right_seq(cur0, sh as int, fill)
        };
        let shifted = if left {
            shift_left_bits(cur.as_slice(), sh, w)
        } else {
            shift_right_bits(cur.as_slice(), sh, w, fill)
        };
        proof {
            assert(shifted@ =~= moved);
            assert forall|j: int| 0 <= j < w implies valid(#[trigger] shifted@[j], self.circ.nv()) by {
                if left {
                    if j >= sh {
                        assert(valid(cur0[j - sh], self.circ.nv()));
                    }
                } else {
                    if j + sh < w {
                        assert(valid(cur0[j + sh], self.circ.nv()));
                    }
                }
            }
        }
        let sv = IntVal { bits: shifted };
        let cv = IntVal { bits: cur };
        let picked = self.mux(sel, &sv, &cv);
        picked.bits
    }

    /// Unsigned addition of two equal-width vectors keeping the width (the
    /// final carry dropped): the sum modulo `2^n`.
    #[verifier::spinoff_prover]
    fn add_bits_fixed(&mut self, a: &[Bool], b: &[Bool]) -> (out: Vec<Bool>)
        requires
            old(self).c().wf(),
            a@.len() == b@.len(),
            all_valid(a@, old(self).c().nv()),
            all_valid(b@, old(self).c().nv()),
            old(self).c().nv() + 9 * a@.len() <= u32::MAX,
        ensures
            grown(&old(self).c(), &final(self).c()),
            final(self).c().nv() <= old(self).c().nv() + 9 * a@.len(),
            final(self).wid() == old(self).wid(),
            out@.len() == a@.len(),
            all_valid(out@, final(self).c().nv()),
            forall|s: Assignment| #[trigger] sat(final(self).c().cls(), s) ==> uval(out@, s) == (uval(a@, s) + uval(b@, s)) % (pow2(
                a@.len(),
            ) as int),
            all_const(a@) && all_const(b@) ==> all_const(out@) && final(self).c().same(&old(self).c()),
    {
        let (out, _cmsb, cout) = self.ripple(a, b, Bool::Const(false));
        proof {
            assert forall|s: Assignment| #[trigger] sat(self.circ.cls(), s) implies uval(out@, s) == (uval(a@, s) + uval(b@, s)) % (pow2(
                a@.len(),
            ) as int) by {
                lemma_uval_bounds(out@, s);
                vstd::arithmetic::div_mod::lemma_fundamental_div_mod_converse(
                    uval(a@, s) + uval(b@, s),
                    pow2(a@.len()) as int,
                    bit(cout, s),
                    uval(out@, s),
                );
            }
        }
        out
    }

    /// Each bit of `bits` conjoined with `sel`: `bits` where `sel` holds,
    /// else zero.
    fn gate_each(&mut self, sel: Bool, bits: &[Bool]) -> (out: Vec<Bool>)
        requires
            old(self).c().wf(),
            valid(sel, old(self).c().nv()),
            all_valid(bits@, old(self).c().nv()),
            old(self).c().nv() + bits@.len() <= u32::MAX,
        ensures
            grown(&old(self).c(), &final(self).c()),
            final(self).c().nv() <= old(self).c().nv() + bits@.len(),
            final(self).wid() == old(self).wid(),
            out@.len() == bits@.len(),
            all_valid(out@, final(self).c().nv()),
            forall|s: Assignment| #[trigger] sat(final(self).c().cls(), s) ==> uval(out@, s) == bit(sel, s) * uval(bits@, s),
            sel is Const && all_const(bits@) ==> all_const(out@) && final(self).c().same(&old(self).c()),
    {
        let ghost c0 = self.circ;
        proof {
            lemma_grown_refl(&c0);
        }
        let mut out: Vec<Bool> = Vec::new();
        let mut k: usize = 0;
        while k < bits.len()
            invariant
                k <= bits@.len(),
                self.width == old(self).width,
                c0.wf(),
                valid(sel, c0.nv()),
                all_valid(bits@, c0.nv()),
                c0.nv() + bits@.len() <= u32::MAX,
                grown(&c0, &self.circ),
                self.circ.nv() <= c0.nv() + k,
                out@.len() == k,
                all_valid(out@, self.circ.nv()),
                forall|s: Assignment| #[trigger] sat(self.circ.cls(), s) ==> forall|j: int| 0 <= j < k ==> val(#[trigger] out@[j], s)
                    == (val(sel, s) && val(bits@[j], s)),
                sel is Const && all_const(bits@) ==> all_const(out@) && self.circ.same(&c0),
            decreases bits@.len() - k,
        {
            let ghost c1 = self.circ;
            let ghost o0 = out@;
            let g = self.circ.and(sel, bits[k]);
            out.push(g);
            proof {
                if sel is Const && all_const(bits@) {
                    assert(bits@[k as int] is Const);
                    assert forall|j: int| 0 <= j < out@.len() implies (#[trigger] out@[j]) is Const by {
                        if j < o0.len() {
                            assert(out@[j] == o0[j]);
                        }
                    }
                }
                lemma_grown_trans(&c0, &c1, &self.circ);
                assert forall|s: Assignment| #[trigger] sat(self.circ.cls(), s) implies forall|j: int| 0 <= j < k + 1 ==> val(#[trigger] out@[j], s)
                    == (val(sel, s) && val(bits@[j], s)) by {
                    lemma_sat_back(&c1, &self.circ, s);
                    assert forall|j: int| 0 <= j < k + 1 implies val(#[trigger] out@[j], s) == (val(sel, s) && val(bits@[j], s)) by {
                        if j < k {
                            assert(out@[j] == o0[j]);
                        }
                    }
                }
            }
            k = k + 1;
        }
        proof {
            assert forall|s: Assignment| #[trigger] sat(self.circ.cls(), s) implies uval(out@, s) == bit(sel, s) * uval(bits@, s) by {
                if val(sel, s) {
                    lemma_uval_same(out@, bits@, s);
                } else {
                    let z = Seq::new(bits@.len(), |i: int| Bool::Const(false));
                    lemma_uval_same(out@, z, s);
                    lemma_uval_zeros(bits@.len(), s);
                }
            }
        }
        out
    }

    /// `a` sign-extended to `width` bits: its bits, then copies of its sign
    /// bit; the signed value is kept.
    fn sign_extend(a: &IntVal, width: usize) -> (out: Vec<Bool>)
        requires
            a@.len() >= 1,
            a@.len() <= width,
        ensures
            out@.len() == width,
            forall|k: int| 0 <= k < width ==> #[trigger] out@[k] == if k < a@.len() { a@[k] } else { a@.last() },
            forall|s: Assignment| sval(out@, s) == #[trigger] sval(a@, s),
    {
        let mut bits = copy_bits(&a.bits);
        let sign = a.bits[a.bits.len() - 1];
        while bits.len() < width
            invariant
                a@.len() <= bits@.len() <= width,
                sign == a@.last(),
                forall|k: int| 0 <= k < bits@.len() ==> #[trigger] bits@[k] == if k < a@.len() { a@[k] } else { a@.last() },
            decreases width - bits@.len(),
        {
            bits.push(sign);
        }
        proof {
            assert forall|s: Assignment| sval(bits@, s) == #[trigger] sval(a@, s) by {
                lemma_sval_sign_extend(a@, bits@, s);
            }
        }
        bits
    }

    /// The shift-add product of two equal-width vectors, kept to their
    /// width: `Σᵢ y[i]·(x << i)`, which holds `uval(x)·uval(y)` modulo `2^n`.
    fn product_bits(&mut self, x: &[Bool], y: &[Bool]) -> (prod: Vec<Bool>)
        requires
            old(self).c().wf(),
            x@.len() == y@.len(),
            all_valid(x@, old(self).c().nv()),
            all_valid(y@, old(self).c().nv()),
            old(self).c().nv() + 10 * x@.len() * x@.len() <= u32::MAX,
        ensures
            grown(&old(self).c(), &final(self).c()),
            final(self).c().nv() <= old(self).c().nv() + 10 * x@.len() * x@.len(),
            final(self).wid() == old(self).wid(),
            prod@.len() == x@.len(),
            all_valid(prod@, final(self).c().nv()),
            forall|s: Assignment| #[trigger] sat(final(self).c().cls(), s) ==> uval(prod@, s) == (uval(x@, s) * uval(y@, s)) % (pow2(
                x@.len(),
            ) as int),
            all_const(x@) && all_const(y@) ==> all_const(prod@) && final(self).c().same(&old(self).c()),
    {
        let ghost c0 = self.circ;
        let n = x.len();
        let ghost m = pow2(n as nat) as int;
        proof {
            lemma_grown_refl(&c0);
            lemma_pow2_pos(n as nat);
        }
        let mut prod: Vec<Bool> = Vec::new();
        let mut k: usize = 0;
        while k < n
            invariant
                k <= n,
                n == x@.len(),
                prod@.len() == k,
                forall|j: int| 0 <= j < k ==> #[trigger] prod@[j] == Bool::Const(false),
            decreases n - k,
        {
            prod.push(Bool::Const(false));
            k = k + 1;
        }
        proof {
            assert(all_const(prod@));
            assert(y@.take(0) =~= Seq::<Bool>::empty());
            assert forall|s: Assignment| #[trigger] sat(c0.cls(), s) implies uval(prod@, s) == (uval(x@, s) * uval(y@.take(0), s)) % m by {
                lemma_uval_same(prod@, Seq::new(n as nat, |i: int| Bool::Const(false)), s);
                lemma_uval_zeros(n as nat, s);
                assert(uval(x@, s) * 0 == 0);
                vstd::arithmetic::div_mod::lemma_small_mod(0, m as nat);
            }
        }
        let mut i: usize = 0;
        while i < n
            invariant
                i <= n,
                n == x@.len(),
                n == y@.len(),
                m == pow2(n as nat),
                m > 0,
                self.width == old(self).width,
                c0.wf(),
                all_valid(x@, c0.nv()),
                all_valid(y@, c0.nv()),
                c0.nv() + 10 * n * n <= u32::MAX,
                grown(&c0, &self.circ),
                self.circ.nv() <= c0.nv() + 10 * n * i,
                prod@.len() == n,
                all_valid(prod@, self.circ.nv()),
                forall|s: Assignment| #[trigger] sat(self.circ.cls(), s) ==> uval(prod@, s) == (uval(x@, s) * uval(y@.take(i as int), s)) % m,
                all_const(x@) && all_const(y@) ==> all_const(prod@) && self.circ.same(&c0),
            decreases n - i,
        {
            let ghost c1 = self.circ;
            let ghost p0 = prod@;
            proof {
                assert(10 * n * i + 10 * n <= 10 * n * n) by (nonlinear_arith)
                    requires
                        i < n,
                ;
                assert(10 * n * i + 10 * n == 10 * n * (i + 1)) by (nonlinear_arith);
            }
            let shifted = shift_left_bits(x, i, n);
            proof {
                assert forall|j: int| 0 <= j < n implies valid(#[trigger] shifted@[j], self.circ.nv()) by {
                    if j >= i {
                        assert(valid(x@[j - i], self.circ.nv()));
                    }
                }
            }
            proof {
                if all_const(x@) && all_const(y@) {
                    assert forall|j: int| 0 <= j < shifted@.len() implies (#[trigger] shifted@[j]) is Const by {
                        if j >= i && j - i < x@.len() {
                            assert(x@[j - i] is Const);
                        }
                    }
                    assert(y@[i as int] is Const);
                }
            }
            let gated = self.gate_each(y[i], shifted.as_slice());
            let ghost c2 = self.circ;
            prod = self.add_bits_fixed(prod.as_slice(), gated.as_slice());
            proof {
                lemma_grown_trans(&c1, &c2, &self.circ);
                lemma_grown_trans(&c0, &c1, &self.circ);
                assert(y@.take(i + 1) =~= y@.take(i as int).push(y@[i as int]));
                assert forall|s: Assignment| #[trigger] sat(self.circ.cls(), s) implies uval(prod@, s) == (uval(x@, s) * uval(
                    y@.take(i + 1),
                    s,
                )) % m by {
                    lemma_sat_back(&c2, &self.circ, s);
                    lemma_sat_back(&c1, &c2, s);
                    assert forall|j: int| 0 <= j < n implies val(#[trigger] shifted@[j], s) == shl_bit(x@, i as int, j, s) by {}
                    lemma_shl_value(x@, shifted@, i as nat, s);
                    lemma_uval_push(y@.take(i as int), y@[i as int], s);
                    lemma_shift_add_step(
                        uval(x@, s),
                        uval(y@.take(i as int), s),
                        uval(p0, s),
                        uval(gated@, s),
                        bit(y@[i as int], s),
                        pow2(i as nat) as int,
                        m,
                    );
                    assert(uval(y@.take(i + 1), s) == uval(y@.take(i as int), s) + pow2(i as nat) * bit(y@[i as int], s));
                }
            }
            i = i + 1;
        }
        proof {
            assert(y@.take(n as int) =~= y@);
        }
        prod
    }

    /// Signed multiplication `a × b` wrapped to the width, with an overflow
    /// flag that holds exactly when the exact product leaves the signed
    /// range. Both operands are sign-extended to `2w` bits and multiplied
    /// there by shift-add; the flag is whether a bit of the high half
    /// differs from the result's sign bit.
    #[verifier::spinoff_prover]
    pub fn multiply(&mut self, a: &IntVal, b: &IntVal) -> (r: (IntVal, Bool))
        requires
            old(self).c().wf(),
            a@.len() == old(self).wid(),
            b@.len() == old(self).wid(),
            old(self).wid() >= 1,
            all_valid(a@, old(self).c().nv()),
            all_valid(b@, old(self).c().nv()),
            old(self).c().nv() + 44 * old(self).wid() * old(self).wid() <= u32::MAX,
        ensures
            grown(&old(self).c(), &final(self).c()),
            final(self).c().nv() <= old(self).c().nv() + 44 * old(self).wid() * old(self).wid(),
            final(self).wid() == old(self).wid(),
            r.0@.len() == old(self).wid(),
            all_valid(r.0@, final(self).c().nv()),
            valid(r.1, final(self).c().nv()),
            forall|s: Assignment| #[trigger] sat(final(self).c().cls(), s) ==> sval(r.0@, s) == wrap(sval(a@, s) * sval(b@, s), old(self).wid())
                && val(r.1, s) == !in_range(sval(a@, s) * sval(b@, s), old(self).wid()),
            all_const(a@) && all_const(b@) ==> all_const(r.0@) && r.1 is Const && final(self).c().same(&old(self).c()),
    {
        let ghost c0 = self.circ;
        let w = self.width;
        proof {
            lemma_grown_refl(&c0);
            assert(w <= 0x10000) by (nonlinear_arith)
                requires
                    44 * w * w <= u32::MAX,
                    w >= 1,
            ;
            assert(10 * (2 * w) * (2 * w) == 40 * w * w) by (nonlinear_arith);
            assert(3 * w + 1 <= 4 * w * w) by (nonlinear_arith)
                requires
                    w >= 1,
            ;
            assert(40 * w * w + 4 * w * w == 44 * w * w) by (nonlinear_arith);
        }
        let dw = 2 * w;
        assert(10 * dw * dw == 40 * w * w) by (nonlinear_arith)
            requires
                dw == 2 * w,
        ;
        let ax = Self::sign_extend(a, dw);
        let bx = Self::sign_extend(b, dw);
        proof {
            assert forall|k: int| 0 <= k < dw implies valid(#[trigger] ax@[k], c0.nv()) && valid(bx@[k], c0.nv()) by {
                if k >= w {
                    assert(valid(a@[w - 1], c0.nv()));
                    assert(valid(b@[w - 1], c0.nv()));
                }
            }
        }
        proof {
            if all_const(a@) && all_const(b@) {
                assert forall|k: int| 0 <= k < ax@.len() implies (#[trigger] ax@[k]) is Const && bx@[k] is Const by {
                    if k >= w {
                        assert(a@[w - 1] is Const && b@[w - 1] is Const);
                    } else {
                        assert(a@[k] is Const && b@[k] is Const);
                    }
                }
                assert(all_const(bx@));
            }
        }
        let prod = self.product_bits(ax.as_slice(), bx.as_slice());
        let ghost c1 = self.circ;
        let low = take_bits(prod.as_slice(), w);
        let overflow = self.high_differs(prod.as_slice(), w);
        proof {
            if all_const(a@) && all_const(b@) {
                assert forall|k: int| 0 <= k < low@.len() implies (#[trigger] low@[k]) is Const by {
                    assert(low@[k] == prod@[k]);
                }
            }
            lemma_grown_trans(&c0, &c1, &self.circ);
            assert forall|s: Assignment| #[trigger] sat(self.circ.cls(), s) implies sval(low@, s) == wrap(sval(a@, s) * sval(b@, s), w as nat)
                && val(overflow, s) == !in_range(sval(a@, s) * sval(b@, s), w as nat) by {
                lemma_sat_back(&c1, &self.circ, s);
                lemma_sval_split(a@, s);
                lemma_sval_split(b@, s);
                lemma_uval_sval_mod(ax@, s);
                lemma_uval_sval_mod(bx@, s);
                lemma_pow2_pos(dw as nat);
                vstd::arithmetic::div_mod::lemma_mod_twice(sval(a@, s), pow2(dw as nat) as int);
                vstd::arithmetic::div_mod::lemma_mod_twice(sval(b@, s), pow2(dw as nat) as int);
                lemma_product_halves(prod@, uval(ax@, s), uval(bx@, s), sval(a@, s), sval(b@, s), w as nat, s);
            }
        }
        (IntVal { bits: low }, overflow)
    }

    /// Whether some bit of `bits` from `w` up differs from bit `w − 1`: the
    /// disjunction of their `xor`s with it.
    #[verifier::spinoff_prover]
    #[verifier::rlimit(30)]
    fn high_differs(&mut self, bits: &[Bool], w: usize) -> (r: Bool)
        requires
            old(self).c().wf(),
            1 <= w <= bits@.len(),
            all_valid(bits@, old(self).c().nv()),
            old(self).c().nv() + 3 * (bits@.len() - w) + 1 <= u32::MAX,
        ensures
            grown(&old(self).c(), &final(self).c()),
            final(self).c().nv() <= old(self).c().nv() + 3 * (bits@.len() - w) + 1,
            final(self).wid() == old(self).wid(),
            valid(r, final(self).c().nv()),
            forall|s: Assignment| #[trigger] sat(final(self).c().cls(), s) ==> val(r, s) == exists|j: int|
                w <= j < bits@.len() && #[trigger] val(bits@[j], s) != val(bits@[w - 1], s),
            all_const(bits@) ==> r is Const && final(self).c().same(&old(self).c()),
    {
        let ghost c1 = self.circ;
        let n = bits.len();
        let sign = bits[w - 1];
        let mut diffs: Vec<Bool> = Vec::new();
        let mut j: usize = w;
        proof {
            lemma_grown_refl(&c1);
        }
        while j < n
            invariant
                w <= j <= n,
                n == bits@.len(),
                w >= 1,
                self.width == old(self).width,
                sign == bits@[w - 1],
                c1.wf(),
                all_valid(bits@, c1.nv()),
                c1.nv() + 3 * (n - w) + 1 <= u32::MAX,
                grown(&c1, &self.circ),
                self.circ.nv() <= c1.nv() + 3 * (j - w),
                diffs@.len() == j - w,
                all_valid(diffs@, self.circ.nv()),
                forall|s: Assignment| #[trigger] sat(self.circ.cls(), s) ==> forall|t: int| 0 <= t < diffs@.len() ==> val(#[trigger] diffs@[t], s)
                    == (val(bits@[w + t], s) != val(bits@[w - 1], s)),
                all_const(bits@) ==> all_const(diffs@) && self.circ.same(&c1),
            decreases n - j,
        {
            let ghost c2 = self.circ;
            let ghost d0 = diffs@;
            let d = self.circ.xor(bits[j], sign);
            diffs.push(d);
            proof {
                if all_const(bits@) {
                    assert(bits@[j as int] is Const && sign is Const);
                    assert forall|t: int| 0 <= t < diffs@.len() implies (#[trigger] diffs@[t]) is Const by {
                        if t < d0.len() {
                            assert(diffs@[t] == d0[t]);
                        }
                    }
                }
                lemma_grown_trans(&c1, &c2, &self.circ);
                assert forall|s: Assignment| #[trigger] sat(self.circ.cls(), s) implies forall|t: int| 0 <= t < diffs@.len() ==> val(#[trigger] diffs@[t], s)
                    == (val(bits@[w + t], s) != val(bits@[w - 1], s)) by {
                    lemma_sat_back(&c2, &self.circ, s);
                    assert forall|t: int| 0 <= t < diffs@.len() implies val(#[trigger] diffs@[t], s) == (val(bits@[w + t], s) != val(bits@[w - 1], s)) by {
                        if t < d0.len() {
                            assert(diffs@[t] == d0[t]);
                        }
                    }
                }
            }
            j = j + 1;
        }
        let ghost c3 = self.circ;
        let ghost ds = diffs@;
        let r = self.circ.or_many(diffs);
        proof {
            lemma_grown_trans(&c1, &c3, &self.circ);
            assert forall|s: Assignment| #[trigger] sat(self.circ.cls(), s) implies val(r, s) == exists|j: int|
                w <= j < bits@.len() && #[trigger] val(bits@[j], s) != val(bits@[w - 1], s) by {
                lemma_sat_back(&c3, &self.circ, s);
                if any_true(ds, s) {
                    let t = choose|t: int| 0 <= t < ds.len() && val(#[trigger] ds[t], s);
                    assert(val(bits@[w + t], s) != val(bits@[w - 1], s));
                }
                if exists|j: int| w <= j < bits@.len() && #[trigger] val(bits@[j], s) != val(bits@[w - 1], s) {
                    let j = choose|j: int| w <= j < bits@.len() && #[trigger] val(bits@[j], s) != val(bits@[w - 1], s);
                    assert(val(ds[j - w], s));
                }
            }
        }
        r
    }

    /// Unsigned subtraction `a − b` of equal-width vectors keeping the width
    /// (the borrow dropped), as `a + ¬b + 1`: the difference modulo `2^n`.
    fn unsigned_sub_bits(&mut self, a: &[Bool], b: &[Bool]) -> (out: Vec<Bool>)
        requires
            old(self).c().wf(),
            a@.len() == b@.len(),
            all_valid(a@, old(self).c().nv()),
            all_valid(b@, old(self).c().nv()),
            old(self).c().nv() + 9 * a@.len() <= u32::MAX,
        ensures
            grown(&old(self).c(), &final(self).c()),
            final(self).c().nv() <= old(self).c().nv() + 9 * a@.len(),
            final(self).wid() == old(self).wid(),
            out@.len() == a@.len(),
            all_valid(out@, final(self).c().nv()),
            forall|s: Assignment| #[trigger] sat(final(self).c().cls(), s) ==> uval(out@, s) == (uval(a@, s) - uval(b@, s)) % (pow2(
                a@.len(),
            ) as int),
    {
        let mut nb: Vec<Bool> = Vec::new();
        let mut i: usize = 0;
        while i < b.len()
            invariant
                i <= b@.len(),
                nb@ == complement(b@).take(i as int),
            decreases b@.len() - i,
        {
            let x = self.circ.not(b[i]);
            nb.push(x);
            i = i + 1;
            assert(nb@ =~= complement(b@).take(i as int));
        }
        proof {
            assert(complement(b@).take(i as int) =~= complement(b@));
            assert forall|k: int| 0 <= k < nb@.len() implies valid(#[trigger] nb@[k], self.circ.nv()) by {
                assert(valid(b@[k], self.circ.nv()));
            }
        }
        let (out, _cmsb, cout) = self.ripple(a, nb.as_slice(), Bool::Const(true));
        proof {
            assert forall|s: Assignment| #[trigger] sat(self.circ.cls(), s) implies uval(out@, s) == (uval(a@, s) - uval(b@, s)) % (pow2(
                a@.len(),
            ) as int) by {
                lemma_complement(b@, s);
                lemma_uval_bounds(out@, s);
                let m = pow2(a@.len()) as int;
                assert(uval(a@, s) - uval(b@, s) == (bit(cout, s) - 1) * m + uval(out@, s)) by (nonlinear_arith)
                    requires
                        uval(out@, s) + m * bit(cout, s) == uval(a@, s) + (m - 1 - uval(b@, s)) + 1,
                ;
                vstd::arithmetic::div_mod::lemma_fundamental_div_mod_converse(
                    uval(a@, s) - uval(b@, s),
                    m,
                    bit(cout, s) - 1,
                    uval(out@, s),
                );
            }
        }
        out
    }

    /// Bitwise select over equal-width vectors: `yes` where `sel` holds,
    /// else `no`.
    fn select_bits(&mut self, sel: Bool, yes: &[Bool], no: &[Bool]) -> (out: Vec<Bool>)
        requires
            old(self).c().wf(),
            yes@.len() == no@.len(),
            valid(sel, old(self).c().nv()),
            all_valid(yes@, old(self).c().nv()),
            all_valid(no@, old(self).c().nv()),
            old(self).c().nv() + 3 * yes@.len() <= u32::MAX,
        ensures
            grown(&old(self).c(), &final(self).c()),
            final(self).c().nv() <= old(self).c().nv() + 3 * yes@.len(),
            final(self).wid() == old(self).wid(),
            out@.len() == yes@.len(),
            all_valid(out@, final(self).c().nv()),
            forall|s: Assignment| #[trigger] sat(final(self).c().cls(), s) ==> uval(out@, s) == if val(sel, s) {
                uval(yes@, s)
            } else {
                uval(no@, s)
            },
    {
        let ghost c0 = self.circ;
        proof {
            lemma_grown_refl(&c0);
        }
        let mut out: Vec<Bool> = Vec::new();
        let mut k: usize = 0;
        while k < yes.len()
            invariant
                k <= yes@.len(),
                yes@.len() == no@.len(),
                self.width == old(self).width,
                c0.wf(),
                valid(sel, c0.nv()),
                all_valid(yes@, c0.nv()),
                all_valid(no@, c0.nv()),
                c0.nv() + 3 * yes@.len() <= u32::MAX,
                grown(&c0, &self.circ),
                self.circ.nv() <= c0.nv() + 3 * k,
                out@.len() == k,
                all_valid(out@, self.circ.nv()),
                forall|s: Assignment| #[trigger] sat(self.circ.cls(), s) ==> forall|j: int| 0 <= j < k ==> val(#[trigger] out@[j], s)
                    == if val(sel, s) { val(yes@[j], s) } else { val(no@[j], s) },
            decreases yes@.len() - k,
        {
            let ghost c1 = self.circ;
            let ghost o0 = out@;
            let v = self.circ.ite(sel, yes[k], no[k]);
            out.push(v);
            proof {
                lemma_grown_trans(&c0, &c1, &self.circ);
                assert forall|s: Assignment| #[trigger] sat(self.circ.cls(), s) implies forall|j: int| 0 <= j < k + 1 ==> val(#[trigger] out@[j], s)
                    == if val(sel, s) { val(yes@[j], s) } else { val(no@[j], s) } by {
                    lemma_sat_back(&c1, &self.circ, s);
                    assert forall|j: int| 0 <= j < k + 1 implies val(#[trigger] out@[j], s) == if val(sel, s) {
                        val(yes@[j], s)
                    } else {
                        val(no@[j], s)
                    } by {
                        if j < k {
                            assert(out@[j] == o0[j]);
                        }
                    }
                }
            }
            k = k + 1;
        }
        proof {
            assert forall|s: Assignment| #[trigger] sat(self.circ.cls(), s) implies uval(out@, s) == if val(sel, s) {
                uval(yes@, s)
            } else {
                uval(no@, s)
            } by {
                if val(sel, s) {
                    lemma_uval_same(out@, yes@, s);
                } else {
                    lemma_uval_same(out@, no@, s);
                }
            }
        }
        out
    }

    /// One step of restoring division: brings bit `xb` down below the
    /// remainder (`2·rem + xb`, kept to the width) and subtracts `y` where
    /// that reaches it; also returns whether it did, the next quotient bit.
    fn restore_step(&mut self, xb: Bool, rem: Vec<Bool>, y: &[Bool]) -> (r: (Vec<Bool>, Bool))
        requires
            old(self).c().wf(),
            rem@.len() == y@.len(),
            y@.len() >= 2,
            y@.last() == Bool::Const(false),
            valid(xb, old(self).c().nv()),
            all_valid(rem@, old(self).c().nv()),
            all_valid(y@, old(self).c().nv()),
            old(self).c().nv() + 16 * y@.len() <= u32::MAX,
            forall|s: Assignment| #[trigger] sat(old(self).c().cls(), s) ==> uval(y@, s) >= 1 ==> uval(rem@, s) < uval(y@, s),
        ensures
            grown(&old(self).c(), &final(self).c()),
            final(self).c().nv() <= old(self).c().nv() + 16 * y@.len(),
            final(self).wid() == old(self).wid(),
            r.0@.len() == y@.len(),
            all_valid(r.0@, final(self).c().nv()),
            valid(r.1, final(self).c().nv()),
            forall|s: Assignment| #[trigger] sat(final(self).c().cls(), s) ==> uval(y@, s) >= 1 ==> {
                let cand = bit(xb, s) + 2 * uval(rem@, s);
                &&& val(r.1, s) == (cand >= uval(y@, s))
                &&& uval(r.0@, s) == if cand >= uval(y@, s) { cand - uval(y@, s) } else { cand }
            },
    {
        let ghost c0 = self.circ;
        let n = rem.len() - 1;
        let mut shifted: Vec<Bool> = Vec::new();
        shifted.push(xb);
        let mut k: usize = 0;
        while k < n
            invariant
                k <= n,
                n + 1 == rem@.len(),
                shifted@ == seq![xb] + rem@.take(k as int),
            decreases n - k,
        {
            shifted.push(rem[k]);
            proof {
                assert(rem@.take(k + 1) =~= rem@.take(k as int).push(rem@[k as int]));
                assert(seq![xb] + rem@.take(k + 1) =~= (seq![xb] + rem@.take(k as int)).push(rem@[k as int]));
            }
            k = k + 1;
        }
        proof {
            assert forall|j: int| 0 <= j < shifted@.len() implies valid(#[trigger] shifted@[j], c0.nv()) by {
                if j > 0 {
                    assert(shifted@[j] == rem@[j - 1]);
                }
            }
        }
        let lt = self.unsigned_lt(shifted.as_slice(), y);
        let ge = self.circ.not(lt);
        let ghost c1 = self.circ;
        let sub = self.unsigned_sub_bits(shifted.as_slice(), y);
        let ghost c2 = self.circ;
        let out = self.select_bits(ge, sub.as_slice(), shifted.as_slice());
        proof {
            lemma_grown_trans(&c0, &c1, &c2);
            lemma_grown_trans(&c0, &c2, &self.circ);
            assert forall|s: Assignment| #[trigger] sat(self.circ.cls(), s) implies uval(y@, s) >= 1 ==> {
                let cand = bit(xb, s) + 2 * uval(rem@, s);
                &&& val(ge, s) == (cand >= uval(y@, s))
                &&& uval(out@, s) == if cand >= uval(y@, s) { cand - uval(y@, s) } else { cand }
            } by {
                lemma_sat_back(&c2, &self.circ, s);
                lemma_sat_back(&c1, &c2, s);
                lemma_sat_back(&c0, &c1, s);
                if uval(y@, s) >= 1 {
                    let yy = uval(y@, s);
                    lemma_uval_split(y@, n as int, s);
                    assert(y@.skip(n as int) =~= seq![Bool::Const(false)]);
                    lemma_uval_prepend(Bool::Const(false), Seq::<Bool>::empty(), s);
                    assert(seq![Bool::Const(false)] + Seq::<Bool>::empty() =~= seq![Bool::Const(false)]);
                    lemma_uval_bounds(y@.take(n as int), s);
                    lemma_uval_low(rem@, n as int, s);
                    assert(rem@.take(n as int) =~= rem@.take(n as int));
                    lemma_uval_prepend(xb, rem@.take(n as int), s);
                    let cand = bit(xb, s) + 2 * uval(rem@, s);
                    assert(uval(shifted@, s) == cand);
                    vstd::arithmetic::power2::lemma_pow2_unfold((n + 1) as nat);
                    lemma_pow2_pos(n as nat);
                    if cand >= yy {
                        vstd::arithmetic::div_mod::lemma_small_mod((cand - yy) as nat, pow2((n + 1) as nat));
                    }
                }
            }
        }
        (out, ge)
    }

    /// Unsigned restoring division of two width-`w` vectors: the quotient
    /// and the remainder, each `w` wide. Nothing is said of a zero divisor
    /// (the caller selects the division-by-zero values itself).
    fn unsigned_div_rem(&mut self, x: &IntVal, y: &IntVal) -> (r: (IntVal, IntVal))
        requires
            old(self).c().wf(),
            x@.len() == old(self).wid(),
            y@.len() == old(self).wid(),
            old(self).wid() >= 1,
            all_valid(x@, old(self).c().nv()),
            all_valid(y@, old(self).c().nv()),
            old(self).c().nv() + 32 * old(self).wid() * old(self).wid() <= u32::MAX,
        ensures
            grown(&old(self).c(), &final(self).c()),
            final(self).c().nv() <= old(self).c().nv() + 32 * old(self).wid() * old(self).wid(),
            final(self).wid() == old(self).wid(),
            r.0@.len() == old(self).wid(),
            r.1@.len() == old(self).wid(),
            all_valid(r.0@, final(self).c().nv()),
            all_valid(r.1@, final(self).c().nv()),
            forall|s: Assignment| #[trigger] sat(final(self).c().cls(), s) ==> uval(y@, s) >= 1 ==> uval(r.0@, s) == uval(x@, s) / uval(
                y@,
                s,
            ) && uval(r.1@, s) == uval(x@, s) % uval(y@, s),
    {
        let ghost c0 = self.circ;
        let w = self.width;
        proof {
            lemma_grown_refl(&c0);
            assert(16 * (w + 1) * w <= 32 * w * w) by (nonlinear_arith)
                requires
                    w >= 1,
            ;
            assert(w <= 0x10000) by (nonlinear_arith)
                requires
                    32 * w * w <= u32::MAX,
                    w >= 1,
            ;
        }
        let mut y_ext = copy_bits(&y.bits);
        y_ext.push(Bool::Const(false));
        let mut rem: Vec<Bool> = Vec::new();
        let mut k: usize = 0;
        while k <= w
            invariant
                k <= w + 1,
                w < usize::MAX,
                rem@.len() == k,
                forall|j: int| 0 <= j < k ==> #[trigger] rem@[j] == Bool::Const(false),
            decreases w + 1 - k,
        {
            rem.push(Bool::Const(false));
            k = k + 1;
        }
        let mut q: Vec<Bool> = Vec::new();
        let mut k: usize = 0;
        while k < w
            invariant
                k <= w,
                q@.len() == k,
                forall|j: int| 0 <= j < k ==> #[trigger] q@[j] == Bool::Const(false),
            decreases w - k,
        {
            q.push(Bool::Const(false));
            k = k + 1;
        }
        proof {
            assert(y_ext@ == y@.push(Bool::Const(false)));
            assert forall|j: int| 0 <= j < y_ext@.len() implies valid(#[trigger] y_ext@[j], c0.nv()) by {
                if j < w {
                    assert(y_ext@[j] == y@[j]);
                }
            }
            assert(x@.skip(w as int) =~= Seq::<Bool>::empty());
            assert(q@.skip(w as int) =~= Seq::<Bool>::empty());
            assert forall|s: Assignment| #[trigger] sat(c0.cls(), s) implies uval(y_ext@, s) == uval(y@, s) && (uval(y@, s) >= 1 ==> uval(rem@, s)
                == uval(x@.skip(w as int), s) % uval(y@, s) && uval(q@.skip(w as int), s) == uval(x@.skip(w as int), s) / uval(y@, s)) by {
                lemma_uval_push(y@, Bool::Const(false), s);
                lemma_uval_same(rem@, Seq::new((w + 1) as nat, |i: int| Bool::Const(false)), s);
                lemma_uval_zeros((w + 1) as nat, s);
                if uval(y@, s) >= 1 {
                    vstd::arithmetic::div_mod::lemma_fundamental_div_mod_converse(0, uval(y@, s), 0, 0);
                }
            }
        }
        let mut i: usize = w;
        while i > 0
            invariant
                i <= w,
                w >= 1,
                w == self.width,
                self.width == old(self).width,
                x@.len() == w,
                y@.len() == w,
                y_ext@ == y@.push(Bool::Const(false)),
                c0.wf(),
                all_valid(x@, c0.nv()),
                all_valid(y_ext@, c0.nv()),
                c0.nv() + 16 * (w + 1) * w <= u32::MAX,
                grown(&c0, &self.circ),
                self.circ.nv() <= c0.nv() + 16 * (w + 1) * (w - i),
                rem@.len() == w + 1,
                q@.len() == w,
                all_valid(rem@, self.circ.nv()),
                all_valid(q@, self.circ.nv()),
                forall|s: Assignment| #[trigger] sat(self.circ.cls(), s) ==> uval(y_ext@, s) == uval(y@, s),
                forall|s: Assignment| #[trigger] sat(self.circ.cls(), s) ==> uval(y@, s) >= 1 ==> uval(rem@, s) == uval(x@.skip(i as int), s)
                    % uval(y@, s) && uval(q@.skip(i as int), s) == uval(x@.skip(i as int), s) / uval(y@, s),
            decreases i,
        {
            let ghost c1 = self.circ;
            let ghost q0 = q@;
            let ghost r0 = rem@;
            proof {
                assert(16 * (w + 1) * (w - i) + 16 * (w + 1) == 16 * (w + 1) * (w - i + 1)) by (nonlinear_arith);
                assert(16 * (w + 1) * (w - i + 1) <= 16 * (w + 1) * w) by (nonlinear_arith)
                    requires
                        i >= 1,
                ;
                assert forall|s: Assignment| #[trigger] sat(c1.cls(), s) implies uval(y_ext@, s) >= 1 ==> uval(rem@, s) < uval(y_ext@, s) by {
                    if uval(y_ext@, s) >= 1 {
                        lemma_uval_bounds(x@.skip(i as int), s);
                        vstd::arithmetic::div_mod::lemma_mod_bound(uval(x@.skip(i as int), s), uval(y@, s));
                    }
                }
            }
            i = i - 1;
            let (next, ge) = self.restore_step(x.bits[i], rem, y_ext.as_slice());
            rem = next;
            q.set(i, ge);
            proof {
                lemma_grown_trans(&c0, &c1, &self.circ);
                assert(x@.skip(i as int) =~= seq![x@[i as int]] + x@.skip(i + 1));
                assert(q@.skip(i as int) =~= seq![ge] + q0.skip(i + 1));
                assert forall|j: int| 0 <= j < q@.len() implies valid(#[trigger] q@[j], self.circ.nv()) by {
                    if j != i {
                        assert(q@[j] == q0[j]);
                    }
                }
                assert forall|s: Assignment| #[trigger] sat(self.circ.cls(), s) implies uval(y_ext@, s) == uval(y@, s) && (uval(y@, s) >= 1 ==> uval(
                    rem@,
                    s,
                ) == uval(x@.skip(i as int), s) % uval(y@, s) && uval(q@.skip(i as int), s) == uval(x@.skip(i as int), s) / uval(y@, s)) by {
                    lemma_sat_back(&c1, &self.circ, s);
                    if uval(y@, s) >= 1 {
                        let d = uval(x@.skip(i + 1), s);
                        lemma_uval_bounds(x@.skip(i + 1), s);
                        lemma_uval_prepend(x@[i as int], x@.skip(i + 1), s);
                        lemma_uval_prepend(ge, q0.skip(i + 1), s);
                        lemma_restoring_step(d, uval(y@, s), bit(x@[i as int], s));
                    }
                }
            }
        }
        proof {
            assert(x@.skip(0) =~= x@);
            assert(q@.skip(0) =~= q@);
        }
        let r = take_bits(rem.as_slice(), w);
        proof {
            assert forall|s: Assignment| #[trigger] sat(self.circ.cls(), s) implies uval(y@, s) >= 1 ==> uval(r@, s) == uval(rem@, s) by {
                if uval(y@, s) >= 1 {
                    lemma_uval_bounds(y@, s);
                    lemma_uval_bounds(x@, s);
                    vstd::arithmetic::div_mod::lemma_mod_bound(uval(x@, s), uval(y@, s));
                    lemma_uval_low(rem@, w as int, s);
                }
            }
        }
        (IntVal { bits: q }, IntVal { bits: r })
    }

    /// The value bits of `−a`, the flag dropped: `−a` modulo `2^w`.
    fn negate_value(&mut self, a: &IntVal) -> (r: IntVal)
        requires
            old(self).c().wf(),
            a@.len() == old(self).wid(),
            1 <= old(self).wid() <= 64,
            all_valid(a@, old(self).c().nv()),
            old(self).c().nv() + 9 * old(self).wid() + 3 <= u32::MAX,
        ensures
            grown(&old(self).c(), &final(self).c()),
            final(self).c().nv() <= old(self).c().nv() + 9 * old(self).wid() + 3,
            final(self).wid() == old(self).wid(),
            r@.len() == old(self).wid(),
            all_valid(r@, final(self).c().nv()),
            forall|s: Assignment| #[trigger] sat(final(self).c().cls(), s) ==> uval(r@, s) == (-sval(a@, s)) % (pow2(old(self).wid()) as int),
    {
        let (r, _flag) = self.negate(a);
        proof {
            let w = self.wid();
            assert forall|s: Assignment| #[trigger] sat(self.circ.cls(), s) implies uval(r@, s) == (-sval(a@, s)) % (pow2(w) as int) by {
                let m = pow2(w) as int;
                let x = -sval(a@, s) - 1 + wrap(1, w);
                lemma_pow2_pos(w);
                lemma_uval_sval_mod(r@, s);
                lemma_wrap_mod(x, w);
                lemma_wrap_mod(1, w);
                vstd::arithmetic::div_mod::lemma_add_mod_noop(-sval(a@, s) - 1, wrap(1, w), m);
                vstd::arithmetic::div_mod::lemma_add_mod_noop(-sval(a@, s) - 1, 1, m);
            }
        }
        r
    }

    /// The most negative value of the width, `−2^(w−1)`, as a constant.
    fn min_val(&self) -> (r: IntVal)
        requires
            1 <= self.wid() <= 63,
        ensures
            r@.len() == self.wid(),
            forall|n: nat| all_valid(r@, n),
            forall|s: Assignment| #[trigger] sval(r@, s) == -pow2((self.wid() - 1) as nat),
    {
        let w = self.width;
        proof {
            vstd::arithmetic::power2::lemma2_to64();
            vstd::arithmetic::power2::lemma2_to64_rest();
            if w - 1 < 62 {
                vstd::arithmetic::power2::lemma_pow2_strictly_increases((w - 1) as nat, 62);
            }
            vstd::bits::lemma_u64_shl_is_mul(1, (w - 1) as u64);
        }
        let m: u64 = 1u64 << ((w - 1) as u64);
        let v: i64 = -(m as i64);
        let r = IntVal::constant(v, w);
        proof {
            assert forall|s: Assignment| #[trigger] sval(r@, s) == -pow2((w - 1) as nat) by {
                lemma_pow2_unfold(w as nat);
                lemma_pow2_pos((w - 1) as nat);
                lemma_wrap_in_range(-pow2((w - 1) as nat), 0, w as nat);
                assert(-pow2((w - 1) as nat) + pow2(w as nat) * 0 == -pow2((w - 1) as nat));
            }
        }
        r
    }

    /// The magnitude `|a|` as an unsigned `w`-bit value: `−a` where `a` is
    /// negative, else `a`.
    fn signed_magnitude(&mut self, a: &IntVal) -> (r: IntVal)
        requires
            old(self).c().wf(),
            a@.len() == old(self).wid(),
            1 <= old(self).wid() <= 64,
            all_valid(a@, old(self).c().nv()),
            old(self).c().nv() + 12 * old(self).wid() + 3 <= u32::MAX,
        ensures
            grown(&old(self).c(), &final(self).c()),
            final(self).c().nv() <= old(self).c().nv() + 12 * old(self).wid() + 3,
            final(self).wid() == old(self).wid(),
            r@.len() == old(self).wid(),
            all_valid(r@, final(self).c().nv()),
            forall|s: Assignment| #[trigger] sat(final(self).c().cls(), s) ==> uval(r@, s) == magnitude(sval(a@, s)),
    {
        let ghost c0 = self.circ;
        let w = self.width;
        let neg = self.negate_value(a);
        let ghost c1 = self.circ;
        let r = self.mux(a.bits[w - 1], &neg, a);
        proof {
            lemma_grown_trans(&c0, &c1, &self.circ);
            assert forall|s: Assignment| #[trigger] sat(self.circ.cls(), s) implies uval(r@, s) == magnitude(sval(a@, s)) by {
                lemma_sat_back(&c1, &self.circ, s);
                lemma_sval_split(a@, s);
                lemma_uval_sval_mod(a@, s);
                lemma_pow2_unfold(w as nat);
                lemma_pow2_pos(w as nat);
                let m = pow2(w as nat) as int;
                assert(a@.last() == a@[w - 1]);
                if val(a@[w - 1], s) {
                    assert(sval(a@, s) < 0);
                    vstd::arithmetic::div_mod::lemma_small_mod((-sval(a@, s)) as nat, m as nat);
                } else {
                    assert(sval(a@, s) >= 0);
                    vstd::arithmetic::div_mod::lemma_small_mod(sval(a@, s) as nat, m as nat);
                }
            }
        }
        r
    }

    /// `mag` given a sign: `−mag` (modulo `2^w`) where `neg` holds, else
    /// `mag`.
    fn apply_sign(&mut self, neg: Bool, mag: &IntVal) -> (r: IntVal)
        requires
            old(self).c().wf(),
            mag@.len() == old(self).wid(),
            1 <= old(self).wid() <= 64,
            valid(neg, old(self).c().nv()),
            all_valid(mag@, old(self).c().nv()),
            old(self).c().nv() + 12 * old(self).wid() + 3 <= u32::MAX,
        ensures
            grown(&old(self).c(), &final(self).c()),
            final(self).c().nv() <= old(self).c().nv() + 12 * old(self).wid() + 3,
            final(self).wid() == old(self).wid(),
            r@.len() == old(self).wid(),
            all_valid(r@, final(self).c().nv()),
            forall|s: Assignment| #[trigger] sat(final(self).c().cls(), s) ==> uval(r@, s) == (if val(neg, s) {
                -uval(mag@, s)
            } else {
                uval(mag@, s)
            }) % (pow2(old(self).wid()) as int),
    {
        let ghost c0 = self.circ;
        let w = self.width;
        let n = self.negate_value(mag);
        let ghost c1 = self.circ;
        let r = self.mux(neg, &n, mag);
        proof {
            lemma_grown_trans(&c0, &c1, &self.circ);
            assert forall|s: Assignment| #[trigger] sat(self.circ.cls(), s) implies uval(r@, s) == (if val(neg, s) {
                -uval(mag@, s)
            } else {
                uval(mag@, s)
            }) % (pow2(w as nat) as int) by {
                lemma_sat_back(&c1, &self.circ, s);
                let m = pow2(w as nat) as int;
                lemma_pow2_pos(w as nat);
                lemma_uval_sval_mod(mag@, s);
                lemma_uval_bounds(mag@, s);
                vstd::arithmetic::div_mod::lemma_small_mod(uval(mag@, s) as nat, m as nat);
                if val(neg, s) {
                    vstd::arithmetic::div_mod::lemma_sub_mod_noop(0, sval(mag@, s), m);
                    vstd::arithmetic::div_mod::lemma_sub_mod_noop(0, uval(mag@, s), m);
                    vstd::arithmetic::div_mod::lemma_mod_twice(sval(mag@, s), m);
                }
            }
        }
        r
    }

    /// The sign-magnitude path of signed division: `|a|` divided by `|b|`
    /// unsigned, the quotient given the sign `sign(a) ⊕ sign(b)` and the
    /// remainder the sign of `a`. For a nonzero divisor these are the
    /// truncating quotient (wrapped) and remainder.
    fn signed_div_rem(&mut self, a: &IntVal, b: &IntVal) -> (r: (IntVal, IntVal))
        requires
            old(self).c().wf(),
            a@.len() == old(self).wid(),
            b@.len() == old(self).wid(),
            1 <= old(self).wid() <= 64,
            all_valid(a@, old(self).c().nv()),
            all_valid(b@, old(self).c().nv()),
            old(self).c().nv() + 32 * old(self).wid() * old(self).wid() + 48 * old(self).wid() + 15 <= u32::MAX,
        ensures
            grown(&old(self).c(), &final(self).c()),
            final(self).c().nv() <= old(self).c().nv() + 32 * old(self).wid() * old(self).wid() + 48 * old(self).wid() + 15,
            final(self).wid() == old(self).wid(),
            r.0@.len() == old(self).wid(),
            r.1@.len() == old(self).wid(),
            all_valid(r.0@, final(self).c().nv()),
            all_valid(r.1@, final(self).c().nv()),
            forall|s: Assignment| #[trigger] sat(final(self).c().cls(), s) ==> sval(b@, s) != 0 ==> sval(r.0@, s) == wrap(
                trunc_div(sval(a@, s), sval(b@, s)),
                old(self).wid(),
            ) && sval(r.1@, s) == trunc_rem(sval(a@, s), sval(b@, s)),
    {
        let ghost c0 = self.circ;
        let w = self.width;
        let mag_a = self.signed_magnitude(a);
        let ghost c1 = self.circ;
        let mag_b = self.signed_magnitude(b);
        let ghost c2 = self.circ;
        let (q_mag, r_mag) = self.unsigned_div_rem(&mag_a, &mag_b);
        let ghost c3 = self.circ;
        let sign_q = self.circ.xor(a.bits[w - 1], b.bits[w - 1]);
        let ghost c4 = self.circ;
        let q_signed = self.apply_sign(sign_q, &q_mag);
        let ghost c5 = self.circ;
        let r_signed = self.apply_sign(a.bits[w - 1], &r_mag);
        proof {
            lemma_grown_trans(&c0, &c1, &c2);
            lemma_grown_trans(&c0, &c2, &c3);
            lemma_grown_trans(&c0, &c3, &c4);
            lemma_grown_trans(&c0, &c4, &c5);
            lemma_grown_trans(&c0, &c5, &self.circ);
            assert forall|s: Assignment| #[trigger] sat(self.circ.cls(), s) implies sval(b@, s) != 0 ==> sval(q_signed@, s) == wrap(
                trunc_div(sval(a@, s), sval(b@, s)),
                w as nat,
            ) && sval(r_signed@, s) == trunc_rem(sval(a@, s), sval(b@, s)) by {
                lemma_sat_back(&c5, &self.circ, s);
                lemma_sat_back(&c4, &c5, s);
                lemma_sat_back(&c3, &c4, s);
                lemma_sat_back(&c2, &c3, s);
                lemma_sat_back(&c1, &c2, s);
                if sval(b@, s) != 0 {
                    let aa = sval(a@, s);
                    let bb = sval(b@, s);
                    let m = pow2(w as nat) as int;
                    lemma_sign_and_zero(a@, s);
                    lemma_sign_and_zero(b@, s);
                    lemma_uval_bounds(q_mag@, s);
                    lemma_uval_bounds(r_mag@, s);
                    lemma_pow2_unfold(w as nat);
                    let qq = magnitude(aa) / magnitude(bb);
                    let rr = magnitude(aa) % magnitude(bb);
                    assert(uval(q_mag@, s) == qq);
                    assert(uval(r_mag@, s) == rr);
                    vstd::arithmetic::div_mod::lemma_mod_bound(magnitude(aa), magnitude(bb));
                    lemma_sval_wrap(q_signed@, trunc_div(aa, bb), s);
                    lemma_sval_wrap(r_signed@, trunc_rem(aa, bb), s);
                    lemma_wrap_in_range(trunc_rem(aa, bb), 0, w as nat);
                    assert(trunc_rem(aa, bb) + pow2(w as nat) * 0 == trunc_rem(aa, bb));
                }
            }
        }
        (q_signed, r_signed)
    }

    /// Signed division and remainder. `÷` truncates toward zero and wraps
    /// (the most negative value divided by `−1` gives itself), `mod` takes
    /// the dividend's sign; a zero divisor gives `−sign(a)` for `÷` and the
    /// dividend for `mod`. `÷` overflows on a zero divisor or on the most
    /// negative value divided by `−1`; `mod` overflows on a zero divisor.
    #[verifier::spinoff_prover]
    pub fn div_rem(&mut self, a: &IntVal, b: &IntVal) -> (r: DivRem)
        requires
            old(self).c().wf(),
            a@.len() == old(self).wid(),
            b@.len() == old(self).wid(),
            1 <= old(self).wid() <= 63,
            all_valid(a@, old(self).c().nv()),
            all_valid(b@, old(self).c().nv()),
            old(self).c().nv() + 128 * old(self).wid() * old(self).wid() <= u32::MAX,
        ensures
            grown(&old(self).c(), &final(self).c()),
            final(self).c().nv() <= old(self).c().nv() + 128 * old(self).wid() * old(self).wid(),
            final(self).wid() == old(self).wid(),
            r.quotient@.len() == old(self).wid(),
            r.remainder@.len() == old(self).wid(),
            all_valid(r.quotient@, final(self).c().nv()),
            all_valid(r.remainder@, final(self).c().nv()),
            valid(r.div_overflow, final(self).c().nv()),
            valid(r.rem_overflow, final(self).c().nv()),
            forall|s: Assignment| #[trigger] sat(final(self).c().cls(), s) ==> {
                let aa = sval(a@, s);
                let bb = sval(b@, s);
                &&& sval(r.quotient@, s) == div_value(aa, bb, old(self).wid())
                &&& sval(r.remainder@, s) == rem_value(aa, bb)
                &&& val(r.div_overflow, s) == (bb == 0 || (aa == -pow2((old(self).wid() - 1) as nat) && bb == -1))
                &&& val(r.rem_overflow, s) == (bb == 0)
            },
    {
        let ghost c0 = self.circ;
        let w = self.width;
        proof {
            assert(32 * w * w + 48 * w + 15 + 6 * w + 6 * w + 4 + 6 * w + 2 + 2 <= 128 * w * w) by (nonlinear_arith)
                requires
                    w >= 1,
            ;
        }
        let (q_signed, r_signed) = self.signed_div_rem(a, b);
        let ghost c1 = self.circ;
        let b_zero = self.is_zero(b);
        let ghost g1 = self.circ;
        let a_zero = self.is_zero(a);
        let ghost c2 = self.circ;
        let one = IntVal::constant(1, w);
        let minus_one = IntVal::constant(-1, w);
        let zero = IntVal::constant(0, w);
        let nonneg_branch = self.mux(a_zero, &zero, &minus_one);
        let ghost g2 = self.circ;
        let dbz_val = self.mux(a.bits[w - 1], &one, &nonneg_branch);
        let ghost c3 = self.circ;
        let div = self.mux(b_zero, &dbz_val, &q_signed);
        let ghost g3 = self.circ;
        let rem = self.mux(b_zero, a, &r_signed);
        let ghost c4 = self.circ;
        let m = self.min_val();
        let a_is_min = self.eq(a, &m);
        let ghost g4 = self.circ;
        let b_is_neg1 = self.eq(b, &minus_one);
        let ghost c5 = self.circ;
        let min_neg1 = self.circ.and(a_is_min, b_is_neg1);
        let ghost g5 = self.circ;
        let div_overflow = self.circ.or(b_zero, min_neg1);
        proof {
            lemma_grown_trans(&c0, &c1, &g1);
            lemma_grown_trans(&c0, &g1, &c2);
            lemma_grown_trans(&c0, &c2, &g2);
            lemma_grown_trans(&c0, &g2, &c3);
            lemma_grown_trans(&c0, &c3, &g3);
            lemma_grown_trans(&c0, &g3, &c4);
            lemma_grown_trans(&c0, &c4, &g4);
            lemma_grown_trans(&c0, &g4, &c5);
            lemma_grown_trans(&c0, &c5, &g5);
            lemma_grown_trans(&c0, &g5, &self.circ);
            assert forall|s: Assignment| #[trigger] sat(self.circ.cls(), s) implies {
                let aa = sval(a@, s);
                let bb = sval(b@, s);
                &&& sval(div@, s) == div_value(aa, bb, w as nat)
                &&& sval(rem@, s) == rem_value(aa, bb)
                &&& val(div_overflow, s) == (bb == 0 || (aa == -pow2((w - 1) as nat) && bb == -1))
                &&& val(b_zero, s) == (bb == 0)
            } by {
                lemma_sat_back(&g5, &self.circ, s);
                lemma_sat_back(&c5, &g5, s);
                lemma_sat_back(&g4, &c5, s);
                lemma_sat_back(&c4, &g4, s);
                lemma_sat_back(&g3, &c4, s);
                lemma_sat_back(&c3, &g3, s);
                lemma_sat_back(&g2, &c3, s);
                lemma_sat_back(&c2, &g2, s);
                lemma_sat_back(&g1, &c2, s);
                lemma_sat_back(&c1, &g1, s);
                lemma_sign_and_zero(a@, s);
                lemma_sign_and_zero(b@, s);
                lemma_pow2_unfold(w as nat);
                lemma_pow2_pos((w - 1) as nat);
                lemma_wrap_in_range(0, 0, w as nat);
                lemma_wrap_in_range(-1, 0, w as nat);
                assert(0 + pow2(w as nat) * 0 == 0);
                assert(-1 + pow2(w as nat) * 0 == -1);
            }
        }
        DivRem { quotient: div, remainder: rem, div_overflow, rem_overflow: b_zero }
    }

    /// Whether two neighbouring bits of `bits` differ between bit `lo` and
    /// the top bit: the disjunction of the neighbours' `xor`s.
    fn transitions(&mut self, bits: &[Bool], lo: usize) -> (r: Bool)
        requires
            old(self).c().wf(),
            lo < bits@.len(),
            all_valid(bits@, old(self).c().nv()),
            old(self).c().nv() + 3 * bits@.len() + 1 <= u32::MAX,
        ensures
            grown(&old(self).c(), &final(self).c()),
            final(self).c().nv() <= old(self).c().nv() + 3 * bits@.len() + 1,
            final(self).wid() == old(self).wid(),
            valid(r, final(self).c().nv()),
            forall|s: Assignment| #[trigger] sat(final(self).c().cls(), s) ==> val(r, s) == exists|j: int|
                lo <= j < bits@.len() - 1 && #[trigger] differs_at(bits@, j, s),
    {
        let ghost c0 = self.circ;
        proof {
            lemma_grown_refl(&c0);
        }
        let top = bits.len() - 1;
        let mut pairs: Vec<Bool> = Vec::new();
        let mut j: usize = lo;
        while j < top
            invariant
                lo <= j,
                lo <= top,
                top == bits@.len() - 1,
                j <= top || j == lo,
                self.width == old(self).width,
                c0.wf(),
                all_valid(bits@, c0.nv()),
                c0.nv() + 3 * bits@.len() + 1 <= u32::MAX,
                grown(&c0, &self.circ),
                self.circ.nv() <= c0.nv() + 3 * (j - lo),
                pairs@.len() == j - lo,
                all_valid(pairs@, self.circ.nv()),
                forall|s: Assignment| #[trigger] sat(self.circ.cls(), s) ==> forall|t: int| 0 <= t < pairs@.len() ==> val(#[trigger] pairs@[t], s)
                    == differs_at(bits@, lo + t, s),
            decreases top - j,
        {
            let ghost c1 = self.circ;
            let ghost p0 = pairs@;
            let x = self.circ.xor(bits[j], bits[j + 1]);
            pairs.push(x);
            proof {
                lemma_grown_trans(&c0, &c1, &self.circ);
                assert forall|s: Assignment| #[trigger] sat(self.circ.cls(), s) implies forall|t: int| 0 <= t < pairs@.len() ==> val(#[trigger] pairs@[t], s)
                    == differs_at(bits@, lo + t, s) by {
                    lemma_sat_back(&c1, &self.circ, s);
                    assert forall|t: int| 0 <= t < pairs@.len() implies val(#[trigger] pairs@[t], s) == differs_at(bits@, lo + t, s) by {
                        if t < p0.len() {
                            assert(pairs@[t] == p0[t]);
                        }
                    }
                }
            }
            j = j + 1;
        }
        let ghost c2 = self.circ;
        let ghost ps = pairs@;
        let r = self.circ.or_many(pairs);
        proof {
            lemma_grown_trans(&c0, &c2, &self.circ);
            assert forall|s: Assignment| #[trigger] sat(self.circ.cls(), s) implies val(r, s) == exists|j: int|
                lo <= j < bits@.len() - 1 && #[trigger] differs_at(bits@, j, s) by {
                lemma_sat_back(&c2, &self.circ, s);
                if any_true(ps, s) {
                    let t = choose|t: int| 0 <= t < ps.len() && val(#[trigger] ps[t], s);
                    assert(differs_at(bits@, lo + t, s));
                }
                if exists|j: int| lo <= j < bits@.len() - 1 && #[trigger] differs_at(bits@, j, s) {
                    let j = choose|j: int| lo <= j < bits@.len() - 1 && #[trigger] differs_at(bits@, j, s);
                    assert(val(ps[j - lo], s));
                }
            }
        }
        r
    }

    /// Adds one bit into an unsigned accumulator, widening by one bit when
    /// the carry escapes: the result holds the exact sum.
    pub fn add_bit(&mut self, acc: &[Bool], b: Bool) -> (out: Vec<Bool>)
        requires
            old(self).c().wf(),
            all_valid(acc@, old(self).c().nv()),
            valid(b, old(self).c().nv()),
            old(self).c().nv() + 9 * acc@.len() <= u32::MAX,
        ensures
            grown(&old(self).c(), &final(self).c()),
            final(self).c().nv() <= old(self).c().nv() + 9 * acc@.len(),
            final(self).wid() == old(self).wid(),
            all_valid(out@, final(self).c().nv()),
            acc@.len() <= out@.len() <= acc@.len() + 1,
            forall|s: Assignment| #[trigger] sat(final(self).c().cls(), s) ==> uval(out@, s) == uval(acc@, s) + bit(b, s),
    {
        let ghost c0 = self.circ;
        proof {
            lemma_grown_refl(&c0);
            vstd::arithmetic::power2::lemma2_to64();
            assert(acc@.take(0) =~= Seq::<Bool>::empty());
        }
        let mut out: Vec<Bool> = Vec::new();
        let mut carry = b;
        proof {
            assert(out@ =~= Seq::<Bool>::empty());
        }
        let mut i: usize = 0;
        while i < acc.len()
            invariant
                i <= acc@.len(),
                c0.wf(),
                all_valid(acc@, c0.nv()),
                valid(b, c0.nv()),
                c0.nv() + 9 * acc@.len() <= u32::MAX,
                grown(&c0, &self.circ),
                self.circ.nv() <= c0.nv() + 9 * i,
                self.width == old(self).width,
                out@.len() == i,
                all_valid(out@, self.circ.nv()),
                valid(carry, self.circ.nv()),
                forall|s: Assignment| #[trigger] sat(self.circ.cls(), s) ==> uval(out@, s) + pow2(i as nat) * bit(carry, s) == uval(
                    acc@.take(i as int),
                    s,
                ) + bit(b, s),
            decreases acc@.len() - i,
        {
            let ghost c1 = self.circ;
            let ghost o0 = out@;
            let ghost cy = carry;
            let (sm, cr) = self.full_add(acc[i], Bool::Const(false), carry);
            out.push(sm);
            carry = cr;
            proof {
                lemma_grown_trans(&c0, &c1, &self.circ);
                assert(acc@.take(i + 1) =~= acc@.take(i as int).push(acc@[i as int]));
                assert forall|s: Assignment| #[trigger] sat(self.circ.cls(), s) implies uval(out@, s) + pow2((i + 1) as nat) * bit(carry, s)
                    == uval(acc@.take(i + 1), s) + bit(b, s) by {
                    lemma_sat_back(&c1, &self.circ, s);
                    lemma_uval_push(o0, sm, s);
                    lemma_uval_push(acc@.take(i as int), acc@[i as int], s);
                    lemma_pow2_unfold((i + 1) as nat);
                    assert(pow2(i as nat) * bit(acc@[i as int], s) + pow2(i as nat) * bit(cy, s) == pow2(i as nat) * bit(sm, s)
                        + 2 * pow2(i as nat) * bit(carry, s)) by (nonlinear_arith)
                        requires
                            bit(acc@[i as int], s) + 0 + bit(cy, s) == bit(sm, s) + 2 * bit(carry, s),
                    ;
                }
            }
            i = i + 1;
        }
        proof {
            assert(acc@.take(i as int) =~= acc@);
        }
        let ghost o1 = out@;
        if let Bool::Const(false) = carry {
        } else {
            out.push(carry);
        }
        proof {
            assert forall|s: Assignment| #[trigger] sat(self.circ.cls(), s) implies uval(out@, s) == uval(acc@, s) + bit(b, s) by {
                lemma_uval_push(o1, carry, s);
            }
        }
        out
    }
}

} // verus!
