use als_core::circuit::{Bool, Circuit, Cnf, Lit, Var};
use als_core::encode::integer::{IntBuilder, IntVal};

/// Reads an all-constant value back to its signed value; panics on a live
/// literal, which would mean a fold minted a gate.
fn to_i64(v: &IntVal) -> i64 {
    let w = v.width();
    let mut u: i64 = 0;
    for (i, &b) in v.bits().iter().enumerate() {
        match b {
            Bool::Const(true) => u |= 1 << i,
            Bool::Const(false) => {}
            Bool::Lit(_) => panic!("non-constant bit {i} in a constant fold"),
        }
    }
    if u & (1 << (w - 1)) != 0 {
        u - (1 << w)
    } else {
        u
    }
}

fn const_bool(b: Bool) -> bool {
    match b {
        Bool::Const(x) => x,
        Bool::Lit(_) => panic!("non-constant flag in a constant fold"),
    }
}

/// Two's-complement wrap of `value` to `w` bits, read signed.
fn wrap(value: i64, w: u32) -> i64 {
    let modulus = 1i64 << w;
    let m = value.rem_euclid(modulus);
    if m >= (1 << (w - 1)) {
        m - modulus
    } else {
        m
    }
}

/// `−sign(a)` on a zero divisor, else the wrapped truncating quotient.
fn jar_div(a: i64, b: i64, w: u32) -> i64 {
    if b == 0 {
        if a < 0 {
            1
        } else if a == 0 {
            0
        } else {
            -1
        }
    } else {
        wrap(a / b, w)
    }
}

/// The dividend on a zero divisor, else the truncating remainder.
fn jar_rem(a: i64, b: i64) -> i64 {
    if b == 0 {
        a
    } else {
        a % b
    }
}

/// Runs `build` on a fresh circuit and checks it minted no variable.
fn folded<T>(w: usize, build: impl FnOnce(&mut IntBuilder) -> T) -> T {
    let mut ib = IntBuilder::new(Circuit::new(Cnf::new()), w);
    let out = build(&mut ib);
    let circ = ib.into_circuit();
    assert_eq!(circ.cnf().num_vars(), 0, "constant fold minted a variable");
    out
}

fn fold_bin(a: i64, b: i64, w: usize, build: impl FnOnce(&mut IntBuilder, &IntVal, &IntVal) -> IntVal) -> i64 {
    let out = folded(w, |ib| build(ib, &IntVal::constant(a, w), &IntVal::constant(b, w)));
    to_i64(&out)
}

#[test]
fn div_rem_match_the_jar_tables_exhaustively() {
    let w = 4usize;
    for a in -8..=7i64 {
        for b in -8..=7i64 {
            let dr = folded(w, |ib| ib.div_rem(&IntVal::constant(a, w), &IntVal::constant(b, w)));
            assert_eq!(to_i64(&dr.quotient), jar_div(a, b, 4), "div[{a},{b}] mismatch");
            assert_eq!(to_i64(&dr.remainder), jar_rem(a, b), "rem[{a},{b}] mismatch");
            assert_eq!(const_bool(dr.div_overflow), b == 0 || (a == -8 && b == -1), "div overflow[{a},{b}]");
            assert_eq!(const_bool(dr.rem_overflow), b == 0, "rem overflow[{a},{b}]");
        }
    }
}

#[test]
fn add_sub_mul_wrap_and_flag_overflow_exhaustively() {
    let w = 4usize;
    for a in -8..=7i64 {
        for b in -8..=7i64 {
            let (sum, sof, sub, subof, mul, mof) = folded(w, |ib| {
                let av = IntVal::constant(a, w);
                let bv = IntVal::constant(b, w);
                let (s, sof) = ib.add_signed(&av, &bv);
                let (d, dof) = ib.sub_signed(&av, &bv);
                let (m, mof) = ib.multiply(&av, &bv);
                (to_i64(&s), const_bool(sof), to_i64(&d), const_bool(dof), to_i64(&m), const_bool(mof))
            });
            assert_eq!(sum, wrap(a + b, 4), "add[{a},{b}]");
            assert_eq!(sof, !(-8..=7).contains(&(a + b)), "add overflow[{a},{b}]");
            assert_eq!(sub, wrap(a - b, 4), "sub[{a},{b}]");
            assert_eq!(subof, !(-8..=7).contains(&(a - b)), "sub overflow[{a},{b}]");
            assert_eq!(mul, wrap(a * b, 4), "mul[{a},{b}]");
            assert_eq!(mof, !(-8..=7).contains(&(a * b)), "mul overflow[{a},{b}]");
        }
    }
}

#[test]
fn negate_wraps_and_flags_min() {
    let w = 4usize;
    for a in -8..=7i64 {
        let (v, of) = folded(w, |ib| ib.negate(&IntVal::constant(a, w)));
        assert_eq!(to_i64(&v), wrap(-a, 4), "negate[{a}]");
        assert_eq!(const_bool(of), a == -8, "negate overflow[{a}]");
    }
}

/// The mask width `⌈log2 w⌉`.
fn ref_mask(w: usize) -> usize {
    if w <= 1 {
        0
    } else {
        (usize::BITS - (w as u64 - 1).leading_zeros()) as usize
    }
}

/// The unsigned `w`-bit pattern of a signed value.
fn a_pat(v: i64, w: usize) -> u64 {
    (v.rem_euclid(1i64 << w)) as u64
}

/// Reference left shift: the value, and the stage-by-stage overflow check
/// over every amount bit.
fn ref_shl(a: i64, b: i64, w: usize) -> (i64, bool) {
    let modw = 1i64 << w;
    let bpat = a_pat(b, w);
    let mut s = a_pat(a, w);
    let mask = ref_mask(w);
    let bit = |v: u64, i: usize| (v >> i) & 1 == 1;
    let mut of = false;
    for i in 0..w {
        let k = if i < 63 { 1usize << i } else { w };
        let lo = (w - 1).saturating_sub(k);
        let mut changes = false;
        for j in lo..(w - 1) {
            changes |= bit(s, j) != bit(s, j + 1);
        }
        of |= bit(bpat, i) && changes;
        if i < mask && bit(bpat, i) {
            s = (s << k) & (modw as u64 - 1);
        }
    }
    (wrap(s as i64, w as u32), of)
}

fn ref_shr(a: i64, b: i64, w: usize, arith: bool) -> i64 {
    let mask = ref_mask(w);
    let amt = (a_pat(b, w) & ((1u64 << mask) - 1)) as usize;
    if amt >= w {
        return if arith && a < 0 { -1 } else { 0 };
    }
    if arith {
        a >> amt
    } else {
        wrap((a_pat(a, w) >> amt) as i64, w as u32)
    }
}

fn fold_shl(a: i64, b: i64, w: usize) -> (i64, bool) {
    let (v, of) = folded(w, |ib| ib.shl(&IntVal::constant(a, w), &IntVal::constant(b, w)));
    (to_i64(&v), const_bool(of))
}

#[test]
fn shifts_match_reference_and_pinned_cells() {
    let w = 4usize;
    assert_eq!(fold_shl(4, 1, w).0, wrap(8, 4));
    assert_eq!(fold_bin(-8, 1, w, |ib, a, b| ib.sha(a, b)), -4);
    assert_eq!(fold_bin(-8, 1, w, |ib, a, b| ib.shr(a, b)), 4);
    assert_eq!(fold_bin(4, 1, w, |ib, a, b| ib.shr(a, b)), 2);

    assert_eq!(fold_shl(5, 4, 4), (5, true), "5<<4: junk-bit overflow");
    assert_eq!(fold_shl(3, 4, 4), (3, true), "3<<4: junk-bit overflow");
    assert_eq!(fold_shl(0, 4, 4), (0, false), "0<<4: uniform, no trigger");
    assert_eq!(fold_shl(1, 4, 4), (1, true), "1<<4: junk-bit overflow");
    assert_eq!(fold_shl(5, 0, 4), (5, false), "5<<0: no shift, no overflow");
    assert_eq!(fold_shl(4, 1, 4), (wrap(8, 4), true), "4<<1: genuine wrap");

    assert_eq!(fold_shl(1, 4, 3).0, 1, "1<<4 at bw3 = 1 (mask 2)");
    assert_eq!(fold_shl(1, 8, 5).0, 1, "1<<8 at bw5 = 1 (mask 3)");
    assert_eq!(fold_shl(1, 6, 6).0, 0, "1<<6 at bw6 = 0 (masked 6 >= w)");

    for a in -8..=7i64 {
        for b in -8..=7i64 {
            assert_eq!(fold_shl(a, b, 4), ref_shl(a, b, 4), "shl[{a},{b}]");
            assert_eq!(fold_bin(a, b, 4, |ib, x, y| ib.shr(x, y)), ref_shr(a, b, 4, false), "shr[{a},{b}]");
            assert_eq!(fold_bin(a, b, 4, |ib, x, y| ib.sha(x, y)), ref_shr(a, b, 4, true), "sha[{a},{b}]");
        }
    }
}

/// Unit propagation, then a split on the first open variable.
fn search(assign: &mut Vec<Option<bool>>, clauses: &[Vec<Lit>]) -> bool {
    loop {
        let mut changed = false;
        for c in clauses {
            let mut open: Option<Lit> = None;
            let mut open_count = 0;
            let mut satisfied = false;
            for l in c {
                match assign[l.var.index as usize] {
                    Some(v) => {
                        if v != l.negated {
                            satisfied = true;
                        }
                    }
                    None => {
                        open = Some(*l);
                        open_count += 1;
                    }
                }
            }
            if satisfied {
                continue;
            }
            if open_count == 0 {
                return false;
            }
            if open_count == 1 {
                let l = open.unwrap();
                assign[l.var.index as usize] = Some(!l.negated);
                changed = true;
            }
        }
        if !changed {
            break;
        }
    }
    match assign.iter().position(|v| v.is_none()) {
        None => true,
        Some(i) => {
            for guess in [false, true] {
                let mut next = assign.clone();
                next[i] = Some(guess);
                if search(&mut next, clauses) {
                    return true;
                }
            }
            false
        }
    }
}

/// Satisfiability by unit propagation and splitting (enough for the small
/// formulas here).
fn satisfiable(n: usize, clauses: &[Vec<Lit>]) -> bool {
    let mut assign = vec![None; n];
    search(&mut assign, clauses)
}

/// Counts `n` one-bit inputs into a signed value and checks whether the
/// model with every input true can make the count equal `target`.
fn card_equals(n: usize, target: i64, width: usize) -> bool {
    let mut cnf = Cnf::new();
    let vars: Vec<Var> = (0..n).map(|_| cnf.fresh_var()).collect();
    let mut ib = IntBuilder::new(Circuit::new(cnf), width);
    let mut acc = vec![Bool::Const(false)];
    for &v in &vars {
        acc = ib.add_bit(&acc, Bool::Lit(Lit::positive(v)));
    }
    let (val, _ovf) = ib.unsigned_to_signed(&acc);
    let konst = IntVal::constant(target, width);
    let eq = ib.eq(&val, &konst);
    let mut cnf = ib.into_circuit().into_cnf();
    for &v in &vars {
        cnf.add_clause(vec![Lit::positive(v)]);
    }
    match eq {
        Bool::Const(b) => b,
        Bool::Lit(l) => {
            cnf.add_clause(vec![l]);
            satisfiable(cnf.num_vars() as usize, cnf.clauses())
        }
    }
}

#[test]
fn cardinality_counts_exactly() {
    assert!(card_equals(3, 3, 4), "three ones count to 3");
    assert!(!card_equals(3, 2, 4), "three ones do not count to 2");
    assert!(card_equals(5, 5, 4), "five ones count to 5 (fits bitwidth 4)");
}

#[test]
fn signed_lt_orders_negatives_below_positives() {
    let (lt1, lt2, eqn) = folded(4, |ib| {
        let neg1 = IntVal::constant(-1, 4);
        let pos1 = IntVal::constant(1, 4);
        let a = ib.signed_lt(&neg1, &pos1);
        let b = ib.signed_lt(&pos1, &neg1);
        let e = ib.eq(&neg1, &neg1);
        (a, b, e)
    });
    assert_eq!(lt1, Bool::Const(true));
    assert_eq!(lt2, Bool::Const(false));
    assert_eq!(eqn, Bool::Const(true));
}

#[test]
fn add_signed_wraps_and_flags_overflow() {
    let (val_is_neg8, overflow) = folded(4, |ib| {
        let seven = IntVal::constant(7, 4);
        let one = IntVal::constant(1, 4);
        let (sum, ovf) = ib.add_signed(&seven, &one);
        let neg8 = IntVal::constant(-8, 4);
        (ib.eq(&sum, &neg8), ovf)
    });
    assert_eq!(val_is_neg8, Bool::Const(true), "7+1 wraps to -8");
    assert_eq!(overflow, Bool::Const(true), "signed overflow flagged");
    let (val5, ovf2) = folded(4, |ib| {
        let (sum, ovf) = ib.add_signed(&IntVal::constant(2, 4), &IntVal::constant(3, 4));
        (ib.eq(&sum, &IntVal::constant(5, 4)), ovf)
    });
    assert_eq!(val5, Bool::Const(true));
    assert_eq!(ovf2, Bool::Const(false));
}

#[test]
fn comparisons_match_signed_order_exhaustively() {
    for a in -4..=3i64 {
        for b in -4..=3i64 {
            let (lt, le, gt, ge, eq) = folded(3, |ib| {
                let av = IntVal::constant(a, 3);
                let bv = IntVal::constant(b, 3);
                (
                    const_bool(ib.signed_lt(&av, &bv)),
                    const_bool(ib.signed_le(&av, &bv)),
                    const_bool(ib.signed_gt(&av, &bv)),
                    const_bool(ib.signed_ge(&av, &bv)),
                    const_bool(ib.eq(&av, &bv)),
                )
            });
            assert_eq!((lt, le, gt, ge, eq), (a < b, a <= b, a > b, a >= b, a == b), "compare[{a},{b}]");
        }
    }
}

#[test]
fn multiply_at_width_one_and_five() {
    for a in -1..=0i64 {
        for b in -1..=0i64 {
            let (m, of) = folded(1, |ib| {
                let (m, of) = ib.multiply(&IntVal::constant(a, 1), &IntVal::constant(b, 1));
                (to_i64(&m), const_bool(of))
            });
            assert_eq!(m, wrap(a * b, 1), "mul1[{a},{b}]");
            assert_eq!(of, a * b != wrap(a * b, 1), "mul1 overflow[{a},{b}]");
        }
    }
    let (m, of) = folded(5, |ib| {
        let (m, of) = ib.multiply(&IntVal::constant(-16, 5), &IntVal::constant(-1, 5));
        (to_i64(&m), const_bool(of))
    });
    assert_eq!((m, of), (-16, true), "MIN * -1 wraps and overflows");
}

#[test]
fn constants_read_back_and_mux_selects() {
    for v in -8..=7i64 {
        assert_eq!(to_i64(&IntVal::constant(v, 4)), v);
    }
    assert_eq!(to_i64(&IntVal::constant(9, 4)), -7, "out-of-range literal keeps its low bits");
    let picked = folded(4, |ib| {
        let a = IntVal::constant(3, 4);
        let b = IntVal::constant(-5, 4);
        let x = ib.mux(Bool::Const(true), &a, &b);
        let y = ib.mux(Bool::Const(false), &a, &b);
        (to_i64(&x), to_i64(&y), const_bool(ib.is_zero(&IntVal::constant(0, 4))))
    });
    assert_eq!(picked, (3, -5, true));
}
