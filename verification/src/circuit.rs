//! A small deterministic boolean circuit → CNF layer (Tseitin encoding).
//!
//! A [`Bool`] is a constant or a single literal. Gate constructors fold
//! constants away and, when a genuine gate remains, mint one fresh auxiliary
//! variable and emit its defining clauses.
//!
//! Every gate is specified semantically: the new clauses extend the old ones
//! (any assignment satisfying the old clauses extends, on the old variables
//! unchanged, to one satisfying the new ones), and under every assignment that
//! satisfies the new clauses the result has the value of that gate's function
//! of its inputs.

use vstd::prelude::*;

verus! {

/// A propositional variable of the CNF, numbered densely from 0.
#[derive(Clone, Copy, PartialEq, Eq, PartialOrd, Ord, Debug, Structural)]
pub struct Var {
    /// The variable's number.
    pub index: u32,
}

/// A variable or its negation.
#[derive(Clone, Copy, PartialEq, Eq, PartialOrd, Ord, Debug, Structural)]
pub struct Lit {
    /// The variable.
    pub var: Var,
    /// Whether the literal is the variable's negation.
    pub negated: bool,
}

impl Lit {
    /// The positive literal of `v`.
    pub fn positive(v: Var) -> (l: Lit)
        ensures
            l == (Lit { var: v, negated: false }),
    {
        Lit { var: v, negated: false }
    }

    /// The complementary literal.
    pub fn negate(self) -> (l: Lit)
        ensures
            l == (Lit { var: self.var, negated: !self.negated }),
    {
        Lit { var: self.var, negated: !self.negated }
    }

    /// A dense, injective numbering of literals: `2·var + negated`.
    pub fn code(self) -> (c: u64)
        ensures
            c == 2 * self.var.index + (if self.negated { 1int } else { 0int }),
    {
        2 * (self.var.index as u64) + if self.negated { 1 } else { 0 }
    }
}

/// A truth assignment to the variables.
pub type Assignment = spec_fn(nat) -> bool;

/// The value of a literal under an assignment.
pub open spec fn lit_val(l: Lit, s: Assignment) -> bool {
    s(l.var.index as nat) != l.negated
}

/// A clause holds when one of its literals does.
pub open spec fn clause_sat(c: Seq<Lit>, s: Assignment) -> bool {
    exists|i: int| 0 <= i < c.len() && #[trigger] lit_val(c[i], s)
}

/// All clauses hold.
pub open spec fn sat(cs: Seq<Seq<Lit>>, s: Assignment) -> bool {
    forall|i: int| 0 <= i < cs.len() ==> #[trigger] clause_sat(cs[i], s)
}

/// Two assignments agree on the variables below `n`.
pub open spec fn agree(s: Assignment, t: Assignment, n: nat) -> bool {
    forall|v: nat| v < n ==> #[trigger] s(v) == t(v)
}

/// Every literal of every clause names a variable below `n`.
pub open spec fn clauses_below(cs: Seq<Seq<Lit>>, n: nat) -> bool {
    forall|i: int, j: int|
        0 <= i < cs.len() && 0 <= j < cs[i].len() ==> (#[trigger] cs[i][j]).var.index < n
}

/// The CNF `(n1, c1)` extends `(n0, c0)`: more variables, the old clauses as a
/// prefix, and every assignment satisfying the old clauses extends, unchanged
/// below `n0`, to one satisfying the new clauses.
pub open spec fn extends(n0: nat, c0: Seq<Seq<Lit>>, n1: nat, c1: Seq<Seq<Lit>>) -> bool {
    &&& n0 <= n1
    &&& c0.len() <= c1.len()
    &&& c1.take(c0.len() as int) == c0
    &&& forall|s: Assignment|
        #[trigger] sat(c0, s) ==> exists|t: Assignment| agree(s, t, n0) && #[trigger] sat(c1, t)
}

/// The clauses so far and the number of variables minted.
pub struct Cnf {
    num_vars: u32,
    clauses: Vec<Vec<Lit>>,
}

/// The views of a list of clauses.
pub open spec fn clause_views(cs: Seq<Vec<Lit>>) -> Seq<Seq<Lit>> {
    cs.map_values(|c: Vec<Lit>| c@)
}

impl Cnf {
    /// Number of variables minted.
    pub closed spec fn nv(&self) -> nat {
        self.num_vars as nat
    }

    /// The clauses, in insertion order.
    pub closed spec fn cls(&self) -> Seq<Seq<Lit>> {
        clause_views(self.clauses@)
    }

    /// Well-formedness: every clause names minted variables only.
    pub open spec fn wf(&self) -> bool {
        clauses_below(self.cls(), self.nv())
    }

    /// An empty CNF: no variables, no clauses.
    pub fn new() -> (c: Cnf)
        ensures
            c.wf(),
            c.nv() == 0,
            c.cls() == Seq::<Seq<Lit>>::empty(),
    {
        let c = Cnf { num_vars: 0, clauses: Vec::new() };
        assert(c.cls() =~= Seq::<Seq<Lit>>::empty());
        c
    }

    /// Mints the next variable.
    pub fn fresh_var(&mut self) -> (v: Var)
        requires
            old(self).nv() < u32::MAX,
        ensures
            v.index == old(self).nv(),
            final(self).nv() == old(self).nv() + 1,
            final(self).cls() == old(self).cls(),
    {
        let v = Var { index: self.num_vars };
        self.num_vars = self.num_vars + 1;
        v
    }

    /// Appends a clause.
    pub fn add_clause(&mut self, clause: Vec<Lit>)
        ensures
            final(self).nv() == old(self).nv(),
            final(self).cls() == old(self).cls().push(clause@),
    {
        let ghost c = clause@;
        self.clauses.push(clause);
        assert(self.cls() =~= old(self).cls().push(c));
    }

    /// Number of variables minted.
    pub fn num_vars(&self) -> (n: u32)
        ensures
            n == self.nv(),
    {
        self.num_vars
    }

    /// The clauses, in insertion order.
    pub fn clauses(&self) -> (c: &[Vec<Lit>])
        ensures
            clause_views(c@) == self.cls(),
    {
        self.clauses.as_slice()
    }
}

/// A boolean value in the circuit: a constant or a single literal.
#[derive(Copy, Clone, PartialEq, Eq, Debug, Structural)]
pub enum Bool {
    /// A compile-time constant.
    Const(bool),
    /// A solver literal (primary or Tseitin auxiliary).
    Lit(Lit),
}

/// The value of a [`Bool`] under an assignment.
pub open spec fn val(b: Bool, s: Assignment) -> bool {
    match b {
        Bool::Const(x) => x,
        Bool::Lit(l) => lit_val(l, s),
    }
}

/// A [`Bool`] names only variables below `n`.
pub open spec fn valid(b: Bool, n: nat) -> bool {
    match b {
        Bool::Const(_) => true,
        Bool::Lit(l) => l.var.index < n,
    }
}

/// Every item names only variables below `n`.
pub open spec fn all_valid(items: Seq<Bool>, n: nat) -> bool {
    forall|i: int| 0 <= i < items.len() ==> valid(#[trigger] items[i], n)
}

/// Every item holds.
pub open spec fn all_true(items: Seq<Bool>, s: Assignment) -> bool {
    forall|i: int| 0 <= i < items.len() ==> val(#[trigger] items[i], s)
}

/// Some item holds.
pub open spec fn any_true(items: Seq<Bool>, s: Assignment) -> bool {
    exists|i: int| 0 <= i < items.len() && val(#[trigger] items[i], s)
}

/// The literals among `items`, in order.
pub open spec fn lits_of(items: Seq<Bool>) -> Seq<Lit>
    decreases items.len(),
{
    if items.len() == 0 {
        Seq::empty()
    } else {
        let rest = lits_of(items.drop_last());
        match items.last() {
            Bool::Const(_) => rest,
            Bool::Lit(l) => rest.push(l),
        }
    }
}

/// Whether some item is the constant `x`.
pub open spec fn has_const(items: Seq<Bool>, x: bool) -> bool {
    exists|k: int| 0 <= k < items.len() && #[trigger] items[k] == Bool::Const(x)
}

/// The positive literal of the variable numbered `n`: the output of a gate
/// minted when `n` variables exist.
pub open spec fn gate_lit(n: nat) -> Lit {
    Lit { var: Var { index: n as u32 }, negated: false }
}

/// Without a constant `false`, all items hold exactly when all their
/// literals do; without a constant `true`, some item holds exactly when one
/// of its literals does.
pub proof fn lemma_lits_of_sem(items: Seq<Bool>, s: Assignment)
    ensures
        !has_const(items, false) ==> all_true(items, s) == all_lits(lits_of(items), s),
        !has_const(items, true) ==> any_true(items, s) == any_lit(lits_of(items), s),
    decreases items.len(),
{
    if items.len() > 0 {
        let init = items.drop_last();
        lemma_lits_of_sem(init, s);
        let rest = lits_of(init);
        let last = items.last();
        assert forall|k: int| 0 <= k < init.len() implies #[trigger] init[k] == items[k] by {}
        if !has_const(items, false) {
            assert(!has_const(init, false)) by {
                if has_const(init, false) {
                    let k = choose|k: int| 0 <= k < init.len() && #[trigger] init[k] == Bool::Const(false);
                    assert(items[k] == Bool::Const(false));
                }
            }
            assert(last != Bool::Const(false)) by {
                if last == Bool::Const(false) {
                    assert(items[items.len() - 1] == Bool::Const(false));
                }
            }
            if all_true(items, s) {
                assert(all_true(init, s)) by {
                    assert forall|k: int| 0 <= k < init.len() implies val(#[trigger] init[k], s) by {
                        assert(val(items[k], s));
                    }
                }
                assert(val(items[items.len() - 1], s));
                assert(all_lits(lits_of(items), s)) by {
                    match last {
                        Bool::Const(_) => {},
                        Bool::Lit(l) => {
                            assert forall|k: int| 0 <= k < rest.push(l).len() implies #[trigger] lit_val(rest.push(l)[k], s) by {
                                if k < rest.len() {
                                    assert(lit_val(rest[k], s));
                                }
                            }
                        },
                    }
                }
            }
            if all_lits(lits_of(items), s) {
                match last {
                    Bool::Const(_) => {},
                    Bool::Lit(l) => {
                        assert forall|k: int| 0 <= k < rest.len() implies #[trigger] lit_val(rest[k], s) by {
                            assert(lit_val(rest.push(l)[k], s));
                        }
                        assert(lit_val(rest.push(l)[rest.len() as int], s));
                    },
                }
                assert forall|k: int| 0 <= k < items.len() implies val(#[trigger] items[k], s) by {
                    if k < init.len() {
                        assert(val(init[k], s));
                    }
                }
            }
        }
        if !has_const(items, true) {
            assert(!has_const(init, true)) by {
                if has_const(init, true) {
                    let k = choose|k: int| 0 <= k < init.len() && #[trigger] init[k] == Bool::Const(true);
                    assert(items[k] == Bool::Const(true));
                }
            }
            assert(last != Bool::Const(true)) by {
                if last == Bool::Const(true) {
                    assert(items[items.len() - 1] == Bool::Const(true));
                }
            }
            if any_true(items, s) {
                let k = choose|k: int| 0 <= k < items.len() && val(#[trigger] items[k], s);
                if k < init.len() {
                    assert(val(init[k], s));
                    assert(any_lit(rest, s));
                    let j = choose|j: int| 0 <= j < rest.len() && #[trigger] lit_val(rest[j], s);
                    match last {
                        Bool::Const(_) => {},
                        Bool::Lit(l) => {
                            assert(lit_val(rest.push(l)[j], s));
                        },
                    }
                } else {
                    match last {
                        Bool::Const(_) => {},
                        Bool::Lit(l) => {
                            assert(lit_val(rest.push(l)[rest.len() as int], s));
                        },
                    }
                }
            }
            if any_lit(lits_of(items), s) {
                match last {
                    Bool::Const(_) => {
                        let j = choose|j: int| 0 <= j < rest.len() && #[trigger] lit_val(rest[j], s);
                        assert(any_lit(rest, s));
                        let k = choose|k: int| 0 <= k < init.len() && val(#[trigger] init[k], s);
                        assert(val(items[k], s));
                    },
                    Bool::Lit(l) => {
                        let j = choose|j: int| 0 <= j < rest.push(l).len() && #[trigger] lit_val(rest.push(l)[j], s);
                        if j < rest.len() {
                            assert(lit_val(rest[j], s));
                            assert(any_lit(rest, s));
                            let k = choose|k: int| 0 <= k < init.len() && val(#[trigger] init[k], s);
                            assert(val(items[k], s));
                        } else {
                            assert(val(items[items.len() - 1], s));
                        }
                    },
                }
            }
        }
    }
}

/// The literals of valid items are valid.
pub proof fn lemma_lits_of_below(items: Seq<Bool>, n: nat)
    requires
        all_valid(items, n),
    ensures
        lits_below(lits_of(items), n),
    decreases items.len(),
{
    if items.len() > 0 {
        let init = items.drop_last();
        assert forall|k: int| 0 <= k < init.len() implies valid(#[trigger] init[k], n) by {
            assert(valid(items[k], n));
        }
        lemma_lits_of_below(init, n);
        assert(valid(items[items.len() - 1], n));
    }
}

impl Bool {
    /// The constant-true value.
    pub fn top() -> (b: Bool)
        ensures
            b == Bool::Const(true),
    {
        Bool::Const(true)
    }

    /// The constant-false value.
    pub fn bottom() -> (b: Bool)
        ensures
            b == Bool::Const(false),
    {
        Bool::Const(false)
    }

    /// The positive literal of a primary variable.
    pub fn var(v: Var) -> (b: Bool)
        ensures
            b == Bool::Lit(Lit { var: v, negated: false }),
    {
        Bool::Lit(Lit::positive(v))
    }
}

/// The negation of a value: the complementary constant or literal.
pub open spec fn negation(b: Bool) -> Bool {
    match b {
        Bool::Const(x) => Bool::Const(!x),
        Bool::Lit(l) => Bool::Lit(neg(l)),
    }
}

/// Satisfying an extended CNF satisfies the original.
pub proof fn lemma_sat_prefix(c0: Seq<Seq<Lit>>, c1: Seq<Seq<Lit>>, s: Assignment)
    requires
        c0.len() <= c1.len(),
        c1.take(c0.len() as int) == c0,
        sat(c1, s),
    ensures
        sat(c0, s),
{
    assert forall|i: int| 0 <= i < c0.len() implies #[trigger] clause_sat(c0[i], s) by {
        assert(c0[i] == c1.take(c0.len() as int)[i]);
        assert(clause_sat(c1[i], s));
    }
}

/// Every CNF extends itself.
pub proof fn lemma_extends_refl(n: nat, c: Seq<Seq<Lit>>)
    ensures
        extends(n, c, n, c),
{
    assert(c.take(c.len() as int) =~= c);
    assert forall|s: Assignment| #[trigger] sat(c, s) implies exists|t: Assignment|
        agree(s, t, n) && #[trigger] sat(c, t) by {
        assert(agree(s, s, n));
    }
}

/// Extension is transitive.
pub proof fn lemma_extends_trans(
    n0: nat,
    c0: Seq<Seq<Lit>>,
    n1: nat,
    c1: Seq<Seq<Lit>>,
    n2: nat,
    c2: Seq<Seq<Lit>>,
)
    requires
        extends(n0, c0, n1, c1),
        extends(n1, c1, n2, c2),
    ensures
        extends(n0, c0, n2, c2),
{
    assert(c2.take(c0.len() as int) =~= c0) by {
        assert forall|i: int| 0 <= i < c0.len() implies c2.take(c0.len() as int)[i] == c0[i] by {
            assert(c1.take(c0.len() as int)[i] == c0[i]);
            assert(c2.take(c1.len() as int)[i] == c1[i]);
        }
    }
    assert forall|s: Assignment| #[trigger] sat(c0, s) implies exists|t: Assignment|
        agree(s, t, n0) && #[trigger] sat(c2, t) by {
        let t1 = choose|t: Assignment| agree(s, t, n0) && #[trigger] sat(c1, t);
        let t2 = choose|t: Assignment| agree(t1, t, n1) && #[trigger] sat(c2, t);
        assert(agree(s, t2, n0)) by {
            assert forall|v: nat| v < n0 implies #[trigger] s(v) == t2(v) by {
                assert(s(v) == t1(v));
                assert(t1(v) == t2(v));
            }
        }
    }
}

/// The negation of a literal, as a spec function.
pub open spec fn neg(l: Lit) -> Lit {
    Lit { var: l.var, negated: !l.negated }
}

/// The clauses defining `z ↔ ⋀ lits`: `(¬z ∨ lᵢ)` for each literal, then
/// `(z ∨ ¬l₁ ∨ … ∨ ¬lₙ)`.
pub open spec fn and_clauses(z: Lit, lits: Seq<Lit>) -> Seq<Seq<Lit>> {
    Seq::new(lits.len(), |k: int| seq![neg(z), lits[k]]).push(seq![z] + lits.map_values(|l: Lit| neg(l)))
}

/// The clauses defining `z ↔ ⋁ lits`: `(z ∨ ¬lᵢ)` for each literal, then
/// `(¬z ∨ l₁ ∨ … ∨ lₙ)`.
pub open spec fn or_clauses(z: Lit, lits: Seq<Lit>) -> Seq<Seq<Lit>> {
    Seq::new(lits.len(), |k: int| seq![z, neg(lits[k])]).push(seq![neg(z)] + lits)
}

/// Every literal holds.
pub open spec fn all_lits(lits: Seq<Lit>, s: Assignment) -> bool {
    forall|k: int| 0 <= k < lits.len() ==> #[trigger] lit_val(lits[k], s)
}

/// Some literal holds.
pub open spec fn any_lit(lits: Seq<Lit>, s: Assignment) -> bool {
    exists|k: int| 0 <= k < lits.len() && #[trigger] lit_val(lits[k], s)
}

/// Every literal names a variable below `n`.
pub open spec fn lits_below(lits: Seq<Lit>, n: nat) -> bool {
    forall|k: int| 0 <= k < lits.len() ==> (#[trigger] lits[k]).var.index < n
}

/// Clauses over variables below `n` hold alike under agreeing assignments.
pub proof fn lemma_sat_agree(cs: Seq<Seq<Lit>>, s: Assignment, t: Assignment, n: nat)
    requires
        clauses_below(cs, n),
        agree(s, t, n),
        sat(cs, s),
    ensures
        sat(cs, t),
{
    assert forall|i: int| 0 <= i < cs.len() implies #[trigger] clause_sat(cs[i], t) by {
        assert(clause_sat(cs[i], s));
        let j = choose|j: int| 0 <= j < cs[i].len() && #[trigger] lit_val(cs[i][j], s);
        assert(cs[i][j].var.index < n);
        assert(s(cs[i][j].var.index as nat) == t(cs[i][j].var.index as nat));
        assert(lit_val(cs[i][j], t));
    }
}

/// A concatenation of clause lists holds exactly when both parts do.
pub proof fn lemma_sat_concat(a: Seq<Seq<Lit>>, b: Seq<Seq<Lit>>, s: Assignment)
    ensures
        sat(a + b, s) == (sat(a, s) && sat(b, s)),
{
    if sat(a + b, s) {
        assert forall|i: int| 0 <= i < a.len() implies #[trigger] clause_sat(a[i], s) by {
            assert((a + b)[i] == a[i]);
        }
        assert forall|i: int| 0 <= i < b.len() implies #[trigger] clause_sat(b[i], s) by {
            assert((a + b)[a.len() + i] == b[i]);
        }
    }
    if sat(a, s) && sat(b, s) {
        assert forall|i: int| 0 <= i < (a + b).len() implies #[trigger] clause_sat((a + b)[i], s) by {
            if i < a.len() {
                assert((a + b)[i] == a[i]);
            } else {
                assert((a + b)[i] == b[i - a.len()]);
            }
        }
    }
}

/// Under an assignment satisfying the and-clauses, `z` holds exactly when
/// every literal does.
pub proof fn lemma_and_clauses_sound(z: Lit, lits: Seq<Lit>, s: Assignment)
    requires
        sat(and_clauses(z, lits), s),
    ensures
        lit_val(z, s) == all_lits(lits, s),
{
    let cs = and_clauses(z, lits);
    if lit_val(z, s) {
        assert forall|k: int| 0 <= k < lits.len() implies #[trigger] lit_val(lits[k], s) by {
            assert(clause_sat(cs[k], s));
            assert(cs[k] == seq![neg(z), lits[k]]);
            let j = choose|j: int| 0 <= j < cs[k].len() && #[trigger] lit_val(cs[k][j], s);
        }
    }
    if all_lits(lits, s) {
        let big = seq![z] + lits.map_values(|l: Lit| neg(l));
        assert(cs[lits.len() as int] == big);
        assert(clause_sat(big, s));
        let j = choose|j: int| 0 <= j < big.len() && #[trigger] lit_val(big[j], s);
        if j > 0 {
            assert(big[j] == neg(lits[j - 1]));
            assert(lit_val(lits[j - 1], s));
        }
    }
}

/// Under an assignment satisfying the or-clauses, `z` holds exactly when
/// some literal does.
pub proof fn lemma_or_clauses_sound(z: Lit, lits: Seq<Lit>, s: Assignment)
    requires
        sat(or_clauses(z, lits), s),
    ensures
        lit_val(z, s) == any_lit(lits, s),
{
    let cs = or_clauses(z, lits);
    if any_lit(lits, s) {
        let k = choose|k: int| 0 <= k < lits.len() && #[trigger] lit_val(lits[k], s);
        assert(clause_sat(cs[k], s));
        assert(cs[k] == seq![z, neg(lits[k])]);
        let j = choose|j: int| 0 <= j < cs[k].len() && #[trigger] lit_val(cs[k][j], s);
    }
    if lit_val(z, s) {
        let big = seq![neg(z)] + lits;
        assert(cs[lits.len() as int] == big);
        assert(clause_sat(big, s));
        let j = choose|j: int| 0 <= j < big.len() && #[trigger] lit_val(big[j], s);
        assert(big[j] == lits[j - 1]);
    }
}

/// The and-clauses name `z`'s variable and the literals' variables only.
pub proof fn lemma_gate_clauses_below(z: Lit, lits: Seq<Lit>, n: nat)
    requires
        lits_below(lits, n),
        z.var.index < n,
    ensures
        clauses_below(and_clauses(z, lits), n),
        clauses_below(or_clauses(z, lits), n),
{
    let a = and_clauses(z, lits);
    let o = or_clauses(z, lits);
    assert forall|i: int, j: int| 0 <= i < a.len() && 0 <= j < a[i].len() implies (#[trigger] a[i][j]).var.index < n by {
        if i == lits.len() && j > 0 {
            assert(a[i][j] == neg(lits[j - 1]));
        }
    }
    assert forall|i: int, j: int| 0 <= i < o.len() && 0 <= j < o[i].len() implies (#[trigger] o[i][j]).var.index < n by {
        if i == lits.len() && j > 0 {
            assert(o[i][j] == lits[j - 1]);
        }
    }
}

/// Fresh gate variable `z`: every assignment satisfying clauses below `z`
/// extends, by giving `z` the conjunction (or disjunction) of the literals,
/// to one also satisfying its defining clauses.
pub proof fn lemma_gate_extends(c0: Seq<Seq<Lit>>, n: nat, lits: Seq<Lit>, is_and: bool)
    requires
        clauses_below(c0, n),
        lits_below(lits, n),
        n < u32::MAX,
    ensures
        extends(
            n,
            c0,
            n + 1,
            c0 + if is_and {
                and_clauses(Lit { var: Var { index: n as u32 }, negated: false }, lits)
            } else {
                or_clauses(Lit { var: Var { index: n as u32 }, negated: false }, lits)
            },
        ),
{
    let z = Lit { var: Var { index: n as u32 }, negated: false };
    let gate = if is_and {
        and_clauses(z, lits)
    } else {
        or_clauses(z, lits)
    };
    let c1 = c0 + gate;
    assert(c1.take(c0.len() as int) =~= c0);
    assert forall|s: Assignment| #[trigger] sat(c0, s) implies exists|t: Assignment|
        agree(s, t, n) && #[trigger] sat(c1, t) by {
        let zv = if is_and {
            all_lits(lits, s)
        } else {
            any_lit(lits, s)
        };
        let t: Assignment = |v: nat| if v == z.var.index as nat { zv } else { s(v) };
        assert(z.var.index as nat == n);
        assert(agree(s, t, n));
        lemma_sat_agree(c0, s, t, n);
        assert forall|k: int| 0 <= k < lits.len() implies #[trigger] lit_val(lits[k], s) == lit_val(lits[k], t) by {
            assert(lits[k].var.index < n);
        }
        assert(sat(gate, t)) by {
            if is_and {
                assert forall|i: int| 0 <= i < gate.len() implies #[trigger] clause_sat(gate[i], t) by {
                    if i < lits.len() {
                        assert(gate[i] == seq![neg(z), lits[i]]);
                        if lit_val(z, t) {
                            assert(lit_val(lits[i], s));
                            assert(lit_val(gate[i][1], t));
                        } else {
                            assert(lit_val(gate[i][0], t));
                        }
                    } else {
                        let big = seq![z] + lits.map_values(|l: Lit| neg(l));
                        assert(gate[i] == big);
                        if lit_val(z, t) {
                            assert(lit_val(big[0], t));
                        } else {
                            let k = choose|k: int| 0 <= k < lits.len() && !#[trigger] lit_val(lits[k], s);
                            assert(big[k + 1] == neg(lits[k]));
                            assert(lit_val(big[k + 1], t));
                        }
                    }
                }
            } else {
                assert forall|i: int| 0 <= i < gate.len() implies #[trigger] clause_sat(gate[i], t) by {
                    if i < lits.len() {
                        assert(gate[i] == seq![z, neg(lits[i])]);
                        if lit_val(z, t) {
                            assert(lit_val(gate[i][0], t));
                        } else {
                            assert(!lit_val(lits[i], s));
                            assert(lit_val(gate[i][1], t));
                        }
                    } else {
                        let big = seq![neg(z)] + lits;
                        assert(gate[i] == big);
                        if lit_val(z, t) {
                            let k = choose|k: int| 0 <= k < lits.len() && #[trigger] lit_val(lits[k], s);
                            assert(big[k + 1] == lits[k]);
                            assert(lit_val(big[k + 1], t));
                        } else {
                            assert(lit_val(big[0], t));
                        }
                    }
                }
            }
        }
        lemma_sat_concat(c0, gate, t);
    }
}

/// The numbering of a literal, as a spec function: `2·var + negated`.
pub open spec fn code_of(l: Lit) -> int {
    2 * l.var.index + if l.negated {
        1int
    } else {
        0int
    }
}

/// Literals in strictly increasing numbering (so without repeats).
pub open spec fn strictly_sorted(lits: Seq<Lit>) -> bool {
    forall|i: int, j: int| 0 <= i < j < lits.len() ==> code_of(#[trigger] lits[i]) < code_of(#[trigger] lits[j])
}

/// Some literal of `k` occurs together with its complement.
pub open spec fn has_complement(k: Set<Lit>) -> bool {
    exists|l: Lit| #[trigger] k.contains(l) && k.contains(neg(l))
}

/// The operand set of a conjunction: the literals among `items`.
pub open spec fn operand_set(items: Seq<Bool>) -> Set<Lit> {
    lits_of(items).to_set()
}

/// A conjunction of `items` is `false` outright: a constant `false`
/// operand, or a literal together with its complement.
pub open spec fn folds_false(items: Seq<Bool>) -> bool {
    has_const(items, false) || has_complement(operand_set(items))
}

/// The negations of `items`, in order.
pub open spec fn negs(items: Seq<Bool>) -> Seq<Bool> {
    items.map_values(|b: Bool| negation(b))
}

/// The literals of `k` in increasing numbering.
pub closed spec fn sorted_lits(k: Set<Lit>) -> Seq<Lit> {
    choose|q: Seq<Lit>| strictly_sorted(q) && q.to_set() == k
}

/// Every item is a constant.
pub open spec fn all_const(items: Seq<Bool>) -> bool {
    forall|i: int| 0 <= i < items.len() ==> (#[trigger] items[i]) is Const
}

/// Constants have no literals.
proof fn lemma_lits_of_const(items: Seq<Bool>)
    requires
        all_const(items),
    ensures
        lits_of(items).len() == 0,
        operand_set(items) == Set::<Lit>::empty(),
        all_const(negs(items)),
    decreases items.len(),
{
    if items.len() > 0 {
        assert(items.last() == items[items.len() - 1]);
        lemma_lits_of_const(items.drop_last());
    }
    assert(operand_set(items) =~= Set::<Lit>::empty());
}

/// The literals of one value: none for a constant, itself for a literal.
pub open spec fn lit_set(b: Bool) -> Set<Lit> {
    match b {
        Bool::Const(_) => Set::empty(),
        Bool::Lit(l) => set![l],
    }
}

proof fn lemma_code_injective(a: Lit, b: Lit)
    requires
        code_of(a) == code_of(b),
    ensures
        a == b,
{
    assert(a.var.index == b.var.index);
    assert(a.negated == b.negated);
    assert(a.var == b.var);
}

proof fn lemma_sorted_no_duplicates(a: Seq<Lit>)
    requires
        strictly_sorted(a),
    ensures
        a.no_duplicates(),
        a.to_set().len() == a.len(),
        a.to_set().finite(),
{
    assert forall|i: int, j: int| 0 <= i < a.len() && 0 <= j < a.len() && i != j implies a[i] != a[j] by {
        if i < j {
            assert(code_of(a[i]) < code_of(a[j]));
        } else {
            assert(code_of(a[j]) < code_of(a[i]));
        }
    }
    a.unique_seq_to_set();
}

/// Two strictly sorted literal sequences with the same elements are equal.
proof fn lemma_sorted_sets_equal(a: Seq<Lit>, b: Seq<Lit>)
    requires
        strictly_sorted(a),
        strictly_sorted(b),
        a.to_set() == b.to_set(),
    ensures
        a == b,
    decreases a.len(),
{
    if a.len() == 0 {
        if b.len() > 0 {
            assert(b.to_set().contains(b[0]));
            assert(a.contains(b[0]));
        }
        assert(a =~= b);
    } else {
        assert(a.to_set().contains(a[0]));
        assert(b.contains(a[0]));
        let j = choose|j: int| 0 <= j < b.len() && b[j] == a[0];
        assert(b.to_set().contains(b[0]));
        assert(a.contains(b[0]));
        let i = choose|i: int| 0 <= i < a.len() && a[i] == b[0];
        if i > 0 {
            assert(code_of(a[0]) < code_of(a[i]));
        }
        if j > 0 {
            assert(code_of(b[0]) < code_of(b[j]));
        }
        assert(a[0] == b[0]);
        let ta = a.drop_first();
        let tb = b.drop_first();
        assert(strictly_sorted(ta)) by {
            assert forall|x: int, y: int| 0 <= x < y < ta.len() implies code_of(#[trigger] ta[x]) < code_of(#[trigger] ta[y]) by {
                assert(ta[x] == a[x + 1] && ta[y] == a[y + 1]);
            }
        }
        assert(strictly_sorted(tb)) by {
            assert forall|x: int, y: int| 0 <= x < y < tb.len() implies code_of(#[trigger] tb[x]) < code_of(#[trigger] tb[y]) by {
                assert(tb[x] == b[x + 1] && tb[y] == b[y + 1]);
            }
        }
        assert(ta.to_set() =~= tb.to_set()) by {
            assert forall|l: Lit| ta.to_set().contains(l) implies tb.to_set().contains(l) by {
                let x = choose|x: int| 0 <= x < ta.len() && ta[x] == l;
                assert(a[x + 1] == l);
                assert(code_of(a[0]) < code_of(a[x + 1]));
                assert(a.contains(l));
                assert(a.to_set().contains(l));
                assert(b.to_set().contains(l));
                let y = choose|y: int| 0 <= y < b.len() && b[y] == l;
                assert(y != 0);
                assert(tb[y - 1] == l);
            }
            assert forall|l: Lit| tb.to_set().contains(l) implies ta.to_set().contains(l) by {
                let x = choose|x: int| 0 <= x < tb.len() && tb[x] == l;
                assert(b[x + 1] == l);
                assert(code_of(b[0]) < code_of(b[x + 1]));
                assert(b.contains(l));
                assert(b.to_set().contains(l));
                assert(a.to_set().contains(l));
                let y = choose|y: int| 0 <= y < a.len() && a[y] == l;
                assert(y != 0);
                assert(ta[y - 1] == l);
            }
        }
        lemma_sorted_sets_equal(ta, tb);
        assert(a =~= seq![a[0]] + ta);
        assert(b =~= seq![b[0]] + tb);
    }
}

/// Every literal of two sequences with the same elements holds together.
proof fn lemma_all_lits_set(a: Seq<Lit>, b: Seq<Lit>, s: Assignment)
    requires
        a.to_set() == b.to_set(),
    ensures
        all_lits(a, s) == all_lits(b, s),
{
    if all_lits(a, s) {
        assert forall|k: int| 0 <= k < b.len() implies #[trigger] lit_val(b[k], s) by {
            assert(b.to_set().contains(b[k]));
            let i = choose|i: int| 0 <= i < a.len() && a[i] == b[k];
            assert(lit_val(a[i], s));
        }
    }
    if all_lits(b, s) {
        assert forall|k: int| 0 <= k < a.len() implies #[trigger] lit_val(a[k], s) by {
            assert(a.to_set().contains(a[k]));
            let i = choose|i: int| 0 <= i < b.len() && b[i] == a[k];
            assert(lit_val(b[i], s));
        }
    }
}

/// The literals of a prefix are among the literals of the whole.
proof fn lemma_lits_of_prefix(items: Seq<Bool>, i: int)
    requires
        0 <= i <= items.len(),
    ensures
        operand_set(items.take(i)).subset_of(operand_set(items)),
    decreases items.len(),
{
    if i < items.len() {
        let init = items.drop_last();
        assert(items.take(i) =~= init.take(i));
        lemma_lits_of_prefix(init, i);
        assert(operand_set(init).subset_of(operand_set(items))) by {
            assert forall|l: Lit| operand_set(init).contains(l) implies operand_set(items).contains(l) by {
                let k = choose|k: int| 0 <= k < lits_of(init).len() && lits_of(init)[k] == l;
                match items.last() {
                    Bool::Const(_) => {},
                    Bool::Lit(m) => {
                        assert(lits_of(items)[k] == l);
                    },
                }
            }
        }
    } else {
        assert(items.take(i) =~= items);
    }
}

/// The literals of one more item.
proof fn lemma_operand_set_step(items: Seq<Bool>, i: int)
    requires
        0 <= i < items.len(),
    ensures
        operand_set(items.take(i + 1)) == operand_set(items.take(i)) + lit_set(items[i]),
{
    let next = items.take(i + 1);
    assert(next.drop_last() =~= items.take(i));
    assert(next.last() == items[i]);
    let rest = lits_of(items.take(i));
    match items[i] {
        Bool::Const(_) => {
            assert(operand_set(next) =~= operand_set(items.take(i)) + lit_set(items[i]));
        },
        Bool::Lit(l) => {
            assert(lits_of(next) == rest.push(l));
            rest.lemma_push_to_set_commute(l);
            assert(operand_set(next) =~= operand_set(items.take(i)) + lit_set(items[i]));
        },
    }
}

/// The operands of a pair.
proof fn lemma_pair(a: Bool, b: Bool)
    ensures
        operand_set(seq![a, b]) == lit_set(a) + lit_set(b),
        has_const(seq![a, b], false) == (a == Bool::Const(false) || b == Bool::Const(false)),
        has_const(seq![a, b], true) == (a == Bool::Const(true) || b == Bool::Const(true)),
        negs(seq![a, b]) == seq![negation(a), negation(b)],
{
    let p = seq![a, b];
    lemma_operand_set_step(p, 0);
    lemma_operand_set_step(p, 1);
    assert(p.take(0) =~= Seq::<Bool>::empty());
    assert(p.take(2) =~= p);
    assert(operand_set(p.take(0)) =~= Set::<Lit>::empty());
    assert(operand_set(p) =~= lit_set(a) + lit_set(b));
    if a == Bool::Const(false) {
        assert(p[0] == Bool::Const(false));
    }
    if b == Bool::Const(false) {
        assert(p[1] == Bool::Const(false));
    }
    if a == Bool::Const(true) {
        assert(p[0] == Bool::Const(true));
    }
    if b == Bool::Const(true) {
        assert(p[1] == Bool::Const(true));
    }
    assert(negs(p) =~= seq![negation(a), negation(b)]);
}

/// A conjunction of the negations holds exactly when no item does.
proof fn lemma_negs(items: Seq<Bool>, n: nat, s: Assignment)
    ensures
        all_true(negs(items), s) == !any_true(items, s),
        all_valid(items, n) ==> all_valid(negs(items), n),
        negs(items).len() == items.len(),
{
    let ns = negs(items);
    if all_true(ns, s) {
        if any_true(items, s) {
            let k = choose|k: int| 0 <= k < items.len() && val(#[trigger] items[k], s);
            assert(val(ns[k], s));
        }
    } else {
        let k = choose|k: int| 0 <= k < ns.len() && !val(#[trigger] ns[k], s);
        assert(val(items[k], s));
    }
    if all_valid(items, n) {
        assert forall|i: int| 0 <= i < ns.len() implies valid(#[trigger] ns[i], n) by {
            assert(valid(items[i], n));
        }
    }
}

/// The boolean-circuit builder: a CNF, gate constructors that extend it,
/// and a cache of the conjunction gates built so far, keyed by their sorted
/// operand literals, so that a conjunction asked for again (in any operand
/// order, or as the De Morgan dual of a disjunction) reuses its gate.
pub struct Circuit {
    cnf: Cnf,
    gates: Vec<(Vec<Lit>, Lit)>,
}

impl Circuit {
    /// Number of variables minted so far.
    pub closed spec fn nv(&self) -> nat {
        self.cnf.nv()
    }

    /// The clauses so far.
    pub closed spec fn cls(&self) -> Seq<Seq<Lit>> {
        self.cnf.cls()
    }

    /// A cached gate: `z` is a minted literal that, under every assignment
    /// satisfying the clauses, holds exactly when every literal of `key`
    /// does; `key` is sorted, has two literals or more, and no literal with
    /// its complement.
    spec fn entry_ok(&self, key: Seq<Lit>, z: Lit) -> bool {
        &&& strictly_sorted(key)
        &&& key.len() >= 2
        &&& !has_complement(key.to_set())
        &&& lits_below(key, self.nv())
        &&& z.var.index < self.nv()
        &&& forall|s: Assignment| #[trigger] sat(self.cls(), s) ==> lit_val(z, s) == all_lits(key, s)
    }

    /// Every cached gate is sound, and no two share an operand set.
    pub closed spec fn gates_ok(&self) -> bool {
        &&& forall|i: int| 0 <= i < self.gates@.len() ==> self.entry_ok((#[trigger] self.gates@[i]).0@, self.gates@[i].1)
        &&& forall|i: int, j: int|
            0 <= i < self.gates@.len() && 0 <= j < self.gates@.len() && i != j ==> (#[trigger] self.gates@[i]).0@.to_set()
                != (#[trigger] self.gates@[j]).0@.to_set()
    }

    /// The cached conjunction gate over the operand set `k`, if any.
    pub closed spec fn gate_for(&self, k: Set<Lit>) -> Option<Lit> {
        if exists|i: int| 0 <= i < self.gates@.len() && (#[trigger] self.gates@[i]).0@.to_set() == k {
            Some(self.gates@[choose|i: int| 0 <= i < self.gates@.len() && (#[trigger] self.gates@[i]).0@.to_set() == k].1)
        } else {
            None
        }
    }

    /// What a conjunction of `items` gives: `false` when it folds to false,
    /// `true` with no operand literal left, the literal itself with one, the
    /// cached gate of the operand set when there is one, and otherwise the
    /// next variable, minted as a fresh gate.
    pub closed spec fn conj(&self, items: Seq<Bool>) -> Bool {
        let k = operand_set(items);
        if folds_false(items) {
            Bool::Const(false)
        } else if k.len() == 0 {
            Bool::Const(true)
        } else if k.len() == 1 {
            Bool::Lit(k.choose())
        } else if self.gate_for(k) is Some {
            Bool::Lit(self.gate_for(k)->0)
        } else {
            Bool::Lit(gate_lit(self.nv()))
        }
    }

    /// Whether a conjunction of `items` mints a gate.
    pub closed spec fn mints(&self, items: Seq<Bool>) -> bool {
        !folds_false(items) && operand_set(items).len() >= 2 && self.gate_for(operand_set(items)) is None
    }

    /// Well-formedness: every clause names minted variables only, and the
    /// gate cache is sound.
    pub open spec fn wf(&self) -> bool {
        clauses_below(self.cls(), self.nv()) && self.gates_ok()
    }

    /// `self` holds the same variables and clauses as `other`.
    pub open spec fn same(&self, other: &Circuit) -> bool {
        self.nv() == other.nv() && self.cls() == other.cls()
    }

    /// `self` extends `earlier` (see [`extends`]).
    pub open spec fn extends_from(&self, earlier: &Circuit) -> bool {
        extends(earlier.nv(), earlier.cls(), self.nv(), self.cls())
    }

    /// Wraps a CNF for gate construction.
    pub fn new(cnf: Cnf) -> (c: Circuit)
        ensures
            c.nv() == cnf.nv(),
            c.cls() == cnf.cls(),
            c.gates_ok(),
            forall|k: Set<Lit>| #[trigger] c.gate_for(k) is None,
    {
        Circuit { cnf, gates: Vec::new() }
    }

    /// The CNF built so far.
    pub fn cnf(&self) -> (c: &Cnf)
        ensures
            c.nv() == self.nv(),
            c.cls() == self.cls(),
    {
        &self.cnf
    }

    /// Gives back the CNF.
    pub fn into_cnf(self) -> (c: Cnf)
        ensures
            c.nv() == self.nv(),
            c.cls() == self.cls(),
    {
        self.cnf
    }

    /// Mints a gate variable `z` and emits its defining clauses: the
    /// and-clauses of `z ↔ ⋀ lits` or the or-clauses of `z ↔ ⋁ lits`.
    fn emit_gate(&mut self, lits: &Vec<Lit>, is_and: bool) -> (z: Lit)
        requires
            old(self).nv() < u32::MAX,
        ensures
            z == gate_lit(old(self).nv()),
            final(self).nv() == old(self).nv() + 1,
            final(self).gates@ == old(self).gates@,
            final(self).cls() == old(self).cls() + if is_and {
                and_clauses(z, lits@)
            } else {
                or_clauses(z, lits@)
            },
    {
        let ghost c0 = self.cls();
        let v = self.cnf.fresh_var();
        let zpos = Lit::positive(v);
        let ghost z = zpos;
        let mut big: Vec<Lit> = Vec::new();
        if is_and {
            big.push(zpos);
        } else {
            big.push(zpos.negate());
        }
        let mut k: usize = 0;
        while k < lits.len()
            invariant
                k <= lits.len(),
                z == gate_lit(old(self).nv()),
                c0 == old(self).cls(),
                zpos == z,
                self.nv() == old(self).nv() + 1,
                self.gates@ == old(self).gates@,
                is_and ==> self.cls() == c0 + Seq::new(k as nat, |j: int| seq![neg(z), lits@[j]]),
                !is_and ==> self.cls() == c0 + Seq::new(k as nat, |j: int| seq![z, neg(lits@[j])]),
                is_and ==> big@ == seq![z] + lits@.take(k as int).map_values(|l: Lit| neg(l)),
                !is_and ==> big@ == seq![neg(z)] + lits@.take(k as int),
            decreases lits.len() - k,
        {
            let l = lits[k];
            let ghost before = self.cls();
            if is_and {
                self.cnf.add_clause(vec![zpos.negate(), l]);
                big.push(l.negate());
                assert(self.cls() =~= c0 + Seq::new((k + 1) as nat, |j: int| seq![neg(z), lits@[j]]));
                assert(lits@.take(k + 1) =~= lits@.take(k as int).push(l));
                assert(big@ =~= seq![z] + lits@.take(k + 1).map_values(|l: Lit| neg(l)));
            } else {
                self.cnf.add_clause(vec![zpos, l.negate()]);
                big.push(l);
                assert(self.cls() =~= c0 + Seq::new((k + 1) as nat, |j: int| seq![z, neg(lits@[j])]));
                assert(lits@.take(k + 1) =~= lits@.take(k as int).push(l));
                assert(big@ =~= seq![neg(z)] + lits@.take(k + 1));
            }
            k = k + 1;
        }
        assert(lits@.take(lits.len() as int) =~= lits@);
        self.cnf.add_clause(big);
        if is_and {
            assert(self.cls() =~= c0 + and_clauses(z, lits@));
        } else {
            assert(self.cls() =~= c0 + or_clauses(z, lits@));
        }
        zpos
    }

    /// Adds `l` to the sorted literals `v`; fails, leaving `v` as it is,
    /// when `v` holds the complement of `l`.
    fn insert_lit(v: &mut Vec<Lit>, l: Lit) -> (ok: bool)
        requires
            strictly_sorted(old(v)@),
        ensures
            ok == !old(v)@.to_set().contains(neg(l)),
            ok ==> strictly_sorted(final(v)@) && final(v)@.to_set() == old(v)@.to_set().insert(l),
    {
        let ghost v0 = v@;
        let mut i: usize = 0;
        let mut found = false;
        while i < v.len()
            invariant
                v@ == v0,
                i <= v.len(),
                forall|k: int| 0 <= k < i ==> v@[k] != neg(l),
                found == (exists|k: int| 0 <= k < i && v@[k] == l),
            decreases v.len() - i,
        {
            let x = v[i];
            if x.var.index == l.var.index && x.negated != l.negated {
                assert(x == neg(l));
                assert(v0.to_set().contains(neg(l)));
                return false;
            }
            if x == l {
                found = true;
            }
            i = i + 1;
        }
        assert(!v0.to_set().contains(neg(l))) by {
            if v0.to_set().contains(neg(l)) {
                let k = choose|k: int| 0 <= k < v0.len() && v0[k] == neg(l);
            }
        }
        if found {
            assert(v0.to_set().insert(l) =~= v0.to_set()) by {
                let k = choose|k: int| 0 <= k < v0.len() && v0[k] == l;
                assert(v0.to_set().contains(l));
            }
            return true;
        }
        let cl = l.code();
        let mut pos: usize = 0;
        while pos < v.len() && v[pos].code() < cl
            invariant
                v@ == v0,
                pos <= v.len(),
                forall|k: int| 0 <= k < pos ==> code_of(#[trigger] v0[k]) < code_of(l),
                cl == code_of(l),
            decreases v.len() - pos,
        {
            pos = pos + 1;
        }
        assert forall|k: int| pos <= k < v0.len() implies code_of(#[trigger] v0[k]) > code_of(l) by {
            assert(code_of(v0[pos as int]) >= code_of(l));
            if k > pos {
                assert(code_of(v0[pos as int]) < code_of(v0[k]));
            }
            if code_of(v0[k]) == code_of(l) {
                lemma_code_injective(v0[k], l);
                assert(v0[k] == l);
            }
        }
        v.insert(pos, l);
        proof {
            let e = v@;
            assert(e =~= v0.insert(pos as int, l));
            assert forall|x: int, y: int| 0 <= x < y < e.len() implies code_of(#[trigger] e[x]) < code_of(#[trigger] e[y]) by {
                if y < pos {
                } else if y == pos {
                } else if x < pos {
                    assert(e[y] == v0[y - 1]);
                } else if x == pos {
                    assert(e[y] == v0[y - 1]);
                } else {
                    assert(e[x] == v0[x - 1] && e[y] == v0[y - 1]);
                }
            }
            assert(e.to_set() =~= v0.to_set().insert(l)) by {
                assert forall|m: Lit| e.to_set().contains(m) implies v0.to_set().insert(l).contains(m) by {
                    let k = choose|k: int| 0 <= k < e.len() && e[k] == m;
                    if k < pos {
                        assert(v0[k] == m);
                    } else if k > pos {
                        assert(v0[k - 1] == m);
                    }
                }
                assert forall|m: Lit| v0.to_set().insert(l).contains(m) implies e.to_set().contains(m) by {
                    if m == l {
                        assert(e[pos as int] == l);
                    } else {
                        let k = choose|k: int| 0 <= k < v0.len() && v0[k] == m;
                        if k < pos {
                            assert(e[k] == m);
                        } else {
                            assert(e[k + 1] == m);
                        }
                    }
                }
            }
        }
        true
    }

    /// The operands of a conjunction, sorted: `None` when it folds to false.
    fn operands(items: &Vec<Bool>) -> (r: Option<Vec<Lit>>)
        ensures
            r is None <==> folds_false(items@),
            r matches Some(v) ==> strictly_sorted(v@) && v@.to_set() == operand_set(items@),
    {
        let mut v: Vec<Lit> = Vec::new();
        let mut i: usize = 0;
        assert(items@.take(0) =~= Seq::<Bool>::empty());
        assert(operand_set(items@.take(0)) =~= Set::<Lit>::empty());
        while i < items.len()
            invariant
                i <= items.len(),
                strictly_sorted(v@),
                v@.to_set() == operand_set(items@.take(i as int)),
                !has_const(items@.take(i as int), false),
                !has_complement(operand_set(items@.take(i as int))),
            decreases items.len() - i,
        {
            proof {
                lemma_operand_set_step(items@, i as int);
                lemma_lits_of_prefix(items@, i as int + 1);
            }
            let ghost pre = items@.take(i as int);
            match items[i] {
                Bool::Const(x) => {
                    if !x {
                        assert(items@[i as int] == Bool::Const(false));
                        return None;
                    }
                },
                Bool::Lit(l) => {
                    let ok = Self::insert_lit(&mut v, l);
                    if !ok {
                        assert(operand_set(items@).contains(l) && operand_set(items@).contains(neg(l))) by {
                            assert(operand_set(items@.take(i + 1)).contains(l));
                            assert(operand_set(items@.take(i + 1)).contains(neg(l)));
                        }
                        return None;
                    }
                    assert(!has_complement(operand_set(items@.take(i + 1)))) by {
                        let k = operand_set(items@.take(i + 1));
                        if has_complement(k) {
                            let m = choose|m: Lit| #[trigger] k.contains(m) && k.contains(neg(m));
                            if m == l {
                            } else if neg(m) == l {
                                assert(neg(l) == m);
                            } else {
                                assert(operand_set(pre).contains(m));
                            }
                        }
                    }
                },
            }
            assert(!has_const(items@.take(i + 1), false)) by {
                if has_const(items@.take(i + 1), false) {
                    let k = choose|k: int| 0 <= k < items@.take(i + 1).len() && #[trigger] items@.take(i + 1)[k] == Bool::Const(false);
                    if k < i {
                        assert(pre[k] == Bool::Const(false));
                    }
                }
            }
            i = i + 1;
        }
        assert(items@.take(items.len() as int) =~= items@);
        Some(v)
    }

    /// Whether two literal lists are equal.
    fn same_lits(a: &Vec<Lit>, b: &Vec<Lit>) -> (r: bool)
        ensures
            r == (a@ == b@),
    {
        if a.len() != b.len() {
            return false;
        }
        let mut i: usize = 0;
        while i < a.len()
            invariant
                a.len() == b.len(),
                i <= a.len(),
                forall|k: int| 0 <= k < i ==> a@[k] == b@[k],
            decreases a.len() - i,
        {
            if a[i] != b[i] {
                return false;
            }
            i = i + 1;
        }
        assert(a@ =~= b@);
        true
    }

    /// The cached gate whose operands are `key`, if any.
    fn find_gate(&self, key: &Vec<Lit>) -> (r: Option<Lit>)
        requires
            self.gates_ok(),
            strictly_sorted(key@),
        ensures
            r == self.gate_for(key@.to_set()),
    {
        let mut i: usize = 0;
        while i < self.gates.len()
            invariant
                self.gates_ok(),
                strictly_sorted(key@),
                i <= self.gates@.len(),
                forall|k: int| 0 <= k < i ==> (#[trigger] self.gates@[k]).0@.to_set() != key@.to_set(),
            decreases self.gates@.len() - i,
        {
            if Self::same_lits(&self.gates[i].0, key) {
                proof {
                    let ks = key@.to_set();
                    assert(self.gates@[i as int].0@.to_set() == ks);
                    let j = choose|j: int| 0 <= j < self.gates@.len() && (#[trigger] self.gates@[j]).0@.to_set() == ks;
                    assert(j == i);
                }
                return Some(self.gates[i].1);
            }
            proof {
                assert(self.entry_ok(self.gates@[i as int].0@, self.gates@[i as int].1));
                if self.gates@[i as int].0@.to_set() == key@.to_set() {
                    lemma_sorted_sets_equal(self.gates@[i as int].0@, key@);
                }
            }
            i = i + 1;
        }
        None
    }

    /// Conjunction of many values. A constant `false`, or a literal together
    /// with its complement, gives `false`; constant `true`s and repeated
    /// literals drop out; no literal left gives `true`, one gives itself;
    /// otherwise a cached conjunction over the same operand set when there
    /// is one, and a fresh `z` with the clauses of `z ↔ ⋀ lᵢ` when not.
    pub fn and_many(&mut self, items: Vec<Bool>) -> (r: Bool)
        requires
            old(self).wf(),
            all_valid(items@, old(self).nv()),
            old(self).nv() < u32::MAX,
        ensures
            final(self).wf(),
            final(self).extends_from(old(self)),
            valid(r, final(self).nv()),
            forall|s: Assignment| #[trigger] sat(final(self).cls(), s) ==> val(r, s) == all_true(items@, s),
            r == old(self).conj(items@),
            final(self).nv() == old(self).nv() + if old(self).mints(items@) {
                1nat
            } else {
                0nat
            },
            !old(self).mints(items@) ==> final(self).same(old(self)),
            old(self).mints(items@) ==> final(self).cls() == old(self).cls() + and_clauses(
                gate_lit(old(self).nv()),
                sorted_lits(operand_set(items@)),
            ),
            forall|k: Set<Lit>| old(self).gate_for(k) is Some ==> #[trigger] final(self).gate_for(k) == old(self).gate_for(k),
            final(self).conj(items@) == r,
            !final(self).mints(items@),
            all_const(items@) ==> r is Const && final(self).same(old(self)),
    {
        proof {
            if all_const(items@) {
                lemma_lits_of_const(items@);
                assert(Set::<Lit>::empty().len() == 0);
            }
        }
        let ghost s0 = *self;
        let ghost n0 = self.nv();
        let ghost c0 = self.cls();
        let ghost k = operand_set(items@);
        proof {
            lemma_extends_refl(n0, c0);
            lemma_lits_of_below(items@, n0);
        }
        let collected = Self::operands(&items);
        match collected {
            None => {
                proof {
                    assert forall|s: Assignment| #[trigger] sat(self.cls(), s) implies !all_true(items@, s) by {
                        if has_const(items@, false) {
                            let i = choose|i: int| 0 <= i < items@.len() && #[trigger] items@[i] == Bool::Const(false);
                            assert(!val(items@[i], s));
                        } else {
                            lemma_lits_of_sem(items@, s);
                            let l = choose|l: Lit| #[trigger] k.contains(l) && k.contains(neg(l));
                            if all_true(items@, s) {
                                let a = choose|a: int| 0 <= a < lits_of(items@).len() && lits_of(items@)[a] == l;
                                let b = choose|b: int| 0 <= b < lits_of(items@).len() && lits_of(items@)[b] == neg(l);
                                assert(lit_val(lits_of(items@)[a], s));
                                assert(lit_val(lits_of(items@)[b], s));
                            }
                        }
                    }
                }
                Bool::Const(false)
            },
            Some(key) => {
                proof {
                    lemma_sorted_no_duplicates(key@);
                    lemma_sorted_sets_equal(key@, sorted_lits(k));
                    assert forall|s: Assignment| true implies all_true(items@, s) == all_lits(key@, s) by {
                        lemma_lits_of_sem(items@, s);
                        lemma_all_lits_set(key@, lits_of(items@), s);
                    }
                    assert(lits_below(key@, n0)) by {
                        assert forall|j: int| 0 <= j < key@.len() implies (#[trigger] key@[j]).var.index < n0 by {
                            assert(key@.to_set().contains(key@[j]));
                            let a = choose|a: int| 0 <= a < lits_of(items@).len() && lits_of(items@)[a] == key@[j];
                        }
                    }
                }
                if key.len() == 0 {
                    Bool::Const(true)
                } else if key.len() == 1 {
                    let l = key[0];
                    proof {
                        assert(k =~= set![l]) by {
                            assert forall|m: Lit| k.contains(m) implies m == l by {
                                let j = choose|j: int| 0 <= j < key@.len() && key@[j] == m;
                            }
                            assert(key@.to_set().contains(key@[0]));
                        }
                        assert(k.contains(k.choose()));
                        assert forall|s: Assignment| #[trigger] sat(self.cls(), s) implies val(Bool::Lit(l), s) == all_true(items@, s) by {
                            if lit_val(l, s) {
                                assert forall|j: int| 0 <= j < key@.len() implies #[trigger] lit_val(key@[j], s) by {}
                            }
                        }
                    }
                    Bool::Lit(l)
                } else {
                    let found = self.find_gate(&key);
                    match found {
                        Some(z) => {
                            proof {
                                let i = choose|i: int| 0 <= i < self.gates@.len() && (#[trigger] self.gates@[i]).0@.to_set() == k;
                                assert(self.entry_ok(self.gates@[i].0@, self.gates@[i].1));
                                assert forall|s: Assignment| #[trigger] sat(self.cls(), s) implies val(Bool::Lit(z), s) == all_true(items@, s) by {
                                    lemma_all_lits_set(self.gates@[i].0@, key@, s);
                                }
                            }
                            Bool::Lit(z)
                        },
                        None => {
                            let z = self.emit_gate(&key, true);
                            let ghost s1 = *self;
                            self.gates.push((key, z));
                            proof {
                                let gate = and_clauses(z, key@);
                                lemma_gate_extends(c0, n0, key@, true);
                                lemma_gate_clauses_below(z, key@, n0 + 1);
                                assert(lits_below(key@, n0 + 1));
                                assert(clauses_below(c0, n0 + 1));
                                assert(clauses_below(self.cls(), self.nv())) by {
                                    assert forall|i: int, j: int| 0 <= i < self.cls().len() && 0 <= j < self.cls()[i].len()
                                        implies (#[trigger] self.cls()[i][j]).var.index < self.nv() by {
                                        if i < c0.len() {
                                            assert(self.cls()[i] == c0[i]);
                                        } else {
                                            assert(self.cls()[i] == gate[i - c0.len()]);
                                        }
                                    }
                                }
                                assert forall|s: Assignment| #[trigger] sat(self.cls(), s) implies lit_val(z, s) == all_lits(key@, s) by {
                                    lemma_sat_concat(c0, gate, s);
                                    lemma_and_clauses_sound(z, key@, s);
                                }
                                let g = self.gates@;
                                let last = g.len() - 1;
                                assert(g[last] == (key, z));
                                assert forall|i: int| 0 <= i < g.len() implies self.entry_ok((#[trigger] g[i]).0@, g[i].1) by {
                                    if i < last {
                                        assert(g[i] == s0.gates@[i]);
                                        assert(s0.entry_ok(g[i].0@, g[i].1));
                                        assert forall|s: Assignment| #[trigger] sat(self.cls(), s) implies lit_val(g[i].1, s) == all_lits(g[i].0@, s) by {
                                            lemma_sat_concat(c0, gate, s);
                                        }
                                    } else {
                                        assert(!has_complement(key@.to_set()));
                                    }
                                }
                                assert forall|i: int, j: int| 0 <= i < g.len() && 0 <= j < g.len() && i != j implies (#[trigger] g[i]).0@.to_set()
                                    != (#[trigger] g[j]).0@.to_set() by {
                                    if i < last && j < last {
                                        assert(g[i] == s0.gates@[i] && g[j] == s0.gates@[j]);
                                    } else if i < last {
                                        assert(g[i] == s0.gates@[i]);
                                    } else {
                                        assert(g[j] == s0.gates@[j]);
                                    }
                                }
                                assert(self.gates_ok());
                                assert forall|kk: Set<Lit>| s0.gate_for(kk) is Some implies #[trigger] self.gate_for(kk) == s0.gate_for(kk) by {
                                    let i = choose|i: int| 0 <= i < s0.gates@.len() && (#[trigger] s0.gates@[i]).0@.to_set() == kk;
                                    assert(g[i] == s0.gates@[i]);
                                    let j = choose|j: int| 0 <= j < g.len() && (#[trigger] g[j]).0@.to_set() == kk;
                                    assert(j == i);
                                }
                                assert(self.gate_for(k) == Some(z)) by {
                                    assert(g[last].0@.to_set() == k);
                                    let j = choose|j: int| 0 <= j < g.len() && (#[trigger] g[j]).0@.to_set() == k;
                                    assert(j == last);
                                }
                                assert forall|s: Assignment| #[trigger] sat(self.cls(), s) implies val(Bool::Lit(z), s) == all_true(items@, s) by {
                                }
                            }
                            Bool::Lit(z)
                        },
                    }
                }
            },
        }
    }

    /// Disjunction of many values, as the negation of the conjunction of
    /// the negations: a constant `true`, or a literal together with its
    /// complement, gives `true`; constant `false`s and repeats drop out; no
    /// literal left gives `false`, one gives itself; otherwise the negation of
    /// the conjunction gate over the negated operands, shared with any
    /// conjunction over the same literals.
    #[verifier::rlimit(40)]
    pub fn or_many(&mut self, items: Vec<Bool>) -> (r: Bool)
        requires
            old(self).wf(),
            all_valid(items@, old(self).nv()),
            old(self).nv() < u32::MAX,
        ensures
            final(self).wf(),
            final(self).extends_from(old(self)),
            valid(r, final(self).nv()),
            forall|s: Assignment| #[trigger] sat(final(self).cls(), s) ==> val(r, s) == any_true(items@, s),
            r == negation(old(self).conj(negs(items@))),
            final(self).nv() == old(self).nv() + if old(self).mints(negs(items@)) {
                1nat
            } else {
                0nat
            },
            !old(self).mints(negs(items@)) ==> final(self).same(old(self)),
            forall|k: Set<Lit>| old(self).gate_for(k) is Some ==> #[trigger] final(self).gate_for(k) == old(self).gate_for(k),
            negation(final(self).conj(negs(items@))) == r,
            !final(self).mints(negs(items@)),
            all_const(items@) ==> r is Const && final(self).same(old(self)),
    {
        proof {
            if all_const(items@) {
                lemma_lits_of_const(items@);
                lemma_lits_of_const(negs(items@));
            }
        }
        let ghost s0 = *self;
        let mut ns: Vec<Bool> = Vec::new();
        let mut i: usize = 0;
        while i < items.len()
            invariant
                i <= items.len(),
                ns@ == negs(items@.take(i as int)),
            decreases items.len() - i,
        {
            let b = self.not(items[i]);
            ns.push(b);
            i = i + 1;
            assert(ns@ =~= negs(items@.take(i as int)));
        }
        assert(items@.take(items.len() as int) =~= items@);
        proof {
            lemma_negs(items@, s0.nv(), |v: nat| true);
        }
        let c = self.and_many(ns);
        proof {
            assert forall|s: Assignment| #[trigger] sat(self.cls(), s) implies !val(c, s) == any_true(items@, s) by {
                lemma_negs(items@, s0.nv(), s);
            }
        }
        self.not(c)
    }

    /// What a conjunction of two values gives, case by case.
    proof fn lemma_conj_pair(c: Circuit, a: Bool, b: Bool)
        ensures
            c.conj(seq![a, b]) == c.conj(seq![b, a]),
            c.mints(seq![a, b]) == c.mints(seq![b, a]),
            a == Bool::Const(false) || b == Bool::Const(false) ==> c.conj(seq![a, b]) == Bool::Const(false) && !c.mints(
                seq![a, b],
            ),
            a == Bool::Const(true) ==> c.conj(seq![a, b]) == b && !c.mints(seq![a, b]),
            b == Bool::Const(true) ==> c.conj(seq![a, b]) == a && !c.mints(seq![a, b]),
            a == b ==> c.conj(seq![a, b]) == a && !c.mints(seq![a, b]),
            b == negation(a) ==> c.conj(seq![a, b]) == Bool::Const(false) && !c.mints(seq![a, b]),
    {
        lemma_pair(a, b);
        lemma_pair(b, a);
        assert(operand_set(seq![a, b]) =~= operand_set(seq![b, a]));
        let k = operand_set(seq![a, b]);
        if let Bool::Lit(l) = a {
            assert(set![l].contains(l));
            assert(set![l].len() == 1);
            assert(set![l].contains(set![l].choose()));
        }
        if let Bool::Lit(l) = b {
            assert(set![l].contains(l));
            assert(set![l].len() == 1);
            assert(set![l].contains(set![l].choose()));
        }
        if a == Bool::Const(true) || b == Bool::Const(true) || a == b {
            let other = if a == Bool::Const(true) { b } else { a };
            assert(k =~= lit_set(other)) by {
                if a == b {
                } else if a == Bool::Const(true) {
                } else {
                }
            }
            assert(!has_complement(k)) by {
                if has_complement(k) {
                    let l = choose|l: Lit| #[trigger] k.contains(l) && k.contains(neg(l));
                }
            }
        }
        if b == negation(a) {
            if let Bool::Lit(l) = a {
                assert(k.contains(l) && k.contains(neg(l)));
            }
        }
    }

    /// Binary conjunction, a conjunction of two: see [`Circuit::and_many`].
    /// Asking again for the same operands, in either order, gives the same
    /// result and mints nothing; `x ∧ x` is `x` and `x ∧ ¬x` is `false`.
    pub fn and(&mut self, a: Bool, b: Bool) -> (r: Bool)
        requires
            old(self).wf(),
            valid(a, old(self).nv()),
            valid(b, old(self).nv()),
            old(self).nv() < u32::MAX,
        ensures
            final(self).wf(),
            final(self).extends_from(old(self)),
            final(self).nv() <= old(self).nv() + 1,
            valid(r, final(self).nv()),
            forall|s: Assignment| #[trigger] sat(final(self).cls(), s) ==> val(r, s) == (val(a, s) && val(b, s)),
            r == old(self).conj(seq![a, b]),
            !old(self).mints(seq![a, b]) ==> final(self).same(old(self)),
            forall|k: Set<Lit>| old(self).gate_for(k) is Some ==> #[trigger] final(self).gate_for(k) == old(self).gate_for(k),
            final(self).conj(seq![a, b]) == r && !final(self).mints(seq![a, b]),
            final(self).conj(seq![b, a]) == r && !final(self).mints(seq![b, a]),
            a == Bool::Const(false) || b == Bool::Const(false) ==> r == Bool::Const(false) && final(self).same(old(self)),
            a == Bool::Const(true) ==> r == b && final(self).same(old(self)),
            b == Bool::Const(true) ==> r == a && final(self).same(old(self)),
            a == b ==> r == a && final(self).same(old(self)),
            b == negation(a) ==> r == Bool::Const(false) && final(self).same(old(self)),
    {
        let ghost items = seq![a, b];
        let ghost s0 = *self;
        proof {
            Self::lemma_conj_pair(s0, a, b);
        }
        let v = vec![a, b];
        assert(v@ =~= items);
        let r = self.and_many(v);
        proof {
            Self::lemma_conj_pair(*self, a, b);
            assert forall|s: Assignment| #[trigger] sat(self.cls(), s) implies val(r, s) == (val(a, s) && val(b, s)) by {
                assert(all_true(items, s) ==> val(items[0], s) && val(items[1], s));
            }
        }
        r
    }

    /// Binary disjunction, the negation of the conjunction of the negations:
    /// thus `¬(¬x ∨ ¬y)` and `x ∧ y` share one literal. Also `x ∨ x` equals
    /// `x`, and `x ∨ ¬x` equals `true`.
    pub fn or(&mut self, a: Bool, b: Bool) -> (r: Bool)
        requires
            old(self).wf(),
            valid(a, old(self).nv()),
            valid(b, old(self).nv()),
            old(self).nv() < u32::MAX,
        ensures
            final(self).wf(),
            final(self).extends_from(old(self)),
            final(self).nv() <= old(self).nv() + 1,
            valid(r, final(self).nv()),
            forall|s: Assignment| #[trigger] sat(final(self).cls(), s) ==> val(r, s) == (val(a, s) || val(b, s)),
            r == negation(old(self).conj(seq![negation(a), negation(b)])),
            !old(self).mints(seq![negation(a), negation(b)]) ==> final(self).same(old(self)),
            forall|k: Set<Lit>| old(self).gate_for(k) is Some ==> #[trigger] final(self).gate_for(k) == old(self).gate_for(k),
            negation(final(self).conj(seq![negation(a), negation(b)])) == r,
            a == Bool::Const(true) || b == Bool::Const(true) ==> r == Bool::Const(true) && final(self).same(old(self)),
            a == Bool::Const(false) ==> r == b && final(self).same(old(self)),
            b == Bool::Const(false) ==> r == a && final(self).same(old(self)),
            a == b ==> r == a && final(self).same(old(self)),
            b == negation(a) ==> r == Bool::Const(true) && final(self).same(old(self)),
    {
        let ghost items = seq![a, b];
        let ghost s0 = *self;
        let na = self.not(a);
        let nb = self.not(b);
        proof {
            Self::lemma_conj_pair(s0, na, nb);
            lemma_pair(a, b);
        }
        let v = vec![a, b];
        assert(v@ =~= items);
        let r = self.or_many(v);
        proof {
            assert forall|s: Assignment| #[trigger] sat(self.cls(), s) implies val(r, s) == (val(a, s) || val(b, s)) by {
                if val(a, s) {
                    assert(val(items[0], s));
                }
                if val(b, s) {
                    assert(val(items[1], s));
                }
            }
        }
        r
    }

    /// Implication `a → b`, as `¬a ∨ b`.
    pub fn implies(&mut self, a: Bool, b: Bool) -> (r: Bool)
        requires
            old(self).wf(),
            valid(a, old(self).nv()),
            valid(b, old(self).nv()),
            old(self).nv() < u32::MAX,
        ensures
            final(self).wf(),
            final(self).extends_from(old(self)),
            final(self).nv() <= old(self).nv() + 1,
            valid(r, final(self).nv()),
            forall|s: Assignment| #[trigger] sat(final(self).cls(), s) ==> val(r, s) == (val(a, s) ==> val(b, s)),
            a == Bool::Const(false) || b == Bool::Const(true) ==> r == Bool::Const(true) && final(self).same(old(self)),
            a == Bool::Const(true) ==> r == b && final(self).same(old(self)),
            b == Bool::Const(false) ==> r == negation(a) && final(self).same(old(self)),
    {
        let na = self.not(a);
        self.or(na, b)
    }

    /// Bi-implication `a ↔ b`. Against a constant it is the other side or
    /// its negation; otherwise `(a → b) ∧ (b → a)`, at most three gates.
    pub fn iff(&mut self, a: Bool, b: Bool) -> (r: Bool)
        requires
            old(self).wf(),
            valid(a, old(self).nv()),
            valid(b, old(self).nv()),
            old(self).nv() + 3 <= u32::MAX,
        ensures
            final(self).wf(),
            final(self).extends_from(old(self)),
            final(self).nv() <= old(self).nv() + 3,
            valid(r, final(self).nv()),
            forall|s: Assignment| #[trigger] sat(final(self).cls(), s) ==> val(r, s) == (val(a, s) == val(b, s)),
            a == Bool::Const(true) ==> r == b && final(self).same(old(self)),
            a == Bool::Const(false) ==> r == negation(b) && final(self).same(old(self)),
            a is Lit && b == Bool::Const(true) ==> r == a && final(self).same(old(self)),
            a is Lit && b == Bool::Const(false) ==> r == negation(a) && final(self).same(old(self)),
    {
        let ghost n0 = self.nv();
        let ghost c0 = self.cls();
        let ghost s0 = *self;
        match (a, b) {
            (Bool::Const(x), other) | (other, Bool::Const(x)) => {
                proof {
                    lemma_extends_refl(n0, c0);
                }
                if x {
                    other
                } else {
                    self.not(other)
                }
            },
            _ => {
                let ab = self.implies(a, b);
                let ghost s1 = *self;
                let ba = self.implies(b, a);
                let ghost s2 = *self;
                let r = self.and(ab, ba);
                proof {
                    lemma_extends_trans(s0.nv(), s0.cls(), s1.nv(), s1.cls(), s2.nv(), s2.cls());
                    lemma_extends_trans(s0.nv(), s0.cls(), s2.nv(), s2.cls(), self.nv(), self.cls());
                    assert forall|s: Assignment| #[trigger] sat(self.cls(), s) implies val(r, s) == (val(a, s) == val(b, s)) by {
                        lemma_sat_prefix(s2.cls(), self.cls(), s);
                        lemma_sat_prefix(s1.cls(), s2.cls(), s);
                    }
                }
                r
            },
        }
    }

    /// Exclusive-or `a ⊕ b`, as `¬(a ↔ b)`.
    pub fn xor(&mut self, a: Bool, b: Bool) -> (r: Bool)
        requires
            old(self).wf(),
            valid(a, old(self).nv()),
            valid(b, old(self).nv()),
            old(self).nv() + 3 <= u32::MAX,
        ensures
            final(self).wf(),
            final(self).extends_from(old(self)),
            final(self).nv() <= old(self).nv() + 3,
            valid(r, final(self).nv()),
            forall|s: Assignment| #[trigger] sat(final(self).cls(), s) ==> val(r, s) == (val(a, s) != val(b, s)),
            a == Bool::Const(false) ==> r == b && final(self).same(old(self)),
            a == Bool::Const(true) ==> r == negation(b) && final(self).same(old(self)),
            a is Lit && b == Bool::Const(false) ==> r == a && final(self).same(old(self)),
            a is Lit && b == Bool::Const(true) ==> r == negation(a) && final(self).same(old(self)),
    {
        let e = self.iff(a, b);
        self.not(e)
    }

    /// If-then-else `c ? t : e`. A constant condition picks a branch;
    /// otherwise `(c ∧ t) ∨ (¬c ∧ e)`, at most three gates.
    pub fn ite(&mut self, c: Bool, t: Bool, e: Bool) -> (r: Bool)
        requires
            old(self).wf(),
            valid(c, old(self).nv()),
            valid(t, old(self).nv()),
            valid(e, old(self).nv()),
            old(self).nv() + 3 <= u32::MAX,
        ensures
            final(self).wf(),
            final(self).extends_from(old(self)),
            final(self).nv() <= old(self).nv() + 3,
            valid(r, final(self).nv()),
            forall|s: Assignment| #[trigger] sat(final(self).cls(), s) ==> val(r, s) == if val(c, s) {
                val(t, s)
            } else {
                val(e, s)
            },
            c == Bool::Const(true) ==> r == t && final(self).same(old(self)),
            c == Bool::Const(false) ==> r == e && final(self).same(old(self)),
    {
        let ghost s0 = *self;
        match c {
            Bool::Const(true) => {
                proof {
                    lemma_extends_refl(s0.nv(), s0.cls());
                }
                t
            },
            Bool::Const(false) => {
                proof {
                    lemma_extends_refl(s0.nv(), s0.cls());
                }
                e
            },
            _ => {
                let nc = self.not(c);
                let ct = self.and(c, t);
                let ghost s1 = *self;
                let ne = self.and(nc, e);
                let ghost s2 = *self;
                let r = self.or(ct, ne);
                proof {
                    lemma_extends_trans(s0.nv(), s0.cls(), s1.nv(), s1.cls(), s2.nv(), s2.cls());
                    lemma_extends_trans(s0.nv(), s0.cls(), s2.nv(), s2.cls(), self.nv(), self.cls());
                    assert forall|s: Assignment| #[trigger] sat(self.cls(), s) implies val(r, s) == if val(c, s) {
                        val(t, s)
                    } else {
                        val(e, s)
                    } by {
                        lemma_sat_prefix(s2.cls(), self.cls(), s);
                        lemma_sat_prefix(s1.cls(), s2.cls(), s);
                    }
                }
                r
            },
        }
    }

    /// The negation of `b`; never mints a variable.
    pub fn not(&self, b: Bool) -> (r: Bool)
        ensures
            r == negation(b),
            forall|s: Assignment| val(r, s) == !val(b, s),
            forall|n: nat| valid(b, n) ==> valid(r, n),
    {
        match b {
            Bool::Const(x) => Bool::Const(!x),
            Bool::Lit(l) => Bool::Lit(l.negate()),
        }
    }
}

} // verus!
