//! The three-sorted relational IR: formulas (boolean), relation expressions
//! and integer expressions, each held in an arena and referred to by index.
//! Every node keeps the [`Span`] of the source construct it came from.

use vstd::prelude::*;

use crate::span::Span;

verus! {

/// Index into [`Ir::formulas`].
#[derive(Clone, Copy, PartialEq, Eq, PartialOrd, Ord, Debug, Structural)]
pub struct FormulaId {
    /// Position in the formula arena.
    pub index: usize,
}

/// Index into [`Ir::rel_exprs`].
#[derive(Clone, Copy, PartialEq, Eq, PartialOrd, Ord, Debug, Structural)]
pub struct RelExprId {
    /// Position in the relation-expression arena.
    pub index: usize,
}

/// Index into [`Ir::int_exprs`].
#[derive(Clone, Copy, PartialEq, Eq, PartialOrd, Ord, Debug, Structural)]
pub struct IntExprId {
    /// Position in the integer-expression arena.
    pub index: usize,
}

/// Index into [`Ir::relations`]: a free relation the solver assigns.
#[derive(Clone, Copy, PartialEq, Eq, PartialOrd, Ord, Debug, Structural)]
pub struct RelId {
    /// Position in the relation arena.
    pub index: usize,
}

/// Index into [`Ir::vars`]: a variable bound by a quantifier, comprehension or
/// `sum`.
#[derive(Clone, Copy, PartialEq, Eq, PartialOrd, Ord, Debug, Structural)]
pub struct VarId {
    /// Position in the variable arena.
    pub index: usize,
}

impl RelId {
    /// The relation at arena position `index`.
    pub fn from_index(index: usize) -> (r: RelId)
        ensures
            r.index == index,
    {
        RelId { index }
    }

    /// The arena position.
    pub fn index(self) -> (i: usize)
        ensures
            i == self.index,
    {
        self.index
    }
}

impl VarId {
    /// The variable at arena position `index`.
    pub fn from_index(index: usize) -> (v: VarId)
        ensures
            v.index == index,
    {
        VarId { index }
    }

    /// The arena position.
    pub fn index(self) -> (i: usize)
        ensures
            i == self.index,
    {
        self.index
    }
}

/// A free relation: something the solver picks tuples for.
#[derive(Clone, PartialEq, Eq, Debug)]
pub struct Relation {
    /// Diagnostic name (e.g. `this/Node`, `this/Node.next`, a skolem name).
    pub name: String,
    /// Arity (>= 1).
    pub arity: usize,
    /// Span of the declaring source construct.
    pub span: Span,
    /// Whether the relation's value is fixed or may change between states.
    pub mutability: Mutability,
    /// Whether this is a placeholder for a `$`-metamodel field, which is
    /// pinned by a defining fact rather than bounded on its own.
    pub is_meta_field: bool,
}

/// Whether a relation's value may change from one state to the next.
#[derive(Clone, Copy, PartialEq, Eq, Debug, Structural)]
pub enum Mutability {
    /// The same in every state.
    Static,
    /// A `var` relation: its value may differ between states.
    Variable,
}

/// A quantifier/comprehension/`sum`-bound variable.
#[derive(Clone, PartialEq, Eq, Debug)]
pub struct Var {
    /// Diagnostic name as written in source.
    pub name: String,
    /// Arity: 1 for ordinary quantification.
    pub arity: usize,
    /// Span of the binding occurrence.
    pub span: Span,
}

/// A boolean-sorted node.
#[derive(Clone, PartialEq, Eq, Debug)]
pub struct Formula {
    /// What kind of node this is.
    pub kind: FormulaKind,
    /// Surface construct this was lowered from.
    pub span: Span,
}

/// Formula node kinds.
#[derive(Clone, PartialEq, Eq, Debug)]
pub enum FormulaKind {
    /// Constant true/false.
    Const(bool),
    /// Negation.
    Not(FormulaId),
    /// N-ary conjunction.
    And(Vec<FormulaId>),
    /// N-ary disjunction.
    Or(Vec<FormulaId>),
    /// Implication.
    Implies {
        /// Antecedent.
        antecedent: FormulaId,
        /// Consequent.
        consequent: FormulaId,
    },
    /// Bi-implication.
    Iff(FormulaId, FormulaId),
    /// Relational comparison.
    RelCompare {
        /// Operator.
        op: RelCmpOp,
        /// Left operand.
        lhs: RelExprId,
        /// Right operand.
        rhs: RelExprId,
    },
    /// Integer comparison.
    IntCompare {
        /// Operator.
        op: IntCmpOp,
        /// Left operand.
        lhs: IntExprId,
        /// Right operand.
        rhs: IntExprId,
    },
    /// Multiplicity test on a relation expression.
    MultTest {
        /// Which test.
        test: MultTest,
        /// Tested expression.
        expr: RelExprId,
    },
    /// Quantified formula over one variable.
    Quant {
        /// `all` or `some`.
        kind: QuantKind,
        /// The bound variable.
        var: VarId,
        /// The bound it ranges over.
        bound: RelExprId,
        /// Body.
        body: FormulaId,
    },
    /// Unary temporal connective.
    TemporalUnary {
        /// Connective.
        op: TemporalUnOp,
        /// Body.
        body: FormulaId,
    },
    /// Binary temporal connective.
    TemporalBinary {
        /// Connective.
        op: TemporalBinOp,
        /// Left operand.
        lhs: FormulaId,
        /// Right operand.
        rhs: FormulaId,
    },
}

/// Primitive quantifiers after desugaring.
#[derive(Copy, Clone, PartialEq, Eq, Debug, Structural)]
pub enum QuantKind {
    /// Universal.
    All,
    /// Existential.
    Exists,
}

/// Relational comparison operators.
#[derive(Copy, Clone, PartialEq, Eq, Debug, Structural)]
pub enum RelCmpOp {
    /// Subset (`in`).
    Subset,
    /// Equality.
    Equal,
}

/// Integer comparison operators.
#[derive(Copy, Clone, PartialEq, Eq, Debug, Structural)]
pub enum IntCmpOp {
    /// `=`.
    Eq,
    /// `<`.
    Lt,
    /// `=<`.
    Le,
    /// `>`.
    Gt,
    /// `>=`.
    Ge,
}

/// Multiplicity tests.
#[derive(Copy, Clone, PartialEq, Eq, Debug, Structural)]
pub enum MultTest {
    /// Empty.
    No,
    /// Non-empty.
    Nonempty,
    /// At most one tuple.
    Lone,
    /// Exactly one tuple.
    One,
}

/// Unary temporal connectives.
#[derive(Copy, Clone, PartialEq, Eq, Debug, Structural)]
pub enum TemporalUnOp {
    /// `always`.
    Always,
    /// `eventually`.
    Eventually,
    /// `after`.
    After,
    /// `before`.
    Before,
    /// `historically`.
    Historically,
    /// `once`.
    Once,
}

/// Binary temporal connectives.
#[derive(Copy, Clone, PartialEq, Eq, Debug, Structural)]
pub enum TemporalBinOp {
    /// `until`.
    Until,
    /// `releases`.
    Releases,
    /// `since`.
    Since,
    /// `triggered`.
    Triggered,
}

/// A relation-sorted node.
#[derive(Clone, PartialEq, Eq, Debug)]
pub struct RelExpr {
    /// What kind of node this is.
    pub kind: RelExprKind,
    /// Surface construct this was lowered from.
    pub span: Span,
}

/// Relation-expression node kinds.
#[derive(Clone, PartialEq, Eq, Debug)]
pub enum RelExprKind {
    /// A free relation.
    Relation(RelId),
    /// A bound variable.
    Var(VarId),
    /// A relational constant.
    Const(RelConst),
    /// Binary relational operation.
    Binary {
        /// Operator.
        op: RelBinOp,
        /// Left operand.
        lhs: RelExprId,
        /// Right operand.
        rhs: RelExprId,
    },
    /// Unary relational operation.
    Unary {
        /// Operator.
        op: RelUnOp,
        /// Operand.
        expr: RelExprId,
    },
    /// The value of the operand in the next state (`e'`).
    Prime(RelExprId),
    /// Conditional expression.
    IfThenElse {
        /// Condition.
        cond: FormulaId,
        /// Value when true.
        then_branch: RelExprId,
        /// Value when false.
        else_branch: RelExprId,
    },
    /// Set comprehension over unary-bound variables.
    Comprehension {
        /// Bindings, in binding order.
        decls: Vec<CompDecl>,
        /// Membership condition.
        body: FormulaId,
    },
    /// `Int[ie]`: the `Int` atom carrying an integer value.
    IntToAtom(IntExprId),
}

/// One `var: bound` binding of a comprehension.
#[derive(Copy, Clone, PartialEq, Eq, Debug, Structural)]
pub struct CompDecl {
    /// The bound variable.
    pub var: VarId,
    /// The unary bound it ranges over.
    pub bound: RelExprId,
}

/// Relational constants: `None` and `Univ` are unary, `Iden` is binary.
#[derive(Copy, Clone, PartialEq, Eq, Debug, Structural)]
pub enum RelConst {
    /// The empty unary relation.
    Empty,
    /// All atoms (unary).
    Univ,
    /// The identity relation (binary).
    Iden,
}

/// Binary relational operators.
#[derive(Copy, Clone, PartialEq, Eq, Debug, Structural)]
pub enum RelBinOp {
    /// Union.
    Union,
    /// Difference.
    Diff,
    /// Intersection.
    Intersect,
    /// Relational join.
    Join,
    /// Cartesian product (`->`).
    Product,
    /// Override (`++`).
    Override,
}

/// Unary relational operators.
#[derive(Copy, Clone, PartialEq, Eq, Debug, Structural)]
pub enum RelUnOp {
    /// Transpose (binary operand).
    Transpose,
    /// Transitive closure (binary operand).
    Closure,
    /// Reflexive-transitive closure (binary operand).
    ReflexiveClosure,
}

/// An integer-sorted node.
#[derive(Clone, PartialEq, Eq, Debug)]
pub struct IntExpr {
    /// What kind of node this is.
    pub kind: IntExprKind,
    /// Surface construct this was lowered from.
    pub span: Span,
}

/// Integer-expression node kinds.
#[derive(Clone, PartialEq, Eq, Debug)]
pub enum IntExprKind {
    /// Integer constant.
    Const(i32),
    /// Cardinality of a relation expression.
    Card(RelExprId),
    /// `int[e]`: the integer value of a set of `Int` atoms.
    AtomToInt(RelExprId),
    /// Arithmetic negation.
    Neg(IntExprId),
    /// Binary integer operation.
    Binary {
        /// Operator.
        op: IntBinOp,
        /// Left operand.
        lhs: IntExprId,
        /// Right operand.
        rhs: IntExprId,
    },
    /// `sum var: bound | body`.
    Sum {
        /// The bound variable.
        var: VarId,
        /// The unary bound it ranges over.
        bound: RelExprId,
        /// Summed integer expression.
        body: IntExprId,
    },
    /// Conditional expression.
    IfThenElse {
        /// Condition.
        cond: FormulaId,
        /// Value when true.
        then_branch: IntExprId,
        /// Value when false.
        else_branch: IntExprId,
    },
}

/// Binary integer operators.
#[derive(Copy, Clone, PartialEq, Eq, Debug, Structural)]
pub enum IntBinOp {
    /// Addition.
    Add,
    /// Subtraction.
    Sub,
    /// Multiplication.
    Mul,
    /// Division.
    Div,
    /// Remainder.
    Rem,
    /// Shift left.
    Shl,
    /// Sign-extending shift right.
    Sha,
    /// Zero-extending shift right.
    Shr,
}

/// One lowered problem: arenas for all three sorts plus declarations.
/// Allocation order is the order nodes were added, and every id indexes the
/// arena of its sort.
#[derive(Clone, PartialEq, Eq, Debug)]
pub struct Ir {
    /// Boolean-sorted nodes.
    pub formulas: Vec<Formula>,
    /// Relation-sorted nodes.
    pub rel_exprs: Vec<RelExpr>,
    /// Integer-sorted nodes.
    pub int_exprs: Vec<IntExpr>,
    /// Free relations the solver assigns.
    pub relations: Vec<Relation>,
    /// Bound variables.
    pub vars: Vec<Var>,
}

impl Ir {
    /// An IR with every arena empty.
    pub fn new() -> (ir: Ir)
        ensures
            ir.formulas@.len() == 0,
            ir.rel_exprs@.len() == 0,
            ir.int_exprs@.len() == 0,
            ir.relations@.len() == 0,
            ir.vars@.len() == 0,
    {
        Ir {
            formulas: Vec::new(),
            rel_exprs: Vec::new(),
            int_exprs: Vec::new(),
            relations: Vec::new(),
            vars: Vec::new(),
        }
    }

    /// Adds a formula node; returns its id.
    pub fn alloc_formula(&mut self, f: Formula) -> (id: FormulaId)
        requires
            old(self).formulas@.len() < usize::MAX,
        ensures
            id.index == old(self).formulas@.len(),
            final(self).formulas@ == old(self).formulas@.push(f),
            final(self).rel_exprs == old(self).rel_exprs,
            final(self).int_exprs == old(self).int_exprs,
            final(self).relations == old(self).relations,
            final(self).vars == old(self).vars,
    {
        let id = FormulaId { index: self.formulas.len() };
        self.formulas.push(f);
        id
    }

    /// Adds a relation-expression node; returns its id.
    pub fn alloc_rel_expr(&mut self, e: RelExpr) -> (id: RelExprId)
        requires
            old(self).rel_exprs@.len() < usize::MAX,
        ensures
            id.index == old(self).rel_exprs@.len(),
            final(self).rel_exprs@ == old(self).rel_exprs@.push(e),
            final(self).formulas == old(self).formulas,
            final(self).int_exprs == old(self).int_exprs,
            final(self).relations == old(self).relations,
            final(self).vars == old(self).vars,
    {
        let id = RelExprId { index: self.rel_exprs.len() };
        self.rel_exprs.push(e);
        id
    }

    /// Adds an integer-expression node; returns its id.
    pub fn alloc_int_expr(&mut self, e: IntExpr) -> (id: IntExprId)
        requires
            old(self).int_exprs@.len() < usize::MAX,
        ensures
            id.index == old(self).int_exprs@.len(),
            final(self).int_exprs@ == old(self).int_exprs@.push(e),
            final(self).formulas == old(self).formulas,
            final(self).rel_exprs == old(self).rel_exprs,
            final(self).relations == old(self).relations,
            final(self).vars == old(self).vars,
    {
        let id = IntExprId { index: self.int_exprs.len() };
        self.int_exprs.push(e);
        id
    }

    /// Adds a free relation; returns its id.
    pub fn alloc_relation(&mut self, r: Relation) -> (id: RelId)
        requires
            old(self).relations@.len() < usize::MAX,
        ensures
            id.index == old(self).relations@.len(),
            final(self).relations@ == old(self).relations@.push(r),
            final(self).formulas == old(self).formulas,
            final(self).rel_exprs == old(self).rel_exprs,
            final(self).int_exprs == old(self).int_exprs,
            final(self).vars == old(self).vars,
    {
        let id = RelId { index: self.relations.len() };
        self.relations.push(r);
        id
    }

    /// Adds a bound variable; returns its id.
    pub fn alloc_var(&mut self, v: Var) -> (id: VarId)
        requires
            old(self).vars@.len() < usize::MAX,
        ensures
            id.index == old(self).vars@.len(),
            final(self).vars@ == old(self).vars@.push(v),
            final(self).formulas == old(self).formulas,
            final(self).rel_exprs == old(self).rel_exprs,
            final(self).int_exprs == old(self).int_exprs,
            final(self).relations == old(self).relations,
    {
        let id = VarId { index: self.vars.len() };
        self.vars.push(v);
        id
    }
}

impl Default for Ir {
    fn default() -> (ir: Ir)
        ensures
            ir.formulas@.len() == 0,
            ir.rel_exprs@.len() == 0,
            ir.int_exprs@.len() == 0,
            ir.relations@.len() == 0,
            ir.vars@.len() == 0,
    {
        Ir::new()
    }
}

} // verus!
