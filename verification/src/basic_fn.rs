use vstd::prelude::*;

verus! {

/// Identifies a scalar operation: one of the built-in operations, or an
/// operation registered by the embedding code under a numeric tag.
#[derive(Clone, Copy, Debug, PartialEq, Eq)]
pub enum FnKind {
    Exp,
    Ln,
    Sin,
    Cos,
    Neg,
    Sub,
    Div,
    Sum,
    Product,
    Custom { tag: u64, arity: usize },
}

impl FnKind {
    /// The declared input arity of the operation: the unary and binary
    /// operations are fixed, while `Sum` and `Product` take two or more
    /// inputs and a custom operation declares its own arity.
    pub open spec fn arity_ok(self, n: nat) -> bool {
        match self {
            FnKind::Exp => n == 1,
            FnKind::Ln => n == 1,
            FnKind::Sin => n == 1,
            FnKind::Cos => n == 1,
            FnKind::Neg => n == 1,
            FnKind::Sub => n == 2,
            FnKind::Div => n == 2,
            FnKind::Sum => n >= 2,
            FnKind::Product => n >= 2,
            FnKind::Custom { tag: _, arity } => n == arity,
        }
    }
}

/// An operation: the forward evaluator and gradient evaluator selected by
/// `kind`, plus an optional human-readable label for diagnostics.
///
/// An operation is an immutable description; every node built from it holds
/// a copy. It owns no nodes and carries no state.
#[derive(Clone, Copy, Debug)]
pub struct BasicFn {
    pub kind: FnKind,
    pub info: Option<&'static str>,
}

/// One input to an operation: a bare numeric constant, or an existing node
/// given by its index in the graph's arena.
#[derive(Clone, Copy, Debug)]
pub enum FnInput<V> {
    Const(V),
    Node(usize),
}

impl BasicFn {
    /// An operation backed by the evaluator pair that the embedding code
    /// registered under `tag`, taking exactly `arity` inputs.
    pub fn new(tag: u64, arity: usize) -> (r: Self)
        ensures
            r.kind == (FnKind::Custom { tag, arity }),
            r.info is None,
    {
        BasicFn { kind: FnKind::Custom { tag, arity }, info: None }
    }

    /// The same operation with a human-readable label attached.
    pub fn with_info(self, info: &'static str) -> (r: Self)
        ensures
            r.kind == self.kind,
            r.info == Some(info),
    {
        BasicFn { kind: self.kind, info: Some(info) }
    }

    /// `e^x`.
    pub fn exp() -> (r: Self)
        ensures
            r.kind == FnKind::Exp,
    {
        BasicFn { kind: FnKind::Exp, info: Some("exp") }
    }

    /// Natural logarithm.
    pub fn ln() -> (r: Self)
        ensures
            r.kind == FnKind::Ln,
    {
        BasicFn { kind: FnKind::Ln, info: Some("ln") }
    }

    /// Sine.
    pub fn sin() -> (r: Self)
        ensures
            r.kind == FnKind::Sin,
    {
        BasicFn { kind: FnKind::Sin, info: Some("sin") }
    }

    /// Cosine.
    pub fn cos() -> (r: Self)
        ensures
            r.kind == FnKind::Cos,
    {
        BasicFn { kind: FnKind::Cos, info: Some("cos") }
    }

    /// Negation.
    pub fn neg() -> (r: Self)
        ensures
            r.kind == FnKind::Neg,
    {
        BasicFn { kind: FnKind::Neg, info: Some("neg") }
    }

    /// Addition of two or more inputs.
    pub fn sum() -> (r: Self)
        ensures
            r.kind == FnKind::Sum,
    {
        BasicFn { kind: FnKind::Sum, info: Some("sum") }
    }

    /// Subtraction of the second input from the first.
    pub fn sub() -> (r: Self)
        ensures
            r.kind == FnKind::Sub,
    {
        BasicFn { kind: FnKind::Sub, info: Some("sub") }
    }

    /// Multiplication of two or more inputs.
    pub fn product() -> (r: Self)
        ensures
            r.kind == FnKind::Product,
    {
        BasicFn { kind: FnKind::Product, info: Some("product") }
    }

    /// Division of the first input by the second.
    pub fn div() -> (r: Self)
        ensures
            r.kind == FnKind::Div,
    {
        BasicFn { kind: FnKind::Div, info: Some("div") }
    }

    /// Invoke the operation's forward evaluator on resolved input values.
    pub fn value_fn<V: crate::scalar::Scalar>(&self, inputs: &Vec<V>) -> (r: V)
        ensures
            r == V::fwd_spec(self.kind, inputs@),
    {
        V::fwd(&self.kind, inputs)
    }

    /// Invoke the operation's gradient evaluator on resolved input values:
    /// one partial derivative per input.
    pub fn grad_fn<V: crate::scalar::Scalar>(&self, inputs: &Vec<V>) -> (r: Vec<V>)
        ensures
            r@ == V::grad_spec(self.kind, inputs@),
            r@.len() == inputs@.len(),
    {
        let r = V::grad(&self.kind, inputs);
        proof {
            V::grad_spec_arity(self.kind, inputs@);
        }
        r
    }
}

} // verus!
