use crate::basic_fn::FnKind;
use vstd::prelude::*;

verus! {

/// The ghost sequence type that appears in the erased signatures of the
/// `*_spec` members of [`Scalar`]: unverified implementors outside this
/// crate name it through this alias.
pub type ArgList<T> = Seq<T>;

/// The numeric collaborator boundary: the embedding code supplies the scalar
/// type together with one forward evaluator and one gradient evaluator per
/// operation kind.
///
/// The engine itself never computes with scalars; it only combines what
/// these evaluators return, so everything proved about the graph holds for
/// any implementation of this trait. The ghost `*_spec` members name the
/// values the evaluators return; the executable members must return exactly
/// those values.
pub trait Scalar: Sized + Copy {
    /// The seed derivative of an output with respect to itself.
    spec fn one_spec() -> Self;

    /// Accumulation of two gradient contributions.
    spec fn add_spec(a: Self, b: Self) -> Self;

    /// Chain-rule product of a local partial and an incoming gradient.
    spec fn mul_spec(a: Self, b: Self) -> Self;

    /// The value of the forward evaluator of `kind` on `args`.
    spec fn fwd_spec(kind: FnKind, args: Seq<Self>) -> Self;

    /// The partials returned by the gradient evaluator of `kind` on `args`.
    spec fn grad_spec(kind: FnKind, args: Seq<Self>) -> Seq<Self>;

    /// A gradient evaluator must return exactly one partial per input.
    proof fn grad_spec_arity(kind: FnKind, args: Seq<Self>)
        ensures
            Self::grad_spec(kind, args).len() == args.len(),
    ;

    fn one() -> (r: Self)
        ensures
            r == Self::one_spec(),
    ;

    fn add(a: Self, b: Self) -> (r: Self)
        ensures
            r == Self::add_spec(a, b),
    ;

    fn mul(a: Self, b: Self) -> (r: Self)
        ensures
            r == Self::mul_spec(a, b),
    ;

    fn fwd(kind: &FnKind, args: &Vec<Self>) -> (r: Self)
        ensures
            r == Self::fwd_spec(*kind, args@),
    ;

    fn grad(kind: &FnKind, args: &Vec<Self>) -> (r: Vec<Self>)
        ensures
            r@ == Self::grad_spec(*kind, args@),
    ;
}

} // verus!
