use vstd::prelude::*;

verus! {

/// An associative binary operation with a two-sided identity element.
///
/// `S` is the executable element type and `V` its mathematical model;
/// `view_of` maps an element to its model. All contracts of the segment
/// tree are stated over model values.
///
/// Implementors must prove the two monoid laws, `lemma_identity` and
/// `lemma_assoc`; the operation need not be commutative.
pub trait Monoid {
    /// The executable element type.
    type S;

    /// The mathematical model of an element.
    type V;

    /// The model of a concrete element.
    spec fn view_of(s: Self::S) -> Self::V;

    /// The identity element, as a model value.
    spec fn spec_id() -> Self::V;

    /// The combining operation on model values; `a` is the left operand.
    spec fn spec_op(a: Self::V, b: Self::V) -> Self::V;

    /// Identity law: combining with the identity on either side returns
    /// the value unchanged.
    proof fn lemma_identity(x: Self::V)
        ensures
            Self::spec_op(Self::spec_id(), x) == x,
            Self::spec_op(x, Self::spec_id()) == x,
    ;

    /// Associativity law: the grouping of combinations does not matter.
    proof fn lemma_assoc(a: Self::V, b: Self::V, c: Self::V)
        ensures
            Self::spec_op(Self::spec_op(a, b), c) == Self::spec_op(a, Self::spec_op(b, c)),
    ;

    /// Returns the identity element.
    fn id() -> (r: Self::S)
        ensures
            Self::view_of(r) == Self::spec_id(),
    ;

    /// Combines two elements; `a` is the left operand.
    fn bi_op(a: &Self::S, b: &Self::S) -> (r: Self::S)
        ensures
            Self::view_of(r) == Self::spec_op(Self::view_of(*a), Self::view_of(*b)),
    ;

    /// Returns an element with the same model as `a`.
    fn dup(a: &Self::S) -> (r: Self::S)
        ensures
            Self::view_of(r) == Self::view_of(*a),
    ;
}

/// The left-to-right fold of the model values `s[l], s[l+1], ..., s[r-1]`
/// under the monoid operation: `op(s[l], op(s[l+1], ...))`. An empty range
/// folds to the identity.
pub open spec fn seq_fold<M: Monoid>(s: Seq<M::V>, l: int, r: int) -> M::V
    decreases r - l,
{
    if l >= r {
        M::spec_id()
    } else {
        M::spec_op(s[l], seq_fold::<M>(s, l + 1, r))
    }
}

/// Folding a range equals combining the folds of its two parts, in order.
pub proof fn lemma_fold_split<M: Monoid>(s: Seq<M::V>, l: int, m: int, r: int)
    requires
        l <= m <= r,
    ensures
        seq_fold::<M>(s, l, r) == M::spec_op(seq_fold::<M>(s, l, m), seq_fold::<M>(s, m, r)),
    decreases m - l,
{
    if l == m {
        M::lemma_identity(seq_fold::<M>(s, m, r));
    } else {
        lemma_fold_split::<M>(s, l + 1, m, r);
        M::lemma_assoc(s[l], seq_fold::<M>(s, l + 1, m), seq_fold::<M>(s, m, r));
    }
}

} // verus!
