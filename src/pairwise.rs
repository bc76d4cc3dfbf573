//! Approximate equality of two sequences, pair by pair.
use crate::ApproxEq;
use vstd::prelude::*;

verus! {

/// Why two sequences were found not to be approximately equal.
#[derive(Clone, Copy, Debug, PartialEq, Eq, Structural)]
pub enum SliceMismatch {
    /// The sequences differ in length; no pair was compared.
    Length { left: usize, right: usize },
    /// The pair at `index` is the first that is not approximately equal.
    Pair { index: usize },
}

/// The first `n` pairs of `a` and `b` are approximately equal.
pub open spec fn pairs_approx_eq<T: ApproxEq>(a: Seq<T>, b: Seq<T>, n: int) -> bool {
    forall|i: int| 0 <= i < n ==> #[trigger] a[i].approx_eq_spec(b[i])
}

/// Compares two sequences: their lengths first, and only when these agree,
/// each pair in order, reporting the first pair that is not approximately
/// equal.
pub fn approx_eq_slices<T: ApproxEq + Copy>(a: &[T], b: &[T]) -> (r: Result<(), SliceMismatch>)
    ensures
        a@.len() != b@.len() <==> r == Err::<(), SliceMismatch>(
            SliceMismatch::Length { left: a@.len() as usize, right: b@.len() as usize },
        ),
        r is Ok <==> (a@.len() == b@.len() && pairs_approx_eq(a@, b@, a@.len() as int)),
        r matches Err(SliceMismatch::Pair { index }) ==> {
            &&& a@.len() == b@.len()
            &&& index < a@.len()
            &&& !a@[index as int].approx_eq_spec(b@[index as int])
            &&& pairs_approx_eq(a@, b@, index as int)
        },
{
    if a.len() != b.len() {
        return Err(SliceMismatch::Length { left: a.len(), right: b.len() });
    }
    let mut i: usize = 0;
    while i < a.len()
        invariant
            a@.len() == b@.len(),
            i <= a@.len(),
            pairs_approx_eq(a@, b@, i as int),
        decreases a@.len() - i,
    {
        if !a[i].approx_eq(b[i]) {
            return Err(SliceMismatch::Pair { index: i });
        }
        i = i + 1;
    }
    Ok(())
}

} // verus!
