//! The stream of permutations that the exhaustive search walks.
//!
//! The permutations come from `itertools`. What this module states of that
//! crate is believed, not proved: each item below says what it claims.

use vstd::prelude::*;
use itertools::Itertools;
use itertools::structs::Permutations;
use std::ops::Range;
use crate::tour::is_tour;

verus! {

/// The iterator that `itertools` returns from `permutations`, taken as it is:
/// nothing is known of a value but what `pending` names.
#[verifier::external_type_specification]
#[verifier::external_body]
#[verifier::reject_recursive_types(I)]
pub struct ExPermutations<I: Iterator>(Permutations<I>);

/// The permutations that `stream` has yet to yield, in the order in which
/// `Iterator::next` will yield them.
pub uninterp spec fn pending(stream: Permutations<Range<usize>>) -> Seq<Seq<usize>>;

/// `a` comes before `b` in lexicographic order: where they first differ, `a`
/// has the smaller entry.
pub open spec fn lex_before(a: Seq<usize>, b: Seq<usize>) -> bool {
    exists|k: int|
        0 <= k < a.len() && k < b.len() && a.take(k) == b.take(k) && a[k] < #[trigger] b[k]
}

/// `listing` holds every permutation of the indices below `k` once, in
/// lexicographic order.
pub open spec fn is_permutation_listing(listing: Seq<Seq<usize>>, k: nat) -> bool {
    &&& forall|i: int| 0 <= i < listing.len() ==> is_tour(#[trigger] listing[i], k)
    &&& forall|p: Seq<usize>| #[trigger] is_tour(p, k) ==> listing.contains(p)
    &&& forall|i: int, j: int|
        0 <= i < j < listing.len() ==> lex_before(#[trigger] listing[i], #[trigger] listing[j])
}

/// Calls `Itertools::permutations` on the range `0..k`, with `k` as the length
/// of each permutation.
///
/// Claimed of it: the iterator will yield every permutation of the indices
/// below `k` exactly once, in lexicographic order; for `k == 0` that is the
/// empty permutation alone.
#[verifier::external_body]
pub(crate) fn permutations_of_range(k: usize) -> (stream: Permutations<Range<usize>>)
    ensures
        is_permutation_listing(pending(stream), k as nat),
{
    (0..k).permutations(k)
}

/// Calls `Iterator::next` on a stream of permutations.
///
/// Claimed of it: it yields the first of the pending permutations and leaves
/// the others pending, and it yields nothing, and keeps doing so, once none is
/// pending.
#[verifier::external_body]
pub(crate) fn next_permutation(stream: &mut Permutations<Range<usize>>) -> (next: Option<
    Vec<usize>,
>)
    ensures
        next matches Some(p) ==> pending(*old(stream)).len() > 0 && p@ == pending(
            *old(stream),
        )[0] && pending(*final(stream)) == pending(*old(stream)).drop_first(),
        next is None ==> pending(*old(stream)).len() == 0 && pending(*final(stream)).len() == 0,
{
    stream.next()
}

/// Lexicographic order runs one way only.
pub proof fn lemma_lex_before_asymmetric(a: Seq<usize>, b: Seq<usize>)
    requires
        lex_before(a, b),
    ensures
        !lex_before(b, a),
{
    if lex_before(b, a) {
        let k = choose|k: int|
            0 <= k < a.len() && k < b.len() && a.take(k) == b.take(k) && a[k] < #[trigger] b[k];
        let m = choose|m: int|
            0 <= m < b.len() && m < a.len() && b.take(m) == a.take(m) && b[m] < #[trigger] a[m];
        if k < m {
            assert(b.take(m)[k] == a.take(m)[k]);
        } else if m < k {
            assert(a.take(k)[m] == b.take(k)[m]);
        }
    }
}

} // verus!
