//! Candidate enumeration: the k-permutations of the digit set, drawn from
//! itertools. The enumeration order is itertools' own; the solver's contract
//! is stated over `perm_list`, the fixed sequence that one enumeration yields,
//! so that the result of a solve is a function of its inputs alone.

use vstd::prelude::*;
use itertools::Itertools;

verus! {

/// An ordered selection of `k` distinct elements of `source`.
pub open spec fn is_selection(p: Seq<u32>, source: Seq<u32>, k: nat) -> bool {
    &&& p.len() == k
    &&& p.no_duplicates()
    &&& forall|i: int| 0 <= i < p.len() ==> source.contains(#[trigger] p[i])
}

/// The sequence of k-permutations of `source` that itertools' `permutations`
/// yields, in its enumeration order.
pub uninterp spec fn perm_list(source: Seq<u32>, k: nat) -> Seq<Seq<u32>>;

/// Declares itertools' `Permutations` iterator so that its values can be
/// carried through signatures; Verus sees nothing inside them.
#[verifier::external_type_specification]
#[verifier::external_body]
#[verifier::reject_recursive_types(I)]
pub struct ExPermutations<I: Iterator>(itertools::structs::Permutations<I>);

/// A stream of the k-permutations of a digit sequence.
pub type PermStream = itertools::structs::Permutations<std::vec::IntoIter<u32>>;

/// The permutations the stream has not yet handed out.
pub uninterp spec fn stream_rest(s: PermStream) -> Seq<Seq<u32>>;

/// Relies on itertools::Itertools::permutations: it iterates over all
/// k-permutations of the elements of the source, each a vector of length k;
/// for a source without duplicates those are exactly the ordered selections
/// of k distinct source elements. The order is fixed by the source alone.
#[verifier::external_body]
pub fn perm_stream(digits: Vec<u32>, k: usize) -> (s: PermStream)
    requires
        digits@.no_duplicates(),
    ensures
        stream_rest(s) == perm_list(digits@, k as nat),
        forall|i: int| 0 <= i < stream_rest(s).len() ==> is_selection(
            #[trigger] stream_rest(s)[i],
            digits@,
            k as nat,
        ),
        forall|p: Seq<u32>| is_selection(p, digits@, k as nat) ==> stream_rest(s).contains(p),
{
    digits.into_iter().permutations(k)
}

/// Relies on Iterator::next of itertools' Permutations: it hands out the
/// remaining permutations in order, then yields nothing.
#[verifier::external_body]
pub fn perm_stream_next(s: &mut PermStream) -> (r: Option<Vec<u32>>)
    ensures
        stream_rest(*old(s)).len() == 0 ==> r is None,
        stream_rest(*old(s)).len() > 0 ==> (r matches Some(p) && p@ == stream_rest(*old(s))[0]
            && stream_rest(*final(s)) == stream_rest(*old(s)).drop_first()),
{
    s.next()
}

} // verus!
