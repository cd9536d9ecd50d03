//! Every call whose contract is believed rather than proved: the calls into the `itertools`
//! crate and into the parts of the standard library that have no verified contract.

use itertools::Itertools;
use std::cmp::Ordering;
use vstd::prelude::*;

verus! {

/// Whether each value of `s` is no larger than the values after it.
pub open spec fn ascending(s: Seq<usize>) -> bool {
    forall|i: int, j: int| 0 <= i <= j < s.len() ==> s[i] <= s[j]
}

/// `Itertools::sorted`, on sizes. Trusted: the result holds the values of `values`, each as
/// often as `values` does, in ascending order.
#[verifier::external_body]
pub(crate) fn sorted(values: Vec<u128>) -> (r: Vec<u128>)
    ensures
        r@.to_multiset() == values@.to_multiset(),
        forall|i: int, j: int| 0 <= i <= j < r.len() ==> r[i] <= r[j],
{
    values.into_iter().sorted().collect()
}

/// `Itertools::all_unique`, on bytes. Trusted: the answer is yes exactly when no two
/// positions of `window` hold the same byte.
#[verifier::external_body]
pub(crate) fn all_unique(window: &[u8]) -> (r: bool)
    ensures
        r == window@.no_duplicates(),
{
    window.iter().all_unique()
}

/// `Itertools::join` with an empty separator, on characters. Trusted: the result holds the
/// characters of `chars`, in their order, and nothing else.
#[verifier::external_body]
pub(crate) fn join(chars: &Vec<char>) -> (r: String)
    ensures
        r@ == chars@,
{
    chars.iter().join("")
}

/// Whether a byte is the byte looked for.
pub fn is_byte(b: &u8, target: u8) -> (r: bool)
    ensures
        r == (*b == target),
{
    *b == target
}

/// `Itertools::find_position`, on bytes, with `is_byte` as the test. Trusted: the result
/// is the first position of `bytes` that holds `target`, or nothing where no position
/// holds it.
#[verifier::external_body]
pub(crate) fn find_position(bytes: &[u8], target: u8) -> (r: Option<usize>)
    ensures
        match r {
            Some(j) => j < bytes@.len() && bytes@[j as int] == target && forall|k: int|
                0 <= k < j ==> bytes@[k] != target,
            None => forall|k: int| 0 <= k < bytes@.len() ==> bytes@[k] != target,
        },
{
    bytes.iter().find_position(|b| is_byte(b, target)).map(|found| found.0)
}

/// `slice::sort`, on a vector of numbers. Trusted: the vector keeps its values, each as
/// often as before, and holds them in ascending order.
#[verifier::external_body]
pub(crate) fn sort(values: &mut Vec<usize>)
    ensures
        final(values)@.to_multiset() == old(values)@.to_multiset(),
        ascending(final(values)@),
{
    values.sort()
}

/// How the lengths of two lists of items compare.
pub fn by_len(a: &Vec<char>, b: &Vec<char>) -> (o: Ordering)
    ensures
        o is Less <==> a.len() < b.len(),
        o is Equal <==> a.len() == b.len(),
        o is Greater <==> a.len() > b.len(),
{
    if a.len() < b.len() {
        Ordering::Less
    } else if a.len() == b.len() {
        Ordering::Equal
    } else {
        Ordering::Greater
    }
}

/// `Itertools::sorted_by`, on lists of items, with `by_len` as the order. Trusted: the
/// result holds the lists of `sets`, each as often as `sets` does, and no list stands
/// before a shorter one.
#[verifier::external_body]
pub(crate) fn sorted_by_len(sets: Vec<Vec<char>>) -> (r: Vec<Vec<char>>)
    ensures
        r@.to_multiset() == sets@.to_multiset(),
        forall|i: int, j: int| 0 <= i <= j < r.len() ==> r[i].len() <= r[j].len(),
{
    sets.into_iter().sorted_by(|a, b| by_len(a, b)).collect()
}

} // verus!
