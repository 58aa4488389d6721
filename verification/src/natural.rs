//! The natural order of titles.
//!
//! Titles are compared by the `alphanumeric-sort` crate: runs of digits by
//! their numeric value, other characters one by one. The library sorts lists
//! of links by it, stably: of two links of which neither title comes before
//! the other, the one that was listed first stays first.

use std::cmp::Ordering;
use vstd::prelude::*;

verus! {

/// What `alphanumeric_sort::compare_str` returns for the titles `a` and `b`.
pub uninterp spec fn natural_order(a: Seq<char>, b: Seq<char>) -> Ordering;

/// Calls `alphanumeric_sort::compare_str`, which walks the two strings and
/// reads nothing else: its result is the natural order of the two titles.
#[verifier::external_body]
fn compare_titles(a: &str, b: &str) -> (order: Ordering)
    ensures
        order == natural_order(a@, b@),
{
    alphanumeric_sort::compare_str(a, b)
}

/// Whether title `a` comes strictly before title `b` in natural order.
pub open spec fn precedes(a: Seq<char>, b: Seq<char>) -> bool {
    natural_order(a, b) == Ordering::Less
}

/// Whether a comparison says that the first title comes strictly before the
/// second.
pub fn is_before(order: Ordering) -> (before: bool)
    ensures
        before == (order == Ordering::Less),
{
    match order {
        Ordering::Less => true,
        Ordering::Equal => false,
        Ordering::Greater => false,
    }
}

/// Whether title `a` comes strictly before title `b` in natural order.
pub fn title_precedes(a: &str, b: &str) -> (before: bool)
    ensures
        before == precedes(a@, b@),
{
    is_before(compare_titles(a, b))
}

} // verus!
