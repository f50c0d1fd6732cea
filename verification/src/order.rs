//! The order in which child directories are shown: the larger first.

use vstd::prelude::*;
use itertools::Itertools;
use std::cmp::Ordering;
use crate::display::{is_ranking, numbered, RankedChild};

verus! {

/// Compares two children for display: the one with the larger count comes
/// first, and two with the same count are equal.
pub fn larger_first(a: &RankedChild, b: &RankedChild) -> (order: Ordering)
    ensures
        (order is Less) == (a.count > b.count),
        (order is Equal) == (a.count == b.count),
        (order is Greater) == (a.count < b.count),
{
    if a.count > b.count {
        Ordering::Less
    } else if a.count == b.count {
        Ordering::Equal
    } else {
        Ordering::Greater
    }
}

/// `itertools::Itertools::sorted_by`, with [`larger_first`] as the
/// comparison.
///
/// Not proved: that the result holds the items that went in, each once, in
/// an order in which no item comes before one that the comparison puts
/// first, and that items which compare equal keep the order they came in.
/// The items are numbered by their places when they go in, so the second
/// half reads: of two items with the same count, the one with the smaller
/// number comes first.
#[verifier::external_body]
pub(crate) fn sorted_larger_first(items: Vec<RankedChild>) -> (sorted: Vec<RankedChild>)
    requires
        numbered(items@),
    ensures
        is_ranking(items@, sorted@),
{
    items.into_iter().sorted_by(|a, b| larger_first(a, b)).collect()
}

} // verus!
