//! Putting the heaviest items first.

use core::cmp::Ordering;
use vstd::prelude::*;

verus! {

/// Something that has a size in bytes.
pub trait Weighed: Sized {
    spec fn weight_view(&self) -> u64;

    /// The size in bytes.
    fn weight(&self) -> (r: u64)
        ensures
            r == self.weight_view(),
    ;
}

/// Whether no item is lighter than one behind it.
pub open spec fn heaviest_first<T: Weighed>(items: Seq<T>) -> bool {
    forall|i: int, j: int|
        0 <= i < j < items.len() ==> (#[trigger] items[i]).weight_view() >= (
        #[trigger] items[j]).weight_view()
}

/// Compares two items so that the heavier one comes first.
fn by_weight_down<T: Weighed>(a: &T, b: &T) -> (r: Ordering)
    ensures
        r == (if a.weight_view() > b.weight_view() {
            Ordering::Less
        } else if a.weight_view() == b.weight_view() {
            Ordering::Equal
        } else {
            Ordering::Greater
        }),
{
    let x: u64 = a.weight();
    let y: u64 = b.weight();
    if x > y {
        Ordering::Less
    } else if x == y {
        Ordering::Equal
    } else {
        Ordering::Greater
    }
}

/// `slice::sort_unstable_by`, with [`by_weight_down`] as the order: the items
/// stay the same, each as often as before, and none comes before a heavier one.
/// In which order items of one weight end up is left open.
#[verifier::external_body]
pub(crate) fn sort_heaviest_first<T: Weighed>(items: &mut Vec<T>)
    ensures
        final(items)@.to_multiset() == old(items)@.to_multiset(),
        heaviest_first(final(items)@),
{
    items.sort_unstable_by(by_weight_down);
}

/// Where the heaviest come first, a heavier item stands before a lighter one.
pub proof fn law_heavier_items_stand_before<T: Weighed>(items: Seq<T>, i: int, j: int)
    requires
        heaviest_first(items),
        0 <= i < items.len(),
        0 <= j < items.len(),
        items[i].weight_view() > items[j].weight_view(),
    ensures
        i < j,
{
    if j < i {
        assert(items[j].weight_view() >= items[i].weight_view());
    }
}

} // verus!
