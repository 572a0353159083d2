//! Values and the mathematical values that they stand for.

use std::sync::Arc;
use vstd::prelude::*;

verus! {

/// The views of the items of a sequence.
pub open spec fn views<T: View>(items: Seq<T>) -> Seq<T::V> {
    Seq::new(items.len(), |i: int| items[i]@)
}

/// The views of a sequence with one more item.
pub proof fn lemma_views_push<T: View>(items: Seq<T>, item: T)
    ensures
        views(items.push(item)) == views(items).push(item@),
{
    assert(views(items.push(item)) =~= views(items).push(item@));
}

/// The views of two sequences in a row.
pub proof fn lemma_views_add<T: View>(first: Seq<T>, second: Seq<T>)
    ensures
        views(first + second) == views(first) + views(second),
{
    assert(views(first + second) =~= views(first) + views(second));
}

/// A second pointer to what `pointer` points to.
///
/// Calls `Arc::clone`, which hands out another pointer to the same allocation: the two stand
/// for one and the same value.
#[verifier::external_body]
pub(crate) fn share<T>(pointer: &Arc<T>) -> (copy: Arc<T>)
    ensures
        copy == *pointer,
{
    Arc::clone(pointer)
}

/// Second pointers to what each of `pointers` points to.
pub(crate) fn share_all<T>(pointers: &Vec<Arc<T>>) -> (copies: Vec<Arc<T>>)
    ensures
        copies@ == pointers@,
{
    let mut copies: Vec<Arc<T>> = Vec::new();
    let mut i: usize = 0;
    while i < pointers.len()
        invariant
            i <= pointers@.len(),
            copies@ == pointers@.take(i as int),
        decreases pointers@.len() - i,
    {
        copies.push(share(&pointers[i]));
        i += 1;
    }
    copies
}

/// Values that can be compared for equality of their views.
pub trait Same: View {
    fn same(&self, other: &Self) -> (result: bool)
        ensures
            result == (self@ == other@),
    ;
}

impl Same for String {
    fn same(&self, other: &Self) -> (result: bool) {
        *self == *other
    }
}

impl<T: Same> Same for Arc<T> {
    fn same(&self, other: &Self) -> (result: bool) {
        (**self).same(&**other)
    }
}

impl<A: Same, B: Same> Same for (A, B) {
    fn same(&self, other: &Self) -> (result: bool) {
        self.0.same(&other.0) && self.1.same(&other.1)
    }
}

/// Whether two vectors hold the same views in the same order.
pub fn same_items<T: Same>(a: &Vec<T>, b: &Vec<T>) -> (result: bool)
    ensures
        result == (views(a@) == views(b@)),
{
    if a.len() != b.len() {
        return false;
    }
    let mut i: usize = 0;
    while i < a.len()
        invariant
            i <= a@.len(),
            a@.len() == b@.len(),
            forall|j: int| 0 <= j < i ==> #[trigger] a@[j]@ == b@[j]@,
        decreases a@.len() - i,
    {
        if !a[i].same(&b[i]) {
            proof {
                assert(views(a@)[i as int] != views(b@)[i as int]);
            }
            return false;
        }
        i += 1;
    }
    proof {
        assert(views(a@) =~= views(b@));
    }
    true
}

/// The views of a sequence are the views of its items, each at its place.
pub proof fn law_views_keep_their_places<T: View>(items: Seq<T>, i: int)
    requires
        0 <= i < items.len(),
    ensures
        views(items).len() == items.len(),
        views(items)[i] == items[i]@,
{
}

} // verus!
