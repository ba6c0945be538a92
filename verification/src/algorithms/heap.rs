//! The priority queue that the Huffman coder merges its trees with.
//!
//! The queue is `min_max_heap::MinMaxHeap`. An item is a tuple of integers:
//! a weight, a byte and the number of the tree that it stands for. Tuples are
//! ordered by their components, the first one first.

use min_max_heap::MinMaxHeap;
use vstd::multiset::Multiset;
use vstd::prelude::*;

verus! {

/// `min_max_heap::MinMaxHeap`, taken as it is: nothing is known of what is
/// inside a queue but through the functions below.
#[verifier::external_type_specification]
#[verifier::external_body]
#[verifier::reject_recursive_types(T)]
pub struct ExMinMaxHeap<T>(MinMaxHeap<T>);

/// The items that the queue holds.
pub uninterp spec fn heap_items(heap: MinMaxHeap<(u128, u8, usize)>) -> Multiset<(u128, u8, usize)>;

/// The order of the items: by weight, then by byte, then by number.
pub open spec fn item_le(a: (u128, u8, usize), b: (u128, u8, usize)) -> bool {
    a.0 < b.0 || (a.0 == b.0 && (a.1 < b.1 || (a.1 == b.1 && a.2 <= b.2)))
}

/// `MinMaxHeap::new`: the queue that it makes holds nothing.
#[verifier::external_body]
pub(crate) fn heap_new() -> (heap: MinMaxHeap<(u128, u8, usize)>)
    ensures
        heap_items(heap) == Multiset::<(u128, u8, usize)>::empty(),
{
    MinMaxHeap::new()
}

/// `MinMaxHeap::len`: the number of items in the queue.
#[verifier::external_body]
pub(crate) fn heap_len(heap: &MinMaxHeap<(u128, u8, usize)>) -> (len: usize)
    ensures
        len == heap_items(*heap).len(),
{
    heap.len()
}

/// `MinMaxHeap::push`: the queue holds one more item, the one given.
#[verifier::external_body]
pub(crate) fn heap_push(heap: &mut MinMaxHeap<(u128, u8, usize)>, item: (u128, u8, usize))
    ensures
        heap_items(*final(heap)) == heap_items(*old(heap)).insert(item),
{
    heap.push(item)
}

/// `MinMaxHeap::pop_min`: an item that no item of the queue is below leaves
/// the queue and is handed out; an empty queue hands out nothing and stays
/// empty.
#[verifier::external_body]
pub(crate) fn heap_pop_min(heap: &mut MinMaxHeap<(u128, u8, usize)>) -> (min: Option<
    (u128, u8, usize),
>)
    ensures
        match min {
            Some(item) => {
                &&& heap_items(*old(heap)).contains(item)
                &&& forall|other: (u128, u8, usize)|
                    heap_items(*old(heap)).contains(other) ==> item_le(item, other)
                &&& heap_items(*final(heap)) == heap_items(*old(heap)).remove(item)
            },
            None => {
                &&& heap_items(*old(heap)).len() == 0
                &&& heap_items(*final(heap)) == heap_items(*old(heap))
            },
        },
{
    heap.pop_min()
}

} // verus!
