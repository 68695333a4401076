//! The linked vectors that hold the frequency buckets and their key queues.
//!
//! A `LinkedVector` is seen through the sequence of its nodes in list order,
//! each node with the handle that addresses it.
use vstd::prelude::*;

use linked_vector::{HNode, LinkedVector};

verus! {

#[verifier::external_type_specification]
#[verifier::external_body]
pub struct ExHNode(linked_vector::HNode);

#[verifier::external_type_specification]
#[verifier::external_body]
#[verifier::reject_recursive_types(T)]
pub struct ExLinkedVector<T>(linked_vector::LinkedVector<T>);

/// The keys of one frequency bucket, least recently promoted first.
pub type KeyQueue = LinkedVector<i32>;

/// The frequency buckets, each with its frequency and its key queue.
pub type Ledger = LinkedVector<(usize, KeyQueue)>;

/// The nodes of a key queue in list order, each with its handle.
pub uninterp spec fn queue_items(q: LinkedVector<i32>) -> Seq<(HNode, i32)>;

/// The nodes of a ledger in list order, each with its handle, its frequency
/// and the nodes of its key queue.
pub uninterp spec fn ledger_items(l: LinkedVector<(usize, LinkedVector<i32>)>) -> Seq<
    (HNode, (usize, Seq<(HNode, i32)>)),
>;

/// No two nodes share a handle.
pub open spec fn handles_unique<A>(s: Seq<(HNode, A)>) -> bool {
    forall|i: int, j: int|
        0 <= i < s.len() && 0 <= j < s.len() && i != j ==> #[trigger] s[i].0 != #[trigger] s[j].0
}

/// Some node has handle `h`.
pub open spec fn holds_handle<A>(s: Seq<(HNode, A)>, h: HNode) -> bool {
    exists|i: int| 0 <= i < s.len() && #[trigger] s[i].0 == h
}

/// Relies on `LinkedVector::new`: a new list is empty.
#[verifier::external_body]
pub(crate) fn queue_new() -> (r: KeyQueue)
    ensures
        queue_items(r) == Seq::<(HNode, i32)>::empty(),
{
    LinkedVector::new()
}

/// Relies on `LinkedVector::new`: a new list is empty.
#[verifier::external_body]
pub(crate) fn ledger_new() -> (r: Ledger)
    ensures
        ledger_items(r) == Seq::<(HNode, (usize, Seq<(HNode, i32)>))>::empty(),
{
    LinkedVector::new()
}

/// Relies on `LinkedVector::is_empty`: true exactly when the list has no node.
#[verifier::external_body]
pub(crate) fn queue_is_empty(q: &KeyQueue) -> (r: bool)
    ensures
        r == (queue_items(*q).len() == 0),
{
    q.is_empty()
}

/// Relies on `LinkedVector::push_back`: the key becomes the last node, under
/// a handle that no node of the list held before.
#[verifier::external_body]
pub(crate) fn queue_push_back(q: &mut KeyQueue, key: i32) -> (h: HNode)
    ensures
        queue_items(*final(q)) == queue_items(*old(q)).push((h, key)),
        !holds_handle(queue_items(*old(q)), h),
{
    q.push_back(key)
}

/// Relies on `LinkedVector::remove`: the node with handle `h` leaves the list
/// and its key is returned.
#[verifier::external_body]
pub(crate) fn queue_remove(q: &mut KeyQueue, h: HNode) -> (r: Option<i32>)
    requires
        holds_handle(queue_items(*old(q)), h),
        handles_unique(queue_items(*old(q))),
    ensures
        forall|j: int|
            0 <= j < queue_items(*old(q)).len() && #[trigger] queue_items(*old(q))[j].0 == h
                ==> r == Some(queue_items(*old(q))[j].1) && queue_items(*final(q))
                == queue_items(*old(q)).remove(j),
{
    q.remove(h)
}

/// Relies on `LinkedVector::pop_front`: the first node leaves the list and its
/// key is returned; an empty list stays empty.
#[verifier::external_body]
pub(crate) fn queue_pop_front(q: &mut KeyQueue) -> (r: Option<i32>)
    ensures
        queue_items(*old(q)).len() == 0 ==> r.is_none() && queue_items(*final(q)) == queue_items(
            *old(q),
        ),
        queue_items(*old(q)).len() > 0 ==> r == Some(queue_items(*old(q))[0].1) && queue_items(
            *final(q),
        ) == queue_items(*old(q)).drop_first(),
{
    q.pop_front()
}

/// Relies on `LinkedVector::front_node`: the handle of the first bucket, if
/// there is one.
#[verifier::external_body]
pub(crate) fn ledger_front_node(l: &Ledger) -> (r: Option<HNode>)
    ensures
        ledger_items(*l).len() == 0 ==> r.is_none(),
        ledger_items(*l).len() > 0 ==> r == Some(ledger_items(*l)[0].0),
{
    l.front_node()
}

/// Relies on `LinkedVector::next_node`: the handle of the bucket after the
/// one with handle `h`, if there is one.
#[verifier::external_body]
pub(crate) fn ledger_next_node(l: &Ledger, h: HNode) -> (r: Option<HNode>)
    requires
        holds_handle(ledger_items(*l), h),
        handles_unique(ledger_items(*l)),
    ensures
        forall|i: int|
            0 <= i < ledger_items(*l).len() && #[trigger] ledger_items(*l)[i].0 == h ==> if i + 1
                < ledger_items(*l).len() {
                r == Some(ledger_items(*l)[i + 1].0)
            } else {
                r.is_none()
            },
{
    l.next_node(h)
}

/// Relies on `LinkedVector::get`: the frequency of the bucket with handle `h`.
#[verifier::external_body]
pub(crate) fn ledger_freq(l: &Ledger, h: HNode) -> (r: Option<usize>)
    requires
        holds_handle(ledger_items(*l), h),
        handles_unique(ledger_items(*l)),
    ensures
        forall|i: int|
            0 <= i < ledger_items(*l).len() && #[trigger] ledger_items(*l)[i].0 == h ==> r == Some(
                ledger_items(*l)[i].1.0,
            ),
{
    l.get(h).map(|b| b.0)
}

/// Relies on `LinkedVector::get_mut`: the key queue of the bucket with handle
/// `h` and the queue `q` trade places.
#[verifier::external_body]
pub(crate) fn ledger_swap_queue(l: &mut Ledger, h: HNode, q: &mut KeyQueue)
    requires
        holds_handle(ledger_items(*old(l)), h),
        handles_unique(ledger_items(*old(l))),
    ensures
        forall|i: int|
            0 <= i < ledger_items(*old(l)).len() && #[trigger] ledger_items(*old(l))[i].0 == h
                ==> queue_items(*final(q)) == ledger_items(*old(l))[i].1.1 && ledger_items(
                *final(l),
            ) == ledger_items(*old(l)).update(
                i,
                (h, (ledger_items(*old(l))[i].1.0, queue_items(*old(q)))),
            ),
{
    if let Some(b) = l.get_mut(h) {
        std::mem::swap(&mut b.1, q);
    }
}

/// Relies on `LinkedVector::push_front`: the bucket becomes the first node,
/// under a handle that no node of the list held before.
#[verifier::external_body]
pub(crate) fn ledger_push_front(l: &mut Ledger, freq: usize, q: KeyQueue) -> (h: HNode)
    ensures
        ledger_items(*final(l)) == seq![(h, (freq, queue_items(q)))] + ledger_items(*old(l)),
        !holds_handle(ledger_items(*old(l)), h),
{
    l.push_front((freq, q))
}

/// Relies on `LinkedVector::insert_after`: the bucket is placed right after
/// the one with handle `h`, under a handle that no node held before.
#[verifier::external_body]
pub(crate) fn ledger_insert_after(l: &mut Ledger, h: HNode, freq: usize, q: KeyQueue) -> (r: HNode)
    requires
        holds_handle(ledger_items(*old(l)), h),
        handles_unique(ledger_items(*old(l))),
    ensures
        !holds_handle(ledger_items(*old(l)), r),
        forall|i: int|
            0 <= i < ledger_items(*old(l)).len() && #[trigger] ledger_items(*old(l))[i].0 == h
                ==> ledger_items(*final(l)) == ledger_items(*old(l)).insert(
                i + 1,
                (r, (freq, queue_items(q))),
            ),
{
    l.insert_after(h, (freq, q))
}

/// Relies on `LinkedVector::remove`: the bucket with handle `h` leaves the list.
#[verifier::external_body]
pub(crate) fn ledger_remove(l: &mut Ledger, h: HNode)
    requires
        holds_handle(ledger_items(*old(l)), h),
        handles_unique(ledger_items(*old(l))),
    ensures
        forall|i: int|
            0 <= i < ledger_items(*old(l)).len() && #[trigger] ledger_items(*old(l))[i].0 == h
                ==> ledger_items(*final(l)) == ledger_items(*old(l)).remove(i),
{
    l.remove(h);
}

} // verus!
