//! The queue of pending deliveries, ordered by delivery time, then recipient, then payload.

use vstd::prelude::*;
use crate::network::{Instant, Message, NodeId, OrderedPayload};

verus! {

/// A message waiting in the queue to be delivered to `recipient` at `delivery_time`.
#[derive(Debug, Clone, Copy, PartialEq, Eq)]
pub struct QueueEntry<M> {
    /// Scheduled delivery time of the message.
    pub delivery_time: Instant,
    /// Recipient of the message.
    pub recipient: NodeId,
    /// The message.
    pub message: Message<M>,
}

/// `a` is delivered strictly before `b`: earlier time first, then lower recipient, then lower
/// payload.
pub open spec fn entry_precedes<M: OrderedPayload>(a: QueueEntry<M>, b: QueueEntry<M>) -> bool {
    ||| a.delivery_time.0 < b.delivery_time.0
    ||| a.delivery_time.0 == b.delivery_time.0 && a.recipient.0 < b.recipient.0
    ||| a.delivery_time.0 == b.delivery_time.0 && a.recipient.0 == b.recipient.0
        && a.message.payload.spec_precedes(b.message.payload)
}

/// `a` and `b` have the same position in the delivery order.
pub open spec fn same_rank<M>(a: QueueEntry<M>, b: QueueEntry<M>) -> bool {
    &&& a.delivery_time == b.delivery_time
    &&& a.recipient == b.recipient
    &&& a.message.payload == b.message.payload
}

/// No entry of `s` precedes an earlier one.
pub open spec fn delivery_sorted<M: OrderedPayload>(s: Seq<QueueEntry<M>>) -> bool {
    forall|i: int, j: int| 0 <= i < j < s.len() ==> !entry_precedes(#[trigger] s[j], #[trigger] s[i])
}

/// The delivery order is a strict total order on ranks.
pub proof fn lemma_entry_order<M: OrderedPayload>(a: QueueEntry<M>, b: QueueEntry<M>, c: QueueEntry<M>)
    ensures
        !entry_precedes(a, a),
        entry_precedes(a, b) && entry_precedes(b, c) ==> entry_precedes(a, c),
        entry_precedes(a, b) || entry_precedes(b, a) || same_rank(a, b),
        same_rank(a, b) ==> (entry_precedes(a, c) <==> entry_precedes(b, c)),
        same_rank(a, b) ==> (entry_precedes(c, a) <==> entry_precedes(c, b)),
{
    M::lemma_total_order(a.message.payload, b.message.payload, c.message.payload);
    M::lemma_total_order(a.message.payload, a.message.payload, a.message.payload);
}

impl<M: OrderedPayload> QueueEntry<M> {
    pub fn new(delivery_time: Instant, recipient: NodeId, message: Message<M>) -> (r: Self)
        ensures
            r == (QueueEntry { delivery_time, recipient, message }),
    {
        QueueEntry { delivery_time, recipient, message }
    }

    /// Whether `self` is delivered strictly before `other`.
    pub fn precedes(&self, other: &Self) -> (r: bool)
        ensures
            r == entry_precedes(*self, *other),
    {
        if self.delivery_time.0 != other.delivery_time.0 {
            self.delivery_time.0 < other.delivery_time.0
        } else if self.recipient.0 != other.recipient.0 {
            self.recipient.0 < other.recipient.0
        } else {
            self.message.payload.precedes(&other.message.payload)
        }
    }
}

/// Priority queue of messages scheduled for delivery, smallest entry first. Entries of the
/// same rank leave in the order in which they were pushed.
pub struct Queue<M> {
    entries: Vec<QueueEntry<M>>,
}

/// Where `e` goes in the sorted `s`: after every entry that it does not precede.
pub open spec fn insertion_point<M: OrderedPayload>(s: Seq<QueueEntry<M>>, e: QueueEntry<M>, p: int) -> bool {
    &&& 0 <= p <= s.len()
    &&& forall|i: int| 0 <= i < p ==> !entry_precedes(e, #[trigger] s[i])
    &&& forall|i: int| p <= i < s.len() ==> entry_precedes(e, #[trigger] s[i])
}

/// Entries leave a queue that is in delivery order by non-decreasing delivery time, and what
/// stays after the first one leaves is still in delivery order.
pub proof fn lemma_delivery_times_nondecreasing<M: OrderedPayload>(s: Seq<QueueEntry<M>>)
    requires
        delivery_sorted(s),
    ensures
        forall|i: int, j: int| 0 <= i < j < s.len()
            ==> (#[trigger] s[i]).delivery_time.0 <= (#[trigger] s[j]).delivery_time.0,
        s.len() > 0 ==> delivery_sorted(s.drop_first()),
{
    assert forall|i: int, j: int| 0 <= i < j < s.len()
        implies (#[trigger] s[i]).delivery_time.0 <= (#[trigger] s[j]).delivery_time.0 by {
        assert(!entry_precedes(s[j], s[i]));
    }
    if s.len() > 0 {
        assert forall|i: int, j: int| 0 <= i < j < s.drop_first().len()
            implies !entry_precedes(#[trigger] s.drop_first()[j], #[trigger] s.drop_first()[i]) by {
            assert(!entry_precedes(s[j + 1], s[i + 1]));
        }
    }
}

/// Entries of pairwise different rank have one delivery order only: two queues in delivery
/// order that hold the same entries are equal, whatever order the entries were pushed in.
pub proof fn lemma_delivery_order_determined<M: OrderedPayload>(s1: Seq<QueueEntry<M>>, s2: Seq<QueueEntry<M>>)
    requires
        delivery_sorted(s1),
        delivery_sorted(s2),
        s1.to_multiset() == s2.to_multiset(),
        forall|i: int, j: int| 0 <= i < j < s1.len() ==> !same_rank(#[trigger] s1[i], #[trigger] s1[j]),
    ensures
        s1 == s2,
    decreases s1.len(),
{
    s1.to_multiset_ensures();
    s2.to_multiset_ensures();
    if s1.len() == 0 {
        assert(s1 =~= s2);
    } else {
        let a = s1[0];
        let b = s2[0];
        assert(s1.to_multiset().count(a) > 0);
        assert(s2.contains(a));
        let k = choose|k: int| 0 <= k < s2.len() && s2[k] == a;
        if k > 0 {
            assert(!entry_precedes(s2[k], s2[0]));
        }
        assert(s2.to_multiset().count(b) > 0);
        assert(s1.contains(b));
        let m = choose|m: int| 0 <= m < s1.len() && s1[m] == b;
        if m > 0 {
            assert(!entry_precedes(s1[m], s1[0]));
            lemma_entry_order(a, b, a);
            lemma_entry_order(b, a, b);
            assert(same_rank(s1[0], s1[m]));
            assert(false);
        }
        assert(a == b);
        assert(s1.remove(0) =~= s1.drop_first());
        assert(s2.remove(0) =~= s2.drop_first());
        lemma_delivery_times_nondecreasing(s1);
        lemma_delivery_times_nondecreasing(s2);
        assert forall|i: int, j: int| 0 <= i < j < s1.drop_first().len()
            implies !same_rank(#[trigger] s1.drop_first()[i], #[trigger] s1.drop_first()[j]) by {
            assert(!same_rank(s1[i + 1], s1[j + 1]));
        }
        lemma_delivery_order_determined(s1.drop_first(), s2.drop_first());
        assert(s1 =~= s2) by {
            assert forall|i: int| 0 <= i < s1.len() implies s1[i] == s2[i] by {
                if i > 0 {
                    assert(s1[i] == s1.drop_first()[i - 1]);
                    assert(s2[i] == s2.drop_first()[i - 1]);
                }
            }
        }
    }
}

/// `p` is the only insertion point of `e` in `s`.
pub proof fn lemma_insertion_point_unique<M: OrderedPayload>(s: Seq<QueueEntry<M>>, e: QueueEntry<M>, p: int, q: int)
    requires
        insertion_point(s, e, p),
        insertion_point(s, e, q),
    ensures
        p == q,
{
    if p < q {
        assert(entry_precedes(e, s[p]));
    } else if q < p {
        assert(entry_precedes(e, s[q]));
    }
}

/// `s` with `e` inserted where the queue puts it.
pub open spec fn queue_insert<M: OrderedPayload>(s: Seq<QueueEntry<M>>, e: QueueEntry<M>) -> Seq<QueueEntry<M>> {
    s.insert(choose|p: int| insertion_point(s, e, p), e)
}

/// Where `e` goes is its insertion point.
pub proof fn lemma_queue_insert_at<M: OrderedPayload>(s: Seq<QueueEntry<M>>, e: QueueEntry<M>, p: int)
    requires
        insertion_point(s, e, p),
    ensures
        queue_insert(s, e) == s.insert(p, e),
{
    let c = choose|q: int| insertion_point(s, e, q);
    lemma_insertion_point_unique(s, e, p, c);
}

impl<M: OrderedPayload> Queue<M> {
    /// The pending entries, in the order in which they will be delivered.
    pub closed spec fn view(&self) -> Seq<QueueEntry<M>> {
        self.entries@
    }

    /// The entries are in delivery order.
    pub open spec fn wf(&self) -> bool {
        delivery_sorted(self.view())
    }

    pub fn new() -> (r: Self)
        ensures
            r.wf(),
            r.view() == Seq::<QueueEntry<M>>::empty(),
    {
        Queue { entries: Vec::new() }
    }

    /// Removes every pending entry.
    pub fn clear(&mut self)
        ensures
            final(self).wf(),
            final(self).view() == Seq::<QueueEntry<M>>::empty(),
    {
        self.entries.clear();
    }

    pub fn len(&self) -> (r: usize)
        ensures
            r == self.view().len(),
    {
        self.entries.len()
    }

    pub fn is_empty(&self) -> (r: bool)
        ensures
            r == (self.view().len() == 0),
    {
        self.entries.len() == 0
    }

    /// The pending entries, in delivery order.
    pub fn entries(&self) -> (r: &[QueueEntry<M>])
        ensures
            r@ == self.view(),
    {
        self.entries.as_slice()
    }

    /// Removes and returns the next entry to deliver, or `None` when the queue is empty.
    pub fn pop(&mut self) -> (r: Option<QueueEntry<M>>)
        requires
            old(self).wf(),
        ensures
            final(self).wf(),
            old(self).view().len() == 0 ==> r is None && final(self).view() == old(self).view(),
            old(self).view().len() > 0 ==> r == Some(old(self).view()[0])
                && final(self).view() == old(self).view().drop_first(),
            r matches Some(e) ==> forall|i: int| 0 <= i < old(self).view().len()
                ==> !entry_precedes(#[trigger] old(self).view()[i], e),
    {
        if self.entries.len() == 0 {
            None
        } else {
            let e = self.entries.remove(0);
            proof {
                assert forall|i: int| 0 <= i < old(self).view().len()
                    implies !entry_precedes(#[trigger] old(self).view()[i], e) by {
                    if i > 0 {
                        assert(!entry_precedes(old(self).entries@[i], old(self).entries@[0]));
                    } else {
                        lemma_entry_order(e, e, e);
                    }
                }
                assert forall|i: int, j: int| 0 <= i < j < self.entries@.len()
                    implies !entry_precedes(#[trigger] self.entries@[j], #[trigger] self.entries@[i]) by {
                    assert(self.entries@[i] == old(self).entries@[i + 1]);
                    assert(self.entries@[j] == old(self).entries@[j + 1]);
                }
                assert(self.entries@ == old(self).entries@.drop_first());
            }
            Some(e)
        }
    }

    /// Inserts `item` after every pending entry that it does not precede.
    pub fn push(&mut self, item: QueueEntry<M>)
        requires
            old(self).wf(),
        ensures
            final(self).wf(),
            final(self).view() == queue_insert(old(self).view(), item),
    {
        let mut p: usize = 0;
        let n = self.entries.len();
        while p < n && !item.precedes(&self.entries[p])
            invariant
                0 <= p <= n,
                n == self.entries@.len(),
                self.entries@ == old(self).entries@,
                forall|i: int| 0 <= i < p ==> !entry_precedes(item, #[trigger] self.entries@[i]),
            decreases n - p,
        {
            p = p + 1;
        }
        let ghost s = self.entries@;
        proof {
            assert forall|i: int| p <= i < s.len() implies entry_precedes(item, #[trigger] s[i]) by {
                // s[p] follows `item`, and nothing after s[p] precedes it.
                if i > p {
                    assert(!entry_precedes(s[i], s[p as int]));
                    lemma_entry_order(item, s[p as int], s[i]);
                    lemma_entry_order(s[i], s[p as int], item);
                }
            }
        }
        self.entries.insert(p, item);
        proof {
            let t = self.entries@;
            assert(t == s.insert(p as int, item));
            assert forall|i: int, j: int| 0 <= i < j < t.len()
                implies !entry_precedes(#[trigger] t[j], #[trigger] t[i]) by {
                if j < p {
                    assert(t[i] == s[i] && t[j] == s[j]);
                } else if j == p {
                    assert(t[i] == s[i]);
                    lemma_entry_order(item, s[i], item);
                } else if i < p {
                    assert(t[i] == s[i] && t[j] == s[j - 1]);
                    if i < j - 1 {
                        assert(!entry_precedes(s[j - 1], s[i]));
                    }
                } else if i == p {
                    assert(t[j] == s[j - 1]);
                    lemma_entry_order(item, s[j - 1], item);
                } else {
                    assert(t[i] == s[i - 1] && t[j] == s[j - 1]);
                }
            }
            assert(insertion_point(s, item, p as int));
            let c = choose|q: int| insertion_point(s, item, q);
            lemma_insertion_point_unique(s, item, p as int, c);
        }
    }
}

impl<M: OrderedPayload> Default for Queue<M> {
    fn default() -> (r: Self)
        ensures
            r.wf(),
            r.view() == Seq::<QueueEntry<M>>::empty(),
    {
        Queue::new()
    }
}

} // verus!
