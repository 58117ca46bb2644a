//! The test harness: a node table and a delivery queue, driven one message at a time.

use vstd::prelude::*;
use crate::network::{
    carried, ConsensusInstance, Instant, Message, Node, NodeId, OrderedPayload, Target,
    TargetedMessage,
};
use crate::queue::{delivery_sorted, entry_precedes, lemma_entry_order, queue_insert, Queue, QueueEntry};
use crate::schedule::{DeliverySchedule, Strategy};
use vstd::string::*;

verus! {

/// The character of the decimal digit `d < 10`.
pub open spec fn digit_char(d: int) -> char {
    seq!['0', '1', '2', '3', '4', '5', '6', '7', '8', '9'][d]
}

/// The decimal digits of `n`, most significant first, without leading zeros.
pub open spec fn decimal(n: nat) -> Seq<char>
    decreases n,
{
    if n < 10 {
        seq![digit_char(n as int)]
    } else {
        decimal(n / 10).push(digit_char((n % 10) as int))
    }
}

/// The text of the decimal digit `d`.
fn digit_text(d: u64) -> (r: &'static str)
    requires
        d < 10,
    ensures
        r@ == seq![digit_char(d as int)],
{
    proof {
        reveal_strlit("0");
        reveal_strlit("1");
        reveal_strlit("2");
        reveal_strlit("3");
        reveal_strlit("4");
        reveal_strlit("5");
        reveal_strlit("6");
        reveal_strlit("7");
        reveal_strlit("8");
        reveal_strlit("9");
    }
    if d == 0 {
        "0"
    } else if d == 1 {
        "1"
    } else if d == 2 {
        "2"
    } else if d == 3 {
        "3"
    } else if d == 4 {
        "4"
    } else if d == 5 {
        "5"
    } else if d == 6 {
        "6"
    } else if d == 7 {
        "7"
    } else if d == 8 {
        "8"
    } else {
        "9"
    }
}

/// Appends the decimal digits of `n` to `s`.
fn push_decimal(s: &mut String, n: u64)
    ensures
        final(s)@ == old(s)@ + decimal(n as nat),
    decreases n,
{
    if n >= 10 {
        push_decimal(s, n / 10);
    }
    s.append(digit_text(n % 10));
    proof {
        if n < 10 {
            assert(final(s)@ =~= old(s)@ + decimal(n as nat));
        } else {
            assert(final(s)@ =~= old(s)@ + decimal(n as nat));
        }
    }
}

/// Why a step of the simulation could not be taken.
#[derive(Debug, Clone, Copy, PartialEq, Eq, Structural)]
pub enum TestRunError {
    /// The next message is addressed to a node that is not in the table.
    MissingRecipient(NodeId),
    /// No message is waiting to be delivered.
    NoMessages,
}

impl TestRunError {
    /// A description of the error for people.
    pub fn description(&self) -> (r: String)
        ensures
            r@ == (match self {
                TestRunError::MissingRecipient(id) => "Recipient node NodeId("@ + decimal(id.0 as nat)
                    + ") was not found in the map."@,
                TestRunError::NoMessages => "Test finished prematurely due to lack of messages in the queue"@,
            }),
    {
        match self {
            TestRunError::MissingRecipient(id) => {
                let mut s = String::from_str("Recipient node NodeId(");
                push_decimal(&mut s, id.0);
                s.append(") was not found in the map.");
                s
            },
            TestRunError::NoMessages => String::from_str(
                "Test finished prematurely due to lack of messages in the queue",
            ),
        }
    }
}

/// The ids of `nodes`, in order.
pub open spec fn node_ids<C, D: ConsensusInstance>(nodes: Seq<Node<C, D>>) -> Seq<NodeId> {
    nodes.map_values(|n: Node<C, D>| n.spec_id())
}

/// The ids strictly increase.
pub open spec fn ids_increasing(ids: Seq<NodeId>) -> bool {
    forall|i: int, j: int| 0 <= i < j < ids.len() ==> (#[trigger] ids[i]).0 < (#[trigger] ids[j]).0
}

/// The recipients that `target` names in a table with the ids `ids`.
pub open spec fn target_recipients(target: Target, ids: Seq<NodeId>) -> Seq<NodeId> {
    match target {
        Target::SingleNode(id) => seq![id],
        Target::All => ids,
    }
}

/// The sends that outputs `outs` call for, in order: one for each output and recipient.
pub open spec fn expand_outputs<M>(outs: Seq<TargetedMessage<M>>, ids: Seq<NodeId>) -> Seq<(NodeId, Message<M>)>
    decreases outs.len(),
{
    if outs.len() == 0 {
        Seq::empty()
    } else {
        let last = outs.last();
        expand_outputs(outs.drop_last(), ids) + target_recipients(last.target, ids).map_values(
            |id: NodeId| (id, last.message),
        )
    }
}

/// The queue `q` after one send to `send.0` of `send.1` was scheduled by `d`.
pub open spec fn apply_decision<M: OrderedPayload>(q: Seq<QueueEntry<M>>, send: (NodeId, Message<M>), d: DeliverySchedule) -> Seq<QueueEntry<M>> {
    match d {
        DeliverySchedule::AtInstant(t) => queue_insert(q, QueueEntry { delivery_time: t, recipient: send.0, message: send.1 }),
        DeliverySchedule::Drop => q,
    }
}

/// The queue `q` after each send of `sends` was scheduled by the decision at the same index
/// of `ds`.
pub open spec fn apply_decisions<M: OrderedPayload>(q: Seq<QueueEntry<M>>, sends: Seq<(NodeId, Message<M>)>, ds: Seq<DeliverySchedule>) -> Seq<QueueEntry<M>>
    decreases sends.len(),
{
    if sends.len() == 0 {
        q
    } else {
        apply_decision(apply_decisions(q, sends.drop_last(), ds.drop_last()), sends.last(), ds.last())
    }
}

/// Scheduling `a` and then `b` is scheduling `a + b`.
pub proof fn lemma_apply_decisions_append<M: OrderedPayload>(
    q: Seq<QueueEntry<M>>,
    a: Seq<(NodeId, Message<M>)>,
    da: Seq<DeliverySchedule>,
    b: Seq<(NodeId, Message<M>)>,
    db: Seq<DeliverySchedule>,
)
    requires
        da.len() == a.len(),
        db.len() == b.len(),
    ensures
        apply_decisions(q, a + b, da + db) == apply_decisions(apply_decisions(q, a, da), b, db),
    decreases b.len(),
{
    if b.len() == 0 {
        assert(a + b =~= a);
        assert(da + db =~= da);
    } else {
        lemma_apply_decisions_append(q, a, da, b.drop_last(), db.drop_last());
        assert((a + b).drop_last() =~= a + b.drop_last());
        assert((da + db).drop_last() =~= da + db.drop_last());
    }
}

/// A dropped send is no send: the queue is as if it had never been made, so the message
/// it carried can never be delivered through it.
pub proof fn lemma_dropped_send_never_queued<M: OrderedPayload>(
    q: Seq<QueueEntry<M>>,
    sends: Seq<(NodeId, Message<M>)>,
    ds: Seq<DeliverySchedule>,
    i: int,
)
    requires
        ds.len() == sends.len(),
        0 <= i < sends.len(),
        ds[i] == DeliverySchedule::Drop,
    ensures
        apply_decisions(q, sends, ds) == apply_decisions(q, sends.remove(i), ds.remove(i)),
    decreases sends.len(),
{
    if i == sends.len() - 1 {
        assert(sends.remove(i) =~= sends.drop_last());
        assert(ds.remove(i) =~= ds.drop_last());
    } else {
        lemma_dropped_send_never_queued(q, sends.drop_last(), ds.drop_last(), i);
        assert(sends.remove(i).drop_last() =~= sends.drop_last().remove(i));
        assert(ds.remove(i).drop_last() =~= ds.drop_last().remove(i));
        assert(sends.remove(i).last() == sends.last());
        assert(ds.remove(i).last() == ds.last());
    }
}

/// The nodes that a table built from `nodes` holds: for each id, the last node with that id.
pub open spec fn table_nodes<C, D: ConsensusInstance>(nodes: Seq<Node<C, D>>) -> Set<Node<C, D>>
    decreases nodes.len(),
{
    if nodes.len() == 0 {
        Set::empty()
    } else {
        let last = nodes.last();
        table_nodes(nodes.drop_last()).filter(|n: Node<C, D>| n.spec_id() != last.spec_id()).insert(last)
    }
}

/// What the protocol instance of `n` answers to `msg`, given the node's faultiness.
pub open spec fn node_outputs<C, D: ConsensusInstance>(n: Node<C, D>, msg: Message<D::M>) -> Seq<TargetedMessage<D::M>> {
    n.instance().spec_outputs(msg.sender, msg.payload, n.spec_is_faulty())
}

/// `new` is `old` after `msg` was delivered to it: the message is logged, handed to the
/// protocol instance with the node's faultiness, the instance moved to its next state, and
/// what it answered is logged.
pub open spec fn delivered<C, D: ConsensusInstance>(old: Node<C, D>, new: Node<C, D>, msg: Message<D::M>) -> bool {
    &&& new.spec_id() == old.spec_id()
    &&& new.spec_is_faulty() == old.spec_is_faulty()
    &&& new.finalized_log() == old.finalized_log()
    &&& new.received_log() == old.received_log().push(msg)
    &&& new.produced_log() == old.produced_log() + carried(node_outputs(old, msg))
    &&& new.instance() == old.instance().spec_next(msg.sender, msg.payload, old.spec_is_faulty())
}

/// The node of `nodes` with id `id`.
pub open spec fn node_with_id<C, D: ConsensusInstance>(nodes: Seq<Node<C, D>>, id: NodeId) -> Node<C, D> {
    nodes[choose|j: int| 0 <= j < nodes.len() && #[trigger] nodes[j].spec_id() == id]
}

/// In a table with increasing ids, the node with the id of `nodes[k]` is `nodes[k]`.
pub proof fn lemma_node_with_id<C, D: ConsensusInstance>(nodes: Seq<Node<C, D>>, k: int)
    requires
        ids_increasing(node_ids(nodes)),
        0 <= k < nodes.len(),
    ensures
        node_with_id(nodes, nodes[k].spec_id()) == nodes[k],
{
    let id = nodes[k].spec_id();
    assert(nodes[k].spec_id() == id);
    let j = choose|j: int| 0 <= j < nodes.len() && #[trigger] nodes[j].spec_id() == id;
    if j < k {
        assert(node_ids(nodes)[j].0 < node_ids(nodes)[k].0);
    } else if j > k {
        assert(node_ids(nodes)[k].0 < node_ids(nodes)[j].0);
    }
}

/// The random source after `n` calls of the strategy on `AtInstant(base)`, starting from
/// `rng`, and the strategy's answers, in order.
pub open spec fn strategy_answers<DS: Strategy<DeliverySchedule, R>, R>(strategy: DS, rng: R, base: Instant, n: nat) -> (R, Seq<DeliverySchedule>)
    decreases n,
{
    if n == 0 {
        (rng, Seq::empty())
    } else {
        let before = strategy_answers(strategy, rng, base, (n - 1) as nat);
        let step = strategy.spec_map(before.0, DeliverySchedule::AtInstant(base));
        (step.0, before.1.push(step.1))
    }
}

/// `n` calls give `n` answers.
pub proof fn lemma_strategy_answers_len<DS: Strategy<DeliverySchedule, R>, R>(strategy: DS, rng: R, base: Instant, n: nat)
    ensures
        strategy_answers(strategy, rng, base, n).1.len() == n,
    decreases n,
{
    if n > 0 {
        lemma_strategy_answers_len(strategy, rng, base, (n - 1) as nat);
    }
}

/// `a + b` calls are `a` calls, then `b` calls from where those left the random source.
pub proof fn lemma_strategy_answers_append<DS: Strategy<DeliverySchedule, R>, R>(strategy: DS, rng: R, base: Instant, a: nat, b: nat)
    ensures
        ({
            let first = strategy_answers(strategy, rng, base, a);
            let second = strategy_answers(strategy, first.0, base, b);
            strategy_answers(strategy, rng, base, a + b) == (second.0, first.1 + second.1)
        }),
    decreases b,
{
    let first = strategy_answers(strategy, rng, base, a);
    if b == 0 {
        assert(first.1 + Seq::<DeliverySchedule>::empty() =~= first.1);
    } else {
        lemma_strategy_answers_append(strategy, rng, base, a, (b - 1) as nat);
        let second = strategy_answers(strategy, first.0, base, (b - 1) as nat);
        let step = strategy.spec_map(second.0, DeliverySchedule::AtInstant(base));
        assert((a + b - 1) as nat == (a + (b - 1)) as nat);
        assert(first.1 + second.1.push(step.1) =~= (first.1 + second.1).push(step.1));
    }
}

/// What a step returns from the queue `q` with the node ids `ids`.
pub open spec fn step_result<M>(q: Seq<QueueEntry<M>>, ids: Seq<NodeId>) -> Result<(), TestRunError> {
    if q.len() == 0 {
        Err(TestRunError::NoMessages)
    } else if !ids.contains(q[0].recipient) {
        Err(TestRunError::MissingRecipient(q[0].recipient))
    } else {
        Ok(())
    }
}

/// The sends of a step from the queue `q0` and the nodes `n0`: each message that the
/// recipient's instance answers to the first entry, to each node it addresses, in order.
pub open spec fn step_sends<C, D: ConsensusInstance>(q0: Seq<QueueEntry<D::M>>, n0: Seq<Node<C, D>>) -> Seq<(NodeId, Message<D::M>)> {
    expand_outputs(node_outputs(node_with_id(n0, q0[0].recipient), q0[0].message), node_ids(n0))
}

/// The random source after a step, and the strategy's answers for its sends.
pub open spec fn step_answers<C, D: ConsensusInstance, DS: Strategy<DeliverySchedule, R>, R>(
    strategy: DS,
    q0: Seq<QueueEntry<D::M>>,
    n0: Seq<Node<C, D>>,
    rng0: R,
) -> (R, Seq<DeliverySchedule>) {
    strategy_answers(strategy, rng0, q0[0].delivery_time, step_sends(q0, n0).len())
}

/// One successful step with the strategy `strategy`, from the queue `q0`, the nodes `n0` and
/// the random source `rng0` to `q1`, `n1` and `rng1`. The first entry of `q0` is delivered
/// to its recipient. Each message that the recipient's instance answers is sent to each node
/// it addresses, in order, and each send is scheduled by the strategy's answer to
/// `AtInstant` of the entry's delivery time. The other nodes are as they were.
pub open spec fn dispatched<C, D: ConsensusInstance, DS: Strategy<DeliverySchedule, R>, R>(
    strategy: DS,
    q0: Seq<QueueEntry<D::M>>,
    n0: Seq<Node<C, D>>,
    rng0: R,
    q1: Seq<QueueEntry<D::M>>,
    n1: Seq<Node<C, D>>,
    rng1: R,
) -> bool {
    let e = q0[0];
    let sends = step_sends(q0, n0);
    let answers = step_answers(strategy, q0, n0, rng0);
    &&& q1 == apply_decisions(q0.drop_first(), sends, answers.1)
    &&& rng1 == answers.0
    &&& n1.len() == n0.len()
    &&& forall|j: int| 0 <= j < n0.len() ==> if (#[trigger] n0[j]).spec_id() == e.recipient {
        delivered(n0[j], n1[j], e.message)
    } else {
        n1[j] == n0[j]
    }
}

/// A step delivers the earliest entry: no pending entry precedes it.
pub proof fn lemma_step_delivers_earliest<M: OrderedPayload>(q0: Seq<QueueEntry<M>>)
    requires
        delivery_sorted(q0),
        q0.len() > 0,
    ensures
        forall|j: int| 0 <= j < q0.len() ==> !entry_precedes(#[trigger] q0[j], q0[0]),
        forall|j: int| 0 <= j < q0.len() ==> q0[0].delivery_time.0 <= (#[trigger] q0[j]).delivery_time.0,
{
    assert forall|j: int| 0 <= j < q0.len() implies !entry_precedes(#[trigger] q0[j], q0[0]) by {
        if j == 0 {
            lemma_entry_order(q0[0], q0[0], q0[0]);
        }
    }
}

/// Drop correctness in a step: a send that the strategy answered with `Drop` leaves the
/// queue as if it had never been made, so its message never reaches the queue, and no later
/// step can deliver it through this send.
pub proof fn lemma_step_drop<C, D: ConsensusInstance, DS: Strategy<DeliverySchedule, R>, R>(
    strategy: DS,
    q0: Seq<QueueEntry<D::M>>,
    n0: Seq<Node<C, D>>,
    rng0: R,
    q1: Seq<QueueEntry<D::M>>,
    n1: Seq<Node<C, D>>,
    rng1: R,
    i: int,
)
    requires
        dispatched(strategy, q0, n0, rng0, q1, n1, rng1),
        0 <= i < step_sends(q0, n0).len(),
        step_answers(strategy, q0, n0, rng0).1[i] == DeliverySchedule::Drop,
    ensures
        q1 == apply_decisions(q0.drop_first(), step_sends(q0, n0).remove(i), step_answers(strategy, q0, n0, rng0).1.remove(i)),
{
    let sends = step_sends(q0, n0);
    lemma_strategy_answers_len(strategy, rng0, q0[0].delivery_time, sends.len());
    lemma_dropped_send_never_queued(q0.drop_first(), sends, step_answers(strategy, q0, n0, rng0).1, i);
}

/// `a` and `b` agree node by node in everything a step reads or writes.
pub open spec fn same_nodes<C, D: ConsensusInstance>(a: Seq<Node<C, D>>, b: Seq<Node<C, D>>) -> bool {
    &&& a.len() == b.len()
    &&& forall|j: int| 0 <= j < a.len() ==> {
        &&& (#[trigger] a[j]).spec_id() == b[j].spec_id()
        &&& a[j].spec_is_faulty() == b[j].spec_is_faulty()
        &&& a[j].finalized_log() == b[j].finalized_log()
        &&& a[j].received_log() == b[j].received_log()
        &&& a[j].produced_log() == b[j].produced_log()
        &&& a[j].instance() == b[j].instance()
    }
}

/// Replay: two steps from the same queue, the same random source and nodes that agree, with
/// the same strategy, return the same result, deliver the same entry, and leave the same
/// queue, the same random source and nodes that agree again. Step by step, two runs from
/// equal nodes, queue and seed therefore deliver the same sequence.
pub proof fn lemma_step_replays<C, D: ConsensusInstance, DS: Strategy<DeliverySchedule, R>, R>(
    strategy: DS,
    q0: Seq<QueueEntry<D::M>>,
    rng0: R,
    na: Seq<Node<C, D>>,
    nb: Seq<Node<C, D>>,
    qa: Seq<QueueEntry<D::M>>,
    na1: Seq<Node<C, D>>,
    rnga: R,
    qb: Seq<QueueEntry<D::M>>,
    nb1: Seq<Node<C, D>>,
    rngb: R,
)
    requires
        ids_increasing(node_ids(na)),
        same_nodes(na, nb),
        step_result(q0, node_ids(na)) is Ok,
        dispatched(strategy, q0, na, rng0, qa, na1, rnga),
        dispatched(strategy, q0, nb, rng0, qb, nb1, rngb),
    ensures
        node_ids(na) == node_ids(nb),
        step_result(q0, node_ids(na)) == step_result(q0, node_ids(nb)),
        qa == qb,
        rnga == rngb,
        same_nodes(na1, nb1),
{
    assert(node_ids(na) =~= node_ids(nb));
    let e = q0[0];
    let k = choose|k: int| 0 <= k < node_ids(na).len() && node_ids(na)[k] == e.recipient;
    assert(na[k].spec_id() == e.recipient);
    lemma_node_with_id(na, k);
    lemma_node_with_id(nb, k);
    assert(node_outputs(node_with_id(na, e.recipient), e.message) == node_outputs(node_with_id(nb, e.recipient), e.message));
    assert forall|j: int| 0 <= j < na1.len() implies {
        &&& (#[trigger] na1[j]).spec_id() == nb1[j].spec_id()
        &&& na1[j].spec_is_faulty() == nb1[j].spec_is_faulty()
        &&& na1[j].finalized_log() == nb1[j].finalized_log()
        &&& na1[j].received_log() == nb1[j].received_log()
        &&& na1[j].produced_log() == nb1[j].produced_log()
        &&& na1[j].instance() == nb1[j].instance()
    } by {
        let _ = na[j];
        let _ = nb[j];
    }
}

/// Drives a simulated network: the nodes, by increasing id, and the queue of pending
/// deliveries.
#[verifier::reject_recursive_types(M)]
pub struct TestHarness<M, C, D, DS, R> where
    M: OrderedPayload,
    D: ConsensusInstance<M = M>,
    DS: Strategy<DeliverySchedule, R>,
 {
    /// The nodes, by strictly increasing id.
    nodes: Vec<Node<C, D>>,
    /// The messages waiting for delivery.
    msg_queue: Queue<M>,
    /// The instant the network was created.
    start_time: u64,
    /// Consensus values to be proposed, in order.
    consensus_values: Vec<C>,
    delivery_time_strategy: DS,
    rand: R,
}

impl<M, C, D, DS, R> TestHarness<M, C, D, DS, R> where
    M: OrderedPayload,
    D: ConsensusInstance<M = M>,
    DS: Strategy<DeliverySchedule, R>,
 {
    /// The nodes, by increasing id.
    pub closed spec fn nodes_view(&self) -> Seq<Node<C, D>> {
        self.nodes@
    }

    /// The pending deliveries, in the order in which they will be made.
    pub closed spec fn queue_view(&self) -> Seq<QueueEntry<M>> {
        self.msg_queue.view()
    }

    /// The random source that the strategy draws from.
    pub closed spec fn spec_rand(&self) -> R {
        self.rand
    }

    /// The delivery strategy.
    pub closed spec fn spec_strategy(&self) -> DS {
        self.delivery_time_strategy
    }

    pub closed spec fn spec_start_time(&self) -> u64 {
        self.start_time
    }

    pub closed spec fn spec_consensus_values(&self) -> Seq<C> {
        self.consensus_values@
    }

    /// The ids in the node table, increasing.
    pub open spec fn ids(&self) -> Seq<NodeId> {
        node_ids(self.nodes_view())
    }

    /// The ids increase and the queue is in delivery order.
    pub open spec fn wf(&self) -> bool {
        &&& ids_increasing(self.ids())
        &&& delivery_sorted(self.queue_view())
    }

    /// Puts `node` into the table `table`, in place of a node with the same id.
    fn insert_node(table: &mut Vec<Node<C, D>>, node: Node<C, D>)
        requires
            ids_increasing(node_ids(old(table)@)),
        ensures
            ids_increasing(node_ids(final(table)@)),
            final(table)@.to_set() == old(table)@.to_set().filter(
                |n: Node<C, D>| n.spec_id() != node.spec_id(),
            ).insert(node),
    {
        let ghost s = table@;
        let id = node.node_id();
        let mut p: usize = 0;
        while p < table.len() && table[p].node_id().0 < id.0
            invariant
                0 <= p <= table@.len(),
                table@ == s,
                forall|i: int| 0 <= i < p ==> (#[trigger] s[i]).spec_id().0 < id.0,
            decreases table@.len() - p,
        {
            p = p + 1;
        }
        let replace = p < table.len() && table[p].node_id().0 == id.0;
        if replace {
            let _ = table.remove(p);
        }
        let ghost mid = table@;
        table.insert(p, node);
        proof {
            let t = table@;
            assert(t == mid.insert(p as int, node));
            // Every node after `p` has a larger id.
            assert forall|i: int| p <= i < mid.len() implies (#[trigger] mid[i]).spec_id().0 > id.0 by {
                if replace {
                    assert(mid[i] == s[i + 1]);
                    assert(node_ids(s)[p as int].0 < node_ids(s)[i + 1].0);
                } else if i > p {
                    assert(mid[i] == s[i]);
                    assert(node_ids(s)[p as int].0 < node_ids(s)[i].0);
                }
            }
            assert forall|i: int| 0 <= i < p implies mid[i] == s[i] by {}
            assert forall|i: int, j: int| 0 <= i < j < node_ids(t).len()
                implies (#[trigger] node_ids(t)[i]).0 < (#[trigger] node_ids(t)[j]).0 by {
                if j < p {
                    assert(node_ids(s)[i].0 < node_ids(s)[j].0);
                } else if i < p && j > p {
                    assert(t[j] == mid[j - 1]);
                } else if i > p {
                    assert(t[i] == mid[i - 1] && t[j] == mid[j - 1]);
                    if replace {
                        assert(mid[i - 1] == s[i] && mid[j - 1] == s[j]);
                        assert(node_ids(s)[i].0 < node_ids(s)[j].0);
                    } else {
                        assert(mid[i - 1] == s[i - 1] && mid[j - 1] == s[j - 1]);
                        assert(node_ids(s)[i - 1].0 < node_ids(s)[j - 1].0);
                    }
                }
            }
            let expected = s.to_set().filter(|n: Node<C, D>| n.spec_id() != node.spec_id()).insert(node);
            assert forall|n: Node<C, D>| t.to_set().contains(n) <==> expected.contains(n) by {
                if t.to_set().contains(n) && n != node {
                    let i = choose|i: int| 0 <= i < t.len() && t[i] == n;
                    if i < p {
                        assert(s[i] == n);
                    } else {
                        assert(i > p);
                        assert(mid[i - 1] == n);
                        if replace {
                            assert(s[i] == n);
                        } else {
                            assert(s[i - 1] == n);
                        }
                    }
                    assert(s.to_set().contains(n));
                }
                if expected.contains(n) && n != node {
                    let i = choose|i: int| 0 <= i < s.len() && s[i] == n;
                    assert(n.spec_id() != id);
                    if i < p {
                        assert(t[i] == n);
                    } else if replace {
                        assert(i != p);
                        assert(t[i] == n);
                    } else {
                        assert(t[i + 1] == n);
                    }
                }
                if n == node {
                    assert(t[p as int] == n);
                }
            }
            assert(t.to_set() =~= expected);
        }
    }

    /// A harness over `nodes`, keyed by id (of nodes with the same id the last one stays),
    /// with an empty queue.
    pub fn new(
        nodes: Vec<Node<C, D>>,
        start_time: u64,
        consensus_values: Vec<C>,
        delivery_time_strategy: DS,
        rand: R,
    ) -> (r: Self)
        ensures
            r.wf(),
            ids_increasing(r.ids()),
            r.nodes_view().to_set() == table_nodes(nodes@),
            r.queue_view() == Seq::<QueueEntry<M>>::empty(),
            r.spec_start_time() == start_time,
            r.spec_consensus_values() == consensus_values@,
            r.spec_strategy() == delivery_time_strategy,
            r.spec_rand() == rand,
    {
        let ghost input = nodes@;
        let n = nodes.len();
        let mut rest = nodes;
        let mut table: Vec<Node<C, D>> = Vec::new();
        let mut k: usize = 0;
        proof {
            assert(table@.to_set() =~= Set::<Node<C, D>>::empty());
            assert(input.subrange(0, 0) =~= Seq::<Node<C, D>>::empty());
        }
        while rest.len() > 0
            invariant
                k + rest@.len() == input.len(),
                n == input.len(),
                rest@ == input.subrange(k as int, input.len() as int),
                ids_increasing(node_ids(table@)),
                table@.to_set() == table_nodes(input.subrange(0, k as int)),
            decreases rest@.len(),
        {
            let node = rest.remove(0);
            Self::insert_node(&mut table, node);
            proof {
                let pre = input.subrange(0, k as int + 1);
                assert(pre.drop_last() =~= input.subrange(0, k as int));
                assert(pre.last() == node);
                assert(rest@ =~= input.subrange(k as int + 1, input.len() as int));
            }
            k = k + 1;
        }
        proof {
            assert(input.subrange(0, k as int) =~= input);
        }
        TestHarness {
            nodes: table,
            msg_queue: Queue::new(),
            start_time,
            consensus_values,
            delivery_time_strategy,
            rand,
        }
    }

    /// Schedules `message` for delivery to `recipient` at `delivery_time`.
    pub fn schedule_message(&mut self, delivery_time: Instant, recipient: NodeId, message: Message<M>)
        requires
            old(self).wf(),
        ensures
            final(self).wf(),
            final(self).queue_view() == queue_insert(
                old(self).queue_view(),
                QueueEntry { delivery_time, recipient, message },
            ),
            final(self).nodes_view() == old(self).nodes_view(),
            final(self).spec_start_time() == old(self).spec_start_time(),
            final(self).spec_consensus_values() == old(self).spec_consensus_values(),
            final(self).spec_strategy() == old(self).spec_strategy(),
            final(self).spec_rand() == old(self).spec_rand(),
    {
        let qe = QueueEntry::new(delivery_time, recipient, message);
        self.msg_queue.push(qe);
    }

    /// Where the node with id `id` stands in the table, if it is there.
    fn find_node(&self, id: NodeId) -> (r: Option<usize>)
        requires
            self.wf(),
        ensures
            r matches Some(k) ==> k < self.nodes@.len() && self.nodes@[k as int].spec_id() == id,
            r is None ==> !self.ids().contains(id),
    {
        let mut k: usize = 0;
        while k < self.nodes.len()
            invariant
                0 <= k <= self.nodes@.len(),
                forall|i: int| 0 <= i < k ==> (#[trigger] self.nodes@[i]).spec_id() != id,
            decreases self.nodes@.len() - k,
        {
            if self.nodes[k].node_id().0 == id.0 {
                return Some(k);
            }
            k = k + 1;
        }
        proof {
            if self.ids().contains(id) {
                let i = choose|i: int| 0 <= i < self.ids().len() && self.ids()[i] == id;
                assert(self.nodes@[i].spec_id() == id);
            }
        }
        None
    }

    /// The recipients that `target` names: the node it names, or every node by increasing id.
    pub fn recipients(&self, target: Target) -> (r: Vec<NodeId>)
        ensures
            r@ == target_recipients(target, self.ids()),
    {
        match target {
            Target::SingleNode(id) => {
                let mut v: Vec<NodeId> = Vec::new();
                v.push(id);
                proof {
                    assert(v@ =~= seq![id]);
                }
                v
            },
            Target::All => {
                let mut v: Vec<NodeId> = Vec::new();
                let mut k: usize = 0;
                while k < self.nodes.len()
                    invariant
                        0 <= k <= self.nodes@.len(),
                        v@ == self.ids().subrange(0, k as int),
                    decreases self.nodes@.len() - k,
                {
                    v.push(self.nodes[k].node_id());
                    proof {
                        assert(self.ids().subrange(0, k + 1) =~= self.ids().subrange(0, k as int).push(self.ids()[k as int]));
                    }
                    k = k + 1;
                }
                proof {
                    assert(self.ids().subrange(0, k as int) =~= self.ids());
                }
                v
            },
        }
    }

    /// Carries out the decision `schedule` for a message to `recipient`: queues it at the
    /// instant given, or drops it.
    pub fn apply_schedule(&mut self, recipient: NodeId, message: Message<M>, schedule: DeliverySchedule)
        requires
            old(self).wf(),
        ensures
            final(self).wf(),
            final(self).queue_view() == apply_decision(old(self).queue_view(), (recipient, message), schedule),
            final(self).nodes_view() == old(self).nodes_view(),
            final(self).spec_start_time() == old(self).spec_start_time(),
            final(self).spec_consensus_values() == old(self).spec_consensus_values(),
            final(self).spec_strategy() == old(self).spec_strategy(),
            final(self).spec_rand() == old(self).spec_rand(),
    {
        match schedule {
            // The message is lost.
            DeliverySchedule::Drop => {},
            DeliverySchedule::AtInstant(dt) => self.schedule_message(dt, recipient, message),
        }
    }

    /// Sends `message` to each of `recipients`, in order: for each, the strategy is asked,
    /// with the random source, what to make of `AtInstant(base_delivery_time)`, and its answer
    /// schedules the send.
    fn send_messages(&mut self, recipients: Vec<NodeId>, message: Message<M>, base_delivery_time: Instant)
        requires
            old(self).wf(),
        ensures
            final(self).wf(),
            ({
                let answers = strategy_answers(old(self).spec_strategy(), old(self).spec_rand(), base_delivery_time, recipients@.len());
                &&& final(self).queue_view() == apply_decisions(
                    old(self).queue_view(),
                    recipients@.map_values(|id: NodeId| (id, message)),
                    answers.1,
                )
                &&& final(self).spec_rand() == answers.0
            }),
            final(self).nodes_view() == old(self).nodes_view(),
            final(self).spec_strategy() == old(self).spec_strategy(),
            final(self).spec_start_time() == old(self).spec_start_time(),
            final(self).spec_consensus_values() == old(self).spec_consensus_values(),
    {
        let ghost sends = recipients@.map_values(|id: NodeId| (id, message));
        let ghost strategy = self.delivery_time_strategy;
        let ghost rng0 = self.rand;
        let mut k: usize = 0;
        proof {
            assert(sends.subrange(0, 0) =~= Seq::<(NodeId, Message<M>)>::empty());
        }
        while k < recipients.len()
            invariant
                self.wf(),
                0 <= k <= recipients@.len(),
                sends == recipients@.map_values(|id: NodeId| (id, message)),
                strategy == self.delivery_time_strategy,
                strategy == old(self).spec_strategy(),
                rng0 == old(self).spec_rand(),
                self.rand == strategy_answers(strategy, rng0, base_delivery_time, k as nat).0,
                self.queue_view() == apply_decisions(
                    old(self).queue_view(),
                    sends.subrange(0, k as int),
                    strategy_answers(strategy, rng0, base_delivery_time, k as nat).1,
                ),
                self.nodes_view() == old(self).nodes_view(),
                self.spec_start_time() == old(self).spec_start_time(),
                self.spec_consensus_values() == old(self).spec_consensus_values(),
            decreases recipients@.len() - k,
        {
            let node_id = recipients[k];
            let ghost before = strategy_answers(strategy, rng0, base_delivery_time, k as nat);
            let tampered = self.delivery_time_strategy.map(&mut self.rand, DeliverySchedule::from(base_delivery_time));
            self.apply_schedule(node_id, message, tampered);
            proof {
                let pre = sends.subrange(0, k + 1);
                assert(pre.drop_last() =~= sends.subrange(0, k as int));
                assert(pre.last() == (node_id, message));
                let after = strategy_answers(strategy, rng0, base_delivery_time, (k + 1) as nat);
                assert(after.1.drop_last() =~= before.1);
                lemma_strategy_answers_len(strategy, rng0, base_delivery_time, k as nat);
            }
            k = k + 1;
        }
        proof {
            assert(sends.subrange(0, k as int) =~= sends);
        }
    }

    /// Advances the simulation by one message: the next entry of the queue is delivered to its
    /// recipient, and each message that the recipient's protocol instance answers is sent,
    /// through the strategy, to the nodes it addresses, starting from the delivery time of the
    /// entry. On an empty queue, or an entry for an unknown node, only the entry is consumed.
    pub fn crank(&mut self) -> (r: Result<(), TestRunError>)
        requires
            old(self).wf(),
        ensures
            final(self).wf(),
            r == step_result(old(self).queue_view(), old(self).ids()),
            final(self).ids() == old(self).ids(),
            final(self).spec_strategy() == old(self).spec_strategy(),
            final(self).spec_start_time() == old(self).spec_start_time(),
            final(self).spec_consensus_values() == old(self).spec_consensus_values(),
            old(self).queue_view().len() == 0 ==> final(self).queue_view() == old(self).queue_view()
                && final(self).nodes_view() == old(self).nodes_view()
                && final(self).spec_rand() == old(self).spec_rand(),
            old(self).queue_view().len() > 0 && !old(self).ids().contains(old(self).queue_view()[0].recipient)
                ==> final(self).queue_view() == old(self).queue_view().drop_first()
                && final(self).nodes_view() == old(self).nodes_view()
                && final(self).spec_rand() == old(self).spec_rand(),
            r is Ok ==> dispatched(
                old(self).spec_strategy(),
                old(self).queue_view(),
                old(self).nodes_view(),
                old(self).spec_rand(),
                final(self).queue_view(),
                final(self).nodes_view(),
                final(self).spec_rand(),
            ),
    {
        let entry = match self.msg_queue.pop() {
            None => {
                return Err(TestRunError::NoMessages);
            },
            Some(e) => e,
        };
        let k = match self.find_node(entry.recipient) {
            None => {
                return Err(TestRunError::MissingRecipient(entry.recipient));
            },
            Some(k) => k,
        };
        let ghost ids = self.ids();
        let ghost nodes0 = self.nodes@;
        let ghost q1 = self.queue_view();
        let ghost strategy = self.delivery_time_strategy;
        let ghost rng0 = self.rand;
        let base = entry.delivery_time;
        proof {
            assert(self.ids()[k as int] == entry.recipient);
            lemma_node_with_id(nodes0, k as int);
        }
        let outbound = self.nodes[k].handle_message(entry.message.sender, entry.message.payload);
        proof {
            assert(node_ids(self.nodes@) =~= ids);
        }
        let ghost nodes1 = self.nodes@;
        let mut i: usize = 0;
        proof {
            assert(outbound@.subrange(0, 0) =~= Seq::<TargetedMessage<M>>::empty());
        }
        while i < outbound.len()
            invariant
                self.wf(),
                0 <= i <= outbound@.len(),
                self.ids() == ids,
                self.nodes@ == nodes1,
                strategy == self.delivery_time_strategy,
                self.rand == strategy_answers(strategy, rng0, base, expand_outputs(outbound@.subrange(0, i as int), ids).len()).0,
                self.queue_view() == apply_decisions(
                    q1,
                    expand_outputs(outbound@.subrange(0, i as int), ids),
                    strategy_answers(strategy, rng0, base, expand_outputs(outbound@.subrange(0, i as int), ids).len()).1,
                ),
                self.spec_start_time() == old(self).spec_start_time(),
                self.spec_consensus_values() == old(self).spec_consensus_values(),
            decreases outbound@.len() - i,
        {
            let tm = outbound[i];
            let recipients = self.recipients(tm.target);
            let ghost before = expand_outputs(outbound@.subrange(0, i as int), ids);
            let ghost first = strategy_answers(strategy, rng0, base, before.len());
            self.send_messages(recipients, tm.message, base);
            proof {
                let part = recipients@.map_values(|id: NodeId| (id, tm.message));
                let pre = outbound@.subrange(0, i + 1);
                assert(pre.drop_last() =~= outbound@.subrange(0, i as int));
                assert(pre.last() == tm);
                assert(expand_outputs(pre, ids) == before + part);
                let second = strategy_answers(strategy, first.0, base, part.len());
                lemma_strategy_answers_append(strategy, rng0, base, before.len(), part.len());
                lemma_strategy_answers_len(strategy, rng0, base, before.len());
                lemma_strategy_answers_len(strategy, first.0, base, part.len());
                lemma_apply_decisions_append(q1, before, first.1, part, second.1);
                assert((before + part).len() == before.len() + part.len());
            }
            i = i + 1;
        }
        proof {
            assert(outbound@.subrange(0, i as int) =~= outbound@);
            let e = old(self).queue_view()[0];
            assert(e == entry);
            assert forall|j: int| 0 <= j < old(self).nodes_view().len() implies if (#[trigger] old(self).nodes_view()[j]).spec_id() == e.recipient {
                delivered(old(self).nodes_view()[j], self.nodes_view()[j], e.message)
            } else {
                self.nodes_view()[j] == old(self).nodes_view()[j]
            } by {
                if j != k {
                    assert(nodes1[j] == nodes0[j]);
                    if nodes0[j].spec_id() == e.recipient {
                        assert(node_ids(nodes0)[j] == node_ids(nodes0)[k as int]);
                    }
                }
            }
        }
        Ok(())
    }

    /// The nodes, by increasing id.
    pub fn nodes(&self) -> (r: &[Node<C, D>])
        ensures
            r@ == self.nodes_view(),
    {
        self.nodes.as_slice()
    }

    /// The pending deliveries, in the order in which they will be made.
    pub fn pending(&self) -> (r: &[QueueEntry<M>])
        ensures
            r@ == self.queue_view(),
    {
        self.msg_queue.entries()
    }

    /// The instant the network was created.
    pub fn start_time(&self) -> (r: u64)
        ensures
            r == self.spec_start_time(),
    {
        self.start_time
    }

    /// The consensus values to be proposed, in order.
    pub fn consensus_values(&self) -> (r: &[C])
        ensures
            r@ == self.spec_consensus_values(),
    {
        self.consensus_values.as_slice()
    }

    /// Appends `value` to what the node with id `id` has finalized.
    pub fn record_finalized(&mut self, id: NodeId, value: C) -> (r: Result<(), TestRunError>)
        requires
            old(self).wf(),
        ensures
            final(self).wf(),
            final(self).ids() == old(self).ids(),
            final(self).queue_view() == old(self).queue_view(),
            final(self).spec_start_time() == old(self).spec_start_time(),
            final(self).spec_consensus_values() == old(self).spec_consensus_values(),
            final(self).spec_strategy() == old(self).spec_strategy(),
            final(self).spec_rand() == old(self).spec_rand(),
            !old(self).ids().contains(id) ==> r == Err::<(), TestRunError>(TestRunError::MissingRecipient(id))
                && final(self).nodes_view() == old(self).nodes_view(),
            old(self).ids().contains(id) ==> r is Ok && forall|j: int| 0 <= j < old(self).nodes_view().len()
                ==> if (#[trigger] old(self).nodes_view()[j]).spec_id() == id {
                    &&& final(self).nodes_view()[j].finalized_log() == old(self).nodes_view()[j].finalized_log().push(value)
                    &&& final(self).nodes_view()[j].spec_id() == id
                    &&& final(self).nodes_view()[j].spec_is_faulty() == old(self).nodes_view()[j].spec_is_faulty()
                    &&& final(self).nodes_view()[j].received_log() == old(self).nodes_view()[j].received_log()
                    &&& final(self).nodes_view()[j].produced_log() == old(self).nodes_view()[j].produced_log()
                } else {
                    final(self).nodes_view()[j] == old(self).nodes_view()[j]
                },
    {
        match self.find_node(id) {
            None => Err(TestRunError::MissingRecipient(id)),
            Some(k) => {
                proof {
                    assert(self.ids()[k as int] == id);
                }
                let ghost nodes0 = self.nodes@;
                self.nodes[k].finalize(value);
                proof {
                    assert(node_ids(self.nodes@) =~= node_ids(nodes0));
                    assert forall|j: int| 0 <= j < nodes0.len() && j != k
                        implies nodes0[j].spec_id() != id by {
                        assert(node_ids(nodes0)[j] != node_ids(nodes0)[k as int]);
                    }
                }
                Ok(())
            },
        }
    }

    /// The harness itself, mutably.
    pub fn mut_handle(&mut self) -> (r: &mut Self)
        ensures
            *r == *old(self),
            *final(self) == *final(r),
    {
        self
    }
}

} // verus!
