//! Identifiers, message envelopes and simulated nodes.

use vstd::prelude::*;

verus! {

/// Identifier of a simulated node.
#[derive(Debug, Clone, Copy, PartialEq, Eq, Structural, PartialOrd, Ord, Hash)]
pub struct NodeId(pub u64);

/// A logical point in time; it is never read from a clock.
#[derive(Debug, Clone, Copy, PartialEq, Eq, Structural, PartialOrd, Ord, Hash)]
pub struct Instant(pub u64);

/// Payloads carried by simulated messages: copyable values with a strict total order,
/// which makes the delivery order of the queue deterministic.
pub trait OrderedPayload: Copy + Sized {
    /// `self` strictly precedes `other`.
    spec fn spec_precedes(self, other: Self) -> bool;

    fn precedes(&self, other: &Self) -> (r: bool)
        ensures
            r == self.spec_precedes(*other),
    ;

    /// `spec_precedes` is irreflexive, transitive and total.
    proof fn lemma_total_order(a: Self, b: Self, c: Self)
        ensures
            !a.spec_precedes(a),
            a.spec_precedes(b) && b.spec_precedes(c) ==> a.spec_precedes(c),
            a.spec_precedes(b) || b.spec_precedes(a) || a == b,
    ;
}

impl OrderedPayload for u64 {
    open spec fn spec_precedes(self, other: Self) -> bool {
        self < other
    }

    fn precedes(&self, other: &Self) -> (r: bool) {
        *self < *other
    }

    proof fn lemma_total_order(a: Self, b: Self, c: Self) {
    }
}

impl OrderedPayload for u32 {
    open spec fn spec_precedes(self, other: Self) -> bool {
        self < other
    }

    fn precedes(&self, other: &Self) -> (r: bool) {
        *self < *other
    }

    proof fn lemma_total_order(a: Self, b: Self, c: Self) {
    }
}

/// A message: its sender and its payload.
#[derive(Debug, Clone, Copy, PartialEq, Eq)]
pub struct Message<M> {
    pub sender: NodeId,
    pub payload: M,
}

impl<M: Copy> Message<M> {
    pub fn new(sender: NodeId, payload: M) -> (r: Self)
        ensures
            r == (Message { sender, payload }),
    {
        Message { sender, payload }
    }
}

/// The recipients of an outgoing message.
#[derive(Debug, Clone, Copy, PartialEq, Eq)]
pub enum Target {
    SingleNode(NodeId),
    All,
}

/// A message produced by a protocol instance, with the recipients it is addressed to.
#[derive(Debug, Clone, Copy)]
pub struct TargetedMessage<M> {
    pub message: Message<M>,
    pub target: Target,
}

impl<M: Copy> TargetedMessage<M> {
    pub fn new(message: Message<M>, target: Target) -> (r: Self)
        ensures
            r == (TargetedMessage { message, target }),
    {
        TargetedMessage { message, target }
    }
}

/// A consensus protocol under test. Implementations are deterministic: what they answer
/// and the state they move to are functions of their state and inputs. A faulty instance is
/// free to equivocate.
pub trait ConsensusInstance: Sized {
    type M: OrderedPayload;

    /// What the instance answers to `m` from `sender`.
    spec fn spec_outputs(&self, sender: NodeId, m: Self::M, is_faulty: bool) -> Seq<TargetedMessage<Self::M>>;

    /// The state the instance moves to on `m` from `sender`.
    spec fn spec_next(&self, sender: NodeId, m: Self::M, is_faulty: bool) -> Self;

    fn handle_message(&mut self, sender: NodeId, m: Self::M, is_faulty: bool) -> (r: Vec<TargetedMessage<Self::M>>)
        ensures
            r@ == old(self).spec_outputs(sender, m, is_faulty),
            *final(self) == old(self).spec_next(sender, m, is_faulty),
    ;
}

/// A protocol instance that answers nothing and never changes.
#[derive(Debug, Clone, Copy, PartialEq, Eq)]
pub struct NoOpConsensus();

impl ConsensusInstance for NoOpConsensus {
    type M = u64;

    open spec fn spec_outputs(&self, sender: NodeId, m: u64, is_faulty: bool) -> Seq<TargetedMessage<u64>> {
        Seq::empty()
    }

    open spec fn spec_next(&self, sender: NodeId, m: u64, is_faulty: bool) -> Self {
        *self
    }

    fn handle_message(&mut self, sender: NodeId, m: u64, is_faulty: bool) -> (r: Vec<TargetedMessage<u64>>) {
        Vec::new()
    }
}

/// A protocol instance for exercising the harness: it answers a payload below `limit` with one
/// broadcast, from `id`, of the payload plus one, and anything else with nothing.
#[derive(Debug, Clone, Copy, PartialEq, Eq)]
pub struct Broadcaster {
    pub id: NodeId,
    pub limit: u64,
}

impl ConsensusInstance for Broadcaster {
    type M = u64;

    open spec fn spec_outputs(&self, sender: NodeId, m: u64, is_faulty: bool) -> Seq<TargetedMessage<u64>> {
        if m >= self.limit {
            Seq::empty()
        } else {
            seq![TargetedMessage { message: Message { sender: self.id, payload: (m + 1) as u64 }, target: Target::All }]
        }
    }

    open spec fn spec_next(&self, sender: NodeId, m: u64, is_faulty: bool) -> Self {
        *self
    }

    fn handle_message(&mut self, sender: NodeId, m: u64, is_faulty: bool) -> (r: Vec<TargetedMessage<u64>>) {
        let mut out: Vec<TargetedMessage<u64>> = Vec::new();
        if m < self.limit {
            out.push(TargetedMessage::new(Message::new(self.id, m + 1), Target::All));
            proof {
                assert(out@ =~= self.spec_outputs(sender, m, is_faulty));
            }
        }
        out
    }
}

/// The messages that a sequence of targeted messages carries, in order.
pub open spec fn carried<M>(tms: Seq<TargetedMessage<M>>) -> Seq<Message<M>> {
    tms.map_values(|tm: TargetedMessage<M>| tm.message)
}

/// A node of the simulated network.
pub struct Node<C, D: ConsensusInstance> {
    id: NodeId,
    /// Whether the node should produce equivocations.
    is_faulty: bool,
    /// Consensus values finalized by the node, in order.
    finalized_values: Vec<C>,
    /// Messages received by the node, in order.
    messages_received: Vec<Message<D::M>>,
    /// Messages produced by the node, in order.
    messages_produced: Vec<Message<D::M>>,
    /// The protocol instance.
    consensus: D,
}

impl<C, D: ConsensusInstance> Node<C, D> {
    pub closed spec fn spec_id(&self) -> NodeId {
        self.id
    }

    pub closed spec fn spec_is_faulty(&self) -> bool {
        self.is_faulty
    }

    pub closed spec fn finalized_log(&self) -> Seq<C> {
        self.finalized_values@
    }

    pub closed spec fn received_log(&self) -> Seq<Message<D::M>> {
        self.messages_received@
    }

    pub closed spec fn produced_log(&self) -> Seq<Message<D::M>> {
        self.messages_produced@
    }

    pub closed spec fn instance(&self) -> D {
        self.consensus
    }

    pub fn new(id: NodeId, is_faulty: bool, consensus: D) -> (r: Self)
        ensures
            r.spec_id() == id,
            r.spec_is_faulty() == is_faulty,
            r.finalized_log() == Seq::<C>::empty(),
            r.received_log() == Seq::<Message<D::M>>::empty(),
            r.produced_log() == Seq::<Message<D::M>>::empty(),
            r.instance() == consensus,
    {
        Node {
            id,
            is_faulty,
            finalized_values: Vec::new(),
            messages_received: Vec::new(),
            messages_produced: Vec::new(),
            consensus,
        }
    }

    pub fn is_faulty(&self) -> (r: bool)
        ensures
            r == self.spec_is_faulty(),
    {
        self.is_faulty
    }

    pub fn node_id(&self) -> (r: NodeId)
        ensures
            r == self.spec_id(),
    {
        self.id
    }

    /// Consensus values finalized by the node, in order.
    pub fn finalized_values(&self) -> (r: &[C])
        ensures
            r@ == self.finalized_log(),
    {
        self.finalized_values.as_slice()
    }

    /// Messages received by the node, in order of delivery.
    pub fn messages_received(&self) -> (r: &[Message<D::M>])
        ensures
            r@ == self.received_log(),
    {
        self.messages_received.as_slice()
    }

    /// Messages produced by the node, in order.
    pub fn messages_produced(&self) -> (r: &[Message<D::M>])
        ensures
            r@ == self.produced_log(),
    {
        self.messages_produced.as_slice()
    }

    /// Appends `value` to the values that the node has finalized.
    pub fn finalize(&mut self, value: C)
        ensures
            final(self).finalized_log() == old(self).finalized_log().push(value),
            final(self).spec_id() == old(self).spec_id(),
            final(self).spec_is_faulty() == old(self).spec_is_faulty(),
            final(self).received_log() == old(self).received_log(),
            final(self).produced_log() == old(self).produced_log(),
            final(self).instance() == old(self).instance(),
    {
        self.finalized_values.push(value);
    }

    /// Delivers a message to the node: it is logged, handed to the protocol instance together
    /// with the node's faultiness, and what the instance produced is logged and returned.
    pub fn handle_message(&mut self, sender: NodeId, m: D::M) -> (r: Vec<TargetedMessage<D::M>>)
        ensures
            r@ == old(self).instance().spec_outputs(sender, m, old(self).spec_is_faulty()),
            final(self).instance() == old(self).instance().spec_next(sender, m, old(self).spec_is_faulty()),
            final(self).received_log() == old(self).received_log().push(Message { sender, payload: m }),
            final(self).produced_log() == old(self).produced_log() + carried(r@),
            final(self).spec_id() == old(self).spec_id(),
            final(self).spec_is_faulty() == old(self).spec_is_faulty(),
            final(self).finalized_log() == old(self).finalized_log(),
    {
        self.messages_received.push(Message::new(sender, m));
        let outbound = self.consensus.handle_message(sender, m, self.is_faulty);
        let ghost produced0 = self.messages_produced@;
        let mut i: usize = 0;
        while i < outbound.len()
            invariant
                0 <= i <= outbound@.len(),
                self.messages_produced@ == produced0 + carried(outbound@.subrange(0, i as int)),
                self.messages_received@ == old(self).messages_received@.push(Message { sender, payload: m }),
                self.id == old(self).id,
                self.is_faulty == old(self).is_faulty,
                self.finalized_values@ == old(self).finalized_values@,
                self.consensus == old(self).consensus.spec_next(sender, m, old(self).is_faulty),
            decreases outbound@.len() - i,
        {
            self.messages_produced.push(outbound[i].message);
            proof {
                assert(outbound@.subrange(0, i + 1) == outbound@.subrange(0, i as int).push(outbound@[i as int]));
            }
            i = i + 1;
        }
        proof {
            assert(outbound@.subrange(0, outbound@.len() as int) == outbound@);
        }
        outbound
    }
}

} // verus!
