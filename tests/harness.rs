use casper_sim::harness::{TestHarness, TestRunError};
use casper_sim::network::{Broadcaster, Instant, Message, NoOpConsensus, Node, NodeId, Target};
use casper_sim::queue::{Queue, QueueEntry};
use casper_sim::schedule::{
    DeliverySchedule, DropAll, FixedDelay, RandomDelay, SplitMix64, Strategy, Untampered,
};
use rand::{Rng, SeedableRng};
use rand_xorshift::XorShiftRng;

type M = u64;
type C = u64;

fn seeded() -> XorShiftRng {
    XorShiftRng::from_seed([9, 8, 7, 6, 5, 4, 3, 2, 1, 2, 3, 4, 5, 6, 7, 8])
}

#[test]
fn on_empty_queue_error() {
    let single_node: Node<C, NoOpConsensus> = Node::new(NodeId(1u64), false, NoOpConsensus());
    let rand = XorShiftRng::from_seed(rand::random());
    let mut test_harness: TestHarness<M, C, NoOpConsensus, FixedDelay, XorShiftRng> =
        TestHarness::new(vec![single_node], 0, vec![], FixedDelay(1), rand);
    assert_eq!(test_harness.crank(), Err(TestRunError::NoMessages));
}

#[test]
fn messages_are_delivered_in_order() {
    let node_id = NodeId(1u64);
    let single_node = Node::new(node_id, false, NoOpConsensus());
    let rand = XorShiftRng::from_seed(rand::random());
    let mut test_harness: TestHarness<M, C, NoOpConsensus, FixedDelay, XorShiftRng> =
        TestHarness::new(vec![single_node], 0, vec![], FixedDelay(1), rand);

    let messages_num = 10;
    // Enqueue messages from the latest delivery time to the earliest.
    (0..messages_num)
        .map(|i| (Instant(messages_num - i), Message::new(node_id, i)))
        .for_each(|(instant, message)| test_harness.schedule_message(instant, node_id, message));

    // Earliest delivery time first: payload 9 (time 1), then 8 (time 2), and so on.
    let mut crank_count = 0;
    let mut expected_payload = messages_num - 1;
    while test_harness.crank().is_ok() {
        let new_message = *test_harness
            .mut_handle()
            .nodes()
            .iter()
            .next()
            .unwrap()
            .messages_received()
            .iter()
            .last()
            .unwrap();
        assert_eq!(
            new_message.payload, expected_payload,
            "Messages were not delivered in the expected order."
        );
        expected_payload = expected_payload.wrapping_sub(1);
        crank_count += 1;
    }
    assert_eq!(
        crank_count, messages_num,
        "There was more messages in the network than scheduled initially."
    );
    assert_eq!(test_harness.crank(), Err(TestRunError::NoMessages));
}

#[test]
fn empty_queue_stays_empty() {
    let node = Node::new(NodeId(1), false, NoOpConsensus());
    let mut h: TestHarness<M, C, NoOpConsensus, FixedDelay, XorShiftRng> =
        TestHarness::new(vec![node], 0, vec![], FixedDelay(1), seeded());
    assert_eq!(h.crank(), Err(TestRunError::NoMessages));
    assert!(h.pending().is_empty());
    assert_eq!(h.crank(), Err(TestRunError::NoMessages));
    assert!(h.pending().is_empty());
}

#[test]
fn recipient_not_found() {
    let nodes = vec![Node::new(NodeId(1), false, NoOpConsensus()), Node::new(NodeId(2), false, NoOpConsensus())];
    let mut h: TestHarness<M, C, NoOpConsensus, FixedDelay, XorShiftRng> =
        TestHarness::new(nodes, 0, vec![], FixedDelay(1), seeded());
    h.schedule_message(Instant(1), NodeId(3), Message::new(NodeId(1), 5));
    assert_eq!(h.crank(), Err(TestRunError::MissingRecipient(NodeId(3))));
    // The entry is consumed and no node received anything.
    assert!(h.pending().is_empty());
    assert!(h.nodes().iter().all(|n| n.messages_received().is_empty()));
    assert_eq!(h.crank(), Err(TestRunError::NoMessages));
}

#[test]
fn missing_recipient_leaves_the_rest() {
    let nodes = vec![Node::new(NodeId(1), false, NoOpConsensus())];
    let mut h: TestHarness<M, C, NoOpConsensus, FixedDelay, XorShiftRng> =
        TestHarness::new(nodes, 0, vec![], FixedDelay(1), seeded());
    h.schedule_message(Instant(1), NodeId(9), Message::new(NodeId(1), 5));
    h.schedule_message(Instant(2), NodeId(1), Message::new(NodeId(1), 6));
    assert_eq!(h.crank(), Err(TestRunError::MissingRecipient(NodeId(9))));
    assert_eq!(h.pending().len(), 1);
    assert_eq!(h.pending()[0].recipient, NodeId(1));
    assert_eq!(h.crank(), Ok(()));
    assert_eq!(h.nodes()[0].messages_received(), &[Message::new(NodeId(1), 6)][..]);
}

#[test]
fn broadcast_with_delay_strategy() {
    let nodes: Vec<Node<C, Broadcaster>> = (1..=3)
        .map(|i| Node::new(NodeId(i), false, Broadcaster { id: NodeId(i), limit: 100 }))
        .collect();
    let mut h = TestHarness::new(nodes, 0, vec![], FixedDelay(1), seeded());
    h.schedule_message(Instant(5), NodeId(2), Message::new(NodeId(1), 0));
    assert_eq!(h.crank(), Ok(()));
    let pending = h.pending();
    assert_eq!(pending.len(), 3);
    for (k, entry) in pending.iter().enumerate() {
        assert_eq!(entry.delivery_time, Instant(6));
        assert_eq!(entry.recipient, NodeId(k as u64 + 1));
        assert_eq!(entry.message, Message::new(NodeId(2), 1));
    }
    assert_eq!(h.nodes()[1].messages_produced(), &[Message::new(NodeId(2), 1)][..]);
}

#[test]
fn identity_strategy_keeps_time() {
    let nodes: Vec<Node<C, Broadcaster>> =
        vec![Node::new(NodeId(4), false, Broadcaster { id: NodeId(4), limit: 100 })];
    let mut h = TestHarness::new(nodes, 0, vec![], Untampered(), seeded());
    h.schedule_message(Instant(3), NodeId(4), Message::new(NodeId(4), 0));
    assert_eq!(h.crank(), Ok(()));
    assert_eq!(h.pending(), &[QueueEntry::new(Instant(3), NodeId(4), Message::new(NodeId(4), 1))][..]);
}

#[test]
fn equal_times_order_by_recipient_then_payload() {
    let orders: [[usize; 6]; 3] = [[0, 1, 2, 3, 4, 5], [5, 4, 3, 2, 1, 0], [3, 0, 5, 1, 4, 2]];
    let entries = [
        (NodeId(1), 4u64),
        (NodeId(1), 9u64),
        (NodeId(2), 1u64),
        (NodeId(2), 3u64),
        (NodeId(3), 0u64),
        (NodeId(3), 2u64),
    ];
    for order in orders.iter() {
        let mut q: Queue<u64> = Queue::new();
        for &k in order.iter() {
            let (r, p) = entries[k];
            q.push(QueueEntry::new(Instant(7), r, Message::new(NodeId(8), p)));
        }
        let mut out = vec![];
        while let Some(e) = q.pop() {
            out.push((e.recipient, e.message.payload));
        }
        assert_eq!(out, entries.to_vec());
    }
}

#[test]
fn distinct_times_delivered_by_time() {
    let mut rng = seeded();
    let mut times: Vec<u64> = (0..50).map(|_| rng.gen_range(0..1_000_000)).collect();
    times.sort();
    times.dedup();
    let mut shuffled = times.clone();
    for i in (1..shuffled.len()).rev() {
        let j = rng.gen_range(0..=i);
        shuffled.swap(i, j);
    }
    let mut q: Queue<u64> = Queue::default();
    for &t in shuffled.iter() {
        q.push(QueueEntry::new(Instant(t), NodeId(1), Message::new(NodeId(1), t)));
    }
    let mut delivered = vec![];
    while let Some(e) = q.pop() {
        delivered.push(e.delivery_time.0);
    }
    assert_eq!(delivered, times);
}

#[test]
fn dropped_messages_are_never_received() {
    let nodes: Vec<Node<C, Broadcaster>> = (1..=3)
        .map(|i| Node::new(NodeId(i), false, Broadcaster { id: NodeId(i), limit: 100 }))
        .collect();
    let mut h = TestHarness::new(nodes, 0, vec![], DropAll(), seeded());
    h.schedule_message(Instant(1), NodeId(1), Message::new(NodeId(2), 0));
    assert_eq!(h.crank(), Ok(()));
    assert!(h.pending().is_empty());
    for _ in 0..5 {
        assert_eq!(h.crank(), Err(TestRunError::NoMessages));
    }
    assert_eq!(h.nodes()[0].messages_received().len(), 1);
    assert!(h.nodes()[1].messages_received().is_empty());
    assert!(h.nodes()[2].messages_received().is_empty());
}

fn run_random(seed: u64) -> Vec<(NodeId, Vec<Message<u64>>)> {
    let nodes: Vec<Node<C, Broadcaster>> = (1..=4)
        .map(|i| Node::new(NodeId(i), i == 3, Broadcaster { id: NodeId(i), limit: 6 }))
        .collect();
    let strategy = RandomDelay { drop_one_in: 4, max_extra_delay: 4 };
    let mut h = TestHarness::new(nodes, 0, vec![1, 2], strategy, SplitMix64::new(seed));
    h.schedule_message(Instant(0), NodeId(1), Message::new(NodeId(1), 0));
    h.schedule_message(Instant(0), NodeId(3), Message::new(NodeId(2), 0));
    let mut cranks = 0;
    while h.crank().is_ok() && cranks < 10_000 {
        cranks += 1;
    }
    h.nodes().iter().map(|n| (n.node_id(), n.messages_received().to_vec())).collect()
}

#[test]
fn replay_is_deterministic() {
    let a = run_random(2024);
    let b = run_random(2024);
    assert_eq!(a, b);
    assert!(a.iter().map(|(_, log)| log.len()).sum::<usize>() > 2);
}

#[test]
fn node_logs_what_it_handles() {
    let mut node: Node<C, Broadcaster> = Node::new(NodeId(5), true, Broadcaster { id: NodeId(5), limit: 1 });
    assert!(node.is_faulty());
    assert_eq!(node.node_id(), NodeId(5));
    let out = node.handle_message(NodeId(2), 0);
    assert_eq!(out.len(), 1);
    assert_eq!(out[0].target, Target::All);
    assert_eq!(node.messages_received(), &[Message::new(NodeId(2), 0)][..]);
    assert_eq!(node.messages_produced(), &[Message::new(NodeId(5), 1)][..]);
    let out = node.handle_message(NodeId(3), 1);
    assert!(out.is_empty());
    assert_eq!(node.messages_received().len(), 2);
    assert_eq!(node.messages_produced().len(), 1);
    node.finalize(42);
    assert_eq!(node.finalized_values(), &[42][..]);
}

#[test]
fn later_node_with_same_id_replaces_earlier() {
    let nodes = vec![
        Node::new(NodeId(7), false, NoOpConsensus()),
        Node::new(NodeId(2), false, NoOpConsensus()),
        Node::new(NodeId(7), true, NoOpConsensus()),
    ];
    let h: TestHarness<M, C, NoOpConsensus, FixedDelay, XorShiftRng> =
        TestHarness::new(nodes, 11, vec![3, 4], FixedDelay(1), seeded());
    let ids: Vec<NodeId> = h.nodes().iter().map(|n| n.node_id()).collect();
    assert_eq!(ids, vec![NodeId(2), NodeId(7)]);
    assert!(h.nodes()[1].is_faulty());
    assert_eq!(h.start_time(), 11);
    assert_eq!(h.consensus_values(), &[3, 4][..]);
    assert_eq!(h.recipients(Target::All), vec![NodeId(2), NodeId(7)]);
    assert_eq!(h.recipients(Target::SingleNode(NodeId(9))), vec![NodeId(9)]);
}

#[test]
fn finalized_values_are_recorded() {
    let nodes = vec![Node::new(NodeId(1), false, NoOpConsensus()), Node::new(NodeId(2), false, NoOpConsensus())];
    let mut h: TestHarness<M, C, NoOpConsensus, FixedDelay, XorShiftRng> =
        TestHarness::new(nodes, 0, vec![], FixedDelay(1), seeded());
    assert_eq!(h.record_finalized(NodeId(2), 10), Ok(()));
    assert_eq!(h.record_finalized(NodeId(3), 10), Err(TestRunError::MissingRecipient(NodeId(3))));
    assert!(h.nodes()[0].finalized_values().is_empty());
    assert_eq!(h.nodes()[1].finalized_values(), &[10][..]);
}

#[test]
fn apply_schedule_queues_or_drops() {
    let nodes = vec![Node::new(NodeId(1), false, NoOpConsensus())];
    let mut h: TestHarness<M, C, NoOpConsensus, FixedDelay, XorShiftRng> =
        TestHarness::new(nodes, 0, vec![], FixedDelay(1), seeded());
    h.apply_schedule(NodeId(1), Message::new(NodeId(1), 3), DeliverySchedule::Drop);
    assert!(h.pending().is_empty());
    h.apply_schedule(NodeId(1), Message::new(NodeId(1), 3), DeliverySchedule::at(Instant(4)));
    assert_eq!(h.pending(), &[QueueEntry::new(Instant(4), NodeId(1), Message::new(NodeId(1), 3))][..]);
    assert_eq!(DeliverySchedule::from(Instant(2)), DeliverySchedule::AtInstant(Instant(2)));
}

#[test]
fn error_descriptions() {
    assert_eq!(
        TestRunError::MissingRecipient(NodeId(3)).description(),
        "Recipient node NodeId(3) was not found in the map."
    );
    assert_eq!(
        TestRunError::MissingRecipient(NodeId(1234)).description(),
        "Recipient node NodeId(1234) was not found in the map."
    );
    assert_eq!(
        TestRunError::NoMessages.description(),
        "Test finished prematurely due to lack of messages in the queue"
    );
}

#[test]
fn queue_entry_order() {
    let a = QueueEntry::new(Instant(1), NodeId(5), Message::new(NodeId(0), 9u64));
    let b = QueueEntry::new(Instant(2), NodeId(1), Message::new(NodeId(0), 0u64));
    let c = QueueEntry::new(Instant(2), NodeId(1), Message::new(NodeId(0), 1u64));
    assert!(a.precedes(&b));
    assert!(b.precedes(&c));
    assert!(!c.precedes(&b));
    assert!(!b.precedes(&b));
}

#[test]
fn library_no_op_and_fixed_delay() {
    let node = Node::new(NodeId(1), false, NoOpConsensus());
    let mut h: TestHarness<u64, C, NoOpConsensus, FixedDelay, XorShiftRng> =
        TestHarness::new(vec![node], 0, vec![], FixedDelay(2), seeded());
    h.schedule_message(Instant(4), NodeId(1), Message::new(NodeId(1), 1));
    assert_eq!(h.crank(), Ok(()));
    assert!(h.pending().is_empty());
    assert_eq!(h.crank(), Err(TestRunError::NoMessages));
    let mut rng = seeded();
    assert_eq!(FixedDelay(2).map(&mut rng, DeliverySchedule::AtInstant(Instant(4))), DeliverySchedule::AtInstant(Instant(6)));
    assert_eq!(FixedDelay(2).map(&mut rng, DeliverySchedule::AtInstant(Instant(u64::MAX - 1))), DeliverySchedule::AtInstant(Instant(u64::MAX)));
    assert_eq!(FixedDelay(2).map(&mut rng, DeliverySchedule::Drop), DeliverySchedule::Drop);
}

#[test]
fn splitmix_numbers() {
    let mut rng = SplitMix64::new(0);
    assert_eq!(rng.next_u64(), 0xe220a8397b1dcdaf);
    assert_eq!(rng.next_u64(), 0x6e789e6aa1b965f4);
    assert_eq!(rng.state, 0x9e3779b97f4a7c15u64.wrapping_mul(2));
}

#[test]
fn random_delay_and_drop_all() {
    let strategy = RandomDelay { drop_one_in: 0, max_extra_delay: 1 };
    let mut rng = SplitMix64::new(5);
    // Without drops and with one extra tick at most, every delivery moves by exactly one.
    assert_eq!(strategy.map(&mut rng, DeliverySchedule::AtInstant(Instant(7))), DeliverySchedule::AtInstant(Instant(8)));
    assert_eq!(rng.state, 0x9e3779b97f4a7c15u64.wrapping_mul(2).wrapping_add(5));
    assert_eq!(strategy.map(&mut rng, DeliverySchedule::Drop), DeliverySchedule::Drop);
    let mut a = SplitMix64::new(9);
    let mut b = SplitMix64::new(9);
    let wide = RandomDelay { drop_one_in: 3, max_extra_delay: 10 };
    for t in 0..20 {
        let x = wide.map(&mut a, DeliverySchedule::AtInstant(Instant(t)));
        let y = wide.map(&mut b, DeliverySchedule::AtInstant(Instant(t)));
        assert_eq!(x, y);
        if let DeliverySchedule::AtInstant(Instant(u)) = x {
            assert!(u > t && u <= t + 10);
        }
    }
    let mut rng = seeded();
    assert_eq!(DropAll().map(&mut rng, DeliverySchedule::AtInstant(Instant(1))), DeliverySchedule::Drop);
    assert_eq!(Untampered().map(&mut rng, DeliverySchedule::AtInstant(Instant(1))), DeliverySchedule::AtInstant(Instant(1)));
}
