use honey_badger::Batch;
use honey_badger::CommonSubset;
use honey_badger::Error;
use honey_badger::HoneyBadger;
use honey_badger::Message;
use honey_badger::Target;
use honey_badger::TargetedMessage;
use std::collections::BTreeMap;
use std::collections::HashSet;
use std::collections::VecDeque;

/// A common subset for a network without faults: every node sends its
/// proposal to all others, and outputs the proposals of all nodes once it
/// holds one of each. A message is the sender's proposal.
#[derive(Debug)]
struct Gather {
    our_id: u64,
    num_nodes: usize,
    proposals: BTreeMap<u64, Vec<u8>>,
    outbox: Vec<TargetedMessage<Vec<u8>>>,
    has_input: bool,
    decided: bool,
    output: Option<BTreeMap<u64, Vec<u8>>>,
}

/// The message that `Gather` refuses.
fn refused_message() -> Vec<u8> {
    vec![0xff]
}

impl Gather {
    fn decide(&mut self) {
        if !self.decided && self.proposals.len() == self.num_nodes {
            self.decided = true;
            self.output = Some(self.proposals.clone());
        }
    }
}

impl CommonSubset for Gather {
    type Message = Vec<u8>;
    type Error = String;

    // The names of what the methods return are used in contracts only.
    fn created(_our_id: u64, _all_ids: vstd::set::Set<u64>) -> Result<Self, String> {
        unreachable!()
    }

    fn input_result(&self, _proposal: vstd::seq::Seq<u8>) -> Result<(), String> {
        unreachable!()
    }

    fn after_input(&self, _proposal: vstd::seq::Seq<u8>) -> Self {
        unreachable!()
    }

    fn message_result(&self, _sender_id: u64, _message: Vec<u8>) -> Result<(), String> {
        unreachable!()
    }

    fn after_message(&self, _sender_id: u64, _message: Vec<u8>) -> Self {
        unreachable!()
    }

    fn outgoing(&self) -> vstd::seq::Seq<TargetedMessage<Vec<u8>>> {
        unreachable!()
    }

    fn after_drain(&self) -> Self {
        unreachable!()
    }

    fn after_output(&self) -> Self {
        unreachable!()
    }

    fn is_terminated(&self) -> bool {
        self.decided
    }

    fn new(our_id: u64, all_ids: &HashSet<u64>) -> Result<Self, String> {
        Ok(Gather {
            our_id,
            num_nodes: all_ids.len(),
            proposals: BTreeMap::new(),
            outbox: Vec::new(),
            has_input: false,
            decided: false,
            output: None,
        })
    }

    fn input(&mut self, proposal: Vec<u8>) -> Result<(), String> {
        if self.has_input {
            return Err("a second proposal".to_string());
        }
        self.has_input = true;
        self.outbox.push(TargetedMessage { target: Target::All, message: proposal.clone() });
        self.proposals.entry(self.our_id).or_insert(proposal);
        self.decide();
        Ok(())
    }

    fn handle_message(&mut self, sender_id: &u64, message: Vec<u8>) -> Result<(), String> {
        if message == refused_message() {
            return Err("refused".to_string());
        }
        self.proposals.entry(*sender_id).or_insert(message);
        self.decide();
        Ok(())
    }

    fn message_iter(&mut self) -> Vec<TargetedMessage<Vec<u8>>> {
        std::mem::take(&mut self.outbox)
    }

    fn next_output_of(&self) -> Option<BTreeMap<u64, Vec<u8>>> {
        self.output.clone()
    }

    fn next_output(&mut self) -> Option<BTreeMap<u64, Vec<u8>>> {
        self.output.take()
    }

    fn terminated(&self) -> bool {
        self.decided
    }
}

type Engine = HoneyBadger<Gather>;

fn bytes(text: &str) -> Vec<u8> {
    text.as_bytes().to_vec()
}

fn encode(txs: &[Vec<u8>]) -> Vec<u8> {
    bincode::serialize(&txs.to_vec()).unwrap()
}

fn decode(proposal: &[u8]) -> Vec<Vec<u8>> {
    bincode::deserialize(proposal).unwrap()
}

fn epoch_of(message: &Message<Vec<u8>>) -> u64 {
    match message {
        Message::CommonSubset(epoch, _) => *epoch,
    }
}

fn proposal_of(message: &Message<Vec<u8>>) -> Vec<Vec<u8>> {
    match message {
        Message::CommonSubset(_, proposal) => decode(proposal),
    }
}

fn drain_messages(engine: &mut Engine) -> Vec<TargetedMessage<Message<Vec<u8>>>> {
    let mut messages = Vec::new();
    while let Some(message) = engine.next_message() {
        messages.push(message);
    }
    messages
}

fn drain_outputs(engine: &mut Engine) -> Vec<Batch> {
    let mut batches = Vec::new();
    while let Some(batch) = engine.next_output() {
        batches.push(batch);
    }
    batches
}

/// A single node, which is handed its own messages back.
fn single_node(batch_size: usize, txs: Vec<Vec<u8>>) -> Engine {
    Engine::new(0, vec![0], batch_size, txs).unwrap()
}

/// Hands a single node its own queued messages, once each.
fn loop_back(engine: &mut Engine) {
    for message in drain_messages(engine) {
        engine.handle_message(&0, message.message).unwrap();
    }
}

/// A network of engines that delivers every message, in the order sent.
struct Network {
    nodes: Vec<Engine>,
    in_flight: VecDeque<(u64, u64, Message<Vec<u8>>)>,
    outputs: Vec<Vec<Batch>>,
}

impl Network {
    fn new(num_nodes: u64, batch_size: usize, txs: &dyn Fn(u64) -> Vec<Vec<u8>>) -> Network {
        let ids: Vec<u64> = (0..num_nodes).collect();
        let nodes: Vec<Engine> = ids
            .iter()
            .map(|id| Engine::new(*id, ids.clone(), batch_size, txs(*id)).unwrap())
            .collect();
        let outputs = ids.iter().map(|_| Vec::new()).collect();
        let mut network = Network { nodes, in_flight: VecDeque::new(), outputs };
        network.dispatch();
        network
    }

    /// Moves what the engines want sent into the network.
    fn dispatch(&mut self) {
        let num_nodes = self.nodes.len() as u64;
        for from in 0..num_nodes {
            for message in drain_messages(&mut self.nodes[from as usize]) {
                match message.target {
                    Target::All => {
                        for to in (0..num_nodes).filter(|to| *to != from) {
                            self.in_flight.push_back((from, to, message.message.clone()));
                        }
                    }
                    Target::Node(to) => self.in_flight.push_back((from, to, message.message)),
                }
            }
            let batches = drain_outputs(&mut self.nodes[from as usize]);
            self.outputs[from as usize].extend(batches);
        }
    }

    /// Delivers the oldest message in flight. Tells whether there was one.
    fn deliver_one(&mut self) -> bool {
        match self.in_flight.pop_front() {
            None => false,
            Some((from, to, message)) => {
                self.nodes[to as usize].handle_message(&from, message).unwrap();
                self.dispatch();
                true
            }
        }
    }

    /// Delivers messages until every node has output `batches` batches.
    fn run_until_output(&mut self, batches: usize) {
        let mut steps = 0;
        while self.outputs.iter().any(|output| output.len() < batches) {
            assert!(self.deliver_one(), "the network went quiet");
            steps += 1;
            assert!(steps < 10_000, "the network did not get there");
        }
    }
}

fn two_each(id: u64) -> Vec<Vec<u8>> {
    vec![format!("t{}1", id).into_bytes(), format!("t{}2", id).into_bytes()]
}

#[test]
fn trivial_single_node() {
    let mut engine = single_node(4, vec![bytes("a"), bytes("b"), bytes("c")]);
    assert_eq!(engine.epoch(), 0);
    assert!(engine.next_output().is_none());
    loop_back(&mut engine);
    let batch = engine.next_output().unwrap();
    assert_eq!(batch.epoch, 0);
    assert_eq!(batch.transactions.as_vec(), &vec![bytes("a"), bytes("b"), bytes("c")]);
    assert!(engine.buffer().is_empty());
    assert_eq!(engine.epoch(), 1);
    assert!(engine.next_output().is_none());
}

#[test]
fn four_nodes_no_faults() {
    let mut network = Network::new(4, 8, &two_each);
    network.run_until_output(1);
    let expected: Vec<Vec<u8>> = vec![
        bytes("t01"),
        bytes("t02"),
        bytes("t11"),
        bytes("t12"),
        bytes("t21"),
        bytes("t22"),
        bytes("t31"),
        bytes("t32"),
    ];
    for output in &network.outputs {
        assert_eq!(output[0].epoch, 0);
        assert_eq!(output[0].transactions.len(), 8);
        assert_eq!(output[0].transactions.as_vec(), &expected);
        assert_eq!(output[0], network.outputs[0][0]);
    }
}

#[test]
fn unknown_sender() {
    let mut engine = Engine::new(1, vec![1, 2, 3], 4, vec![bytes("a")]).unwrap();
    let queued = drain_messages(&mut engine);
    assert_eq!(queued.len(), 1);
    let ghost: u64 = 99;
    let result = engine.handle_message(&ghost, Message::CommonSubset(0, encode(&[bytes("x")])));
    assert!(matches!(result, Err(Error::UnknownSender)));
    assert!(engine.next_message().is_none());
    assert!(engine.next_output().is_none());
    assert_eq!(engine.epoch(), 0);
    assert_eq!(engine.buffer(), &vec![bytes("a")]);
    assert!(engine.has_instance(0));
    assert!(!engine.has_instance(1));
}

#[test]
fn unknown_sender_does_not_reach_the_common_subset() {
    let mut engine = Engine::new(1, vec![1, 2], 4, vec![bytes("a")]).unwrap();
    let result = engine.handle_message(&7, Message::CommonSubset(0, refused_message()));
    assert!(matches!(result, Err(Error::UnknownSender)));
    let result = engine.handle_message(&7, Message::CommonSubset(3, encode(&[])));
    assert!(matches!(result, Err(Error::UnknownSender)));
    assert!(!engine.has_instance(3));
    engine.handle_message(&2, Message::CommonSubset(0, encode(&[bytes("b")]))).unwrap();
    let batch = engine.next_output().unwrap();
    assert_eq!(batch.transactions.as_vec(), &vec![bytes("a"), bytes("b")]);
}

#[test]
fn stale_epoch_drop() {
    let mut engine = single_node(4, vec![bytes("a")]);
    for _ in 0..5 {
        loop_back(&mut engine);
    }
    assert_eq!(engine.epoch(), 5);
    assert_eq!(drain_outputs(&mut engine).len(), 5);
    let queued = drain_messages(&mut engine);
    assert_eq!(queued.len(), 1);
    assert!(!engine.has_instance(2));
    engine.handle_message(&0, Message::CommonSubset(2, encode(&[bytes("late")]))).unwrap();
    assert!(!engine.has_instance(2));
    assert!(engine.next_message().is_none());
    assert!(engine.next_output().is_none());
    assert_eq!(engine.epoch(), 5);
    assert!(engine.buffer().is_empty());
}

#[test]
fn stale_message_that_the_common_subset_would_refuse_is_dropped() {
    let mut engine = single_node(4, Vec::new());
    loop_back(&mut engine);
    assert_eq!(engine.epoch(), 1);
    engine.handle_message(&0, Message::CommonSubset(0, refused_message())).unwrap();
    assert_eq!(engine.epoch(), 1);
}

#[test]
fn out_of_order_arrival() {
    let ids: Vec<u64> = vec![0, 1, 2, 3];
    let mut node = Engine::new(0, ids.clone(), 8, two_each(0)).unwrap();
    let first = drain_messages(&mut node);
    assert_eq!(first.len(), 1);
    assert_eq!(epoch_of(&first[0].message), 0);
    // The messages of epoch 1 arrive before those of epoch 0.
    for from in 1..4u64 {
        let later = encode(&[format!("later{}", from).into_bytes()]);
        node.handle_message(&from, Message::CommonSubset(1, later)).unwrap();
        assert!(node.next_output().is_none());
        assert_eq!(node.epoch(), 0);
        assert!(node.has_instance(1));
    }
    assert!(node.next_message().is_none());
    // Epoch 0 completes.
    for from in 1..4u64 {
        assert!(node.next_output().is_none());
        node.handle_message(&from, Message::CommonSubset(0, encode(&two_each(from)))).unwrap();
    }
    let batch = node.next_output().unwrap();
    assert_eq!(batch.epoch, 0);
    assert_eq!(batch.transactions.len(), 8);
    assert!(node.next_output().is_none());
    assert_eq!(node.epoch(), 1);
    // The proposal of epoch 1 went to the instance that was waiting.
    let second = drain_messages(&mut node);
    assert_eq!(second.len(), 1);
    assert_eq!(epoch_of(&second[0].message), 1);
    node.handle_message(&1, Message::CommonSubset(1, encode(&[bytes("again")]))).unwrap();
    let batch = node.next_output().unwrap();
    assert_eq!(batch.epoch, 1);
    assert_eq!(
        batch.transactions.as_vec(),
        &vec![bytes("later1"), bytes("later2"), bytes("later3")]
    );
    assert_eq!(node.epoch(), 2);
}

#[test]
fn buffer_pruning() {
    let shared = bytes("t");
    let mut network = Network::new(4, 4, &|_| vec![bytes("t")]);
    network.run_until_output(1);
    for (id, output) in network.outputs.iter().enumerate() {
        assert!(output[0].transactions.contains(&shared));
        assert!(!network.nodes[id].buffer().contains(&shared));
    }
    // No node proposes it again.
    for node in network.nodes.iter_mut() {
        node.input(bytes("u")).unwrap();
    }
    for (_, _, message) in &network.in_flight {
        if epoch_of(message) > 0 {
            assert!(!proposal_of(message).contains(&shared));
        }
    }
    network.run_until_output(4);
    for output in &network.outputs {
        for batch in &output[1..] {
            assert!(!batch.transactions.contains(&shared));
        }
    }
}

#[test]
fn delivered_transactions_leave_the_buffer_and_others_stay() {
    let mut engine = Engine::new(0, vec![0, 1], 2, vec![bytes("a"), bytes("b"), bytes("c")])
        .unwrap();
    // This node proposes one of "a" and "b"; the other node proposes "c" and "x".
    engine
        .handle_message(&1, Message::CommonSubset(0, encode(&[bytes("c"), bytes("x")])))
        .unwrap();
    let batch = engine.next_output().unwrap();
    assert_eq!(batch.transactions.len(), 3);
    for tx in batch.transactions.as_vec() {
        assert!(!engine.buffer().contains(tx));
    }
    assert_eq!(engine.buffer().len(), 1);
    let left = engine.buffer()[0].clone();
    assert!(left == bytes("a") || left == bytes("b"));
    assert!(!batch.transactions.contains(&left));
}

#[test]
fn own_id_missing() {
    let result = Engine::new(5, vec![1, 2, 3], 4, vec![bytes("a")]);
    assert!(matches!(result, Err(Error::OwnIdMissing)));
    let result = Engine::new(0, Vec::new(), 4, Vec::new());
    assert!(matches!(result, Err(Error::OwnIdMissing)));
    assert!(Engine::new(3, vec![1, 2, 3], 4, vec![bytes("a")]).is_ok());
}

#[test]
fn new_engine_has_proposed_in_epoch_zero() {
    let mut engine = Engine::new(2, vec![1, 2, 3], 3, vec![bytes("a"), bytes("b")]).unwrap();
    assert_eq!(engine.epoch(), 0);
    assert_eq!(*engine.our_id(), 2);
    assert!(!engine.terminated());
    assert!(engine.has_instance(0));
    assert_eq!(engine.buffer(), &vec![bytes("a"), bytes("b")]);
    let queued = drain_messages(&mut engine);
    assert_eq!(queued.len(), 1);
    assert_eq!(queued[0].target, Target::All);
    assert_eq!(epoch_of(&queued[0].message), 0);
    let proposal = proposal_of(&queued[0].message);
    assert_eq!(proposal.len(), 1);
    assert!(proposal[0] == bytes("a") || proposal[0] == bytes("b"));
    assert!(engine.next_output().is_none());
}

#[test]
fn proposal_is_the_encoding_of_the_sample() {
    let mut engine = single_node(4, vec![bytes("a"), bytes("bc")]);
    let queued = drain_messages(&mut engine);
    assert_eq!(
        queued,
        vec![TargetedMessage {
            target: Target::All,
            message: Message::CommonSubset(
                0,
                vec![
                    2, 0, 0, 0, 0, 0, 0, 0, // two transactions
                    1, 0, 0, 0, 0, 0, 0, 0, 97, // "a"
                    2, 0, 0, 0, 0, 0, 0, 0, 98, 99, // "bc"
                ],
            ),
        }]
    );
}

#[test]
fn proposal_of_an_empty_buffer_is_empty() {
    let mut engine = single_node(4, Vec::new());
    let queued = drain_messages(&mut engine);
    assert_eq!(queued.len(), 1);
    assert_eq!(queued[0].message, Message::CommonSubset(0, vec![0, 0, 0, 0, 0, 0, 0, 0]));
}

#[test]
fn participants_are_counted_once() {
    let txs = vec![bytes("a"), bytes("b"), bytes("c"), bytes("d")];
    let mut engine = Engine::new(0, vec![0, 1, 0, 1, 1], 4, txs).unwrap();
    let queued = drain_messages(&mut engine);
    assert_eq!(proposal_of(&queued[0].message).len(), 2);
    engine.handle_message(&1, Message::CommonSubset(0, encode(&[]))).unwrap();
    assert_eq!(engine.next_output().unwrap().transactions.len(), 2);
}

#[test]
fn epochs_increase_by_one() {
    let mut network = Network::new(4, 8, &two_each);
    network.run_until_output(6);
    for output in &network.outputs {
        for (index, batch) in output.iter().enumerate() {
            assert_eq!(batch.epoch, index as u64);
        }
    }
}

#[test]
fn batches_come_out_oldest_first() {
    let mut engine = single_node(1, vec![bytes("a"), bytes("b"), bytes("c")]);
    for _ in 0..3 {
        loop_back(&mut engine);
    }
    assert_eq!(engine.epoch(), 3);
    for epoch in 0..3u64 {
        let batch = engine.next_output().unwrap();
        assert_eq!(batch.epoch, epoch);
        assert_eq!(batch.transactions.len(), 1);
    }
    assert!(engine.next_output().is_none());
    assert!(engine.buffer().is_empty());
}

#[test]
fn all_nodes_agree_on_every_batch() {
    let mut network = Network::new(4, 4, &|id| {
        (0..6).map(|k| format!("n{}-{}", id, k).into_bytes()).collect()
    });
    network.run_until_output(3);
    for node in network.nodes.iter_mut() {
        node.add_transactions(vec![bytes("everywhere"), bytes("again")]).unwrap();
    }
    network.run_until_output(8);
    for output in &network.outputs {
        for epoch in 0..8 {
            assert_eq!(output[epoch], network.outputs[0][epoch]);
        }
    }
}

#[test]
fn terminated_instances_are_removed() {
    let mut network = Network::new(4, 8, &two_each);
    network.run_until_output(3);
    for node in &network.nodes {
        let epoch = node.epoch();
        assert!(epoch >= 3);
        for past in 0..epoch {
            assert!(!node.has_instance(past));
        }
        assert!(node.has_instance(epoch));
    }
}

#[test]
fn message_of_a_later_epoch_makes_its_instance_and_no_batch() {
    let mut engine = Engine::new(0, vec![0, 1], 4, vec![bytes("a")]).unwrap();
    drain_messages(&mut engine);
    engine.handle_message(&1, Message::CommonSubset(7, encode(&[bytes("z")]))).unwrap();
    assert!(engine.has_instance(7));
    assert!(engine.has_instance(0));
    assert_eq!(engine.epoch(), 0);
    assert!(engine.next_output().is_none());
    assert!(engine.next_message().is_none());
    assert_eq!(engine.buffer(), &vec![bytes("a")]);
}

#[test]
fn common_subset_error_is_handed_on() {
    let mut engine = Engine::new(0, vec![0, 1], 4, vec![bytes("a")]).unwrap();
    let result = engine.handle_message(&1, Message::CommonSubset(0, refused_message()));
    match result {
        Err(Error::CommonSubset(reason)) => assert_eq!(reason, "refused"),
        other => panic!("unexpected result: {:?}", other),
    }
    assert_eq!(engine.epoch(), 0);
    assert!(engine.next_output().is_none());
    // The engine goes on.
    engine.handle_message(&1, Message::CommonSubset(0, encode(&[bytes("b")]))).unwrap();
    assert_eq!(engine.next_output().unwrap().epoch, 0);
}

#[test]
fn undecodable_proposal_is_an_error_and_delivers_nothing() {
    let mut engine = Engine::new(0, vec![0, 1], 4, vec![bytes("a")]).unwrap();
    let result = engine.handle_message(&1, Message::CommonSubset(0, vec![1, 2, 3]));
    assert!(matches!(result, Err(Error::Bincode(_))));
    assert_eq!(engine.epoch(), 0);
    assert!(engine.next_output().is_none());
    assert_eq!(engine.buffer(), &vec![bytes("a")]);
}

#[test]
fn input_appends_to_the_buffer() {
    let mut engine = Engine::new(0, vec![0, 1], 4, vec![bytes("a")]).unwrap();
    engine.input(bytes("b")).unwrap();
    engine.input(bytes("a")).unwrap();
    engine.add_transactions(vec![bytes("c"), bytes("d")]).unwrap();
    engine.add_transactions(Vec::new()).unwrap();
    assert_eq!(
        engine.buffer(),
        &vec![bytes("a"), bytes("b"), bytes("a"), bytes("c"), bytes("d")]
    );
    assert_eq!(engine.epoch(), 0);
}

#[test]
fn messages_come_out_in_the_order_queued() {
    let mut engine = single_node(1, vec![bytes("a"), bytes("b")]);
    let first = engine.next_message().unwrap();
    assert_eq!(first.message, Message::CommonSubset(0, encode(&[bytes("a")])));
    assert!(engine.next_message().is_none());
    engine.handle_message(&0, first.message.clone()).unwrap();
    engine.handle_message(&0, Message::CommonSubset(3, encode(&[]))).unwrap();
    let second = engine.next_message().unwrap();
    assert_eq!(second.message, Message::CommonSubset(1, encode(&[bytes("b")])));
    assert_eq!(second.target, Target::All);
    assert!(engine.next_message().is_none());
}

#[test]
fn input_after_delivery_is_proposed_again() {
    let mut engine = single_node(4, vec![bytes("a")]);
    loop_back(&mut engine);
    assert_eq!(engine.next_output().unwrap().transactions.as_vec(), &vec![bytes("a")]);
    engine.input(bytes("a")).unwrap();
    assert_eq!(engine.buffer(), &vec![bytes("a")]);
    loop_back(&mut engine);
    assert!(engine.next_output().unwrap().transactions.is_empty());
    loop_back(&mut engine);
    let batch = engine.next_output().unwrap();
    assert_eq!(batch.epoch, 2);
    assert_eq!(batch.transactions.as_vec(), &vec![bytes("a")]);
    assert!(engine.buffer().is_empty());
}

#[test]
fn encoding_error_becomes_an_engine_error() {
    let failure = bincode::deserialize::<Vec<Vec<u8>>>(&[1, 2, 3]).unwrap_err();
    let error: Error<String> = Error::from(failure);
    assert!(matches!(error, Error::Bincode(_)));
}
