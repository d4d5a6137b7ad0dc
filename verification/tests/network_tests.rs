use tower_sim::bank::NUM_NODES;
use tower_sim::banks::Banks;
use tower_sim::node::Node;

/// A driver: one block per slot, made by a leader that changes with the slot.
struct Network {
    banks: Banks,
    nodes: Vec<Node>,
    slot: u64,
    partitions: usize,
}

fn network() -> Network {
    Network {
        banks: Banks::default(),
        nodes: (0..NUM_NODES).map(Node::zero).collect(),
        slot: 0,
        partitions: 1,
    }
}

fn partition_of(net: &Network, id: usize) -> usize {
    id % net.partitions
}

fn step(net: &mut Network) {
    net.slot += 1;
    let leader = (net.slot as usize * 31 + 7) % NUM_NODES;
    let side = partition_of(net, leader);
    let mut peers = Vec::new();
    for n in &net.nodes {
        if partition_of(net, n.id) == side {
            peers.push((n.id, n.votes()));
        }
    }
    let block = net.nodes[leader].make_block(net.slot, peers);
    assert!(net.banks.admits(&block));
    net.banks.apply(&block);
    let partitions = net.partitions;
    for n in net.nodes.iter_mut() {
        if n.id % partitions == side {
            n.set_active_block(block.slot);
        }
        if n.can_attempt(&net.banks) {
            n.vote(&net.banks);
        }
    }
}

fn heal(net: &mut Network) {
    net.partitions = 1;
    let slots: Vec<u64> = net.banks.fork_map.keys().copied().collect();
    for n in net.nodes.iter_mut() {
        for s in &slots {
            n.set_active_block(*s);
        }
    }
}

#[test]
fn single_producer_progress() {
    let mut net = network();
    let mut lowest = 0;
    let mut roots = vec![0u64; NUM_NODES];
    for _ in 0..100 {
        step(&mut net);
        assert!(net.banks.lowest_root.slot >= lowest);
        lowest = net.banks.lowest_root.slot;
        for n in &net.nodes {
            assert!(n.tower.root.slot >= roots[n.id]);
            roots[n.id] = n.tower.root.slot;
        }
    }
    assert!(net.banks.lowest_root.slot > 0);
    for n in &net.nodes {
        assert!(n.tower.root.slot > 0);
    }
    // every slot was voted for as it came
    assert_eq!(net.banks.lowest_root.slot, 93);
    for n in &net.nodes {
        assert_eq!(n.tower.root.slot, 94);
        assert_eq!(n.heaviest_fork[0], 100);
    }
}

#[test]
fn partition_then_heal() {
    let mut net = network();
    for _ in 0..40 {
        step(&mut net);
    }
    let before = net.banks.lowest_root.slot;
    assert!(before > 0);
    let roots: Vec<u64> = net.nodes.iter().map(|n| n.tower.root.slot).collect();
    // two halves for a quarter of 128 slots
    net.partitions = 2;
    for _ in 0..32 {
        step(&mut net);
        for n in &net.nodes {
            assert!(n.tower.root.slot >= roots[n.id]);
            assert!(n.tower.root.slot - roots[n.id] <= 64);
        }
    }
    let during = net.banks.lowest_root.slot;
    assert!(during >= before);
    heal(&mut net);
    let mut healed = None;
    for extra in 1..=100 {
        step(&mut net);
        if net.banks.lowest_root.slot > during {
            healed = Some(extra);
            break;
        }
    }
    println!("lowest root before {} during {} after {:?}", before, during, healed);
    assert!(healed.is_some());
    assert!(net.banks.lowest_root.slot > before);
    // every node descends from the common lowest root
    let lowest = net.banks.lowest_root.slot;
    for _ in 0..20 {
        step(&mut net);
    }
    for n in &net.nodes {
        assert!(n.heaviest_fork.contains(&net.banks.lowest_root.slot));
        assert!(n.tower.root.slot >= lowest);
    }
}
