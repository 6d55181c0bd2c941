//! Scenario tests for the network simulator, driven through its public
//! operations with fixed seeds.

use netsim::Network;
use netsim::RandomSource;
use netsim::ReplicaId;
use netsim::StdRandomSource;

fn fresh(seed: u64) -> Network<u64, StdRandomSource> {
    Network::new(StdRandomSource::from_seed(seed))
}

/// Drains `id` until nothing is pending, concatenating the batches.
fn drain(net: &mut Network<u64, StdRandomSource>, id: ReplicaId) -> Vec<u64> {
    let mut all = Vec::new();
    let mut guard = 0;
    while net.has_unreceived(id) {
        all.extend(net.receive(id));
        guard += 1;
        assert!(guard < 10_000, "drain did not terminate");
    }
    all
}

#[test]
fn register_and_idle() {
    let mut net = fresh(1);
    net.add_peer(1);
    net.add_peer(2);
    net.add_peer(3);
    assert!(net.is_idle());
    assert!(!net.has_unreceived(1));
    assert!(!net.has_unreceived(2));
    assert!(!net.has_unreceived(3));
    assert!(net.all_messages().is_empty());
}

#[test]
fn broadcast_reaches_every_other_replica() {
    for seed in 0..20 {
        let mut net = fresh(seed);
        net.add_peer(1);
        net.add_peer(2);
        net.add_peer(3);
        net.broadcast(1, vec![10]);
        assert!(!net.has_unreceived(1), "no self-delivery");
        assert!(net.has_unreceived(2));
        assert!(net.has_unreceived(3));
        assert!(!net.is_idle());
    }
}

#[test]
fn duplication_between_one_and_three_copies() {
    for seed in 0..50 {
        let mut net = fresh(seed);
        net.add_peer(1);
        net.add_peer(2);
        net.broadcast(1, vec![10, 20]);
        let got = drain(&mut net, 2);
        let tens = got.iter().filter(|m| **m == 10).count();
        let twenties = got.iter().filter(|m| **m == 20).count();
        assert!((1..=3).contains(&tens), "copies of 10: {}", tens);
        assert!((1..=3).contains(&twenties), "copies of 20: {}", twenties);
        assert_eq!(tens + twenties, got.len(), "nothing else was delivered");
        assert!(net.is_idle());
    }
}

#[test]
fn sender_order_is_preserved() {
    for seed in 0..50 {
        let mut net = fresh(seed);
        net.add_peer(1);
        net.add_peer(2);
        net.broadcast(1, vec![10, 20]);
        net.broadcast(1, vec![30]);
        let got = drain(&mut net, 2);
        // All copies of an earlier message precede every copy of a later
        // one, because only replica 1 ever broadcast.
        let positions = |m: u64| -> Vec<usize> {
            got.iter().enumerate().filter(|(_, v)| **v == m).map(|(i, _)| i).collect()
        };
        let tens = positions(10);
        let twenties = positions(20);
        let thirties = positions(30);
        assert!(!tens.is_empty() && !twenties.is_empty() && !thirties.is_empty());
        assert!(tens.iter().max() < twenties.iter().min());
        assert!(twenties.iter().max() < thirties.iter().min());
    }
}

#[test]
fn no_self_delivery_when_only_self_broadcasts() {
    let mut net = fresh(11);
    net.add_peer(1);
    net.add_peer(2);
    for _ in 0..10 {
        net.broadcast(1, vec![7, 8]);
    }
    assert!(!net.has_unreceived(1));
    assert!(net.receive(1).is_empty());
}

#[test]
fn receive_drains_a_prefix_and_keeps_the_rest() {
    for seed in 0..50 {
        let mut net = fresh(seed);
        net.add_peer(1);
        net.add_peer(2);
        net.broadcast(1, vec![10, 20, 30]);
        let whole = {
            // Same seed, same calls: the full drain this run will produce.
            let mut twin = fresh(seed);
            twin.add_peer(1);
            twin.add_peer(2);
            twin.broadcast(1, vec![10, 20, 30]);
            drain(&mut twin, 2)
        };
        let got = drain(&mut net, 2);
        assert_eq!(got, whole, "partial drains concatenate to the full inbox");
        assert!(net.is_idle());
        assert!(!net.has_unreceived(2), "drained inbox stays empty");
    }
}

#[test]
fn history_holds_every_broadcast_message_once() {
    let mut net = fresh(3);
    net.add_peer(1);
    net.add_peer(2);
    net.add_peer(3);
    net.broadcast(1, vec![10, 20]);
    net.broadcast(2, vec![30]);
    net.broadcast(1, vec![]);
    net.broadcast(3, vec![40, 50, 60]);
    assert_eq!(net.all_messages(), &vec![10, 20, 30, 40, 50, 60]);
    // Delivery and draining never touch the log.
    drain(&mut net, 1);
    drain(&mut net, 2);
    drain(&mut net, 3);
    assert_eq!(net.all_messages(), &vec![10, 20, 30, 40, 50, 60]);
}

#[test]
fn same_seed_same_run() {
    let run = |seed: u64| -> (Vec<u64>, Vec<u64>) {
        let mut net = fresh(seed);
        net.add_peer(1);
        net.add_peer(2);
        net.add_peer(3);
        net.broadcast(1, vec![10, 20]);
        net.broadcast(2, vec![30]);
        (drain(&mut net, 2), drain(&mut net, 3))
    };
    assert_eq!(run(42), run(42));
    assert_eq!(run(7), run(7));
}

#[test]
fn idle_reflects_pending_envelopes_exactly() {
    let mut net = fresh(9);
    net.add_peer(1);
    net.add_peer(2);
    assert!(net.is_idle());
    net.broadcast(1, vec![5]);
    assert!(!net.is_idle());
    drain(&mut net, 2);
    assert!(net.is_idle());
}

#[test]
fn gen_index_stays_in_range() {
    let mut source = StdRandomSource::from_seed(123);
    for lo in 0..5usize {
        for hi in lo..8usize {
            for _ in 0..20 {
                let r = source.gen_index(lo, hi);
                assert!((lo..=hi).contains(&r));
            }
        }
    }
    // A span this long is left by a constant generator with probability
    // about zero: catches a source that ignores its range.
    let mut seen = std::collections::BTreeSet::new();
    for _ in 0..200 {
        seen.insert(source.gen_index(0, 3));
    }
    assert_eq!(seen.len(), 4);
}
