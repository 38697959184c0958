use hwgc_soft::simulate::memory::DimmId;
use hwgc_soft::simulate::network::{NMPMessage, Network};
use hwgc_soft::simulate::topology::{LineTopology, Topology};

fn make_msg(recipient: usize) -> NMPMessage {
    NMPMessage::new_mark(recipient, 0x1000)
}

#[test]
fn test_network_single_hop_delivery() {
    let topo = LineTopology::new();
    let mut net = Network::new(&topo);
    let route = topo.get_route(DimmId(0), DimmId(2));
    assert_eq!(route.len(), 1);
    net.inject(make_msg(2), route);
    assert!(!net.is_empty());
    let hop = topo.get_per_hop_latency();
    for tick in 0..hop {
        let delivered = net.tick();
        if tick < hop - 1 {
            assert!(delivered.is_empty(), "should not deliver before hop latency");
        } else {
            assert_eq!(delivered.len(), 1);
            assert_eq!(delivered[0].recipient, 2);
        }
    }
    assert!(net.is_empty());
}

#[test]
fn test_network_multi_hop_delivery() {
    let topo = LineTopology::new();
    let mut net = Network::new(&topo);
    let route = topo.get_route(DimmId(0), DimmId(3));
    assert_eq!(route.len(), 3);
    net.inject(make_msg(3), route);
    let hop = topo.get_per_hop_latency();
    let total_ticks = 3 * hop;
    let mut delivered_count = 0;
    for _ in 0..total_ticks {
        let delivered = net.tick();
        delivered_count += delivered.len();
    }
    assert_eq!(delivered_count, 1);
    assert!(net.is_empty());
}

#[test]
fn test_network_link_stats() {
    let topo = LineTopology::new();
    let mut net = Network::new(&topo);
    let route = topo.get_route(DimmId(0), DimmId(3));
    net.inject(make_msg(3), route);
    let hop = topo.get_per_hop_latency();
    for _ in 0..(3 * hop) {
        net.tick();
    }
    let stats = net.bandwidth_stats();
    let fwd_02 = stats.iter().find(|s| s.from_dimm == 0 && s.to_dimm == 2).unwrap();
    assert_eq!(fwd_02.messages_forwarded, 1);
    let fwd_21 = stats.iter().find(|s| s.from_dimm == 2 && s.to_dimm == 1).unwrap();
    assert_eq!(fwd_21.messages_forwarded, 1);
    let fwd_13 = stats.iter().find(|s| s.from_dimm == 1 && s.to_dimm == 3).unwrap();
    assert_eq!(fwd_13.messages_forwarded, 1);
    let fwd_20 = stats.iter().find(|s| s.from_dimm == 2 && s.to_dimm == 0).unwrap();
    assert_eq!(fwd_20.messages_forwarded, 0);
}

#[test]
fn test_network_peak_bandwidth() {
    let topo = LineTopology::new();
    let mut net = Network::new(&topo);
    for _ in 0..3 {
        let route = topo.get_route(DimmId(0), DimmId(2));
        net.inject(make_msg(2), route);
    }
    let hop = topo.get_per_hop_latency();
    for _ in 0..hop {
        net.tick();
    }
    let stats = net.bandwidth_stats();
    let link = stats.iter().find(|s| s.from_dimm == 0 && s.to_dimm == 2).unwrap();
    assert_eq!(link.messages_forwarded, 3);
    assert_eq!(link.peak_messages_per_tick, 3);
}

#[test]
fn test_network_empty_tick() {
    let topo = LineTopology::new();
    let mut net = Network::new(&topo);
    assert!(net.is_empty());
    let delivered = net.tick();
    assert!(delivered.is_empty());
    assert!(net.is_empty());
}

#[test]
fn test_network_concurrent_overlapping_traffic() {
    let topo = LineTopology::new();
    let mut net = Network::new(&topo);
    let route_a = topo.get_route(DimmId(0), DimmId(3));
    let route_b = topo.get_route(DimmId(3), DimmId(0));
    net.inject(make_msg(3), route_a);
    net.inject(make_msg(0), route_b);
    let hop = topo.get_per_hop_latency();
    let mut delivered = Vec::new();
    for _ in 0..(3 * hop) {
        delivered.extend(net.tick());
    }
    assert_eq!(delivered.len(), 2);
    assert!(net.is_empty());
    let stats = net.bandwidth_stats();
    let link_21 = stats.iter().find(|s| s.from_dimm == 2 && s.to_dimm == 1).unwrap();
    assert_eq!(link_21.messages_forwarded, 1);
    let link_12 = stats.iter().find(|s| s.from_dimm == 1 && s.to_dimm == 2).unwrap();
    assert_eq!(link_12.messages_forwarded, 1);
}

#[test]
fn network_stats_sorted_by_link() {
    let topo = LineTopology::new();
    let net = Network::new(&topo);
    let stats = net.bandwidth_stats();
    assert_eq!(stats.len(), 6);
    for w in stats.windows(2) {
        assert!((w[0].from_dimm, w[0].to_dimm) <= (w[1].from_dimm, w[1].to_dimm));
    }
}
