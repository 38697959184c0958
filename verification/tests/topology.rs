use hwgc_soft::simulate::memory::DimmId;
use hwgc_soft::simulate::topology::{FullyConnectedTopology, LineTopology, RingTopology, Topology};

#[test]
fn test_line_topology_route_adjacent() {
    let topology = LineTopology::new();
    let route = topology.get_route(DimmId(0), DimmId(2));
    assert_eq!(route, vec![(DimmId(0), DimmId(2))]);
}

#[test]
fn test_line_topology_route_two_hops() {
    let topology = LineTopology::new();
    let route = topology.get_route(DimmId(0), DimmId(1));
    assert_eq!(route, vec![(DimmId(0), DimmId(2)), (DimmId(2), DimmId(1))]);
}

#[test]
fn test_line_topology_route_three_hops() {
    let topology = LineTopology::new();
    let route = topology.get_route(DimmId(0), DimmId(3));
    assert_eq!(
        route,
        vec![(DimmId(0), DimmId(2)), (DimmId(2), DimmId(1)), (DimmId(1), DimmId(3))]
    );
}

#[test]
fn test_line_topology_route_reverse() {
    let topology = LineTopology::new();
    let route = topology.get_route(DimmId(3), DimmId(0));
    assert_eq!(
        route,
        vec![(DimmId(3), DimmId(1)), (DimmId(1), DimmId(2)), (DimmId(2), DimmId(0))]
    );
}

#[test]
fn test_line_topology_links() {
    let topology = LineTopology::new();
    let mut links = topology.get_links();
    links.sort();
    assert_eq!(
        links,
        vec![(DimmId(0), DimmId(2)), (DimmId(1), DimmId(2)), (DimmId(1), DimmId(3))]
    );
}

#[test]
fn test_ring_topology_links() {
    let topology = RingTopology::new();
    let mut links = topology.get_links();
    links.sort();
    assert_eq!(
        links,
        vec![
            (DimmId(0), DimmId(2)),
            (DimmId(0), DimmId(3)),
            (DimmId(1), DimmId(2)),
            (DimmId(1), DimmId(3))
        ]
    );
}

#[test]
fn test_ring_topology_route_adjacent() {
    let topology = RingTopology::new();
    let route = topology.get_route(DimmId(0), DimmId(2));
    assert_eq!(route, vec![(DimmId(0), DimmId(2))]);
}

#[test]
fn test_ring_topology_route_opposite() {
    let topology = RingTopology::new();
    let route = topology.get_route(DimmId(0), DimmId(1));
    assert_eq!(route.len(), 2);
    assert_eq!(route, vec![(DimmId(0), DimmId(2)), (DimmId(2), DimmId(1))]);
}

#[test]
fn test_ring_topology_shortest_path() {
    let topology = RingTopology::new();
    let route = topology.get_route(DimmId(0), DimmId(3));
    assert_eq!(route, vec![(DimmId(0), DimmId(3))]);
}

#[test]
fn test_ring_topology_shortest_path_reverse() {
    let topology = RingTopology::new();
    let route = topology.get_route(DimmId(3), DimmId(0));
    assert_eq!(route, vec![(DimmId(3), DimmId(0))]);
}

#[test]
fn test_ring_topology_max_hops_is_two() {
    let topology = RingTopology::new();
    for from in 0u8..4 {
        for to in 0u8..4 {
            if from == to {
                continue;
            }
            let route = topology.get_route(DimmId(from), DimmId(to));
            assert!(
                route.len() <= 2,
                "Route {} -> {} has {} hops, expected <= 2",
                from,
                to,
                route.len()
            );
        }
    }
}

#[test]
fn test_ring_topology_route_symmetry() {
    let topology = RingTopology::new();
    for from in 0u8..4 {
        for to in 0u8..4 {
            if from == to {
                continue;
            }
            let fwd = topology.get_route(DimmId(from), DimmId(to));
            let rev = topology.get_route(DimmId(to), DimmId(from));
            assert_eq!(
                fwd.len(),
                rev.len(),
                "Asymmetric route lengths for {} <-> {}: {} vs {}",
                from,
                to,
                fwd.len(),
                rev.len()
            );
        }
    }
}

#[test]
fn test_fc_topology_links() {
    let topology = FullyConnectedTopology::new(4);
    let mut links = topology.get_links();
    links.sort();
    assert_eq!(
        links,
        vec![
            (DimmId(0), DimmId(1)),
            (DimmId(0), DimmId(2)),
            (DimmId(0), DimmId(3)),
            (DimmId(1), DimmId(2)),
            (DimmId(1), DimmId(3)),
            (DimmId(2), DimmId(3))
        ]
    );
}

#[test]
fn test_fc_topology_route() {
    let topology = FullyConnectedTopology::new(4);
    for from in 0u8..4 {
        for to in 0u8..4 {
            if from == to {
                continue;
            }
            let route = topology.get_route(DimmId(from), DimmId(to));
            assert_eq!(route, vec![(DimmId(from), DimmId(to))]);
        }
    }
}

#[test]
fn topology_per_hop_latency_is_shared() {
    assert_eq!(LineTopology::new().get_per_hop_latency(), RingTopology::new().get_per_hop_latency());
    assert_eq!(FullyConnectedTopology::new(8).get_num_dimms(), 8);
    assert_eq!(LineTopology::new().get_num_dimms(), 4);
}
