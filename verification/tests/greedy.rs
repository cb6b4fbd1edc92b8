use parsimon::cluster::ClusteringAlgo;
use parsimon::clustering::GreedyClustering;
use parsimon::network::types::{Flow, FlowChannel, FlowId, NodeId};
use parsimon::network::Network;
use parsimon::testing;
use parsimon::units::{Bytes, Nanosecs};
use std::collections::HashSet;

fn flow(id: usize, src: usize, dst: usize, size: u64) -> Flow {
    Flow {
        id: FlowId::new(id),
        src: NodeId::new(src),
        dst: NodeId::new(dst),
        size: Bytes::new(size),
        start: Nanosecs::new(id as u64),
    }
}

#[test]
fn greedy_clustering_parts_the_channels() {
    let (nodes, links) = testing::eight_node_config();
    let network = Network::new(&nodes, &links).unwrap();
    let flows = vec![flow(0, 0, 1, 100), flow(1, 1, 0, 100), flow(2, 2, 3, 7)];
    let mut sims = network.into_simulations(flows);
    // Channels are alike if they carry the same number of bytes.
    let feature = |_: &FlowChannel, flows: &[Flow]| flows.iter().map(|f| f.size.into_u64()).sum::<u64>();
    let close = |a: &u64, b: &u64| a == b;
    let clusters = GreedyClustering::new(feature, close).cluster(&sims);
    // 0->4, 4->1, 1->4, 4->0 carry 100 bytes, 2->5 and 5->3 carry 7, and
    // the other ten channels nothing.
    let mut sizes: Vec<usize> = clusters.iter().map(|c| c.members().len()).collect();
    sizes.sort();
    assert_eq!(sizes, vec![2, 4, 10]);
    let mut seen = HashSet::new();
    for c in clusters.iter() {
        assert!(c.contains(&c.representative()));
        // The representative is the first channel of its cluster.
        assert_eq!(c.members().into_iter().min(), Some(c.representative()));
        for m in c.members() {
            assert!(seen.insert(m), "channel {m} is in two clusters");
        }
    }
    assert_eq!(seen, (0..16).collect::<HashSet<_>>());
    let reps: Vec<usize> = clusters.iter().map(|c| c.representative()).collect();
    let mut sorted = reps.clone();
    sorted.sort();
    assert_eq!(reps, sorted);
    sims.cluster(GreedyClustering::new(feature, close));
    assert_eq!(sims.nr_clusters(), 3);
}

#[test]
fn greedy_clustering_with_nothing_alike() {
    let (nodes, links) = testing::three_node_config();
    let network = Network::new(&nodes, &links).unwrap();
    let sims = network.into_simulations(Vec::new());
    let clusters =
        GreedyClustering::new(|c: &FlowChannel, _: &[Flow]| c.src, |_: &NodeId, _: &NodeId| false)
            .cluster(&sims);
    assert_eq!(clusters.len(), 4);
    for (i, c) in clusters.iter().enumerate() {
        assert_eq!(c.representative(), i);
        assert_eq!(c.members(), vec![i]);
    }
    let clusters =
        GreedyClustering::new(|c: &FlowChannel, _: &[Flow]| c.src, |_: &NodeId, _: &NodeId| true)
            .cluster(&sims);
    assert_eq!(clusters.len(), 1);
    assert_eq!(clusters[0].members().len(), 4);
}
