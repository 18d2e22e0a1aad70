use bionet_rs::CoexpressionNetwork;
use bionet_rs::Edge;
use bionet_rs::FilteredMatrix;
use bionet_rs::Graph;
use bionet_rs::NetworkError;

#[test]
fn single_pair_matrix_gives_three_nodes_one_edge() {
    // Three genes A, B, C with only the (0, 1) / (1, 0) entries nonzero:
    // three nodes and exactly one edge, between A and B, weight 0.9.
    let filtered = FilteredMatrix {
        cells: vec![vec![0, 900_000, 0], vec![900_000, 0, 0], vec![0, 0, 0]],
    };
    let mut network = CoexpressionNetwork::new();
    let labels = vec!["A".to_string(), "B".to_string(), "C".to_string()];
    network.create_graph(filtered, labels).unwrap();
    assert_eq!(network.network.labels, vec!["A", "B", "C"]);
    assert_eq!(network.network.edges.len(), 1);
    let e = network.network.edges[0];
    assert_eq!((e.a, e.b, e.weight), (1, 0, 900_000));
    assert_eq!(network.network.labels[e.a], "B");
    assert_eq!(network.network.labels[e.b], "A");
}

#[test]
fn mismatched_labels_are_rejected() {
    let filtered = FilteredMatrix { cells: vec![vec![0, 0], vec![0, 0]] };
    let mut network = CoexpressionNetwork::new();
    let labels = vec!["A".to_string()];
    assert!(matches!(
        network.create_graph(filtered, labels),
        Err(NetworkError::DimensionMismatch)
    ));
}

#[test]
fn duplicate_labels_are_rejected() {
    let filtered = FilteredMatrix { cells: vec![vec![0, 0], vec![0, 0]] };
    let mut network = CoexpressionNetwork::new();
    let labels = vec!["A".to_string(), "A".to_string()];
    assert!(matches!(
        network.create_graph(filtered, labels),
        Err(NetworkError::DuplicateLabel)
    ));
    assert_eq!(network.network.labels.len(), 0);
}

#[test]
fn two_triangles_and_an_isolated_node_give_two_communities() {
    // Two disjoint fully interconnected 3-node groups plus one isolated
    // node: exactly two communities of size 3, and the isolated node in
    // neither.
    let labels: Vec<String> = (0..7).map(|i| format!("g{}", i)).collect();
    let triangle = |a: usize, b: usize, c: usize| {
        vec![
            Edge { a: b, b: a, weight: 900_000 },
            Edge { a: c, b: a, weight: 900_000 },
            Edge { a: c, b, weight: 900_000 },
        ]
    };
    let mut edges = triangle(0, 1, 2);
    edges.extend(triangle(3, 4, 5));
    let mut network = CoexpressionNetwork { network: Graph { labels, edges }, communities: None };
    network.find_communities();
    let comms = network.communities.clone().unwrap();
    assert_eq!(comms.len(), 2);
    let mut first = comms[0].clone();
    let mut second = comms[1].clone();
    first.sort();
    second.sort();
    assert_eq!(first, vec![0, 1, 2]);
    assert_eq!(second, vec![3, 4, 5]);
    for c in &comms {
        assert!(!c.contains(&6));
    }
}

#[test]
fn connected_pair_is_reported_as_a_community() {
    // The size threshold is "more than one node", so a connected pair is
    // itself a community.
    let labels = vec!["A".to_string(), "B".to_string(), "C".to_string()];
    let edges = vec![Edge { a: 1, b: 0, weight: -950_000 }];
    let mut network = CoexpressionNetwork { network: Graph { labels, edges }, communities: None };
    network.find_communities();
    let comms = network.communities.clone().unwrap();
    assert_eq!(comms.len(), 1);
    let mut members = comms[0].clone();
    members.sort();
    assert_eq!(members, vec![0, 1]);
}

#[test]
fn empty_graph_has_no_communities() {
    let mut network = CoexpressionNetwork::new();
    network.find_communities();
    assert_eq!(network.communities.clone().unwrap().len(), 0);
}

#[test]
fn community_labels_expose_gene_names() {
    let labels = vec!["tp53".to_string(), "brca1".to_string(), "egfr".to_string()];
    let edges = vec![Edge { a: 2, b: 0, weight: 810_000 }];
    let mut network = CoexpressionNetwork { network: Graph { labels, edges }, communities: None };
    network.find_communities();
    let named = network.community_labels();
    assert_eq!(named.len(), 1);
    let mut names = named[0].clone();
    names.sort();
    assert_eq!(names, vec!["egfr".to_string(), "tp53".to_string()]);
}
