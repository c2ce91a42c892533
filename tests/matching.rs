use graphmat::belief_prop::{belief_prop, Mapping, PendingItem};
use graphmat::graph::Graph;
use graphmat::heuristics::{CallOrder, Combined, RelativeCodeSize};
use graphmat::object::{CodeMetadata, FunctionMetadata};
use iced_x86::Mnemonic;

fn diamond() -> CodeMetadata {
    let mut m = CodeMetadata::new();
    m.insert_function(0, FunctionMetadata::new(vec![Mnemonic::Call, Mnemonic::Call, Mnemonic::Ret]));
    m.insert_function(1, FunctionMetadata::new(vec![Mnemonic::Call, Mnemonic::Ret]));
    m.insert_function(2, FunctionMetadata::new(vec![Mnemonic::Mov, Mnemonic::Call, Mnemonic::Ret]));
    m.insert_function(3, FunctionMetadata::new(vec![Mnemonic::Ret]));
    m.add_call(0, 1);
    m.add_call(0, 2);
    m.add_call(1, 3);
    m.add_call(2, 3);
    m
}

fn run(seeds: &[(u64, u64)]) -> Vec<(u64, u64)> {
    let (a, b) = (diamond(), diamond());
    belief_prop(&a, &b, seeds, &Combined::new(RelativeCodeSize, CallOrder)).pairs().to_vec()
}

#[test]
fn test_identical_graphs_identity_matching() {
    assert_eq!(run(&[(0, 0)]), vec![(0, 0), (1, 1), (2, 2), (3, 3)]);
}

#[test]
fn test_duplicate_seeds_same_matching() {
    assert_eq!(run(&[(0, 0), (0, 0)]), run(&[(0, 0)]));
}

#[test]
fn test_seeds_always_committed() {
    let m = run(&[(1, 2)]);
    assert!(m.contains(&(1, 2)));
    assert_eq!(m, vec![(1, 2), (3, 3)]);
}

#[test]
fn test_no_seeds_empty_matching() {
    assert_eq!(run(&[]), Vec::<(u64, u64)>::new());
}

#[test]
fn test_deterministic_output() {
    let (a, b) = (diamond(), diamond());
    let h = Combined::new(RelativeCodeSize, CallOrder);
    let x = belief_prop(&a, &b, &[(0, 0)], &h).format(0x1000, 0x2000);
    let y = belief_prop(&a, &b, &[(0, 0)], &h).format(0x1000, 0x2000);
    assert_eq!(x, y);
}

#[test]
fn test_format_csv() {
    let (a, b) = (diamond(), diamond());
    let m = belief_prop(&a, &b, &[(0, 0)], &CallOrder);
    assert_eq!(m.format(0x1000, 0xAB0), "1000, AB0\n1001, AB1\n1002, AB2\n1003, AB3\n");
}

#[test]
fn test_mapping_insert_sorted() {
    let mut m = Mapping::new();
    m.insert((5, 1));
    m.insert((1, 9));
    m.insert((5, 0));
    m.insert((1, 9));
    assert_eq!(m.pairs(), &[(1, 9), (5, 0), (5, 1)]);
    assert!(m.has_first(5));
    assert!(!m.has_first(9));
    assert_eq!(m.format(0, 0x10), "1, 19\n5, 10\n5, 11\n");
}

#[test]
fn test_pending_item_new() {
    let p = PendingItem::new((1, 2), 3, vec![(4, 5)]);
    assert_eq!(p.pair, (1, 2));
    assert_eq!(p.dist, 3);
    assert_eq!(p.mappings, vec![(4, 5)]);
}

#[test]
fn test_graph_edges_keep_order() {
    let mut g = Graph::new();
    g.add_edge(1, 3);
    g.add_edge(1, 2);
    g.add_edge(1, 3);
    g.add_edge(4, 1);
    assert!(g.has_vertex(1));
    assert!(!g.has_vertex(3));
    assert_eq!(g.get_star(1).edges(), &[3, 2, 3]);
    assert_eq!(g.get_star(1).vertex(), 1);
    assert_eq!(g.get_star(7).edges(), &[] as &[u64]);
    assert_eq!(g.degree(1), 3);
    assert_eq!(g.max_degree(), 3);
}

#[test]
fn test_identity_matching_is_one_to_one() {
    let m = run(&[(0, 0)]);
    for (i, p) in m.iter().enumerate() {
        for q in &m[i + 1..] {
            assert_ne!(p.0, q.0);
            assert_ne!(p.1, q.1);
        }
    }
}

#[test]
fn test_conflicting_seeds_first_wins() {
    assert_eq!(run(&[(1, 2), (1, 3)]), vec![(1, 2), (3, 3)]);
}

#[test]
fn test_conflicting_right_address_dropped() {
    assert_eq!(run(&[(1, 2), (3, 2)]), vec![(1, 2), (3, 3)]);
}

#[test]
fn test_seed_order_decides_equal_distance_conflicts() {
    assert_eq!(run(&[(1, 1), (1, 2)]), vec![(1, 1), (3, 3)]);
    assert_eq!(run(&[(1, 1), (1, 2), (1, 1)]), vec![(1, 1), (3, 3)]);
    assert_eq!(run(&[(1, 2), (1, 1), (1, 2)]), vec![(1, 2), (3, 3)]);
}
