use asset_aggregation::graph::AggregatedGraph;
use asset_aggregation::graph::AggregatedGraphNodeContent;
use asset_aggregation::graph::Aggregator;
use asset_aggregation::graph::AssetGraph;

fn aggregator(refs: Vec<Vec<usize>>) -> Aggregator {
    let graph = AssetGraph::new(refs).expect("well-formed graph");
    Aggregator::new(graph)
}

fn collect_assets(agg: &Aggregator, h: usize, out: &mut Vec<usize>) {
    match agg.content(h) {
        AggregatedGraphNodeContent::Asset(a) => {
            if !out.contains(&a) {
                out.push(a);
            }
        }
        AggregatedGraphNodeContent::Children(children) => {
            for c in children {
                collect_assets(agg, c, out);
            }
        }
    }
}

#[test]
fn graph_constructor_rejects_bad_tables() {
    assert!(AssetGraph::new(vec![vec![0, 0]]).is_none());
    assert!(AssetGraph::new(vec![vec![1]]).is_none());
    assert!(AssetGraph::new(vec![vec![0]]).is_some());
    assert!(AssetGraph::new(vec![]).is_some());
}

#[test]
fn leaf_depth_is_zero() {
    let leaf = AggregatedGraph::Leaf(3);
    assert_eq!(leaf.depth(), 0);
    let node = AggregatedGraph::Node { depth: 2, content: vec![0], references: vec![] };
    assert_eq!(node.depth(), 2);
}

#[test]
fn self_loop_eliminated_from_leaf_references() {
    // asset 0 references itself and asset 1
    let mut agg = aggregator(vec![vec![0, 1], vec![]]);
    let l0 = agg.leaf(0);
    let refs = agg.references(l0);
    assert!(!refs.contains(&l0));
    assert_eq!(refs.len(), 1);
    match &agg.values[refs[0]] {
        AggregatedGraph::Leaf(b) => assert_eq!(*b, 1),
        _ => panic!("expected a leaf handle"),
    }
}

#[test]
fn leaf_cost_counts_distinct_non_self_references() {
    let mut agg = aggregator(vec![vec![1, 2], vec![2], vec![], vec![3, 0, 1]]);
    let l0 = agg.leaf(0);
    let l1 = agg.leaf(1);
    let l2 = agg.leaf(2);
    let l3 = agg.leaf(3);
    assert_eq!(agg.cost(l0), 2);
    assert_eq!(agg.cost(l1), 1);
    assert_eq!(agg.cost(l2), 0);
    // asset 3 lists itself among three entries: two non-self references
    assert_eq!(agg.cost(l3), 2);
}

#[test]
fn valued_references_partition_end_to_end_example() {
    // A: refs={B,C}, B: refs={C}, C: refs={}
    let mut agg = aggregator(vec![vec![1, 2], vec![2], vec![]]);
    let la = agg.leaf(0);
    let v = agg.valued_references(la);
    let lb = agg.leaf(1);
    let lc = agg.leaf(2);
    // C has cost 0: inner; B has cost 1 <= self cost 2: outer
    assert_eq!(v.inner, vec![lc]);
    assert_eq!(v.outer, vec![lb]);
    assert!(v.references.is_empty());
    // the buckets together are exactly references(leaf(A))
    let refs = agg.references(la);
    let mut union: Vec<usize> = Vec::new();
    union.extend(&v.inner);
    union.extend(&v.outer);
    union.extend(&v.references);
    union.sort();
    let mut refs_sorted = refs.clone();
    refs_sorted.sort();
    assert_eq!(union, refs_sorted);
}

#[test]
fn aggregate_more_absorbs_acyclic_example() {
    // one coarsening step at depth 0 runs 2 rounds and absorbs everything
    let mut agg = aggregator(vec![vec![1, 2], vec![2], vec![]]);
    let la = agg.leaf(0);
    let lb = agg.leaf(1);
    let lc = agg.leaf(2);
    let n = agg.aggregate_more(la);
    match &agg.values[n] {
        AggregatedGraph::Node { depth, content, references } => {
            assert_eq!(*depth, 1);
            assert!(content.contains(&la));
            assert!(content.contains(&lb));
            assert!(content.contains(&lc));
            assert!(references.is_empty());
        }
        _ => panic!("expected a node"),
    }
}

#[test]
fn content_and_references_disjoint_after_step() {
    let mut agg = aggregator(vec![vec![1, 2, 3], vec![0], vec![1], vec![]]);
    let l0 = agg.leaf(0);
    let n = agg.aggregate_more(l0);
    match &agg.values[n] {
        AggregatedGraph::Node { content, references, .. } => {
            for c in content {
                assert!(!references.contains(c));
            }
        }
        _ => panic!("expected a node"),
    }
}

#[test]
fn depth_strictly_increases_into_content() {
    let mut agg = aggregator(vec![vec![1], vec![0]]);
    let l0 = agg.leaf(0);
    let n = agg.aggregate_more(l0);
    let nd = agg.values[n].depth();
    match &agg.values[n] {
        AggregatedGraph::Node { content, .. } => {
            for c in content {
                assert!(agg.values[*c].depth() < nd);
            }
        }
        _ => panic!("expected a node"),
    }
}

#[test]
fn simple_cycle_terminates_with_empty_frontier() {
    // A -> B -> A, no self-loops
    let mut agg = aggregator(vec![vec![1], vec![0]]);
    let result = agg.aggregate(0, 16).expect("terminates on a two-cycle");
    let refs = agg.references(result);
    assert!(refs.is_empty());
    let mut assets = Vec::new();
    collect_assets(&agg, result, &mut assets);
    assets.sort();
    assert_eq!(assets, vec![0, 1]);
}

#[test]
fn acyclic_closure_recovers_reachable_set() {
    // A -> {B, C}, B -> C, C -> {}
    let mut agg = aggregator(vec![vec![1, 2], vec![2], vec![]]);
    let result = agg.aggregate(0, 16).expect("terminates on an acyclic graph");
    let refs = agg.references(result);
    assert!(refs.is_empty());
    let mut assets = Vec::new();
    collect_assets(&agg, result, &mut assets);
    assets.sort();
    assert_eq!(assets, vec![0, 1, 2]);
}

#[test]
fn aggregate_twice_yields_identical_handles() {
    let mut agg = aggregator(vec![vec![1, 2], vec![2, 0], vec![1]]);
    let first = agg.aggregate(0, 32).expect("terminates");
    let second = agg.aggregate(0, 32).expect("terminates");
    assert_eq!(first, second);
}

#[test]
fn interning_collapses_equal_leaves() {
    let mut agg = aggregator(vec![vec![1], vec![]]);
    let a = agg.leaf(0);
    let b = agg.leaf(0);
    assert_eq!(a, b);
    let c = agg.leaf(1);
    assert_ne!(a, c);
}

#[test]
fn isolated_asset_aggregates_immediately() {
    let mut agg = aggregator(vec![vec![]]);
    let result = agg.aggregate(0, 4).expect("no frontier to chase");
    match &agg.values[result] {
        AggregatedGraph::Leaf(a) => assert_eq!(*a, 0),
        _ => panic!("a dead-end asset stays a leaf"),
    }
}

#[test]
fn larger_cycle_terminates() {
    // a ring of three assets
    let mut agg = aggregator(vec![vec![1], vec![2], vec![0]]);
    let result = agg.aggregate(0, 16).expect("terminates on a three-cycle");
    let refs = agg.references(result);
    assert!(refs.is_empty());
    let mut assets = Vec::new();
    collect_assets(&agg, result, &mut assets);
    assets.sort();
    assert_eq!(assets, vec![0, 1, 2]);
}

#[test]
fn exhausted_budget_returns_none() {
    // a two-cycle cannot settle in one coarsening step, and never in zero
    let mut agg = aggregator(vec![vec![1], vec![0]]);
    assert!(agg.aggregate(0, 0).is_none());
    assert!(agg.aggregate(0, 1).is_none());
    assert!(agg.aggregate(0, 16).is_some());
}

#[test]
fn dead_end_asset_owed_success() {
    // an asset whose only reference is itself aggregates at once
    let mut agg = aggregator(vec![vec![0]]);
    let result = agg.aggregate(0, 1).expect("self-loop only: success owed");
    match &agg.values[result] {
        AggregatedGraph::Leaf(a) => assert_eq!(*a, 0),
        _ => panic!("dead-end asset stays a leaf"),
    }
}
