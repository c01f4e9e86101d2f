//! Graph store and traversal behavior.
use hyperdag::dag::DAG;
use hyperdag::traverse::{DFOut, TraversalOrder};

fn collect(dag: &DAG<u64>, from: usize, order: TraversalOrder) -> Vec<DFOut> {
    dag.depth_first_visit(from, order)
}

#[test]
fn test_linked_list() {
    let pairs = vec![(0, 1), (1, 2), (2, 3), (3, 4), (4, 5), (5, 6)];
    let dag = DAG::from_pairs(&pairs);
    let mut iter = dag.depth_first_iter(0, TraversalOrder::PreOrder);
    let mut i = 0usize;
    while let Some(v) = iter.next() {
        assert_eq!(i, v.depth);
        assert_eq!(i, v.dagid);
        i += 1;
    }
}

#[test]
fn dag_test_simple_tree() {
    let pairs = vec![(0, 1), (1, 2), (1, 3), (3, 4), (3, 5), (5, 6)];
    let dag = DAG::from_pairs(&pairs);
    let mut iter = dag.depth_first_iter(0, TraversalOrder::PreOrder);
    while let Some(_v) = iter.next() {}
}

#[test]
fn test_small_cycle() {
    let pairs = vec![(0, 1), (1, 2), (2, 3), (3, 4), (4, 5), (5, 6), (6, 0)];
    let dag = DAG::from_pairs(&pairs);
    let mut iter = dag.depth_first_iter(0, TraversalOrder::PreOrder);
    while let Some(_v) = iter.next() {}
}

#[test]
fn cycle_visits_each_node_once_and_terminates() {
    let pairs = vec![(0, 1), (1, 2), (2, 3), (3, 4), (4, 5), (5, 6), (6, 0)];
    let dag = DAG::from_pairs(&pairs);
    let records = collect(&dag, 0, TraversalOrder::PreOrder);
    assert_eq!(records.len(), 7);
    let mut seen = vec![false; 7];
    for r in &records {
        assert!(!seen[r.dagid], "node visited twice");
        seen[r.dagid] = true;
    }
    assert!(seen.iter().all(|&s| s));
}

#[test]
fn preorder_parent_comes_first_postorder_last() {
    let pairs = vec![(0, 1), (0, 2), (1, 3), (1, 4)];
    let dag = DAG::from_pairs(&pairs);
    let pre = collect(&dag, 0, TraversalOrder::PreOrder);
    let post = collect(&dag, 0, TraversalOrder::PostOrder);
    assert_eq!(pre.len(), 5);
    assert_eq!(post.len(), 5);
    let pos = |records: &Vec<DFOut>, id: usize| records.iter().position(|r| r.dagid == id).unwrap();
    for r in &pre {
        if let Some((p, _)) = r.parent_ref {
            assert!(pos(&pre, p) < pos(&pre, r.dagid));
        }
    }
    for r in &post {
        if let Some((p, _)) = r.parent_ref {
            assert!(pos(&post, p) > pos(&post, r.dagid));
        }
    }
    // post-order emits a node only after its whole subtree
    assert_eq!(post.last().unwrap().dagid, 0);
}

#[test]
fn unreachable_nodes_are_absent() {
    let mut dag: DAG<u64> = DAG::new();
    for v in 0..4 {
        dag.insert(v);
    }
    dag.insert_edge(0, 1);
    dag.insert_edge(2, 3);
    let records = collect(&dag, 0, TraversalOrder::PreOrder);
    assert_eq!(records.len(), 2);
    assert!(records.iter().all(|r| r.dagid == 0 || r.dagid == 1));
}

#[test]
fn insert_and_accessors() {
    let mut dag: DAG<u64> = DAG::new();
    assert_eq!(dag.num_nodes(), 0);
    let a = dag.insert(10);
    let b = dag.insert(20);
    let c = dag.insert(30);
    assert_eq!((a, b, c), (0, 1, 2));
    assert_eq!(dag.num_nodes(), 3);
    assert_eq!(dag.num_edges(), 0);
    dag.insert_edge(0, 1);
    dag.insert_edge(0, 2);
    dag.insert_edge(0, 1);
    dag.insert_edge(2, 2);
    assert_eq!(dag.num_edges(), 4);
    assert_eq!(dag.neighbors(0).as_slice(), &[1, 2, 1]);
    assert_eq!(dag.neighbors(1).as_slice(), &[] as &[usize]);
    assert_eq!(dag.incoming(1).as_slice(), &[0, 0]);
    assert_eq!(dag.incoming(2).as_slice(), &[0, 2]);
    assert_eq!(*dag.get(0), 10);
    assert_eq!(*dag.get(2), 30);
}

#[test]
fn from_pairs_dedups_by_value_in_first_seen_order() {
    let pairs = vec![(5, 7), (7, 5), (5, 9)];
    let dag = DAG::from_pairs(&pairs);
    assert_eq!(dag.num_nodes(), 3);
    assert_eq!(dag.num_edges(), 3);
    assert_eq!(*dag.get(0), 5);
    assert_eq!(*dag.get(1), 7);
    assert_eq!(*dag.get(2), 9);
    assert_eq!(dag.neighbors(0).as_slice(), &[1, 2]);
    assert_eq!(dag.neighbors(1).as_slice(), &[0]);
}

#[test]
fn symmetric_walk_reaches_ancestors() {
    // both edges point INTO the focus; only the symmetric walk sees them
    let mut dag: DAG<u64> = DAG::new();
    for v in 0..3 {
        dag.insert(v);
    }
    dag.insert_edge(1, 0);
    dag.insert_edge(2, 0);
    let records = dag.breadth_first_visit(0);
    assert_eq!(records.len(), 3);
    assert_eq!(records[0].dagid, 0);
    assert_eq!(records[0].depth, 0);
    assert!(records[0].parent_ref.is_none());
    // discovered through the focus's incoming row, in its order
    assert_eq!(records[1].dagid, 1);
    assert_eq!(records[1].parent_ref, Some((0, 0)));
    assert_eq!(records[2].dagid, 2);
    assert_eq!(records[2].parent_ref, Some((0, 1)));
    assert_eq!(records[1].depth, 1);
    assert_eq!(records[2].depth, 1);
}
