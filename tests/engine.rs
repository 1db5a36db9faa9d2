use std::collections::HashMap;

use parallel_graphs::dataset::{dataset_record, linspace};
use parallel_graphs::models::{
    execute, given, graph_batch, Execution, ExecutionResult, Graph, GraphInstance,
    ParallelExecution, SequentialExecution,
};
use parallel_graphs::view::ExecutionMetric;

fn as_map(pairs: &[(usize, usize)]) -> HashMap<usize, usize> {
    pairs.iter().copied().collect()
}

#[test]
fn consume_within_layer_keeps_layer() {
    let mut g = GraphInstance::new(3, Graph { depth: 2, width: 3 });
    assert_eq!(g.left_cubes(), 6);
    assert!(!g.remove_from_first(2));
    assert_eq!(g.left_on_first_layer, Some(1));
    assert_eq!(g.left_layers, 1);
    assert_eq!(g.left_cubes(), 4);
}

#[test]
fn consume_crossing_layer_and_finishing() {
    let mut g = GraphInstance::new(0, Graph { depth: 2, width: 3 });
    assert!(g.remove_from_first(3));
    assert_eq!(g.left_on_first_layer, Some(3));
    assert_eq!(g.left_layers, 0);
    assert_eq!(g.left_cubes(), 3);
    assert!(g.remove_from_first(3));
    assert_eq!(g.left_on_first_layer, None);
    assert_eq!(g.left_cubes(), 0);
}

#[test]
fn consume_lowers_work_by_amount() {
    let mut g = GraphInstance::new(0, Graph { depth: 4, width: 5 });
    let mut before = g.left_cubes();
    for n in [1usize, 4, 5, 2, 3, 5] {
        g.remove_from_first(n);
        assert_eq!(g.left_cubes(), before - n);
        before = g.left_cubes();
    }
    assert_eq!(before, 0);
}

#[test]
fn priority_prefers_more_work_then_lower_id() {
    let a = GraphInstance::new(0, Graph { depth: 1, width: 2 });
    let b = GraphInstance::new(1, Graph { depth: 1, width: 2 });
    let c = GraphInstance::new(2, Graph { depth: 1, width: 3 });
    assert!(a.is_above(&b));
    assert!(!b.is_above(&a));
    assert!(c.is_above(&a));
}

#[test]
fn batch_has_shape_and_count() {
    let gs = graph_batch(3, 2, 4);
    assert_eq!(gs.len(), 3);
    assert!(gs.iter().all(|g| *g == Graph { depth: 2, width: 4 }));
}

#[test]
fn policies_differ_on_bamboo_batch() {
    let p = given(3, 2, 1, 2).execute::<ParallelExecution>();
    let s = given(3, 2, 1, 2).execute::<SequentialExecution>();
    assert_eq!(p.iterations_per_graph, as_map(&[(0, 2), (1, 3), (2, 3)]));
    assert_eq!(s.iterations_per_graph, as_map(&[(0, 4), (1, 2), (2, 2)]));
    assert_ne!(p, s);
}

#[test]
fn empty_batch_gives_empty_result() {
    let p = execute(ParallelExecution::new(1, vec![]));
    let s = execute(SequentialExecution::new(1, vec![]));
    assert_eq!(p, ExecutionResult::new());
    assert_eq!(s, ExecutionResult::new());
}

#[test]
fn every_id_is_a_key() {
    for n in 0..6usize {
        let p = given(n, 3, 2, 3).execute::<ParallelExecution>();
        let s = given(n, 3, 2, 3).execute::<SequentialExecution>();
        assert_eq!(p.iterations_per_graph.len(), n);
        assert_eq!(s.iterations_per_graph.len(), n);
        for id in 0..n {
            assert!(p.iterations_per_graph.contains_key(&id));
            assert!(s.iterations_per_graph.contains_key(&id));
        }
    }
}

#[test]
fn iterate_reports_touched_ids() {
    let mut e = ParallelExecution::new(2, graph_batch(3, 2, 1));
    assert!(!e.finished());
    assert_eq!(e.iterate(), vec![0, 1]);
    let mut s = SequentialExecution::new(2, graph_batch(3, 2, 1));
    assert_eq!(s.iterate(), vec![2, 1]);
    assert_eq!(s.iterate(), vec![2, 1]);
}

#[test]
fn sequential_skips_finished_middle_instance() {
    let graphs = vec![Graph { depth: 1, width: 1 }, Graph { depth: 5, width: 1 }];
    let r = execute(SequentialExecution::new(2, graphs));
    assert_eq!(r.iterations_per_graph, as_map(&[(0, 1), (1, 5)]));
}

#[test]
fn expect_rejects_wrong_result() {
    assert!(!given(1, 1, 1, 1).expect::<ParallelExecution>(&[(0, 2)]));
    assert!(!given(1, 1, 1, 1).expect::<SequentialExecution>(&[(0, 1), (1, 1)]));
    assert!(!given(2, 1, 1, 1).expect::<SequentialExecution>(&[(0, 2)]));
}

#[test]
fn metric_of_iterations() {
    let m = ExecutionMetric::from_iterations(&vec![4, 2, 7]).unwrap();
    assert_eq!((m.min_iters, m.max_iters, m.sum_iters), (2, 7, 13));
    let e = ExecutionMetric::from_iterations(&vec![]).unwrap();
    assert_eq!((e.min_iters, e.max_iters, e.sum_iters), (0, 0, 0));
    assert!(ExecutionMetric::from_iterations(&vec![usize::MAX, 1]).is_none());
}

#[test]
fn metric_of_result() {
    let r = given(3, 1, 2, 2).execute::<SequentialExecution>();
    let m = ExecutionMetric::from_result(&r).unwrap();
    assert_eq!((m.min_iters, m.max_iters, m.sum_iters), (1, 3, 6));
}

#[test]
fn metric_of_result_counts_repeated_values() {
    let r = given(3, 1, 2, 2).execute::<ParallelExecution>();
    let m = ExecutionMetric::from_result(&r).unwrap();
    assert_eq!((m.min_iters, m.max_iters, m.sum_iters), (2, 3, 8));
}

#[test]
fn iterate_on_empty_collection_does_nothing() {
    let mut p = ParallelExecution::new(2, vec![]);
    assert!(p.iterate().is_empty());
    assert!(p.finished());
    let mut s = SequentialExecution::new(2, vec![]);
    assert!(s.iterate().is_empty());
    assert!(s.finished());
}

#[test]
fn record_of_empty_batch() {
    let r = dataset_record::<SequentialExecution>(0, 5, 5, 1000).unwrap();
    assert_eq!((r.min_iters, r.max_iters, r.sum_iters), (0, 0, 0));
}

#[test]
fn linspace_steps() {
    assert_eq!(linspace(10, 20, 3), vec![10, 15, 20]);
    assert_eq!(linspace(0, 10, 4), vec![0, 3, 6, 9]);
    assert_eq!(linspace(7, 7, 2), vec![7, 7]);
}

#[test]
fn record_of_run() {
    let r = dataset_record::<ParallelExecution>(3, 1, 2, 2).unwrap();
    assert_eq!(
        (r.graphs_number, r.graph_depth, r.graph_width, r.bandwidth),
        (3, 1, 2, 2)
    );
    assert_eq!((r.min_iters, r.max_iters, r.sum_iters), (2, 3, 8));
}
