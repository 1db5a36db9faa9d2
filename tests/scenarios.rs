use parallel_graphs::models::{given, ParallelExecution, SequentialExecution};

const ONE: usize = 1;
const TWO: usize = 2;

#[test]
fn test_no_graphs() {
    assert!(given(0, 1, 1, ONE).expect::<ParallelExecution>(&[]));
}

#[test]
fn test_one_graph() {
    assert!(given(1, 1, 1, ONE).expect::<ParallelExecution>(&[(0, 1)]));
}

#[test]
fn test_depth() {
    assert!(given(1, 10, 1, ONE).expect::<ParallelExecution>(&[(0, 10)]));
}

#[test]
fn test_bamboo_double_bandwidth() {
    assert!(given(1, 10, 1, TWO).expect::<ParallelExecution>(&[(0, 10)]));
}

#[test]
fn test_width() {
    assert!(given(1, 1, 2, TWO).expect::<ParallelExecution>(&[(0, 1)]));
}

#[test]
fn test_non_trivial_bamboo() {
    assert!(given(3, 2, 1, TWO).expect::<ParallelExecution>(&[(0, 2), (1, 3), (2, 3)]));
}

#[test]
fn test_non_trivial_parallel_graphs() {
    assert!(given(3, 1, 2, TWO).expect::<ParallelExecution>(&[(0, 2), (1, 3), (2, 3)]));
}

#[test]
fn test_batch() {
    assert!(given(2, 1, 1, TWO).expect::<ParallelExecution>(&[(0, 1), (1, 1)]));
}

#[test]
fn models_test_no_graphs() {
    assert!(given(0, 1, 1, ONE).expect::<SequentialExecution>(&[]));
}

#[test]
fn models_test_one_graph() {
    assert!(given(1, 1, 1, ONE).expect::<SequentialExecution>(&[(0, 1)]));
}

#[test]
fn models_test_depth() {
    assert!(given(1, 10, 1, ONE).expect::<SequentialExecution>(&[(0, 10)]));
}

#[test]
fn models_test_bamboo_double_bandwidth() {
    assert!(given(1, 10, 1, TWO).expect::<SequentialExecution>(&[(0, 10)]));
}

#[test]
fn models_test_width() {
    assert!(given(1, 1, 2, TWO).expect::<SequentialExecution>(&[(0, 1)]));
}

#[test]
fn models_test_non_trivial_bamboo() {
    assert!(given(3, 2, 1, TWO).expect::<SequentialExecution>(&[(0, 4), (1, 2), (2, 2)]));
}

#[test]
fn models_test_non_trivial_parallel_graphs() {
    assert!(given(3, 1, 2, TWO).expect::<SequentialExecution>(&[(0, 3), (1, 2), (2, 1)]));
}

#[test]
fn test_batch1() {
    assert!(given(2, 1, 1, TWO).expect::<SequentialExecution>(&[(0, 1), (1, 1)]));
}

#[test]
fn test_batch2() {
    assert!(given(2, 1, 1, ONE).expect::<SequentialExecution>(&[(0, 2), (1, 1)]));
}
