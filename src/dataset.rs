use crate::models::{given, Execution, Given};
use crate::view::{metric_of, ExecutionMetric};
use vstd::prelude::*;

verus! {

/// One row of a dataset: the parameters of a run and its metric.
#[derive(Debug, Clone, Copy, PartialEq, Eq, Structural)]
pub struct Record {
    pub graphs_number: usize,
    pub graph_depth: usize,
    pub graph_width: usize,
    pub bandwidth: usize,
    pub min_iters: usize,
    pub max_iters: usize,
    pub sum_iters: usize,
}

/// `n` values from `start`, each the previous one plus the whole part of
/// `(end - start) / (n - 1)`.
pub fn linspace(start: usize, end: usize, n: usize) -> (r: Vec<usize>)
    requires
        start <= end,
        n >= 2,
    ensures
        r@.len() == n,
        forall|i: int| 0 <= i < n ==> #[trigger] r@[i] == start + i * ((end - start) / (n - 1) as int),
{
    let dx = (end - start) / (n - 1);
    proof {
        let d = dx as int;
        assert(d * (n - 1) <= end - start) by (nonlinear_arith)
            requires
                d == (end - start) / (n - 1) as int,
                n >= 2,
                end - start >= 0,
        ;
    }
    let mut x: Vec<usize> = Vec::new();
    x.push(start);
    assert(0 * (dx as int) == 0);
    assert(x@[0] == start + 0 * (dx as int));
    let mut i: usize = 1;
    while i < n
        invariant
            1 <= i <= n,
            n >= 2,
            start <= end,
            dx == (end - start) / (n - 1) as int,
            dx * (n - 1) <= end - start,
            x@.len() == i,
            forall|j: int| 0 <= j < i ==> #[trigger] x@[j] == start + j * dx,
        decreases n - i,
    {
        proof {
            let d = dx as int;
            assert(i * d <= d * (n - 1)) by (nonlinear_arith)
                requires
                    i <= n - 1,
                    d >= 0,
            ;
            assert((i - 1) * d + d == i * d) by (nonlinear_arith);
            assert(x@[i - 1] == start + (i - 1) * d);
        }
        let next = x[i - 1] + dx;
        x.push(next);
        i = i + 1;
    }
    x
}

/// The row for a run of policy `E` on `graphs_number` graphs of the given
/// shape, or `None` where the sum of completion iterations does not fit in
/// `usize`.
pub fn dataset_record<E: Execution>(
    graphs_number: usize,
    graph_depth: usize,
    graph_width: usize,
    bandwidth: usize,
) -> (r: Option<Record>)
    requires
        (Given { graphs: graphs_number, depth: graph_depth, width: graph_width, bandwidth }).valid(),
    ensures
        r == row_of(
            graphs_number,
            graph_depth,
            graph_width,
            bandwidth,
            metric_of(
                values_by_id(
                    (Given { graphs: graphs_number, depth: graph_depth, width: graph_width, bandwidth }).outcome::<E>(),
                    graphs_number as nat,
                ),
            ),
        ),
{
    let g = given(graphs_number, graph_depth, graph_width, bandwidth);
    let result = g.execute::<E>();
    let mut iterations: Vec<usize> = Vec::new();
    let mut id: usize = 0;
    while id < graphs_number
        invariant
            id <= graphs_number,
            result@ == g.outcome::<E>(),
            iterations@ == values_by_id(result@, id as nat),
        decreases graphs_number - id,
    {
        let v = match result.iterations_per_graph.get(&id) {
            Some(v) => *v,
            None => 0,
        };
        iterations.push(v);
        assert(iterations@ =~= values_by_id(result@, (id + 1) as nat));
        id = id + 1;
    }
    let metric = ExecutionMetric::from_iterations(&iterations);
    match metric {
        Some(m) => Some(
            Record {
                graphs_number,
                graph_depth,
                graph_width,
                bandwidth,
                min_iters: m.min_iters,
                max_iters: m.max_iters,
                sum_iters: m.sum_iters,
            },
        ),
        None => None,
    }
}

/// The completion iterations of ids `0..n`, in order of id; an id without
/// one counts as 0. Both policies give every id of the batch one (see
/// `lemma_given_result_keys`), and no other id.
pub open spec fn values_by_id(m: Map<usize, usize>, n: nat) -> Seq<usize> {
    Seq::new(n, |i: int| if m.contains_key(i as usize) { m[i as usize] } else { 0 })
}

/// The row for the given parameters and metric; none without a metric.
pub open spec fn row_of(
    graphs_number: usize,
    graph_depth: usize,
    graph_width: usize,
    bandwidth: usize,
    metric: Option<ExecutionMetric>,
) -> Option<Record> {
    match metric {
        Some(m) => Some(
            Record {
                graphs_number,
                graph_depth,
                graph_width,
                bandwidth,
                min_iters: m.min_iters,
                max_iters: m.max_iters,
                sum_iters: m.sum_iters,
            },
        ),
        None => None,
    }
}

} // verus!
