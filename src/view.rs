use crate::models::ExecutionResult;
use vstd::prelude::*;

verus! {

/// Least, greatest and total completion iteration of a run.
#[derive(Debug, Clone, Copy, PartialEq, Eq, Structural)]
pub struct ExecutionMetric {
    pub min_iters: usize,
    pub max_iters: usize,
    pub sum_iters: usize,
}

/// Least element of `s`; 0 when `s` is empty.
pub open spec fn seq_min(s: Seq<usize>) -> nat
    decreases s.len(),
{
    if s.len() == 0 {
        0
    } else if s.len() == 1 {
        s[0] as nat
    } else if s.last() < seq_min(s.drop_last()) {
        s.last() as nat
    } else {
        seq_min(s.drop_last())
    }
}

/// Greatest element of `s`; 0 when `s` is empty.
pub open spec fn seq_max(s: Seq<usize>) -> nat
    decreases s.len(),
{
    if s.len() == 0 {
        0
    } else if s.last() > seq_max(s.drop_last()) {
        s.last() as nat
    } else {
        seq_max(s.drop_last())
    }
}

pub open spec fn seq_sum(s: Seq<usize>) -> nat
    decreases s.len(),
{
    if s.len() == 0 {
        0
    } else {
        seq_sum(s.drop_last()) + s.last() as nat
    }
}

proof fn lemma_seq_min_bound(s: Seq<usize>)
    ensures
        seq_min(s) <= usize::MAX,
        s.len() > 0 ==> seq_min(s) <= s.last(),
    decreases s.len(),
{
    if s.len() > 1 {
        lemma_seq_min_bound(s.drop_last());
    }
}

proof fn lemma_seq_max_bound(s: Seq<usize>)
    ensures
        seq_max(s) <= usize::MAX,
    decreases s.len(),
{
    if s.len() > 0 {
        lemma_seq_max_bound(s.drop_last());
    }
}

impl ExecutionMetric {
    /// The metric of a list of completion iterations, or `None` where their
    /// sum does not fit in `usize`.
    pub fn from_iterations(iterations: &Vec<usize>) -> (r: Option<ExecutionMetric>)
        ensures
            r is Some <==> seq_sum(iterations@) <= usize::MAX,
            r matches Some(m) ==> m.min_iters == seq_min(iterations@) && m.max_iters == seq_max(
                iterations@,
            ) && m.sum_iters == seq_sum(iterations@),
            r == metric_of(iterations@),
    {
        let ghost s = iterations@;
        let mut min_iters: usize = 0;
        let mut max_iters: usize = 0;
        let mut sum_iters: usize = 0;
        let mut i: usize = 0;
        while i < iterations.len()
            invariant
                i <= s.len(),
                s == iterations@,
                min_iters == seq_min(s.take(i as int)),
                max_iters == seq_max(s.take(i as int)),
                sum_iters == seq_sum(s.take(i as int)),
            decreases s.len() - i,
        {
            let x = iterations[i];
            proof {
                assert(s.take(i + 1).drop_last() =~= s.take(i as int));
                lemma_seq_min_bound(s.take(i as int));
                lemma_seq_max_bound(s.take(i as int));
            }
            if i == 0 || x < min_iters {
                min_iters = x;
            }
            if x > max_iters {
                max_iters = x;
            }
            if sum_iters > usize::MAX - x {
                proof {
                    lemma_sum_grows(s, i as int + 1);
                }
                return None;
            }
            sum_iters = sum_iters + x;
            i = i + 1;
        }
        assert(s.take(i as int) =~= s);
        proof {
            lemma_seq_min_bound(s);
            lemma_seq_max_bound(s);
        }
        Some(ExecutionMetric { min_iters, max_iters, sum_iters })
    }

    /// The metric of the completion iterations that a run recorded, taken in
    /// the order in which the result's map lists its ids; `None` where their
    /// sum does not fit in `usize`.
    pub fn from_result(result: &ExecutionResult) -> (r: Option<ExecutionMetric>)
        ensures
            exists|ids: Seq<usize>|
                {
                    &&& ids.no_duplicates()
                    &&& ids.to_set() == result@.dom()
                    &&& #[trigger] metric_of(values_in_order(result@, ids)) == r
                },
    {
        let ids = ids_of_result(result);
        let mut iterations: Vec<usize> = Vec::new();
        let mut i: usize = 0;
        while i < ids.len()
            invariant
                i <= ids@.len(),
                ids@.to_set() == result@.dom(),
                iterations@ == values_in_order(result@, ids@.take(i as int)),
            decreases ids@.len() - i,
        {
            let k = ids[i];
            assert(ids@.to_set().contains(k));
            let v = match result.iterations_per_graph.get(&k) {
                Some(v) => *v,
                None => 0,
            };
            iterations.push(v);
            assert(iterations@ =~= values_in_order(result@, ids@.take(i + 1)));
            i = i + 1;
        }
        assert(ids@.take(i as int) =~= ids@);
        let r = ExecutionMetric::from_iterations(&iterations);
        assert(metric_of(values_in_order(result@, ids@)) == r);
        r
    }
}

/// What `from_iterations` returns for the list `s`.
pub open spec fn metric_of(s: Seq<usize>) -> Option<ExecutionMetric> {
    if seq_sum(s) <= usize::MAX {
        Some(
            ExecutionMetric {
                min_iters: seq_min(s) as usize,
                max_iters: seq_max(s) as usize,
                sum_iters: seq_sum(s) as usize,
            },
        )
    } else {
        None
    }
}

/// The values of `m` at `ids`, in that order.
pub open spec fn values_in_order(m: Map<usize, usize>, ids: Seq<usize>) -> Seq<usize> {
    ids.map_values(|k: usize| m[k])
}

/// The ids of a result, each once, in the order in which its map lists them.
fn ids_of_result(result: &ExecutionResult) -> (r: Vec<usize>)
    ensures
        r@.no_duplicates(),
        r@.to_set() == result@.dom(),
{
    let mut r: Vec<usize> = Vec::new();
    for k in it: result.iterations_per_graph.keys()
        invariant
            r@ == it.seq().unref().take(it.index() as int),
            it.index() <= it.seq().len(),
            it.seq().unref().no_duplicates(),
            it.seq().unref().to_set() == result@.dom(),
            it.index() == it.seq().len() ==> r@.no_duplicates() && r@.to_set() == result@.dom(),
    {
        proof {
            assert(it.seq().unref().take(it.index() + 1) =~= it.seq().unref().take(it.index() as int).push(*k));
        }
        r.push(*k);
        proof {
            assert(it.seq().unref().take(it.seq().len() as int) =~= it.seq().unref());
        }
    }
    r
}

proof fn lemma_sum_grows(s: Seq<usize>, i: int)
    requires
        0 <= i <= s.len(),
    ensures
        seq_sum(s.take(i)) <= seq_sum(s),
    decreases s.len(),
{
    if i < s.len() {
        lemma_sum_grows(s.drop_last(), i);
        assert(s.drop_last().take(i) =~= s.take(i));
    } else {
        assert(s.take(i) =~= s);
    }
}

} // verus!
