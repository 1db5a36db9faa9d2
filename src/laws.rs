use crate::models::{
    all_running, all_wf, ids_of, instances_of, lemma_instances_of, lemma_top_index, lemma_total_push,
    lemma_total_remove, parallel_amount, parallel_drain, record, run, running, top_index, total_work,
    all_graphs_wf, lemma_total_update, sequential_scan, trim_done, Execution, Graph, GraphInstance,
    ParallelExecution, SequentialExecution, batch, lemma_batch, Given,
};
use vstd::prelude::*;

verus! {

pub open spec fn ids_below(s: Seq<GraphInstance>, n: nat) -> bool {
    forall|i: int| 0 <= i < s.len() ==> (#[trigger] s[i]).id < n
}

/// Some unfinished instance of `s` has id `id`.
pub open spec fn has_pending(s: Seq<GraphInstance>, id: usize) -> bool {
    exists|i: int| 0 <= i < s.len() && (#[trigger] s[i]).id == id && !s[i].is_done()
}

/// Every id below `n` is a key of `m` or still pending in `s`, and `m` has no
/// other key.
pub open spec fn accounted(s: Seq<GraphInstance>, m: Map<usize, usize>, n: nat) -> bool {
    &&& ids_below(s, n)
    &&& forall|k: usize| #[trigger] m.contains_key(k) ==> k < n
    &&& forall|id: usize|
        #![trigger m.contains_key(id)]
        #![trigger has_pending(s, id)]
        id < n ==> m.contains_key(id) || has_pending(s, id)
}

/// What a policy `E` needs, from every state that `inv` admits, for a run to
/// reach every pending id: the next state is admitted too, holds only ids
/// below `n`, has less work, and each pending id stays pending or is touched.
pub open spec fn makes_progress<E: Execution>(capacity: nat, inv: spec_fn(Seq<GraphInstance>) -> bool, n: nat) -> bool {
    forall|s: Seq<GraphInstance>|
        #![trigger E::step(capacity, s)]
        inv(s) && ids_below(s, n) && s.len() > 0 ==> {
            let next = E::step(capacity, s);
            &&& inv(next.0)
            &&& ids_below(next.0, n)
            &&& total_work(next.0) < total_work(s)
            &&& next.1.len() > 0
            &&& forall|j: int| 0 <= j < next.1.len() ==> (#[trigger] next.1[j]) < n
            &&& forall|id: usize| #[trigger] has_pending(s, id) ==> has_pending(next.0, id) || next.1.contains(id)
        }
}

proof fn lemma_record_keys(m: Map<usize, usize>, ids: Seq<usize>, it: usize)
    ensures
        forall|k: usize| #[trigger] record(m, ids, it).contains_key(k) <==> m.contains_key(k) || ids.contains(k),
    decreases ids.len(),
{
    if ids.len() > 0 {
        lemma_record_keys(m, ids.drop_last(), it);
        let r0 = record(m, ids.drop_last(), it);
        assert(record(m, ids, it) == r0.insert(ids.last(), it));
        assert forall|k: usize| #[trigger] record(m, ids, it).contains_key(k) <==> m.contains_key(k) || ids.contains(k) by {
            if ids.contains(k) && k != ids.last() {
                let j = choose|j: int| 0 <= j < ids.len() && ids[j] == k;
                assert(ids.drop_last()[j] == k);
                assert(ids.drop_last().contains(k));
            }
            if ids.drop_last().contains(k) {
                let j = choose|j: int| 0 <= j < ids.len() - 1 && ids.drop_last()[j] == k;
                assert(ids[j] == k);
                assert(ids.contains(k));
            }
            assert(ids[ids.len() - 1] == ids.last());
            if k == ids.last() {
                assert(ids.contains(k));
            }
        }
    }
}

proof fn lemma_run_keys<E: Execution>(
    capacity: nat,
    inv: spec_fn(Seq<GraphInstance>) -> bool,
    n: nat,
    s: Seq<GraphInstance>,
    fuel: nat,
    done: nat,
    m: Map<usize, usize>,
)
    requires
        makes_progress::<E>(capacity, inv, n),
        forall|t: Seq<GraphInstance>| #[trigger] inv(t) && t.len() > 0 ==> total_work(t) > 0,
        inv(s),
        accounted(s, m, n),
        fuel >= total_work(s),
        done + fuel <= usize::MAX,
    ensures
        forall|k: usize| #[trigger] run::<E>(capacity, s, fuel, done, m).contains_key(k) <==> k < n,
    decreases fuel,
{
    if s.len() == 0 {
        assert forall|k: usize| k < n implies #[trigger] m.contains_key(k) by {
            assert(!has_pending(s, k));
        }
        assert(run::<E>(capacity, s, fuel, done, m) == m);
    } else {
        assert(total_work(s) > 0);
        let next = E::step(capacity, s);
        assert(inv(next.0) && total_work(next.0) < total_work(s));
        let m2 = record(m, next.1, (done + 1) as usize);
        lemma_record_keys(m, next.1, (done + 1) as usize);
        assert forall|k: usize| #[trigger] m2.contains_key(k) implies k < n by {
            if next.1.contains(k) {
                let j = choose|j: int| 0 <= j < next.1.len() && next.1[j] == k;
            }
        }
        assert forall|id: usize| id < n implies m2.contains_key(id) || #[trigger] has_pending(next.0, id) by {
            if !m.contains_key(id) {
                assert(has_pending(s, id));
            }
        }
        lemma_run_keys::<E>(capacity, inv, n, next.0, (fuel - 1) as nat, done + 1, m2);
        assert(run::<E>(capacity, s, fuel, done, m) == run::<E>(capacity, next.0, (fuel - 1) as nat, done + 1, m2));
    }
}

/// Each id of a batch becomes a key of the result of a run, and no other
/// value does.
pub proof fn lemma_result_keys<E: Execution>(
    capacity: nat,
    inv: spec_fn(Seq<GraphInstance>) -> bool,
    gs: Seq<Graph>,
)
    requires
        makes_progress::<E>(capacity, inv, gs.len()),
        forall|t: Seq<GraphInstance>| #[trigger] inv(t) && t.len() > 0 ==> total_work(t) > 0,
        inv(instances_of(gs)),
        total_work(instances_of(gs)) <= usize::MAX,
    ensures
        forall|k: usize|
            #[trigger] run::<E>(capacity, instances_of(gs), total_work(instances_of(gs)), 0, Map::empty()).contains_key(k)
                <==> k < gs.len(),
{
    let s = instances_of(gs);
    assert forall|id: usize| id < gs.len() implies #[trigger] has_pending(s, id) by {
        assert(s[id as int].id == id);
    }
    lemma_run_keys::<E>(capacity, inv, gs.len(), s, total_work(s), 0, Map::empty());
}

proof fn lemma_consumed(g: GraphInstance, n: nat)
    requires
        g.wf(),
        1 <= n <= g.current(),
    ensures
        g.consumed(n).wf(),
        g.consumed(n).work() == g.work() - n,
        g.consumed(n).id == g.id,
{
    let w = g.graph.width as int;
    let l = g.left_layers as int;
    if n == g.current() && l > 0 {
        assert((l - 1) * w + w == l * w) by (nonlinear_arith);
    }
    g.lemma_work_bounds();
}

proof fn lemma_total_concat(a: Seq<GraphInstance>, b: Seq<GraphInstance>)
    ensures
        total_work(a + b) == total_work(a) + total_work(b),
    decreases b.len(),
{
    if b.len() == 0 {
        assert(a + b =~= a);
    } else {
        lemma_total_concat(a, b.drop_last());
        assert((a + b).drop_last() =~= a + b.drop_last());
    }
}

proof fn lemma_running(h: Seq<GraphInstance>, n: nat)
    requires
        all_wf(h),
        ids_below(h, n),
    ensures
        all_wf(running(h)),
        all_running(running(h)),
        ids_below(running(h), n),
        total_work(running(h)) == total_work(h),
    decreases h.len(),
{
    if h.len() > 0 {
        let p = h.drop_last();
        lemma_running(p, n);
        h.last().lemma_work_bounds();
        lemma_total_push(running(p), h.last());
    }
}

proof fn lemma_parallel_drain(active: Seq<GraphInstance>, held: Seq<GraphInstance>, budget: nat, n: nat)
    requires
        all_wf(active),
        all_running(active),
        all_wf(held),
        ids_below(active, n),
        ids_below(held, n),
    ensures
        ({
            let r = parallel_drain(active, held, budget);
            &&& all_wf(r.0)
            &&& all_running(r.0)
            &&& all_wf(r.1)
            &&& ids_below(r.0, n)
            &&& ids_below(r.1, n)
            &&& total_work(r.0) + total_work(r.1) <= total_work(active) + total_work(held)
            &&& (budget > 0 && active.len() > 0 ==> total_work(r.0) + total_work(r.1) < total_work(active)
                + total_work(held))
            &&& r.1.len() >= held.len()
            &&& (budget > 0 && active.len() > 0 ==> r.1.len() > held.len())
            &&& forall|id: usize| #[trigger] has_pending(active, id) ==> has_pending(r.0, id) || ids_of(r.1).contains(id)
            &&& forall|id: usize| #[trigger] ids_of(held).contains(id) ==> ids_of(r.1).contains(id)
        }),
    decreases active.len(),
{
    if budget > 0 && active.len() > 0 {
        lemma_top_index(active);
        let i = top_index(active);
        let first = active[i];
        let rest = active.remove(i);
        let amount = parallel_amount(first, rest, budget);
        let g = first.consumed(amount);
        assert(!first.is_done());
        lemma_consumed(first, amount);
        lemma_total_remove(active, i);
        lemma_total_push(held, g);
        let held2 = held.push(g);
        assert forall|k: int| 0 <= k < rest.len() implies #[trigger] rest[k] == active[if k < i { k } else { k + 1 }] by {}
        assert(all_wf(rest) && all_running(rest) && ids_below(rest, n)) by {
            assert forall|k: int| 0 <= k < rest.len() implies (#[trigger] rest[k]).wf() && !rest[k].is_done() && rest[k].id < n by {
                assert(rest[k] == active[if k < i { k } else { k + 1 }]);
            }
        }
        lemma_parallel_drain(rest, held2, (budget - amount) as nat, n);
        let r = parallel_drain(active, held, budget);
        assert(r == parallel_drain(rest, held2, (budget - amount) as nat));
        assert(ids_of(held2)[held.len() as int] == g.id);
        assert(ids_of(held2).contains(g.id));
        assert forall|id: usize| #[trigger] has_pending(active, id) implies has_pending(r.0, id) || ids_of(r.1).contains(id) by {
            let k = choose|k: int| 0 <= k < active.len() && (#[trigger] active[k]).id == id && !active[k].is_done();
            if k != i {
                let k2 = if k < i { k } else { k - 1 };
                assert(rest[k2] == active[k]);
                assert(has_pending(rest, id));
            }
        }
        assert forall|id: usize| #[trigger] ids_of(held).contains(id) implies ids_of(r.1).contains(id) by {
            let j = choose|j: int| 0 <= j < ids_of(held).len() && ids_of(held)[j] == id;
            assert(ids_of(held2)[j] == id);
            assert(ids_of(held2).contains(id));
        }
    }
}

/// The parallel policy from an admitted state: every instance well formed and
/// unfinished.
pub open spec fn parallel_state(s: Seq<GraphInstance>) -> bool {
    all_wf(s) && all_running(s)
}

proof fn lemma_total_positive(s: Seq<GraphInstance>)
    requires
        s.len() > 0,
        s.last().wf(),
        !s.last().is_done(),
    ensures
        total_work(s) > 0,
{
    s.last().lemma_work_bounds();
}

proof fn lemma_parallel_progress(capacity: nat, n: nat)
    requires
        capacity >= 1,
    ensures
        makes_progress::<ParallelExecution>(capacity, |s: Seq<GraphInstance>| parallel_state(s), n),
        forall|t: Seq<GraphInstance>| #[trigger] parallel_state(t) && t.len() > 0 ==> total_work(t) > 0,
{
    assert forall|s: Seq<GraphInstance>| parallel_state(s) && ids_below(s, n) && s.len() > 0 implies {
        let next = #[trigger] ParallelExecution::step(capacity, s);
        &&& parallel_state(next.0)
        &&& ids_below(next.0, n)
        &&& total_work(next.0) < total_work(s)
        &&& next.1.len() > 0
        &&& forall|j: int| 0 <= j < next.1.len() ==> (#[trigger] next.1[j]) < n
        &&& forall|id: usize| #[trigger] has_pending(s, id) ==> has_pending(next.0, id) || next.1.contains(id)
    } by {
        let e = Seq::<GraphInstance>::empty();
        lemma_parallel_drain(s, e, capacity, n);
        let r = parallel_drain(s, e, capacity);
        lemma_running(r.1, n);
        lemma_total_concat(r.0, running(r.1));
        let a = r.0 + running(r.1);
        assert forall|k: int| 0 <= k < a.len() implies (#[trigger] a[k]).wf() && !a[k].is_done() && a[k].id < n by {
            if k >= r.0.len() {
                assert(a[k] == running(r.1)[k - r.0.len()]);
            }
        }
        assert forall|id: usize| #[trigger] has_pending(s, id) implies has_pending(a, id) || ids_of(r.1).contains(id) by {
            if has_pending(r.0, id) {
                let k = choose|k: int| 0 <= k < r.0.len() && (#[trigger] r.0[k]).id == id && !r.0[k].is_done();
                assert(a[k] == r.0[k]);
            }
        }
        assert forall|j: int| 0 <= j < ids_of(r.1).len() implies (#[trigger] ids_of(r.1)[j]) < n by {
            assert(ids_of(r.1)[j] == r.1[j].id);
        }
    }
    assert forall|t: Seq<GraphInstance>| #[trigger] parallel_state(t) && t.len() > 0 implies total_work(t) > 0 by {
        lemma_total_positive(t);
    }
}

/// Running the parallel policy on a batch to completion gives each workload
/// of the batch, and nothing else, a completion iteration: the ids
/// `0..gs.len()` are exactly the result's keys.
pub proof fn lemma_parallel_result_keys(capacity: nat, gs: Seq<Graph>)
    requires
        capacity >= 1,
        all_graphs_wf(gs),
        total_work(instances_of(gs)) <= usize::MAX,
    ensures
        forall|k: usize|
            #[trigger] run::<ParallelExecution>(capacity, instances_of(gs), total_work(instances_of(gs)), 0, Map::empty()).contains_key(k)
                <==> k < gs.len(),
{
    lemma_instances_of(gs);
    lemma_parallel_progress(capacity, gs.len());
    let s = instances_of(gs);
    assert(ids_below(s, gs.len()));
    lemma_result_keys::<ParallelExecution>(capacity, |s: Seq<GraphInstance>| parallel_state(s), gs);
}

proof fn lemma_sequential_scan(s: Seq<GraphInstance>, i: nat, budget: nat, touched: Seq<usize>, n: nat)
    requires
        all_wf(s),
        ids_below(s, n),
        i <= s.len(),
        forall|j: int| 0 <= j < touched.len() ==> (#[trigger] touched[j]) < n,
    ensures
        ({
            let r = sequential_scan(s, i, budget, touched);
            &&& r.0.len() == s.len()
            &&& all_wf(r.0)
            &&& ids_below(r.0, n)
            &&& forall|j: int| 0 <= j < r.1.len() ==> (#[trigger] r.1[j]) < n
            &&& total_work(r.0) <= total_work(s)
            &&& (budget > 0 && i > 0 && !s[i - 1].is_done() ==> total_work(r.0) < total_work(s))
            &&& r.1.len() >= touched.len()
            &&& (budget > 0 && i > 0 && !s[i - 1].is_done() ==> r.1.len() > touched.len())
            &&& forall|k: int| i <= k < s.len() ==> #[trigger] r.0[k] == s[k]
            &&& forall|id: usize| #[trigger] has_pending(s, id) ==> has_pending(r.0, id) || r.1.contains(id)
            &&& forall|id: usize| #[trigger] touched.contains(id) ==> r.1.contains(id)
        }),
    decreases i,
{
    if i == 0 || budget == 0 {
    } else if s[i - 1].is_done() {
        lemma_sequential_scan(s, (i - 1) as nat, budget, touched, n);
    } else {
        let g = s[i - 1];
        let amount = if budget < g.current() { budget } else { g.current() };
        let g2 = g.consumed(amount);
        lemma_consumed(g, amount);
        lemma_total_update(s, i - 1, g2);
        let s2 = s.update(i - 1, g2);
        let t2 = touched.push(g.id);
        assert(t2[touched.len() as int] == g.id);
        assert(t2.contains(g.id));
        assert forall|j: int| 0 <= j < t2.len() implies (#[trigger] t2[j]) < n by {
            if j < touched.len() {
                assert(t2[j] == touched[j]);
            }
        }
        lemma_sequential_scan(s2, (i - 1) as nat, (budget - amount) as nat, t2, n);
        let r = sequential_scan(s, i, budget, touched);
        assert(r == sequential_scan(s2, (i - 1) as nat, (budget - amount) as nat, t2));
        assert forall|id: usize| #[trigger] has_pending(s, id) implies has_pending(r.0, id) || r.1.contains(id) by {
            let k = choose|k: int| 0 <= k < s.len() && (#[trigger] s[k]).id == id && !s[k].is_done();
            if k != i - 1 {
                assert(s2[k] == s[k]);
                assert(has_pending(s2, id));
            }
        }
        assert forall|id: usize| #[trigger] touched.contains(id) implies r.1.contains(id) by {
            let j = choose|j: int| 0 <= j < touched.len() && touched[j] == id;
            assert(t2[j] == id);
            assert(t2.contains(id));
        }
    }
}

proof fn lemma_trim_done(s: Seq<GraphInstance>, n: nat)
    requires
        all_wf(s),
        ids_below(s, n),
    ensures
        all_wf(trim_done(s)),
        ids_below(trim_done(s), n),
        total_work(trim_done(s)) == total_work(s),
        trim_done(s).len() > 0 ==> !trim_done(s).last().is_done(),
        forall|id: usize| #[trigger] has_pending(s, id) ==> has_pending(trim_done(s), id),
    decreases s.len(),
{
    if s.len() > 0 && s.last().is_done() {
        let p = s.drop_last();
        lemma_trim_done(p, n);
        s.last().lemma_work_bounds();
        assert forall|id: usize| #[trigger] has_pending(s, id) implies has_pending(p, id) by {
            let k = choose|k: int| 0 <= k < s.len() && (#[trigger] s[k]).id == id && !s[k].is_done();
            assert(p[k] == s[k]);
        }
    }
}

/// The sequential policy from an admitted state: every instance well formed,
/// the last one unfinished.
pub open spec fn sequential_state(s: Seq<GraphInstance>) -> bool {
    all_wf(s) && (s.len() > 0 ==> !s.last().is_done())
}

proof fn lemma_sequential_progress(capacity: nat, n: nat)
    requires
        capacity >= 1,
    ensures
        makes_progress::<SequentialExecution>(capacity, |s: Seq<GraphInstance>| sequential_state(s), n),
        forall|t: Seq<GraphInstance>| #[trigger] sequential_state(t) && t.len() > 0 ==> total_work(t) > 0,
{
    assert forall|s: Seq<GraphInstance>| sequential_state(s) && ids_below(s, n) && s.len() > 0 implies {
        let next = #[trigger] SequentialExecution::step(capacity, s);
        &&& sequential_state(next.0)
        &&& ids_below(next.0, n)
        &&& total_work(next.0) < total_work(s)
        &&& next.1.len() > 0
        &&& forall|j: int| 0 <= j < next.1.len() ==> (#[trigger] next.1[j]) < n
        &&& forall|id: usize| #[trigger] has_pending(s, id) ==> has_pending(next.0, id) || next.1.contains(id)
    } by {
        let e = Seq::<usize>::empty();
        lemma_sequential_scan(s, s.len(), capacity, e, n);
        let r = sequential_scan(s, s.len(), capacity, e);
        lemma_trim_done(r.0, n);
    }
    assert forall|t: Seq<GraphInstance>| #[trigger] sequential_state(t) && t.len() > 0 implies total_work(t) > 0 by {
        lemma_total_positive(t);
    }
}

/// Running the sequential policy on a batch to completion gives each
/// workload of the batch, and nothing else, a completion iteration: the ids
/// `0..gs.len()` are exactly the result's keys.
pub proof fn lemma_sequential_result_keys(capacity: nat, gs: Seq<Graph>)
    requires
        capacity >= 1,
        all_graphs_wf(gs),
        total_work(instances_of(gs)) <= usize::MAX,
    ensures
        forall|k: usize|
            #[trigger] run::<SequentialExecution>(capacity, instances_of(gs), total_work(instances_of(gs)), 0, Map::empty()).contains_key(k)
                <==> k < gs.len(),
{
    lemma_instances_of(gs);
    lemma_sequential_progress(capacity, gs.len());
    let s = instances_of(gs);
    assert(ids_below(s, gs.len()));
    lemma_result_keys::<SequentialExecution>(capacity, |s: Seq<GraphInstance>| sequential_state(s), gs);
}

/// A run of either policy on valid parameters gives a completion iteration to
/// each of the ids `0..graphs` and to nothing else.
pub proof fn lemma_given_result_keys(g: Given)
    requires
        g.valid(),
    ensures
        forall|k: usize| #[trigger] g.outcome::<ParallelExecution>().contains_key(k) <==> k < g.graphs,
        forall|k: usize| #[trigger] g.outcome::<SequentialExecution>().contains_key(k) <==> k < g.graphs,
{
    let gs = batch(g.graphs as nat, g.depth, g.width);
    lemma_batch(g.graphs as nat, g.depth, g.width);
    lemma_instances_of(gs);
    lemma_parallel_result_keys(g.bandwidth as nat, gs);
    lemma_sequential_result_keys(g.bandwidth as nat, gs);
}

/// Number of iterations that a run of policy `E` takes from state `s`.
pub open spec fn run_length<E: Execution>(capacity: nat, s: Seq<GraphInstance>, fuel: nat) -> nat
    decreases fuel,
{
    if fuel == 0 || s.len() == 0 {
        0
    } else {
        1 + run_length::<E>(capacity, E::step(capacity, s).0, (fuel - 1) as nat)
    }
}

proof fn lemma_record_values(m: Map<usize, usize>, ids: Seq<usize>, it: usize)
    ensures
        forall|k: usize|
            #[trigger] record(m, ids, it).contains_key(k) ==> record(m, ids, it)[k] == (if ids.contains(k) {
                it
            } else {
                m[k]
            }),
    decreases ids.len(),
{
    if ids.len() > 0 {
        lemma_record_values(m, ids.drop_last(), it);
        lemma_record_keys(m, ids.drop_last(), it);
        let r0 = record(m, ids.drop_last(), it);
        assert(record(m, ids, it) == r0.insert(ids.last(), it));
        assert forall|k: usize| #[trigger] record(m, ids, it).contains_key(k) implies record(m, ids, it)[k] == (if ids.contains(k) {
            it
        } else {
            m[k]
        }) by {
            assert(ids[ids.len() - 1] == ids.last());
            if k != ids.last() {
                assert(r0.contains_key(k));
            }
            if ids.contains(k) && k != ids.last() {
                let j = choose|j: int| 0 <= j < ids.len() && ids[j] == k;
                assert(ids.drop_last()[j] == k);
                assert(ids.drop_last().contains(k));
            }
            if ids.drop_last().contains(k) {
                let j = choose|j: int| 0 <= j < ids.len() - 1 && ids.drop_last()[j] == k;
                assert(ids[j] == k);
                assert(ids.contains(k));
            }
            if k == ids.last() {
                assert(ids.contains(k));
            }
        }
    }
}

proof fn lemma_run_values<E: Execution>(
    capacity: nat,
    inv: spec_fn(Seq<GraphInstance>) -> bool,
    n: nat,
    s: Seq<GraphInstance>,
    fuel: nat,
    done: nat,
    m: Map<usize, usize>,
)
    requires
        makes_progress::<E>(capacity, inv, n),
        forall|t: Seq<GraphInstance>| #[trigger] inv(t) && t.len() > 0 ==> total_work(t) > 0,
        inv(s),
        ids_below(s, n),
        fuel >= total_work(s),
        done + fuel <= usize::MAX,
        forall|k: usize| #[trigger] m.contains_key(k) ==> 1 <= m[k] <= done,
    ensures
        ({
            let r = run::<E>(capacity, s, fuel, done, m);
            let last = done + run_length::<E>(capacity, s, fuel);
            &&& forall|k: usize| #[trigger] r.contains_key(k) ==> 1 <= r[k] <= last
            &&& s.len() > 0 ==> exists|k: usize| #[trigger] r.contains_key(k) && r[k] == last
        }),
    decreases fuel,
{
    if s.len() > 0 {
        assert(total_work(s) > 0);
        let next = E::step(capacity, s);
        assert(inv(next.0) && total_work(next.0) < total_work(s) && next.1.len() > 0);
        let it = (done + 1) as usize;
        let m2 = record(m, next.1, it);
        lemma_record_keys(m, next.1, it);
        lemma_record_values(m, next.1, it);
        assert forall|k: usize| #[trigger] m2.contains_key(k) implies 1 <= m2[k] <= done + 1 by {}
        lemma_run_values::<E>(capacity, inv, n, next.0, (fuel - 1) as nat, done + 1, m2);
        assert(run::<E>(capacity, s, fuel, done, m) == run::<E>(capacity, next.0, (fuel - 1) as nat, done + 1, m2));
        if next.0.len() == 0 {
            let k = next.1[0];
            assert(next.1.contains(k));
            assert(m2.contains_key(k));
            assert(m2[k] == it);
            assert(it == done + 1);
            assert(run_length::<E>(capacity, next.0, (fuel - 1) as nat) == 0);
            assert(run::<E>(capacity, next.0, (fuel - 1) as nat, done + 1, m2) == m2);
        }
    }
}

/// A run of either policy on valid parameters takes some number `T` of
/// iterations; every completion iteration in the result lies in `1..=T`,
/// and, for a non-empty batch, the last iteration `T` is some workload's.
pub proof fn lemma_given_result_values(g: Given)
    requires
        g.valid(),
    ensures
        ({
            let s = instances_of(batch(g.graphs as nat, g.depth, g.width));
            let fuel = (g.graphs * g.depth * g.width) as nat;
            let t = run_length::<ParallelExecution>(g.bandwidth as nat, s, fuel);
            let r = g.outcome::<ParallelExecution>();
            &&& forall|k: usize| #[trigger] r.contains_key(k) ==> 1 <= r[k] <= t
            &&& g.graphs > 0 ==> exists|k: usize| #[trigger] r.contains_key(k) && r[k] == t
        }),
        ({
            let s = instances_of(batch(g.graphs as nat, g.depth, g.width));
            let fuel = (g.graphs * g.depth * g.width) as nat;
            let t = run_length::<SequentialExecution>(g.bandwidth as nat, s, fuel);
            let r = g.outcome::<SequentialExecution>();
            &&& forall|k: usize| #[trigger] r.contains_key(k) ==> 1 <= r[k] <= t
            &&& g.graphs > 0 ==> exists|k: usize| #[trigger] r.contains_key(k) && r[k] == t
        }),
{
    let gs = batch(g.graphs as nat, g.depth, g.width);
    let s = instances_of(gs);
    lemma_batch(g.graphs as nat, g.depth, g.width);
    lemma_instances_of(gs);
    assert(ids_below(s, gs.len()));
    let cap = g.bandwidth as nat;
    lemma_parallel_progress(cap, gs.len());
    lemma_sequential_progress(cap, gs.len());
    lemma_run_values::<ParallelExecution>(cap, |t: Seq<GraphInstance>| parallel_state(t), gs.len(), s, total_work(s), 0, Map::empty());
    lemma_run_values::<SequentialExecution>(cap, |t: Seq<GraphInstance>| sequential_state(t), gs.len(), s, total_work(s), 0, Map::empty());
    let fuel = (g.graphs * g.depth * g.width) as nat;
    assert(total_work(s) == fuel);
    assert(s.len() == g.graphs);
    assert(g.outcome::<ParallelExecution>() == run::<ParallelExecution>(cap, s, fuel, 0, Map::empty()));
    assert(g.outcome::<SequentialExecution>() == run::<SequentialExecution>(cap, s, fuel, 0, Map::empty()));
}

} // verus!
