use std::collections::HashMap;
use vstd::prelude::*;

verus! {

broadcast use vstd::std_specs::hash::group_hash_axioms;

/// Shape of a layered workload: `depth` layers of `width` cubes each.
#[derive(Debug, Clone, Copy, PartialEq, Eq, Structural)]
pub struct Graph {
    pub depth: usize,
    pub width: usize,
}

impl Graph {
    /// At least one layer of at least one cube, and a total that fits in `usize`.
    pub open spec fn wf(&self) -> bool {
        &&& self.depth >= 1
        &&& self.width >= 1
        &&& self.depth * self.width <= usize::MAX
    }

    pub open spec fn total_work(&self) -> nat {
        (self.depth * self.width) as nat
    }
}

/// A batch of `n` graphs of one shape.
pub fn graph_batch(n: usize, depth: usize, width: usize) -> (r: Vec<Graph>)
    ensures
        r@ == batch(n as nat, depth, width),
{
    let mut r: Vec<Graph> = Vec::new();
    let mut i: usize = 0;
    while i < n
        invariant
            i <= n,
            r@.len() == i,
            forall|j: int| 0 <= j < i ==> (#[trigger] r@[j]) == (Graph { depth, width }),
        decreases n - i,
    {
        r.push(Graph { depth, width });
        i = i + 1;
    }
    assert(r@ =~= batch(n as nat, depth, width));
    r
}

pub open spec fn batch(n: nat, depth: usize, width: usize) -> Seq<Graph> {
    Seq::new(n, |i: int| Graph { depth, width })
}

/// Progress of one graph during a simulation run.
#[derive(Debug, Clone, Copy, PartialEq, Eq, Structural)]
pub struct GraphInstance {
    pub id: usize,
    pub graph: Graph,
    /// Cubes left in the layer being drained; `None` once every layer is done.
    pub left_on_first_layer: Option<usize>,
    /// Layers not yet started.
    pub left_layers: usize,
}

impl GraphInstance {
    pub open spec fn wf(&self) -> bool {
        &&& self.graph.wf()
        &&& match self.left_on_first_layer {
            Some(c) => 1 <= c <= self.graph.width && self.left_layers < self.graph.depth,
            None => self.left_layers == 0,
        }
    }

    pub open spec fn is_done(&self) -> bool {
        self.left_on_first_layer is None
    }

    /// Cubes left in the current layer, 0 once finished.
    pub open spec fn current(&self) -> nat {
        match self.left_on_first_layer {
            Some(c) => c as nat,
            None => 0,
        }
    }

    /// Total cubes still to be consumed.
    pub open spec fn work(&self) -> nat {
        (self.left_layers * self.graph.width + self.current()) as nat
    }

    /// The state after `n` cubes are taken from the current layer.
    pub open spec fn consumed(self, n: nat) -> GraphInstance {
        if n < self.current() {
            GraphInstance { left_on_first_layer: Some((self.current() - n) as usize), ..self }
        } else if self.left_layers == 0 {
            GraphInstance { left_on_first_layer: None, ..self }
        } else {
            GraphInstance {
                left_on_first_layer: Some(self.graph.width),
                left_layers: (self.left_layers - 1) as usize,
                ..self
            }
        }
    }

    pub proof fn lemma_work_bounds(&self)
        requires
            self.wf(),
        ensures
            self.work() <= self.graph.total_work(),
            self.is_done() <==> self.work() == 0,
    {
        let w = self.graph.width as int;
        let l = self.left_layers as int;
        let d = self.graph.depth as int;
        assert(0 <= l * w) by (nonlinear_arith)
            requires
                l >= 0,
                w >= 0,
        ;
        if self.left_on_first_layer is Some {
            assert(l * w + w <= d * w) by (nonlinear_arith)
                requires
                    0 <= l <= d - 1,
                    w >= 0,
            ;
        } else {
            assert(l * w == 0) by (nonlinear_arith)
                requires
                    l == 0,
            ;
        }
    }

    /// The instance of `graph` with every layer still to be done.
    pub fn new(id: usize, graph: Graph) -> (r: Self)
        requires
            graph.wf(),
        ensures
            r.wf(),
            r.id == id,
            r.graph == graph,
            r.left_on_first_layer == Some(graph.width),
            r.left_layers == graph.depth - 1,
            r.work() == graph.total_work(),
    {
        let left_on_first_layer = Some(graph.width);
        let left_layers = graph.depth - 1;
        let r = GraphInstance { id, graph, left_on_first_layer, left_layers };
        proof {
            let w = r.graph.width as int;
            let d = r.graph.depth as int;
            assert((d - 1) * w + w == d * w) by (nonlinear_arith);
        }
        r
    }

    pub fn left_cubes(&self) -> (r: usize)
        requires
            self.wf(),
        ensures
            r == self.work(),
    {
        proof {
            self.lemma_work_bounds();
        }
        let cur: usize = match self.left_on_first_layer {
            Some(c) => c,
            None => 0,
        };
        self.left_layers * self.graph.width + cur
    }

    /// Takes `n` cubes from the current layer; moves on to the next layer, or
    /// finishes, when that layer becomes empty, and then returns `true`.
    pub fn remove_from_first(&mut self, n: usize) -> (r: bool)
        requires
            old(self).wf(),
            1 <= n <= old(self).current(),
        ensures
            *final(self) == old(self).consumed(n as nat),
            final(self).wf(),
            final(self).work() == old(self).work() - n,
            r == (n == old(self).current()),
    {
        let ghost w = self.graph.width as int;
        let ghost l = self.left_layers as int;
        let left_on_first: usize = match self.left_on_first_layer {
            Some(c) => c,
            None => 0,
        };
        if n < left_on_first {
            self.left_on_first_layer = Some(left_on_first - n);
            false
        } else {
            if self.left_layers == 0 {
                self.left_on_first_layer = None;
            } else {
                self.left_layers = self.left_layers - 1;
                self.left_on_first_layer = Some(self.graph.width);
                assert((l - 1) * w + w == l * w) by (nonlinear_arith);
            }
            true
        }
    }

    /// Whether `self` comes before `other` in the parallel policy's priority:
    /// more work left, or as much and a lower id.
    pub fn is_above(&self, other: &GraphInstance) -> (r: bool)
        requires
            self.wf(),
            other.wf(),
        ensures
            r == ranks_above(*self, *other),
    {
        let a = self.left_cubes();
        let b = other.left_cubes();
        a > b || (a == b && self.id < other.id)
    }
}

pub open spec fn ranks_above(a: GraphInstance, b: GraphInstance) -> bool {
    a.work() > b.work() || (a.work() == b.work() && a.id < b.id)
}

pub open spec fn min_of(a: int, b: int) -> int {
    if a <= b { a } else { b }
}

pub open spec fn max_of(a: int, b: int) -> int {
    if a >= b { a } else { b }
}

/// Work left over all instances of `s`.
pub open spec fn total_work(s: Seq<GraphInstance>) -> nat
    decreases s.len(),
{
    if s.len() == 0 {
        0
    } else {
        total_work(s.drop_last()) + s.last().work()
    }
}

pub open spec fn all_wf(s: Seq<GraphInstance>) -> bool {
    forall|i: int| 0 <= i < s.len() ==> (#[trigger] s[i]).wf()
}

pub open spec fn all_running(s: Seq<GraphInstance>) -> bool {
    forall|i: int| 0 <= i < s.len() ==> !(#[trigger] s[i]).is_done()
}

/// The instances that are not finished, in their order in `s`.
pub open spec fn running(s: Seq<GraphInstance>) -> Seq<GraphInstance>
    decreases s.len(),
{
    if s.len() == 0 {
        s
    } else if s.last().is_done() {
        running(s.drop_last())
    } else {
        running(s.drop_last()).push(s.last())
    }
}

/// Total work of every graph in a batch.
pub open spec fn batch_work(gs: Seq<Graph>) -> nat
    decreases gs.len(),
{
    if gs.len() == 0 {
        0
    } else {
        batch_work(gs.drop_last()) + gs.last().total_work()
    }
}

pub open spec fn all_graphs_wf(gs: Seq<Graph>) -> bool {
    forall|i: int| 0 <= i < gs.len() ==> (#[trigger] gs[i]).wf()
}

/// The fresh instances of a batch; each takes its position as id.
pub open spec fn instances_of(gs: Seq<Graph>) -> Seq<GraphInstance> {
    Seq::new(
        gs.len(),
        |i: int|
            GraphInstance {
                id: i as usize,
                graph: gs[i],
                left_on_first_layer: Some(gs[i].width),
                left_layers: (gs[i].depth - 1) as usize,
            },
    )
}

pub proof fn lemma_total_push(s: Seq<GraphInstance>, g: GraphInstance)
    ensures
        total_work(s.push(g)) == total_work(s) + g.work(),
{
    assert(s.push(g).drop_last() =~= s);
}

pub proof fn lemma_total_remove(s: Seq<GraphInstance>, i: int)
    requires
        0 <= i < s.len(),
    ensures
        total_work(s.remove(i)) + s[i].work() == total_work(s),
    decreases s.len(),
{
    if i == s.len() - 1 {
        assert(s.remove(i) =~= s.drop_last());
    } else {
        lemma_total_remove(s.drop_last(), i);
        assert(s.remove(i).drop_last() =~= s.drop_last().remove(i));
    }
}

pub proof fn lemma_total_update(s: Seq<GraphInstance>, i: int, g: GraphInstance)
    requires
        0 <= i < s.len(),
    ensures
        total_work(s.update(i, g)) + s[i].work() == total_work(s) + g.work(),
    decreases s.len(),
{
    if i == s.len() - 1 {
        assert(s.update(i, g).drop_last() =~= s.drop_last());
    } else {
        lemma_total_update(s.drop_last(), i, g);
        assert(s.update(i, g).drop_last() =~= s.drop_last().update(i, g));
    }
}

pub proof fn lemma_instances_of(gs: Seq<Graph>)
    requires
        all_graphs_wf(gs),
    ensures
        all_wf(instances_of(gs)),
        all_running(instances_of(gs)),
        total_work(instances_of(gs)) == batch_work(gs),
    decreases gs.len(),
{
    let s = instances_of(gs);
    assert forall|i: int| 0 <= i < s.len() implies (#[trigger] s[i]).wf() && s[i].work() == gs[i].total_work() by {
        let w = gs[i].width as int;
        let d = gs[i].depth as int;
        assert((d - 1) * w + w == d * w) by (nonlinear_arith);
        assert(0 <= (d - 1) * w) by (nonlinear_arith)
            requires
                d >= 1,
                w >= 0,
        ;
    }
    if gs.len() > 0 {
        lemma_instances_of(gs.drop_last());
        assert(s.drop_last() =~= instances_of(gs.drop_last()));
    }
}

/// Position of the instance that the parallel policy serves first: the most
/// work left, the lowest id among equals (the earliest position among
/// instances that agree on both).
pub open spec fn top_index(s: Seq<GraphInstance>) -> int
    decreases s.len(),
{
    if s.len() <= 1 {
        0
    } else {
        let j = top_index(s.drop_last());
        if ranks_above(s.last(), s[j]) {
            s.len() - 1
        } else {
            j
        }
    }
}

pub proof fn lemma_top_index(s: Seq<GraphInstance>)
    requires
        s.len() >= 1,
    ensures
        0 <= top_index(s) < s.len(),
        forall|k: int| 0 <= k < s.len() ==> s[top_index(s)].work() >= (#[trigger] s[k]).work(),
    decreases s.len(),
{
    if s.len() > 1 {
        let p = s.drop_last();
        lemma_top_index(p);
        assert forall|k: int| 0 <= k < s.len() implies s[top_index(s)].work() >= (#[trigger] s[k]).work() by {
            if k < s.len() - 1 {
                assert(p[k] == s[k]);
            }
        }
    }
}

fn find_top(v: &Vec<GraphInstance>) -> (r: usize)
    requires
        v@.len() >= 1,
        all_wf(v@),
    ensures
        r == top_index(v@),
{
    let mut best: usize = 0;
    let mut i: usize = 1;
    while i < v.len()
        invariant
            1 <= i <= v@.len(),
            all_wf(v@),
            best == top_index(v@.take(i as int)),
        decreases v@.len() - i,
    {
        proof {
            lemma_top_index(v@.take(i as int));
            assert(v@.take(i + 1).drop_last() =~= v@.take(i as int));
        }
        if v[i].is_above(&v[best]) {
            best = i;
        }
        i = i + 1;
    }
    assert(v@.take(i as int) =~= v@);
    best
}

/// Cubes that the parallel policy takes from `first`, the instance it serves,
/// with `rest` the instances still waiting and `budget` the capacity left.
pub open spec fn parallel_amount(first: GraphInstance, rest: Seq<GraphInstance>, budget: nat) -> nat {
    if rest.len() == 0 {
        min_of(budget as int, first.current() as int) as nat
    } else {
        let gap = first.work() - rest[top_index(rest)].work();
        max_of(1, min_of(min_of(budget as int, first.current() as int), gap)) as nat
    }
}

/// One iteration of the parallel policy: serves the top instance of `active`,
/// sets it aside in `held`, and goes on until the budget or `active` runs out.
/// Returns what is left of `active` and of `held`.
pub open spec fn parallel_drain(active: Seq<GraphInstance>, held: Seq<GraphInstance>, budget: nat) -> (Seq<GraphInstance>, Seq<GraphInstance>)
    decreases active.len()
    via parallel_drain_decreases
{
    if budget == 0 || active.len() == 0 {
        (active, held)
    } else {
        let i = top_index(active);
        let rest = active.remove(i);
        let amount = parallel_amount(active[i], rest, budget);
        parallel_drain(rest, held.push(active[i].consumed(amount)), (budget - amount) as nat)
    }
}

#[via_fn]
proof fn parallel_drain_decreases(active: Seq<GraphInstance>, held: Seq<GraphInstance>, budget: nat) {
    if active.len() > 0 {
        lemma_top_index(active);
    }
}

pub open spec fn ids_of(s: Seq<GraphInstance>) -> Seq<usize> {
    s.map_values(|g: GraphInstance| g.id)
}

/// `m` with each id of `ids` mapped to `iteration`.
pub open spec fn record(m: Map<usize, usize>, ids: Seq<usize>, iteration: usize) -> Map<usize, usize>
    decreases ids.len(),
{
    if ids.len() == 0 {
        m
    } else {
        record(m, ids.drop_last(), iteration).insert(ids.last(), iteration)
    }
}

/// The completion iteration of every id touched when a policy `E` with the
/// given capacity runs from state `s`, with `m` recorded over the first `done`
/// iterations. `fuel` bounds the iterations left; a run from `s` takes at most
/// `total_work(s)` of them, since each one takes at least one cube.
pub open spec fn run<E: Execution>(capacity: nat, s: Seq<GraphInstance>, fuel: nat, done: nat, m: Map<usize, usize>) -> Map<usize, usize>
    decreases fuel,
{
    if fuel == 0 || s.len() == 0 {
        m
    } else {
        let next = E::step(capacity, s);
        run::<E>(capacity, next.0, (fuel - 1) as nat, done + 1, record(m, next.1, (done + 1) as usize))
    }
}

/// The completion iteration of each workload, by id.
#[derive(Debug, PartialEq, Eq)]
pub struct ExecutionResult {
    pub iterations_per_graph: HashMap<usize, usize>,
}

impl View for ExecutionResult {
    type V = Map<usize, usize>;

    open spec fn view(&self) -> Map<usize, usize> {
        self.iterations_per_graph@
    }
}

impl ExecutionResult {
    pub fn new() -> (r: Self)
        ensures
            r@ == Map::<usize, usize>::empty(),
    {
        ExecutionResult { iterations_per_graph: HashMap::new() }
    }
}

/// A scheduling policy over a batch of graph instances.
pub trait Execution: Sized {
    spec fn wf(&self) -> bool;

    /// Cubes that one iteration may consume.
    spec fn capacity(&self) -> nat;

    /// The instances still held, in the policy's order.
    spec fn state(&self) -> Seq<GraphInstance>;

    /// The instances after one iteration from `s`, and the ids it touched.
    spec fn step(capacity: nat, s: Seq<GraphInstance>) -> (Seq<GraphInstance>, Seq<usize>);

    /// Starts a run of `graphs`, the graph at position `i` getting id `i`.
    fn new(bandwidth: usize, graphs: Vec<Graph>) -> (r: Self)
        requires
            bandwidth >= 1,
            all_graphs_wf(graphs@),
        ensures
            r.wf(),
            r.capacity() == bandwidth,
            r.state() == instances_of(graphs@),
    ;

    /// Whether no work is left.
    fn finished(&self) -> (r: bool)
        requires
            self.wf(),
        ensures
            r == (self.state().len() == 0),
            !r ==> total_work(self.state()) > 0,
    ;

    /// Runs one iteration and returns the ids it touched.
    fn iterate(&mut self) -> (r: Vec<usize>)
        requires
            old(self).wf(),
        ensures
            final(self).wf(),
            final(self).capacity() == old(self).capacity(),
            final(self).state() == Self::step(old(self).capacity(), old(self).state()).0,
            r@ == Self::step(old(self).capacity(), old(self).state()).1,
            old(self).state().len() > 0 ==> total_work(final(self).state()) < total_work(old(self).state()),
    ;
}

/// Iterates until no work is left; each id touched maps to the last
/// iteration (counted from 1) that touched it.
pub fn execute<E: Execution>(execution: E) -> (r: ExecutionResult)
    requires
        execution.wf(),
        total_work(execution.state()) <= usize::MAX,
    ensures
        r@ == run::<E>(execution.capacity(), execution.state(), total_work(execution.state()), 0, Map::empty()),
{
    let ghost cap = execution.capacity();
    let ghost s0 = execution.state();
    let ghost w0 = total_work(s0);
    let mut e = execution;
    let mut result = ExecutionResult::new();
    let mut total_iters: usize = 0;
    while !e.finished()
        invariant
            e.wf(),
            e.capacity() == cap,
            total_iters + total_work(e.state()) <= w0,
            w0 <= usize::MAX,
            run::<E>(cap, s0, w0, 0, Map::empty()) == run::<E>(
                cap,
                e.state(),
                (w0 - total_iters) as nat,
                total_iters as nat,
                result@,
            ),
        decreases total_work(e.state()),
    {
        let ghost before = e.state();
        let ghost m0 = result@;
        let touched_ids = e.iterate();
        total_iters = total_iters + 1;
        let mut j: usize = 0;
        while j < touched_ids.len()
            invariant
                j <= touched_ids@.len(),
                result@ == record(m0, touched_ids@.take(j as int), total_iters),
            decreases touched_ids@.len() - j,
        {
            proof {
                assert(touched_ids@.take(j + 1).drop_last() =~= touched_ids@.take(j as int));
            }
            result.iterations_per_graph.insert(touched_ids[j], total_iters);
            j = j + 1;
        }
        assert(touched_ids@.take(j as int) =~= touched_ids@);
    }
    result
}

/// Serves, within each iteration, the instance with the most work left, at
/// most up to the work of the runner-up, each instance at most once.
pub struct ParallelExecution {
    pub bandwidth: usize,
    pub left_instances: Vec<GraphInstance>,
}

impl Execution for ParallelExecution {
    open spec fn wf(&self) -> bool {
        &&& self.bandwidth >= 1
        &&& all_wf(self.left_instances@)
        &&& all_running(self.left_instances@)
    }

    open spec fn capacity(&self) -> nat {
        self.bandwidth as nat
    }

    open spec fn state(&self) -> Seq<GraphInstance> {
        self.left_instances@
    }

    open spec fn step(capacity: nat, s: Seq<GraphInstance>) -> (Seq<GraphInstance>, Seq<usize>) {
        let drained = parallel_drain(s, Seq::empty(), capacity);
        (drained.0 + running(drained.1), ids_of(drained.1))
    }

    fn new(bandwidth: usize, graphs: Vec<Graph>) -> (r: Self) {
        let left_instances = start_instances(&graphs);
        ParallelExecution { bandwidth, left_instances }
    }

    fn finished(&self) -> (r: bool) {
        proof {
            if self.left_instances@.len() > 0 {
                let s = self.left_instances@;
                s.last().lemma_work_bounds();
                assert(!s[s.len() - 1].is_done());
            }
        }
        self.left_instances.len() == 0
    }

    fn iterate(&mut self) -> (r: Vec<usize>) {
        let ghost s0 = self.left_instances@;
        let ghost bw = self.bandwidth as nat;
        let mut held: Vec<GraphInstance> = Vec::new();
        let mut ids: Vec<usize> = Vec::new();
        let mut ops: usize = self.bandwidth;
        while ops > 0 && self.left_instances.len() > 0
            invariant
                self.bandwidth == bw,
                bw >= 1,
                ops <= bw,
                ops == bw && s0.len() > 0 ==> self.left_instances@.len() > 0,
                all_wf(self.left_instances@),
                all_running(self.left_instances@),
                all_wf(held@),
                parallel_drain(self.left_instances@, held@, ops as nat) == parallel_drain(s0, Seq::empty(), bw),
                ids@ == ids_of(held@),
                total_work(self.left_instances@) + total_work(held@) + (bw - ops) == total_work(s0),
            decreases self.left_instances@.len(),
        {
            let ghost l = self.left_instances@;
            let ghost h = held@;
            let i = find_top(&self.left_instances);
            proof {
                lemma_top_index(l);
                lemma_total_remove(l, i as int);
            }
            let mut first = self.left_instances.remove(i);
            assert(self.left_instances@ =~= l.remove(i as int));
            let cur: usize = match first.left_on_first_layer {
                Some(c) => c,
                None => 0,
            };
            assert(!l[i as int].is_done());
            let sub: usize = if self.left_instances.len() > 0 {
                let j = find_top(&self.left_instances);
                proof {
                    lemma_top_index(self.left_instances@);
                    let k = top_index(self.left_instances@);
                    assert(self.left_instances@[k] == l[if k < i { k } else { k + 1 }]);
                }
                let gap = first.left_cubes() - self.left_instances[j].left_cubes();
                let least = if ops < cur { ops } else { cur };
                let least = if gap < least { gap } else { least };
                if least < 1 { 1 } else { least }
            } else {
                if ops < cur { ops } else { cur }
            };
            assert(sub as nat == parallel_amount(l[i as int], l.remove(i as int), ops as nat));
            first.remove_from_first(sub);
            proof {
                lemma_total_push(h, first);
                assert(ids_of(h.push(first)) =~= ids_of(h).push(first.id));
            }
            ids.push(first.id);
            held.push(first);
            ops = ops - sub;
        }
        let ghost rest = self.left_instances@;
        let ghost h = held@;
        let mut k: usize = 0;
        while k < held.len()
            invariant
                k <= h.len(),
                held@ == h,
                self.bandwidth == bw,
                bw >= 1,
                all_wf(h),
                all_wf(self.left_instances@),
                all_running(self.left_instances@),
                self.left_instances@ == rest + running(h.take(k as int)),
                total_work(self.left_instances@) == total_work(rest) + total_work(h.take(k as int)),
            decreases h.len() - k,
        {
            let g = held[k];
            proof {
                assert(h.take(k + 1).drop_last() =~= h.take(k as int));
                lemma_total_push(h.take(k as int), g);
                g.lemma_work_bounds();
            }
            if g.left_cubes() > 0 {
                proof {
                    lemma_total_push(self.left_instances@, g);
                }
                self.left_instances.push(g);
                assert(self.left_instances@ =~= rest + running(h.take(k + 1)));
            }
            k = k + 1;
        }
        assert(h.take(k as int) =~= h);
        ids
    }
}

/// One iteration of the sequential policy over the positions below `i`, from
/// the highest down: each unfinished instance gives as much of its current
/// layer as the budget allows, and the scan stops when the budget is spent.
/// A finished instance that is not the last one (only a batch of mixed shapes
/// leaves one behind) is passed over. Returns the instances and `touched`
/// with the ids served appended.
pub open spec fn sequential_scan(s: Seq<GraphInstance>, i: nat, budget: nat, touched: Seq<usize>) -> (Seq<GraphInstance>, Seq<usize>)
    decreases i,
{
    if i == 0 || budget == 0 || i > s.len() {
        (s, touched)
    } else if s[i - 1].is_done() {
        sequential_scan(s, (i - 1) as nat, budget, touched)
    } else {
        let g = s[i - 1];
        let amount = min_of(budget as int, g.current() as int) as nat;
        sequential_scan(s.update(i - 1, g.consumed(amount)), (i - 1) as nat, (budget - amount) as nat, touched.push(g.id))
    }
}

/// `s` without its finished instances at the end.
pub open spec fn trim_done(s: Seq<GraphInstance>) -> Seq<GraphInstance>
    decreases s.len(),
{
    if s.len() > 0 && s.last().is_done() {
        trim_done(s.drop_last())
    } else {
        s
    }
}

/// Serves the instances from the highest id down, each to the end of its
/// current layer, until the iteration's capacity is spent.
pub struct SequentialExecution {
    pub bandwidth: usize,
    pub left_instances: Vec<GraphInstance>,
}

impl Execution for SequentialExecution {
    open spec fn wf(&self) -> bool {
        &&& self.bandwidth >= 1
        &&& all_wf(self.left_instances@)
        &&& self.left_instances@.len() > 0 ==> !self.left_instances@.last().is_done()
    }

    open spec fn capacity(&self) -> nat {
        self.bandwidth as nat
    }

    open spec fn state(&self) -> Seq<GraphInstance> {
        self.left_instances@
    }

    open spec fn step(capacity: nat, s: Seq<GraphInstance>) -> (Seq<GraphInstance>, Seq<usize>) {
        let scanned = sequential_scan(s, s.len(), capacity, Seq::empty());
        (trim_done(scanned.0), scanned.1)
    }

    fn new(bandwidth: usize, graphs: Vec<Graph>) -> (r: Self) {
        let left_instances = start_instances(&graphs);
        SequentialExecution { bandwidth, left_instances }
    }

    fn finished(&self) -> (r: bool) {
        proof {
            let s = self.left_instances@;
            if s.len() > 0 {
                s.last().lemma_work_bounds();
                lemma_total_push(s.drop_last(), s.last());
                assert(s.drop_last().push(s.last()) =~= s);
            }
        }
        self.left_instances.len() == 0
    }

    fn iterate(&mut self) -> (r: Vec<usize>) {
        let ghost s0 = self.left_instances@;
        let ghost bw = self.bandwidth as nat;
        let mut touched: Vec<usize> = Vec::new();
        let mut left: usize = self.bandwidth;
        let mut i: usize = self.left_instances.len();
        while i > 0 && left > 0
            invariant
                self.bandwidth == bw,
                bw >= 1,
                left <= bw,
                i <= s0.len(),
                self.left_instances@.len() == s0.len(),
                i == s0.len() ==> self.left_instances@ == s0 && left == bw,
                i < s0.len() ==> left < bw,
                s0.len() > 0 ==> !s0.last().is_done(),
                all_wf(self.left_instances@),
                sequential_scan(self.left_instances@, i as nat, left as nat, touched@) == sequential_scan(s0, s0.len(), bw, Seq::empty()),
                total_work(self.left_instances@) + (bw - left) == total_work(s0),
            decreases i,
        {
            let ghost l = self.left_instances@;
            let mut g = self.left_instances[i - 1];
            match g.left_on_first_layer {
                None => {},
                Some(c) => {
                    let sub: usize = if left < c { left } else { c };
                    g.remove_from_first(sub);
                    proof {
                        lemma_total_update(l, i - 1, g);
                    }
                    self.left_instances.set(i - 1, g);
                    touched.push(g.id);
                    left = left - sub;
                },
            }
            i = i - 1;
        }
        let ghost scanned = self.left_instances@;
        while self.left_instances.len() > 0 && self.left_instances[self.left_instances.len() - 1].left_cubes() == 0
            invariant
                self.bandwidth == bw,
                bw >= 1,
                all_wf(self.left_instances@),
                trim_done(self.left_instances@) == trim_done(scanned),
                total_work(self.left_instances@) == total_work(scanned),
            decreases self.left_instances@.len(),
        {
            let ghost l = self.left_instances@;
            proof {
                l.last().lemma_work_bounds();
                lemma_total_push(l.drop_last(), l.last());
                assert(l.drop_last().push(l.last()) =~= l);
            }
            self.left_instances.pop();
        }
        proof {
            let l = self.left_instances@;
            if l.len() > 0 {
                l.last().lemma_work_bounds();
            }
        }
        touched
    }
}

/// The fresh instances of `graphs`, each with its position as id.
fn start_instances(graphs: &Vec<Graph>) -> (r: Vec<GraphInstance>)
    requires
        all_graphs_wf(graphs@),
    ensures
        r@ == instances_of(graphs@),
        all_wf(r@),
        all_running(r@),
{
    let mut r: Vec<GraphInstance> = Vec::new();
    let mut i: usize = 0;
    while i < graphs.len()
        invariant
            i <= graphs@.len(),
            all_graphs_wf(graphs@),
            r@ == instances_of(graphs@).take(i as int),
        decreases graphs@.len() - i,
    {
        r.push(GraphInstance::new(i, graphs[i]));
        assert(r@ =~= instances_of(graphs@).take(i + 1));
        i = i + 1;
    }
    proof {
        assert(r@ =~= instances_of(graphs@));
        lemma_instances_of(graphs@);
    }
    r
}

/// Parameters of one simulation: `graphs` graphs of one shape, and the
/// capacity of each iteration.
pub struct Given {
    pub graphs: usize,
    pub depth: usize,
    pub width: usize,
    pub bandwidth: usize,
}

pub fn given(graphs: usize, depth: usize, width: usize, bandwidth: usize) -> (r: Given)
    ensures
        r == (Given { graphs, depth, width, bandwidth }),
{
    Given { graphs, depth, width, bandwidth }
}

/// The map that collecting `pairs` gives: a later pair wins over an earlier
/// one with the same key.
pub open spec fn pairs_map(pairs: Seq<(usize, usize)>) -> Map<usize, usize>
    decreases pairs.len(),
{
    if pairs.len() == 0 {
        Map::empty()
    } else {
        pairs_map(pairs.drop_last()).insert(pairs.last().0, pairs.last().1)
    }
}

proof fn lemma_pairs_map_keys(pairs: Seq<(usize, usize)>, k: usize)
    requires
        pairs_map(pairs).contains_key(k),
    ensures
        exists|i: int| 0 <= i < pairs.len() && (#[trigger] pairs[i]).0 == k,
    decreases pairs.len(),
{
    if pairs.last().0 != k {
        lemma_pairs_map_keys(pairs.drop_last(), k);
        let i = choose|i: int| 0 <= i < pairs.len() - 1 && (#[trigger] pairs.drop_last()[i]).0 == k;
        assert(pairs[i] == pairs.drop_last()[i]);
    }
}

proof fn lemma_pairs_map_has(pairs: Seq<(usize, usize)>, i: int)
    requires
        0 <= i < pairs.len(),
    ensures
        pairs_map(pairs).contains_key(pairs[i].0),
    decreases pairs.len(),
{
    if i < pairs.len() - 1 {
        lemma_pairs_map_has(pairs.drop_last(), i);
    }
}

proof fn lemma_agreeing_maps(m: Map<usize, usize>, pairs: Seq<(usize, usize)>)
    requires
        m.dom().finite(),
        pairs_map(pairs).dom().finite(),
        m.len() == pairs_map(pairs).len(),
        forall|i: int|
            0 <= i < pairs.len() ==> m.contains_key((#[trigger] pairs[i]).0) && m[pairs[i].0] == pairs_map(pairs)[pairs[i].0],
    ensures
        m == pairs_map(pairs),
{
    let e = pairs_map(pairs);
    assert forall|k: usize| #[trigger] e.dom().contains(k) implies m.dom().contains(k) && m[k] == e[k] by {
        lemma_pairs_map_keys(pairs, k);
        let i = choose|i: int| 0 <= i < pairs.len() && (#[trigger] pairs[i]).0 == k;
        assert(m.contains_key(pairs[i].0));
    }
    assert(e.dom().subset_of(m.dom()));
    assert(e.dom().len() == m.dom().len());
    vstd::set_lib::lemma_subset_equality(e.dom(), m.dom());
    assert(m =~= e);
}

fn lookup(m: &HashMap<usize, usize>, k: usize) -> (r: Option<usize>)
    ensures
        r == (if m@.contains_key(k) { Some(m@[k]) } else { None::<usize> }),
{
    match m.get(&k) {
        Some(v) => Some(*v),
        None => None,
    }
}

impl Given {
    pub open spec fn valid(&self) -> bool {
        &&& self.depth >= 1
        &&& self.width >= 1
        &&& self.bandwidth >= 1
        &&& self.graphs * self.depth * self.width <= usize::MAX
    }

    /// What a run of policy `E` on these parameters gives.
    pub open spec fn outcome<E: Execution>(&self) -> Map<usize, usize> {
        run::<E>(
            self.bandwidth as nat,
            instances_of(batch(self.graphs as nat, self.depth, self.width)),
            (self.graphs * self.depth * self.width) as nat,
            0,
            Map::empty(),
        )
    }

    /// Runs policy `E` on a batch of these parameters to completion.
    pub fn execute<E: Execution>(&self) -> (r: ExecutionResult)
        requires
            self.valid(),
        ensures
            r@ == self.outcome::<E>(),
    {
        let graphs = graph_batch(self.graphs, self.depth, self.width);
        proof {
            lemma_batch(self.graphs as nat, self.depth, self.width);
            lemma_instances_of(graphs@);
        }
        let execution = E::new(self.bandwidth, graphs);
        execute(execution)
    }

    /// Whether policy `E` on these parameters gives exactly the completion
    /// iterations that `iterations_per_graph` lists.
    pub fn expect<E: Execution>(&self, iterations_per_graph: &[(usize, usize)]) -> (r: bool)
        requires
            self.valid(),
        ensures
            r == (self.outcome::<E>() == pairs_map(iterations_per_graph@)),
    {
        let result = self.execute::<E>();
        let ghost p = iterations_per_graph@;
        let mut expected: HashMap<usize, usize> = HashMap::new();
        let mut j: usize = 0;
        while j < iterations_per_graph.len()
            invariant
                j <= p.len(),
                p == iterations_per_graph@,
                expected@ == pairs_map(p.take(j as int)),
            decreases p.len() - j,
        {
            assert(p.take(j + 1).drop_last() =~= p.take(j as int));
            let (k, v) = iterations_per_graph[j];
            expected.insert(k, v);
            j = j + 1;
        }
        assert(p.take(j as int) =~= p);
        let ghost e = expected@;
        let ghost m = result@;
        let mut same = result.iterations_per_graph.len() == expected.len();
        let mut j: usize = 0;
        while j < iterations_per_graph.len()
            invariant
                j <= p.len(),
                p == iterations_per_graph@,
                e == pairs_map(p),
                expected@ == e,
                result@ == m,
                same == (m.len() == e.len() && forall|i: int|
                    0 <= i < j ==> m.contains_key((#[trigger] p[i]).0) && m[p[i].0] == e[p[i].0]),
            decreases p.len() - j,
        {
            let k = iterations_per_graph[j].0;
            proof {
                lemma_pairs_map_has(p, j as int);
            }
            let found = lookup(&result.iterations_per_graph, k);
            let wanted = lookup(&expected, k);
            let agree = match (found, wanted) {
                (Some(a), Some(b)) => a == b,
                _ => false,
            };
            same = same && agree;
            j = j + 1;
        }
        proof {
            if same {
                assert(m.len() == e.len());
                assert(forall|i: int| 0 <= i < p.len() ==> m.contains_key((#[trigger] p[i]).0) && m[p[i].0] == e[p[i].0]);
                assert(expected@.dom().finite());
                assert(result.iterations_per_graph@.dom().finite());
                lemma_agreeing_maps(m, p);
            }
            if m == e {
                assert forall|i: int| 0 <= i < p.len() implies m.contains_key((#[trigger] p[i]).0) by {
                    lemma_pairs_map_has(p, i);
                }
            }
        }
        same
    }
}

pub proof fn lemma_batch(n: nat, depth: usize, width: usize)
    requires
        depth >= 1,
        width >= 1,
        n * depth * width <= usize::MAX,
    ensures
        all_graphs_wf(batch(n, depth, width)),
        batch_work(batch(n, depth, width)) == n * depth * width,
    decreases n,
{
    let d = depth as int;
    let w = width as int;
    if n > 0 {
        assert(d * w <= n * d * w) by (nonlinear_arith)
            requires
                n >= 1,
                d >= 0,
                w >= 0,
        ;
        assert((n - 1) * d * w + d * w == n * d * w) by (nonlinear_arith);
        assert(0 <= (n - 1) * d * w) by (nonlinear_arith)
            requires
                n >= 1,
                d >= 0,
                w >= 0,
        ;
        lemma_batch((n - 1) as nat, depth, width);
        assert(batch(n, depth, width).drop_last() =~= batch((n - 1) as nat, depth, width));
    } else {
        assert(n * d * w == 0) by (nonlinear_arith)
            requires
                n == 0,
        ;
    }
}

} // verus!
