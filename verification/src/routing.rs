//! Driving a reach kernel over all time steps.
//!
//! The kernel itself — the numeric function that advances one reach by
//! one time step — is supplied by the caller as a closure over an
//! arbitrary value type. The driver owns everything around it: the
//! zero-order hold on the lateral inflow, the head-first reads of the
//! accumulated upstream inflow, and the threading of the previous
//! step's state. Its contract pins the output to a step model, for
//! every kernel the closure might implement.

use crate::buffers::InflowBuffer;
use crate::buffers::buffer_at;
use crate::network::NetworkTopology;
use crate::network::acyclic;
use crate::network::is_parent;
use crate::network::lemma_parents_finite;
use crate::network::parents_of;
use crate::scheduler::Scheduler;
use crate::scheduler::is_root;
use std::collections::HashMap;
use vstd::prelude::*;
use vstd::set_lib::lemma_len_subset;

verus! {

broadcast use vstd::std_specs::hash::group_hash_axioms;

/// One reach's time series, as handed to the result writer.
pub struct SimulationResults<V> {
    pub feature_id: i64,
    pub flow_data: Vec<V>,
    pub velocity_data: Vec<V>,
    pub depth_data: Vec<V>,
}

impl<V> SimulationResults<V> {
    pub fn new(feature_id: i64) -> (r: SimulationResults<V>)
        ensures
            r.feature_id == feature_id,
            r.flow_data@ == Seq::<V>::empty(),
            r.velocity_data@ == Seq::<V>::empty(),
            r.depth_data@ == Seq::<V>::empty(),
    {
        SimulationResults {
            feature_id,
            flow_data: Vec::new(),
            velocity_data: Vec::new(),
            depth_data: Vec::new(),
        }
    }
}

/// The closure `k` computes the pure function `pkm` on
/// `(params, qup, quc, qdp, ql, depth_prev)`.
pub open spec fn kernel_models_params<P, V, K: Fn(P, V, V, V, V, V) -> (V, V, V)>(
    k: K,
    pkm: spec_fn(P, V, V, V, V, V) -> (V, V, V),
) -> bool {
    forall|a: (P, V, V, V, V, V), out: (V, V, V)| #[trigger]
        call_ensures(k, a, out) ==> out == pkm(a.0, a.1, a.2, a.3, a.4, a.5)
}

/// The parameterized kernel, fixed to one reach's geometry.
pub open spec fn applied_kernel<P, V>(
    pkm: spec_fn(P, V, V, V, V, V) -> (V, V, V),
    p: P,
) -> spec_fn(V, V, V, V, V) -> (V, V, V) {
    |a: V, b: V, c: V, d: V, e: V| pkm(p, a, b, c, d, e)
}

/// How many internal steps each lateral-inflow value covers.
pub open spec fn upsample_factor(max_timesteps: int, lateral_len: int) -> int {
    if lateral_len == 0 {
        1
    } else {
        max_timesteps / lateral_len
    }
}

/// The lateral inflow at step `t`: a zero-order hold over the loaded
/// series, the last value holding to the end; zero when no series was
/// loaded.
pub open spec fn lateral_at<V>(lateral: Seq<V>, up: int, zero: V, t: int) -> V {
    if lateral.len() == 0 {
        zero
    } else if t / up < lateral.len() {
        lateral[t / up]
    } else {
        lateral[lateral.len() - 1]
    }
}

/// The kernel state carried into step `t`:
/// `(qup, qdp, depth_prev)`, all zero before the first step.
pub open spec fn route_state<V>(
    inflow: Seq<V>,
    lateral: Seq<V>,
    up: int,
    zero: V,
    km: spec_fn(V, V, V, V, V) -> (V, V, V),
    t: int,
) -> (V, V, V)
    decreases t,
{
    if t <= 0 {
        (zero, zero, zero)
    } else {
        let prev = route_state(inflow, lateral, up, zero, km, t - 1);
        let quc = buffer_at(inflow, t - 1, zero);
        let out = km(prev.0, quc, prev.1, lateral_at(lateral, up, zero, t - 1), prev.2);
        (quc, out.0, out.2)
    }
}

/// What the kernel returns at step `t`: `(qdc, velocity, depth)`.
pub open spec fn step_output<V>(
    inflow: Seq<V>,
    lateral: Seq<V>,
    up: int,
    zero: V,
    km: spec_fn(V, V, V, V, V) -> (V, V, V),
    t: int,
) -> (V, V, V) {
    let st = route_state(inflow, lateral, up, zero, km, t);
    km(st.0, buffer_at(inflow, t, zero), st.1, lateral_at(lateral, up, zero, t), st.2)
}

/// Run the kernel over every time step of one reach.
///
/// Per step the kernel sees the reach's geometry, the previous step's
/// upstream discharge, the current upstream discharge (the inflow
/// buffer read at the step, missing entries as zero), the previous
/// downstream discharge, the zero-order-held lateral inflow, and the
/// previous depth. For every pure function the kernel closure
/// implements, the three output series equal the step model.
pub fn process_node_all_timesteps<V: Copy, P: Copy, K: Fn(P, V, V, V, V, V) -> (V, V, V)>(
    feature_id: i64,
    params: P,
    inflow: &InflowBuffer<V>,
    lateral: &Vec<V>,
    max_timesteps: usize,
    zero: V,
    kernel: &K,
) -> (results: SimulationResults<V>)
    requires
        forall|a: (P, V, V, V, V, V)| #[trigger] call_requires(*kernel, a),
        lateral@.len() <= max_timesteps,
    ensures
        results.feature_id == feature_id,
        results.flow_data@.len() == max_timesteps,
        results.velocity_data@.len() == max_timesteps,
        results.depth_data@.len() == max_timesteps,
        forall|pkm: spec_fn(P, V, V, V, V, V) -> (V, V, V)| #[trigger]
            kernel_models_params(*kernel, pkm) ==> forall|t: int|
                0 <= t < max_timesteps ==> {
                    let out = step_output(
                        inflow.values@,
                        lateral@,
                        upsample_factor(max_timesteps as int, lateral@.len() as int),
                        zero,
                        applied_kernel(pkm, params),
                        t,
                    );
                    &&& #[trigger] results.flow_data@[t] == out.0
                    &&& results.velocity_data@[t] == out.1
                    &&& results.depth_data@[t] == out.2
                },
{
    let ghost up_spec = upsample_factor(max_timesteps as int, lateral@.len() as int);
    let mut results = SimulationResults::new(feature_id);
    let lat_len = lateral.len();
    let upsampling: usize = if lat_len == 0 {
        1
    } else {
        max_timesteps / lat_len
    };
    proof {
        assert(upsampling == up_spec);
        if lat_len > 0 {
            assert(upsampling >= 1) by (nonlinear_arith)
                requires
                    upsampling == max_timesteps as int / lat_len as int,
                    1 <= lat_len <= max_timesteps,
            ;
        }
    }

    let mut qup = zero;
    let mut qdp = zero;
    let mut depth_p = zero;
    let mut t: usize = 0;
    while t < max_timesteps
        invariant
            0 <= t <= max_timesteps,
            lat_len == lateral@.len(),
            lat_len <= max_timesteps,
            upsampling == up_spec,
            upsampling >= 1,
            results.feature_id == feature_id,
            results.flow_data@.len() == t,
            results.velocity_data@.len() == t,
            results.depth_data@.len() == t,
            forall|a: (P, V, V, V, V, V)| #[trigger] call_requires(*kernel, a),
            forall|pkm: spec_fn(P, V, V, V, V, V) -> (V, V, V)| #[trigger]
                kernel_models_params(*kernel, pkm) ==> (qup, qdp, depth_p) == route_state(
                    inflow.values@,
                    lateral@,
                    up_spec,
                    zero,
                    applied_kernel(pkm, params),
                    t as int,
                ),
            forall|pkm: spec_fn(P, V, V, V, V, V) -> (V, V, V)| #[trigger]
                kernel_models_params(*kernel, pkm) ==> forall|j: int|
                    0 <= j < t ==> {
                        let out = step_output(
                            inflow.values@,
                            lateral@,
                            up_spec,
                            zero,
                            applied_kernel(pkm, params),
                            j,
                        );
                        &&& #[trigger] results.flow_data@[j] == out.0
                        &&& results.velocity_data@[j] == out.1
                        &&& results.depth_data@[j] == out.2
                    },
        decreases max_timesteps - t,
    {
        let quc = inflow.get(t, zero);
        let external_flow = if lat_len == 0 {
            zero
        } else {
            let mut idx = t / upsampling;
            if idx >= lat_len {
                idx = lat_len - 1;
            }
            lateral[idx]
        };
        proof {
            assert(external_flow == lateral_at(lateral@, up_spec, zero, t as int));
        }
        let out = kernel(params, qup, quc, qdp, external_flow, depth_p);
        let (qdc, velc, depthc) = out;
        results.flow_data.push(qdc);
        results.velocity_data.push(velc);
        results.depth_data.push(depthc);
        proof {
            assert forall|pkm: spec_fn(P, V, V, V, V, V) -> (V, V, V)| #[trigger]
                kernel_models_params(*kernel, pkm) implies (quc, qdc, depthc) == route_state(
                inflow.values@,
                lateral@,
                up_spec,
                zero,
                applied_kernel(pkm, params),
                t as int + 1,
            ) && (qdc, velc, depthc) == step_output(
                inflow.values@,
                lateral@,
                up_spec,
                zero,
                applied_kernel(pkm, params),
                t as int,
            ) by {
                let km = applied_kernel(pkm, params);
                assert(call_ensures(
                    *kernel,
                    (params, qup, quc, qdp, external_flow, depth_p),
                    out,
                ));
                assert(out == pkm(params, qup, quc, qdp, external_flow, depth_p));
                assert(km(qup, quc, qdp, external_flow, depth_p) == pkm(
                    params,
                    qup,
                    quc,
                    qdp,
                    external_flow,
                    depth_p,
                ));
                assert((qup, qdp, depth_p) == route_state(
                    inflow.values@,
                    lateral@,
                    up_spec,
                    zero,
                    km,
                    t as int,
                ));
            }
        }
        qup = quc;
        qdp = qdc;
        depth_p = depthc;
        t += 1;
    }
    results
}

/// The reaches of `order` that have channel parameters, in order.
pub open spec fn with_params(order: Seq<u32>, params: Set<u32>) -> Seq<u32> {
    order.filter(|v: u32| params.contains(v))
}

/// The closure `f` computes the pure function `sm`.
pub open spec fn combine_models<V, F: Fn(V, V) -> V>(f: F, sm: spec_fn(V, V) -> V) -> bool {
    forall|a: (V, V), out: V| #[trigger] call_ensures(f, a, out) ==> out == sm(a.0, a.1)
}

/// The lateral-inflow series of a reach; missing means none was loaded.
pub open spec fn lateral_of<V>(laterals: Map<u32, Vec<V>>, v: u32) -> Seq<V> {
    if laterals.contains_key(v) {
        laterals[v]@
    } else {
        Seq::empty()
    }
}

/// The parents of `v` that produced output, in completion order, each
/// replaced by its discharge series.
pub open spec fn parent_series<V>(
    m: Map<u32, crate::network::NetworkNode>,
    completed: Seq<u32>,
    params: Set<u32>,
    flows: Map<u32, Seq<V>>,
    v: u32,
) -> Seq<Seq<V>> {
    completed.filter(|p: u32| is_parent(m, p, v) && params.contains(p)).map_values(
        |p: u32| flows[p],
    )
}

/// The positional, zero-seeded sum of the series at step `t`, taken in
/// order.
pub open spec fn fold_inflow<V>(series: Seq<Seq<V>>, t: int, zero: V, sm: spec_fn(V, V) -> V) -> V
    decreases series.len(),
{
    if series.len() == 0 {
        zero
    } else {
        sm(fold_inflow(series.drop_last(), t, zero, sm), buffer_at(series.last(), t, zero))
    }
}

/// A dry reach stays dry: when the kernel maps all-zero inputs to
/// all-zero outputs, a reach with an all-zero upstream inflow and an
/// all-zero (or missing) lateral series produces zero discharge,
/// velocity and depth at every step.
pub proof fn lemma_dry_reach_all_zero<V>(
    inflow: Seq<V>,
    lateral: Seq<V>,
    up: int,
    zero: V,
    km: spec_fn(V, V, V, V, V) -> (V, V, V),
    t: int,
)
    requires
        km(zero, zero, zero, zero, zero) == (zero, zero, zero),
        forall|j: int| 0 <= j < inflow.len() ==> inflow[j] == zero,
        forall|j: int| 0 <= j < lateral.len() ==> lateral[j] == zero,
        up >= 1,
        0 <= t,
    ensures
        route_state(inflow, lateral, up, zero, km, t) == (zero, zero, zero),
        step_output(inflow, lateral, up, zero, km, t) == (zero, zero, zero),
    decreases t,
{
    assert(lateral_at(lateral, up, zero, t) == zero) by {
        if lateral.len() > 0 {
            assert(t / up >= 0) by (nonlinear_arith)
                requires
                    t >= 0,
                    up >= 1,
            ;
        }
    }
    assert(buffer_at(inflow, t, zero) == zero);
    if t > 0 {
        lemma_dry_reach_all_zero(inflow, lateral, up, zero, km, t - 1);
        assert(lateral_at(lateral, up, zero, t - 1) == zero) by {
            if lateral.len() > 0 {
                assert((t - 1) / up >= 0) by (nonlinear_arith)
                    requires
                        t - 1 >= 0,
                        up >= 1,
                ;
            }
        }
        assert(buffer_at(inflow, t - 1, zero) == zero);
    }
}

/// The step model reads the inflow only through its per-step value:
/// two inflow series with equal reads give identical output. With the
/// engine's guarantee that a parentless reach consumes an empty buffer,
/// a reach fed by lateral inflow alone computes the same series no
/// matter when its siblings run.
pub proof fn lemma_step_output_reads<V>(
    inflow1: Seq<V>,
    inflow2: Seq<V>,
    lateral: Seq<V>,
    up: int,
    zero: V,
    km: spec_fn(V, V, V, V, V) -> (V, V, V),
    t: int,
)
    requires
        forall|j: int| #[trigger] buffer_at(inflow1, j, zero) == buffer_at(inflow2, j, zero),
        0 <= t,
    ensures
        route_state(inflow1, lateral, up, zero, km, t) == route_state(
            inflow2,
            lateral,
            up,
            zero,
            km,
            t,
        ),
        step_output(inflow1, lateral, up, zero, km, t) == step_output(
            inflow2,
            lateral,
            up,
            zero,
            km,
            t,
        ),
    decreases t,
{
    if t > 0 {
        lemma_step_output_reads(inflow1, inflow2, lateral, up, zero, km, t - 1);
    }
}

/// An empty inflow buffer reads as zero at every step.
pub proof fn lemma_empty_inflow_reads_zero<V>(inflow: Seq<V>, zero: V, t: int)
    requires
        inflow.len() == 0,
    ensures
        buffer_at(inflow, t, zero) == zero,
{
}

proof fn lemma_with_params_push(s: Seq<u32>, params: Set<u32>, x: u32)
    ensures
        with_params(s.push(x), params) == if params.contains(x) {
            with_params(s, params).push(x)
        } else {
            with_params(s, params)
        },
{
    reveal(Seq::filter);
    assert(s.push(x).drop_last() =~= s);
    assert(s.push(x).last() == x);
}

proof fn lemma_parent_series_push<V>(
    m: Map<u32, crate::network::NetworkNode>,
    completed: Seq<u32>,
    params: Set<u32>,
    flows: Map<u32, Seq<V>>,
    v: u32,
    x: u32,
)
    ensures
        parent_series(m, completed.push(x), params, flows, v) == if is_parent(m, x, v)
            && params.contains(x) {
            parent_series(m, completed, params, flows, v).push(flows[x])
        } else {
            parent_series(m, completed, params, flows, v)
        },
{
    reveal(Seq::filter);
    assert(completed.push(x).drop_last() =~= completed);
    assert(completed.push(x).last() == x);
    let pred = |p: u32| is_parent(m, p, v) && params.contains(p);
    let f = |p: u32| flows[p];
    if pred(x) {
        assert(completed.push(x).filter(pred) == completed.filter(pred).push(x));
        assert(completed.filter(pred).push(x).map_values(f) =~= completed.filter(pred).map_values(
            f,
        ).push(flows[x]));
    }
}

/// Adding the series of a reach that has not completed leaves every
/// completed reach's parent series unchanged.
proof fn lemma_parent_series_fresh<V>(
    m: Map<u32, crate::network::NetworkNode>,
    completed: Seq<u32>,
    params: Set<u32>,
    flows: Map<u32, Seq<V>>,
    v: u32,
    x: u32,
    s: Seq<V>,
)
    requires
        !completed.contains(x),
    ensures
        parent_series(m, completed, params, flows.insert(x, s), v) == parent_series(
            m,
            completed,
            params,
            flows,
            v,
        ),
{
    broadcast use Seq::lemma_filter_contains_rev;

    let pred = |p: u32| is_parent(m, p, v) && params.contains(p);
    let filtered = completed.filter(pred);
    let f1 = |p: u32| flows.insert(x, s)[p];
    let f2 = |p: u32| flows[p];
    assert(filtered.map_values(f1) =~= filtered.map_values(f2)) by {
        assert forall|i: int| 0 <= i < filtered.len() implies f1(filtered[i]) == f2(
            filtered[i],
        ) by {
            assert(filtered.contains(filtered[i]));
            assert(completed.contains(filtered[i]));
            assert(filtered[i] != x);
        }
    }
}

/// What one reach's buffer holds: nothing before the first parent
/// contribution.
pub open spec fn buffer_contents<V>(bufs: Map<u32, InflowBuffer<V>>, v: u32) -> Seq<V> {
    if bufs.contains_key(v) {
        bufs[v].values@
    } else {
        Seq::empty()
    }
}

/// Route the whole network, one reach at a time, in dependency order.
///
/// Every reach runs exactly once, after all of its parents; a reach
/// without channel parameters is skipped and contributes nothing
/// downstream. One result block is emitted per routed reach, in
/// completion order. Each routed reach's output follows the step model
/// on the inflow its buffer had accumulated; that inflow is the
/// positional sum of its routed parents' discharge series, in
/// completion order, and is all zero for a reach without parents.
#[verifier::rlimit(100)]
pub fn process_routing<
    V: Copy,
    P: Copy,
    K: Fn(P, V, V, V, V, V) -> (V, V, V),
    F: Fn(V, V) -> V,
>(
    topology: &NetworkTopology,
    channel_params: &HashMap<u32, P>,
    laterals: &HashMap<u32, Vec<V>>,
    max_timesteps: usize,
    zero: V,
    kernel: &K,
    combine: &F,
) -> (out: (
    Vec<SimulationResults<V>>,
    Vec<u32>,
    Ghost<Map<u32, Seq<V>>>,
    Ghost<Map<u32, Seq<V>>>,
))
    requires
        topology.wf(),
        topology.upstreams_built(),
        topology.order_valid(),
        acyclic(topology.nodes@),
        forall|a: (P, V, V, V, V, V)| #[trigger] call_requires(*kernel, a),
        forall|a: (V, V)| #[trigger] call_requires(*combine, a),
        forall|id: u32| #[trigger]
            laterals@.contains_key(id) ==> laterals@[id]@.len() <= max_timesteps,
    ensures
        ({
            let results = out.0@;
            let completed = out.1@;
            let inflows = out.2@;
            let flows = out.3@;
            let m = topology.nodes@;
            let pset = channel_params@.dom();
            &&& completed.no_duplicates()
            &&& completed.to_set() == m.dom()
            &&& crate::network::parents_before(m, completed)
            &&& results.len() == with_params(completed, pset).len()
            &&& forall|v: u32|
                #![trigger inflows.contains_key(v)]
                #![trigger flows.contains_key(v)]
                (inflows.contains_key(v) <==> (m.contains_key(v) && pset.contains(v)))
                    && (flows.contains_key(v) <==> (m.contains_key(v) && pset.contains(v)))
            &&& forall|v: u32| #[trigger]
                inflows.contains_key(v) && is_root(m, v) ==> inflows[v] == Seq::<V>::empty()
            &&& forall|i: int|
                0 <= i < results.len() ==> {
                    let v = with_params(completed, pset)[i];
                    &&& (#[trigger] results[i]).feature_id == v as i64
                    &&& results[i].flow_data@.len() == max_timesteps
                    &&& results[i].velocity_data@.len() == max_timesteps
                    &&& results[i].depth_data@.len() == max_timesteps
                    &&& inflows.contains_key(v)
                    &&& flows.contains_key(v)
                    &&& flows[v] == results[i].flow_data@
                }
            &&& forall|i: int|
                #![trigger with_params(completed, pset)[i]]
                0 <= i < results.len() ==> {
                    let v = with_params(completed, pset)[i];
                    forall|pkm: spec_fn(P, V, V, V, V, V) -> (V, V, V)| #[trigger]
                        kernel_models_params(*kernel, pkm) ==> forall|t: int|
                            0 <= t < max_timesteps ==> {
                                let km = applied_kernel(pkm, channel_params@[v]);
                                let lat = lateral_of(laterals@, v);
                                let o = step_output(
                                    inflows[v],
                                    lat,
                                    upsample_factor(max_timesteps as int, lat.len() as int),
                                    zero,
                                    km,
                                    t,
                                );
                                &&& (#[trigger] results[i].flow_data@[t]) == o.0
                                &&& results[i].velocity_data@[t] == o.1
                                &&& results[i].depth_data@[t] == o.2
                            }
                }
            &&& forall|sm: spec_fn(V, V) -> V| #[trigger]
                combine_models(*combine, sm) ==> forall|v: u32, t: int|
                    #![trigger buffer_at(inflows[v], t, zero)]
                    inflows.contains_key(v) && 0 <= t < max_timesteps ==> buffer_at(
                        inflows[v],
                        t,
                        zero,
                    ) == fold_inflow(parent_series(m, completed, pset, flows, v), t, zero, sm)
        }),
{
    let ghost m = topology.nodes@;
    let ghost pset = channel_params@.dom();
    let ghost tt = max_timesteps as int;

    let mut sched = Scheduler::new(topology, 1);
    let mut buffers: HashMap<u32, InflowBuffer<V>> = HashMap::new();
    let mut results: Vec<SimulationResults<V>> = Vec::new();
    let mut order_done: Vec<u32> = Vec::new();
    let ghost mut inflows: Map<u32, Seq<V>> = Map::empty();
    let ghost mut flows: Map<u32, Seq<V>> = Map::empty();
    let empty_lateral: Vec<V> = Vec::new();

    proof {
        assert(sched.completed@.to_set() =~= Set::<u32>::empty());
        assert(with_params(Seq::<u32>::empty(), pset) =~= Seq::<u32>::empty()) by {
            reveal(Seq::filter);
        }
        assert forall|d: u32| #[trigger]
            m.contains_key(d) && !sched.completed@.contains(d) implies parent_series(
            m,
            sched.completed@,
            pset,
            flows,
            d,
        ).len() == 0 && buffer_contents(buffers@, d).len() == 0 by {
            assert(sched.completed@.filter(
                |p: u32| is_parent(m, p, d) && pset.contains(p),
            ) =~= Seq::<u32>::empty()) by {
                reveal(Seq::filter);
            }
        }
    }

    while !sched.is_done()
        invariant
            topology.wf(),
            topology.upstreams_built(),
            topology.order_valid(),
            acyclic(m),
            m == topology.nodes@,
            pset == channel_params@.dom(),
            tt == max_timesteps as int,
            forall|a: (P, V, V, V, V, V)| #[trigger] call_requires(*kernel, a),
            forall|a: (V, V)| #[trigger] call_requires(*combine, a),
            forall|id: u32| #[trigger]
                laterals@.contains_key(id) ==> laterals@[id]@.len() <= max_timesteps,
            empty_lateral@ == Seq::<V>::empty(),
            sched.wf(),
            sched.topo@ == m,
            sched.total == m.dom().len(),
            sched.dispatched@ == sched.completed@.to_set(),
            order_done@ == sched.completed@,
            crate::network::parents_before(m, sched.completed@),
            results@.len() == with_params(sched.completed@, pset).len(),
            forall|v: u32|
                #![trigger inflows.contains_key(v)]
                (inflows.contains_key(v) <==> (sched.completed@.contains(v) && pset.contains(v))),
            forall|v: u32|
                #![trigger flows.contains_key(v)]
                (flows.contains_key(v) <==> (sched.completed@.contains(v) && pset.contains(v))),
            forall|v: u32| #[trigger]
                inflows.contains_key(v) && is_root(m, v) ==> inflows[v] == Seq::<V>::empty(),
            forall|i: int|
                0 <= i < results@.len() ==> {
                    let v = with_params(sched.completed@, pset)[i];
                    &&& (#[trigger] results@[i]).feature_id == v as i64
                    &&& results@[i].flow_data@.len() == max_timesteps
                    &&& results@[i].velocity_data@.len() == max_timesteps
                    &&& results@[i].depth_data@.len() == max_timesteps
                    &&& inflows.contains_key(v)
                    &&& flows.contains_key(v)
                    &&& flows[v] == results@[i].flow_data@
                },
            forall|i: int|
                #![trigger with_params(sched.completed@, pset)[i]]
                0 <= i < results@.len() ==> {
                    let v = with_params(sched.completed@, pset)[i];
                    forall|pkm: spec_fn(P, V, V, V, V, V) -> (V, V, V)| #[trigger]
                        kernel_models_params(*kernel, pkm) ==> forall|t: int|
                            0 <= t < max_timesteps ==> {
                                let km = applied_kernel(pkm, channel_params@[v]);
                                let lat = lateral_of(laterals@, v);
                                let o = step_output(
                                    inflows[v],
                                    lat,
                                    upsample_factor(max_timesteps as int, lat.len() as int),
                                    zero,
                                    km,
                                    t,
                                );
                                &&& (#[trigger] results@[i].flow_data@[t]) == o.0
                                &&& results@[i].velocity_data@[t] == o.1
                                &&& results@[i].depth_data@[t] == o.2
                            }
                },
            forall|sm: spec_fn(V, V) -> V| #[trigger]
                combine_models(*combine, sm) ==> forall|v: u32, t: int|
                    #![trigger buffer_at(inflows[v], t, zero)]
                    inflows.contains_key(v) && 0 <= t < max_timesteps ==> buffer_at(
                        inflows[v],
                        t,
                        zero,
                    ) == fold_inflow(
                        parent_series(m, sched.completed@, pset, flows, v),
                        t,
                        zero,
                        sm,
                    ),
            forall|d: u32| #[trigger]
                m.contains_key(d) && !sched.completed@.contains(d) ==> buffer_contents(
                    buffers@,
                    d,
                ).len() == (if parent_series(m, sched.completed@, pset, flows, d).len() == 0 {
                    0int
                } else {
                    tt
                }),
            forall|sm: spec_fn(V, V) -> V| #[trigger]
                combine_models(*combine, sm) ==> forall|d: u32, t: int|
                    #![trigger buffer_at(buffer_contents(buffers@, d), t, zero), m.contains_key(d)]
                    m.contains_key(d) && !sched.completed@.contains(d) && 0 <= t < max_timesteps
                        ==> buffer_at(buffer_contents(buffers@, d), t, zero) == fold_inflow(
                        parent_series(m, sched.completed@, pset, flows, d),
                        t,
                        zero,
                        sm,
                    ),
        decreases sched.total - sched.completed@.len(),
    {
        proof {
            sched.completed@.unique_seq_to_set();
            lemma_len_subset(sched.completed@.to_set(), m.dom());
        }
        let picked = sched.next_node();
        let (v, _w) = match picked {
            Some(pair) => pair,
            None => {
                proof {
                    // An incomplete network with an empty ready queue
                    // would have a cycle.
                    let cset = sched.completed@.to_set();
                    let u = m.dom().difference(cset);
                    assert(exists|w: u32| u.contains(w)) by {
                        if !(exists|w: u32| u.contains(w)) {
                            assert forall|x: u32| #[trigger]
                                m.dom().contains(x) implies cset.contains(x) by {
                                assert(!u.contains(x));
                            }
                            assert(cset =~= m.dom());
                            assert(false);
                        }
                    }
                    assert forall|w: u32| #[trigger] u.contains(w) implies crate::network::has_parent_in(
                        m,
                        u,
                        w,
                    ) by {
                        assert(m.contains_key(w));
                        assert(!sched.ready@.contains(w)) by {
                            if sched.ready@.contains(w) {
                                let i = choose|i: int|
                                    0 <= i < sched.ready@.len() && sched.ready@[i] == w;
                                assert(false);
                            }
                        }
                        assert(!sched.dispatched@.contains(w));
                        assert(sched.pending@.contains_key(w));
                        assert(sched.pending@[w] >= 1);
                        let rem = crate::network::remaining_parents(m, w, cset);
                        lemma_parents_finite(m, w);
                        lemma_len_subset(rem, parents_of(m, w));
                        assert(exists|q: u32| rem.contains(q)) by {
                            if !(exists|q: u32| rem.contains(q)) {
                                assert(rem =~= Set::<u32>::empty());
                                assert(false);
                            }
                        }
                        let q = choose|q: u32| rem.contains(q);
                        assert(is_parent(m, q, w) && !cset.contains(q));
                        assert(m.dom().contains(q));
                        assert(u.contains(q));
                    }
                    assert(u.subset_of(m.dom()));
                    let w0 = choose|w: u32| u.contains(w) && !crate::network::has_parent_in(m, u, w);
                    assert(crate::network::has_parent_in(m, u, w0));
                    assert(false);
                }
                (0, 0)
            },
        };
        let ghost comp_entry = sched.completed@;
        let ghost flows_entry = flows;
        let ghost inflows_entry = inflows;
        let ghost buffers_entry = buffers@;
        let ghost results_entry = results@;
        let ghost mut accumulated: Option<u32> = None;
        let ghost mut new_inflow: Seq<V> = Seq::empty();
        let ghost mut new_flow: Seq<V> = Seq::empty();
        let ghost mut acc_base: Seq<V> = Seq::empty();
        let ghost mut acc_result: Seq<V> = Seq::empty();
        proof {
            assert(!comp_entry.contains(v));
            assert(parents_of(m, v).subset_of(comp_entry.to_set()));
            assert forall|w: u32| #[trigger] comp_entry.to_set().contains(w) implies parents_of(
                m,
                w,
            ).subset_of(comp_entry.to_set()) by {
                assert(sched.completed@.contains(w));
                assert(sched.dispatched@.contains(w));
            }
            assert forall|w: u32| #[trigger] comp_entry.to_set().contains(w) implies !is_parent(
                m,
                v,
                w,
            ) by {
                if is_parent(m, v, w) {
                    assert(parents_of(m, w).contains(v));
                    assert(comp_entry.to_set().contains(v));
                }
            }
            if is_parent(m, v, v) {
                assert(parents_of(m, v).contains(v));
                assert(comp_entry.to_set().contains(v));
                assert(false);
            }
        }

        let p_opt = match channel_params.get(&v) {
            Some(p) => Some(*p),
            None => None,
        };
        if let Some(p) = p_opt {
            proof {
                assert(pset.contains(v));
            }
            let lat: &Vec<V> = match laterals.get(&v) {
                Some(l) => l,
                None => &empty_lateral,
            };
            proof {
                assert(lat@ == lateral_of(laterals@, v));
                assert(lat@.len() <= max_timesteps);
            }
            let buf = match buffers.remove(&v) {
                Some(b) => b,
                None => InflowBuffer::new(),
            };
            proof {
                assert(buf.values@ == buffer_contents(buffers_entry, v));
                assert(buffers@ == buffers_entry.remove(v));
            }
            let res = process_node_all_timesteps(
                v as i64,
                p,
                &buf,
                lat,
                max_timesteps,
                zero,
                kernel,
            );
            // Pass this reach's discharge into its downstream buffer.
            let down = match topology.nodes.get(&v) {
                Some(node) => node.downstream_id,
                None => None,
            };
            proof {
                assert(down == m[v].downstream_id);
            }
            if let Some(d) = down {
                if topology.nodes.contains_key(&d) {
                    proof {
                        assert(m.contains_key(d));
                        assert(is_parent(m, v, d));
                        // v's downstream cannot have completed: v is one
                        // of its parents and only now completes.
                        if comp_entry.contains(d) {
                            assert(comp_entry.to_set().contains(d));
                            assert(false);
                        }
                        assert(d != v);
                    }
                    let mut dbuf = match buffers.remove(&d) {
                        Some(b) => b,
                        None => InflowBuffer::new(),
                    };
                    proof {
                        assert(dbuf.values@ == buffer_contents(buffers_entry, d));
                        acc_base = dbuf.values@;
                    }
                    dbuf.accumulate(&res.flow_data, zero, combine);
                    proof {
                        acc_result = dbuf.values@;
                    }
                    buffers.insert(d, dbuf);
                    proof {
                        accumulated = Some(d);
                        assert(buffer_contents(buffers@, d) == acc_result);
                        assert(buffers@ == buffers_entry.remove(v).remove(d).insert(
                            d,
                            buffers@[d],
                        ));
                    }
                }
            }
            let ghost res_snap = res;
            proof {
                new_inflow = buf.values@;
                new_flow = res.flow_data@;
                inflows = inflows.insert(v, new_inflow);
                flows = flows.insert(v, new_flow);
            }
            results.push(res);
            proof {
                // The freshly routed reach satisfies its own block's
                // contract, independent of where it lands in the order.
                let i = results@.len() - 1;
                assert(results@ == results_entry.push(res_snap));
                assert(results@[i] == res_snap);
                assert(channel_params@[v] == p);
                assert(inflows[v] == new_inflow);
                assert(flows[v] == new_flow);
                assert(results@[i].feature_id == v as i64);
                assert(results@[i].flow_data@.len() == max_timesteps);
                assert(results@[i].velocity_data@.len() == max_timesteps);
                assert(results@[i].depth_data@.len() == max_timesteps);
                assert(flows[v] == results@[i].flow_data@);
                assert forall|pkm: spec_fn(P, V, V, V, V, V) -> (V, V, V)| #[trigger]
                    kernel_models_params(*kernel, pkm) implies forall|t: int|
                    0 <= t < max_timesteps ==> {
                        let km = applied_kernel(pkm, channel_params@[v]);
                        let latq = lateral_of(laterals@, v);
                        let o = step_output(
                            inflows[v],
                            latq,
                            upsample_factor(max_timesteps as int, latq.len() as int),
                            zero,
                            km,
                            t,
                        );
                        &&& (#[trigger] results@[i].flow_data@[t]) == o.0
                        &&& results@[i].velocity_data@[t] == o.1
                        &&& results@[i].depth_data@[t] == o.2
                    } by {
                    assert(inflows[v] == buf.values@);
                    assert(lateral_of(laterals@, v) == lat@);
                    assert(channel_params@[v] == p);
                }
            }
        }
        let _released = sched.complete(v, topology);
        order_done.push(v);

        proof {
            broadcast use vstd::seq_lib::group_filter_ensures;
            broadcast use Seq::lemma_filter_contains_rev;

            let comp_new = sched.completed@;
            let cset_entry = comp_entry.to_set();
            let cset_new = comp_new.to_set();
            assert(comp_new == comp_entry.push(v));
            comp_entry.lemma_push_to_set_commute(v);
            assert(cset_new == cset_entry.insert(v));
            assert(comp_new.no_duplicates()) by {
                assert(forall|i: int|
                    0 <= i < comp_entry.len() ==> comp_new[i] == comp_entry[i]);
            }

            // Parents still come before children in the completion order.
            assert(crate::network::parents_before(m, comp_new)) by {
                assert forall|i: int, j: int|
                    #![trigger comp_new[i], comp_new[j]]
                    0 <= i < comp_new.len() && 0 <= j < comp_new.len() && m.contains_key(
                        comp_new[i],
                    ) && m[comp_new[i]].downstream_id == Some(comp_new[j]) implies i < j by {
                    if i == comp_entry.len() {
                        let w = comp_new[j];
                        assert(comp_new[i] == v);
                        assert(is_parent(m, v, w));
                        if j < comp_entry.len() {
                            assert(comp_entry[j] == w);
                            assert(comp_entry.contains(w));
                            assert(cset_entry.contains(w));
                            assert(false);
                        } else {
                            assert(w == v);
                            assert(false);
                        }
                    } else {
                        assert(comp_new[i] == comp_entry[i]);
                        if j < comp_entry.len() {
                            assert(comp_new[j] == comp_entry[j]);
                        }
                    }
                }
            }

            lemma_with_params_push(comp_entry, pset, v);
            let wp_entry = with_params(comp_entry, pset);
            let wp_new = with_params(comp_new, pset);

            // How every parent series moves when v completes.
            assert forall|v2: u32| true implies #[trigger] parent_series(
                m,
                comp_new,
                pset,
                flows,
                v2,
            ) == (if is_parent(m, v, v2) && pset.contains(v) {
                parent_series(m, comp_entry, pset, flows_entry, v2).push(new_flow)
            } else {
                parent_series(m, comp_entry, pset, flows_entry, v2)
            }) by {
                if p_opt is Some {
                    lemma_parent_series_fresh(m, comp_entry, pset, flows_entry, v2, v, new_flow);
                    lemma_parent_series_push(m, comp_entry, pset, flows, v2, v);
                    assert(flows == flows_entry.insert(v, new_flow));
                    assert(flows[v] == new_flow);
                } else {
                    assert(!pset.contains(v));
                    assert(flows == flows_entry);
                    lemma_parent_series_push(m, comp_entry, pset, flows, v2, v);
                }
            }

            if p_opt is Some {
                assert(pset.contains(v));
                assert(wp_new == wp_entry.push(v));
                assert(results@.len() == wp_new.len());
            } else {
                assert(!pset.contains(v));
                assert(wp_new == wp_entry);
                assert(results@ == results_entry);
                assert(inflows == inflows_entry);
                assert(flows == flows_entry);
            }

            // Membership of the ghost maps.
            assert forall|v2: u32|
                #![trigger inflows.contains_key(v2)]
                (inflows.contains_key(v2) <==> (comp_new.contains(v2) && pset.contains(
                    v2,
                ))) by {
                assert(comp_new.contains(v2) <==> cset_new.contains(v2));
                assert(comp_entry.contains(v2) <==> cset_entry.contains(v2));
            }
            assert forall|v2: u32|
                #![trigger flows.contains_key(v2)]
                (flows.contains_key(v2) <==> (comp_new.contains(v2) && pset.contains(v2))) by {
                assert(comp_new.contains(v2) <==> cset_new.contains(v2));
                assert(comp_entry.contains(v2) <==> cset_entry.contains(v2));
            }

            // A parentless reach consumed an empty buffer.
            assert forall|v2: u32| #[trigger]
                inflows.contains_key(v2) && is_root(m, v2) implies inflows[v2]
                == Seq::<V>::empty() by {
                if v2 == v && p_opt is Some {
                    let series_v = parent_series(m, comp_entry, pset, flows_entry, v);
                    assert(series_v.len() == 0) by {
                        let fpred = |p2: u32| is_parent(m, p2, v) && pset.contains(p2);
                        if comp_entry.filter(fpred).len() > 0 {
                            assert(fpred(comp_entry.filter(fpred)[0]));
                            assert(false);
                        }
                    }
                    assert(buffer_contents(buffers_entry, v).len() == 0);
                    assert(new_inflow =~= Seq::<V>::empty());
                }
            }

            // The result blocks, old and new.
            assert forall|i: int| 0 <= i < results@.len() implies {
                let v2 = wp_new[i];
                &&& (#[trigger] results@[i]).feature_id == v2 as i64
                &&& results@[i].flow_data@.len() == max_timesteps
                &&& results@[i].velocity_data@.len() == max_timesteps
                &&& results@[i].depth_data@.len() == max_timesteps
                &&& inflows.contains_key(v2)
                &&& flows.contains_key(v2)
                &&& flows[v2] == results@[i].flow_data@
            } by {
                if i < results_entry.len() {
                    assert(wp_new[i] == wp_entry[i]);
                    let v2 = wp_entry[i];
                    assert(wp_entry.contains(v2));
                    assert(comp_entry.contains(v2));
                    assert(v2 != v);
                    assert(results@[i] == results_entry[i]);
                    assert(inflows[v2] == inflows_entry[v2]);
                    assert(flows[v2] == flows_entry[v2]);
                    assert(inflows.contains_key(v2) && flows.contains_key(v2)) by {
                        assert(cset_entry.contains(v2));
                        assert(cset_new.contains(v2));
                        assert(comp_new.contains(v2));
                        assert(pset.contains(v2));
                    }
                } else {
                    assert(p_opt is Some);
                    assert(i == wp_entry.len());
                    assert(wp_new[i] == v);
                    assert(inflows.contains_key(v) && flows.contains_key(v));
                    assert(results@[i].feature_id == v as i64);
                    assert(flows[v] == results@[i].flow_data@);
                }
            }
            assert forall|i: int|
                #![trigger wp_new[i]]
                0 <= i < results@.len() implies {
                let v2 = wp_new[i];
                forall|pkm: spec_fn(P, V, V, V, V, V) -> (V, V, V)| #[trigger]
                    kernel_models_params(*kernel, pkm) ==> forall|t: int|
                        0 <= t < max_timesteps ==> {
                            let km = applied_kernel(pkm, channel_params@[v2]);
                            let latq = lateral_of(laterals@, v2);
                            let o = step_output(
                                inflows[v2],
                                latq,
                                upsample_factor(max_timesteps as int, latq.len() as int),
                                zero,
                                km,
                                t,
                            );
                            &&& (#[trigger] results@[i].flow_data@[t]) == o.0
                            &&& results@[i].velocity_data@[t] == o.1
                            &&& results@[i].depth_data@[t] == o.2
                        }
            } by {
                if i < results_entry.len() {
                    assert(wp_new[i] == wp_entry[i]);
                    let v2 = wp_entry[i];
                    assert(wp_entry.contains(v2));
                    assert(comp_entry.contains(v2));
                    assert(v2 != v);
                    assert(results@[i] == results_entry[i]);
                    assert(inflows[v2] == inflows_entry[v2]);
                    assert(flows[v2] == flows_entry[v2]);
                    assert(inflows.contains_key(v2) && flows.contains_key(v2)) by {
                        assert(cset_entry.contains(v2));
                        assert(cset_new.contains(v2));
                        assert(comp_new.contains(v2));
                        assert(pset.contains(v2));
                    }
                    assert forall|pkm: spec_fn(P, V, V, V, V, V) -> (V, V, V)| #[trigger]
                        kernel_models_params(*kernel, pkm) implies forall|t: int|
                        0 <= t < max_timesteps ==> {
                            let km = applied_kernel(pkm, channel_params@[v2]);
                            let latq = lateral_of(laterals@, v2);
                            let o = step_output(
                                inflows[v2],
                                latq,
                                upsample_factor(max_timesteps as int, latq.len() as int),
                                zero,
                                km,
                                t,
                            );
                            &&& (#[trigger] results@[i].flow_data@[t]) == o.0
                            &&& results@[i].velocity_data@[t] == o.1
                            &&& results@[i].depth_data@[t] == o.2
                        } by {
                        assert forall|t: int| 0 <= t < max_timesteps implies {
                            let km = applied_kernel(pkm, channel_params@[v2]);
                            let latq = lateral_of(laterals@, v2);
                            let o = step_output(
                                inflows[v2],
                                latq,
                                upsample_factor(max_timesteps as int, latq.len() as int),
                                zero,
                                km,
                                t,
                            );
                            &&& (#[trigger] results@[i].flow_data@[t]) == o.0
                            &&& results@[i].velocity_data@[t] == o.1
                            &&& results@[i].depth_data@[t] == o.2
                        } by {
                            assert(with_params(comp_entry, pset)[i] == v2);
                            assert(results_entry[i].flow_data@[t] == results@[i].flow_data@[t]);
                            assert(results_entry[i].velocity_data@[t]
                                == results@[i].velocity_data@[t]);
                            assert(results_entry[i].depth_data@[t] == results@[i].depth_data@[t]);
                        }
                    }
                } else {
                    assert(p_opt is Some);
                    assert(i == wp_entry.len());
                    assert(wp_new[i] == v);
                    assert(inflows.contains_key(v) && flows.contains_key(v));
                    assert(results@[i].feature_id == v as i64);
                    assert(flows[v] == results@[i].flow_data@);
                }
            }

            // The inflow each routed reach consumed is the positional
            // sum of its routed parents' output.
            assert forall|sm: spec_fn(V, V) -> V| #[trigger]
                combine_models(*combine, sm) implies forall|v2: u32, t: int|
                #![trigger buffer_at(inflows[v2], t, zero)]
                inflows.contains_key(v2) && 0 <= t < max_timesteps ==> buffer_at(
                    inflows[v2],
                    t,
                    zero,
                ) == fold_inflow(parent_series(m, comp_new, pset, flows, v2), t, zero, sm) by {
                assert forall|v2: u32, t: int|
                    #![trigger buffer_at(inflows[v2], t, zero)]
                    inflows.contains_key(v2) && 0 <= t < max_timesteps implies buffer_at(
                    inflows[v2],
                    t,
                    zero,
                ) == fold_inflow(parent_series(m, comp_new, pset, flows, v2), t, zero, sm) by {
                    if v2 == v {
                        assert(p_opt is Some);
                        assert(inflows[v] == new_inflow);
                        assert(new_inflow == buffer_contents(buffers_entry, v));
                        assert(!is_parent(m, v, v));
                        assert(parent_series(m, comp_new, pset, flows, v) == parent_series(
                            m,
                            comp_entry,
                            pset,
                            flows_entry,
                            v,
                        ));
                        assert(buffer_at(buffer_contents(buffers_entry, v), t, zero)
                            == fold_inflow(
                            parent_series(m, comp_entry, pset, flows_entry, v),
                            t,
                            zero,
                            sm,
                        ));
                    } else {
                        assert(inflows_entry.contains_key(v2));
                        assert(inflows[v2] == inflows_entry[v2]);
                        assert(comp_entry.contains(v2));
                        assert(cset_entry.contains(v2));
                        assert(!is_parent(m, v, v2));
                        assert(parent_series(m, comp_new, pset, flows, v2) == parent_series(
                            m,
                            comp_entry,
                            pset,
                            flows_entry,
                            v2,
                        ));
                        assert(buffer_at(inflows_entry[v2], t, zero) == fold_inflow(
                            parent_series(m, comp_entry, pset, flows_entry, v2),
                            t,
                            zero,
                            sm,
                        ));
                    }
                }
            }

            // The waiting buffers.
            assert forall|d2: u32| #[trigger]
                m.contains_key(d2) && !comp_new.contains(d2) implies buffer_contents(
                buffers@,
                d2,
            ).len() == (if parent_series(m, comp_new, pset, flows, d2).len() == 0 {
                0int
            } else {
                tt
            }) by {
                assert(comp_new.contains(d2) <==> cset_new.contains(d2));
                assert(d2 != v);
                assert(!comp_entry.contains(d2)) by {
                    assert(comp_entry.contains(d2) ==> cset_entry.contains(d2));
                }
                if accumulated == Some(d2) {
                    assert(buffer_contents(buffers@, d2) == acc_result);
                    assert(acc_base == buffer_contents(buffers_entry, d2));
                    assert(new_flow.len() == max_timesteps);
                    assert(parent_series(m, comp_new, pset, flows, d2) == parent_series(
                        m,
                        comp_entry,
                        pset,
                        flows_entry,
                        d2,
                    ).push(new_flow));
                    assert(acc_result.len() == tt) by {
                        assert(acc_base.len() == 0 || acc_base.len() == tt);
                    }
                } else {
                    assert(buffer_contents(buffers@, d2) == buffer_contents(
                        buffers_entry,
                        d2,
                    )) by {
                        if p_opt is Some {
                            assert(d2 != v);
                        }
                    }
                    assert(!(is_parent(m, v, d2) && pset.contains(v))) by {
                        if is_parent(m, v, d2) && pset.contains(v) {
                            assert(m[v].downstream_id == Some(d2));
                            assert(accumulated == Some(d2));
                        }
                    }
                    assert(parent_series(m, comp_new, pset, flows, d2) == parent_series(
                        m,
                        comp_entry,
                        pset,
                        flows_entry,
                        d2,
                    ));
                }
            }
            assert forall|sm: spec_fn(V, V) -> V| #[trigger]
                combine_models(*combine, sm) implies forall|d2: u32, t: int|
                #![trigger buffer_at(buffer_contents(buffers@, d2), t, zero), m.contains_key(d2)]
                m.contains_key(d2) && !comp_new.contains(d2) && 0 <= t < max_timesteps
                    ==> buffer_at(buffer_contents(buffers@, d2), t, zero) == fold_inflow(
                    parent_series(m, comp_new, pset, flows, d2),
                    t,
                    zero,
                    sm,
                ) by {
                assert forall|d2: u32, t: int|
                    #![trigger buffer_at(buffer_contents(buffers@, d2), t, zero), m.contains_key(d2)]
                    m.contains_key(d2) && !comp_new.contains(d2) && 0 <= t < max_timesteps
                        implies buffer_at(buffer_contents(buffers@, d2), t, zero) == fold_inflow(
                    parent_series(m, comp_new, pset, flows, d2),
                    t,
                    zero,
                    sm,
                ) by {
                    assert(comp_new.contains(d2) <==> cset_new.contains(d2));
                    assert(d2 != v);
                    assert(!comp_entry.contains(d2)) by {
                        assert(comp_entry.contains(d2) ==> cset_entry.contains(d2));
                    }
                    assert(buffer_at(buffer_contents(buffers_entry, d2), t, zero) == fold_inflow(
                        parent_series(m, comp_entry, pset, flows_entry, d2),
                        t,
                        zero,
                        sm,
                    ));
                    if accumulated == Some(d2) {
                        let series_old = parent_series(m, comp_entry, pset, flows_entry, d2);
                        let series_new = parent_series(m, comp_new, pset, flows, d2);
                        assert(series_new == series_old.push(new_flow));
                        assert(series_new.drop_last() =~= series_old);
                        assert(series_new.last() == new_flow);
                        assert(fold_inflow(series_new, t, zero, sm) == sm(
                            fold_inflow(series_old, t, zero, sm),
                            buffer_at(new_flow, t, zero),
                        ));
                        assert(acc_base == buffer_contents(buffers_entry, d2));
                        assert(acc_result.len() == tt);
                        assert(t < new_flow.len());
                        assert(call_ensures(
                            *combine,
                            (buffer_at(acc_base, t, zero), new_flow[t]),
                            acc_result[t],
                        ));
                        assert(acc_result[t] == sm(
                            buffer_at(acc_base, t, zero),
                            new_flow[t],
                        ));
                        assert(buffer_at(new_flow, t, zero) == new_flow[t]);
                        assert(buffer_at(acc_result, t, zero) == acc_result[t]);
                    } else {
                        assert(buffer_contents(buffers@, d2) == buffer_contents(
                            buffers_entry,
                            d2,
                        ));
                        assert(!(is_parent(m, v, d2) && pset.contains(v))) by {
                            if is_parent(m, v, d2) && pset.contains(v) {
                                assert(m[v].downstream_id == Some(d2));
                                assert(accumulated == Some(d2));
                            }
                        }
                        assert(parent_series(m, comp_new, pset, flows, d2) == parent_series(
                            m,
                            comp_entry,
                            pset,
                            flows_entry,
                            d2,
                        ));
                    }
                }
            }
        }
    }

    proof {
        // Every reach has completed.
        let completed = sched.completed@;
        completed.unique_seq_to_set();
        assert(completed.to_set().subset_of(m.dom()));
        lemma_len_subset(completed.to_set(), m.dom());
        assert(completed.to_set() =~= m.dom()) by {
            if exists|w: u32| m.dom().contains(w) && !completed.to_set().contains(w) {
                let w = choose|w: u32| m.dom().contains(w) && !completed.to_set().contains(w);
                completed.to_set().lemma_subset_not_in_lt(m.dom(), w);
                assert(false);
            }
        }
    }
    (results, order_done, Ghost(inflows), Ghost(flows))
}

} // verus!
