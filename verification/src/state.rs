//! Per-reach routing state for step-by-step drivers.

use crate::routing::combine_models;
use std::collections::HashMap;
use vstd::prelude::*;

verus! {

broadcast use vstd::std_specs::hash::group_hash_axioms;

/// The values a reach carries from one time step to the next.
pub struct RoutingState<V> {
    pub qup: V,
    pub quc: V,
    pub qdp: V,
    pub depth_p: V,
}

impl<V: Copy> RoutingState<V> {
    pub fn new(zero: V) -> (s: RoutingState<V>)
        ensures
            s.qup == zero,
            s.quc == zero,
            s.qdp == zero,
            s.depth_p == zero,
    {
        RoutingState { qup: zero, quc: zero, qdp: zero, depth_p: zero }
    }

    /// Shift the state by one step: the current upstream discharge
    /// becomes the previous one, and the new readings take its place.
    pub fn update(&mut self, quc: V, qdc: V, depthc: V)
        ensures
            final(self).qup == old(self).quc,
            final(self).quc == quc,
            final(self).qdp == qdc,
            final(self).depth_p == depthc,
    {
        self.qup = self.quc;
        self.quc = quc;
        self.qdp = qdc;
        self.depth_p = depthc;
    }
}

/// The zero-padded sum of the named reaches' current flows, in order.
pub open spec fn flow_sum<V>(
    flows: Map<u32, V>,
    ups: Seq<u32>,
    zero: V,
    sm: spec_fn(V, V) -> V,
) -> V
    decreases ups.len(),
{
    if ups.len() == 0 {
        zero
    } else {
        sm(
            flow_sum(flows, ups.drop_last(), zero, sm),
            if flows.contains_key(ups.last()) {
                flows[ups.last()]
            } else {
                zero
            },
        )
    }
}

/// Per-reach state and current flows, keyed by reach id.
pub struct NetworkState<V> {
    pub states: HashMap<u32, RoutingState<V>>,
    pub current_flows: HashMap<u32, V>,
    pub external_flows: HashMap<u32, Vec<V>>,
}

impl<V: Copy> NetworkState<V> {
    pub fn new() -> (s: NetworkState<V>)
        ensures
            s.states@ == Map::<u32, RoutingState<V>>::empty(),
            s.current_flows@ == Map::<u32, V>::empty(),
            s.external_flows@ == Map::<u32, Vec<V>>::empty(),
    {
        NetworkState {
            states: HashMap::new(),
            current_flows: HashMap::new(),
            external_flows: HashMap::new(),
        }
    }

    /// Give a reach a fresh state and a zero current flow.
    pub fn initialize_node(&mut self, nexus_id: u32, zero: V)
        ensures
            final(self).states@ == old(self).states@.insert(
                nexus_id,
                final(self).states@[nexus_id],
            ),
            final(self).states@.contains_key(nexus_id),
            final(self).states@[nexus_id].qup == zero,
            final(self).states@[nexus_id].quc == zero,
            final(self).states@[nexus_id].qdp == zero,
            final(self).states@[nexus_id].depth_p == zero,
            final(self).current_flows@ == old(self).current_flows@.insert(nexus_id, zero),
            final(self).external_flows == old(self).external_flows,
    {
        self.states.insert(nexus_id, RoutingState::new(zero));
        self.current_flows.insert(nexus_id, zero);
    }

    /// The summed current flow of the named upstream reaches; a reach
    /// without a recorded flow contributes zero.
    pub fn get_upstream_flow<F: Fn(V, V) -> V>(
        &self,
        upstream_nexuses: &Vec<u32>,
        zero: V,
        combine: &F,
    ) -> (r: V)
        requires
            forall|a: (V, V)| #[trigger] call_requires(*combine, a),
        ensures
            forall|sm: spec_fn(V, V) -> V| #[trigger]
                combine_models(*combine, sm) ==> r == flow_sum(
                    self.current_flows@,
                    upstream_nexuses@,
                    zero,
                    sm,
                ),
    {
        let n = upstream_nexuses.len();
        let mut acc = zero;
        let mut k: usize = 0;
        while k < n
            invariant
                0 <= k <= n,
                n == upstream_nexuses@.len(),
                forall|a: (V, V)| #[trigger] call_requires(*combine, a),
                forall|sm: spec_fn(V, V) -> V| #[trigger]
                    combine_models(*combine, sm) ==> acc == flow_sum(
                        self.current_flows@,
                        upstream_nexuses@.take(k as int),
                        zero,
                        sm,
                    ),
            decreases n - k,
        {
            let id = upstream_nexuses[k];
            let f = match self.current_flows.get(&id) {
                Some(x) => *x,
                None => zero,
            };
            let merged = combine(acc, f);
            proof {
                let pre = upstream_nexuses@.take(k as int + 1);
                assert(pre.drop_last() =~= upstream_nexuses@.take(k as int));
                assert(pre.last() == id);
                assert(f == if self.current_flows@.contains_key(id) {
                    self.current_flows@[id]
                } else {
                    zero
                });
            }
            acc = merged;
            k += 1;
        }
        proof {
            assert(upstream_nexuses@.take(n as int) =~= upstream_nexuses@);
        }
        acc
    }

    /// Record a reach's current flow.
    pub fn update_flow(&mut self, nexus_id: u32, flow: V)
        ensures
            final(self).current_flows@ == old(self).current_flows@.insert(nexus_id, flow),
            final(self).states == old(self).states,
            final(self).external_flows == old(self).external_flows,
    {
        self.current_flows.insert(nexus_id, flow);
    }
}

} // verus!
