use std::collections::HashMap;

use router::buffers::InflowBuffer;
use router::network::build_network_topology;
use router::routing::process_node_all_timesteps;
use router::routing::process_routing;
use router::scheduler::Scheduler;

fn rows(pairs: &[(&str, &str)]) -> Vec<(String, String)> {
    pairs.iter().map(|(a, b)| (a.to_string(), b.to_string())).collect()
}

#[test]
fn buffers_merge_positionally_and_read_zero_past_the_end() {
    let add = |a: f32, b: f32| a + b;
    let mut buf: InflowBuffer<f32> = InflowBuffer::new();
    buf.accumulate(&vec![1.0, 2.0], 0.0, &add);
    assert_eq!(buf.values, vec![1.0, 2.0]);
    // A longer series is clipped to the buffer's length.
    buf.accumulate(&vec![10.0, 20.0, 30.0], 0.0, &add);
    assert_eq!(buf.values, vec![11.0, 22.0]);
    assert_eq!(buf.get(0, 0.0), 11.0);
    assert_eq!(buf.get(5, 0.0), 0.0);
}

#[test]
fn the_driver_threads_state_and_holds_the_lateral() {
    // Kernel: qdc = quc + ql, velocity = qup, depth = depth_prev + 1.
    let kernel = |_p: u32, qup: f32, quc: f32, _qdp: f32, ql: f32, d: f32| (quc + ql, qup, d + 1.0);
    let mut inflow: InflowBuffer<f32> = InflowBuffer::new();
    inflow.accumulate(&vec![1.0, 2.0, 3.0, 4.0], 0.0, &|a: f32, b: f32| a + b);
    let lateral = vec![10.0, 20.0];
    let res = process_node_all_timesteps(7, 0u32, &inflow, &lateral, 4, 0.0f32, &kernel);
    assert_eq!(res.feature_id, 7);
    // Zero-order hold: upsampling 2, so ql = 10, 10, 20, 20.
    assert_eq!(res.flow_data, vec![11.0, 12.0, 23.0, 24.0]);
    // Velocity reports the previous step's upstream discharge.
    assert_eq!(res.velocity_data, vec![0.0, 1.0, 2.0, 3.0]);
    // Depth grows by one per step from zero.
    assert_eq!(res.depth_data, vec![1.0, 2.0, 3.0, 4.0]);
}

#[test]
fn the_lateral_series_holds_its_last_value() {
    let kernel = |_p: u32, _qup: f32, _quc: f32, _qdp: f32, ql: f32, _d: f32| (ql, 0.0, 0.0);
    let inflow: InflowBuffer<f32> = InflowBuffer::new();
    let lateral = vec![1.0, 2.0];
    let res = process_node_all_timesteps(1, 0u32, &inflow, &lateral, 5, 0.0f32, &kernel);
    assert_eq!(res.flow_data, vec![1.0, 1.0, 2.0, 2.0, 2.0]);
}

#[test]
fn a_missing_lateral_series_reads_zero() {
    let kernel = |_p: u32, _qup: f32, quc: f32, _qdp: f32, ql: f32, _d: f32| (quc + ql, 0.0, 0.0);
    let inflow: InflowBuffer<f32> = InflowBuffer::new();
    let res = process_node_all_timesteps(1, 0u32, &inflow, &vec![], 3, 0.0f32, &kernel);
    assert_eq!(res.flow_data, vec![0.0, 0.0, 0.0]);
}

#[test]
fn the_scheduler_releases_a_reach_only_after_all_parents() {
    let t = build_network_topology(&rows(&[
        ("wb-1", "wb-3"),
        ("wb-2", "wb-3"),
        ("wb-3", "wb-0"),
    ]))
    .unwrap();
    let mut s = Scheduler::new(&t, 2);
    let (first, w0) = s.next_node().unwrap();
    let (second, w1) = s.next_node().unwrap();
    assert_eq!(w0, 0);
    assert_eq!(w1, 1);
    let mut roots = vec![first, second];
    roots.sort();
    assert_eq!(roots, vec![1, 2]);
    // The junction is not ready while one parent is outstanding.
    assert!(s.next_node().is_none());
    assert_eq!(s.complete(first, &t), None);
    assert!(s.next_node().is_none());
    assert_eq!(s.complete(second, &t), Some(3));
    let (third, w2) = s.next_node().unwrap();
    assert_eq!(third, 3);
    assert_eq!(w2, 0);
    assert!(!s.is_done());
    assert_eq!(s.complete(3, &t), None);
    assert!(s.is_done());
    assert_eq!(s.completed_nodes(), &vec![first, second, 3]);
}

#[test]
fn the_engine_routes_parents_first_and_sums_their_outputs() {
    // Y junction: 1 and 2 drain into 3.
    let t = build_network_topology(&rows(&[
        ("wb-1", "wb-3"),
        ("wb-2", "wb-3"),
        ("wb-3", "wb-0"),
    ]))
    .unwrap();
    let mut params: HashMap<u32, f32> = HashMap::new();
    params.insert(1, 0.0);
    params.insert(2, 0.0);
    params.insert(3, 0.0);
    let mut laterals: HashMap<u32, Vec<f32>> = HashMap::new();
    laterals.insert(1, vec![1.0, 1.0]);
    laterals.insert(2, vec![2.0, 2.0]);
    // The kernel passes the current upstream discharge plus the lateral
    // straight through.
    let kernel =
        |_p: f32, _qup: f32, quc: f32, _qdp: f32, ql: f32, _d: f32| (quc + ql, 0.0f32, 0.0f32);
    let combine = |a: f32, b: f32| a + b;
    let (results, completed, _, _) =
        process_routing(&t, &params, &laterals, 2, 0.0f32, &kernel, &combine);
    assert_eq!(completed, vec![1, 2, 3]);
    assert_eq!(results.len(), 3);
    assert_eq!(results[0].feature_id, 1);
    assert_eq!(results[1].feature_id, 2);
    assert_eq!(results[2].feature_id, 3);
    assert_eq!(results[0].flow_data, vec![1.0, 1.0]);
    assert_eq!(results[1].flow_data, vec![2.0, 2.0]);
    // The junction reads the positional sum of both parents.
    assert_eq!(results[2].flow_data, vec![3.0, 3.0]);
}

#[test]
fn parents_are_summed_in_completion_order() {
    let t = build_network_topology(&rows(&[
        ("wb-1", "wb-3"),
        ("wb-2", "wb-3"),
        ("wb-3", "wb-0"),
    ]))
    .unwrap();
    let mut params: HashMap<u32, f32> = HashMap::new();
    params.insert(1, 0.0);
    params.insert(2, 0.0);
    params.insert(3, 0.0);
    let mut laterals: HashMap<u32, Vec<f32>> = HashMap::new();
    laterals.insert(1, vec![1.0]);
    laterals.insert(2, vec![2.0]);
    let kernel =
        |_p: f32, _qup: f32, quc: f32, _qdp: f32, ql: f32, _d: f32| (quc + ql, 0.0f32, 0.0f32);
    // A deliberately non-commutative merge shows the order: the roots
    // complete in routing order, 1 before 2.
    let combine = |a: f32, b: f32| a * 10.0 + b;
    let (results, completed, _, _) =
        process_routing(&t, &params, &laterals, 1, 0.0f32, &kernel, &combine);
    assert_eq!(completed, vec![1, 2, 3]);
    // buffer of 3: ((0 * 10 + 1) * 10) + 2 = 12
    assert_eq!(results[2].flow_data, vec![12.0]);
}

#[test]
fn a_reach_without_parameters_is_skipped_and_contributes_nothing() {
    // Chain 1 -> 2 -> 3, but 2 has no channel parameters.
    let t = build_network_topology(&rows(&[
        ("wb-1", "wb-2"),
        ("wb-2", "wb-3"),
        ("wb-3", "wb-0"),
    ]))
    .unwrap();
    let mut params: HashMap<u32, f32> = HashMap::new();
    params.insert(1, 0.0);
    params.insert(3, 0.0);
    let mut laterals: HashMap<u32, Vec<f32>> = HashMap::new();
    laterals.insert(1, vec![5.0]);
    laterals.insert(3, vec![1.0]);
    let kernel =
        |_p: f32, _qup: f32, quc: f32, _qdp: f32, ql: f32, _d: f32| (quc + ql, 0.0f32, 0.0f32);
    let combine = |a: f32, b: f32| a + b;
    let (results, completed, _, _) =
        process_routing(&t, &params, &laterals, 1, 0.0f32, &kernel, &combine);
    assert_eq!(completed, vec![1, 2, 3]);
    // One output block per reach that was actually routed.
    assert_eq!(results.len(), 2);
    assert_eq!(results[0].feature_id, 1);
    assert_eq!(results[1].feature_id, 3);
    // 3 sees nothing from its skipped parent.
    assert_eq!(results[1].flow_data, vec![1.0]);
}

#[test]
fn a_parentless_reach_reads_an_all_zero_inflow() {
    let t = build_network_topology(&rows(&[("wb-8", "wb-0")])).unwrap();
    let mut params: HashMap<u32, f32> = HashMap::new();
    params.insert(8, 0.0);
    let mut laterals: HashMap<u32, Vec<f32>> = HashMap::new();
    laterals.insert(8, vec![4.0]);
    // The kernel reports the upstream discharge it was handed.
    let kernel =
        |_p: f32, _qup: f32, quc: f32, _qdp: f32, _ql: f32, _d: f32| (quc, 0.0f32, 0.0f32);
    let combine = |a: f32, b: f32| a + b;
    let (results, _, _, _) =
        process_routing(&t, &params, &laterals, 3, 0.0f32, &kernel, &combine);
    assert_eq!(results[0].flow_data, vec![0.0, 0.0, 0.0]);
}
