//! End-to-end scenarios with a numeric Muskingum–Cunge kernel plugged
//! into the verified engine.

use std::collections::HashMap;

use router::buffers::InflowBuffer;
use router::network::build_network_topology;
use router::routing::process_node_all_timesteps;
use router::routing::process_routing;

#[derive(Clone, Copy)]
struct Geometry {
    dt: f64,
    s0: f64,
    dx: f64,
    n: f64,
    cs: f64,
    bw: f64,
    tw: f64,
    twcc: f64,
    ncc: f64,
}

/// Celerity of an overbank (compound) section, area-weighted between
/// the channel and the floodplain.
fn celerity_compound(
    so: f64,
    n: f64,
    n_cc: f64,
    r: f64,
    z: f64,
    bw: f64,
    bfd: f64,
    depth: f64,
    area: f64,
    area_c: f64,
) -> f64 {
    let channel_part = (f64::sqrt(so) / n)
        * ((5.0 / 3.0) * r.powf(2.0 / 3.0)
            - (2.0 / 3.0) * r.powf(5.0 / 3.0) * (2.0 * f64::sqrt(1.0 + z * z) / (bw + 2.0 * bfd * z)));
    let flood_part = (f64::sqrt(so) / n_cc) * (5.0 / 3.0) * (depth - bfd).powf(2.0 / 3.0);
    f64::max(0.0, (channel_part * area + flood_part * area_c) / (area + area_c))
}

/// Celerity of an in-channel section.
fn celerity_channel(so: f64, n: f64, r: f64, z: f64, bw: f64, depth: f64) -> f64 {
    let deriv = (5.0 / 3.0) * r.powf(2.0 / 3.0)
        - (2.0 / 3.0) * r.powf(5.0 / 3.0) * (2.0 * f64::sqrt(1.0 + z * z) / (bw + 2.0 * depth * z));
    f64::max(0.0, (f64::sqrt(so) / n) * deriv)
}

/// One Muskingum–Cunge step: iterative kinematic-wave routing with a
/// secant-method depth solve and ordered fallbacks.
fn submuskingcunge(
    qup: f64,
    quc: f64,
    qdp: f64,
    ql: f64,
    g: Geometry,
    depth_p: f64,
) -> (f64, f64, f64) {
    let dt = g.dt;
    let so = g.s0;
    let dx = g.dx;
    let n = g.n;
    let cs = g.cs;
    let bw = g.bw;
    let tw = g.tw;
    let tw_cc = g.twcc;
    let n_cc = g.ncc;

    let mut c1: f64 = 0.0;
    let mut c2: f64 = 0.0;
    let mut c3: f64 = 0.0;
    let mut c4: f64 = 0.0;
    let mut km: f64;
    let mut x: f64;
    let mut ck: f64;
    let mut twl: f64;
    let mut area: f64;
    let mut area_c: f64 = 0.0;
    let mut r: f64 = 0.0;
    let mut wp: f64 = 0.0;
    let mut wp_c: f64 = 0.0;
    let mut h: f64;
    let mut h_0: f64;
    let mut h_1: f64;
    let mut qj_0: f64 = 0.0;
    let mut qj: f64 = 0.0;
    let mut d: f64;
    let mut aerror: f64 = 0.01;
    let mut rerror: f64 = 1.0;
    let mut iter: i32;
    let mut maxiter: i32 = 100;
    let mindepth: f64 = 0.01;
    let mut tries: i32 = 0;

    let z = if cs == 0.0 { 1.0 } else { 1.0 / cs };
    let bfd = if bw > tw {
        bw / 0.00001
    } else if bw == tw {
        bw / (2.0 * z)
    } else {
        (tw - bw) / (2.0 * z)
    };
    assert!(n > 0.0 && so > 0.0 && z > 0.0 && bw > 0.0);

    let mut depth_c = f64::max(depth_p, 0.0);
    h = depth_c * 1.33 + mindepth;
    h_0 = depth_c * 0.67;
    let qdc: f64;
    let mut velc: f64 = 0.0;

    if ql > 0.0 || qup > 0.0 || qdp > 0.0 {
        loop {
            iter = 0;
            while rerror > 0.01 && aerror >= mindepth && iter <= maxiter {
                area_c = 0.0;
                wp_c = 0.0;
                // lower estimate
                twl = bw + 2.0 * z * h_0;
                if h_0 > bfd {
                    area = (bw + bfd * z) * bfd;
                    area_c = tw_cc * (h_0 - bfd);
                    wp = bw + 2.0 * bfd * f64::sqrt(1.0 + z * z);
                    wp_c = tw_cc + 2.0 * (h_0 - bfd);
                    r = (area + area_c) / (wp + wp_c);
                } else {
                    area = (bw + h_0 * z) * h_0;
                    wp = bw + 2.0 * h_0 * f64::sqrt(1.0 + z * z);
                    r = if wp > 0.0 { area / wp } else { 0.0 };
                }
                ck = if h_0 > bfd {
                    celerity_compound(so, n, n_cc, r, z, bw, bfd, h_0, area, area_c)
                } else if h_0 > 0.0 {
                    celerity_channel(so, n, r, z, bw, h_0)
                } else {
                    0.0
                };
                km = if ck > 0.0 { f64::max(dt, dx / ck) } else { dt };
                x = if h_0 > bfd {
                    f64::min(0.5, f64::max(0.0, 0.5 * (1.0 - qj_0 / (2.0 * tw_cc * so * ck * dx))))
                } else if ck > 0.0 {
                    f64::min(0.5, f64::max(0.0, 0.5 * (1.0 - qj_0 / (2.0 * twl * so * ck * dx))))
                } else {
                    0.5
                };
                d = km * (1.0 - x) + dt / 2.0;
                assert!(d != 0.0);
                c1 = (km * x + dt / 2.0) / d;
                c2 = (dt / 2.0 - km * x) / d;
                c3 = (km * (1.0 - x) - dt / 2.0) / d;
                c4 = ql * dt / d;
                if wp + wp_c > 0.0 {
                    let n_avg = (wp * n + wp_c * n_cc) / (wp + wp_c);
                    qj_0 = (c1 * qup + c2 * quc + c3 * qdp + c4)
                        - (1.0 / n_avg) * (area + area_c) * r.powf(2.0 / 3.0) * f64::sqrt(so);
                }
                area_c = 0.0;
                wp_c = 0.0;
                // upper estimate
                twl = bw + 2.0 * z * h;
                if h > bfd {
                    area = (bw + bfd * z) * bfd;
                    area_c = tw_cc * (h - bfd);
                    wp = bw + 2.0 * bfd * f64::sqrt(1.0 + z * z);
                    wp_c = tw_cc + 2.0 * (h - bfd);
                    r = (area + area_c) / (wp + wp_c);
                } else {
                    area = (bw + h * z) * h;
                    wp = bw + 2.0 * h * f64::sqrt(1.0 + z * z);
                    r = if wp > 0.0 { area / wp } else { 0.0 };
                }
                ck = if h > bfd {
                    celerity_compound(so, n, n_cc, r, z, bw, bfd, h, area, area_c)
                } else if h > 0.0 {
                    celerity_channel(so, n, r, z, bw, h)
                } else {
                    0.0
                };
                km = if ck > 0.0 { f64::max(dt, dx / ck) } else { dt };
                let flow_sum = c1 * qup + c2 * quc + c3 * qdp + c4;
                x = if h > bfd {
                    f64::min(
                        0.5,
                        f64::max(0.25, 0.5 * (1.0 - flow_sum / (2.0 * tw_cc * so * ck * dx))),
                    )
                } else if ck > 0.0 {
                    f64::min(
                        0.5,
                        f64::max(0.25, 0.5 * (1.0 - flow_sum / (2.0 * twl * so * ck * dx))),
                    )
                } else {
                    0.5
                };
                d = km * (1.0 - x) + dt / 2.0;
                assert!(d != 0.0);
                c1 = (km * x + dt / 2.0) / d;
                c2 = (dt / 2.0 - km * x) / d;
                c3 = (km * (1.0 - x) - dt / 2.0) / d;
                c4 = ql * dt / d;
                // channel-loss guard
                if c4 < 0.0 && f64::abs(c4) > c1 * qup + c2 * quc + c3 * qdp {
                    c4 = -(c1 * qup + c2 * quc + c3 * qdp);
                }
                if wp + wp_c > 0.0 {
                    let n_avg = (wp * n + wp_c * n_cc) / (wp + wp_c);
                    qj = (c1 * qup + c2 * quc + c3 * qdp + c4)
                        - (1.0 / n_avg) * (area + area_c) * r.powf(2.0 / 3.0) * f64::sqrt(so);
                }
                if qj_0 - qj != 0.0 {
                    h_1 = h - qj * (h_0 - h) / (qj_0 - qj);
                    if h_1 < 0.0 {
                        h_1 = h;
                    }
                } else {
                    h_1 = h;
                }
                if h > 0.0 {
                    rerror = f64::abs((h_1 - h) / h);
                    aerror = f64::abs(h_1 - h);
                } else {
                    rerror = 0.0;
                    aerror = 0.9;
                }
                h_0 = f64::max(0.0, h);
                h = f64::max(0.0, h_1);
                iter += 1;
                if h < mindepth {
                    break;
                }
            }
            if iter >= maxiter {
                tries += 1;
                if tries <= 4 {
                    h *= 1.33;
                    h_0 *= 0.67;
                    maxiter += 25;
                    continue;
                }
            }
            let flow_sum = c1 * qup + c2 * quc + c3 * qdp + c4;
            qdc = if flow_sum < 0.0 {
                if c4 < 0.0 && f64::abs(c4) > c1 * qup + c2 * quc + c3 * qdp {
                    0.0
                } else {
                    f64::max(c1 * qup + c2 * quc + c4, c1 * qup + c3 * qdp + c4)
                }
            } else {
                flow_sum
            };
            twl = bw + 2.0 * z * h;
            r = (h * (bw + twl) / 2.0)
                / (bw + 2.0 * f64::sqrt(((twl - bw) / 2.0).powf(2.0) + h.powf(2.0)));
            velc = (1.0 / n) * r.powf(2.0 / 3.0) * f64::sqrt(so);
            depth_c = h;
            break;
        }
    } else {
        qdc = 0.0;
        depth_c = 0.0;
    }
    (qdc, velc, depth_c)
}

fn test_geometry(dt: f64) -> Geometry {
    Geometry {
        dt,
        s0: 0.001,
        dx: 1000.0,
        n: 0.035,
        cs: 2.0,
        bw: 5.0,
        tw: 8.0,
        twcc: 20.0,
        ncc: 0.05,
    }
}

fn kernel(g: Geometry, qup: f64, quc: f64, qdp: f64, ql: f64, depth_p: f64) -> (f64, f64, f64) {
    submuskingcunge(qup, quc, qdp, ql, g, depth_p)
}

#[test]
fn a_dry_reach_early_exits_to_zero() {
    let g = test_geometry(300.0);
    assert_eq!(submuskingcunge(0.0, 0.0, 0.0, 0.0, g, 0.0), (0.0, 0.0, 0.0));
    assert_eq!(submuskingcunge(0.0, 0.0, 0.0, -1.0, g, 0.5).0, 0.0);
}

#[test]
fn a_dry_reach_produces_an_all_zero_series() {
    let g = test_geometry(300.0);
    let inflow: InflowBuffer<f64> = InflowBuffer::new();
    let res = process_node_all_timesteps(1, g, &inflow, &vec![], 288, 0.0f64, &kernel);
    assert_eq!(res.flow_data.len(), 288);
    assert!(res.flow_data.iter().all(|&q| q == 0.0));
    assert!(res.depth_data.iter().all(|&h| h == 0.0));
}

#[test]
fn constant_lateral_inflow_reaches_steady_state() {
    // 1 mm/hr over 10 km²: about 2.78 m³/s, held for 24 hours,
    // five-minute internal steps.
    let g = test_geometry(300.0);
    let ql = 1.0 * 10.0 * 1.0e6 / 3600.0 / 1000.0;
    let lateral = vec![ql; 24];
    let inflow: InflowBuffer<f64> = InflowBuffer::new();
    let res = process_node_all_timesteps(1, g, &inflow, &lateral, 288, 0.0f64, &kernel);
    let last = *res.flow_data.last().unwrap();
    assert!((last - ql).abs() / ql < 0.05, "steady state missed: {last} vs {ql}");
    assert!(*res.depth_data.last().unwrap() > 0.0);
    assert!(*res.velocity_data.last().unwrap() > 0.0);
}

#[test]
fn a_clamped_flat_slope_still_routes_finite_flow() {
    // The engine clamps s0 = 0 to 1e-5 before the kernel sees it.
    let mut g = test_geometry(300.0);
    g.s0 = 1.0e-5;
    let lateral = vec![5.0, 0.0, 0.0, 0.0];
    let inflow: InflowBuffer<f64> = InflowBuffer::new();
    let res = process_node_all_timesteps(1, g, &inflow, &lateral, 48, 0.0f64, &kernel);
    assert!(res.flow_data.iter().all(|&q| q.is_finite() && q >= 0.0));
    assert!(res.flow_data.iter().any(|&q| q > 0.0));
}

#[test]
fn mass_is_conserved_up_to_channel_loss() {
    let g = test_geometry(300.0);
    let ql = 2.0;
    let lateral = vec![ql; 6];
    let inflow: InflowBuffer<f64> = InflowBuffer::new();
    let steps = 72;
    let res = process_node_all_timesteps(1, g, &inflow, &lateral, steps, 0.0f64, &kernel);
    let inflow_volume: f64 = (steps as f64) * ql;
    let outflow_volume: f64 = res.flow_data.iter().sum();
    assert!(inflow_volume >= outflow_volume - 1.0e-6);
}

#[test]
fn a_long_chain_routes_every_reach_for_every_step() {
    let mut rows: Vec<(String, String)> = Vec::new();
    for i in 1..=50u32 {
        rows.push((format!("wb-{}", i), format!("wb-{}", i + 1)));
    }
    let t = build_network_topology(&rows).unwrap();
    let g = test_geometry(300.0);
    let mut params: HashMap<u32, Geometry> = HashMap::new();
    for i in 1..=50u32 {
        params.insert(i, g);
    }
    let mut laterals: HashMap<u32, Vec<f64>> = HashMap::new();
    laterals.insert(1, vec![1.0; 24]);
    let combine = |a: f64, b: f64| a + b;
    let pkm = |p: Geometry, qup: f64, quc: f64, qdp: f64, ql: f64, d: f64| {
        submuskingcunge(qup, quc, qdp, ql, p, d)
    };
    let steps = 288;
    let (results, completed, _, _) =
        process_routing(&t, &params, &laterals, steps, 0.0f64, &pkm, &combine);
    assert_eq!(completed.len(), 50);
    assert_eq!(results.len(), 50);
    for r in &results {
        assert_eq!(r.flow_data.len(), steps);
        assert!(r.flow_data.iter().all(|q| q.is_finite()));
    }
    // the pulse reaches the outlet
    assert!(results[49].flow_data.iter().any(|&q| q > 0.0));
}

#[test]
fn a_chain_delays_and_attenuates_the_peak() {
    let rows: Vec<(String, String)> = vec![
        ("wb-1".to_string(), "wb-2".to_string()),
        ("wb-2".to_string(), "wb-0".to_string()),
    ];
    let t = build_network_topology(&rows).unwrap();
    let g = test_geometry(300.0);
    let mut params: HashMap<u32, Geometry> = HashMap::new();
    params.insert(1, g);
    params.insert(2, g);
    let mut laterals: HashMap<u32, Vec<f64>> = HashMap::new();
    // a pulse on the upstream reach only
    let mut pulse = vec![0.0; 24];
    pulse[1] = 14.0;
    pulse[2] = 14.0;
    laterals.insert(1, pulse);
    let combine = |a: f64, b: f64| a + b;
    let pkm = |p: Geometry, qup: f64, quc: f64, qdp: f64, ql: f64, d: f64| {
        submuskingcunge(qup, quc, qdp, ql, p, d)
    };
    let (results, completed, _, _) =
        process_routing(&t, &params, &laterals, 288, 0.0f64, &pkm, &combine);
    assert_eq!(completed, vec![1, 2]);
    let peak_a = results[0].flow_data.iter().cloned().fold(0.0, f64::max);
    let peak_b = results[1].flow_data.iter().cloned().fold(0.0, f64::max);
    let argmax = |s: &Vec<f64>| {
        let mut bi = 0;
        for (i, &q) in s.iter().enumerate() {
            if q > s[bi] {
                bi = i;
            }
        }
        bi
    };
    assert!(peak_b > 0.0);
    // The downstream peak stays within a few percent of the upstream one.
    assert!(
        (peak_a - peak_b).abs() / peak_a < 0.05,
        "peak mismatch: {peak_a} vs {peak_b}"
    );
    assert!(argmax(&results[1].flow_data) >= argmax(&results[0].flow_data));
}
