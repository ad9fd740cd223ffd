use router::config::ColumnConfig;
use router::cli::get_args;
use router::loader::external_step_count;
use router::loader::qlat_column_index;
use router::loader::str_eq;
use router::loader::total_timesteps;
use router::network::build_network_topology;
use router::network::TopologyError;

fn rows(pairs: &[(&str, &str)]) -> Vec<(String, String)> {
    pairs.iter().map(|(a, b)| (a.to_string(), b.to_string())).collect()
}

#[test]
fn builds_a_junction_and_orders_parents_first() {
    let t = build_network_topology(&rows(&[
        ("wb-1", "wb-3"),
        ("wb-2", "wb-3"),
        ("wb-3", "wb-9"),
    ]))
    .unwrap();
    assert_eq!(t.ids, vec![1, 2, 3]);
    // 9 is unknown, so 3 is rewritten as an outlet.
    assert_eq!(t.nodes.get(&3).unwrap().downstream_id, None);
    assert_eq!(t.nodes.get(&1).unwrap().downstream_id, Some(3));
    assert_eq!(t.nodes.get(&3).unwrap().upstream_ids, vec![1, 2]);
    assert_eq!(t.nodes.get(&1).unwrap().upstream_ids, Vec::<u32>::new());
    assert_eq!(t.routing_order.len(), 3);
    let pos =
        |v: u32| t.routing_order.iter().position(|&x| x == v).unwrap();
    assert!(pos(1) < pos(3));
    assert!(pos(2) < pos(3));
}

#[test]
fn every_node_appears_exactly_once_in_the_order() {
    let t = build_network_topology(&rows(&[
        ("wb-10", "wb-20"),
        ("wb-20", "wb-30"),
        ("wb-30", "wb-40"),
        ("wb-40", "wb-0"),
        ("wb-15", "wb-30"),
    ]))
    .unwrap();
    let mut order = t.routing_order.clone();
    order.sort();
    assert_eq!(order, vec![10, 15, 20, 30, 40]);
}

#[test]
fn a_two_cycle_has_no_entry_point() {
    let err = build_network_topology(&rows(&[("wb-1", "wb-2"), ("wb-2", "wb-1")]))
        .unwrap_err();
    assert_eq!(err, TopologyError::NoHeadwaters);
}

#[test]
fn a_self_loop_has_no_entry_point() {
    let err = build_network_topology(&rows(&[("wb-5", "wb-5")])).unwrap_err();
    assert_eq!(err, TopologyError::NoHeadwaters);
}

#[test]
fn a_cycle_behind_a_root_is_reported_with_the_counts() {
    let err = build_network_topology(&rows(&[
        ("wb-1", "wb-2"),
        ("wb-2", "wb-3"),
        ("wb-3", "wb-2"),
    ]))
    .unwrap_err();
    assert_eq!(err, TopologyError::Cycle { processed: 1, total: 3 });
}

#[test]
fn an_empty_network_has_no_entry_point() {
    let err = build_network_topology(&rows(&[])).unwrap_err();
    assert_eq!(err, TopologyError::NoHeadwaters);
}

#[test]
fn a_bad_key_is_rejected() {
    let err = build_network_topology(&rows(&[("watershed", "wb-2")])).unwrap_err();
    assert_eq!(err, TopologyError::InvalidKey);
    let err = build_network_topology(&rows(&[("wb-1", "nope")])).unwrap_err();
    assert_eq!(err, TopologyError::InvalidKey);
}

#[test]
fn a_repeated_key_keeps_its_last_row() {
    let t = build_network_topology(&rows(&[
        ("wb-1", "wb-2"),
        ("wb-2", "wb-0"),
        ("wb-1", "wb-2"),
    ]))
    .unwrap();
    assert_eq!(t.ids, vec![1, 2]);
    assert_eq!(t.nodes.get(&1).unwrap().downstream_id, Some(2));
}

#[test]
fn default_column_names_match_the_hydrofabric() {
    let c = ColumnConfig::new();
    assert_eq!(c.key, "id");
    assert_eq!(c.downstream, "toid");
    assert_eq!(c.dx, "Length_m");
    assert_eq!(c.n, "n");
    assert_eq!(c.ncc, "nCC");
    assert_eq!(c.s0, "So");
    assert_eq!(c.bw, "BtmWdth");
    assert_eq!(c.tw, "TopWdth");
    assert_eq!(c.twcc, "TopWdthCC");
    assert_eq!(c.cs, "ChSlp");
    let d = ColumnConfig::default();
    assert_eq!(d.key, "id");
}

#[test]
fn derives_run_paths_and_finds_the_first_geodatabase() {
    let files = vec![
        "notes.txt".to_string(),
        "basin.gpkg".to_string(),
        "other.gpkg".to_string(),
    ];
    let (config_dir, csv_dir, gpkg, ts) = get_args("/data/run", &files, 300);
    assert_eq!(config_dir, "/data/run/config");
    assert_eq!(csv_dir, "/data/run/outputs/ngen");
    assert_eq!(gpkg, Some("basin.gpkg".to_string()));
    assert_eq!(ts, 300);

    let (_, _, none, _) = get_args("/d", &vec!["a.txt".to_string()], 3600);
    assert_eq!(none, None);
}

#[test]
fn locates_the_value_column() {
    let headers = vec![
        "time".to_string(),
        "id".to_string(),
        "q_lateral".to_string(),
        "extra".to_string(),
    ];
    assert_eq!(qlat_column_index(&headers, Some("q_lateral")), 2);
    assert_eq!(qlat_column_index(&headers, Some("id")), 1);
    assert_eq!(qlat_column_index(&headers, Some("missing")), 2);
    assert_eq!(qlat_column_index(&headers, None), 2);
}

#[test]
fn compares_strings_by_characters() {
    assert!(str_eq("abc", "abc"));
    assert!(!str_eq("abc", "abd"));
    assert!(!str_eq("abc", "ab"));
    assert!(str_eq("", ""));
}

#[test]
fn sizes_the_run() {
    assert_eq!(external_step_count(26), 24);
    assert_eq!(external_step_count(1), 0);
    assert_eq!(external_step_count(0), 0);
    // 24 hourly records, five-minute internal steps.
    assert_eq!(total_timesteps(24, 3600, 300), 300);
    // hourly internal steps
    assert_eq!(total_timesteps(24, 3600, 3600), 25);
}
