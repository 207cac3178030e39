use shame_gui::graph::{any_input_dirty, IdGroup, LeafMarker, PortGroup, PortId, Topology};
use std::collections::HashSet;

fn ids(v: &[u64]) -> Vec<PortId> {
    v.iter().map(|&i| PortId::new(i)).collect()
}

#[test]
fn port_id_round_trips_its_index() {
    let p = PortId::new(42);
    assert_eq!(p.index(), 42);
    assert_eq!(p, PortId::new(42));
    assert_ne!(p, PortId::new(43));
}

#[test]
fn port_groups_list_their_leaves_in_order() {
    let a = IdGroup { ids: ids(&[1, 2]) };
    let b = IdGroup { ids: ids(&[7]) };
    let unit = ();
    assert_eq!(PortGroup::<()>::ids(&a), ids(&[1, 2]));
    assert_eq!(PortGroup::<()>::leaf_count(&a), 2);
    assert_eq!(PortGroup::<()>::ids(&unit), ids(&[]));
    assert_eq!(PortGroup::<()>::leaf_count(&unit), 0);
    let pair = (a, b);
    assert_eq!(PortGroup::<()>::ids(&pair), ids(&[1, 2, 7]));
    assert_eq!(PortGroup::<()>::leaf_count(&pair), 3);
    let triple = (IdGroup { ids: ids(&[3]) }, (), IdGroup { ids: ids(&[4, 5]) });
    assert_eq!(PortGroup::<()>::ids(&triple), ids(&[3, 4, 5]));
    let quad = ((), IdGroup { ids: ids(&[9]) }, (), IdGroup { ids: ids(&[8]) });
    assert_eq!(PortGroup::<()>::ids(&quad), ids(&[9, 8]));
    let mut out = ids(&[0]);
    PortGroup::<()>::extend_ids(&quad, &mut out);
    assert_eq!(out, ids(&[0, 9, 8]));
}

#[test]
fn topo_orders_producers_before_consumers() {
    let mut t = Topology::new();
    // node 0 reads port 1 and writes port 2; node 1 writes port 1.
    assert_eq!(t.add_node(ids(&[2]), ids(&[1]), None), 0);
    assert_eq!(t.add_node(ids(&[1]), ids(&[]), None), 1);
    // node 2 is conditioned on port 2.
    assert_eq!(t.add_node(ids(&[]), ids(&[]), Some(PortId::new(2))), 2);
    assert!(t.is_stale());
    assert!(t.recompute_topo());
    assert!(!t.is_stale());
    assert_eq!(t.run_order(), vec![1, 0, 2]);
}

#[test]
fn topo_keeps_insertion_order_without_edges() {
    let mut t = Topology::new();
    t.add_node(ids(&[10]), ids(&[]), None);
    t.add_node(ids(&[11]), ids(&[]), None);
    t.add_node(ids(&[12]), ids(&[]), None);
    assert!(t.prepare_tick());
    assert_eq!(t.run_order(), vec![0, 1, 2]);
}

#[test]
fn topo_ignores_self_edges() {
    let mut t = Topology::new();
    // An in-place update reads and writes the same port.
    t.add_node(ids(&[5]), ids(&[5]), None);
    assert!(t.recompute_topo());
    assert_eq!(t.run_order(), vec![0]);
}

#[test]
fn topo_detects_cycles() {
    let mut t = Topology::new();
    t.add_node(ids(&[1]), ids(&[2]), None);
    t.add_node(ids(&[2]), ids(&[1]), None);
    assert!(!t.recompute_topo());
    assert!(t.is_stale());
    assert_eq!(t.run_order(), Vec::<usize>::new());
}

#[test]
fn map_nodes_over_the_same_map_are_ordered_by_insertion() {
    let mut t = Topology::new();
    // Two chained map stages over map port 3: both read and write it.
    t.add_node(ids(&[3]), ids(&[3]), None);
    t.mark_last_map_node(PortId::new(3));
    t.add_node(ids(&[3]), ids(&[3]), None);
    t.mark_last_map_node(PortId::new(3));
    // A plain reader of the map runs after both.
    t.add_node(ids(&[4]), ids(&[3]), None);
    assert!(t.recompute_topo());
    assert_eq!(t.run_order(), vec![0, 1, 2]);
}

#[test]
fn without_map_tags_chained_stages_form_a_cycle() {
    let mut t = Topology::new();
    t.add_node(ids(&[3]), ids(&[3]), None);
    t.add_node(ids(&[3]), ids(&[3]), None);
    assert!(!t.recompute_topo());
}

#[test]
fn empty_graph_is_inactive_and_sorts_trivially() {
    let mut t = Topology::new();
    assert!(!t.is_active());
    assert_eq!(t.node_count(), 0);
    assert!(t.prepare_tick());
    assert_eq!(t.run_order(), Vec::<usize>::new());
}

#[test]
fn nodes_run_first_then_on_dirty_inputs() {
    let mut t = Topology::new();
    t.add_node(ids(&[2]), ids(&[1]), None);
    assert!(t.is_active());
    assert!(t.prepare_tick());
    let none: HashSet<u64> = HashSet::new();
    // First tick: unconditional run.
    assert!(t.should_run(0, false, &none));
    // Later ticks: only when an input is dirty.
    assert!(!t.should_run(0, false, &none));
    let dirty: HashSet<u64> = [1u64].into_iter().collect();
    assert!(t.should_run(0, false, &dirty));
    let other: HashSet<u64> = [2u64].into_iter().collect();
    assert!(!t.should_run(0, false, &other));
}

#[test]
fn conditioned_nodes_follow_their_condition_only() {
    let mut t = Topology::new();
    t.add_node(ids(&[]), ids(&[1]), Some(PortId::new(9)));
    assert!(t.prepare_tick());
    let dirty: HashSet<u64> = [1u64].into_iter().collect();
    // Even on its first tick a conditioned node waits for its condition.
    assert!(!t.should_run(0, false, &dirty));
    assert!(t.should_run(0, true, &HashSet::new()));
}

#[test]
fn any_input_dirty_checks_membership() {
    let dirty: HashSet<u64> = [4u64, 6].into_iter().collect();
    assert!(any_input_dirty(&ids(&[1, 6]), &dirty));
    assert!(!any_input_dirty(&ids(&[1, 5]), &dirty));
    assert!(!any_input_dirty(&ids(&[]), &dirty));
}

#[test]
fn leaf_marker_is_a_plain_marker() {
    let m: LeafMarker<u32> = LeafMarker::new();
    let n = m;
    let _ = (m, n);
}

use shame_gui::graph::{plan_fanout, KeyDirty};

fn rec(present: bool, full: bool, added: bool, removed: bool, ports: &[u64]) -> KeyDirty {
    KeyDirty { present, full, added, removed, ports: ports.iter().copied().collect() }
}

#[test]
fn fanout_reprocesses_only_recorded_keys() {
    let records = vec![
        rec(true, false, true, false, &[]),   // inserted
        rec(true, false, false, false, &[5]), // unrelated element port
        rec(true, false, false, false, &[3]), // read element port written
        rec(false, false, false, true, &[]),  // removed
        rec(true, true, false, false, &[]),   // mutated as a whole
        rec(false, false, false, false, &[]), // gone without a remove record
    ];
    let plan = plan_fanout(&records, &ids(&[3, 4]), false);
    assert!(!plan.full);
    assert_eq!(plan.process, vec![0, 2, 4]);
    assert_eq!(plan.removed, vec![3]);
    assert!(plan.writes(10));
}

#[test]
fn full_fanout_reprocesses_everything() {
    let records = vec![rec(true, false, true, false, &[])];
    let plan = plan_fanout(&records, &ids(&[]), true);
    assert!(plan.full);
    assert!(plan.process.is_empty() && plan.removed.is_empty());
    assert!(plan.writes(1));
    assert!(!plan.writes(0));
    let quiet = plan_fanout(&vec![rec(true, false, false, false, &[1])], &ids(&[2]), false);
    assert!(!quiet.writes(5));
}

#[test]
fn tagging_a_sorted_untagged_node_keeps_the_order_valid() {
    let mut t = Topology::new();
    t.add_node(ids(&[3]), ids(&[]), None);
    t.add_node(ids(&[4]), ids(&[3]), None);
    assert!(t.prepare_tick());
    assert_eq!(t.run_order(), vec![0, 1]);
    t.mark_last_map_node(PortId::new(3));
    assert!(!t.is_stale());
    assert!(t.prepare_tick());
    assert_eq!(t.run_order(), vec![0, 1]);
}
