use patcher::pattern::parse_config;
use patcher::reconcile::{pair_outcome, Graph, Outcome};

fn graph_with_ports(names: &[&str]) -> Graph {
    let mut g = Graph::new();
    for n in names {
        g.add_port(n.to_string());
    }
    g
}

#[test]
fn reconciliation_establishes_exclusive_wiring() {
    let mut g = graph_with_ports(&["o1", "o2", "i1", "i2"]);
    // Stray wiring that violates exclusivity in several ways.
    g.connect(&"o1".to_string(), &"i2".to_string());
    g.connect(&"o1".to_string(), &"i1".to_string());
    g.connect(&"o2".to_string(), &"i1".to_string());
    let (conns, errs) = parse_config("o[1-2] > i[1-2]");
    assert!(errs.is_empty());
    let outcomes = g.reconcile_all(&conns);
    assert_eq!(outcomes, vec![Outcome::Repair, Outcome::Repair]);
    for (o, i) in [("o1", "i1"), ("o2", "i2")] {
        assert!(g.is_connected(&o.to_string(), &i.to_string()));
        assert_eq!(g.connection_count(&o.to_string()), 1);
        assert_eq!(g.connection_count(&i.to_string()), 1);
    }
    assert!(!g.is_connected(&"o1".to_string(), &"i2".to_string()));
    assert!(!g.is_connected(&"o2".to_string(), &"i1".to_string()));
}

#[test]
fn second_pass_with_no_graph_change_does_nothing() {
    let mut g = graph_with_ports(&["o1", "o2", "i1", "i2"]);
    g.connect(&"o1".to_string(), &"i2".to_string());
    let (conns, _) = parse_config("o[1-2] > i[1-2]");
    g.reconcile_all(&conns);
    let second = g.reconcile_all(&conns);
    assert_eq!(second, vec![Outcome::Noop, Outcome::Noop]);
    for (o, i) in [("o1", "i1"), ("o2", "i2")] {
        assert!(g.is_connected(&o.to_string(), &i.to_string()));
        assert_eq!(g.connection_count(&o.to_string()), 1);
        assert_eq!(g.connection_count(&i.to_string()), 1);
    }
}

#[test]
fn already_exclusive_pair_is_left_alone() {
    let mut g = graph_with_ports(&["a", "b"]);
    g.connect(&"a".to_string(), &"b".to_string());
    let outcome = g.reconcile_pair(&"a".to_string(), &"b".to_string());
    assert_eq!(outcome, Outcome::Noop);
    assert!(g.is_connected(&"a".to_string(), &"b".to_string()));
    assert_eq!(g.connection_count(&"a".to_string()), 1);
}

#[test]
fn missing_ports_are_skipped_then_wired_once_present() {
    let mut g = graph_with_ports(&["somewhere"]);
    let (conns, errs) = parse_config("late_out > late_in");
    assert!(errs.is_empty());
    let outcomes = g.reconcile_all(&conns);
    assert_eq!(outcomes, vec![Outcome::Skip]);
    assert_eq!(g.connection_count(&"late_out".to_string()), 0);
    // The device appears; the next pass wires the pair.
    g.add_port("late_out".to_string());
    g.add_port("late_in".to_string());
    let outcomes = g.reconcile_all(&conns);
    assert_eq!(outcomes, vec![Outcome::Repair]);
    assert!(g.is_connected(&"late_out".to_string(), &"late_in".to_string()));
    assert_eq!(g.connection_count(&"late_out".to_string()), 1);
    assert_eq!(g.connection_count(&"late_in".to_string()), 1);
}

#[test]
fn one_port_present_still_skips() {
    let mut g = graph_with_ports(&["only_out"]);
    let outcome = g.reconcile_pair(&"only_out".to_string(), &"absent_in".to_string());
    assert_eq!(outcome, Outcome::Skip);
    assert_eq!(g.connection_count(&"only_out".to_string()), 0);
}

#[test]
fn repair_disconnects_everything_touching_both_ports() {
    let mut g = graph_with_ports(&["o", "i", "x", "y"]);
    g.connect(&"o".to_string(), &"x".to_string());
    g.connect(&"y".to_string(), &"i".to_string());
    let outcome = g.reconcile_pair(&"o".to_string(), &"i".to_string());
    assert_eq!(outcome, Outcome::Repair);
    assert!(g.is_connected(&"o".to_string(), &"i".to_string()));
    assert!(!g.is_connected(&"o".to_string(), &"x".to_string()));
    assert!(!g.is_connected(&"y".to_string(), &"i".to_string()));
    assert_eq!(g.connection_count(&"x".to_string()), 0);
    assert_eq!(g.connection_count(&"y".to_string()), 0);
}

#[test]
fn pair_outcome_decides_as_the_reconciler_does() {
    assert_eq!(pair_outcome(false, true, true, 1, 1), Outcome::Skip);
    assert_eq!(pair_outcome(true, false, false, 0, 0), Outcome::Skip);
    assert_eq!(pair_outcome(true, true, true, 1, 1), Outcome::Noop);
    assert_eq!(pair_outcome(true, true, false, 0, 0), Outcome::Repair);
    assert_eq!(pair_outcome(true, true, true, 2, 1), Outcome::Repair);
    assert_eq!(pair_outcome(true, true, true, 1, 3), Outcome::Repair);
}
