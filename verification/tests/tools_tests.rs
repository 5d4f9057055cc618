use reasons_core::network::{Justification, Network, Node};
use reasons_core::tools::{add_tool, assert_tool, challenge_tool, defend_tool, nogood_tool, retract_tool};
use reasons_core::update::discovered_at;

fn rec(id: &str, tv: &str) -> Node {
    let mut n = Node::new(id, &id.to_uppercase());
    n.truth_value = tv.to_string();
    n
}

fn sup(node_id: &str, ants: &[&str], outs: &[&str]) -> Justification {
    Justification {
        node_id: node_id.to_string(),
        jtype: "SL".to_string(),
        antecedents: ants.iter().map(|s| s.to_string()).collect(),
        outlist: outs.iter().map(|s| s.to_string()).collect(),
        label: String::new(),
    }
}

fn value_of(net: &Network, id: &str) -> String {
    net.nodes.iter().rev().find(|n| n.id == id).map(|n| n.truth_value.clone()).unwrap_or_default()
}

fn list(v: &[&str]) -> Vec<String> {
    v.iter().map(|s| s.to_string()).collect()
}

#[test]
fn add_tool_re_derives_a_waiting_belief() {
    let mut net = Network::load(vec![], vec![]);
    assert_eq!(add_tool(&mut net, "d", "D", Some("x"), None, None, None, None), "Added d [OUT]");
    assert_eq!(add_tool(&mut net, "x", "X", None, None, None, None, None), "Added x [IN]");
    assert_eq!(value_of(&net, "d"), "IN");
    assert_eq!(net.justifications.len(), 1);
    assert_eq!(
        add_tool(&mut net, "x", "again", None, None, None, None, None),
        "Error: Node already exists: x"
    );
    assert_eq!(net.nodes.len(), 2);
}

#[test]
fn challenge_and_defend_tools_restore_a_belief() {
    let mut net = Network::load(vec![rec("p", "IN")], vec![]);
    assert_eq!(
        challenge_tool(&mut net, "p", "r1", None),
        "Challenged p with challenge-p -> target is now OUT"
    );
    assert_eq!(value_of(&net, "p"), "OUT");
    assert_eq!(value_of(&net, "challenge-p"), "IN");
    assert_eq!(
        defend_tool(&mut net, "p", "challenge-p", "r2", None),
        "Challenged challenge-p with defense-challenge-p -> target is now OUT\nDefended p against challenge-p with defense-challenge-p"
    );
    assert_eq!(value_of(&net, "p"), "IN");
    assert_eq!(value_of(&net, "challenge-p"), "OUT");
    assert_eq!(value_of(&net, "defense-challenge-p"), "IN");
}

#[test]
fn tools_refuse_missing_nodes() {
    let mut net = Network::load(vec![rec("p", "IN")], vec![]);
    assert_eq!(challenge_tool(&mut net, "q", "r", None), "Error: Node not found: q");
    assert_eq!(
        defend_tool(&mut net, "p", "q", "r", None),
        "Error: Node not found: q\nDefended p against q with defense-q"
    );
    assert_eq!(retract_tool(&mut net, "q"), "Error: Node not found: q");
    assert_eq!(assert_tool(&mut net, "q"), "Error: Node not found: q");
    assert_eq!(net.nodes.len(), 1);
}

#[test]
fn retract_then_assert_gives_every_value_back() {
    // Law: on an acyclic consistent network, asserting a premise undoes
    // its retraction.
    let mut net = Network::load(
        vec![rec("a", "IN"), rec("b", "IN"), rec("c", "IN"), rec("e", "OUT")],
        vec![sup("b", &["a"], &[]), sup("c", &["b"], &["e"])],
    );
    let before: Vec<String> = net.nodes.iter().map(|n| n.truth_value.clone()).collect();
    assert_eq!(retract_tool(&mut net, "a"), "Retracted a\n  Cascaded: b OUT, c OUT");
    assert_eq!(assert_tool(&mut net, "a"), "Asserted a\n  Cascaded: b IN, c IN");
    let after: Vec<String> = net.nodes.iter().map(|n| n.truth_value.clone()).collect();
    assert_eq!(before, after);
    assert_eq!(retract_tool(&mut net, "e"), "Retracted e");
}

#[test]
fn nogood_tool_backtracks_when_all_are_in() {
    let mut net = Network::load(
        vec![rec("p", "IN"), rec("a", "IN"), rec("b", "IN"), rec("k", "IN")],
        vec![sup("a", &["p"], &[]), sup("k", &["p"], &[]), sup("b", &["k"], &[])],
    );
    let (record, message) = nogood_tool(&mut net, &list(&["a", "b"]), 0).unwrap();
    assert_eq!(record.id, "nogood-001");
    assert_eq!(record.resolution, "Retracted p (entrenchment: 2)");
    assert_eq!(
        message,
        "Recorded contradiction: nogood-001\n  Nodes: a, b\n  All nodes are IN \u{2014} contradiction is active. Running backtracking...\n  Retracted p (entrenchment: 2)\n  Cascaded: a, b, k"
    );
    assert_eq!(value_of(&net, "a"), "OUT");
    assert_eq!(value_of(&net, "b"), "OUT");
}

#[test]
fn nogood_tool_leaves_an_inactive_contradiction() {
    let mut net = Network::load(vec![rec("a", "IN"), rec("b", "OUT")], vec![]);
    let (record, message) = nogood_tool(&mut net, &list(&["a", "b"]), 4).unwrap();
    assert_eq!(record.id, "nogood-005");
    assert_eq!(record.resolution, "");
    assert_eq!(
        message,
        "Recorded contradiction: nogood-005\n  Nodes: a, b\n  Not all nodes are IN \u{2014} contradiction is not currently active."
    );
    assert_eq!(value_of(&net, "a"), "IN");
    assert_eq!(
        nogood_tool(&mut net, &list(&["a", "zz"]), 0).err(),
        Some("Error: Node not found: zz".to_string())
    );
}

#[test]
fn nogood_tool_without_premises() {
    let mut net = Network::load(vec![rec("a", "IN")], vec![sup("a", &[], &[])]);
    let (record, message) = nogood_tool(&mut net, &list(&["a"]), 0).unwrap();
    assert_eq!(record.resolution, "");
    assert!(message.ends_with("\n  No culprit found for backtracking."));
}

#[test]
fn discovered_text_of_a_clock_reading() {
    assert_eq!(discovered_at(Some((0, 0))), "1970-01-01T00:00:00+00:00");
    assert_eq!(discovered_at(Some((86400, 500_000_000))), "1970-01-02T00:00:00.500+00:00");
    assert_eq!(discovered_at(None), "");
    assert_eq!(discovered_at(Some((u64::MAX, 0))), "");
}
