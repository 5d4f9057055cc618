use reasons_core::desktop::{add_challenge, mark_defense, JsonValue};
use reasons_core::network::{Justification, Network, Node};
use reasons_core::tms::{
    add_belief, apply_challenge, assert_node, backtrack, downstream, is_supported, relabel, retract, support_of,
};
use reasons_core::update::{add_impl, challenge_impl, defend_impl};

fn belief(id: &str, tv: &str) -> Node {
    let mut n = Node::new(id, &format!("{} text", id));
    n.truth_value = tv.to_string();
    n
}

fn because(node_id: &str, ants: &[&str], outs: &[&str]) -> Justification {
    Justification {
        node_id: node_id.to_string(),
        jtype: "SL".to_string(),
        antecedents: ants.iter().map(|s| s.to_string()).collect(),
        outlist: outs.iter().map(|s| s.to_string()).collect(),
        label: String::new(),
    }
}

fn truth(net: &Network, id: &str) -> String {
    net.nodes.iter().rev().find(|n| n.id == id).map(|n| n.truth_value.clone()).unwrap_or_default()
}

fn names(v: &[&str]) -> Vec<String> {
    v.iter().map(|s| s.to_string()).collect()
}

/// Tweety flies because she is a bird and birds fly, unless she is a penguin.
fn birds() -> Network {
    Network::load(
        vec![
            belief("bird", "IN"),
            belief("birds-fly", "IN"),
            belief("penguin", "OUT"),
            belief("flies", "IN"),
            belief("nests-high", "IN"),
        ],
        vec![because("flies", &["bird", "birds-fly"], &["penguin"]), because("nests-high", &["flies"], &[])],
    )
}

#[test]
fn downstream_lists_dependents_after_the_node() {
    let net = birds();
    let (d, closed) = downstream(&net, "bird");
    assert_eq!(d, names(&["bird", "flies", "nests-high"]));
    assert!(closed);
    let (d, _) = downstream(&net, "penguin");
    assert_eq!(d, names(&["penguin", "flies", "nests-high"]));
}

#[test]
fn retract_cascades_to_dependents() {
    // Law: retracting a premise flips everything that rested on it.
    let mut net = birds();
    let r = retract(&mut net, "bird");
    assert!(r.settled);
    assert_eq!(truth(&net, "bird"), "OUT");
    assert_eq!(truth(&net, "flies"), "OUT");
    assert_eq!(truth(&net, "nests-high"), "OUT");
    assert_eq!(truth(&net, "birds-fly"), "IN");
    assert_eq!(r.changed, names(&["flies", "nests-high"]));
    assert_eq!(r.scope, names(&["bird", "flies", "nests-high"]));
}

#[test]
fn assert_node_restores_what_retract_removed() {
    let mut net = birds();
    retract(&mut net, "bird");
    let r = assert_node(&mut net, "bird");
    assert!(r.settled);
    assert_eq!(truth(&net, "flies"), "IN");
    assert_eq!(truth(&net, "nests-high"), "IN");
    assert_eq!(r.changed, names(&["flies", "nests-high"]));
}

#[test]
fn an_exception_coming_in_defeats_the_default() {
    let mut net = birds();
    let r = assert_node(&mut net, "penguin");
    assert_eq!(truth(&net, "flies"), "OUT");
    assert_eq!(truth(&net, "nests-high"), "OUT");
    assert_eq!(r.changed, names(&["flies", "nests-high"]));
}

#[test]
fn adding_a_premise_re_derives_beliefs_waiting_on_it() {
    let mut net = Network::load(vec![belief("d", "OUT")], vec![because("d", &["x"], &[])]);
    let (node, j) = add_impl(&net, "x", "X", None, None, None, None, None).unwrap();
    let r = add_belief(&mut net, node, j);
    assert!(r.settled);
    assert_eq!(truth(&net, "x"), "IN");
    assert_eq!(truth(&net, "d"), "IN");
    assert_eq!(r.changed, names(&["d"]));
}

#[test]
fn adding_a_derived_belief_stores_its_justification() {
    let mut net = birds();
    let (node, j) = add_impl(&net, "sings", "sings", Some("bird"), None, None, None, None).unwrap();
    let r = add_belief(&mut net, node, j);
    assert_eq!(truth(&net, "sings"), "IN");
    assert_eq!(net.justifications.len(), 3);
    assert!(r.changed.is_empty());
}

#[test]
fn challenge_then_defense_restores_a_premise() {
    let mut net = Network::load(vec![belief("p", "IN"), belief("q", "IN")], vec![because("q", &["p"], &[])]);
    let o = challenge_impl(&net, "p", "r1", None).unwrap();
    let r = apply_challenge(&mut net, "p", o);
    assert!(r.settled);
    assert_eq!(truth(&net, "p"), "OUT");
    assert_eq!(truth(&net, "challenge-p"), "IN");
    assert_eq!(truth(&net, "q"), "OUT");
    assert_eq!(r.changed, names(&["q"]));
    let d = defend_impl(&net, "p", "challenge-p", "r2", None);
    assert_eq!(
        d.message,
        "Challenged challenge-p with defense-challenge-p -> target is now OUT\nDefended p against challenge-p with defense-challenge-p"
    );
    let o = d.challenge.unwrap();
    let r = apply_challenge(&mut net, "challenge-p", o);
    assert!(r.settled);
    assert_eq!(truth(&net, "challenge-p"), "OUT");
    assert_eq!(truth(&net, "defense-challenge-p"), "IN");
    assert_eq!(truth(&net, "p"), "IN");
    assert_eq!(truth(&net, "q"), "IN");
    assert_eq!(r.changed, names(&["p", "q"]));
}

#[test]
fn challenge_records_itself_in_the_target_data() {
    let mut net = Network::load(vec![belief("p", "IN")], vec![]);
    let o = challenge_impl(&net, "p", "r1", Some("c1")).unwrap();
    apply_challenge(&mut net, "p", o);
    match &net.nodes[0].metadata {
        JsonValue::Object(ms) => {
            assert_eq!(ms.len(), 1);
            assert_eq!(ms[0].0, "challenges");
            match &ms[0].1 {
                JsonValue::Array(a) => {
                    assert_eq!(a.len(), 1);
                    assert!(matches!(&a[0], JsonValue::Str(s) if s == "c1"));
                }
                _ => panic!("challenges is not a list"),
            }
        }
        _ => panic!("metadata is not an object"),
    }
}

#[test]
fn defense_records_what_it_defends() {
    let net = Network::load(vec![belief("p", "OUT"), belief("challenge-p", "IN")], vec![because("p", &[], &["challenge-p"])]);
    let d = defend_impl(&net, "p", "challenge-p", "r2", Some("def"));
    let o = d.challenge.unwrap();
    match &o.challenge.metadata {
        JsonValue::Object(ms) => {
            let keys: Vec<&str> = ms.iter().map(|(k, _)| k.as_str()).collect();
            assert_eq!(keys, vec!["defense_target", "defends"]);
            assert!(matches!(&ms[0].1, JsonValue::Str(s) if s == "p"));
            assert!(matches!(&ms[1].1, JsonValue::Str(s) if s == "challenge-p"));
        }
        _ => panic!("metadata is not an object"),
    }
}

#[test]
fn challenge_data_helpers() {
    let m = add_challenge(JsonValue::Object(vec![]), "c1");
    let m = add_challenge(m, "c2");
    match &m {
        JsonValue::Object(ms) => match &ms[0].1 {
            JsonValue::Array(a) => assert_eq!(a.len(), 2),
            _ => panic!("not a list"),
        },
        _ => panic!("not an object"),
    }
    assert!(matches!(add_challenge(JsonValue::Null, "c"), JsonValue::Null));
    assert!(matches!(mark_defense(JsonValue::Bool(true), "t", "c"), JsonValue::Bool(true)));
}

#[test]
fn backtracking_retracts_the_least_entrenched_premise() {
    // `a` and `b` contradict; `a` rests on premises `p` (two dependents)
    // and `s` (one dependent); `b` is a premise with no dependents.
    let mut net = Network::load(
        vec![belief("p", "IN"), belief("s", "IN"), belief("a", "IN"), belief("b", "IN"), belief("k", "IN")],
        vec![because("a", &["p", "s"], &[]), because("k", &["p"], &[])],
    );
    let support = support_of(&net, &names(&["a", "b"]));
    assert_eq!(support, names(&["a", "b", "p", "s"]));
    let bt = backtrack(&mut net, &names(&["a", "b"]));
    assert_eq!(bt.culprit, Some(("b".to_string(), 0)));
    assert_eq!(truth(&net, "b"), "OUT");
    assert_eq!(truth(&net, "a"), "IN");
}

#[test]
fn backtracking_follows_support_to_premises() {
    let mut net = Network::load(
        vec![belief("p", "IN"), belief("s", "IN"), belief("a", "IN"), belief("k", "IN")],
        vec![because("a", &["p", "s"], &[]), because("k", &["p"], &[])],
    );
    let bt = backtrack(&mut net, &names(&["a"]));
    assert_eq!(bt.culprit, Some(("s".to_string(), 1)));
    let ch = bt.change.unwrap();
    assert_eq!(ch.changed, names(&["a"]));
    assert_eq!(truth(&net, "s"), "OUT");
    assert_eq!(truth(&net, "a"), "OUT");
    assert_eq!(truth(&net, "p"), "IN");
}

#[test]
fn backtracking_without_premises_changes_nothing() {
    let mut net = Network::load(vec![belief("a", "IN")], vec![because("a", &[], &[])]);
    let bt = backtrack(&mut net, &names(&["a"]));
    assert!(bt.culprit.is_none());
    assert!(bt.change.is_none());
    assert_eq!(truth(&net, "a"), "IN");
}

#[test]
fn relabel_and_support() {
    let mut net = birds();
    net.nodes[3].truth_value = "OUT".to_string();
    assert!(is_supported(&net, "flies"));
    let settled = relabel(&mut net, &names(&["bird", "flies", "nests-high"]));
    assert!(settled);
    assert_eq!(truth(&net, "flies"), "IN");
    assert!(!is_supported(&net, "bird"));
}

#[test]
fn an_odd_cycle_never_settles() {
    // x holds on a unless y; y holds on x: no assignment is consistent.
    let mut net = Network::load(
        vec![belief("a", "OUT"), belief("x", "OUT"), belief("y", "OUT")],
        vec![because("x", &["a"], &["y"]), because("y", &["x"], &[])],
    );
    let r = assert_node(&mut net, "a");
    assert!(!r.settled);
    assert_eq!(r.scope, names(&["a", "x", "y"]));
}
