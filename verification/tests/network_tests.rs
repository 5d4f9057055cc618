use reasons_core::network::{
    get_antecedents, get_dependents, justification_mentions, push_new, Justification, Network, Node,
};

fn node(id: &str, text: &str, tv: &str) -> Node {
    let mut n = Node::new(id, text);
    n.truth_value = tv.to_string();
    n
}

fn just(node_id: &str, ants: &[&str], outs: &[&str]) -> Justification {
    Justification {
        node_id: node_id.to_string(),
        jtype: "SL".to_string(),
        antecedents: ants.iter().map(|s| s.to_string()).collect(),
        outlist: outs.iter().map(|s| s.to_string()).collect(),
        label: String::new(),
    }
}

fn sample() -> Network {
    Network::load(
        vec![
            node("a", "premise a", "IN"),
            node("b", "premise b", "IN"),
            node("c", "derived c", "IN"),
            node("d", "derived d", "OUT"),
        ],
        vec![
            just("c", &["a", "b"], &[]),
            just("c", &["b", "a"], &[]),
            just("d", &["c"], &["a"]),
        ],
    )
}

#[test]
fn load_keeps_nodes_and_justifications_in_order() {
    let net = sample();
    let ids: Vec<&str> = net.nodes.iter().map(|n| n.id.as_str()).collect();
    assert_eq!(ids, vec!["a", "b", "c", "d"]);
    assert_eq!(net.justifications.len(), 3);
    assert_eq!(net.justifications[2].node_id, "d");
}

#[test]
fn find_node_takes_the_last_record_of_an_id() {
    let net = Network::load(vec![node("x", "old", "OUT"), node("y", "y", "IN"), node("x", "new", "IN")], vec![]);
    assert_eq!(net.find_node("x"), Some(2));
    assert_eq!(net.find_node("y"), Some(1));
    assert_eq!(net.find_node("z"), None);
}

#[test]
fn has_justification_tells_premises_apart() {
    let net = sample();
    assert!(!net.has_justification("a"));
    assert!(net.has_justification("c"));
    assert!(net.has_justification("d"));
    assert!(!net.has_justification("missing"));
}

#[test]
fn antecedents_are_distinct_in_first_seen_order() {
    let net = sample();
    assert_eq!(get_antecedents(&net, "c"), vec!["a".to_string(), "b".to_string()]);
    assert_eq!(get_antecedents(&net, "d"), vec!["c".to_string()]);
    assert!(get_antecedents(&net, "a").is_empty());
}

#[test]
fn dependents_include_outlist_mentions() {
    let net = sample();
    // `a` is an antecedent of `c` and in the outlist of `d`.
    assert_eq!(get_dependents(&net, "a"), vec!["c".to_string(), "d".to_string()]);
    assert_eq!(get_dependents(&net, "c"), vec!["d".to_string()]);
    assert!(get_dependents(&net, "d").is_empty());
}

#[test]
fn antecedent_and_dependent_agree() {
    // Law: whenever `x` is an antecedent of `y`, `y` is a dependent of `x`.
    let net = sample();
    for y in ["a", "b", "c", "d"] {
        for x in get_antecedents(&net, y) {
            assert!(get_dependents(&net, &x).contains(&y.to_string()), "{} above {}", x, y);
        }
    }
}

#[test]
fn justification_mentions_both_lists() {
    let j = just("d", &["c"], &["a"]);
    assert!(justification_mentions(&j, "c"));
    assert!(justification_mentions(&j, "a"));
    assert!(!justification_mentions(&j, "d"));
}

#[test]
fn push_new_skips_present_values() {
    let mut v = vec!["a".to_string()];
    push_new(&mut v, &"a".to_string());
    assert_eq!(v, vec!["a".to_string()]);
    push_new(&mut v, &"b".to_string());
    assert_eq!(v, vec!["a".to_string(), "b".to_string()]);
}
