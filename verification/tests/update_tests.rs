use reasons_core::explain::justification_holds;
use reasons_core::network::{Justification, Network, Node};
use reasons_core::update::{
    add_impl, added_message, all_nodes_in, assert_report, backtrack_report, challenge_impl, defend_impl,
    nogood_id, nogood_impl, parse_id_list, retract_report,
};

fn item(id: &str, text: &str, tv: &str) -> Node {
    let mut n = Node::new(id, text);
    n.truth_value = tv.to_string();
    n
}

fn rule(node_id: &str, ants: &[&str], outs: &[&str]) -> Justification {
    Justification {
        node_id: node_id.to_string(),
        jtype: "SL".to_string(),
        antecedents: ants.iter().map(|s| s.to_string()).collect(),
        outlist: outs.iter().map(|s| s.to_string()).collect(),
        label: String::new(),
    }
}

fn texts(v: &[&str]) -> Vec<String> {
    v.iter().map(|s| s.to_string()).collect()
}

fn world() -> Network {
    Network::load(
        vec![item("sun", "the sun is up", "IN"), item("rain", "it rains", "OUT"), item("walk", "go for a walk", "IN")],
        vec![rule("walk", &["sun"], &["rain"])],
    )
}

#[test]
fn parse_id_list_trims_and_drops_empty_fields() {
    assert_eq!(parse_id_list(" a, b ,,c , "), texts(&["a", "b", "c"]));
    assert!(parse_id_list("").is_empty());
    assert!(parse_id_list(" , ,").is_empty());
    assert_eq!(parse_id_list("solo"), texts(&["solo"]));
}

#[test]
fn add_refuses_an_existing_node() {
    let net = world();
    assert_eq!(
        add_impl(&net, "sun", "again", None, None, None, None, None).err(),
        Some("Error: Node already exists: sun".to_string())
    );
}

#[test]
fn add_a_premise() {
    let net = world();
    let (node, j) = add_impl(&net, "moon", "the moon is out", None, Some("sun"), Some("almanac"), Some("https://example.org/moon"), Some("x")).unwrap();
    assert_eq!(node.source, "almanac");
    assert_eq!(node.source_url, "https://example.org/moon");
    assert_eq!(node.id, "moon");
    assert_eq!(node.text, "the moon is out");
    assert_eq!(node.truth_value, "IN");
    assert!(j.is_none());
    assert_eq!(added_message(&node), "Added moon [IN]");
}

#[test]
fn add_a_supported_belief_is_in() {
    let net = world();
    let (node, j) = add_impl(&net, "picnic", "have a picnic", Some("sun, walk"), Some("rain"), None, None, Some("plan")).unwrap();
    assert_eq!(node.truth_value, "IN");
    let j = j.unwrap();
    assert_eq!(j.node_id, "picnic");
    assert_eq!(j.jtype, "SL");
    assert_eq!(j.antecedents, texts(&["sun", "walk"]));
    assert_eq!(j.outlist, texts(&["rain"]));
    assert_eq!(j.label, "plan");
    assert_eq!(added_message(&node), "Added picnic [IN]");
}

#[test]
fn add_an_unsupported_belief_is_out() {
    let net = world();
    let (node, j) = add_impl(&net, "umbrella", "take an umbrella", Some("rain"), None, None, None, None).unwrap();
    assert_eq!(node.truth_value, "OUT");
    let j = j.unwrap();
    assert!(j.outlist.is_empty());
    assert_eq!(j.label, "");
    // An outlist naming an IN node defeats the justification too.
    let (node, _) = add_impl(&net, "stay", "stay in", Some(""), Some("sun"), None, None, None).unwrap();
    assert_eq!(node.truth_value, "OUT");
    // A missing antecedent is not IN.
    let (node, _) = add_impl(&net, "fly", "fly", Some("wings"), None, None, None, None).unwrap();
    assert_eq!(node.truth_value, "OUT");
    // A missing outlist node does not defeat it.
    let (node, _) = add_impl(&net, "run", "run", Some("sun"), Some("storm"), None, None, None).unwrap();
    assert_eq!(node.truth_value, "IN");
}

#[test]
fn challenge_a_missing_node_fails() {
    let net = world();
    assert_eq!(
        challenge_impl(&net, "moon", "no", None).err(),
        Some("Error: Node not found: moon".to_string())
    );
}

#[test]
fn challenge_a_premise_gives_it_an_outlist() {
    let net = world();
    let o = challenge_impl(&net, "sun", "it is night", None).unwrap();
    assert_eq!(o.challenge.id, "challenge-sun");
    assert_eq!(o.challenge.text, "it is night");
    assert_eq!(o.challenge.truth_value, "IN");
    assert_eq!(o.target_justifications.len(), 1);
    let j = &o.target_justifications[0];
    assert_eq!(j.node_id, "sun");
    assert_eq!(j.jtype, "SL");
    assert!(j.antecedents.is_empty());
    assert_eq!(j.outlist, texts(&["challenge-sun"]));
    assert_eq!(o.target_truth, "OUT");
    assert_eq!(o.message, "Challenged sun with challenge-sun -> target is now OUT");
}

#[test]
fn challenge_a_derived_node_extends_each_outlist() {
    let net = world();
    let o = challenge_impl(&net, "walk", "too tired", Some("tired")).unwrap();
    assert_eq!(o.challenge.id, "tired");
    assert_eq!(o.target_justifications.len(), 1);
    assert_eq!(o.target_justifications[0].antecedents, texts(&["sun"]));
    assert_eq!(o.target_justifications[0].outlist, texts(&["rain", "tired"]));
    assert_eq!(o.target_truth, "OUT");
    assert_eq!(o.message, "Challenged walk with tired -> target is now OUT");
}

#[test]
fn challenge_twice_with_the_same_id_adds_it_once() {
    let net = Network::load(vec![item("t", "t", "OUT")], vec![rule("t", &[], &["c"])]);
    let o = challenge_impl(&net, "t", "again", Some("c")).unwrap();
    assert_eq!(o.target_justifications[0].outlist, texts(&["c"]));
}

#[test]
fn defense_restores_a_challenged_belief() {
    // Law: once the challenge node is OUT, the challenged justification
    // holds again exactly when the one it replaced did.
    let net = world();
    let o = challenge_impl(&net, "walk", "too tired", Some("tired")).unwrap();
    let challenged = copy_rule(&o.target_justifications[0]);
    let with_challenge_in = Network::load(
        vec![item("sun", "", "IN"), item("rain", "", "OUT"), item("walk", "", "OUT"), item("tired", "", "IN")],
        vec![],
    );
    assert!(!justification_holds(&with_challenge_in, &challenged));
    let defended = Network::load(
        vec![item("sun", "", "IN"), item("rain", "", "OUT"), item("walk", "", "OUT"), item("tired", "", "OUT")],
        vec![],
    );
    assert!(justification_holds(&defended, &challenged));
    assert!(justification_holds(&defended, &net.justifications[0]));
}

#[test]
fn defense_restores_a_challenged_premise() {
    // Law: a premise challenged and then defended is supported again.
    let net = world();
    let o = challenge_impl(&net, "sun", "eclipse", None).unwrap();
    let j = copy_rule(&o.target_justifications[0]);
    let challenged = Network::load(vec![item("challenge-sun", "eclipse", "IN")], vec![]);
    assert!(!justification_holds(&challenged, &j));
    let defended = Network::load(vec![item("challenge-sun", "eclipse", "OUT")], vec![]);
    assert!(justification_holds(&defended, &j));
}

fn copy_rule(j: &Justification) -> Justification {
    Justification {
        node_id: j.node_id.clone(),
        jtype: j.jtype.clone(),
        antecedents: j.antecedents.clone(),
        outlist: j.outlist.clone(),
        label: j.label.clone(),
    }
}

#[test]
fn defend_challenges_the_challenge() {
    let net = Network::load(
        vec![item("walk", "go", "OUT"), item("challenge-walk", "too tired", "IN")],
        vec![rule("walk", &[], &["challenge-walk"])],
    );
    let d = defend_impl(&net, "walk", "challenge-walk", "slept well", None);
    let o = d.challenge.as_ref().unwrap();
    assert_eq!(o.challenge.id, "defense-challenge-walk");
    assert_eq!(o.challenge.text, "slept well");
    assert_eq!(o.target_justifications[0].outlist, texts(&["defense-challenge-walk"]));
    assert_eq!(o.target_truth, "OUT");
    assert_eq!(
        d.message,
        "Challenged challenge-walk with defense-challenge-walk -> target is now OUT\nDefended walk against challenge-walk with defense-challenge-walk"
    );
}

#[test]
fn defend_against_a_missing_challenge() {
    let net = world();
    let d = defend_impl(&net, "walk", "nope", "because", Some("def"));
    assert!(d.challenge.is_err());
    assert_eq!(d.message, "Error: Node not found: nope\nDefended walk against nope with def");
}

#[test]
fn nogood_ids_are_zero_padded() {
    assert_eq!(nogood_id(1), "nogood-001");
    assert_eq!(nogood_id(42), "nogood-042");
    assert_eq!(nogood_id(999), "nogood-999");
    assert_eq!(nogood_id(1234), "nogood-1234");
    assert_eq!(nogood_id(0), "nogood-000");
}

#[test]
fn nogood_names_the_first_missing_node() {
    let net = world();
    assert_eq!(
        nogood_impl(&net, &texts(&["sun", "ghost", "phantom"]), 0, None).err(),
        Some("Error: Node not found: ghost".to_string())
    );
}

#[test]
fn nogood_of_in_nodes_is_active() {
    let net = world();
    let s = nogood_impl(&net, &texts(&["sun", "walk"]), 2, Some((0, 0))).unwrap();
    assert_eq!(s.record.id, "nogood-003");
    assert_eq!(s.record.nodes, texts(&["sun", "walk"]));
    assert_eq!(s.record.resolution, "");
    assert_eq!(s.record.discovered, "1970-01-01T00:00:00+00:00");
    assert!(s.all_in);
    assert_eq!(
        s.message,
        "Recorded contradiction: nogood-003\n  Nodes: sun, walk\n  All nodes are IN \u{2014} contradiction is active. Running backtracking..."
    );
}

#[test]
fn nogood_with_an_out_node_is_inactive() {
    let net = world();
    let s = nogood_impl(&net, &texts(&["sun", "rain"]), 0, None).unwrap();
    assert_eq!(s.record.id, "nogood-001");
    assert!(!s.all_in);
    assert_eq!(
        s.message,
        "Recorded contradiction: nogood-001\n  Nodes: sun, rain\n  Not all nodes are IN \u{2014} contradiction is not currently active."
    );
    assert!(all_nodes_in(&net, &texts(&["sun", "walk"])));
    assert!(!all_nodes_in(&net, &texts(&["sun", "rain"])));
    assert!(all_nodes_in(&net, &vec![]));
}

#[test]
fn backtrack_reports() {
    let (msg, res) = backtrack_report(Some("sun"), "2", &texts(&["walk", "picnic"]));
    assert_eq!(res, "Retracted sun (entrenchment: 2)");
    assert_eq!(msg, "\n  Retracted sun (entrenchment: 2)\n  Cascaded: walk, picnic");
    let (msg, _) = backtrack_report(Some("sun"), "0", &vec![]);
    assert_eq!(msg, "\n  Retracted sun (entrenchment: 0)");
    let (msg, res) = backtrack_report(None, "", &vec![]);
    assert_eq!(msg, "\n  No culprit found for backtracking.");
    assert_eq!(res, "");
}

#[test]
fn retract_and_assert_reports() {
    let before = world();
    let after = Network::load(
        vec![item("sun", "the sun is up", "OUT"), item("rain", "it rains", "OUT"), item("walk", "go for a walk", "OUT")],
        vec![rule("walk", &["sun"], &["rain"])],
    );
    assert_eq!(
        retract_report(&before, &after, "sun", &texts(&["walk", "gone"])),
        "Retracted sun\n  Cascaded: walk OUT, gone ?"
    );
    assert_eq!(retract_report(&before, &after, "sun", &vec![]), "Retracted sun");
    assert_eq!(retract_report(&before, &after, "moon", &vec![]), "Error: Node not found: moon");
    assert_eq!(
        assert_report(&after, &before, "sun", &texts(&["walk"])),
        "Asserted sun\n  Cascaded: walk IN"
    );
}

#[test]
fn nogood_ids_never_repeat() {
    // Law: different contradiction numbers give different identifiers.
    let ids: Vec<String> = (0..1200).map(nogood_id).collect();
    let mut sorted = ids.clone();
    sorted.sort();
    sorted.dedup();
    assert_eq!(sorted.len(), ids.len());
}
