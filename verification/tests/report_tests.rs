use reasons_core::explain::{
    explain_impl, explain_recursive, failure_reason_list, first_valid_justification, indent_string,
    is_in, is_out_or_missing, justification_holds, justified_description,
};
use reasons_core::listing::{format_node_line, list_impl};
use reasons_core::network::{Justification, Network, Node};
use reasons_core::show::show_impl;
use reasons_core::tree::{children_of, tree_impl, tree_subtree};

fn n(id: &str, text: &str, tv: &str) -> Node {
    let mut n = Node::new(id, text);
    n.truth_value = tv.to_string();
    n
}

fn sl(node_id: &str, ants: &[&str], outs: &[&str], label: &str) -> Justification {
    Justification {
        node_id: node_id.to_string(),
        jtype: "SL".to_string(),
        antecedents: ants.iter().map(|s| s.to_string()).collect(),
        outlist: outs.iter().map(|s| s.to_string()).collect(),
        label: label.to_string(),
    }
}

/// p1 (IN) and p2 (OUT) are premises; d1 rests on p1; d2 rests on p1 and
/// p2, or on p1 unless d1.
fn beliefs() -> Network {
    Network::load(
        vec![
            n("p1", "first premise", "IN"),
            n("p2", "second premise", "OUT"),
            n("d1", "derived one", "IN"),
            n("d2", "derived two", "OUT"),
        ],
        vec![sl("d1", &["p1"], &[], "main"), sl("d2", &["p1", "p2"], &[], ""), sl("d2", &["p1"], &["d1"], "")],
    )
}

fn cycle() -> Network {
    Network::load(
        vec![n("x", "x text", "IN"), n("y", "y text", "IN")],
        vec![sl("x", &["y"], &[], ""), sl("y", &["x"], &[], "")],
    )
}

#[test]
fn show_lists_justifications_with_outlist_and_label() {
    let net = beliefs();
    assert_eq!(
        show_impl(&net, "d2"),
        "d2 [OUT]\n  derived two\n  Justifications:\n    [0] SL: p1, p2\n    [1] SL: p1 (unless: d1)\n"
    );
    assert_eq!(
        show_impl(&net, "d1"),
        "d1 [IN]\n  derived one\n  Justifications:\n    [0] SL: p1 [main]\n\n  Dependents:\n    d2 [OUT]: derived two\n"
    );
}

#[test]
fn show_lists_dependents_of_a_premise() {
    let net = beliefs();
    assert_eq!(
        show_impl(&net, "p1"),
        "p1 [IN]\n  first premise\n\n  Dependents:\n    d1 [IN]: derived one\n    d2 [OUT]: derived two\n"
    );
}

#[test]
fn show_reports_a_missing_node() {
    assert_eq!(show_impl(&beliefs(), "zz"), "Node not found: zz");
}

#[test]
fn explain_follows_the_valid_justification() {
    let net = beliefs();
    assert_eq!(explain_impl(&net, "d1"), "d1 is IN because:\n  Justified by SL: p1\n    p1 is IN (premise)\n");
}

#[test]
fn explain_gives_every_reason_an_out_node_fails() {
    let net = beliefs();
    assert_eq!(
        explain_impl(&net, "d2"),
        "d2 is OUT because:\n  SL: p1, p2 \u{2014} p2 is OUT\n  SL: p1 \u{2014} d1 is IN (in outlist)\n"
    );
}

#[test]
fn explain_premises_and_missing_nodes() {
    let net = beliefs();
    assert_eq!(explain_impl(&net, "p2"), "p2 is OUT (premise)\n");
    assert_eq!(explain_impl(&net, "zz"), "zz (not found)\n");
}

#[test]
fn explain_marks_cycles() {
    assert_eq!(
        explain_impl(&cycle(), "x"),
        "x is IN because:\n  Justified by SL: y\n    y is IN because:\n      Justified by SL: x\n        x (circular)\n"
    );
}

#[test]
fn explain_edge_reasons() {
    let net = Network::load(
        vec![n("p", "p", "IN"), n("r", "r", "OUT"), n("q", "q", "IN"), n("w", "w", "OUT")],
        vec![sl("r", &["p"], &[], ""), sl("q", &["r"], &[], ""), sl("w", &["ghost"], &[], "")],
    );
    // An OUT node whose justification holds: nothing explains it.
    assert_eq!(explain_impl(&net, "r"), "r is OUT because:\n  SL: p \u{2014} unknown reason\n");
    // An IN node none of whose justifications holds says so.
    assert_eq!(explain_impl(&net, "q"), "q is IN (no justification currently holds)\n");
    assert_eq!(explain_impl(&net, "w"), "w is OUT because:\n  SL: ghost \u{2014} ghost not found\n");
}

#[test]
fn explain_helpers() {
    let net = beliefs();
    assert_eq!(indent_string(3), "      ");
    assert!(is_in(&net, "p1"));
    assert!(!is_in(&net, "p2"));
    assert!(!is_in(&net, "zz"));
    assert!(is_out_or_missing(&net, "p2"));
    assert!(is_out_or_missing(&net, "zz"));
    assert!(!is_out_or_missing(&net, "d1"));
    assert!(justification_holds(&net, &net.justifications[0]));
    assert!(!justification_holds(&net, &net.justifications[2]));
    assert_eq!(first_valid_justification(&net, "d1"), Some(0));
    assert_eq!(first_valid_justification(&net, "d2"), None);
    assert_eq!(
        failure_reason_list(&net, &net.justifications[1]),
        vec!["p2 is OUT".to_string()]
    );
    assert_eq!(justified_description(&net.justifications[2]), "Justified by SL: p1 (unless: d1)");
    let mut visited = vec!["p1".to_string()];
    let mut out = String::from(">");
    explain_recursive(&net, "d1", &mut visited, 1, &mut out);
    assert_eq!(out, ">  d1 is IN because:\n    Justified by SL: p1\n      p1 (circular)\n");
    assert_eq!(visited, vec!["p1".to_string(), "d1".to_string()]);
}

#[test]
fn tree_up_draws_antecedents() {
    let net = beliefs();
    assert_eq!(
        tree_impl(&net, "d2", "up", None),
        "d2 [OUT]: derived two\n\u{251c}\u{2500}\u{2500} p1 [IN]: first premise (premise)\n\u{2514}\u{2500}\u{2500} p2 [OUT]: second premise (premise)\n"
    );
}

#[test]
fn tree_down_draws_dependents_with_continuation() {
    let net = beliefs();
    assert_eq!(
        tree_impl(&net, "p1", "down", None),
        "p1 [IN]: first premise (premise)\n\u{251c}\u{2500}\u{2500} d1 [IN]: derived one\n\u{2502}   \u{2514}\u{2500}\u{2500} d2 [OUT]: derived two\n\u{2514}\u{2500}\u{2500} d2 [OUT]: derived two\n"
    );
}

#[test]
fn tree_stops_at_max_depth() {
    let net = beliefs();
    assert_eq!(
        tree_impl(&net, "p1", "down", Some(1)),
        "p1 [IN]: first premise (premise)\n\u{251c}\u{2500}\u{2500} d1 [IN]: derived one\n\u{2514}\u{2500}\u{2500} d2 [OUT]: derived two\n"
    );
    assert_eq!(tree_impl(&net, "p1", "down", Some(0)), "p1 [IN]: first premise (premise)\n");
}

#[test]
fn tree_both_directions_and_others() {
    let net = beliefs();
    assert_eq!(
        tree_impl(&net, "d1", "both", None),
        "d1 [IN]: derived one\n\u{2514}\u{2500}\u{2500} p1 [IN]: first premise (premise)\n\u{2514}\u{2500}\u{2500} d2 [OUT]: derived two\n"
    );
    assert_eq!(tree_impl(&net, "d1", "sideways", None), "d1 [IN]: derived one\n");
    assert_eq!(tree_impl(&net, "zz", "up", None), "Node not found: zz");
}

#[test]
fn tree_marks_cycles() {
    assert_eq!(
        tree_impl(&cycle(), "x", "up", None),
        "x [IN]: x text\n\u{2514}\u{2500}\u{2500} y [IN]: y text\n    \u{2514}\u{2500}\u{2500} x (circular)\n"
    );
}

#[test]
fn tree_subtree_restores_the_path() {
    // Law: drawing a subtree leaves the visited path as it found it.
    let net = beliefs();
    let mut visited = vec!["p1".to_string()];
    let mut out = String::new();
    let children = children_of(&net, "p1", "down");
    tree_subtree(&net, &children, "down", 1, None, &mut visited, "", &mut out);
    assert_eq!(visited, vec!["p1".to_string()]);
    assert!(out.starts_with("\u{251c}\u{2500}\u{2500} d1"));
    assert!(children_of(&net, "p1", "left").is_empty());
}

#[test]
fn list_applies_each_filter() {
    let net = beliefs();
    assert_eq!(
        list_impl(&net, None, false, false, false),
        "[IN] p1: first premise\n[OUT] p2: second premise\n[IN] d1: derived one\n[OUT] d2: derived two"
    );
    assert_eq!(list_impl(&net, Some("IN"), false, false, false), "[IN] p1: first premise\n[IN] d1: derived one");
    assert_eq!(list_impl(&net, None, true, false, false), "[IN] p1: first premise\n[OUT] p2: second premise");
    assert_eq!(
        list_impl(&net, None, false, true, false),
        "[IN] p1: first premise\n[OUT] p2: second premise\n[IN] d1: derived one"
    );
    assert_eq!(list_impl(&net, Some("MAYBE"), false, false, false), "");
}

#[test]
fn list_by_impact_is_a_stable_descending_order() {
    // Law: ordering by impact puts nodes with more dependents first and
    // keeps the load order among equals.
    let net = Network::load(
        vec![n("a", "a", "IN"), n("b", "b", "IN"), n("c", "c", "IN"), n("d", "d", "IN")],
        vec![sl("a", &["c", "d"], &[], ""), sl("b", &["c"], &["b"], "")],
    );
    assert_eq!(list_impl(&net, None, false, false, true), "[IN] c: c\n[IN] b: b\n[IN] d: d\n[IN] a: a");
    assert_eq!(list_impl(&net, None, false, false, false), "[IN] a: a\n[IN] b: b\n[IN] c: c\n[IN] d: d");
}

#[test]
fn impact_counts_distinct_dependents() {
    // `x` is named three times by one belief, `y` once by each of two.
    let net = Network::load(
        vec![n("x", "x", "IN"), n("y", "y", "IN"), n("p", "p", "IN"), n("q", "q", "IN")],
        vec![sl("p", &["x", "x", "y"], &["x"], ""), sl("q", &["y"], &[], "")],
    );
    assert_eq!(
        list_impl(&net, None, true, false, true),
        "[IN] y: y\n[IN] x: x"
    );
}

#[test]
fn list_line_format() {
    let net = beliefs();
    assert_eq!(format_node_line(&net.nodes[1]), "[OUT] p2: second premise");
}
