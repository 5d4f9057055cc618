use reasons_core::network::{Justification, Network, Node};
use reasons_core::search::{
    search_results_as, choose_matches, fts_attempts, fts_query, is_stop_word, search_impl, search_results, search_terms,
    STOP_WORDS,
};

fn belief(id: &str, text: &str, tv: &str) -> Node {
    let mut n = Node::new(id, text);
    n.truth_value = tv.to_string();
    n
}

fn support(node_id: &str, ants: &[&str], outs: &[&str]) -> Justification {
    Justification {
        node_id: node_id.to_string(),
        jtype: "SL".to_string(),
        antecedents: ants.iter().map(|s| s.to_string()).collect(),
        outlist: outs.iter().map(|s| s.to_string()).collect(),
        label: String::new(),
    }
}

fn strings(v: &[&str]) -> Vec<String> {
    v.iter().map(|s| s.to_string()).collect()
}

fn search_net() -> Network {
    Network::load(
        vec![
            belief("rust-fast", "Rust programs are fast", "IN"),
            belief("llvm", "LLVM optimises well", "IN"),
            belief("old-claim", "Rust is slow", "OUT"),
        ],
        vec![support("rust-fast", &["llvm"], &["old-claim"])],
    )
}

#[test]
fn stop_word_list_is_complete() {
    assert_eq!(STOP_WORDS.len(), 130);
    assert!(is_stop_word("the"));
    assert!(is_stop_word("yourselves"));
    assert!(!is_stop_word("The"));
    assert!(!is_stop_word("rust"));
}

#[test]
fn search_terms_lower_case_and_drop_stop_words() {
    assert_eq!(search_terms("Why is RUST  fast?"), strings(&["rust", "fast?"]));
    assert!(search_terms("the and of").is_empty());
    assert!(search_terms("   ").is_empty());
}

#[test]
fn search_terms_lower_case_before_filtering() {
    // "The" is a stop word once lower-cased.
    assert_eq!(search_terms("The Borrow Checker"), strings(&["borrow", "checker"]));
}

#[test]
fn fts_query_quotes_each_term() {
    let terms = strings(&["borrow", "checker", "rules"]);
    assert_eq!(fts_query(&terms, 3), "\"borrow\" \"checker\" \"rules\"");
    assert_eq!(fts_query(&terms, 1), "\"borrow\"");
    assert_eq!(fts_query(&terms, 0), "");
}

#[test]
fn fts_attempts_drop_up_to_half_the_terms() {
    assert_eq!(fts_attempts(&strings(&["one"])), strings(&["\"one\""]));
    assert_eq!(
        fts_attempts(&strings(&["a", "b", "c", "d", "e"])),
        strings(&[
            "\"a\" \"b\" \"c\" \"d\" \"e\"",
            "\"a\" \"b\" \"c\" \"d\"",
            "\"a\" \"b\" \"c\"",
        ])
    );
}

#[test]
fn choose_matches_takes_first_successful_attempt() {
    let attempts = vec![vec![], strings(&["x", "y"]), strings(&["z"])];
    assert_eq!(choose_matches(&attempts, &strings(&["s"])), strings(&["x", "y"]));
    let none: Vec<Vec<String>> = vec![vec![], vec![]];
    assert_eq!(choose_matches(&none, &strings(&["s"])), strings(&["s"]));
}

#[test]
fn search_results_mark_direct_matches_and_premises() {
    let net = search_net();
    let out = search_results(&net, &strings(&["rust-fast"]), 1, false);
    assert_eq!(out, "* [IN] rust-fast: Rust programs are fast\n  [IN] llvm: LLVM optimises well (premise)");
}

#[test]
fn search_results_include_out_nodes_on_request() {
    // An outlist entry reaches the node it defeats, not the other way round.
    let net = search_net();
    assert_eq!(
        search_results(&net, &strings(&["old-claim"]), 1, false),
        "  [IN] rust-fast: Rust programs are fast"
    );
    assert_eq!(
        search_results(&net, &strings(&["old-claim"]), 1, true),
        "* [OUT] old-claim: Rust is slow (premise)\n  [IN] rust-fast: Rust programs are fast"
    );
}

#[test]
fn search_results_at_depth_zero_show_only_matches() {
    let net = search_net();
    assert_eq!(search_results(&net, &strings(&["llvm"]), 0, false), "* [IN] llvm: LLVM optimises well (premise)");
    assert_eq!(search_results(&net, &strings(&["old-claim"]), 0, false), "No results found.");
    assert_eq!(search_results(&net, &strings(&["unknown"]), 3, true), "No results found.");
}

#[test]
fn search_results_cut_long_texts_at_eighty() {
    let long = "y".repeat(90);
    let net = Network::load(vec![belief("n", &long, "IN")], vec![]);
    let expected = format!("* [IN] n: {}... (premise)", "y".repeat(77));
    assert_eq!(search_results(&net, &strings(&["n"]), 1, false), expected);
}

#[test]
fn search_impl_reports_each_outcome() {
    let net = search_net();
    let none: Vec<Vec<String>> = vec![vec![]];
    assert_eq!(
        search_impl(&net, "the of", "markdown", &none, &vec![], 1, false),
        "No search terms after filtering stop words."
    );
    assert_eq!(search_impl(&net, "nothing", "markdown", &none, &vec![], 1, false), "No results found.");
    assert_eq!(
        search_impl(&net, "LLVM", "markdown", &vec![strings(&["llvm"])], &vec![], 0, false),
        "* [IN] llvm: LLVM optimises well (premise)"
    );
    assert_eq!(
        search_impl(&net, "LLVM", "markdown", &none, &strings(&["llvm"]), 0, false),
        "* [IN] llvm: LLVM optimises well (premise)"
    );
}

#[test]
fn search_results_in_json_and_minimal() {
    let net = search_net();
    let m = strings(&["rust-fast"]);
    assert_eq!(
        search_results_as(&net, &m, 1, false, "json"),
        "[{\"id\":\"rust-fast\",\"text\":\"Rust programs are fast\",\"truth_value\":\"IN\",\"source\":\"\",\"source_url\":\"\"},{\"id\":\"llvm\",\"text\":\"LLVM optimises well\",\"truth_value\":\"IN\",\"source\":\"\",\"source_url\":\"\"}]"
    );
    assert_eq!(search_results_as(&net, &m, 1, false, "minimal"), "rust-fast [IN]\nllvm [IN]");
    assert_eq!(
        search_results_as(&net, &m, 1, false, "markdown"),
        search_results(&net, &m, 1, false)
    );
    assert_eq!(search_results_as(&net, &strings(&["nope"]), 1, false, "json"), "No results found.");
    assert_eq!(
        search_impl(&net, "LLVM", "minimal", &vec![strings(&["llvm"])], &vec![], 0, false),
        "llvm [IN]"
    );
}

#[test]
fn json_strings_are_escaped() {
    let net = Network::load(vec![belief("q", "say \"hi\"\\\n\u{1}", "IN")], vec![]);
    let out = search_results_as(&net, &strings(&["q"]), 0, false, "json");
    assert!(out.contains("\"text\":\"say \\\"hi\\\"\\\\\\n\\u0001\""));
    let parsed: serde_json::Value = serde_json::from_str(&out).unwrap();
    assert_eq!(parsed[0]["text"], "say \"hi\"\\\n\u{1}");
}
