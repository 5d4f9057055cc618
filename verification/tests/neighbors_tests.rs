use reasons_core::neighbors::{copy_strings, expand_neighbors};
use reasons_core::network::{Justification, Network, Node};

fn vertex(id: &str) -> Node {
    Node::new(id, &format!("text of {}", id))
}

fn edge(node_id: &str, ants: &[&str], outs: &[&str]) -> Justification {
    Justification {
        node_id: node_id.to_string(),
        jtype: "SL".to_string(),
        antecedents: ants.iter().map(|s| s.to_string()).collect(),
        outlist: outs.iter().map(|s| s.to_string()).collect(),
        label: String::new(),
    }
}

fn ids(v: &[&str]) -> Vec<String> {
    v.iter().map(|s| s.to_string()).collect()
}

/// A chain a <- b <- c <- d (each derived from the previous), and e whose
/// outlist names c.
fn chain() -> Network {
    Network::load(
        vec![vertex("a"), vertex("b"), vertex("c"), vertex("d"), vertex("e")],
        vec![edge("b", &["a"], &[]), edge("c", &["b"], &[]), edge("d", &["c"], &[]), edge("e", &[], &["c"])],
    )
}

#[test]
fn depth_zero_returns_the_seeds() {
    let net = chain();
    assert_eq!(expand_neighbors(&net, &ids(&["c", "a"]), 0), ids(&["c", "a"]));
}

#[test]
fn depth_one_adds_antecedents_then_dependents() {
    let net = chain();
    assert_eq!(expand_neighbors(&net, &ids(&["c"]), 1), ids(&["c", "b", "d", "e"]));
}

#[test]
fn depth_two_reaches_two_steps_away() {
    let net = chain();
    assert_eq!(expand_neighbors(&net, &ids(&["c"]), 2), ids(&["c", "b", "d", "e", "a"]));
    assert_eq!(expand_neighbors(&net, &ids(&["a"]), 2), ids(&["a", "b", "c"]));
}

#[test]
fn expansion_lists_each_node_once() {
    // Law: the expansion holds the seeds first, then every node within the
    // depth exactly once.
    let net = chain();
    let r = expand_neighbors(&net, &ids(&["a", "d"]), 10);
    assert_eq!(r, ids(&["a", "d", "b", "c", "e"]));
    let mut sorted = r.clone();
    sorted.sort();
    sorted.dedup();
    assert_eq!(sorted.len(), r.len());
}

#[test]
fn unknown_seeds_are_kept() {
    let net = chain();
    assert_eq!(expand_neighbors(&net, &ids(&["zz"]), 3), ids(&["zz"]));
}

#[test]
fn copy_strings_copies() {
    let v = ids(&["x", "y"]);
    assert_eq!(copy_strings(&v), v);
    assert!(copy_strings(&[]).is_empty());
}

#[test]
fn wider_searches_keep_every_node() {
    // Law: a larger depth lists every node a smaller one lists, seeds first.
    let net = chain();
    for d in 0..4 {
        let narrow = expand_neighbors(&net, &ids(&["c"]), d);
        let wide = expand_neighbors(&net, &ids(&["c"]), d + 1);
        assert_eq!(wide[0], "c");
        for x in &narrow {
            assert!(wide.contains(x));
        }
    }
}
