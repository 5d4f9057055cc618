//! The dependency tree of a node, drawn with box-drawing characters.
use vstd::prelude::*;
use crate::network::{Network, Node, get_antecedents, get_dependents, node_lookup};
use crate::text::{contains_str, owned, str_eq, truncate, truncated, views};

verus! {

/// The identifiers of the stored nodes.
pub open spec fn node_ids(nodes: Seq<Node>) -> Set<Seq<char>> {
    id_seq(nodes).to_set()
}

/// The identifiers of the stored nodes, in load order.
pub open spec fn id_seq(nodes: Seq<Node>) -> Seq<Seq<char>> {
    nodes.map_values(|n: Node| n.id@)
}

/// How many stored nodes are not yet on the visited path.
pub open spec fn unvisited(net: Network, visited: Seq<Seq<char>>) -> nat {
    node_ids(net.nodes@).difference(visited.to_set()).len()
}

/// A node that is found is stored under its identifier.
pub proof fn lemma_lookup_found(nodes: Seq<Node>, id: Seq<char>)
    requires
        node_lookup(nodes, id) is Some,
    ensures
        node_ids(nodes).contains(id),
        node_lookup(nodes, id)->0.id@ == id,
    decreases nodes.len(),
{
    if nodes.last().id@ == id {
        assert(id_seq(nodes)[nodes.len() - 1] == id);
    } else {
        lemma_lookup_found(nodes.drop_last(), id);
        let k = choose|k: int| 0 <= k < id_seq(nodes.drop_last()).len() && id_seq(nodes.drop_last())[k] == id;
        assert(id_seq(nodes)[k] == id);
    }
}

/// Visiting a stored node that was not yet visited leaves fewer to visit.
pub proof fn lemma_unvisited_shrinks(net: Network, visited: Seq<Seq<char>>, id: Seq<char>)
    requires
        node_lookup(net.nodes@, id) is Some,
        !visited.contains(id),
    ensures
        unvisited(net, visited.push(id)) < unvisited(net, visited),
{
    lemma_lookup_found(net.nodes@, id);
    let u = node_ids(net.nodes@);
    let before = u.difference(visited.to_set());
    let after = u.difference(visited.push(id).to_set());
    assert(u.finite()) by {
        id_seq(net.nodes@).lemma_cardinality_of_set();
    }
    assert(after =~= before.remove(id)) by {
        assert forall|x: Seq<char>| visited.push(id).to_set().contains(x) <==> (visited.to_set().contains(x) || x == id) by {
            if visited.push(id).contains(x) && x != id {
                let k = choose|k: int| 0 <= k < visited.push(id).len() && visited.push(id)[k] == x;
                assert(visited[k] == x);
            }
            if visited.contains(x) {
                let k = choose|k: int| 0 <= k < visited.len() && visited[k] == x;
                assert(visited.push(id)[k] == x);
            }
            if x == id {
                assert(visited.push(id)[visited.len() as int] == x);
            }
        }
    }
    assert(before.contains(id));
}

/// The connector drawn before a child: the last child closes the branch.
pub open spec fn connector(is_last: bool) -> Seq<char> {
    if is_last {
        "\u{2514}\u{2500}\u{2500} "@
    } else {
        "\u{251c}\u{2500}\u{2500} "@
    }
}

/// The prefix that continues below a child.
pub open spec fn continuation(is_last: bool) -> Seq<char> {
    if is_last {
        "    "@
    } else {
        "\u{2502}   "@
    }
}

/// ` (premise)` for a node with no justification, nothing otherwise.
pub open spec fn premise_tag(net: Network, id: Seq<char>) -> Seq<char> {
    if net.is_premise(id) {
        " (premise)"@
    } else {
        Seq::empty()
    }
}

/// The next level of the tree below `id`: its antecedents going up, its
/// dependents going down, nothing for any other direction.
pub open spec fn tree_children(net: Network, id: Seq<char>, direction: Seq<char>) -> Seq<Seq<char>> {
    if direction == "up"@ {
        net.antecedent_ids(id)
    } else if direction == "down"@ {
        net.dependent_ids(id)
    } else {
        Seq::empty()
    }
}

/// The lines drawn for `children` at `depth`, below `prefix`, with `visited`
/// the nodes on the path from the root. Nothing is drawn beyond `max_depth`.
/// A child already on the path is marked circular; a child that is not
/// stored is skipped; a stored child gets its line and, below it, its own
/// subtree (which stops at `usize::MAX` levels).
pub open spec fn render_children(
    net: Network,
    children: Seq<Seq<char>>,
    direction: Seq<char>,
    depth: nat,
    max_depth: Option<usize>,
    visited: Seq<Seq<char>>,
    prefix: Seq<char>,
) -> Seq<char>
    decreases unvisited(net, visited), 2nat, 0nat,
{
    if max_depth matches Some(m) && depth > m {
        Seq::empty()
    } else {
        render_from(net, children, 0, direction, depth, max_depth, visited, prefix)
    }
}

/// The lines drawn for `children[i..]`.
pub open spec fn render_from(
    net: Network,
    children: Seq<Seq<char>>,
    i: int,
    direction: Seq<char>,
    depth: nat,
    max_depth: Option<usize>,
    visited: Seq<Seq<char>>,
    prefix: Seq<char>,
) -> Seq<char>
    decreases unvisited(net, visited), 1nat, children.len() - i,
{
    if i >= children.len() || i < 0 {
        Seq::empty()
    } else {
        render_one(net, children[i], i == children.len() - 1, direction, depth, max_depth, visited, prefix)
            + render_from(net, children, i + 1, direction, depth, max_depth, visited, prefix)
    }
}

/// The lines drawn for one child.
pub open spec fn render_one(
    net: Network,
    child: Seq<char>,
    is_last: bool,
    direction: Seq<char>,
    depth: nat,
    max_depth: Option<usize>,
    visited: Seq<Seq<char>>,
    prefix: Seq<char>,
) -> Seq<char>
    decreases unvisited(net, visited), 0nat, 0nat,
{
    if visited.contains(child) {
        prefix + connector(is_last) + child + " (circular)\n"@
    } else {
        match node_lookup(net.nodes@, child) {
            None => Seq::empty(),
            Some(node) => {
                let line = prefix + connector(is_last) + node.id@ + " ["@ + node.truth_value@ + "]: "@
                    + truncated(node.text@, 60) + premise_tag(net, child) + "\n"@;
                let grand = tree_children(net, child, direction);
                if grand.len() > 0 && depth < usize::MAX {
                    proof {
                        lemma_unvisited_shrinks(net, visited, child);
                    }
                    line + render_children(
                        net,
                        grand,
                        direction,
                        depth + 1,
                        max_depth,
                        visited.push(child),
                        prefix + continuation(is_last),
                    )
                } else {
                    line
                }
            },
        }
    }
}

fn append_connector(out: &mut String, is_last: bool)
    ensures
        final(out)@ == old(out)@ + connector(is_last),
{
    if is_last {
        out.append("\u{2514}\u{2500}\u{2500} ");
    } else {
        out.append("\u{251c}\u{2500}\u{2500} ");
    }
}

fn append_premise_tag(out: &mut String, net: &Network, id: &str)
    ensures
        final(out)@ == old(out)@ + premise_tag(*net, id@),
{
    if !net.has_justification(id) {
        out.append(" (premise)");
    } else {
        assert(old(out)@ + Seq::<char>::empty() == old(out)@);
    }
}

/// The next level of the tree below `id` in `direction`.
pub fn children_of(net: &Network, id: &str, direction: &str) -> (r: Vec<String>)
    ensures
        views(r@) == tree_children(*net, id@, direction@),
{
    if str_eq(direction, "up") {
        get_antecedents(net, id)
    } else if str_eq(direction, "down") {
        get_dependents(net, id)
    } else {
        let r: Vec<String> = Vec::new();
        assert(views(r@) =~= Seq::<Seq<char>>::empty());
        r
    }
}

/// Draws the subtree below `children` at `depth` into `out`: one line per
/// child under `prefix`, children already on the `visited` path marked
/// circular, and each stored child followed by its own subtree in
/// `direction`. `visited` is the same afterwards.
pub fn tree_subtree(
    net: &Network,
    children: &[String],
    direction: &str,
    depth: usize,
    max_depth: Option<usize>,
    visited: &mut Vec<String>,
    prefix: &str,
    out: &mut String,
)
    ensures
        final(out)@ == old(out)@ + render_children(
            *net,
            views(children@),
            direction@,
            depth as nat,
            max_depth,
            views(old(visited)@),
            prefix@,
        ),
        final(visited)@ == old(visited)@,
    decreases unvisited(*net, views(old(visited)@)), 2nat, 0nat,
{
    let ghost ch = views(children@);
    let ghost v0 = views(visited@);
    let ghost out0 = out@;
    if let Some(max) = max_depth {
        if depth > max {
            assert(out0 + Seq::<char>::empty() == out0);
            return;
        }
    }
    let mut i: usize = 0;
    while i < children.len()
        invariant
            ch == views(children@),
            v0 == views(visited@),
            visited@ == old(visited)@,
            i <= ch.len(),
            out0 + render_from(*net, ch, 0, direction@, depth as nat, max_depth, v0, prefix@) == out@
                + render_from(*net, ch, i as int, direction@, depth as nat, max_depth, v0, prefix@),
        decreases ch.len() - i,
    {
        let is_last = i == children.len() - 1;
        draw_child(net, &children[i], is_last, direction, depth, max_depth, visited, prefix, out);
        assert(render_from(*net, ch, i as int, direction@, depth as nat, max_depth, v0, prefix@)
            == render_one(*net, ch[i as int], is_last, direction@, depth as nat, max_depth, v0, prefix@)
            + render_from(*net, ch, i + 1, direction@, depth as nat, max_depth, v0, prefix@));
        i = i + 1;
    }
    assert(out@ + render_from(*net, ch, i as int, direction@, depth as nat, max_depth, v0, prefix@) == out@);
}

/// The line drawn for a stored child.
pub open spec fn node_line(net: Network, node: Node, is_last: bool, prefix: Seq<char>) -> Seq<char> {
    prefix + connector(is_last) + node.id@ + " ["@ + node.truth_value@ + "]: "@ + truncated(node.text@, 60)
        + premise_tag(net, node.id@) + "\n"@
}

fn draw_child(
    net: &Network,
    child: &String,
    is_last: bool,
    direction: &str,
    depth: usize,
    max_depth: Option<usize>,
    visited: &mut Vec<String>,
    prefix: &str,
    out: &mut String,
)
    ensures
        final(out)@ == old(out)@ + render_one(
            *net,
            child@,
            is_last,
            direction@,
            depth as nat,
            max_depth,
            views(old(visited)@),
            prefix@,
        ),
        final(visited)@ == old(visited)@,
    decreases unvisited(*net, views(old(visited)@)), 0nat, 0nat,
{
    let ghost v0 = views(visited@);
    if contains_str(visited, child.as_str()) {
        out.append(prefix);
        append_connector(out, is_last);
        out.append(child.as_str());
        out.append(" (circular)\n");
        return;
    }
    match net.find_node(child.as_str()) {
        None => {
            assert(old(out)@ + Seq::<char>::empty() == old(out)@);
        },
        Some(k) => {
            let node = &net.nodes[k];
            proof {
                lemma_lookup_found(net.nodes@, child@);
            }
            out.append(prefix);
            append_connector(out, is_last);
            out.append(node.id.as_str());
            out.append(" [");
            out.append(node.truth_value.as_str());
            out.append("]: ");
            let short = truncate(node.text.as_str(), 60);
            out.append(short.as_str());
            append_premise_tag(out, net, node.id.as_str());
            out.append("\n");
            assert(out@ == old(out)@ + node_line(*net, *node, is_last, prefix@));
            let grand = children_of(net, child.as_str(), direction);
            if grand.len() > 0 && depth < usize::MAX {
                let mut child_prefix = owned(prefix);
                if is_last {
                    child_prefix.append("    ");
                } else {
                    child_prefix.append("\u{2502}   ");
                }
                proof {
                    lemma_unvisited_shrinks(*net, v0, child@);
                }
                visited.push(child.clone());
                assert(views(visited@) == v0.push(child@));
                tree_subtree(
                    net,
                    grand.as_slice(),
                    direction,
                    depth + 1,
                    max_depth,
                    visited,
                    child_prefix.as_str(),
                    out,
                );
                visited.pop();
                assert(visited@ =~= old(visited)@);
            }
        },
    }
}

/// The whole tree of `id` in `direction` (`up`, `down` or `both`): the
/// node's own line, then its antecedents' subtree going up and its
/// dependents' subtree going down, as the direction asks.
pub open spec fn tree_text(net: Network, id: Seq<char>, direction: Seq<char>, max_depth: Option<usize>) -> Seq<char> {
    match node_lookup(net.nodes@, id) {
        None => "Node not found: "@ + id,
        Some(node) => {
            let header = node.id@ + " ["@ + node.truth_value@ + "]: "@ + truncated(node.text@, 70)
                + premise_tag(net, id) + "\n"@;
            let up = if direction == "up"@ || direction == "both"@ {
                render_children(net, net.antecedent_ids(id), "up"@, 1, max_depth, seq![id], Seq::empty())
            } else {
                Seq::empty()
            };
            let down = if direction == "down"@ || direction == "both"@ {
                render_children(net, net.dependent_ids(id), "down"@, 1, max_depth, seq![id], Seq::empty())
            } else {
                Seq::empty()
            };
            header + up + down
        },
    }
}

/// Nothing is drawn deeper than `max_depth`: below that level no line
/// appears, whichever direction the tree is drawn in.
pub proof fn lemma_nothing_below_max_depth(
    net: Network,
    children: Seq<Seq<char>>,
    direction: Seq<char>,
    depth: nat,
    m: usize,
    visited: Seq<Seq<char>>,
    prefix: Seq<char>,
)
    requires
        depth > m,
    ensures
        render_children(net, children, direction, depth, Some(m), visited, prefix) == Seq::<char>::empty(),
{
}

/// A child drawn at the last level allowed by `max_depth` gets its own line
/// and nothing below it, whichever direction the tree is drawn in.
pub proof fn lemma_last_level_is_leaf(
    net: Network,
    child: Seq<char>,
    is_last: bool,
    direction: Seq<char>,
    m: usize,
    visited: Seq<Seq<char>>,
    prefix: Seq<char>,
)
    requires
        !visited.contains(child),
        node_lookup(net.nodes@, child) is Some,
    ensures
        render_one(net, child, is_last, direction, m as nat, Some(m), visited, prefix)
            == node_line(net, node_lookup(net.nodes@, child)->0, is_last, prefix),
{
    let node = node_lookup(net.nodes@, child)->0;
    lemma_lookup_found(net.nodes@, child);
    let line = prefix + connector(is_last) + node.id@ + " ["@ + node.truth_value@ + "]: "@
        + truncated(node.text@, 60) + premise_tag(net, child) + "\n"@;
    assert(line == node_line(net, node, is_last, prefix));
    let grand = tree_children(net, child, direction);
    if grand.len() > 0 && m < usize::MAX {
        lemma_unvisited_shrinks(net, visited, child);
        lemma_nothing_below_max_depth(net, grand, direction, m as nat + 1, m, visited.push(child), prefix + continuation(is_last));
        assert(line + Seq::<char>::empty() == line);
    }
}

/// With `max_depth` of zero the tree is the node's own line alone, whichever
/// direction is asked for.
pub proof fn lemma_depth_zero_is_header(net: Network, id: Seq<char>, direction: Seq<char>)
    requires
        node_lookup(net.nodes@, id) is Some,
    ensures
        ({
            let node = node_lookup(net.nodes@, id)->0;
            tree_text(net, id, direction, Some(0usize)) == node.id@ + " ["@ + node.truth_value@ + "]: "@
                + truncated(node.text@, 70) + premise_tag(net, id) + "\n"@
        }),
{
    let node = node_lookup(net.nodes@, id)->0;
    let header = node.id@ + " ["@ + node.truth_value@ + "]: "@ + truncated(node.text@, 70) + premise_tag(net, id) + "\n"@;
    lemma_nothing_below_max_depth(net, net.antecedent_ids(id), "up"@, 1, 0, seq![id], Seq::empty());
    lemma_nothing_below_max_depth(net, net.dependent_ids(id), "down"@, 1, 0, seq![id], Seq::empty());
    assert(header + Seq::<char>::empty() + Seq::<char>::empty() == header);
}

/// The node's own line, which opens every tree drawn of it.
pub open spec fn tree_header(net: Network, node: Node) -> Seq<char> {
    node.id@ + " ["@ + node.truth_value@ + "]: "@ + truncated(node.text@, 70) + premise_tag(net, node.id@) + "\n"@
}

/// Drawn both ways, the tree is the tree going up followed by the part of
/// the tree going down that comes after the node's own line; a direction
/// other than `up`, `down` or `both` draws the node's line alone.
pub proof fn lemma_both_is_up_then_down(net: Network, id: Seq<char>, other: Seq<char>, max_depth: Option<usize>)
    requires
        node_lookup(net.nodes@, id) is Some,
        other != "up"@ && other != "down"@ && other != "both"@,
    ensures
        ({
            let h = tree_header(net, node_lookup(net.nodes@, id)->0);
            &&& tree_text(net, id, other, max_depth) == h
            &&& h.is_prefix_of(tree_text(net, id, "up"@, max_depth))
            &&& h.is_prefix_of(tree_text(net, id, "down"@, max_depth))
            &&& tree_text(net, id, "both"@, max_depth) == tree_text(net, id, "up"@, max_depth)
                + tree_text(net, id, "down"@, max_depth).skip(h.len() as int)
        }),
{
    let node = node_lookup(net.nodes@, id)->0;
    lemma_lookup_found(net.nodes@, id);
    let h = tree_header(net, node);
    let up = render_children(net, net.antecedent_ids(id), "up"@, 1, max_depth, seq![id], Seq::empty());
    let down = render_children(net, net.dependent_ids(id), "down"@, 1, max_depth, seq![id], Seq::empty());
    reveal_strlit("up");
    reveal_strlit("down");
    reveal_strlit("both");
    assert(premise_tag(net, node.id@) == premise_tag(net, id));
    assert("up"@.len() != "down"@.len() && "up"@.len() != "both"@.len() && "down"@[0] != "both"@[0]);
    assert(tree_text(net, id, "up"@, max_depth) == h + up + Seq::<char>::empty());
    assert(tree_text(net, id, "down"@, max_depth) == h + Seq::<char>::empty() + down);
    assert(tree_text(net, id, "both"@, max_depth) == h + up + down);
    assert(tree_text(net, id, other, max_depth) == h + Seq::<char>::empty() + Seq::<char>::empty());
    assert((h + up + Seq::<char>::empty()).subrange(0, h.len() as int) =~= h);
    assert((h + Seq::<char>::empty() + down).subrange(0, h.len() as int) =~= h);
    assert((h + Seq::<char>::empty() + down).skip(h.len() as int) =~= down);
    assert(h + up + down =~= (h + up + Seq::<char>::empty()) + down);
    assert(h + Seq::<char>::empty() + Seq::<char>::empty() =~= h);
}

/// The dependency tree of `node_id` in `direction`, at most `max_depth`
/// levels deep.
pub fn tree_impl(net: &Network, node_id: &str, direction: &str, max_depth: Option<usize>) -> (r: String)
    ensures
        r@ == tree_text(*net, node_id@, direction@, max_depth),
{
    let k = match net.find_node(node_id) {
        None => {
            let mut out = owned("Node not found: ");
            out.append(node_id);
            return out;
        },
        Some(k) => k,
    };
    proof {
        lemma_lookup_found(net.nodes@, node_id@);
    }
    let node = &net.nodes[k];
    let mut out = String::new();
    out.append(node.id.as_str());
    out.append(" [");
    out.append(node.truth_value.as_str());
    out.append("]: ");
    let short = truncate(node.text.as_str(), 70);
    out.append(short.as_str());
    append_premise_tag(&mut out, net, node_id);
    out.append("\n");
    let ghost header = out@;
    assert(header == node.id@ + " ["@ + node.truth_value@ + "]: "@ + truncated(node.text@, 70)
                + premise_tag(*net, node_id@) + "\n"@);
    let mut visited: Vec<String> = Vec::new();
    visited.push(owned(node_id));
    assert(views(visited@) =~= seq![node_id@]);
    proof {
        reveal_strlit("");
    }
    assert(""@ == Seq::<char>::empty());
    if str_eq(direction, "up") || str_eq(direction, "both") {
        let children = get_antecedents(net, node_id);
        tree_subtree(net, children.as_slice(), "up", 1, max_depth, &mut visited, "", &mut out);
        assert(out@ == header + render_children(*net, net.antecedent_ids(node_id@), "up"@, 1, max_depth, seq![node_id@], Seq::empty()));
    } else {
        assert(out@ == out@ + Seq::<char>::empty());
    }
    let ghost mid = out@;
    if str_eq(direction, "down") || str_eq(direction, "both") {
        let children = get_dependents(net, node_id);
        tree_subtree(net, children.as_slice(), "down", 1, max_depth, &mut visited, "", &mut out);
        assert(out@ == mid + render_children(*net, net.dependent_ids(node_id@), "down"@, 1, max_depth, seq![node_id@], Seq::empty()));
    } else {
        assert(out@ == out@ + Seq::<char>::empty());
    }
    out
}

} // verus!
