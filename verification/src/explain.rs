//! Why a node is IN or OUT: the trace through its justifications.
use vstd::prelude::*;
use crate::network::{Justification, Network, justs_of, node_lookup};
use crate::text::{contains_str, join, joined, owned, str_eq, views};
use crate::tree::{lemma_lookup_found, lemma_unvisited_shrinks, node_ids, unvisited};

verus! {

/// `a` is stored and `IN`.
pub open spec fn holds_in(net: Network, a: Seq<char>) -> bool {
    match node_lookup(net.nodes@, a) {
        Some(n) => n.truth_value@ == "IN"@,
        None => false,
    }
}

/// `o` is not stored, or is stored and `OUT`.
pub open spec fn holds_out(net: Network, o: Seq<char>) -> bool {
    match node_lookup(net.nodes@, o) {
        Some(n) => n.truth_value@ == "OUT"@,
        None => true,
    }
}

/// A justification is valid when all its antecedents are IN and every node
/// of its outlist is OUT or missing.
pub open spec fn valid_justification(net: Network, j: Justification) -> bool {
    &&& forall|k: int| 0 <= k < j.antecedents@.len() ==> holds_in(net, #[trigger] j.antecedents@[k]@)
    &&& forall|k: int| 0 <= k < j.outlist@.len() ==> holds_out(net, #[trigger] j.outlist@[k]@)
}

/// The first valid justification among `js`.
pub open spec fn first_valid(net: Network, js: Seq<Justification>) -> Option<Justification>
    decreases js.len(),
{
    if js.len() == 0 {
        None
    } else {
        match first_valid(net, js.drop_last()) {
            Some(j) => Some(j),
            None => if valid_justification(net, js.last()) {
                Some(js.last())
            } else {
                None
            },
        }
    }
}

/// `2 * depth` spaces.
pub open spec fn indent(depth: nat) -> Seq<char> {
    Seq::new(2 * depth, |i: int| ' ')
}

/// `Justified by <type>: <antecedents>`, with ` (unless: <outlist>)` when the
/// outlist is not empty.
pub open spec fn justified_desc(j: Justification) -> Seq<char> {
    let base = "Justified by "@ + j.jtype@ + ": "@ + joined(views(j.antecedents@), ", "@);
    if j.outlist@.len() > 0 {
        base + " (unless: "@ + joined(views(j.outlist@), ", "@) + ")"@
    } else {
        base
    }
}

/// Why an antecedent fails: it is OUT, or it is not stored.
pub open spec fn antecedent_reasons(net: Network, ants: Seq<Seq<char>>) -> Seq<Seq<char>>
    decreases ants.len(),
{
    if ants.len() == 0 {
        Seq::empty()
    } else {
        let a = ants.last();
        let r = antecedent_reasons(net, ants.drop_last());
        match node_lookup(net.nodes@, a) {
            Some(n) => if n.truth_value@ == "OUT"@ {
                r.push(a + " is OUT"@)
            } else {
                r
            },
            None => r.push(a + " not found"@),
        }
    }
}

/// Why an outlist node defeats the justification: it is IN.
pub open spec fn outlist_reasons(net: Network, outs: Seq<Seq<char>>) -> Seq<Seq<char>>
    decreases outs.len(),
{
    if outs.len() == 0 {
        Seq::empty()
    } else {
        let o = outs.last();
        let r = outlist_reasons(net, outs.drop_last());
        match node_lookup(net.nodes@, o) {
            Some(n) => if n.truth_value@ == "IN"@ {
                r.push(o + " is IN (in outlist)"@)
            } else {
                r
            },
            None => r,
        }
    }
}

/// Every reason `j` does not hold, or `unknown reason` when none is found.
pub open spec fn failure_reasons(net: Network, j: Justification) -> Seq<Seq<char>> {
    let r = antecedent_reasons(net, views(j.antecedents@)) + outlist_reasons(net, views(j.outlist@));
    if r.len() == 0 {
        seq!["unknown reason"@]
    } else {
        r
    }
}

/// One line per justification of an OUT node, saying why it does not hold.
pub open spec fn failure_lines(net: Network, js: Seq<Justification>, ind: Seq<char>) -> Seq<char>
    decreases js.len(),
{
    if js.len() == 0 {
        Seq::empty()
    } else {
        let j = js.last();
        failure_lines(net, js.drop_last(), ind) + ind + "  "@ + j.jtype@ + ": "@ + joined(
            views(j.antecedents@),
            ", "@,
        ) + " \u{2014} "@ + joined(failure_reasons(net, j), "; "@) + "\n"@
    }
}

/// Adding visited nodes never leaves more to visit.
pub proof fn lemma_unvisited_grow(net: Network, visited: Seq<Seq<char>>, more: Seq<Seq<char>>)
    ensures
        unvisited(net, visited + more) <= unvisited(net, visited),
{
    let u = node_ids(net.nodes@);
    assert(u.finite()) by {
        crate::tree::id_seq(net.nodes@).lemma_cardinality_of_set();
    }
    let a = u.difference((visited + more).to_set());
    let b = u.difference(visited.to_set());
    assert(a.subset_of(b)) by {
        assert forall|x: Seq<char>| a.contains(x) implies b.contains(x) by {
            if visited.contains(x) {
                let k = choose|k: int| 0 <= k < visited.len() && visited[k] == x;
                assert((visited + more)[k] == x);
            }
        }
    }
    vstd::set_lib::lemma_len_subset(a, b);
}

/// The explanation of `id`, at `depth`, with `visited` the nodes explained
/// so far: the text, and the nodes it visits in turn. A node seen before is
/// marked circular; an IN node shows its first valid justification and then
/// explains each antecedent of it (unless that would nest beyond
/// `usize::MAX`), or says that none of its justifications holds; an OUT
/// node lists why each justification fails.
pub open spec fn explain_node(net: Network, id: Seq<char>, visited: Seq<Seq<char>>, depth: nat) -> (
    Seq<char>,
    Seq<Seq<char>>,
)
    decreases unvisited(net, visited), 0nat, 0nat,
{
    let ind = indent(depth);
    if visited.contains(id) {
        (ind + id + " (circular)\n"@, Seq::empty())
    } else {
        match node_lookup(net.nodes@, id) {
            None => (ind + id + " (not found)\n"@, seq![id]),
            Some(node) => {
                let js = net.justs(id);
                if js.len() == 0 {
                    (ind + id + " is "@ + node.truth_value@ + " (premise)\n"@, seq![id])
                } else if node.truth_value@ == "IN"@ {
                    match first_valid(net, js) {
                        None => (ind + id + " is IN (no justification currently holds)\n"@, seq![id]),
                        Some(j) => {
                            let head = ind + id + " is IN because:\n"@ + ind + "  "@ + justified_desc(j)
                                + "\n"@;
                            if depth + 2 <= usize::MAX {
                                proof {
                                    lemma_unvisited_shrinks(net, visited, id);
                                }
                                let sub = explain_list(
                                    net,
                                    views(j.antecedents@),
                                    0,
                                    visited.push(id),
                                    depth + 2,
                                );
                                (head + sub.0, seq![id] + sub.1)
                            } else {
                                (head, seq![id])
                            }
                        },
                    }
                } else {
                    (ind + id + " is OUT because:\n"@ + failure_lines(net, js, ind), seq![id])
                }
            },
        }
    }
}

/// The explanations of `ants[i..]` in turn, each seeing the nodes the
/// earlier ones visited.
pub open spec fn explain_list(
    net: Network,
    ants: Seq<Seq<char>>,
    i: int,
    visited: Seq<Seq<char>>,
    depth: nat,
) -> (Seq<char>, Seq<Seq<char>>)
    decreases unvisited(net, visited), 1nat, ants.len() - i,
{
    if i < 0 || i >= ants.len() {
        (Seq::empty(), Seq::empty())
    } else {
        let first = explain_node(net, ants[i], visited, depth);
        proof {
            lemma_unvisited_grow(net, visited, first.1);
        }
        let rest = explain_list(net, ants, i + 1, visited + first.1, depth);
        (first.0 + rest.0, first.1 + rest.1)
    }
}

/// `2 * depth` spaces.
pub fn indent_string(depth: usize) -> (r: String)
    ensures
        r@ == indent(depth as nat),
{
    let mut r = String::new();
    let mut i: usize = 0;
    assert(r@ =~= indent(0));
    while i < depth
        invariant
            i <= depth,
            r@ == indent(i as nat),
        decreases depth - i,
    {
        r.append("  ");
        proof {
            reveal_strlit("  ");
        }
        assert(r@ =~= indent((i + 1) as nat));
        i = i + 1;
    }
    r
}

/// Whether the node stored under `a` is IN.
pub fn is_in(net: &Network, a: &str) -> (r: bool)
    ensures
        r == holds_in(*net, a@),
{
    match net.find_node(a) {
        Some(k) => str_eq(net.nodes[k].truth_value.as_str(), "IN"),
        None => false,
    }
}

/// Whether `o` is missing or stored and OUT.
pub fn is_out_or_missing(net: &Network, o: &str) -> (r: bool)
    ensures
        r == holds_out(*net, o@),
{
    match net.find_node(o) {
        Some(k) => str_eq(net.nodes[k].truth_value.as_str(), "OUT"),
        None => true,
    }
}

/// Whether all antecedents of `j` are IN and its outlist OUT or missing.
pub fn justification_holds(net: &Network, j: &Justification) -> (r: bool)
    ensures
        r == valid_justification(*net, *j),
{
    let mut k: usize = 0;
    while k < j.antecedents.len()
        invariant
            k <= j.antecedents@.len(),
            forall|m: int| 0 <= m < k ==> holds_in(*net, #[trigger] j.antecedents@[m]@),
        decreases j.antecedents@.len() - k,
    {
        if !is_in(net, j.antecedents[k].as_str()) {
            return false;
        }
        k = k + 1;
    }
    let mut k: usize = 0;
    while k < j.outlist.len()
        invariant
            k <= j.outlist@.len(),
            forall|m: int| 0 <= m < j.antecedents@.len() ==> holds_in(*net, #[trigger] j.antecedents@[m]@),
            forall|m: int| 0 <= m < k ==> holds_out(*net, #[trigger] j.outlist@[m]@),
        decreases j.outlist@.len() - k,
    {
        if !is_out_or_missing(net, j.outlist[k].as_str()) {
            return false;
        }
        k = k + 1;
    }
    true
}

/// The position of the first valid justification of `id`.
pub fn first_valid_justification(net: &Network, id: &str) -> (r: Option<usize>)
    ensures
        match r {
            Some(k) => k < net.justifications@.len() && first_valid(*net, net.justs(id@)) == Some(
                net.justifications@[k as int],
            ),
            None => first_valid(*net, net.justs(id@)) is None,
        },
{
    let ghost js = net.justifications@;
    let mut found: Option<usize> = None;
    let mut i: usize = 0;
    while i < net.justifications.len()
        invariant
            js == net.justifications@,
            i <= js.len(),
            match found {
                Some(k) => k < js.len() && first_valid(*net, justs_of(js.take(i as int), id@)) == Some(js[k as int]),
                None => first_valid(*net, justs_of(js.take(i as int), id@)) is None,
            },
        decreases js.len() - i,
    {
        assert(js.take(i + 1).drop_last() == js.take(i as int));
        let j = &net.justifications[i];
        if str_eq(j.node_id.as_str(), id) {
            let ghost before = justs_of(js.take(i as int), id@);
            assert(justs_of(js.take(i + 1), id@) == before.push(*j));
            assert(before.push(*j).drop_last() == before);
            if found.is_none() && justification_holds(net, j) {
                found = Some(i);
            }
        }
        i = i + 1;
    }
    assert(js.take(js.len() as int) == js);
    found
}

/// The reasons justification `j` does not hold.
pub fn failure_reason_list(net: &Network, j: &Justification) -> (r: Vec<String>)
    ensures
        views(r@) == failure_reasons(*net, *j),
{
    let mut r: Vec<String> = Vec::new();
    let ghost ants = views(j.antecedents@);
    let mut k: usize = 0;
    while k < j.antecedents.len()
        invariant
            ants == views(j.antecedents@),
            k <= ants.len(),
            views(r@) == antecedent_reasons(*net, ants.take(k as int)),
        decreases ants.len() - k,
    {
        assert(ants.take(k + 1).drop_last() == ants.take(k as int));
        let a = &j.antecedents[k];
        match net.find_node(a.as_str()) {
            Some(m) => {
                if str_eq(net.nodes[m].truth_value.as_str(), "OUT") {
                    let mut line = owned(a.as_str());
                    line.append(" is OUT");
                    r.push(line);
                    assert(views(r@) =~= antecedent_reasons(*net, ants.take(k as int)).push(line@));
                }
            },
            None => {
                let mut line = owned(a.as_str());
                line.append(" not found");
                r.push(line);
                assert(views(r@) =~= antecedent_reasons(*net, ants.take(k as int)).push(line@));
            },
        }
        k = k + 1;
    }
    assert(ants.take(ants.len() as int) == ants);
    let ghost outs = views(j.outlist@);
    let ghost first = views(r@);
    let mut k: usize = 0;
    while k < j.outlist.len()
        invariant
            outs == views(j.outlist@),
            first == antecedent_reasons(*net, ants),
            k <= outs.len(),
            views(r@) == first + outlist_reasons(*net, outs.take(k as int)),
        decreases outs.len() - k,
    {
        assert(outs.take(k + 1).drop_last() == outs.take(k as int));
        let o = &j.outlist[k];
        match net.find_node(o.as_str()) {
            Some(m) => {
                if str_eq(net.nodes[m].truth_value.as_str(), "IN") {
                    let mut line = owned(o.as_str());
                    line.append(" is IN (in outlist)");
                    let ghost prev = views(r@);
                    r.push(line);
                    assert(views(r@) =~= prev.push(line@));
                }
            },
            None => {},
        }
        k = k + 1;
    }
    assert(outs.take(outs.len() as int) == outs);
    if r.len() == 0 {
        r.push(owned("unknown reason"));
        assert(views(r@) =~= seq!["unknown reason"@]);
    }
    r
}

/// `Justified by <type>: <antecedents>` with the outlist when there is one.
pub fn justified_description(j: &Justification) -> (r: String)
    ensures
        r@ == justified_desc(*j),
{
    let mut r = owned("Justified by ");
    r.append(j.jtype.as_str());
    r.append(": ");
    let ants = join(&j.antecedents, ", ");
    r.append(ants.as_str());
    if j.outlist.len() > 0 {
        r.append(" (unless: ");
        let outs = join(&j.outlist, ", ");
        r.append(outs.as_str());
        r.append(")");
    }
    r
}

/// Appends one line per justification of `id` saying why it does not hold.
fn append_failure_lines(net: &Network, id: &str, ind: &str, out: &mut String)
    ensures
        final(out)@ == old(out)@ + failure_lines(*net, net.justs(id@), ind@),
{
    let ghost js = net.justifications@;
    let mut i: usize = 0;
    while i < net.justifications.len()
        invariant
            js == net.justifications@,
            i <= js.len(),
            out@ == old(out)@ + failure_lines(*net, justs_of(js.take(i as int), id@), ind@),
        decreases js.len() - i,
    {
        assert(js.take(i + 1).drop_last() == js.take(i as int));
        let j = &net.justifications[i];
        if str_eq(j.node_id.as_str(), id) {
            let ghost before = justs_of(js.take(i as int), id@);
            assert(justs_of(js.take(i + 1), id@) == before.push(*j));
            assert(before.push(*j).drop_last() == before);
            out.append(ind);
            out.append("  ");
            out.append(j.jtype.as_str());
            out.append(": ");
            let ants = join(&j.antecedents, ", ");
            out.append(ants.as_str());
            out.append(" \u{2014} ");
            let reasons = failure_reason_list(net, j);
            let rs = join(&reasons, "; ");
            out.append(rs.as_str());
            out.append("\n");
        }
        i = i + 1;
    }
    assert(js.take(js.len() as int) == js);
}

/// Appends the explanation of `node_id` at `depth` to `out`, adding the
/// nodes it visits to `visited`.
pub fn explain_recursive(
    net: &Network,
    node_id: &str,
    visited: &mut Vec<String>,
    depth: usize,
    out: &mut String,
)
    ensures
        final(out)@ == old(out)@ + explain_node(*net, node_id@, views(old(visited)@), depth as nat).0,
        views(final(visited)@) == views(old(visited)@) + explain_node(
            *net,
            node_id@,
            views(old(visited)@),
            depth as nat,
        ).1,
    decreases unvisited(*net, views(old(visited)@)), 0nat, 0nat,
{
    let ghost v0 = views(visited@);
    let ind = indent_string(depth);
    if contains_str(visited, node_id) {
        out.append(ind.as_str());
        out.append(node_id);
        out.append(" (circular)\n");
        assert(views(visited@) == v0 + Seq::<Seq<char>>::empty());
        return;
    }
    visited.push(owned(node_id));
    assert(views(visited@) == v0.push(node_id@));
    assert(v0.push(node_id@) == v0 + seq![node_id@]);
    let k = match net.find_node(node_id) {
        None => {
            out.append(ind.as_str());
            out.append(node_id);
            out.append(" (not found)\n");
            return;
        },
        Some(k) => k,
    };
    proof {
        lemma_lookup_found(net.nodes@, node_id@);
    }
    let tv = &net.nodes[k].truth_value;
    if !net.has_justification(node_id) {
        out.append(ind.as_str());
        out.append(node_id);
        out.append(" is ");
        out.append(tv.as_str());
        out.append(" (premise)\n");
        return;
    }
    if str_eq(tv.as_str(), "IN") {
        match first_valid_justification(net, node_id) {
            None => {
                out.append(ind.as_str());
                out.append(node_id);
                out.append(" is IN (no justification currently holds)\n");
            },
            Some(jk) => {
                let j = &net.justifications[jk];
                out.append(ind.as_str());
                out.append(node_id);
                out.append(" is IN because:\n");
                out.append(ind.as_str());
                out.append("  ");
                let desc = justified_description(j);
                out.append(desc.as_str());
                out.append("\n");
                if depth <= usize::MAX - 2 {
                    proof {
                        lemma_unvisited_shrinks(*net, v0, node_id@);
                    }
                    let ghost mid = out@;
                    let ghost v1 = views(visited@);
                    explain_antecedents(net, &j.antecedents, visited, depth + 2, out);
                    assert(views(visited@) == v1 + explain_list(*net, views(j.antecedents@), 0, v1, (depth + 2) as nat).1);
                    assert(views(visited@) =~= v0 + (seq![node_id@] + explain_list(*net, views(j.antecedents@), 0, v1, (depth + 2) as nat).1));
                } else {
                    assert(views(visited@) == v0 + seq![node_id@]);
                }
            },
        }
    } else {
        out.append(ind.as_str());
        out.append(node_id);
        out.append(" is OUT because:\n");
        append_failure_lines(net, node_id, ind.as_str(), out);
    }
}

/// Appends the explanations of `ants` in turn.
fn explain_antecedents(
    net: &Network,
    ants: &Vec<String>,
    visited: &mut Vec<String>,
    depth: usize,
    out: &mut String,
)
    ensures
        final(out)@ == old(out)@ + explain_list(*net, views(ants@), 0, views(old(visited)@), depth as nat).0,
        views(final(visited)@) == views(old(visited)@) + explain_list(
            *net,
            views(ants@),
            0,
            views(old(visited)@),
            depth as nat,
        ).1,
    decreases unvisited(*net, views(old(visited)@)), 1nat, ants@.len(),
{
    let ghost a = views(ants@);
    let ghost v0 = views(visited@);
    let ghost out0 = out@;
    let ghost all = explain_list(*net, a, 0, v0, depth as nat);
    let mut i: usize = 0;
    assert(out0 == out@ + Seq::<char>::empty());
    while i < ants.len()
        invariant
            a == views(ants@),
            v0 == views(old(visited)@),
            i <= a.len(),
            unvisited(*net, views(visited@)) <= unvisited(*net, v0),
            out@ + explain_list(*net, a, i as int, views(visited@), depth as nat).0 == out0 + all.0,
            views(visited@) + explain_list(*net, a, i as int, views(visited@), depth as nat).1 == v0
                + all.1,
        decreases a.len() - i,
    {
        let ghost vi = views(visited@);
        let ghost oi = out@;
        let ghost first = explain_node(*net, a[i as int], vi, depth as nat);
        proof {
            lemma_unvisited_grow(*net, vi, first.1);
        }
        explain_recursive(net, ants[i].as_str(), visited, depth, out);
        let ghost rest = explain_list(*net, a, i + 1, vi + first.1, depth as nat);
        assert(explain_list(*net, a, i as int, vi, depth as nat) == (first.0 + rest.0, first.1 + rest.1));
        assert(oi + (first.0 + rest.0) == (oi + first.0) + rest.0);
        assert(vi + (first.1 + rest.1) == (vi + first.1) + rest.1);
        i = i + 1;
    }
    assert(out@ + Seq::<char>::empty() == out@);
    assert(views(visited@) + Seq::<Seq<char>>::empty() == views(visited@));
}

/// Why `node_id` is IN or OUT, traced through its justifications.
pub fn explain_impl(net: &Network, node_id: &str) -> (r: String)
    ensures
        r@ == explain_node(*net, node_id@, Seq::empty(), 0).0,
{
    let mut out = String::new();
    let mut visited: Vec<String> = Vec::new();
    assert(views(visited@) =~= Seq::<Seq<char>>::empty());
    explain_recursive(net, node_id, &mut visited, 0, &mut out);
    out
}

/// A node not yet visited is the first node its explanation visits.
proof fn lemma_explain_visits_self(net: Network, id: Seq<char>, visited: Seq<Seq<char>>, depth: nat)
    requires
        !visited.contains(id),
    ensures
        explain_node(net, id, visited, depth).1.len() >= 1,
        explain_node(net, id, visited, depth).1[0] == id,
{
}

/// Explaining a list of antecedents visits each of them, unless it was
/// visited already.
pub proof fn lemma_explain_list_covers(net: Network, ants: Seq<Seq<char>>, i: int, visited: Seq<Seq<char>>, depth: nat)
    requires
        0 <= i,
    ensures
        forall|k: int| i <= k < ants.len() ==> (visited + explain_list(net, ants, i, visited, depth).1).contains(#[trigger] ants[k]),
    decreases unvisited(net, visited), ants.len() - i,
{
    if i < ants.len() {
        let first = explain_node(net, ants[i], visited, depth);
        lemma_unvisited_grow(net, visited, first.1);
        lemma_explain_list_covers(net, ants, i + 1, visited + first.1, depth);
        let rest = explain_list(net, ants, i + 1, visited + first.1, depth);
        let all = visited + explain_list(net, ants, i, visited, depth).1;
        assert(all =~= (visited + first.1) + rest.1);
        assert forall|k: int| i <= k < ants.len() implies all.contains(#[trigger] ants[k]) by {
            if k == i {
                if visited.contains(ants[i]) {
                    let m = choose|m: int| 0 <= m < visited.len() && visited[m] == ants[i];
                    assert(all[m] == ants[i]);
                } else {
                    lemma_explain_visits_self(net, ants[i], visited, depth);
                    assert(all[visited.len() as int] == ants[i]);
                }
            } else {
                let m = choose|m: int| 0 <= m < ((visited + first.1) + rest.1).len() && ((visited + first.1) + rest.1)[m] == ants[k];
                assert(all[m] == ants[k]);
            }
        }
    }
}

/// The explanation of an IN node with a justification that holds explains
/// every antecedent of that justification: each is visited by it (or was
/// visited before).
pub proof fn lemma_explain_covers_antecedents(net: Network, id: Seq<char>, visited: Seq<Seq<char>>, depth: nat, j: Justification)
    requires
        !visited.contains(id),
        node_lookup(net.nodes@, id) matches Some(n) && n.truth_value@ == "IN"@,
        net.justs(id).len() > 0,
        first_valid(net, net.justs(id)) == Some(j),
        depth + 2 <= usize::MAX,
    ensures
        forall|t: int| 0 <= t < j.antecedents@.len() ==> (visited.push(id) + explain_node(net, id, visited, depth).1).contains(
            #[trigger] j.antecedents@[t]@,
        ),
{
    let ants = views(j.antecedents@);
    let v1 = visited.push(id);
    lemma_explain_list_covers(net, ants, 0, v1, depth + 2);
    let sub = explain_list(net, ants, 0, v1, depth + 2);
    assert(explain_node(net, id, visited, depth).1 == seq![id] + sub.1);
    assert forall|t: int| 0 <= t < j.antecedents@.len() implies (visited.push(id) + explain_node(net, id, visited, depth).1).contains(
        #[trigger] j.antecedents@[t]@,
    ) by {
        assert(ants[t] == j.antecedents@[t]@);
        let all = v1 + sub.1;
        assert(all.contains(ants[t]));
        let m = choose|m: int| 0 <= m < all.len() && all[m] == ants[t];
        let big = visited.push(id) + (seq![id] + sub.1);
        if m < v1.len() {
            assert(big[m] == all[m]);
        } else {
            assert(big[m + 1] == all[m]);
        }
    }
}

/// An explanation opens with the node's identifier at its indentation.
pub proof fn lemma_explanation_opens_with_id(net: Network, id: Seq<char>, visited: Seq<Seq<char>>, depth: nat)
    ensures
        (indent(depth) + id).is_prefix_of(explain_node(net, id, visited, depth).0),
{
    let lead = indent(depth) + id;
    let text = explain_node(net, id, visited, depth).0;
    assert(text.len() >= lead.len() && text.subrange(0, lead.len() as int) =~= lead);
}

/// The explanations of `ants[i..]` are one piece per antecedent, in order,
/// each opening with that antecedent's identifier at indentation `depth`.
proof fn lemma_explain_list_pieces(net: Network, ants: Seq<Seq<char>>, i: int, visited: Seq<Seq<char>>, depth: nat) -> (pieces: Seq<Seq<char>>)
    requires
        0 <= i <= ants.len(),
    ensures
        pieces.len() == ants.len() - i,
        explain_list(net, ants, i, visited, depth).0 == pieces.flatten(),
        forall|t: int| 0 <= t < pieces.len() ==> (indent(depth) + ants[i + t]).is_prefix_of(#[trigger] pieces[t]),
    decreases unvisited(net, visited), ants.len() - i,
{
    if i == ants.len() {
        Seq::empty()
    } else {
        let first = explain_node(net, ants[i], visited, depth);
        lemma_unvisited_grow(net, visited, first.1);
        let rest = lemma_explain_list_pieces(net, ants, i + 1, visited + first.1, depth);
        lemma_explanation_opens_with_id(net, ants[i], visited, depth);
        let pieces = seq![first.0] + rest;
        assert(pieces.drop_first() =~= rest);
        assert(pieces.first() == first.0);
        assert(pieces.flatten() == first.0 + rest.flatten());
        assert forall|t: int| 0 <= t < pieces.len() implies (indent(depth) + ants[i + t]).is_prefix_of(#[trigger] pieces[t]) by {
            if t > 0 {
                assert(pieces[t] == rest[t - 1]);
                assert(i + 1 + (t - 1) == i + t);
            }
        }
        pieces
    }
}

/// Explaining an IN node whose justification `j` holds gives the node's
/// line and the justification's line, then, in order, one explanation per
/// antecedent of `j`, each opening with that antecedent's identifier one
/// level further in.
pub proof fn lemma_explain_in_pieces(net: Network, id: Seq<char>, visited: Seq<Seq<char>>, depth: nat, j: Justification)
    requires
        !visited.contains(id),
        node_lookup(net.nodes@, id) matches Some(n) && n.truth_value@ == "IN"@,
        net.justs(id).len() > 0,
        first_valid(net, net.justs(id)) == Some(j),
        depth + 2 <= usize::MAX,
    ensures
        exists|pieces: Seq<Seq<char>>|
            #![trigger pieces.flatten()]
            pieces.len() == j.antecedents@.len() && explain_node(net, id, visited, depth).0 == indent(depth) + id
                + " is IN because:\n"@ + indent(depth) + "  "@ + justified_desc(j) + "\n"@ + pieces.flatten()
                && forall|t: int|
                0 <= t < pieces.len() ==> (indent(depth + 2) + j.antecedents@[t]@).is_prefix_of(#[trigger] pieces[t]),
{
    let ants = views(j.antecedents@);
    let pieces = lemma_explain_list_pieces(net, ants, 0, visited.push(id), depth + 2);
    assert forall|t: int| 0 <= t < pieces.len() implies (indent(depth + 2) + j.antecedents@[t]@).is_prefix_of(#[trigger] pieces[t]) by {
        assert(ants[0 + t] == j.antecedents@[t]@);
    }
}

/// The justification an explanation shows for an IN node is the first one
/// that holds: it is one of `js`, it holds, and none before it does; there
/// is none exactly when no justification of `js` holds.
pub proof fn lemma_first_valid_is_first(net: Network, js: Seq<Justification>)
    ensures
        match first_valid(net, js) {
            Some(j) => exists|k: int|
                0 <= k < js.len() && js[k] == j && valid_justification(net, j) && forall|m: int|
                    0 <= m < k ==> !valid_justification(net, #[trigger] js[m]),
            None => forall|m: int| 0 <= m < js.len() ==> !valid_justification(net, #[trigger] js[m]),
        },
    decreases js.len(),
{
    if js.len() > 0 {
        let init = js.drop_last();
        lemma_first_valid_is_first(net, init);
        match first_valid(net, init) {
            Some(j) => {
                let k = choose|k: int|
                    0 <= k < init.len() && init[k] == j && valid_justification(net, j) && forall|m: int|
                        0 <= m < k ==> !valid_justification(net, #[trigger] init[m]);
                assert(js[k] == j);
                assert forall|m: int| 0 <= m < k implies !valid_justification(net, #[trigger] js[m]) by {
                    assert(js[m] == init[m]);
                }
            },
            None => {
                assert forall|m: int| 0 <= m < js.len() - 1 implies !valid_justification(net, #[trigger] js[m]) by {
                    assert(js[m] == init[m]);
                }
            },
        }
    }
}

/// The failure lines are one line per justification, in order, each
/// opening with the justification's type at one level of indentation past
/// `ind` and closing the line.
proof fn lemma_failure_line_pieces(net: Network, js: Seq<Justification>, ind: Seq<char>) -> (lines: Seq<Seq<char>>)
    ensures
        lines.len() == js.len(),
        failure_lines(net, js, ind) == lines.flatten(),
        forall|t: int|
            0 <= t < lines.len() ==> (ind + "  "@ + js[t].jtype@ + ": "@).is_prefix_of(#[trigger] lines[t])
                && lines[t].last() == '\n',
    decreases js.len(),
{
    if js.len() == 0 {
        Seq::empty()
    } else {
        let init = js.drop_last();
        let front = lemma_failure_line_pieces(net, init, ind);
        let j = js.last();
        let lead = ind + "  "@ + j.jtype@ + ": "@;
        let line = lead + joined(views(j.antecedents@), ", "@) + " \u{2014} "@ + joined(failure_reasons(net, j), "; "@)
            + "\n"@;
        reveal_strlit("\n");
        assert(failure_lines(net, js, ind) =~= failure_lines(net, init, ind) + line);
        let lines = front.push(line);
        front.lemma_flatten_push(line);
        assert(line.subrange(0, lead.len() as int) =~= lead);
        assert(line.last() == '\n');
        assert forall|t: int|
            0 <= t < lines.len() implies (ind + "  "@ + js[t].jtype@ + ": "@).is_prefix_of(#[trigger] lines[t])
                && lines[t].last() == '\n' by {
            if t < front.len() {
                assert(lines[t] == front[t]);
                assert(js[t] == init[t]);
            }
        }
        lines
    }
}

/// Explaining an OUT node that has justifications gives the node's line,
/// then one line per justification, in order, each opening with that
/// justification's type one level further in.
pub proof fn lemma_explain_out_lines(net: Network, id: Seq<char>, visited: Seq<Seq<char>>, depth: nat)
    requires
        !visited.contains(id),
        node_lookup(net.nodes@, id) matches Some(n) && n.truth_value@ != "IN"@,
        net.justs(id).len() > 0,
    ensures
        exists|lines: Seq<Seq<char>>|
            #![trigger lines.flatten()]
            lines.len() == net.justs(id).len() && explain_node(net, id, visited, depth).0 == indent(depth) + id
                + " is OUT because:\n"@ + lines.flatten() && forall|t: int|
                0 <= t < lines.len() ==> (indent(depth) + "  "@ + net.justs(id)[t].jtype@ + ": "@).is_prefix_of(
                    #[trigger] lines[t],
                ) && lines[t].last() == '\n',
{
    let lines = lemma_failure_line_pieces(net, net.justs(id), indent(depth));
}

} // verus!
