//! Listing nodes: filters by truth value, premise status and dependents,
//! and ordering by impact (how many distinct nodes depend on a node).
use vstd::prelude::*;
use crate::network::{Justification, Network, Node, dedup, get_dependents, mention_owners};
use crate::text::{join, joined, owned, str_eq, views};

verus! {

/// The impact of a node: how many distinct nodes depend on it, through an
/// antecedent or an outlist.
pub open spec fn impact(js: Seq<Justification>, n: Node) -> nat {
    dedup(mention_owners(js, n.id@)).len()
}

/// Whether node `n` passes the filters: the truth value asked for, only
/// premises, only nodes with dependents.
pub open spec fn passes(net: Network, status: Option<Seq<char>>, premises: bool, has_dependents: bool, n: Node) -> bool {
    &&& (status matches Some(s) ==> n.truth_value@ == s)
    &&& (premises ==> net.is_premise(n.id@))
    &&& (has_dependents ==> impact(net.justifications@, n) > 0)
}

/// The nodes that pass the filters, in load order.
pub open spec fn selection(net: Network, ns: Seq<Node>, status: Option<Seq<char>>, premises: bool, has_dependents: bool) -> Seq<Node>
    decreases ns.len(),
{
    if ns.len() == 0 {
        Seq::empty()
    } else {
        let r = selection(net, ns.drop_last(), status, premises, has_dependents);
        if passes(net, status, premises, has_dependents, ns.last()) {
            r.push(ns.last())
        } else {
            r
        }
    }
}

/// `x` placed into `sorted` after every node of equal or higher impact.
pub open spec fn insert_by_impact(js: Seq<Justification>, sorted: Seq<Node>, x: Node) -> Seq<Node>
    decreases sorted.len(),
{
    if sorted.len() == 0 {
        seq![x]
    } else if impact(js, sorted.last()) >= impact(js, x) {
        sorted.push(x)
    } else {
        insert_by_impact(js, sorted.drop_last(), x).push(sorted.last())
    }
}

/// `s` ordered by impact, highest first; nodes of equal impact keep their order.
pub open spec fn sort_by_impact(js: Seq<Justification>, s: Seq<Node>) -> Seq<Node>
    decreases s.len(),
{
    if s.len() == 0 {
        Seq::empty()
    } else {
        insert_by_impact(js, sort_by_impact(js, s.drop_last()), s.last())
    }
}

/// The line listing node `n`: `[<truth value>] <id>: <text>`.
pub open spec fn list_line(n: Node) -> Seq<char> {
    "["@ + n.truth_value@ + "] "@ + n.id@ + ": "@ + n.text@
}

/// The listed nodes, in order.
pub open spec fn listed_nodes(net: Network, status: Option<Seq<char>>, premises: bool, has_dependents: bool, by_impact: bool) -> Seq<Node> {
    let sel = selection(net, net.nodes@, status, premises, has_dependents);
    if by_impact {
        sort_by_impact(net.justifications@, sel)
    } else {
        sel
    }
}

/// The lines listing the nodes of `s`, in order.
pub open spec fn list_lines(s: Seq<Node>) -> Seq<Seq<char>> {
    s.map_values(|n: Node| list_line(n))
}

/// The listing: one line per listed node, joined by newlines.
pub open spec fn list_text(net: Network, status: Option<Seq<char>>, premises: bool, has_dependents: bool, by_impact: bool) -> Seq<char> {
    joined(list_lines(listed_nodes(net, status, premises, has_dependents, by_impact)), "\n"@)
}

/// Placing `x` at position `p` of a list sorted by impact, where every node
/// after `p` has lower impact than `x` and the node before it has at least
/// as much, is what insertion by impact does.
proof fn lemma_insert_position(js: Seq<Justification>, s: Seq<Node>, x: Node, p: int)
    requires
        0 <= p <= s.len(),
        forall|q: int| p <= q < s.len() ==> impact(js, #[trigger] s[q]) < impact(js, x),
        p == 0 || impact(js, s[p - 1]) >= impact(js, x),
    ensures
        insert_by_impact(js, s, x) == s.take(p).push(x) + s.skip(p),
    decreases s.len(),
{
    if s.len() == 0 {
        assert(s.take(p).push(x) + s.skip(p) =~= seq![x]);
    } else if p == s.len() {
        assert(s.take(p) == s);
        assert(s.skip(p) =~= Seq::<Node>::empty());
        assert(s.push(x) + Seq::<Node>::empty() == s.push(x));
    } else {
        let d = s.drop_last();
        assert forall|q: int| p <= q < d.len() implies impact(js, #[trigger] d[q]) < impact(js, x) by {
            assert(d[q] == s[q]);
        }
        assert(impact(js, s.last()) < impact(js, x)) by {
            assert(s[s.len() - 1] == s.last());
        }
        lemma_insert_position(js, d, x, p);
        assert((d.take(p).push(x) + d.skip(p)).push(s.last()) =~= s.take(p).push(x) + s.skip(p));
    }
}

/// The optional text of a filter.
pub open spec fn opt_view(o: Option<&str>) -> Option<Seq<char>> {
    match o {
        Some(s) => Some(s@),
        None => None,
    }
}

/// The nodes at the given positions.
pub open spec fn nodes_at(nodes: Seq<Node>, idx: Seq<usize>) -> Seq<Node> {
    idx.map_values(|k: usize| nodes[k as int])
}

/// Whether node `n` passes the filters.
fn node_passes(
    net: &Network,
    status: Option<&str>,
    premises: bool,
    has_dependents: bool,
    n: &Node,
    count: usize,
) -> (r: bool)
    requires
        count == impact(net.justifications@, *n),
    ensures
        r == passes(*net, opt_view(status), premises, has_dependents, *n),
{
    if let Some(s) = status {
        if !str_eq(n.truth_value.as_str(), s) {
            return false;
        }
    }
    if premises && net.has_justification(n.id.as_str()) {
        return false;
    }
    if has_dependents && count == 0 {
        return false;
    }
    true
}

/// The line listing one node.
pub fn format_node_line(n: &Node) -> (r: String)
    ensures
        r@ == list_line(*n),
{
    let mut r = owned("[");
    r.append(n.truth_value.as_str());
    r.append("] ");
    r.append(n.id.as_str());
    r.append(": ");
    r.append(n.text.as_str());
    r
}

/// The nodes passing the filters (truth value `status`, only premises, only
/// nodes with dependents), ordered by impact when `by_impact`, one line each.
pub fn list_impl(
    net: &Network,
    status: Option<&str>,
    premises: bool,
    has_dependents: bool,
    by_impact: bool,
) -> (r: String)
    ensures
        r@ == list_text(*net, opt_view(status), premises, has_dependents, by_impact),
{
    let ghost ns = net.nodes@;
    let ghost js = net.justifications@;
    let ghost st = opt_view(status);
    let mut order: Vec<usize> = Vec::new();
    let mut impacts: Vec<usize> = Vec::new();
    let mut i: usize = 0;
    while i < net.nodes.len()
        invariant
            ns == net.nodes@,
            js == net.justifications@,
            st == opt_view(status),
            i <= ns.len(),
            order@.len() == impacts@.len(),
            forall|q: int| 0 <= q < order@.len() ==> order@[q] < ns.len(),
            forall|q: int| 0 <= q < order@.len() ==> impacts@[q] == impact(js, #[trigger] ns[order@[q] as int]),
            nodes_at(ns, order@) == if by_impact {
                sort_by_impact(js, selection(*net, ns.take(i as int), st, premises, has_dependents))
            } else {
                selection(*net, ns.take(i as int), st, premises, has_dependents)
            },
        decreases ns.len() - i,
    {
        assert(ns.take(i + 1).drop_last() == ns.take(i as int));
        assert(ns.take(i + 1).last() == ns[i as int]);
        let n = &net.nodes[i];
        let count = get_dependents(net, n.id.as_str()).len();
        let ghost sel = selection(*net, ns.take(i as int), st, premises, has_dependents);
        if node_passes(net, status, premises, has_dependents, n, count) {
            assert(selection(*net, ns.take(i + 1), st, premises, has_dependents) == sel.push(*n));
            assert(sel.push(*n).drop_last() == sel);
            let ghost before = nodes_at(ns, order@);
            if by_impact {
                let mut p = order.len();
                while p > 0 && impacts[p - 1] < count
                    invariant
                        p <= order@.len(),
                        order@.len() == impacts@.len(),
                        forall|q: int| 0 <= q < order@.len() ==> order@[q] < ns.len(),
                        forall|q: int| 0 <= q < order@.len() ==> impacts@[q] == impact(js, #[trigger] ns[order@[q] as int]),
                        forall|q: int| p <= q < before.len() ==> impact(js, #[trigger] before[q]) < impact(js, *n),
                        before == nodes_at(ns, order@),
                        count == impact(js, *n),
                    decreases p,
                {
                    assert(before[p - 1] == ns[order@[p - 1] as int]);
                    p = p - 1;
                }
                proof {
                    if p > 0 {
                        assert(before[p - 1] == ns[order@[p - 1] as int]);
                    }
                    lemma_insert_position(js, before, *n, p as int);
                }
                let ghost o0 = order@;
                let ghost m0 = impacts@;
                order.insert(p, i);
                impacts.insert(p, count);
                assert(nodes_at(ns, order@) =~= before.take(p as int).push(*n) + before.skip(p as int)) by {
                    assert forall|q: int| 0 <= q < order@.len() implies #[trigger] nodes_at(ns, order@)[q] == (before.take(p as int).push(*n) + before.skip(p as int))[q] by {
                        if q < p {
                            assert(order@[q] == o0[q]);
                        } else if q > p {
                            assert(order@[q] == o0[q - 1]);
                        }
                    }
                }
                assert forall|q: int| 0 <= q < order@.len() implies order@[q] < ns.len() by {
                    if q < p {
                        assert(order@[q] == o0[q]);
                    } else if q > p {
                        assert(order@[q] == o0[q - 1]);
                    }
                }
                assert forall|q: int| 0 <= q < order@.len() implies impacts@[q] == impact(js, #[trigger] ns[order@[q] as int]) by {
                    if q < p {
                        assert(order@[q] == o0[q] && impacts@[q] == m0[q]);
                    } else if q > p {
                        assert(order@[q] == o0[q - 1] && impacts@[q] == m0[q - 1]);
                    }
                }
            } else {
                order.push(i);
                impacts.push(count);
                assert(nodes_at(ns, order@) =~= before.push(*n));
            }
        }
        else {
            assert(selection(*net, ns.take(i + 1), st, premises, has_dependents) == sel);
        }
        i = i + 1;
    }
    assert(ns.take(ns.len() as int) == ns);
    let ghost listed = nodes_at(ns, order@);
    let mut lines: Vec<String> = Vec::new();
    let mut q: usize = 0;
    while q < order.len()
        invariant
            ns == net.nodes@,
            listed == nodes_at(ns, order@),
            forall|k: int| 0 <= k < order@.len() ==> order@[k] < ns.len(),
            q <= order@.len(),
            views(lines@) == list_lines(listed.take(q as int)),
        decreases order@.len() - q,
    {
        let line = format_node_line(&net.nodes[order[q]]);
        assert(listed[q as int] == ns[order@[q as int] as int]);
        assert(listed.take(q + 1) == listed.take(q as int).push(listed[q as int]));
        let ghost prev = views(lines@);
        lines.push(line);
        assert(views(lines@) =~= prev.push(line@));
        assert(list_lines(listed.take(q + 1)) =~= list_lines(listed.take(q as int)).push(list_line(listed[q as int])));
        q = q + 1;
    }
    assert(listed.take(listed.len() as int) == listed);
    join(&lines, "\n")
}

/// Nodes in order of non-increasing impact.
pub open spec fn sorted_by_impact(js: Seq<Justification>, s: Seq<Node>) -> bool {
    forall|i: int, j: int| 0 <= i < j < s.len() ==> impact(js, #[trigger] s[i]) >= impact(js, #[trigger] s[j])
}

/// The nodes of `s` whose impact is `c`, in order.
pub open spec fn with_impact(js: Seq<Justification>, s: Seq<Node>, c: nat) -> Seq<Node>
    decreases s.len(),
{
    if s.len() == 0 {
        Seq::empty()
    } else if impact(js, s.last()) == c {
        with_impact(js, s.drop_last(), c).push(s.last())
    } else {
        with_impact(js, s.drop_last(), c)
    }
}

proof fn lemma_insert_by_impact(js: Seq<Justification>, t: Seq<Node>, x: Node)
    requires
        sorted_by_impact(js, t),
    ensures
        sorted_by_impact(js, insert_by_impact(js, t, x)),
        insert_by_impact(js, t, x).to_multiset() == t.to_multiset().insert(x),
        forall|c: nat| #[trigger] with_impact(js, insert_by_impact(js, t, x), c) == if impact(js, x) == c {
            with_impact(js, t, c).push(x)
        } else {
            with_impact(js, t, c)
        },
    decreases t.len(),
{
    broadcast use vstd::seq_lib::group_to_multiset_ensures;
    let r = insert_by_impact(js, t, x);
    if t.len() == 0 {
        assert(r == seq![x]);
        assert(seq![x] == Seq::<Node>::empty().push(x));
        assert(seq![x].drop_last() =~= Seq::<Node>::empty());
        assert forall|c: nat| #[trigger] with_impact(js, insert_by_impact(js, t, x), c) == if impact(js, x) == c {
            with_impact(js, t, c).push(x)
        } else {
            with_impact(js, t, c)
        } by {
            assert(seq![x].last() == x);
            assert(with_impact(js, seq![x].drop_last(), c) == Seq::<Node>::empty());
            assert(with_impact(js, t, c) == Seq::<Node>::empty());
        }
    } else if impact(js, t.last()) >= impact(js, x) {
        assert forall|i: int, j: int| 0 <= i < j < r.len() implies impact(js, #[trigger] r[i]) >= impact(js, #[trigger] r[j]) by {
            if j == t.len() {
                assert(impact(js, t[i]) >= impact(js, t[t.len() - 1]));
            }
        }
        assert(r.drop_last() == t);
        assert(r.last() == x);
    } else {
        let d = t.drop_last();
        let l = t.last();
        assert forall|i: int, j: int| 0 <= i < j < d.len() implies impact(js, #[trigger] d[i]) >= impact(js, #[trigger] d[j]) by {
            assert(d[i] == t[i] && d[j] == t[j]);
        }
        lemma_insert_by_impact(js, d, x);
        let m = insert_by_impact(js, d, x);
        assert(r == m.push(l));
        assert forall|i: int, j: int| 0 <= i < j < r.len() implies impact(js, #[trigger] r[i]) >= impact(js, #[trigger] r[j]) by {
            if j == r.len() - 1 {
                assert(r[j] == l);
                assert(r[i] == m[i]);
                assert(m.to_multiset().count(m[i]) > 0);
                assert(m.to_multiset().count(m[i]) == d.to_multiset().insert(x).count(m[i]));
                if m[i] != x {
                    assert(d.to_multiset().count(m[i]) > 0);
                    assert(d.contains(m[i]));
                    let k = choose|k: int| 0 <= k < d.len() && d[k] == m[i];
                    assert(impact(js, t[k]) >= impact(js, t[t.len() - 1]));
                }
            } else {
                assert(r[i] == m[i] && r[j] == m[j]);
            }
        }
        assert(t == d.push(l));
        assert(r.to_multiset() =~= t.to_multiset().insert(x));
        assert(r.drop_last() == m);
        assert forall|c: nat| #[trigger] with_impact(js, insert_by_impact(js, t, x), c) == if impact(js, x) == c {
            with_impact(js, t, c).push(x)
        } else {
            with_impact(js, t, c)
        } by {
            assert(t.drop_last() == d);
            assert(r.last() == l);
            assert(t.last() == l);
            assert(with_impact(js, m, c) == if impact(js, x) == c {
                with_impact(js, d, c).push(x)
            } else {
                with_impact(js, d, c)
            });
            if impact(js, x) == c {
                assert(impact(js, l) != c);
            }
        }
    }
}

/// Ordering by impact lists the same nodes, highest impact first, and nodes
/// of equal impact stay in the order they had.
pub proof fn lemma_sort_by_impact(js: Seq<Justification>, s: Seq<Node>)
    ensures
        sorted_by_impact(js, sort_by_impact(js, s)),
        sort_by_impact(js, s).to_multiset() == s.to_multiset(),
        forall|c: nat| #[trigger] with_impact(js, sort_by_impact(js, s), c) == with_impact(js, s, c),
    decreases s.len(),
{
    broadcast use vstd::seq_lib::group_to_multiset_ensures;
    if s.len() == 0 {
    } else {
        lemma_sort_by_impact(js, s.drop_last());
        lemma_insert_by_impact(js, sort_by_impact(js, s.drop_last()), s.last());
        assert(s == s.drop_last().push(s.last()));
        assert forall|c: nat| #[trigger] with_impact(js, sort_by_impact(js, s), c) == with_impact(js, s, c) by {
            assert(with_impact(js, sort_by_impact(js, s.drop_last()), c) == with_impact(js, s.drop_last(), c));
        }
    }
}

/// A node is selected exactly when it is among the records and passes the filters.
proof fn lemma_selection_contains(net: Network, ns: Seq<Node>, status: Option<Seq<char>>, premises: bool, has_dependents: bool, n: Node)
    ensures
        selection(net, ns, status, premises, has_dependents).contains(n) <==> ns.contains(n) && passes(
            net,
            status,
            premises,
            has_dependents,
            n,
        ),
    decreases ns.len(),
{
    if ns.len() > 0 {
        let prev = ns.drop_last();
        lemma_selection_contains(net, prev, status, premises, has_dependents, n);
        let sp = selection(net, prev, status, premises, has_dependents);
        let sel = selection(net, ns, status, premises, has_dependents);
        if sel.contains(n) {
            let k = choose|k: int| 0 <= k < sel.len() && sel[k] == n;
            if k < sp.len() {
                assert(sel[k] == sp[k]);
                let m = choose|m: int| 0 <= m < prev.len() && prev[m] == n;
                assert(ns[m] == n);
            } else {
                assert(ns[ns.len() - 1] == n);
            }
        }
        if ns.contains(n) && passes(net, status, premises, has_dependents, n) {
            let m = choose|m: int| 0 <= m < ns.len() && ns[m] == n;
            if m < prev.len() {
                assert(prev[m] == n);
                let k = choose|k: int| 0 <= k < sp.len() && sp[k] == n;
                assert(sel[k] == n);
            } else {
                assert(sel[sel.len() - 1] == n);
            }
        }
    }
}

/// The listing holds exactly the stored records that meet every filter
/// given: the truth value asked for, being a premise when only premises are
/// asked for, having a dependent when only those are asked for; ordering by
/// impact changes only the order.
pub proof fn lemma_listed_meet_filters(
    net: Network,
    status: Option<Seq<char>>,
    premises: bool,
    has_dependents: bool,
    by_impact: bool,
    n: Node,
)
    ensures
        listed_nodes(net, status, premises, has_dependents, by_impact).contains(n) <==> {
            &&& net.nodes@.contains(n)
            &&& (status matches Some(s) ==> n.truth_value@ == s)
            &&& (premises ==> net.justs(n.id@).len() == 0)
            &&& (has_dependents ==> net.dependent_ids(n.id@).len() > 0)
        },
{
    broadcast use vstd::seq_lib::group_to_multiset_ensures;
    lemma_selection_contains(net, net.nodes@, status, premises, has_dependents, n);
    let sel = selection(net, net.nodes@, status, premises, has_dependents);
    if by_impact {
        lemma_sort_by_impact(net.justifications@, sel);
        assert(sort_by_impact(net.justifications@, sel).to_multiset().count(n) == sel.to_multiset().count(n));
    }
}

} // verus!
