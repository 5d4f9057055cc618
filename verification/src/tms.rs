//! Truth maintenance: re-deriving the truth values of the beliefs that
//! depend on a changed belief, and the updates built on it (retracting,
//! asserting, adding, challenging).
use vstd::prelude::*;
use crate::explain::{justification_holds, valid_justification};
use crate::network::{Justification, Network, Node, dedup, justification_mentions, justs_of, mentions};
use crate::desktop::{add_challenge, challenged_meta, json_of};
use crate::text::{contains_str, owned, str_eq, views};

verus! {

/// Whether some justification of `id` holds in `net`.
pub open spec fn supported_in(net: Network, id: Seq<char>) -> bool {
    exists|k: int| 0 <= k < net.justs(id).len() && valid_justification(net, #[trigger] net.justs(id)[k])
}

/// The truth value a node with justifications derives: `IN` exactly when
/// one of them holds.
pub open spec fn derived_value(net: Network, id: Seq<char>) -> Seq<char> {
    if supported_in(net, id) {
        "IN"@
    } else {
        "OUT"@
    }
}

/// Whether some justification of `id` holds.
pub fn is_supported(net: &Network, id: &str) -> (r: bool)
    ensures
        r == supported_in(*net, id@),
{
    let ghost js = net.justifications@;
    let mut found = false;
    let mut i: usize = 0;
    while i < net.justifications.len()
        invariant
            js == net.justifications@,
            i <= js.len(),
            found == exists|k: int|
                0 <= k < justs_of(js.take(i as int), id@).len() && valid_justification(
                    *net,
                    #[trigger] justs_of(js.take(i as int), id@)[k],
                ),
        decreases js.len() - i,
    {
        assert(js.take(i + 1).drop_last() == js.take(i as int));
        let j = &net.justifications[i];
        let ghost before = justs_of(js.take(i as int), id@);
        if str_eq(j.node_id.as_str(), id) {
            let ghost after = before.push(*j);
            assert(justs_of(js.take(i + 1), id@) == after);
            let holds = justification_holds(net, j);
            proof {
                if found {
                    let k = choose|k: int| 0 <= k < before.len() && valid_justification(*net, #[trigger] before[k]);
                    assert(after[k] == before[k]);
                }
                if holds {
                    assert(after[before.len() as int] == *j);
                }
                if exists|k: int| 0 <= k < after.len() && valid_justification(*net, #[trigger] after[k]) {
                    let k = choose|k: int| 0 <= k < after.len() && valid_justification(*net, #[trigger] after[k]);
                    if k < before.len() {
                        assert(after[k] == before[k]);
                    }
                }
            }
            found = found || holds;
        } else {
            assert(justs_of(js.take(i + 1), id@) == before);
        }
        i = i + 1;
    }
    assert(js.take(js.len() as int) == js);
    assert(justs_of(js.take(js.len() as int), id@) == net.justs(id@));
    found
}

/// Sets the truth value of the `i`-th node record to `tv`.
fn set_truth(net: &mut Network, i: usize, tv: &str)
    requires
        i < old(net).nodes@.len(),
    ensures
        final(net).justifications@ == old(net).justifications@,
        final(net).nodes@.len() == old(net).nodes@.len(),
        final(net).nodes@[i as int].id == old(net).nodes@[i as int].id,
        final(net).nodes@[i as int].text == old(net).nodes@[i as int].text,
        final(net).nodes@[i as int].source == old(net).nodes@[i as int].source,
        final(net).nodes@[i as int].source_url == old(net).nodes@[i as int].source_url,
        final(net).nodes@[i as int].metadata == old(net).nodes@[i as int].metadata,
        final(net).nodes@[i as int].truth_value@ == tv@,
        forall|k: int| 0 <= k < old(net).nodes@.len() && k != i ==> final(net).nodes@[k] == old(net).nodes@[k],
{
    let mut n = net.nodes.remove(i);
    n.truth_value = owned(tv);
    net.nodes.insert(i, n);
}

/// Whether `j` names one of `ids` among its antecedents or its outlist.
fn mentions_any(j: &Justification, ids: &Vec<String>) -> (r: bool)
    ensures
        r == exists|m: int| 0 <= m < ids@.len() && #[trigger] mentions(*j, views(ids@)[m]),
{
    let mut m: usize = 0;
    while m < ids.len()
        invariant
            m <= ids@.len(),
            forall|q: int| 0 <= q < m ==> !#[trigger] mentions(*j, views(ids@)[q]),
        decreases ids@.len() - m,
    {
        assert(views(ids@)[m as int] == ids@[m as int]@);
        if justification_mentions(j, ids[m].as_str()) {
            return true;
        }
        m = m + 1;
    }
    false
}

/// `x` is fed by one of `prior`: some justification of `x` names one of them.
pub open spec fn fed_by(js: Seq<Justification>, prior: Seq<Seq<char>>, x: Seq<char>) -> bool {
    exists|q: int, m: int|
        0 <= q < js.len() && 0 <= m < prior.len() && js[q].node_id@ == x && #[trigger] mentions(
            js[q],
            prior[m],
        )
}

/// `d` starts with `start`, and every later member is fed by an earlier
/// one: every member depends on `start` through a chain of justifications.
pub open spec fn depends_chain(js: Seq<Justification>, start: Seq<char>, d: Seq<Seq<char>>) -> bool {
    &&& d.len() >= 1
    &&& d[0] == start
    &&& forall|k: int| 1 <= k < d.len() ==> fed_by(js, d.take(k), #[trigger] d[k])
}

/// No justification names a member of `d` without its node being in `d`:
/// every node that depends on a member is a member.
pub open spec fn closed_downward(js: Seq<Justification>, d: Seq<Seq<char>>) -> bool {
    forall|q: int, m: int|
        0 <= q < js.len() && 0 <= m < d.len() && #[trigger] mentions(js[q], d[m]) ==> d.contains(js[q].node_id@)
}

/// The nodes that have justifications.
pub open spec fn justified_ids(js: Seq<Justification>) -> Seq<Seq<char>> {
    js.map_values(|j: Justification| j.node_id@)
}

/// Distinct nodes with justifications are no more than the justifications.
proof fn lemma_distinct_justified(s: Seq<Seq<char>>, js: Seq<Justification>)
    requires
        s.no_duplicates(),
        forall|k: int| 0 <= k < s.len() ==> justified_ids(js).contains(#[trigger] s[k]),
    ensures
        s.len() <= js.len(),
{
    let ids = justified_ids(js);
    s.unique_seq_to_set();
    ids.lemma_cardinality_of_set();
    vstd::seq_lib::seq_to_set_is_finite(ids);
    assert(s.to_set().subset_of(ids.to_set())) by {
        assert forall|x: Seq<char>| s.to_set().contains(x) implies ids.to_set().contains(x) by {
            let k = choose|k: int| 0 <= k < s.len() && s[k] == x;
            assert(justified_ids(js).contains(s[k]));
        }
    }
    vstd::set_lib::lemma_len_subset(s.to_set(), ids.to_set());
}

/// The nodes that depend on `start`, `start` first; the flag says that
/// the list is complete (it always is).
pub fn downstream(net: &Network, start: &str) -> (r: (Vec<String>, bool))
    ensures
        depends_chain(net.justifications@, start@, views(r.0@)),
        r.1,
        closed_downward(net.justifications@, views(r.0@)),
{
    let ghost js = net.justifications@;
    let mut d: Vec<String> = Vec::new();
    d.push(owned(start));
    let mut closed = false;
    let mut go = true;
    let mut left: usize = net.justifications.len();
    while go
        invariant
            js == net.justifications@,
            depends_chain(js, start@, views(d@)),
            closed ==> closed_downward(js, views(d@)),
            closed ==> !go,
            !go ==> closed,
            views(d@).skip(1).no_duplicates(),
            forall|k: int| 1 <= k < views(d@).len() ==> justified_ids(js).contains(#[trigger] views(d@)[k]),
            views(d@).len() - 1 + left >= js.len(),
        decreases left, (if go { 1int } else { 0int }),
    {
        let ghost d0 = views(d@);
        let mut added = false;
        let mut q: usize = 0;
        while q < net.justifications.len()
            invariant
                js == net.justifications@,
                q <= js.len(),
                depends_chain(js, start@, views(d@)),
                !added ==> views(d@) == d0,
                added ==> views(d@).len() > d0.len(),
                views(d@).len() >= d0.len(),
                views(d@).skip(1).no_duplicates(),
                forall|k: int| 1 <= k < views(d@).len() ==> justified_ids(js).contains(#[trigger] views(d@)[k]),
                !added ==> forall|q2: int, m: int|
                    0 <= q2 < q && 0 <= m < d0.len() && #[trigger] mentions(js[q2], d0[m]) ==> d0.contains(
                        js[q2].node_id@,
                    ),
            decreases js.len() - q,
        {
            let j = &net.justifications[q];
            let present = contains_str(&d, j.node_id.as_str());
            let feeds = mentions_any(j, &d);
            if !present && feeds {
                let ghost prior = views(d@);
                d.push(j.node_id.clone());
                proof {
                    let nd = views(d@);
                    assert(justified_ids(js)[q as int] == j.node_id@);
                    assert(nd.skip(1) =~= prior.skip(1).push(j.node_id@));
                    assert(!prior.skip(1).contains(j.node_id@)) by {
                        if prior.skip(1).contains(j.node_id@) {
                            let t = choose|t: int| 0 <= t < prior.skip(1).len() && prior.skip(1)[t] == j.node_id@;
                            assert(prior[t + 1] == j.node_id@);
                        }
                    }
                    assert forall|k: int| 1 <= k < nd.len() implies justified_ids(js).contains(#[trigger] nd[k]) by {
                        if k < prior.len() {
                            assert(nd[k] == prior[k]);
                        }
                    }
                    assert(nd.take(prior.len() as int) == prior);
                    assert(nd[prior.len() as int] == j.node_id@);
                    let m = choose|m: int| 0 <= m < prior.len() && #[trigger] mentions(*j, prior[m]);
                    assert(fed_by(js, nd.take(prior.len() as int), nd[prior.len() as int])) by {
                        assert(js[q as int] == *j);
                        assert(mentions(js[q as int], prior[m]));
                    }
                    assert forall|k: int| 1 <= k < nd.len() implies fed_by(js, nd.take(k), #[trigger] nd[k]) by {
                        if k < prior.len() {
                            assert(nd.take(k) == prior.take(k));
                            assert(nd[k] == prior[k]);
                        }
                    }
                }
                added = true;
            } else {
                proof {
                    if !added {
                        assert forall|q2: int, m: int|
                            0 <= q2 < q + 1 && 0 <= m < d0.len() && #[trigger] mentions(js[q2], d0[m]) implies d0.contains(
                                js[q2].node_id@,
                            ) by {
                            if q2 == q {
                                assert(js[q2] == *j);
                                if !present {
                                    assert(!feeds);
                                    assert(!mentions(*j, views(d@)[m]));
                                }
                            }
                        }
                    }
                }
            }
            q = q + 1;
        }
        if !added {
            assert(views(d@) == d0);
            assert(q == js.len());
            assert forall|q2: int, m: int|
                0 <= q2 < js.len() && 0 <= m < d0.len() && #[trigger] mentions(js[q2], d0[m]) implies d0.contains(
                    js[q2].node_id@,
                ) by {}
            closed = true;
            go = false;
        } else if left == 0 {
            proof {
                lemma_distinct_justified(views(d@).skip(1), js);
                assert forall|k: int| 0 <= k < views(d@).skip(1).len() implies justified_ids(js).contains(
                    #[trigger] views(d@).skip(1)[k],
                ) by {
                    assert(views(d@).skip(1)[k] == views(d@)[k + 1]);
                }
                assert(false);
            }
            go = false;
        } else {
            left = left - 1;
        }
    }
    (d, closed)
}

/// `id` is re-derived when `d` changes first: a later member of `d` with
/// justifications.
pub open spec fn recomputed(net: Network, d: Seq<Seq<char>>, id: Seq<char>) -> bool {
    &&& d.len() >= 1
    &&& d.contains(id)
    &&& id != d[0]
    &&& !net.is_premise(id)
}

/// Every re-derived node of `d` holds the value its justifications give it.
pub open spec fn consistent_in(net: Network, d: Seq<Seq<char>>) -> bool {
    forall|i: int|
        0 <= i < net.nodes@.len() && recomputed(net, d, #[trigger] net.nodes@[i].id@) ==> net.nodes@[i].truth_value@
            == derived_value(net, net.nodes@[i].id@)
}

/// Two networks with the same justifications and node records, up to the
/// truth values of the records.
pub open spec fn same_shape(a: Network, b: Network) -> bool {
    &&& a.justifications@ == b.justifications@
    &&& a.nodes@.len() == b.nodes@.len()
    &&& forall|i: int| 0 <= i < a.nodes@.len() ==> (#[trigger] a.nodes@[i]).id == b.nodes@[i].id
        && a.nodes@[i].text == b.nodes@[i].text && a.nodes@[i].source == b.nodes@[i].source
        && a.nodes@[i].source_url == b.nodes@[i].source_url && a.nodes@[i].metadata == b.nodes@[i].metadata
}

/// `rank` orders the justification graph: every node a justification names
/// ranks below the node it justifies, and every justified node ranks below
/// the number of justifications.
pub open spec fn ranked(js: Seq<Justification>, rank: spec_fn(Seq<char>) -> nat) -> bool {
    &&& forall|q: int, y: Seq<char>| 0 <= q < js.len() && #[trigger] mentions(js[q], y) ==> rank(y) < rank(js[q].node_id@)
    &&& forall|q: int| 0 <= q < js.len() ==> rank(#[trigger] js[q].node_id@) < js.len()
}

/// The justification graph has no cycle: some ranking orders it.
pub open spec fn acyclic(js: Seq<Justification>) -> bool {
    exists|rank: spec_fn(Seq<char>) -> nat| ranked(js, rank)
}

/// The re-derived records of rank below `p` hold their derived values.
pub open spec fn correct_below(net: Network, d: Seq<Seq<char>>, rank: spec_fn(Seq<char>) -> nat, p: nat) -> bool {
    forall|i: int|
        0 <= i < net.nodes@.len() && recomputed(net, d, #[trigger] net.nodes@[i].id@) && rank(net.nodes@[i].id@) < p
            ==> net.nodes@[i].truth_value@ == derived_value(net, net.nodes@[i].id@)
}

/// A node whose justifications name only nodes found alike in two networks
/// with the same justifications derives the same value in both.
proof fn lemma_derived_same(a: Network, b: Network, x: Seq<char>)
    requires
        a.justifications@ == b.justifications@,
        forall|q: int, y: Seq<char>|
            0 <= q < a.justifications@.len() && a.justifications@[q].node_id@ == x && #[trigger] mentions(a.justifications@[q], y)
                ==> crate::network::node_lookup(a.nodes@, y) == crate::network::node_lookup(b.nodes@, y),
    ensures
        derived_value(a, x) == derived_value(b, x),
{
    let js = a.justifications@;
    assert forall|k: int| 0 <= k < a.justs(x).len() implies valid_justification(a, #[trigger] a.justs(x)[k])
        == valid_justification(b, b.justs(x)[k]) by {
        let j = a.justs(x)[k];
        lemma_justs_of_member(js, x, k);
        let q = choose|q: int| 0 <= q < js.len() && js[q] == justs_of(js, x)[k] && js[q].node_id@ == x;
        assert forall|t: int| 0 <= t < j.antecedents@.len() implies crate::explain::holds_in(a, #[trigger] j.antecedents@[t]@)
            == crate::explain::holds_in(b, j.antecedents@[t]@) by {
            assert(views(j.antecedents@)[t] == j.antecedents@[t]@);
            assert(mentions(js[q], j.antecedents@[t]@));
        }
        assert forall|t: int| 0 <= t < j.outlist@.len() implies crate::explain::holds_out(a, #[trigger] j.outlist@[t]@)
            == crate::explain::holds_out(b, j.outlist@[t]@) by {
            assert(views(j.outlist@)[t] == j.outlist@[t]@);
            assert(mentions(js[q], j.outlist@[t]@));
        }
    }
    if supported_in(a, x) {
        let k = choose|k: int| 0 <= k < a.justs(x).len() && valid_justification(a, #[trigger] a.justs(x)[k]);
    }
    if supported_in(b, x) {
        let k = choose|k: int| 0 <= k < b.justs(x).len() && valid_justification(b, #[trigger] b.justs(x)[k]);
    }
}

/// Changing the one record `i` leaves the derived value of every node
/// ranked below it as it was.
proof fn lemma_change_above(a: Network, b: Network, i: int, x: Seq<char>, rank: spec_fn(Seq<char>) -> nat)
    requires
        ranked(a.justifications@, rank),
        a.justifications@ == b.justifications@,
        a.nodes@.len() == b.nodes@.len(),
        0 <= i < a.nodes@.len(),
        b.nodes@[i].id == a.nodes@[i].id,
        forall|k: int| 0 <= k < a.nodes@.len() && k != i ==> a.nodes@[k] == b.nodes@[k],
        rank(x) <= rank(a.nodes@[i].id@),
    ensures
        derived_value(a, x) == derived_value(b, x),
{
    let js = a.justifications@;
    assert forall|q: int, y: Seq<char>|
        0 <= q < js.len() && js[q].node_id@ == x && #[trigger] mentions(js[q], y) implies crate::network::node_lookup(a.nodes@, y)
            == crate::network::node_lookup(b.nodes@, y) by {
        assert(rank(y) < rank(x));
        assert forall|k: int| 0 <= k < a.nodes@.len() implies (#[trigger] a.nodes@[k]).id == b.nodes@[k].id by {
            if k != i {
                assert(a.nodes@[k] == b.nodes@[k]);
            }
        }
        assert forall|k: int| 0 <= k < a.nodes@.len() && (#[trigger] a.nodes@[k]).id@ == y implies a.nodes@[k] == b.nodes@[k] by {
            if k == i {
                assert(false);
            }
        }
        lemma_lookup_same(a.nodes@, b.nodes@, y);
    }
    lemma_derived_same(a, b, x);
}

/// Re-derives, pass after pass, the truth value of every node after the
/// first of `d` that has justifications; `true` when a pass changed nothing,
/// so that every one of them holds its derived value. On an acyclic graph it
/// always settles.
pub fn relabel(net: &mut Network, d: &Vec<String>) -> (settled: bool)
    requires
        d@.len() >= 1,
    ensures
        same_shape(*old(net), *final(net)),
        forall|i: int|
            0 <= i < old(net).nodes@.len() && !recomputed(*old(net), views(d@), #[trigger] old(net).nodes@[i].id@)
                ==> final(net).nodes@[i] == old(net).nodes@[i],
        settled ==> consistent_in(*final(net), views(d@)),
        acyclic(old(net).justifications@) ==> settled,
{
    let ghost n0 = *net;
    let ghost dv = views(d@);
    let ghost js = net.justifications@;
    let ghost acyc = acyclic(js);
    let ghost rank = choose|rank: spec_fn(Seq<char>) -> nat| ranked(js, rank);
    let ghost mut p: nat = 0;
    let mut settled = false;
    let mut go = true;
    let mut left: usize = net.justifications.len();
    while go
        invariant
            dv == views(d@),
            dv.len() >= 1,
            js == n0.justifications@,
            acyc == acyclic(js),
            acyc ==> ranked(js, rank),
            same_shape(n0, *net),
            forall|i: int| 0 <= i < n0.nodes@.len() && !recomputed(n0, dv, #[trigger] n0.nodes@[i].id@) ==> net.nodes@[i] == n0.nodes@[i],
            settled ==> consistent_in(*net, dv),
            settled ==> !go,
            !go ==> (settled || !acyc),
            go ==> p + left == js.len(),
            go && acyc ==> correct_below(*net, dv, rank, p),
        decreases left, (if go { 1int } else { 0int }),
    {
        let ghost start = *net;
        let mut changed = false;
        let mut i: usize = 0;
        while i < net.nodes.len()
            invariant
                dv == views(d@),
                dv.len() >= 1,
                js == n0.justifications@,
                acyc ==> ranked(js, rank),
                same_shape(n0, *net),
                forall|k: int| 0 <= k < n0.nodes@.len() && !recomputed(n0, dv, #[trigger] n0.nodes@[k].id@) ==> net.nodes@[k] == n0.nodes@[k],
                i <= net.nodes@.len(),
                !changed ==> *net == start,
                !changed ==> forall|k: int|
                    0 <= k < i && recomputed(*net, dv, #[trigger] net.nodes@[k].id@) ==> net.nodes@[k].truth_value@
                        == derived_value(*net, net.nodes@[k].id@),
                acyc ==> correct_below(*net, dv, rank, p),
                acyc ==> forall|k: int|
                    0 <= k < i && recomputed(*net, dv, #[trigger] net.nodes@[k].id@) && rank(net.nodes@[k].id@) == p
                        ==> net.nodes@[k].truth_value@ == derived_value(*net, net.nodes@[k].id@),
                acyc && p >= js.len() ==> !changed,
            decreases net.nodes@.len() - i,
        {
            let id = net.nodes[i].id.clone();
            assert(dv[0] == d@[0]@);
            let inside = contains_str(d, id.as_str()) && !str_eq(id.as_str(), d[0].as_str())
                && net.has_justification(id.as_str());
            assert(inside == recomputed(*net, dv, id@));
            if inside {
                let sup = is_supported(net, id.as_str());
                let t = if sup {
                    "IN"
                } else {
                    "OUT"
                };
                proof {
                    reveal_strlit("IN");
                    reveal_strlit("OUT");
                }
                assert(t@ == derived_value(*net, id@));
                proof {
                    if acyc {
                        assert(net.justs(id@).len() > 0);
                        lemma_justs_of_member(js, id@, 0);
                        let q = choose|q: int| 0 <= q < js.len() && js[q] == justs_of(js, id@)[0] && js[q].node_id@ == id@;
                        assert(rank(js[q].node_id@) < js.len());
                    }
                }
                if !str_eq(net.nodes[i].truth_value.as_str(), t) {
                    let ghost before = *net;
                    set_truth(net, i, t);
                    proof {
                        if acyc {
                            assert(rank(id@) >= p);
                            assert forall|k: int|
                                0 <= k < net.nodes@.len() && recomputed(*net, dv, #[trigger] net.nodes@[k].id@) && rank(net.nodes@[k].id@) < p
                                    implies net.nodes@[k].truth_value@ == derived_value(*net, net.nodes@[k].id@) by {
                                assert(before.nodes@[k].id == net.nodes@[k].id);
                                assert(recomputed(before, dv, before.nodes@[k].id@));
                                assert(k != i);
                                lemma_change_above(before, *net, i as int, net.nodes@[k].id@, rank);
                            }
                            assert forall|k: int|
                                0 <= k < i + 1 && recomputed(*net, dv, #[trigger] net.nodes@[k].id@) && rank(net.nodes@[k].id@) == p
                                    implies net.nodes@[k].truth_value@ == derived_value(*net, net.nodes@[k].id@) by {
                                assert(before.nodes@[k].id == net.nodes@[k].id);
                                lemma_change_above(before, *net, i as int, net.nodes@[k].id@, rank);
                                if k < i {
                                    assert(recomputed(before, dv, before.nodes@[k].id@));
                                }
                            }
                        }
                    }
                    changed = true;
                }
            }
            i = i + 1;
        }
        proof {
            if acyc {
                assert forall|k: int|
                    0 <= k < net.nodes@.len() && recomputed(*net, dv, #[trigger] net.nodes@[k].id@) && rank(net.nodes@[k].id@) < p + 1
                        implies net.nodes@[k].truth_value@ == derived_value(*net, net.nodes@[k].id@) by {
                    if rank(net.nodes@[k].id@) < p {
                    } else {
                        assert(rank(net.nodes@[k].id@) == p);
                    }
                }
            }
        }
        if !changed {
            assert(*net == start);
            settled = true;
            go = false;
        } else if left == 0 {
            go = false;
        } else {
            left = left - 1;
            proof {
                p = p + 1;
            }
        }
    }
    settled
}

/// The truth values of the records, in order.
pub open spec fn truths(ns: Seq<Node>) -> Seq<Seq<char>> {
    ns.map_values(|n: Node| n.truth_value@)
}

/// The identifiers of the first `n` records of `a` whose truth value is not
/// the one in `tvs`, other than `except`, repeats included.
pub open spec fn changed_upto(tvs: Seq<Seq<char>>, a: Seq<Node>, n: int, except: Seq<char>) -> Seq<Seq<char>>
    decreases n,
{
    if n <= 0 {
        Seq::empty()
    } else {
        let p = changed_upto(tvs, a, n - 1, except);
        if tvs[n - 1] != a[n - 1].truth_value@ && a[n - 1].id@ != except {
            p.push(a[n - 1].id@)
        } else {
            p
        }
    }
}

/// The nodes, other than `except`, whose truth value differs between the
/// records `b` and `a`, each once, in record order.
pub open spec fn changed_ids(b: Seq<Node>, a: Seq<Node>, except: Seq<char>) -> Seq<Seq<char>> {
    dedup(changed_upto(truths(b), a, a.len() as int, except))
}

/// A change made to a network: the nodes re-derived (the changed node
/// first, then the nodes that depend on it), the nodes whose truth value
/// changed, and whether the re-derivation settled.
pub struct TmsChange {
    pub scope: Vec<String>,
    pub changed: Vec<String>,
    pub settled: bool,
}

fn truth_values(ns: &Vec<Node>) -> (r: Vec<String>)
    ensures
        views(r@) == truths(ns@),
{
    let mut r: Vec<String> = Vec::new();
    let mut i: usize = 0;
    while i < ns.len()
        invariant
            i <= ns@.len(),
            views(r@) == truths(ns@).take(i as int),
        decreases ns@.len() - i,
    {
        let ghost prev = views(r@);
        r.push(ns[i].truth_value.clone());
        assert(views(r@) =~= prev.push(ns@[i as int].truth_value@));
        assert(views(r@) =~= truths(ns@).take(i + 1));
        i = i + 1;
    }
    assert(truths(ns@).take(ns@.len() as int) =~= truths(ns@));
    r
}

fn changed_list(tvs: &Vec<String>, after: &Vec<Node>, except: &str) -> (r: Vec<String>)
    requires
        tvs@.len() == after@.len(),
    ensures
        views(r@) == dedup(changed_upto(views(tvs@), after@, after@.len() as int, except@)),
{
    let mut r: Vec<String> = Vec::new();
    let mut i: usize = 0;
    while i < after.len()
        invariant
            tvs@.len() == after@.len(),
            i <= after@.len(),
            views(r@) == dedup(changed_upto(views(tvs@), after@, i as int, except@)),
        decreases after@.len() - i,
    {
        assert(views(tvs@)[i as int] == tvs@[i as int]@);
        if !str_eq(tvs[i].as_str(), after[i].truth_value.as_str()) && !str_eq(after[i].id.as_str(), except) {
            let ghost p = changed_upto(views(tvs@), after@, i as int, except@);
            assert(p.push(after@[i as int].id@).drop_last() == p);
            crate::network::push_new(&mut r, &after[i].id);
        }
        i = i + 1;
    }
    r
}

/// Gives every record of `id` the truth value `tv`, then re-derives the
/// nodes that depend on `id`.
fn pin_and_propagate(net: &mut Network, id: &str, tv: &str) -> (r: TmsChange)
    ensures
        same_shape(*old(net), *final(net)),
        forall|i: int| 0 <= i < final(net).nodes@.len() && #[trigger] final(net).nodes@[i].id@ == id@ ==> final(net).nodes@[i].truth_value@ == tv@,
        depends_chain(old(net).justifications@, id@, views(r.scope@)),
        forall|i: int|
            0 <= i < old(net).nodes@.len() && #[trigger] old(net).nodes@[i].id@ != id@ && !recomputed(*old(net), views(r.scope@), old(net).nodes@[i].id@)
                ==> final(net).nodes@[i] == old(net).nodes@[i],
        r.settled ==> closed_downward(old(net).justifications@, views(r.scope@)),
        r.settled ==> consistent_in(*final(net), views(r.scope@)),
        views(r.changed@) == changed_ids(old(net).nodes@, final(net).nodes@, id@),
        acyclic(old(net).justifications@) ==> r.settled,
{
    let ghost n0 = *net;
    let tvs = truth_values(&net.nodes);
    let mut i: usize = 0;
    while i < net.nodes.len()
        invariant
            same_shape(n0, *net),
            i <= net.nodes@.len(),
            forall|k: int| 0 <= k < i && #[trigger] net.nodes@[k].id@ == id@ ==> net.nodes@[k].truth_value@ == tv@,
            forall|k: int| i <= k < net.nodes@.len() ==> #[trigger] net.nodes@[k] == n0.nodes@[k],
            forall|k: int| 0 <= k < net.nodes@.len() && #[trigger] n0.nodes@[k].id@ != id@ ==> net.nodes@[k] == n0.nodes@[k],
        decreases net.nodes@.len() - i,
    {
        let ghost before = net.nodes@;
        let same = str_eq(net.nodes[i].id.as_str(), id);
        if same {
            set_truth(net, i, tv);
            assert(net.nodes@[i as int].truth_value@ == tv@);
        } else {
            assert(net.nodes@[i as int].id@ != id@);
        }
        assert forall|k: int| 0 <= k < i + 1 && #[trigger] net.nodes@[k].id@ == id@ implies net.nodes@[k].truth_value@ == tv@ by {
            if k < i {
                assert(net.nodes@[k] == before[k]);
                assert(before[k].id@ == id@);
            }
        }
        i = i + 1;
    }
    let ghost n1 = *net;
    let (d, closed) = downstream(net, id);
    assert(views(d@)[0] == id@);
    let settled = relabel(net, &d);
    proof {
        assert forall|k: int| 0 <= k < net.nodes@.len() && #[trigger] net.nodes@[k].id@ == id@ implies net.nodes@[k].truth_value@ == tv@ by {
            assert(n1.nodes@[k].id == net.nodes@[k].id);
            assert(!recomputed(n1, views(d@), n1.nodes@[k].id@));
        }
        assert forall|k: int|
            0 <= k < n0.nodes@.len() && #[trigger] n0.nodes@[k].id@ != id@ && !recomputed(n0, views(d@), n0.nodes@[k].id@)
                implies net.nodes@[k] == n0.nodes@[k] by {
            assert(n1.nodes@[k] == n0.nodes@[k]);
            assert(n1.is_premise(n0.nodes@[k].id@) == n0.is_premise(n0.nodes@[k].id@));
        }
    }
    assert(views(tvs@).len() == tvs@.len());
    assert(tvs@.len() == net.nodes@.len());
    let changed = changed_list(&tvs, &net.nodes, id);
    proof {
        assert(views(tvs@) == truths(n0.nodes@));
    }
    TmsChange { scope: d, changed, settled: closed && settled }
}

/// Retracts `id`: every record of it becomes OUT, and the nodes that depend
/// on it are re-derived.
pub fn retract(net: &mut Network, id: &str) -> (r: TmsChange)
    ensures
        same_shape(*old(net), *final(net)),
        forall|i: int| 0 <= i < final(net).nodes@.len() && #[trigger] final(net).nodes@[i].id@ == id@ ==> final(net).nodes@[i].truth_value@ == "OUT"@,
        depends_chain(old(net).justifications@, id@, views(r.scope@)),
        forall|i: int|
            0 <= i < old(net).nodes@.len() && #[trigger] old(net).nodes@[i].id@ != id@ && !recomputed(*old(net), views(r.scope@), old(net).nodes@[i].id@)
                ==> final(net).nodes@[i] == old(net).nodes@[i],
        r.settled ==> closed_downward(old(net).justifications@, views(r.scope@)),
        r.settled ==> consistent_in(*final(net), views(r.scope@)),
        views(r.changed@) == changed_ids(old(net).nodes@, final(net).nodes@, id@),
        acyclic(old(net).justifications@) ==> r.settled,
{
    pin_and_propagate(net, id, "OUT")
}

/// Asserts `id` again: every record of it becomes IN, and the nodes that
/// depend on it are re-derived.
pub fn assert_node(net: &mut Network, id: &str) -> (r: TmsChange)
    ensures
        same_shape(*old(net), *final(net)),
        forall|i: int| 0 <= i < final(net).nodes@.len() && #[trigger] final(net).nodes@[i].id@ == id@ ==> final(net).nodes@[i].truth_value@ == "IN"@,
        depends_chain(old(net).justifications@, id@, views(r.scope@)),
        forall|i: int|
            0 <= i < old(net).nodes@.len() && #[trigger] old(net).nodes@[i].id@ != id@ && !recomputed(*old(net), views(r.scope@), old(net).nodes@[i].id@)
                ==> final(net).nodes@[i] == old(net).nodes@[i],
        r.settled ==> closed_downward(old(net).justifications@, views(r.scope@)),
        r.settled ==> consistent_in(*final(net), views(r.scope@)),
        views(r.changed@) == changed_ids(old(net).nodes@, final(net).nodes@, id@),
        acyclic(old(net).justifications@) ==> r.settled,
{
    pin_and_propagate(net, id, "IN")
}

/// Adds the belief `node`, with its justification when it is derived, and
/// re-derives the nodes whose justifications already name it.
pub fn add_belief(net: &mut Network, node: Node, j: Option<Justification>) -> (r: TmsChange)
    ensures
        final(net).justifications@ == match j {
            Some(jj) => old(net).justifications@.push(jj),
            None => old(net).justifications@,
        },
        final(net).nodes@.len() == old(net).nodes@.len() + 1,
        final(net).nodes@[old(net).nodes@.len() as int] == node,
        forall|i: int| 0 <= i < old(net).nodes@.len() ==> (#[trigger] final(net).nodes@[i]).id == old(net).nodes@[i].id
            && final(net).nodes@[i].text == old(net).nodes@[i].text,
        depends_chain(final(net).justifications@, node.id@, views(r.scope@)),
        forall|i: int|
            0 <= i < old(net).nodes@.len() && !recomputed(*final(net), views(r.scope@), #[trigger] old(net).nodes@[i].id@)
                ==> final(net).nodes@[i] == old(net).nodes@[i],
        r.settled ==> closed_downward(final(net).justifications@, views(r.scope@)),
        r.settled ==> consistent_in(*final(net), views(r.scope@)),
        views(r.changed@) == changed_ids(old(net).nodes@.push(node), final(net).nodes@, node.id@),
        acyclic(final(net).justifications@) ==> r.settled,
{
    let id = node.id.clone();
    let ghost nd = node;
    match j {
        Some(jj) => net.justifications.push(jj),
        None => {},
    }
    net.nodes.push(node);
    let ghost n1 = *net;
    let tvs = truth_values(&net.nodes);
    let (d, closed) = downstream(net, id.as_str());
    assert(views(d@)[0] == id@);
    let settled = relabel(net, &d);
    proof {
        assert(n1.nodes@ == old(net).nodes@.push(nd));
        assert forall|i: int| 0 <= i < old(net).nodes@.len() implies (#[trigger] net.nodes@[i]).id == old(net).nodes@[i].id
            && net.nodes@[i].text == old(net).nodes@[i].text by {
            assert(n1.nodes@[i] == old(net).nodes@[i]);
        }
        let last = n1.nodes@.len() - 1;
        assert(n1.nodes@[last].id@ == id@);
        assert(!recomputed(n1, views(d@), n1.nodes@[last].id@));
        assert forall|i: int|
            0 <= i < old(net).nodes@.len() && !recomputed(*net, views(d@), #[trigger] old(net).nodes@[i].id@)
                implies net.nodes@[i] == old(net).nodes@[i] by {
            assert(n1.nodes@[i] == old(net).nodes@[i]);
            assert(net.is_premise(n1.nodes@[i].id@) == n1.is_premise(n1.nodes@[i].id@));
        }
    }
    assert(views(tvs@).len() == tvs@.len());
    let changed = changed_list(&tvs, &net.nodes, id.as_str());
    TmsChange { scope: d, changed, settled: closed && settled }
}

/// The justifications of `js` that are not of `target`, in order.
pub open spec fn without_node(js: Seq<Justification>, target: Seq<char>) -> Seq<Justification>
    decreases js.len(),
{
    if js.len() == 0 {
        Seq::empty()
    } else if js[0].node_id@ == target {
        without_node(js.drop_first(), target)
    } else {
        seq![js[0]] + without_node(js.drop_first(), target)
    }
}

/// Applies a challenge of `target`: the target's justifications become
/// those the challenge left, the challenge node is added, the target takes
/// the truth value the challenge gave it, and the nodes that depend on the
/// target are re-derived.
pub fn apply_challenge(net: &mut Network, target: &str, outcome: crate::update::ChallengeOutcome) -> (r: TmsChange)
    ensures
        final(net).justifications@ == without_node(old(net).justifications@, target@) + outcome.target_justifications@,
        final(net).nodes@.len() == old(net).nodes@.len() + 1,
        forall|i: int| 0 <= i < final(net).nodes@.len() ==> (#[trigger] final(net).nodes@[i]).id
            == old(net).nodes@.push(outcome.challenge)[i].id && final(net).nodes@[i].text == old(net).nodes@.push(
            outcome.challenge,
        )[i].text,
        forall|i: int| 0 <= i < final(net).nodes@.len() && #[trigger] final(net).nodes@[i].id@ == target@ ==> final(net).nodes@[i].truth_value@
            == outcome.target_truth@,
        final(net).nodes@[old(net).nodes@.len() as int].metadata == outcome.challenge.metadata,
        forall|i: int| 0 <= i < old(net).nodes@.len() && #[trigger] old(net).nodes@[i].id@ == target@ ==> json_of(final(net).nodes@[i].metadata)
            == challenged_meta(json_of(old(net).nodes@[i].metadata), outcome.challenge.id@),
        depends_chain(final(net).justifications@, target@, views(r.scope@)),
        forall|i: int|
            0 <= i < final(net).nodes@.len() && #[trigger] old(net).nodes@.push(outcome.challenge)[i].id@ != target@
                && !recomputed(*final(net), views(r.scope@), old(net).nodes@.push(outcome.challenge)[i].id@)
                ==> final(net).nodes@[i] == old(net).nodes@.push(outcome.challenge)[i],
        r.settled ==> closed_downward(final(net).justifications@, views(r.scope@)),
        r.settled ==> consistent_in(*final(net), views(r.scope@)),
        views(r.changed@) == changed_ids(old(net).nodes@.push(outcome.challenge), final(net).nodes@, target@),
        acyclic(final(net).justifications@) ==> r.settled,
{
    let ghost js = net.justifications@;
    let mut i: usize = net.justifications.len();
    assert(js.skip(i as int) =~= Seq::<Justification>::empty());
    assert(js.take(i as int) == js);
    while i > 0
        invariant
            i <= js.len(),
            net.justifications@ == js.take(i as int) + without_node(js.skip(i as int), target@),
            net.nodes@ == old(net).nodes@,
        decreases i,
    {
        let k = i - 1;
        let ghost tail = js.skip(k as int);
        assert(tail.drop_first() == js.skip(i as int));
        assert(tail[0] == js[k as int]);
        assert(net.justifications@[k as int] == js[k as int]);
        if str_eq(net.justifications[k].node_id.as_str(), target) {
            let _ = net.justifications.remove(k);
            assert(net.justifications@ =~= js.take(k as int) + without_node(js.skip(k as int), target@));
        } else {
            assert(js.take(i as int) == js.take(k as int).push(js[k as int]));
            assert(net.justifications@ =~= js.take(k as int) + without_node(js.skip(k as int), target@));
        }
        i = k;
    }
    assert(js.skip(0) == js);
    assert(js.take(0) =~= Seq::<Justification>::empty());
    let ghost n0 = old(net).nodes@;
    let mut i: usize = 0;
    while i < net.nodes.len()
        invariant
            n0 == old(net).nodes@,
            net.nodes@.len() == n0.len(),
            net.justifications@ == without_node(js, target@),
            i <= n0.len(),
            forall|k: int| 0 <= k < n0.len() ==> (#[trigger] net.nodes@[k]).id == n0[k].id && net.nodes@[k].text
                == n0[k].text && net.nodes@[k].truth_value == n0[k].truth_value,
            forall|k: int| 0 <= k < n0.len() && (k >= i || n0[k].id@ != target@) ==> #[trigger] net.nodes@[k] == n0[k],
            forall|k: int| 0 <= k < i && #[trigger] n0[k].id@ == target@ ==> json_of(net.nodes@[k].metadata)
                == challenged_meta(json_of(n0[k].metadata), outcome.challenge.id@),
        decreases n0.len() - i,
    {
        if str_eq(net.nodes[i].id.as_str(), target) {
            let Node { id, text, truth_value, source, source_url, metadata } = net.nodes.remove(i);
            let metadata = add_challenge(metadata, outcome.challenge.id.as_str());
            net.nodes.insert(i, Node { id, text, truth_value, source, source_url, metadata });
        }
        i = i + 1;
    }
    let ghost nm = net.nodes@;
    let crate::update::ChallengeOutcome { challenge, target_justifications, target_truth, message: _ } = outcome;
    let mut tj = target_justifications;
    net.justifications.append(&mut tj);
    let ghost chv = challenge;
    net.nodes.push(challenge);
    let ghost n1 = *net;
    let ghost expected = n0.push(chv);
    assert(n1.nodes@.len() == expected.len());
    assert forall|k: int| 0 <= k < expected.len() implies (#[trigger] n1.nodes@[k]).id == expected[k].id
        && n1.nodes@[k].text == expected[k].text
        && n1.nodes@[k].truth_value == expected[k].truth_value
        && (expected[k].id@ != target@ ==> n1.nodes@[k] == expected[k]) by {
        if k < n0.len() {
            assert(n1.nodes@[k] == nm[k]);
        }
    }
    let r = pin_and_propagate(net, target, target_truth.as_str());
    proof {
        assert(truths(n1.nodes@) =~= truths(expected));
        assert forall|k: int| 0 <= k < net.nodes@.len() implies (#[trigger] net.nodes@[k]).id == expected[k].id
            && net.nodes@[k].text == expected[k].text by {
            assert(n1.nodes@[k].id == expected[k].id);
        }
        assert forall|k: int| 0 <= k < expected.len() && #[trigger] expected[k].id@ != target@
            && !recomputed(*net, views(r.scope@), expected[k].id@) implies net.nodes@[k] == expected[k] by {
            assert(n1.nodes@[k].id@ != target@);
            assert(n1.is_premise(expected[k].id@) == net.is_premise(expected[k].id@));
        }
        assert(n1.nodes@[n0.len() as int] == chv);
        assert(net.nodes@[n0.len() as int].metadata == chv.metadata);
        assert forall|k: int| 0 <= k < n0.len() && #[trigger] n0[k].id@ == target@ implies json_of(net.nodes@[k].metadata)
            == challenged_meta(json_of(n0[k].metadata), chv.id@) by {
            assert(n1.nodes@[k].metadata == net.nodes@[k].metadata);
        }
    }
    r
}

/// Every node with justifications, other than those of `pinned`, holds the
/// value its justifications give it.
pub open spec fn consistent_except(net: Network, pinned: Seq<Seq<char>>) -> bool {
    forall|i: int|
        0 <= i < net.nodes@.len() && !net.is_premise(#[trigger] net.nodes@[i].id@) && !pinned.contains(net.nodes@[i].id@)
            ==> net.nodes@[i].truth_value@ == derived_value(net, net.nodes@[i].id@)
}

/// Every justification of `x` is one of the network's.
pub proof fn lemma_justs_of_member(js: Seq<Justification>, x: Seq<char>, k: int)
    requires
        0 <= k < justs_of(js, x).len(),
    ensures
        exists|q: int| 0 <= q < js.len() && js[q] == justs_of(js, x)[k] && js[q].node_id@ == x,
    decreases js.len(),
{
    let p = justs_of(js.drop_last(), x);
    if js.last().node_id@ == x && k == p.len() {
        assert(js[js.len() - 1] == justs_of(js, x)[k]);
    } else {
        if js.last().node_id@ == x {
            assert(justs_of(js, x)[k] == p[k]);
        }
        lemma_justs_of_member(js.drop_last(), x, k);
        let q = choose|q: int| 0 <= q < js.drop_last().len() && js.drop_last()[q] == p[k] && js.drop_last()[q].node_id@ == x;
        assert(js[q] == js.drop_last()[q]);
    }
}

/// Two record lists that agree on every record of `x` find the same node for it.
proof fn lemma_lookup_same(a: Seq<Node>, b: Seq<Node>, x: Seq<char>)
    requires
        a.len() == b.len(),
        forall|i: int| 0 <= i < a.len() ==> (#[trigger] a[i]).id == b[i].id,
        forall|i: int| 0 <= i < a.len() && (#[trigger] a[i]).id@ == x ==> a[i] == b[i],
    ensures
        crate::network::node_lookup(a, x) == crate::network::node_lookup(b, x),
    decreases a.len(),
{
    if a.len() > 0 {
        assert(a.last() == a[a.len() - 1]);
        assert(b.last() == b[b.len() - 1]);
        assert forall|i: int| 0 <= i < a.drop_last().len() implies (#[trigger] a.drop_last()[i]).id == b.drop_last()[i].id by {
            assert(a.drop_last()[i] == a[i]);
            assert(b.drop_last()[i] == b[i]);
        }
        assert forall|i: int| 0 <= i < a.drop_last().len() && (#[trigger] a.drop_last()[i]).id@ == x implies a.drop_last()[i] == b.drop_last()[i] by {
            assert(a.drop_last()[i] == a[i]);
            assert(b.drop_last()[i] == b[i]);
        }
        lemma_lookup_same(a.drop_last(), b.drop_last(), x);
    }
}

/// Re-deriving the nodes that depend on a changed node keeps the network
/// consistent: when every node with justifications except those of `pinned`
/// held its derived value before, and the re-derivation settled, every node
/// with justifications except those of `pinned` and the changed node holds
/// its derived value after. Nodes outside the re-derived ones keep their
/// records, and their justifications name none of the re-derived nodes.
pub proof fn lemma_update_keeps_consistency(
    before: Network,
    after: Network,
    changed: Seq<char>,
    scope: Seq<Seq<char>>,
    pinned: Seq<Seq<char>>,
)
    requires
        same_shape(before, after),
        depends_chain(before.justifications@, changed, scope),
        closed_downward(before.justifications@, scope),
        consistent_in(after, scope),
        forall|i: int|
            0 <= i < before.nodes@.len() && #[trigger] before.nodes@[i].id@ != changed && !recomputed(before, scope, before.nodes@[i].id@)
                ==> after.nodes@[i] == before.nodes@[i],
        consistent_except(before, pinned),
    ensures
        consistent_except(after, pinned.push(changed)),
{
    let js = before.justifications@;
    assert forall|i: int|
        0 <= i < after.nodes@.len() && !after.is_premise(#[trigger] after.nodes@[i].id@) && !pinned.push(changed).contains(
            after.nodes@[i].id@,
        ) implies after.nodes@[i].truth_value@ == derived_value(after, after.nodes@[i].id@) by {
        let x = after.nodes@[i].id@;
        assert(before.nodes@[i].id == after.nodes@[i].id);
        assert(x != changed) by {
            assert(pinned.push(changed)[pinned.len() as int] == changed);
        }
        assert(!pinned.contains(x)) by {
            if pinned.contains(x) {
                let k = choose|k: int| 0 <= k < pinned.len() && pinned[k] == x;
                assert(pinned.push(changed)[k] == x);
            }
        }
        if recomputed(after, scope, x) {
        } else {
            assert(!recomputed(before, scope, x));
            assert(after.nodes@[i] == before.nodes@[i]);
            assert(!scope.contains(x));
            // The justifications of `x` name no re-derived node, so they hold alike.
            assert forall|k: int| 0 <= k < after.justs(x).len() implies valid_justification(after, #[trigger] after.justs(x)[k])
                == valid_justification(before, before.justs(x)[k]) by {
                let j = after.justs(x)[k];
                lemma_justs_of_member(js, x, k);
                let q = choose|q: int| 0 <= q < js.len() && js[q] == justs_of(js, x)[k] && js[q].node_id@ == x;
                assert forall|y: Seq<char>| mentions(j, y) implies crate::network::node_lookup(after.nodes@, y)
                    == crate::network::node_lookup(before.nodes@, y) by {
                    if scope.contains(y) {
                        let m = choose|m: int| 0 <= m < scope.len() && scope[m] == y;
                        assert(mentions(js[q], scope[m]));
                    }
                    assert forall|p: int| 0 <= p < before.nodes@.len() implies (#[trigger] before.nodes@[p]).id == after.nodes@[p].id by {}
                    assert forall|p: int| 0 <= p < before.nodes@.len() && (#[trigger] before.nodes@[p]).id@ == y implies before.nodes@[p] == after.nodes@[p] by {
                        if y == changed {
                            assert(scope[0] == changed);
                        }
                        assert(!recomputed(before, scope, y));
                    }
                    lemma_lookup_same(before.nodes@, after.nodes@, y);
                }
                assert forall|a: int| 0 <= a < j.antecedents@.len() implies crate::explain::holds_in(after, #[trigger] j.antecedents@[a]@)
                    == crate::explain::holds_in(before, j.antecedents@[a]@) by {
                    assert(crate::text::views(j.antecedents@)[a] == j.antecedents@[a]@);
                    assert(mentions(j, j.antecedents@[a]@));
                }
                assert forall|a: int| 0 <= a < j.outlist@.len() implies crate::explain::holds_out(after, #[trigger] j.outlist@[a]@)
                    == crate::explain::holds_out(before, j.outlist@[a]@) by {
                    assert(crate::text::views(j.outlist@)[a] == j.outlist@[a]@);
                    assert(mentions(j, j.outlist@[a]@));
                }
            }
            assert(supported_in(after, x) == supported_in(before, x)) by {
                if supported_in(after, x) {
                    let k = choose|k: int| 0 <= k < after.justs(x).len() && valid_justification(after, #[trigger] after.justs(x)[k]);
                }
                if supported_in(before, x) {
                    let k = choose|k: int| 0 <= k < before.justs(x).len() && valid_justification(before, #[trigger] before.justs(x)[k]);
                }
            }
            assert(!before.is_premise(before.nodes@[i].id@));
        }
    }
}

/// `x` supports one of `prior`: it is an antecedent of a justification of one of them.
pub open spec fn supports_one_of(js: Seq<Justification>, prior: Seq<Seq<char>>, x: Seq<char>) -> bool {
    exists|q: int|
        0 <= q < js.len() && prior.contains(#[trigger] js[q].node_id@) && views(js[q].antecedents@).contains(x)
}

/// `s` starts with `seeds`, and every later member is an antecedent of a
/// justification of an earlier member: every member supports a seed.
pub open spec fn support_chain(js: Seq<Justification>, seeds: Seq<Seq<char>>, s: Seq<Seq<char>>) -> bool {
    &&& s.len() >= seeds.len()
    &&& s.take(seeds.len() as int) == seeds
    &&& forall|k: int| seeds.len() <= k < s.len() ==> supports_one_of(js, s.take(k), #[trigger] s[k])
}

/// The entrenchment of a node: how many distinct nodes depend on it.
pub open spec fn entrenchment(js: Seq<Justification>, id: Seq<char>) -> nat {
    dedup(crate::network::mention_owners(js, id)).len()
}

/// `c` can be blamed for a contradiction: a stored premise.
pub open spec fn blamable(net: Network, c: Seq<char>) -> bool {
    net.node(c) is Some && net.is_premise(c)
}

/// Every antecedent of a justification of a member of `s` is a member.
pub open spec fn closed_upward(js: Seq<Justification>, s: Seq<Seq<char>>) -> bool {
    forall|q: int, t: int|
        0 <= q < js.len() && s.contains(js[q].node_id@) && 0 <= t < js[q].antecedents@.len() ==> s.contains(
            #[trigger] views(js[q].antecedents@)[t],
        )
}

/// Every antecedent of a justification is among all the antecedents.
proof fn lemma_flat_contains(js: Seq<Justification>, q: int, x: Seq<char>)
    requires
        0 <= q < js.len(),
        views(js[q].antecedents@).contains(x),
    ensures
        crate::network::flat_antecedents(js).contains(x),
    decreases js.len(),
{
    let f = crate::network::flat_antecedents(js);
    let p = crate::network::flat_antecedents(js.drop_last());
    let last = views(js.last().antecedents@);
    assert(f == p + last);
    if q == js.len() - 1 {
        let t = choose|t: int| 0 <= t < last.len() && last[t] == x;
        assert(f[p.len() + t] == x);
    } else {
        assert(js.drop_last()[q] == js[q]);
        lemma_flat_contains(js.drop_last(), q, x);
        let t = choose|t: int| 0 <= t < p.len() && p[t] == x;
        assert(f[t] == x);
    }
}

/// Adding a new antecedent leaves fewer antecedents unseen.
proof fn lemma_unseen_shrinks(all: Set<Seq<char>>, s: Seq<Seq<char>>, x: Seq<char>)
    requires
        all.finite(),
        all.contains(x),
        !s.contains(x),
    ensures
        all.difference(s.push(x).to_set()).len() < all.difference(s.to_set()).len(),
{
    let d0 = all.difference(s.to_set());
    let d1 = all.difference(s.push(x).to_set());
    assert(d1 =~= d0.remove(x)) by {
        assert forall|y: Seq<char>| s.push(x).to_set().contains(y) <==> s.to_set().contains(y) || y == x by {
            if s.push(x).to_set().contains(y) {
                let k = choose|k: int| 0 <= k < s.push(x).len() && s.push(x)[k] == y;
                if k < s.len() {
                    assert(s[k] == y);
                }
            }
            if s.to_set().contains(y) {
                let k = choose|k: int| 0 <= k < s.len() && s[k] == y;
                assert(s.push(x)[k] == y);
            }
            if y == x {
                assert(s.push(x)[s.len() as int] == y);
            }
        }
    }
    assert(d0.contains(x));
    vstd::set_lib::lemma_len_subset(d0, all);
}

/// The nodes that support `ids`: `ids` first, then antecedents of their
/// justifications, and so on.
pub fn support_of(net: &Network, ids: &Vec<String>) -> (r: Vec<String>)
    ensures
        support_chain(net.justifications@, views(ids@), views(r@)),
        closed_upward(net.justifications@, views(r@)),
{
    let ghost js = net.justifications@;
    let ghost seeds = views(ids@);
    let mut s = crate::neighbors::copy_strings(ids.as_slice());
    assert(views(s@).take(seeds.len() as int) =~= seeds);
    let ghost all = crate::network::flat_antecedents(js).to_set();
    proof {
        vstd::seq_lib::seq_to_set_is_finite(crate::network::flat_antecedents(js));
    }
    let mut go = true;
    let mut closed = false;
    while go
        invariant
            js == net.justifications@,
            seeds == views(ids@),
            all == crate::network::flat_antecedents(js).to_set(),
            all.finite(),
            support_chain(js, seeds, views(s@)),
            !go ==> closed,
            closed ==> !go,
            closed ==> closed_upward(js, views(s@)),
        decreases all.difference(views(s@).to_set()).len(), (if go { 1int } else { 0int }),
    {
        let ghost s0 = views(s@);
        let mut added = false;
        let mut q: usize = 0;
        while q < net.justifications.len()
            invariant
                js == net.justifications@,
                seeds == views(ids@),
                all == crate::network::flat_antecedents(js).to_set(),
                all.finite(),
                q <= js.len(),
                support_chain(js, seeds, views(s@)),
                all.difference(views(s@).to_set()).len() <= all.difference(s0.to_set()).len(),
                added ==> all.difference(views(s@).to_set()).len() < all.difference(s0.to_set()).len(),
                !added ==> views(s@) == s0,
                !added ==> forall|q2: int, t: int|
                    0 <= q2 < q && s0.contains(js[q2].node_id@) && 0 <= t < js[q2].antecedents@.len()
                        ==> s0.contains(#[trigger] views(js[q2].antecedents@)[t]),
            decreases js.len() - q,
        {
            let j = &net.justifications[q];
            let present = contains_str(&s, j.node_id.as_str());
            if present {
                let mut a: usize = 0;
                while a < j.antecedents.len()
                    invariant
                        js == net.justifications@,
                        seeds == views(ids@),
                        q < js.len(),
                        *j == js[q as int],
                        views(s@).contains(j.node_id@),
                        a <= j.antecedents@.len(),
                        support_chain(js, seeds, views(s@)),
                        all == crate::network::flat_antecedents(js).to_set(),
                        all.finite(),
                        all.difference(views(s@).to_set()).len() <= all.difference(s0.to_set()).len(),
                        added ==> all.difference(views(s@).to_set()).len() < all.difference(s0.to_set()).len(),
                        !added ==> views(s@) == s0,
                        !added ==> forall|t: int| 0 <= t < a ==> s0.contains(#[trigger] views(j.antecedents@)[t]),
                        !added ==> forall|q2: int, t: int|
                            0 <= q2 < q && s0.contains(js[q2].node_id@) && 0 <= t < js[q2].antecedents@.len()
                                ==> s0.contains(#[trigger] views(js[q2].antecedents@)[t]),
                    decreases j.antecedents@.len() - a,
                {
                    assert(views(j.antecedents@)[a as int] == j.antecedents@[a as int]@);
                    if !contains_str(&s, j.antecedents[a].as_str()) {
                        let ghost prior = views(s@);
                        s.push(j.antecedents[a].clone());
                        proof {
                            lemma_flat_contains(js, q as int, j.antecedents@[a as int]@);
                            lemma_unseen_shrinks(all, prior, j.antecedents@[a as int]@);
                            assert(views(s@) =~= prior.push(j.antecedents@[a as int]@));
                            let ns = views(s@);
                            assert(ns.take(prior.len() as int) == prior);
                            assert(ns[prior.len() as int] == j.antecedents@[a as int]@);
                            assert(views(j.antecedents@)[a as int] == j.antecedents@[a as int]@);
                            assert(views(js[q as int].antecedents@).contains(ns[prior.len() as int]));
                            let m = choose|m: int| 0 <= m < prior.len() && prior[m] == j.node_id@;
                            assert(supports_one_of(js, ns.take(prior.len() as int), ns[prior.len() as int])) by {
                                assert(prior.contains(js[q as int].node_id@));
                            }
                            assert(ns.take(seeds.len() as int) == seeds) by {
                                assert(ns.take(seeds.len() as int) =~= prior.take(seeds.len() as int));
                            }
                            assert forall|k: int| seeds.len() <= k < ns.len() implies supports_one_of(js, ns.take(k), #[trigger] ns[k]) by {
                                if k < prior.len() {
                                    assert(ns.take(k) == prior.take(k));
                                    assert(ns[k] == prior[k]);
                                }
                            }
                            assert(ns.contains(j.node_id@)) by {
                                assert(ns[m] == prior[m]);
                            }
                        }
                        added = true;
                    }
                    a = a + 1;
                }
                assert(!added ==> forall|t: int| 0 <= t < j.antecedents@.len() ==> s0.contains(#[trigger] views(j.antecedents@)[t]));
            } else {
                assert(!added ==> !s0.contains(j.node_id@));
            }
            proof {
                if !added {
                    assert forall|q2: int, t: int|
                        0 <= q2 < q + 1 && s0.contains(js[q2].node_id@) && 0 <= t < js[q2].antecedents@.len()
                            implies s0.contains(#[trigger] views(js[q2].antecedents@)[t]) by {
                        if q2 == q {
                            assert(js[q2] == *j);
                            assert(views(js[q2].antecedents@) == views(j.antecedents@));
                            assert(s0.contains(j.node_id@));
                            assert(present);
                            assert(s0.contains(views(j.antecedents@)[t]));
                        }
                    }
                }
            }
            q = q + 1;
        }
        if !added {
            assert(views(s@) == s0);
            assert forall|q2: int, t: int|
                0 <= q2 < js.len() && s0.contains(js[q2].node_id@) && 0 <= t < js[q2].antecedents@.len()
                    implies s0.contains(#[trigger] views(js[q2].antecedents@)[t]) by {}
            closed = true;
            go = false;
        }
    }
    s
}

/// The least-entrenched stored premise among `s`, first in `s` on ties.
pub fn least_entrenched(net: &Network, s: &Vec<String>) -> (r: Option<(String, usize)>)
    ensures
        match r {
            Some((c, e)) => views(s@).contains(c@) && blamable(*net, c@) && e == entrenchment(net.justifications@, c@)
                && (forall|k: int| 0 <= k < s@.len() && blamable(*net, #[trigger] views(s@)[k]) ==> e <= entrenchment(net.justifications@, views(s@)[k]))
                && exists|i: int| 0 <= i < s@.len() && #[trigger] views(s@)[i] == c@ && forall|m: int|
                    0 <= m < i && blamable(*net, #[trigger] views(s@)[m]) ==> e < entrenchment(net.justifications@, views(s@)[m]),
            None => forall|k: int| 0 <= k < s@.len() ==> !blamable(*net, #[trigger] views(s@)[k]),
        },
{
    let mut best: Option<(String, usize)> = None;
    let ghost mut bi: int = 0;
    let mut k: usize = 0;
    while k < s.len()
        invariant
            k <= s@.len(),
            match best {
                Some((c, e)) => views(s@).contains(c@) && blamable(*net, c@) && e == entrenchment(net.justifications@, c@)
                    && (forall|m: int| 0 <= m < k && blamable(*net, #[trigger] views(s@)[m]) ==> e <= entrenchment(net.justifications@, views(s@)[m]))
                    && 0 <= bi < k && views(s@)[bi] == c@ && (forall|m: int|
                        0 <= m < bi && blamable(*net, #[trigger] views(s@)[m]) ==> e < entrenchment(net.justifications@, views(s@)[m])),
                None => forall|m: int| 0 <= m < k ==> !blamable(*net, #[trigger] views(s@)[m]),
            },
        decreases s@.len() - k,
    {
        let id = s[k].as_str();
        assert(views(s@)[k as int] == s@[k as int]@);
        if net.find_node(id).is_some() && !net.has_justification(id) {
            let e = crate::network::get_dependents(net, id).len();
            let better = match &best {
                Some((_, b)) => e < *b,
                None => true,
            };
            if better {
                best = Some((s[k].clone(), e));
                proof {
                    bi = k as int;
                }
            }
        }
        k = k + 1;
    }
    best
}

/// Dependency-directed backtracking for a contradiction among `ids`: the
/// least-entrenched stored premise supporting them is retracted.
pub struct Backtracking {
    pub support: Vec<String>,
    pub culprit: Option<(String, usize)>,
    pub change: Option<TmsChange>,
}

/// Retracts the least-entrenched stored premise among the nodes that support
/// `ids`, if there is one.
pub fn backtrack(net: &mut Network, ids: &Vec<String>) -> (r: Backtracking)
    ensures
        support_chain(old(net).justifications@, views(ids@), views(r.support@)),
        closed_upward(old(net).justifications@, views(r.support@)),
        match r.culprit {
            Some((c, e)) => views(r.support@).contains(c@) && blamable(*old(net), c@) && e == entrenchment(
                old(net).justifications@,
                c@,
            ) && (forall|k: int|
                0 <= k < r.support@.len() && blamable(*old(net), #[trigger] views(r.support@)[k]) ==> e
                    <= entrenchment(old(net).justifications@, views(r.support@)[k])) && (r.change matches Some(ch) && {
                &&& same_shape(*old(net), *final(net))
                &&& forall|i: int|
                    0 <= i < final(net).nodes@.len() && #[trigger] final(net).nodes@[i].id@ == c@ ==> final(net).nodes@[i].truth_value@
                        == "OUT"@
                &&& depends_chain(old(net).justifications@, c@, views(ch.scope@))
                &&& forall|i: int|
                    0 <= i < old(net).nodes@.len() && #[trigger] old(net).nodes@[i].id@ != c@ && !recomputed(
                        *old(net),
                        views(ch.scope@),
                        old(net).nodes@[i].id@,
                    ) ==> final(net).nodes@[i] == old(net).nodes@[i]
                &&& ch.settled ==> closed_downward(old(net).justifications@, views(ch.scope@))
                &&& ch.settled ==> consistent_in(*final(net), views(ch.scope@))
                &&& views(ch.changed@) == changed_ids(old(net).nodes@, final(net).nodes@, c@)
                &&& acyclic(old(net).justifications@) ==> ch.settled
            }),
            None => (forall|k: int| 0 <= k < r.support@.len() ==> !blamable(*old(net), #[trigger] views(r.support@)[k]))
                && r.change is None && *final(net) == *old(net),
        },
{
    let support = support_of(net, ids);
    let culprit = least_entrenched(net, &support);
    match culprit {
        Some((c, e)) => {
            let change = retract(net, c.as_str());
            Backtracking { support, culprit: Some((c, e)), change: Some(change) }
        },
        None => Backtracking { support, culprit: None, change: None },
    }
}

/// Networks of the same shape store the same identifiers.
pub proof fn lemma_same_shape_lookup(a: Network, b: Network, x: Seq<char>)
    requires
        same_shape(a, b),
    ensures
        (crate::network::node_lookup(a.nodes@, x) is Some) == (crate::network::node_lookup(b.nodes@, x) is Some),
{
    lemma_ids_lookup(a.nodes@, b.nodes@, x);
}

proof fn lemma_ids_lookup(a: Seq<Node>, b: Seq<Node>, x: Seq<char>)
    requires
        a.len() == b.len(),
        forall|i: int| 0 <= i < a.len() ==> (#[trigger] a[i]).id == b[i].id,
    ensures
        (crate::network::node_lookup(a, x) is Some) == (crate::network::node_lookup(b, x) is Some),
    decreases a.len(),
{
    if a.len() > 0 {
        assert(a.last() == a[a.len() - 1]);
        assert(b.last() == b[b.len() - 1]);
        assert forall|i: int| 0 <= i < a.drop_last().len() implies (#[trigger] a.drop_last()[i]).id == b.drop_last()[i].id by {
            assert(a.drop_last()[i] == a[i]);
            assert(b.drop_last()[i] == b[i]);
        }
        lemma_ids_lookup(a.drop_last(), b.drop_last(), x);
    }
}

/// `path` follows antecedents: each later node is an antecedent of some
/// justification of the node before it.
pub open spec fn antecedent_path(js: Seq<Justification>, path: Seq<Seq<char>>) -> bool {
    &&& path.len() >= 1
    &&& forall|k: int|
        0 <= k < path.len() - 1 ==> exists|q: int|
            0 <= q < js.len() && js[q].node_id@ == #[trigger] path[k] && views(js[q].antecedents@).contains(path[k + 1])
}

/// A list closed under antecedents holds every node reached from one of its
/// members by following antecedents.
pub proof fn lemma_closed_holds_paths(js: Seq<Justification>, s: Seq<Seq<char>>, path: Seq<Seq<char>>)
    requires
        closed_upward(js, s),
        antecedent_path(js, path),
        s.contains(path[0]),
    ensures
        forall|k: int| 0 <= k < path.len() ==> s.contains(#[trigger] path[k]),
    decreases path.len(),
{
    if path.len() > 1 {
        let prefix = path.drop_last();
        assert forall|k: int| 0 <= k < prefix.len() - 1 implies exists|q: int|
            0 <= q < js.len() && js[q].node_id@ == #[trigger] prefix[k] && views(js[q].antecedents@).contains(prefix[k + 1]) by {
            assert(prefix[k] == path[k]);
            assert(prefix[k + 1] == path[k + 1]);
        }
        lemma_closed_holds_paths(js, s, prefix);
        let k = path.len() - 2;
        assert(s.contains(prefix[k]));
        assert(prefix[k] == path[k]);
        let q = choose|q: int|
            0 <= q < js.len() && js[q].node_id@ == path[k] && views(js[q].antecedents@).contains(path[k + 1]);
        let t = choose|t: int| 0 <= t < views(js[q].antecedents@).len() && views(js[q].antecedents@)[t] == path[k + 1];
        assert(s.contains(views(js[q].antecedents@)[t]));
        assert forall|m: int| 0 <= m < path.len() implies s.contains(#[trigger] path[m]) by {
            if m < path.len() - 1 {
                assert(path[m] == prefix[m]);
            }
        }
    }
}

/// Backtracking blames no premise more entrenched than any other premise
/// that supports the contradicting nodes: every stored premise reached from
/// one of them by following antecedents is at least as entrenched as the
/// culprit.
pub proof fn lemma_culprit_least_entrenched(
    net: Network,
    ids: Seq<Seq<char>>,
    s: Seq<Seq<char>>,
    c: Seq<char>,
    path: Seq<Seq<char>>,
)
    requires
        support_chain(net.justifications@, ids, s),
        closed_upward(net.justifications@, s),
        forall|k: int| 0 <= k < s.len() && blamable(net, #[trigger] s[k]) ==> entrenchment(net.justifications@, c)
            <= entrenchment(net.justifications@, s[k]),
        antecedent_path(net.justifications@, path),
        ids.contains(path[0]),
        blamable(net, path.last()),
    ensures
        entrenchment(net.justifications@, c) <= entrenchment(net.justifications@, path.last()),
{
    let i = choose|i: int| 0 <= i < ids.len() && ids[i] == path[0];
    assert(s.take(ids.len() as int)[i] == ids[i]);
    assert(s[i] == path[0]);
    lemma_closed_holds_paths(net.justifications@, s, path);
    assert(s.contains(path[path.len() - 1]));
    let k = choose|k: int| 0 <= k < s.len() && s[k] == path[path.len() - 1];
    assert(blamable(net, s[k]));
}

} // verus!
