//! The server's update tools, each the whole of one request on a network:
//! deciding what to store, storing it, re-deriving what depends on it, and
//! the report.
use vstd::prelude::*;
use crate::desktop::{challenged_meta, defended_meta, json_of, Json};
use crate::network::{Justification, Network, Node};
use crate::tms::{
    acyclic, blamable, changed_ids, closed_downward, consistent_in, depends_chain, entrenchment, recomputed,
    support_chain, without_node,
};
use crate::text::{decimal, views};
use crate::update::{
    add_result_ok, backtrack_text, cascade_text, challenge_id_of, challenge_message, challenged_justifications,
    defense_id_of, discovered_text, first_missing, nogood_id_of, nogood_message, not_found_error, opt_text,
    NogoodRecord,
};

verus! {

/// The nodes that depend on `id` were re-derived: some list of them (`id`
/// first) is closed under dependence on an acyclic graph, every record
/// outside it other than those of `id` is as it was, and on an acyclic
/// graph every re-derived node holds the value its justifications give it.
pub open spec fn rederived(before: Seq<Node>, after: Network, id: Seq<char>) -> bool {
    exists|d: Seq<Seq<char>>|
        #![trigger depends_chain(after.justifications@, id, d)]
        depends_chain(after.justifications@, id, d) && (forall|i: int|
            0 <= i < before.len() && #[trigger] before[i].id@ != id && !recomputed(after, d, before[i].id@)
                ==> after.nodes@[i] == before[i]) && (acyclic(after.justifications@) ==> closed_downward(
            after.justifications@,
            d,
        ) && consistent_in(after, d))
}

/// `after` is `before` with every record of `id` given the value `tv` and
/// the nodes that depend on `id` re-derived.
pub open spec fn pinned_update(before: Network, after: Network, id: Seq<char>, tv: Seq<char>) -> bool {
    &&& crate::tms::same_shape(before, after)
    &&& forall|i: int| 0 <= i < after.nodes@.len() && #[trigger] after.nodes@[i].id@ == id ==> after.nodes@[i].truth_value@ == tv
    &&& rederived(before.nodes@, after, id)
}

/// The `add` tool: adds the belief `node_id` (derived from `sl` unless
/// `unless`, or a premise), re-derives the beliefs waiting on it, and reports
/// it; an error, with the network unchanged, when it is already stored.
pub fn add_tool(
    net: &mut Network,
    node_id: &str,
    text: &str,
    sl: Option<&str>,
    unless: Option<&str>,
    source: Option<&str>,
    source_url: Option<&str>,
    label: Option<&str>,
) -> (r: String)
    ensures
        old(net).node(node_id@) is Some ==> *final(net) == *old(net) && r@ == "Error: Node already exists: "@
            + node_id@,
        old(net).node(node_id@) is None ==> ({
            let n = final(net).nodes@[old(net).nodes@.len() as int];
            &&& final(net).nodes@.len() == old(net).nodes@.len() + 1
            &&& final(net).justifications@ == if sl is Some {
                old(net).justifications@.push(final(net).justifications@.last())
            } else {
                old(net).justifications@
            }
            &&& add_result_ok(
                *old(net),
                node_id@,
                text@,
                opt_text(sl),
                opt_text(unless),
                opt_text(label),
                opt_text(source),
                opt_text(source_url),
                n,
                if sl is Some {
                    Some(final(net).justifications@.last())
                } else {
                    None
                },
            )
            &&& forall|i: int| 0 <= i < old(net).nodes@.len() ==> (#[trigger] final(net).nodes@[i]).id
                == old(net).nodes@[i].id && final(net).nodes@[i].text == old(net).nodes@[i].text
            &&& rederived(old(net).nodes@, *final(net), node_id@)
            &&& r@ == "Added "@ + node_id@ + " ["@ + n.truth_value@ + "]"@
        }),
{
    match crate::update::add_impl(net, node_id, text, sl, unless, source, source_url, label) {
        Err(e) => e,
        Ok((n, j)) => {
            let message = crate::update::added_message(&n);
            let ghost nv = n;
            let ghost jv = j;
            let ghost n0 = *net;
            let ch = crate::tms::add_belief(net, n, j);
            proof {
                let d = views(ch.scope@);
                assert(depends_chain(net.justifications@, node_id@, d));
                if jv is Some {
                    assert(net.justifications@.last() == jv->0);
                }
                assert(net.nodes@[n0.nodes@.len() as int] == nv);
                assert forall|i: int|
                    0 <= i < n0.nodes@.len() && #[trigger] n0.nodes@[i].id@ != node_id@ && !recomputed(*net, d, n0.nodes@[i].id@)
                        implies net.nodes@[i] == n0.nodes@[i] by {}
            }
            message
        },
    }
}

/// The `challenge` tool: challenges `target_id` with a new IN node, records
/// the challenge in the target's data, re-derives the target (now OUT) and
/// what depends on it, and reports it; an error, with the network unchanged,
/// when the target is not stored.
pub fn challenge_tool(net: &mut Network, target_id: &str, reason: &str, challenge_id: Option<&str>) -> (r: String)
    ensures
        old(net).node(target_id@) is None ==> *final(net) == *old(net) && r@ == not_found_error(target_id@),
        old(net).node(target_id@) is Some ==> ({
            let cid = challenge_id_of(target_id@, opt_text(challenge_id));
            let c = final(net).nodes@[old(net).nodes@.len() as int];
            &&& final(net).nodes@.len() == old(net).nodes@.len() + 1
            &&& c.id@ == cid && c.text@ == reason@
            &&& json_of(c.metadata) == Json::Object(Seq::empty())
            &&& exists|nj: Seq<Justification>|
                final(net).justifications@ == without_node(old(net).justifications@, target_id@) + nj
                    && #[trigger] challenged_justifications(old(net).justs(target_id@), target_id@, cid, nj)
            &&& forall|i: int| 0 <= i < final(net).nodes@.len() && #[trigger] final(net).nodes@[i].id@ == target_id@
                ==> final(net).nodes@[i].truth_value@ == "OUT"@
            &&& forall|i: int| 0 <= i < old(net).nodes@.len() && #[trigger] old(net).nodes@[i].id@ == target_id@
                ==> json_of(final(net).nodes@[i].metadata) == challenged_meta(json_of(old(net).nodes@[i].metadata), cid)
            &&& rederived(old(net).nodes@, *final(net), target_id@)
            &&& r@ == challenge_message(target_id@, cid, "OUT"@)
        }),
{
    match crate::update::challenge_impl(net, target_id, reason, challenge_id) {
        Err(e) => e,
        Ok(o) => {
            let message = o.message.clone();
            let ghost ov = o;
            let ghost n0 = *net;
            let ch = crate::tms::apply_challenge(net, target_id, o);
            proof {
                let d = views(ch.scope@);
                assert(challenged_justifications(n0.justs(target_id@), target_id@, ov.challenge.id@, ov.target_justifications@));
                assert(net.nodes@[n0.nodes@.len() as int].id == ov.challenge.id);
                assert(net.nodes@[n0.nodes@.len() as int].text == ov.challenge.text);
                assert forall|i: int|
                    0 <= i < n0.nodes@.len() && #[trigger] n0.nodes@[i].id@ != target_id@ && !recomputed(*net, d, n0.nodes@[i].id@)
                        implies net.nodes@[i] == n0.nodes@[i] by {
                    assert(n0.nodes@.push(ov.challenge)[i] == n0.nodes@[i]);
                }
                assert(depends_chain(net.justifications@, target_id@, d));
            }
            message
        },
    }
}

/// The `defend` tool: challenges the challenge node `challenge_id` with a
/// defense node recording what it defends, re-derives the challenge node
/// (now OUT) and what depends on it (the defended belief among them), and
/// reports it; the network is unchanged when the challenge node is not stored.
#[verifier::rlimit(60)]
#[verifier::spinoff_prover]
pub fn defend_tool(
    net: &mut Network,
    target_id: &str,
    challenge_id: &str,
    reason: &str,
    defense_id: Option<&str>,
) -> (r: String)
    ensures
        ({
            let did = defense_id_of(challenge_id@, opt_text(defense_id));
            let tail = "\nDefended "@ + target_id@ + " against "@ + challenge_id@ + " with "@ + did;
            &&& old(net).node(challenge_id@) is None ==> *final(net) == *old(net) && r@ == not_found_error(
                challenge_id@,
            ) + tail
            &&& old(net).node(challenge_id@) is Some ==> ({
                let c = final(net).nodes@[old(net).nodes@.len() as int];
                &&& final(net).nodes@.len() == old(net).nodes@.len() + 1
                &&& c.id@ == did && c.text@ == reason@
                &&& json_of(c.metadata) == defended_meta(Json::Object(Seq::empty()), target_id@, challenge_id@)
                &&& exists|nj: Seq<Justification>|
                    final(net).justifications@ == without_node(old(net).justifications@, challenge_id@) + nj
                        && #[trigger] challenged_justifications(old(net).justs(challenge_id@), challenge_id@, did, nj)
                &&& forall|i: int|
                    0 <= i < final(net).nodes@.len() && #[trigger] final(net).nodes@[i].id@ == challenge_id@
                        ==> final(net).nodes@[i].truth_value@ == "OUT"@
                &&& rederived(old(net).nodes@, *final(net), challenge_id@)
                &&& r@ == challenge_message(challenge_id@, did, "OUT"@) + tail
            })
        }),
{
    let d = crate::update::defend_impl(net, target_id, challenge_id, reason, defense_id);
    let crate::update::DefenseOutcome { challenge, message } = d;
    match challenge {
        Err(_) => message,
        Ok(o) => {
            let ghost ov = o;
            let ghost n0 = *net;
            let ch = crate::tms::apply_challenge(net, challenge_id, o);
            proof {
                let dd = views(ch.scope@);
                assert(challenged_justifications(n0.justs(challenge_id@), challenge_id@, ov.challenge.id@, ov.target_justifications@));
                assert(net.nodes@[n0.nodes@.len() as int].id == ov.challenge.id);
                assert(net.nodes@[n0.nodes@.len() as int].text == ov.challenge.text);
                assert forall|i: int|
                    0 <= i < n0.nodes@.len() && #[trigger] n0.nodes@[i].id@ != challenge_id@ && !recomputed(*net, dd, n0.nodes@[i].id@)
                        implies net.nodes@[i] == n0.nodes@[i] by {
                    assert(n0.nodes@.push(ov.challenge)[i] == n0.nodes@[i]);
                }
                assert(depends_chain(net.justifications@, challenge_id@, dd));
            }
            message
        },
    }
}

/// The `retract` tool: every record of `node_id` becomes OUT, what depends
/// on it is re-derived, and the report lists the other nodes that changed;
/// an error, with the network unchanged, when it is not stored.
pub fn retract_tool(net: &mut Network, node_id: &str) -> (r: String)
    ensures
        old(net).node(node_id@) is None ==> *final(net) == *old(net) && r@ == not_found_error(node_id@),
        old(net).node(node_id@) is Some ==> pinned_update(*old(net), *final(net), node_id@, "OUT"@) && r@
            == cascade_text(*final(net), *final(net), "Retracted"@, node_id@, changed_ids(old(net).nodes@, final(net).nodes@, node_id@)),
{
    if net.find_node(node_id).is_none() {
        let mut e = crate::text::owned("Error: Node not found: ");
        e.append(node_id);
        return e;
    }
    let ghost n0 = *net;
    let ch = crate::tms::retract(net, node_id);
    proof {
        let d = views(ch.scope@);
        assert(depends_chain(net.justifications@, node_id@, d));
        assert(net.node(node_id@) is Some) by {
            crate::tms::lemma_same_shape_lookup(n0, *net, node_id@);
        }
    }
    crate::update::retract_report(net, net, node_id, &ch.changed)
}

/// The `assert_node` tool: every record of `node_id` becomes IN again, what
/// depends on it is re-derived, and the report lists the other nodes that
/// changed; an error, with the network unchanged, when it is not stored.
pub fn assert_tool(net: &mut Network, node_id: &str) -> (r: String)
    ensures
        old(net).node(node_id@) is None ==> *final(net) == *old(net) && r@ == not_found_error(node_id@),
        old(net).node(node_id@) is Some ==> pinned_update(*old(net), *final(net), node_id@, "IN"@) && r@
            == cascade_text(*final(net), *final(net), "Asserted"@, node_id@, changed_ids(old(net).nodes@, final(net).nodes@, node_id@)),
{
    if net.find_node(node_id).is_none() {
        let mut e = crate::text::owned("Error: Node not found: ");
        e.append(node_id);
        return e;
    }
    let ghost n0 = *net;
    let ch = crate::tms::assert_node(net, node_id);
    proof {
        let d = views(ch.scope@);
        assert(depends_chain(net.justifications@, node_id@, d));
        assert(net.node(node_id@) is Some) by {
            crate::tms::lemma_same_shape_lookup(n0, *net, node_id@);
        }
    }
    crate::update::assert_report(net, net, node_id, &ch.changed)
}

/// The `nogood` tool: records that `node_ids` contradict each other as
/// contradiction number `existing + 1`, at the current time; when all of them
/// are IN, retracts the least-entrenched stored premise supporting them,
/// re-deriving what depends on it, and records the resolution; an error,
/// with the network unchanged, names the first node that is not stored.
pub fn nogood_tool(net: &mut Network, node_ids: &Vec<String>, existing: usize) -> (r: Result<(NogoodRecord, String), String>)
    requires
        existing < usize::MAX,
    ensures
        match r {
            Err(e) => first_missing(*old(net), views(node_ids@)) matches Some(m) && e@ == not_found_error(m) && *final(net)
                == *old(net),
            Ok((rec, m)) => {
                let ids = views(node_ids@);
                let all_in = forall|k: int| 0 <= k < ids.len() ==> crate::explain::holds_in(*old(net), #[trigger] ids[k]);
                &&& first_missing(*old(net), ids) is None
                &&& rec.id@ == nogood_id_of((existing + 1) as nat)
                &&& views(rec.nodes@) == ids
                &&& exists|now: Option<(u64, u32)>| rec.discovered@ == #[trigger] discovered_text(now)
                &&& !all_in ==> *final(net) == *old(net) && rec.resolution@.len() == 0 && m@ == nogood_message(
                    rec.id@,
                    ids,
                    false,
                )
                &&& all_in ==> exists|s: Seq<Seq<char>>|
                    #![trigger support_chain(old(net).justifications@, ids, s)]
                    support_chain(old(net).justifications@, ids, s) && crate::tms::closed_upward(
                        old(net).justifications@,
                        s,
                    ) && ((exists|c: Seq<char>|
                        #![trigger blamable(*old(net), c)]
                        s.contains(c) && blamable(*old(net), c) && (forall|k: int|
                            0 <= k < s.len() && blamable(*old(net), #[trigger] s[k]) ==> entrenchment(
                                old(net).justifications@,
                                c,
                            ) <= entrenchment(old(net).justifications@, s[k])) && pinned_update(
                            *old(net),
                            *final(net),
                            c,
                            "OUT"@,
                        ) && rec.resolution@ == backtrack_text(
                            Some(c),
                            decimal(entrenchment(old(net).justifications@, c)),
                            changed_ids(old(net).nodes@, final(net).nodes@, c),
                        ).1 && m@ == nogood_message(rec.id@, ids, true) + backtrack_text(
                            Some(c),
                            decimal(entrenchment(old(net).justifications@, c)),
                            changed_ids(old(net).nodes@, final(net).nodes@, c),
                        ).0) || ((forall|k: int| 0 <= k < s.len() ==> !blamable(*old(net), #[trigger] s[k]))
                        && *final(net) == *old(net) && rec.resolution@.len() == 0 && m@ == nogood_message(
                        rec.id@,
                        ids,
                        true,
                    ) + backtrack_text(None, Seq::empty(), Seq::empty()).0))
            },
        },
{
    let now = crate::update::clock_since_epoch();
    let start = match crate::update::nogood_impl(net, node_ids, existing, now) {
        Err(e) => return Err(e),
        Ok(s) => s,
    };
    let crate::update::NogoodStart { record, all_in, message } = start;
    let mut record = record;
    let mut message = message;
    assert(record.discovered@ == discovered_text(now));
    if !all_in {
        return Ok((record, message));
    }
    let ghost n0 = *net;
    let bt = crate::tms::backtrack(net, node_ids);
    let ghost s = views(bt.support@);
    match bt.culprit {
        Some((c, e)) => {
            match bt.change {
                Some(ch) => {
                    let es = crate::text::decimal_string(e);
                    let (msg, res) = crate::update::backtrack_report(Some(c.as_str()), es.as_str(), &ch.changed);
                    record.resolution = res;
                    message.append(msg.as_str());
                    proof {
                        let d = views(ch.scope@);
                        assert(depends_chain(net.justifications@, c@, d));
                        assert(blamable(n0, c@));
                        assert(support_chain(n0.justifications@, views(node_ids@), s));
                        assert(crate::tms::closed_upward(n0.justifications@, s));
                    }
                },
                None => {
                    assert(false);
                },
            }
        },
        None => {
            let empty: Vec<String> = Vec::new();
            let (msg, _) = crate::update::backtrack_report(None, "", &empty);
            message.append(msg.as_str());
            proof {
                assert(support_chain(n0.justifications@, views(node_ids@), s));
                assert(crate::tms::closed_upward(n0.justifications@, s));
            }
        },
    }
    Ok((record, message))
}

/// `y` is found alike in both networks: in neither, or in both with the
/// same truth value.
pub open spec fn found_alike(a: Network, b: Network, y: Seq<char>) -> bool {
    match (crate::network::node_lookup(a.nodes@, y), crate::network::node_lookup(b.nodes@, y)) {
        (None, None) => true,
        (Some(m), Some(n)) => m.truth_value@ == n.truth_value@,
        _ => false,
    }
}

proof fn lemma_found_alike(a: Seq<Node>, b: Seq<Node>, y: Seq<char>)
    requires
        a.len() == b.len(),
        forall|i: int| 0 <= i < a.len() ==> (#[trigger] a[i]).id == b[i].id,
        forall|i: int| 0 <= i < a.len() && (#[trigger] a[i]).id@ == y ==> a[i].truth_value@ == b[i].truth_value@,
    ensures
        match (crate::network::node_lookup(a, y), crate::network::node_lookup(b, y)) {
            (None, None) => true,
            (Some(m), Some(n)) => m.truth_value@ == n.truth_value@,
            _ => false,
        },
    decreases a.len(),
{
    if a.len() > 0 {
        assert(a.last() == a[a.len() - 1]);
        assert(b.last() == b[b.len() - 1]);
        assert forall|i: int| 0 <= i < a.drop_last().len() implies (#[trigger] a.drop_last()[i]).id == b.drop_last()[i].id by {
            assert(a.drop_last()[i] == a[i]);
            assert(b.drop_last()[i] == b[i]);
        }
        assert forall|i: int| 0 <= i < a.drop_last().len() && (#[trigger] a.drop_last()[i]).id@ == y implies a.drop_last()[i].truth_value@
            == b.drop_last()[i].truth_value@ by {
            assert(a.drop_last()[i] == a[i]);
            assert(b.drop_last()[i] == b[i]);
        }
        lemma_found_alike(a.drop_last(), b.drop_last(), y);
    }
}

proof fn lemma_derived_alike(a: Network, b: Network, x: Seq<char>)
    requires
        a.justifications@ == b.justifications@,
        forall|q: int, y: Seq<char>|
            0 <= q < a.justifications@.len() && a.justifications@[q].node_id@ == x && #[trigger] crate::network::mentions(
                a.justifications@[q],
                y,
            ) ==> found_alike(a, b, y),
    ensures
        crate::tms::derived_value(a, x) == crate::tms::derived_value(b, x),
{
    let js = a.justifications@;
    assert forall|k: int| 0 <= k < a.justs(x).len() implies crate::explain::valid_justification(
        a,
        #[trigger] a.justs(x)[k],
    ) == crate::explain::valid_justification(b, b.justs(x)[k]) by {
        let j = a.justs(x)[k];
        crate::tms::lemma_justs_of_member(js, x, k);
        let q = choose|q: int| 0 <= q < js.len() && js[q] == crate::network::justs_of(js, x)[k] && js[q].node_id@ == x;
        assert forall|t: int| 0 <= t < j.antecedents@.len() implies crate::explain::holds_in(a, #[trigger] j.antecedents@[t]@)
            == crate::explain::holds_in(b, j.antecedents@[t]@) by {
            assert(views(j.antecedents@)[t] == j.antecedents@[t]@);
            assert(crate::network::mentions(js[q], j.antecedents@[t]@));
        }
        assert forall|t: int| 0 <= t < j.outlist@.len() implies crate::explain::holds_out(a, #[trigger] j.outlist@[t]@)
            == crate::explain::holds_out(b, j.outlist@[t]@) by {
            assert(views(j.outlist@)[t] == j.outlist@[t]@);
            assert(crate::network::mentions(js[q], j.outlist@[t]@));
        }
    }
    if crate::tms::supported_in(a, x) {
        let k = choose|k: int| 0 <= k < a.justs(x).len() && crate::explain::valid_justification(a, #[trigger] a.justs(x)[k]);
    }
    if crate::tms::supported_in(b, x) {
        let k = choose|k: int| 0 <= k < b.justs(x).len() && crate::explain::valid_justification(b, #[trigger] b.justs(x)[k]);
    }
}

proof fn lemma_unique_below(
    a: Network,
    b: Network,
    q: Seq<Seq<char>>,
    rank: spec_fn(Seq<char>) -> nat,
    r: nat,
)
    requires
        crate::tms::same_shape(a, b),
        crate::tms::ranked(a.justifications@, rank),
        crate::tms::consistent_except(a, q),
        crate::tms::consistent_except(b, q),
        forall|x: Seq<char>| q.contains(x) ==> a.is_premise(x),
        forall|i: int| 0 <= i < a.nodes@.len() && a.is_premise(#[trigger] a.nodes@[i].id@) ==> a.nodes@[i].truth_value@
            == b.nodes@[i].truth_value@,
    ensures
        forall|i: int| 0 <= i < a.nodes@.len() && rank(#[trigger] a.nodes@[i].id@) < r ==> a.nodes@[i].truth_value@
            == b.nodes@[i].truth_value@,
    decreases r,
{
    if r > 0 {
        lemma_unique_below(a, b, q, rank, (r - 1) as nat);
        let js = a.justifications@;
        assert forall|i: int| 0 <= i < a.nodes@.len() && rank(#[trigger] a.nodes@[i].id@) < r implies a.nodes@[i].truth_value@
            == b.nodes@[i].truth_value@ by {
            let x = a.nodes@[i].id@;
            if rank(x) < r - 1 || a.is_premise(x) {
            } else {
                assert(!q.contains(x));
                assert(b.nodes@[i].id == a.nodes@[i].id);
                assert forall|qq: int, y: Seq<char>|
                    0 <= qq < js.len() && js[qq].node_id@ == x && #[trigger] crate::network::mentions(js[qq], y)
                        implies found_alike(a, b, y) by {
                    assert(rank(y) < rank(x));
                    assert forall|k: int| 0 <= k < a.nodes@.len() implies (#[trigger] a.nodes@[k]).id == b.nodes@[k].id by {}
                    assert forall|k: int| 0 <= k < a.nodes@.len() && (#[trigger] a.nodes@[k]).id@ == y implies a.nodes@[k].truth_value@
                        == b.nodes@[k].truth_value@ by {
                        if !a.is_premise(y) {
                            assert(rank(a.nodes@[k].id@) < r - 1);
                        }
                    }
                    lemma_found_alike(a.nodes@, b.nodes@, y);
                }
                lemma_derived_alike(a, b, x);
            }
        }
    }
}

/// On an acyclic graph, the truth values of the nodes with justifications
/// are determined by those of the premises: two consistent networks of the
/// same shape that agree on every premise agree everywhere.
pub proof fn lemma_consistent_unique(a: Network, b: Network, q: Seq<Seq<char>>)
    requires
        crate::tms::same_shape(a, b),
        acyclic(a.justifications@),
        crate::tms::consistent_except(a, q),
        crate::tms::consistent_except(b, q),
        forall|x: Seq<char>| q.contains(x) ==> a.is_premise(x),
        forall|i: int| 0 <= i < a.nodes@.len() && a.is_premise(#[trigger] a.nodes@[i].id@) ==> a.nodes@[i].truth_value@
            == b.nodes@[i].truth_value@,
    ensures
        forall|i: int| 0 <= i < a.nodes@.len() ==> (#[trigger] a.nodes@[i]).truth_value@ == b.nodes@[i].truth_value@,
{
    let rank = choose|rank: spec_fn(Seq<char>) -> nat| crate::tms::ranked(a.justifications@, rank);
    let js = a.justifications@;
    assert forall|i: int| 0 <= i < a.nodes@.len() implies (#[trigger] a.nodes@[i]).truth_value@ == b.nodes@[i].truth_value@ by {
        let x = a.nodes@[i].id@;
        if !a.is_premise(x) {
            assert(a.justs(x).len() > 0);
            crate::tms::lemma_justs_of_member(js, x, 0);
            let qq = choose|qq: int| 0 <= qq < js.len() && js[qq] == crate::network::justs_of(js, x)[0] && js[qq].node_id@ == x;
            assert(rank(js[qq].node_id@) < js.len());
            lemma_unique_below(a, b, q, rank, js.len() as nat);
        }
    }
}

/// An update that pins one node and re-derives what depends on it keeps an
/// acyclic network consistent, apart from the pinned nodes.
pub proof fn lemma_pinned_keeps_consistency(before: Network, after: Network, id: Seq<char>, tv: Seq<char>, pinned: Seq<Seq<char>>)
    requires
        pinned_update(before, after, id, tv),
        acyclic(before.justifications@),
        crate::tms::consistent_except(before, pinned),
    ensures
        crate::tms::consistent_except(after, pinned.push(id)),
{
    let d = choose|d: Seq<Seq<char>>|
        #![trigger depends_chain(after.justifications@, id, d)]
        depends_chain(after.justifications@, id, d) && (forall|i: int|
            0 <= i < before.nodes@.len() && #[trigger] before.nodes@[i].id@ != id && !recomputed(after, d, before.nodes@[i].id@)
                ==> after.nodes@[i] == before.nodes@[i]) && (acyclic(after.justifications@) ==> closed_downward(
            after.justifications@,
            d,
        ) && consistent_in(after, d));
    crate::tms::lemma_update_keeps_consistency(before, after, id, d, pinned);
}

/// Asserting a premise undoes its retraction: on an acyclic, consistent
/// network whose premise `p` is IN, retracting `p` and then asserting it
/// again gives every node back its truth value.
pub proof fn lemma_assert_undoes_retract(n0: Network, n1: Network, n2: Network, p: Seq<char>)
    requires
        acyclic(n0.justifications@),
        crate::tms::consistent_except(n0, Seq::empty()),
        n0.is_premise(p),
        forall|i: int| 0 <= i < n0.nodes@.len() && #[trigger] n0.nodes@[i].id@ == p ==> n0.nodes@[i].truth_value@ == "IN"@,
        pinned_update(n0, n1, p, "OUT"@),
        pinned_update(n1, n2, p, "IN"@),
    ensures
        forall|i: int| 0 <= i < n0.nodes@.len() ==> (#[trigger] n2.nodes@[i]).truth_value@ == n0.nodes@[i].truth_value@,
{
    let e = Seq::<Seq<char>>::empty();
    lemma_pinned_keeps_consistency(n0, n1, p, "OUT"@, e);
    lemma_pinned_keeps_consistency(n1, n2, p, "IN"@, e.push(p));
    let q = e.push(p).push(p);
    assert(crate::tms::consistent_except(n0, q));
    assert forall|x: Seq<char>| q.contains(x) implies n0.is_premise(x) by {
        let k = choose|k: int| 0 <= k < q.len() && q[k] == x;
    }
    let d1 = choose|d: Seq<Seq<char>>|
        #![trigger depends_chain(n1.justifications@, p, d)]
        depends_chain(n1.justifications@, p, d) && (forall|i: int|
            0 <= i < n0.nodes@.len() && #[trigger] n0.nodes@[i].id@ != p && !recomputed(n1, d, n0.nodes@[i].id@)
                ==> n1.nodes@[i] == n0.nodes@[i]) && (acyclic(n1.justifications@) ==> closed_downward(
            n1.justifications@,
            d,
        ) && consistent_in(n1, d));
    let d2 = choose|d: Seq<Seq<char>>|
        #![trigger depends_chain(n2.justifications@, p, d)]
        depends_chain(n2.justifications@, p, d) && (forall|i: int|
            0 <= i < n1.nodes@.len() && #[trigger] n1.nodes@[i].id@ != p && !recomputed(n2, d, n1.nodes@[i].id@)
                ==> n2.nodes@[i] == n1.nodes@[i]) && (acyclic(n2.justifications@) ==> closed_downward(
            n2.justifications@,
            d,
        ) && consistent_in(n2, d));
    assert forall|i: int| 0 <= i < n0.nodes@.len() && n0.is_premise(#[trigger] n0.nodes@[i].id@) implies n0.nodes@[i].truth_value@
        == n2.nodes@[i].truth_value@ by {
        assert(n1.nodes@[i].id == n0.nodes@[i].id);
        assert(n2.nodes@[i].id == n1.nodes@[i].id);
        if n0.nodes@[i].id@ != p {
            assert(!recomputed(n1, d1, n0.nodes@[i].id@));
            assert(n1.nodes@[i] == n0.nodes@[i]);
            assert(!recomputed(n2, d2, n1.nodes@[i].id@));
        }
    }
    assert(crate::tms::same_shape(n0, n2));
    lemma_consistent_unique(n0, n2, q);
}

} // verus!
