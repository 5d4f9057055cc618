//! The changes a request makes to a network: new nodes, challenges,
//! defenses, recorded contradictions, and the messages that report them.
use vstd::prelude::*;
use crate::explain::{holds_in, holds_out, is_in, is_out_or_missing, valid_justification};
use crate::network::{Justification, Network, Node, justs_of, node_lookup};
use crate::text::{
    decimal, join, joined, owned, split_on, split_fields, str_eq, trim,
    trimmed, views,
};

verus! {

/// The non-empty, trimmed fields of a comma-separated list.
pub open spec fn id_list(fields: Seq<Seq<char>>) -> Seq<Seq<char>>
    decreases fields.len(),
{
    if fields.len() == 0 {
        Seq::empty()
    } else {
        let t = trimmed(fields.last());
        if t.len() > 0 {
            id_list(fields.drop_last()).push(t)
        } else {
            id_list(fields.drop_last())
        }
    }
}

/// The node identifiers of a comma-separated list: each field trimmed,
/// empty fields dropped.
pub open spec fn parsed_ids(s: Seq<char>) -> Seq<Seq<char>> {
    id_list(split_fields(s, ','))
}

/// The identifiers of the comma-separated list `s`.
pub fn parse_id_list(s: &str) -> (r: Vec<String>)
    ensures
        views(r@) == parsed_ids(s@),
{
    let fields = split_on(s, ',');
    let ghost fs = views(fields@);
    let mut r: Vec<String> = Vec::new();
    let mut i: usize = 0;
    while i < fields.len()
        invariant
            fs == views(fields@),
            fs == split_fields(s@, ','),
            i <= fs.len(),
            views(r@) == id_list(fs.take(i as int)),
        decreases fs.len() - i,
    {
        assert(fs.take(i + 1).drop_last() == fs.take(i as int));
        let t = trim(fields[i].as_str());
        if t.as_str().unicode_len() > 0 {
            let ghost prev = views(r@);
            r.push(t);
            assert(views(r@) =~= prev.push(t@));
        }
        i = i + 1;
    }
    assert(fs.take(fs.len() as int) == fs);
    r
}

/// Whether a justification with these antecedents and outlist holds once a
/// new `IN` node `id` has joined the network: every antecedent is the new
/// node or an IN node, and every outlist entry is neither the new node nor
/// an IN node.
pub open spec fn added_truth(net: Network, id: Seq<char>, ants: Seq<Seq<char>>, outs: Seq<Seq<char>>) -> Seq<char> {
    if (forall|k: int| 0 <= k < ants.len() ==> #[trigger] ants[k] == id || holds_in(net, ants[k]))
        && (forall|k: int| 0 <= k < outs.len() ==> #[trigger] outs[k] != id && holds_out(net, outs[k])) {
        "IN"@
    } else {
        "OUT"@
    }
}

/// The error for a node that is not stored.
pub open spec fn not_found_error(id: Seq<char>) -> Seq<char> {
    "Error: Node not found: "@ + id
}

/// What adding `id` stores: the node, and for a derived node its `SL`
/// justification; an error when `id` is already stored.
pub open spec fn add_result_ok(
    net: Network,
    id: Seq<char>,
    text: Seq<char>,
    sl: Option<Seq<char>>,
    unless: Option<Seq<char>>,
    label: Option<Seq<char>>,
    source: Option<Seq<char>>,
    source_url: Option<Seq<char>>,
    n: Node,
    j: Option<Justification>,
) -> bool {
    &&& n.id@ == id
    &&& n.text@ == text
    &&& n.source@ == match source {
        Some(x) => x,
        None => Seq::empty(),
    }
    &&& n.source_url@ == match source_url {
        Some(x) => x,
        None => Seq::empty(),
    }
    &&& crate::desktop::json_of(n.metadata) == crate::desktop::Json::Object(Seq::empty())
    &&& match sl {
        None => n.truth_value@ == "IN"@ && j is None,
        Some(s) => {
            let ants = parsed_ids(s);
            let outs = match unless {
                Some(u) => parsed_ids(u),
                None => Seq::empty(),
            };
            &&& j matches Some(jj) && jj.node_id@ == id && jj.jtype@ == "SL"@ && views(jj.antecedents@)
                == ants && views(jj.outlist@) == outs && jj.label@ == match label {
                Some(l) => l,
                None => Seq::empty(),
            }
            &&& n.truth_value@ == added_truth(net, id, ants, outs)
        },
    }
}

/// Whether every entry of `ids` is the new node or an IN node.
fn all_in_or_new(net: &Network, id: &str, ids: &Vec<String>) -> (r: bool)
    ensures
        r == forall|k: int| 0 <= k < ids@.len() ==> #[trigger] views(ids@)[k] == id@ || holds_in(*net, views(ids@)[k]),
{
    let mut k: usize = 0;
    while k < ids.len()
        invariant
            k <= ids@.len(),
            forall|m: int| 0 <= m < k ==> #[trigger] views(ids@)[m] == id@ || holds_in(*net, views(ids@)[m]),
        decreases ids@.len() - k,
    {
        if !str_eq(ids[k].as_str(), id) && !is_in(net, ids[k].as_str()) {
            assert(!(views(ids@)[k as int] == id@ || holds_in(*net, views(ids@)[k as int])));
            return false;
        }
        k = k + 1;
    }
    true
}

/// Whether every entry of `ids` is neither the new node nor an IN node.
fn all_out_not_new(net: &Network, id: &str, ids: &Vec<String>) -> (r: bool)
    ensures
        r == forall|k: int| 0 <= k < ids@.len() ==> #[trigger] views(ids@)[k] != id@ && holds_out(*net, views(ids@)[k]),
{
    let mut k: usize = 0;
    while k < ids.len()
        invariant
            k <= ids@.len(),
            forall|m: int| 0 <= m < k ==> #[trigger] views(ids@)[m] != id@ && holds_out(*net, views(ids@)[m]),
        decreases ids@.len() - k,
    {
        if str_eq(ids[k].as_str(), id) || !is_out_or_missing(net, ids[k].as_str()) {
            assert(!(views(ids@)[k as int] != id@ && holds_out(*net, views(ids@)[k as int])));
            return false;
        }
        k = k + 1;
    }
    true
}

/// The text of an optional parameter.
pub open spec fn opt_text(o: Option<&str>) -> Option<Seq<char>> {
    match o {
        Some(s) => Some(s@),
        None => None,
    }
}

/// Sets where a node comes from.
fn set_sources(n: &mut Node, source: Option<&str>, source_url: Option<&str>)
    ensures
        final(n).id == old(n).id,
        final(n).text == old(n).text,
        final(n).truth_value == old(n).truth_value,
        final(n).metadata == old(n).metadata,
        final(n).source@ == match opt_text(source) {
            Some(x) => x,
            None => old(n).source@,
        },
        final(n).source_url@ == match opt_text(source_url) {
            Some(x) => x,
            None => old(n).source_url@,
        },
{
    match source {
        Some(x) => n.source = owned(x),
        None => {},
    }
    match source_url {
        Some(x) => n.source_url = owned(x),
        None => {},
    }
}

/// The node (and justification) to store for a new belief `node_id`, or the
/// error when a node with that identifier is already stored.
pub fn add_impl(
    net: &Network,
    node_id: &str,
    text: &str,
    sl: Option<&str>,
    unless: Option<&str>,
    source: Option<&str>,
    source_url: Option<&str>,
    label: Option<&str>,
) -> (r: Result<(Node, Option<Justification>), String>)
    ensures
        match r {
            Err(e) => net.node(node_id@) is Some && e@ == "Error: Node already exists: "@ + node_id@,
            Ok((n, j)) => net.node(node_id@) is None && add_result_ok(
                *net,
                node_id@,
                text@,
                opt_text(sl),
                opt_text(unless),
                opt_text(label),
                opt_text(source),
                opt_text(source_url),
                n,
                j,
            ),
        },
{
    if net.find_node(node_id).is_some() {
        let mut e = owned("Error: Node already exists: ");
        e.append(node_id);
        return Err(e);
    }
    match sl {
        None => {
            let mut n = Node::new(node_id, text);
            set_sources(&mut n, source, source_url);
            Ok((n, None))
        },
        Some(s) => {
            let ants = parse_id_list(s);
            let outs = match unless {
                Some(u) => parse_id_list(u),
                None => {
                    let v: Vec<String> = Vec::new();
                    assert(views(v@) =~= Seq::<Seq<char>>::empty());
                    v
                },
            };
            let holds = all_in_or_new(net, node_id, &ants) && all_out_not_new(net, node_id, &outs);
            let tv = if holds {
                owned("IN")
            } else {
                owned("OUT")
            };
            let lab = match label {
                Some(l) => owned(l),
                None => String::new(),
            };
            let mut n = Node::new(node_id, text);
            n.truth_value = tv;
            set_sources(&mut n, source, source_url);
            let j = Justification {
                node_id: owned(node_id),
                jtype: owned("SL"),
                antecedents: ants,
                outlist: outs,
                label: lab,
            };
            Ok((n, Some(j)))
        },
    }
}

/// `Added <id> [<truth value>]`.
pub fn added_message(n: &Node) -> (r: String)
    ensures
        r@ == "Added "@ + n.id@ + " ["@ + n.truth_value@ + "]"@,
{
    let mut r = owned("Added ");
    r.append(n.id.as_str());
    r.append(" [");
    r.append(n.truth_value.as_str());
    r.append("]");
    r
}

/// What a challenge stores: the challenge node, the target's new
/// justifications, the target's new truth value, and the report.
pub struct ChallengeOutcome {
    pub challenge: Node,
    pub target_justifications: Vec<Justification>,
    pub target_truth: String,
    pub message: String,
}

/// The identifier of the challenge node: the one given, or `challenge-<target>`.
pub open spec fn challenge_id_of(target: Seq<char>, given: Option<Seq<char>>) -> Seq<char> {
    match given {
        Some(c) => c,
        None => "challenge-"@ + target,
    }
}

/// `new` is `old` with `cid` added to its outlist (unless already there).
pub open spec fn challenged_justification(old: Justification, cid: Seq<char>, new: Justification) -> bool {
    &&& new.node_id@ == old.node_id@
    &&& new.jtype@ == old.jtype@
    &&& views(new.antecedents@) == views(old.antecedents@)
    &&& views(new.outlist@) == crate::network::add_new(views(old.outlist@), cid)
    &&& new.label@ == old.label@
}

/// The target's justifications after the challenge: a premise gets a single
/// `SL` justification with no antecedents whose outlist is the challenge;
/// otherwise every justification gets the challenge added to its outlist.
pub open spec fn challenged_justifications(old: Seq<Justification>, target: Seq<char>, cid: Seq<char>, new: Seq<Justification>) -> bool {
    if old.len() == 0 {
        &&& new.len() == 1
        &&& new[0].node_id@ == target
        &&& new[0].jtype@ == "SL"@
        &&& new[0].antecedents@.len() == 0
        &&& views(new[0].outlist@) == seq![cid]
        &&& new[0].label@.len() == 0
    } else {
        &&& new.len() == old.len()
        &&& forall|k: int| 0 <= k < old.len() ==> challenged_justification(old[k], cid, #[trigger] new[k])
    }
}

/// Whether justification `j` holds once the challenge node `cid` is stored
/// and IN: every antecedent is the challenge or IN, every outlist entry is
/// neither the challenge nor IN.
pub open spec fn holds_with_challenge(net: Network, cid: Seq<char>, j: Justification) -> bool {
    &&& forall|k: int| 0 <= k < j.antecedents@.len() ==> #[trigger] views(j.antecedents@)[k] == cid
        || holds_in(net, views(j.antecedents@)[k])
    &&& forall|k: int| 0 <= k < j.outlist@.len() ==> #[trigger] views(j.outlist@)[k] != cid
        && holds_out(net, views(j.outlist@)[k])
}

/// The report of a challenge.
pub open spec fn challenge_message(target: Seq<char>, cid: Seq<char>, truth: Seq<char>) -> Seq<char> {
    "Challenged "@ + target + " with "@ + cid + " -> target is now "@ + truth
}

/// A copy of justification `j` with `cid` added to its outlist.
fn challenged_copy(j: &Justification, cid: &String) -> (r: Justification)
    ensures
        challenged_justification(*j, cid@, r),
{
    let mut outs = crate::neighbors::copy_strings(j.outlist.as_slice());
    crate::network::push_new(&mut outs, cid);
    Justification {
        node_id: j.node_id.clone(),
        jtype: j.jtype.clone(),
        antecedents: crate::neighbors::copy_strings(j.antecedents.as_slice()),
        outlist: outs,
        label: j.label.clone(),
    }
}

/// Whether `j` holds once the challenge node `cid` is stored and IN.
fn holds_after_challenge(net: &Network, cid: &str, j: &Justification) -> (r: bool)
    ensures
        r == holds_with_challenge(*net, cid@, *j),
{
    let ants = all_in_or_new(net, cid, &j.antecedents);
    let outs = all_out_not_new(net, cid, &j.outlist);
    ants && outs
}

/// Challenges `target_id` with a new IN node (`challenge_id`, or
/// `challenge-<target>`) whose text is `reason`: the challenge joins the
/// outlist of each of the target's justifications, so the target goes OUT.
/// An error when the target is not stored.
pub fn challenge_impl(net: &Network, target_id: &str, reason: &str, challenge_id: Option<&str>) -> (r: Result<
    ChallengeOutcome,
    String,
>)
    ensures
        match r {
            Err(e) => net.node(target_id@) is None && e@ == not_found_error(target_id@),
            Ok(o) => {
                let cid = challenge_id_of(target_id@, opt_text(challenge_id));
                &&& net.node(target_id@) is Some
                &&& o.challenge.id@ == cid
                &&& o.challenge.text@ == reason@
                &&& o.challenge.truth_value@ == "IN"@
                &&& o.challenge.source@ == Seq::<char>::empty()
                &&& o.challenge.source_url@ == Seq::<char>::empty()
                &&& crate::desktop::json_of(o.challenge.metadata) == crate::desktop::Json::Object(Seq::empty())
                &&& challenged_justifications(net.justs(target_id@), target_id@, cid, o.target_justifications@)
                &&& (exists|k: int| 0 <= k < o.target_justifications@.len() && holds_with_challenge(*net, cid, #[trigger] o.target_justifications@[k]))
                    == (o.target_truth@ == "IN"@)
                &&& o.target_truth@ == "OUT"@
                &&& o.message@ == challenge_message(target_id@, cid, o.target_truth@)
            },
        },
{
    if net.find_node(target_id).is_none() {
        let mut e = owned("Error: Node not found: ");
        e.append(target_id);
        return Err(e);
    }
    let cid = match challenge_id {
        Some(c) => owned(c),
        None => {
            let mut c = owned("challenge-");
            c.append(target_id);
            c
        },
    };
    let ghost cidv = cid@;
    let challenge = Node::new(cid.as_str(), reason);
    let ghost js = net.justifications@;
    let ghost old_js = net.justs(target_id@);
    let mut new_js: Vec<Justification> = Vec::new();
    let mut i: usize = 0;
    while i < net.justifications.len()
        invariant
            js == net.justifications@,
            cid@ == cidv,
            i <= js.len(),
            new_js@.len() == justs_of(js.take(i as int), target_id@).len(),
            forall|k: int| 0 <= k < new_js@.len() ==> challenged_justification(
                justs_of(js.take(i as int), target_id@)[k],
                cidv,
                #[trigger] new_js@[k],
            ),
            forall|k: int| 0 <= k < new_js@.len() ==> views((#[trigger] new_js@[k]).outlist@).contains(cidv),
        decreases js.len() - i,
    {
        assert(js.take(i + 1).drop_last() == js.take(i as int));
        let j = &net.justifications[i];
        if str_eq(j.node_id.as_str(), target_id) {
            let ghost before = justs_of(js.take(i as int), target_id@);
            assert(justs_of(js.take(i + 1), target_id@) == before.push(*j));
            let c = challenged_copy(j, &cid);
            assert(views(c.outlist@).contains(cidv)) by {
                if !views(j.outlist@).contains(cidv) {
                    assert(views(c.outlist@)[views(j.outlist@).len() as int] == cidv);
                }
            }
            new_js.push(c);
        }
        i = i + 1;
    }
    assert(js.take(js.len() as int) == js);
    if new_js.len() == 0 {
        let mut outs: Vec<String> = Vec::new();
        outs.push(cid.clone());
        let ants: Vec<String> = Vec::new();
        let j = Justification {
            node_id: owned(target_id),
            jtype: owned("SL"),
            antecedents: ants,
            outlist: outs,
            label: String::new(),
        };
        assert(views(j.outlist@) =~= seq![cidv]);
        assert(views(j.outlist@)[0] == cidv);
        new_js.push(j);
    }
    let mut supported = false;
    let mut k: usize = 0;
    while k < new_js.len()
        invariant
            k <= new_js@.len(),
            cid@ == cidv,
            forall|m: int| 0 <= m < new_js@.len() ==> views((#[trigger] new_js@[m]).outlist@).contains(cidv),
            forall|m: int| 0 <= m < k ==> !holds_with_challenge(*net, cidv, #[trigger] new_js@[m]),
            !supported,
        decreases new_js@.len() - k,
    {
        if holds_after_challenge(net, cid.as_str(), &new_js[k]) {
            proof {
                let jk = new_js@[k as int];
                let o = views(jk.outlist@);
                assert(o.contains(cidv));
                let p = choose|p: int| 0 <= p < o.len() && o[p] == cidv;
                assert(holds_with_challenge(*net, cidv, jk));
                assert(views(jk.outlist@)[p] != cidv);
                assert(false);
            }
            supported = true;
        }
        k = k + 1;
    }
    assert(!(exists|m: int| 0 <= m < new_js@.len() && holds_with_challenge(*net, cidv, #[trigger] new_js@[m])));
    let truth = if supported {
        owned("IN")
    } else {
        owned("OUT")
    };
    let mut message = owned("Challenged ");
    message.append(target_id);
    message.append(" with ");
    message.append(cid.as_str());
    message.append(" -> target is now ");
    message.append(truth.as_str());
    proof {
        reveal_strlit("IN");
        reveal_strlit("OUT");
    }
    Ok(ChallengeOutcome { challenge, target_justifications: new_js, target_truth: truth, message })
}

/// What a defense does: the challenge it makes against the challenge node,
/// and the report.
pub struct DefenseOutcome {
    pub challenge: Result<ChallengeOutcome, String>,
    pub message: String,
}

/// The identifier of the defense node: the one given, or `defense-<challenge>`.
pub open spec fn defense_id_of(challenge: Seq<char>, given: Option<Seq<char>>) -> Seq<char> {
    match given {
        Some(d) => d,
        None => "defense-"@ + challenge,
    }
}

/// Defends `target_id` against `challenge_id`: the challenge node is itself
/// challenged by a defense node (`defense_id`, or `defense-<challenge>`)
/// whose data records what it defends and what it counters, and the report
/// adds which target was defended. Applying the challenge
/// (`tms::apply_challenge`) puts the challenge node OUT and re-derives the
/// defended belief.
pub fn defend_impl(
    net: &Network,
    target_id: &str,
    challenge_id: &str,
    reason: &str,
    defense_id: Option<&str>,
) -> (r: DefenseOutcome)
    ensures
        ({
            let did = defense_id_of(challenge_id@, opt_text(defense_id));
            &&& match r.challenge {
                Err(e) => net.node(challenge_id@) is None && e@ == not_found_error(challenge_id@),
                Ok(o) => net.node(challenge_id@) is Some && o.challenge.id@ == did && o.challenge.text@
                    == reason@ && o.challenge.truth_value@ == "IN"@ && crate::desktop::json_of(o.challenge.metadata)
                    == crate::desktop::defended_meta(
                    crate::desktop::Json::Object(Seq::empty()),
                    target_id@,
                    challenge_id@,
                ) && challenged_justifications(
                    net.justs(challenge_id@),
                    challenge_id@,
                    did,
                    o.target_justifications@,
                ) && o.target_truth@ == "OUT"@ && o.message@ == challenge_message(
                    challenge_id@,
                    did,
                    o.target_truth@,
                ),
            }
            &&& r.message@ == match r.challenge {
                Err(e) => e@,
                Ok(o) => o.message@,
            } + "\nDefended "@ + target_id@ + " against "@ + challenge_id@ + " with "@ + did
        }),
{
    let did = match defense_id {
        Some(d) => owned(d),
        None => {
            let mut d = owned("defense-");
            d.append(challenge_id);
            d
        },
    };
    let outcome = challenge_impl(net, challenge_id, reason, Some(did.as_str()));
    let mut message = match &outcome {
        Ok(o) => o.message.clone(),
        Err(e) => e.clone(),
    };
    message.append("\nDefended ");
    message.append(target_id);
    message.append(" against ");
    message.append(challenge_id);
    message.append(" with ");
    message.append(did.as_str());
    let challenge = match outcome {
        Ok(o) => {
            let ChallengeOutcome { challenge, target_justifications, target_truth, message } = o;
            let Node { id, text, truth_value, source, source_url, metadata } = challenge;
            let metadata = crate::desktop::mark_defense(metadata, target_id, challenge_id);
            let challenge = Node { id, text, truth_value, source, source_url, metadata };
            Ok(ChallengeOutcome { challenge, target_justifications, target_truth, message })
        },
        Err(e) => Err(e),
    };
    DefenseOutcome { challenge, message }
}

/// A challenged justification cannot hold while its challenge node is IN:
/// the challenge sits in its outlist.
pub proof fn lemma_challenged_defeated(net: Network, old: Justification, cid: Seq<char>, new: Justification)
    requires
        challenged_justification(old, cid, new),
        holds_in(net, cid),
    ensures
        !valid_justification(net, new),
{
    let o = views(new.outlist@);
    assert(o.contains(cid)) by {
        if !views(old.outlist@).contains(cid) {
            assert(o[views(old.outlist@).len() as int] == cid);
        }
    }
    let p = choose|p: int| 0 <= p < o.len() && o[p] == cid;
    assert(new.outlist@[p]@ == cid);
    match node_lookup(net.nodes@, cid) {
        Some(n) => {
            assert(n.truth_value@ == "IN"@);
            assert(n.truth_value@ != "OUT"@) by {
                reveal_strlit("IN");
                reveal_strlit("OUT");
                assert("IN"@[0] != "OUT"@[0]);
            }
            assert(!holds_out(net, new.outlist@[p]@));
        },
        None => {},
    }
}

/// Once the challenge node is OUT again (its defense holds), a challenged
/// justification holds exactly where the justification it replaced held.
pub proof fn lemma_challenged_restored(net: Network, old: Justification, cid: Seq<char>, new: Justification)
    requires
        challenged_justification(old, cid, new),
        holds_out(net, cid),
    ensures
        valid_justification(net, new) == valid_justification(net, old),
{
    let oo = views(old.outlist@);
    let no = views(new.outlist@);
    assert(views(new.antecedents@).len() == new.antecedents@.len());
    assert(views(old.antecedents@).len() == old.antecedents@.len());
    assert(no.len() == new.outlist@.len() && oo.len() == old.outlist@.len());
    assert(no == if oo.contains(cid) { oo } else { oo.push(cid) });
    assert forall|k: int| 0 <= k < new.antecedents@.len() implies new.antecedents@[k]@ == old.antecedents@[k]@ by {
        assert(views(new.antecedents@)[k] == views(old.antecedents@)[k]);
    }
    if valid_justification(net, old) {
        assert forall|k: int| 0 <= k < new.outlist@.len() implies holds_out(net, #[trigger] new.outlist@[k]@) by {
            assert(no[k] == new.outlist@[k]@);
            if k < oo.len() {
                assert(no[k] == oo[k]);
                assert(oo[k] == old.outlist@[k]@);
            } else {
                assert(no[k] == cid);
            }
        }
    }
    if valid_justification(net, new) {
        assert forall|k: int| 0 <= k < old.outlist@.len() implies holds_out(net, #[trigger] old.outlist@[k]@) by {
            assert(oo[k] == old.outlist@[k]@);
            assert(no[k] == oo[k]);
            assert(holds_out(net, new.outlist@[k]@));
        }
    }
}

/// Whether some justification among `js` holds.
pub open spec fn supported(net: Network, js: Seq<Justification>) -> bool {
    exists|k: int| 0 <= k < js.len() && valid_justification(net, #[trigger] js[k])
}

/// A challenged belief stays OUT for as long as its challenge node is IN:
/// none of the justifications the challenge leaves it holds.
pub proof fn lemma_challenge_defeats(net: Network, old: Seq<Justification>, target: Seq<char>, cid: Seq<char>, new: Seq<Justification>)
    requires
        challenged_justifications(old, target, cid, new),
        holds_in(net, cid),
    ensures
        !supported(net, new),
{
    if old.len() == 0 {
        let j = new[0];
        assert(views(j.outlist@).len() == j.outlist@.len());
        assert(views(j.outlist@)[0] == cid);
        assert(j.outlist@[0]@ == cid);
        match node_lookup(net.nodes@, cid) {
            Some(n) => {
                assert(n.truth_value@ != "OUT"@) by {
                    reveal_strlit("IN");
                    reveal_strlit("OUT");
                    assert("IN"@[0] != "OUT"@[0]);
                }
            },
            None => {},
        }
        assert(!holds_out(net, j.outlist@[0]@));
        assert(!valid_justification(net, j));
        assert forall|k: int| 0 <= k < new.len() implies !valid_justification(net, #[trigger] new[k]) by {
            assert(k == 0);
        }
    } else {
        assert forall|k: int| 0 <= k < new.len() implies !valid_justification(net, #[trigger] new[k]) by {
            lemma_challenged_defeated(net, old[k], cid, new[k]);
        }
    }
}

/// Defending a challenged belief restores it: once the challenge node is
/// OUT, the belief is supported exactly when it was before the challenge
/// (a premise always was).
pub proof fn lemma_defense_restores(net: Network, old: Seq<Justification>, target: Seq<char>, cid: Seq<char>, new: Seq<Justification>)
    requires
        challenged_justifications(old, target, cid, new),
        holds_out(net, cid),
    ensures
        supported(net, new) == (old.len() == 0 || supported(net, old)),
{
    if old.len() == 0 {
        let j = new[0];
        assert(views(j.outlist@).len() == 1);
        assert forall|k: int| 0 <= k < j.outlist@.len() implies holds_out(net, #[trigger] j.outlist@[k]@) by {
            assert(k == 0);
            assert(views(j.outlist@)[0] == j.outlist@[0]@);
        }
        assert(valid_justification(net, new[0]));
    } else {
        assert forall|k: int| 0 <= k < new.len() implies valid_justification(net, #[trigger] new[k]) == valid_justification(net, old[k]) by {
            lemma_challenged_restored(net, old[k], cid, new[k]);
        }
        if supported(net, old) {
            let k = choose|k: int| 0 <= k < old.len() && valid_justification(net, #[trigger] old[k]);
            assert(valid_justification(net, new[k]) == valid_justification(net, old[k]));
        }
        if supported(net, new) {
            let k = choose|k: int| 0 <= k < new.len() && valid_justification(net, #[trigger] new[k]);
            assert(valid_justification(net, new[k]) == valid_justification(net, old[k]));
        }
    }
}

/// A recorded contradiction.
pub struct NogoodRecord {
    pub id: String,
    pub nodes: Vec<String>,
    pub discovered: String,
    pub resolution: String,
}

/// `d` padded with zeros on the left to at least `width` characters.
pub open spec fn zero_padded(d: Seq<char>, width: nat) -> Seq<char> {
    if d.len() >= width {
        d
    } else {
        Seq::new((width - d.len()) as nat, |i: int| '0') + d
    }
}

/// The identifier of the `n`-th contradiction: `nogood-` and `n` in at least
/// three digits.
pub open spec fn nogood_id_of(n: nat) -> Seq<char> {
    "nogood-"@ + zero_padded(decimal(n), 3)
}

/// The identifier of the `n`-th contradiction.
pub fn nogood_id(n: usize) -> (r: String)
    ensures
        r@ == nogood_id_of(n as nat),
{
    let d = crate::text::decimal_string(n);
    let mut r = owned("nogood-");
    let len = d.as_str().unicode_len();
    let mut k = len;
    let ghost start = r@;
    while k < 3
        invariant
            len == decimal(n as nat).len(),
            len <= k <= 3 || (len > 3 && k == len),
            r@ == start + Seq::new((k - len) as nat, |i: int| '0'),
        decreases 3 - k,
    {
        crate::text::push_char(&mut r, '0');
        assert(r@ =~= start + Seq::new((k + 1 - len) as nat, |i: int| '0'));
        k = k + 1;
    }
    r.append(d.as_str());
    assert(r@ =~= nogood_id_of(n as nat));
    r
}

/// The value of a decimal digit character.
pub open spec fn digit_value(c: char) -> nat {
    if c == '1' { 1 } else if c == '2' { 2 } else if c == '3' { 3 } else if c == '4' { 4 }
    else if c == '5' { 5 } else if c == '6' { 6 } else if c == '7' { 7 } else if c == '8' { 8 }
    else if c == '9' { 9 } else { 0 }
}

/// Ten to the power `n`.
pub open spec fn pow10(n: nat) -> nat
    decreases n,
{
    if n == 0 {
        1
    } else {
        10 * pow10((n - 1) as nat)
    }
}

/// The number a string of decimal digits writes.
pub open spec fn digits_value(s: Seq<char>) -> nat
    decreases s.len(),
{
    if s.len() == 0 {
        0
    } else {
        digit_value(s[0]) * pow10((s.len() - 1) as nat) + digits_value(s.drop_first())
    }
}

proof fn lemma_value_push(s: Seq<char>, c: char)
    ensures
        digits_value(s.push(c)) == digits_value(s) * 10 + digit_value(c),
    decreases s.len(),
{
    if s.len() == 0 {
        assert(s.push(c).drop_first() =~= Seq::<char>::empty());
        assert(s.push(c)[0] == c);
        assert(pow10(0) == 1);
        assert(digits_value(s.push(c)) == digit_value(c) * 1 + digits_value(Seq::<char>::empty()));
    } else {
        let t = s.push(c);
        assert(t.drop_first() =~= s.drop_first().push(c));
        assert(t[0] == s[0]);
        lemma_value_push(s.drop_first(), c);
        let a = digit_value(s[0]);
        let p = pow10((s.len() - 1) as nat);
        let v = digits_value(s.drop_first());
        assert(pow10(s.len()) == 10 * p);
        assert(digits_value(t) == a * pow10(s.len()) + (v * 10 + digit_value(c)));
        assert(digits_value(s) == a * p + v);
        assert(a * (10 * p) == (a * p) * 10) by (nonlinear_arith);
        assert((a * p + v) * 10 == (a * p) * 10 + v * 10) by (nonlinear_arith);
    }
}

proof fn lemma_digit_value(d: nat)
    requires
        d < 10,
    ensures
        digit_value(crate::text::digit_char(d)) == d,
{
    if d == 0 {} else if d == 1 {} else if d == 2 {} else if d == 3 {} else if d == 4 {}
    else if d == 5 {} else if d == 6 {} else if d == 7 {} else if d == 8 {} else {}
}

proof fn lemma_decimal_value(n: nat)
    ensures
        digits_value(decimal(n)) == n,
    decreases n,
{
    if n < 10 {
        lemma_digit_value(n);
        let s = seq![crate::text::digit_char(n)];
        assert(decimal(n) == s);
        assert(s.drop_first() =~= Seq::<char>::empty());
        assert(pow10(0) == 1);
        assert(digits_value(s) == digit_value(s[0]) * 1 + digits_value(s.drop_first()));
    } else {
        lemma_digit_value(n % 10);
        lemma_decimal_value(n / 10);
        lemma_value_push(decimal(n / 10), crate::text::digit_char(n % 10));
        assert(decimal(n) == decimal(n / 10).push(crate::text::digit_char(n % 10)));
        assert((n / 10) * 10 + n % 10 == n);
    }
}

proof fn lemma_zeros_value(k: nat, d: Seq<char>)
    ensures
        digits_value(Seq::new(k, |i: int| '0') + d) == digits_value(d),
    decreases k,
{
    if k > 0 {
        let s = Seq::new(k, |i: int| '0') + d;
        assert(s[0] == '0');
        assert(s.drop_first() =~= Seq::new((k - 1) as nat, |i: int| '0') + d);
        lemma_zeros_value((k - 1) as nat, d);
    } else {
        assert(Seq::new(0, |i: int| '0') + d =~= d);
    }
}

/// Contradictions are numbered apart: different numbers never get the same
/// identifier.
pub proof fn lemma_nogood_ids_distinct(n: nat, m: nat)
    requires
        n != m,
    ensures
        nogood_id_of(n) != nogood_id_of(m),
{
    let pn = zero_padded(decimal(n), 3);
    let pm = zero_padded(decimal(m), 3);
    lemma_decimal_value(n);
    lemma_decimal_value(m);
    if decimal(n).len() < 3 {
        lemma_zeros_value((3 - decimal(n).len()) as nat, decimal(n));
    }
    if decimal(m).len() < 3 {
        lemma_zeros_value((3 - decimal(m).len()) as nat, decimal(m));
    }
    if nogood_id_of(n) == nogood_id_of(m) {
        let pre = "nogood-"@;
        assert(nogood_id_of(n).skip(pre.len() as int) =~= pn);
        assert(nogood_id_of(m).skip(pre.len() as int) =~= pm);
    }
}

/// The system clock's time since the Unix epoch, in whole seconds and
/// nanoseconds (`SystemTime::now` and `SystemTime::duration_since`); `None`
/// when the clock is before the epoch. Nothing is claimed of the reading.
#[verifier::external_body]
pub(crate) fn clock_since_epoch() -> (r: Option<(u64, u32)>) {
    match std::time::SystemTime::now().duration_since(std::time::UNIX_EPOCH) {
        Ok(d) => Some((d.as_secs(), d.subsec_nanos())),
        Err(_) => None,
    }
}

/// The RFC 3339 text of the instant `secs` seconds and `nanos` nanoseconds
/// after the Unix epoch, as `chrono` writes it; `None` outside its range.
pub uninterp spec fn rfc3339_text(secs: int, nanos: nat) -> Option<Seq<char>>;

/// `DateTime::<Utc>::from_timestamp` followed by `DateTime::to_rfc3339`; the
/// result is named.
#[verifier::external_body]
fn rfc3339_of(secs: i64, nanos: u32) -> (r: Option<String>)
    ensures
        match r {
            Some(t) => rfc3339_text(secs as int, nanos as nat) == Some(t@),
            None => rfc3339_text(secs as int, nanos as nat) is None,
        },
{
    match chrono::DateTime::from_timestamp(secs, nanos) {
        Some(t) => Some(t.to_rfc3339()),
        None => None,
    }
}

/// The text recorded for a clock reading: its RFC 3339 text, or nothing when
/// there was no reading or it is out of range.
pub open spec fn discovered_text(now: Option<(u64, u32)>) -> Seq<char> {
    match now {
        Some((secs, nanos)) => if secs <= i64::MAX {
            match rfc3339_text(secs as int, nanos as nat) {
                Some(t) => t,
                None => Seq::empty(),
            }
        } else {
            Seq::empty()
        },
        None => Seq::empty(),
    }
}

/// The text recorded for the clock reading `now`.
pub fn discovered_at(now: Option<(u64, u32)>) -> (r: String)
    ensures
        r@ == discovered_text(now),
{
    let empty = String::new();
    assert(empty@ =~= Seq::<char>::empty());
    match now {
        Some((secs, nanos)) => if secs <= 9223372036854775807u64 {
            match rfc3339_of(secs as i64, nanos) {
                Some(t) => t,
                None => empty,
            }
        } else {
            empty
        },
        None => empty,
    }
}

/// The first of `ids` that is not stored.
pub open spec fn first_missing(net: Network, ids: Seq<Seq<char>>) -> Option<Seq<char>>
    decreases ids.len(),
{
    if ids.len() == 0 {
        None
    } else if net.node(ids[0]) is None {
        Some(ids[0])
    } else {
        first_missing(net, ids.drop_first())
    }
}

/// The start of recording a contradiction: the record and the report so far.
pub struct NogoodStart {
    pub record: NogoodRecord,
    pub all_in: bool,
    pub message: String,
}

/// The report of a recorded contradiction: its identifier and nodes, and
/// whether it is active (all its nodes IN).
pub open spec fn nogood_message(id: Seq<char>, ids: Seq<Seq<char>>, all_in: bool) -> Seq<char> {
    "Recorded contradiction: "@ + id + "\n  Nodes: "@ + joined(ids, ", "@) + if all_in {
        "\n  All nodes are IN \u{2014} contradiction is active. Running backtracking..."@
    } else {
        "\n  Not all nodes are IN \u{2014} contradiction is not currently active."@
    }
}

/// Whether every one of `ids` is stored and IN.
pub fn all_nodes_in(net: &Network, ids: &Vec<String>) -> (r: bool)
    ensures
        r == forall|k: int| 0 <= k < ids@.len() ==> holds_in(*net, #[trigger] views(ids@)[k]),
{
    let mut k: usize = 0;
    while k < ids.len()
        invariant
            k <= ids@.len(),
            forall|m: int| 0 <= m < k ==> holds_in(*net, #[trigger] views(ids@)[m]),
        decreases ids@.len() - k,
    {
        if !is_in(net, ids[k].as_str()) {
            assert(!holds_in(*net, views(ids@)[k as int]));
            return false;
        }
        k = k + 1;
    }
    true
}

/// Records that `node_ids` contradict each other, as contradiction number
/// `existing + 1`, discovered at the clock reading `now` (empty text when
/// there is none); an error names the first node that is not stored.
pub fn nogood_impl(net: &Network, node_ids: &Vec<String>, existing: usize, now: Option<(u64, u32)>) -> (r: Result<NogoodStart, String>)
    requires
        existing < usize::MAX,
    ensures
        match r {
            Err(e) => first_missing(*net, views(node_ids@)) matches Some(m) && e@ == not_found_error(m),
            Ok(s) => {
                &&& first_missing(*net, views(node_ids@)) is None
                &&& s.record.id@ == nogood_id_of((existing + 1) as nat)
                &&& views(s.record.nodes@) == views(node_ids@)
                &&& s.record.resolution@.len() == 0
                &&& s.record.discovered@ == discovered_text(now)
                &&& s.all_in == forall|k: int| 0 <= k < node_ids@.len() ==> holds_in(*net, #[trigger] views(node_ids@)[k])
                &&& s.message@ == nogood_message(s.record.id@, views(node_ids@), s.all_in)
            },
        },
{
    let ghost ids = views(node_ids@);
    let mut i: usize = 0;
    assert(ids.skip(0) == ids);
    while i < node_ids.len()
        invariant
            ids == views(node_ids@),
            i <= ids.len(),
            first_missing(*net, ids) == first_missing(*net, ids.skip(i as int)),
        decreases ids.len() - i,
    {
        assert(ids.skip(i as int)[0] == ids[i as int]);
        assert(ids.skip(i as int).drop_first() == ids.skip(i + 1));
        if net.find_node(node_ids[i].as_str()).is_none() {
            let mut e = owned("Error: Node not found: ");
            e.append(node_ids[i].as_str());
            return Err(e);
        }
        i = i + 1;
    }
    assert(ids.skip(i as int) =~= Seq::<Seq<char>>::empty());
    let id = nogood_id(existing + 1);
    let all_in = all_nodes_in(net, node_ids);
    let mut message = owned("Recorded contradiction: ");
    message.append(id.as_str());
    message.append("\n  Nodes: ");
    let listed = join(node_ids, ", ");
    message.append(listed.as_str());
    if all_in {
        message.append("\n  All nodes are IN \u{2014} contradiction is active. Running backtracking...");
    } else {
        message.append("\n  Not all nodes are IN \u{2014} contradiction is not currently active.");
    }
    let record = NogoodRecord {
        id,
        nodes: crate::neighbors::copy_strings(node_ids.as_slice()),
        discovered: discovered_at(now),
        resolution: String::new(),
    };
    Ok(NogoodStart { record, all_in, message })
}

/// The end of a contradiction's report once backtracking has run, and the
/// resolution recorded: the retracted culprit with its entrenchment and the
/// nodes that changed in cascade, or that no culprit was found.
pub open spec fn backtrack_text(culprit: Option<Seq<char>>, entrenchment: Seq<char>, cascaded: Seq<Seq<char>>) -> (Seq<char>, Seq<char>) {
    match culprit {
        Some(c) => {
            let resolution = "Retracted "@ + c + " (entrenchment: "@ + entrenchment + ")"@;
            let tail = if cascaded.len() > 0 {
                "\n  Cascaded: "@ + joined(cascaded, ", "@)
            } else {
                Seq::empty()
            };
            ("\n  "@ + resolution + tail, resolution)
        },
        None => ("\n  No culprit found for backtracking."@, Seq::empty()),
    }
}

/// The end of a contradiction's report and its resolution, once backtracking
/// has retracted `culprit` (whose entrenchment is written `entrenchment`).
pub fn backtrack_report(culprit: Option<&str>, entrenchment: &str, cascaded: &Vec<String>) -> (r: (String, String))
    ensures
        (r.0@, r.1@) == backtrack_text(opt_text(culprit), entrenchment@, views(cascaded@)),
{
    match culprit {
        Some(c) => {
            let mut resolution = owned("Retracted ");
            resolution.append(c);
            resolution.append(" (entrenchment: ");
            resolution.append(entrenchment);
            resolution.append(")");
            let mut message = owned("\n  ");
            message.append(resolution.as_str());
            if cascaded.len() > 0 {
                message.append("\n  Cascaded: ");
                let listed = join(cascaded, ", ");
                message.append(listed.as_str());
            } else {
                assert(message@ == message@ + Seq::<char>::empty());
            }
            (message, resolution)
        },
        None => (owned("\n  No culprit found for backtracking."), String::new()),
    }
}

/// `<id> <truth value>` for a node that changed, `?` for the value of a node
/// that is not stored.
pub open spec fn cascade_entry(net: Network, id: Seq<char>) -> Seq<char> {
    id + " "@ + match node_lookup(net.nodes@, id) {
        Some(n) => n.truth_value@,
        None => "?"@,
    }
}

/// The entries for the nodes that changed.
pub open spec fn cascade_entries(net: Network, ids: Seq<Seq<char>>) -> Seq<Seq<char>> {
    ids.map_values(|id: Seq<char>| cascade_entry(net, id))
}

/// The report of a retraction or assertion: an error when the node was not
/// stored, otherwise `<verb> <id>` and, when other nodes changed in cascade,
/// each with its new truth value.
pub open spec fn cascade_text(before: Network, after: Network, verb: Seq<char>, id: Seq<char>, cascaded: Seq<Seq<char>>) -> Seq<char> {
    if before.node(id) is None {
        not_found_error(id)
    } else {
        verb + " "@ + id + if cascaded.len() > 0 {
            "\n  Cascaded: "@ + joined(cascade_entries(after, cascaded), ", "@)
        } else {
            Seq::empty()
        }
    }
}

fn cascade_report(before: &Network, after: &Network, verb: &str, node_id: &str, cascaded: &Vec<String>) -> (r: String)
    ensures
        r@ == cascade_text(*before, *after, verb@, node_id@, views(cascaded@)),
{
    if before.find_node(node_id).is_none() {
        let mut e = owned("Error: Node not found: ");
        e.append(node_id);
        return e;
    }
    let mut r = owned(verb);
    r.append(" ");
    r.append(node_id);
    if cascaded.len() > 0 {
        let mut entries: Vec<String> = Vec::new();
        let ghost cs = views(cascaded@);
        let mut i: usize = 0;
        while i < cascaded.len()
            invariant
                cs == views(cascaded@),
                i <= cs.len(),
                views(entries@) == cascade_entries(*after, cs.take(i as int)),
            decreases cs.len() - i,
        {
            let mut e = owned(cascaded[i].as_str());
            e.append(" ");
            match after.find_node(cascaded[i].as_str()) {
                Some(k) => e.append(after.nodes[k].truth_value.as_str()),
                None => e.append("?"),
            }
            let ghost prev = views(entries@);
            entries.push(e);
            assert(views(entries@) =~= prev.push(e@));
            assert(cascade_entries(*after, cs.take(i + 1)) =~= cascade_entries(*after, cs.take(i as int)).push(cascade_entry(*after, cs[i as int])));
            i = i + 1;
        }
        assert(cs.take(cs.len() as int) == cs);
        r.append("\n  Cascaded: ");
        let listed = join(&entries, ", ");
        r.append(listed.as_str());
    } else {
        assert(r@ == r@ + Seq::<char>::empty());
    }
    r
}

/// The report of retracting `node_id`: `before` is the network before the
/// retraction, `after` the one it left, `cascaded` the other nodes that changed.
pub fn retract_report(before: &Network, after: &Network, node_id: &str, cascaded: &Vec<String>) -> (r: String)
    ensures
        r@ == cascade_text(*before, *after, "Retracted"@, node_id@, views(cascaded@)),
{
    cascade_report(before, after, "Retracted", node_id, cascaded)
}

/// The report of asserting `node_id` again: `before` is the network before,
/// `after` the one it left, `cascaded` the other nodes that changed.
pub fn assert_report(before: &Network, after: &Network, node_id: &str, cascaded: &Vec<String>) -> (r: String)
    ensures
        r@ == cascade_text(*before, *after, "Asserted"@, node_id@, views(cascaded@)),
{
    cascade_report(before, after, "Asserted", node_id, cascaded)
}

} // verus!
