//! The belief network: nodes with their truth values and the justifications
//! that support them, with the graph queries every report is built on.
use vstd::prelude::*;
use crate::desktop::{Json, JsonValue, json_of};
use crate::text::{contains_str, owned, str_eq, views};

verus! {

/// A belief: its identifier, its text, its truth value (`IN` or `OUT`),
/// where it comes from, and further data kept about it (a JSON document).
pub struct Node {
    pub id: String,
    pub text: String,
    pub truth_value: String,
    pub source: String,
    pub source_url: String,
    pub metadata: JsonValue,
}

impl Node {
    /// A new IN belief with no source and empty metadata.
    pub fn new(id: &str, text: &str) -> (r: Node)
        ensures
            r.id@ == id@,
            r.text@ == text@,
            r.truth_value@ == "IN"@,
            r.source@ == Seq::<char>::empty(),
            r.source_url@ == Seq::<char>::empty(),
            json_of(r.metadata) == Json::Object(Seq::empty()),
    {
        let ms: Vec<(String, JsonValue)> = Vec::new();
        proof {
            crate::desktop::lemma_members_of(ms@);
        }
        assert(crate::desktop::members_of(ms@) =~= Seq::empty());
        let source = String::new();
        let source_url = String::new();
        assert(source@ =~= Seq::<char>::empty());
        assert(source_url@ =~= Seq::<char>::empty());
        Node {
            id: owned(id),
            text: owned(text),
            truth_value: owned("IN"),
            source,
            source_url,
            metadata: JsonValue::Object(ms),
        }
    }
}

/// A justification of `node_id`: it holds when every antecedent is `IN`
/// and every node of the outlist is `OUT`.
pub struct Justification {
    pub node_id: String,
    pub jtype: String,
    pub antecedents: Vec<String>,
    pub outlist: Vec<String>,
    pub label: String,
}

/// A snapshot of a belief database: all nodes and all justifications,
/// in the order in which they were loaded.
pub struct Network {
    pub nodes: Vec<Node>,
    pub justifications: Vec<Justification>,
}

/// The node stored under `id`; when several records share an identifier,
/// the one loaded last is the one that counts.
pub open spec fn node_lookup(nodes: Seq<Node>, id: Seq<char>) -> Option<Node>
    decreases nodes.len(),
{
    if nodes.len() == 0 {
        None
    } else if nodes.last().id@ == id {
        Some(nodes.last())
    } else {
        node_lookup(nodes.drop_last(), id)
    }
}

/// The justifications of `id`, in load order.
pub open spec fn justs_of(js: Seq<Justification>, id: Seq<char>) -> Seq<Justification>
    decreases js.len(),
{
    if js.len() == 0 {
        Seq::empty()
    } else if js.last().node_id@ == id {
        justs_of(js.drop_last(), id).push(js.last())
    } else {
        justs_of(js.drop_last(), id)
    }
}

/// All antecedents of the given justifications, in order, repeats included.
pub open spec fn flat_antecedents(js: Seq<Justification>) -> Seq<Seq<char>>
    decreases js.len(),
{
    if js.len() == 0 {
        Seq::empty()
    } else {
        flat_antecedents(js.drop_last()) + views(js.last().antecedents@)
    }
}

/// `s` with every element after its first occurrence dropped.
pub open spec fn dedup<A>(s: Seq<A>) -> Seq<A>
    decreases s.len(),
{
    if s.len() == 0 {
        Seq::empty()
    } else {
        add_new(dedup(s.drop_last()), s.last())
    }
}

/// `d` with `x` appended unless it already holds it.
pub open spec fn add_new<A>(d: Seq<A>, x: A) -> Seq<A> {
    if d.contains(x) {
        d
    } else {
        d.push(x)
    }
}

/// Whether justification `j` names `id` among its antecedents or its outlist.
pub open spec fn mentions(j: Justification, id: Seq<char>) -> bool {
    views(j.antecedents@).contains(id) || views(j.outlist@).contains(id)
}

/// The node of every justification that mentions `id`, in load order, repeats included.
pub open spec fn mention_owners(js: Seq<Justification>, id: Seq<char>) -> Seq<Seq<char>>
    decreases js.len(),
{
    if js.len() == 0 {
        Seq::empty()
    } else if mentions(js.last(), id) {
        mention_owners(js.drop_last(), id).push(js.last().node_id@)
    } else {
        mention_owners(js.drop_last(), id)
    }
}

impl Network {
    /// The node stored under `id`.
    pub open spec fn node(&self, id: Seq<char>) -> Option<Node> {
        node_lookup(self.nodes@, id)
    }

    /// The justifications of `id`.
    pub open spec fn justs(&self, id: Seq<char>) -> Seq<Justification> {
        justs_of(self.justifications@, id)
    }

    /// The distinct antecedents of `id`'s justifications, in first-seen order.
    pub open spec fn antecedent_ids(&self, id: Seq<char>) -> Seq<Seq<char>> {
        dedup(flat_antecedents(self.justs(id)))
    }

    /// The distinct nodes whose justifications mention `id`, in first-seen order.
    pub open spec fn dependent_ids(&self, id: Seq<char>) -> Seq<Seq<char>> {
        dedup(mention_owners(self.justifications@, id))
    }

    /// Whether `id` is a premise: a node with no justification.
    pub open spec fn is_premise(&self, id: Seq<char>) -> bool {
        self.justs(id).len() == 0
    }

    /// Builds the network from loaded nodes and justifications.
    pub fn load(nodes: Vec<Node>, justifications: Vec<Justification>) -> (r: Network)
        ensures
            r.nodes@ == nodes@,
            r.justifications@ == justifications@,
    {
        Network { nodes, justifications }
    }

    /// The index of the node stored under `id`, if any.
    pub fn find_node(&self, id: &str) -> (r: Option<usize>)
        ensures
            match r {
                Some(i) => i < self.nodes@.len() && self.node(id@) == Some(self.nodes@[i as int]),
                None => self.node(id@) is None,
            },
    {
        let mut found: Option<usize> = None;
        let mut i: usize = 0;
        while i < self.nodes.len()
            invariant
                i <= self.nodes@.len(),
                match found {
                    Some(k) => k < i && node_lookup(self.nodes@.take(i as int), id@) == Some(
                        self.nodes@[k as int],
                    ),
                    None => node_lookup(self.nodes@.take(i as int), id@) is None,
                },
            decreases self.nodes@.len() - i,
        {
            assert(self.nodes@.take(i + 1).drop_last() == self.nodes@.take(i as int));
            if str_eq(self.nodes[i].id.as_str(), id) {
                found = Some(i);
            }
            i = i + 1;
        }
        assert(self.nodes@.take(self.nodes@.len() as int) == self.nodes@);
        found
    }

    /// Whether `id` has at least one justification.
    pub fn has_justification(&self, id: &str) -> (r: bool)
        ensures
            r == !self.is_premise(id@),
    {
        let mut i: usize = 0;
        while i < self.justifications.len()
            invariant
                i <= self.justifications@.len(),
                justs_of(self.justifications@.take(i as int), id@).len() == 0,
            decreases self.justifications@.len() - i,
        {
            assert(self.justifications@.take(i + 1).drop_last() == self.justifications@.take(i as int));
            if str_eq(self.justifications[i].node_id.as_str(), id) {
                proof {
                    lemma_justs_of_prefix_nonempty(self.justifications@, id@, i as int);
                }
                return true;
            }
            i = i + 1;
        }
        assert(self.justifications@.take(self.justifications@.len() as int) == self.justifications@);
        false
    }
}

/// Once some justification of `id` has been loaded, `id` has justifications.
pub proof fn lemma_justs_of_prefix_nonempty(js: Seq<Justification>, id: Seq<char>, i: int)
    requires
        0 <= i < js.len(),
        js[i].node_id@ == id,
    ensures
        justs_of(js, id).len() > 0,
    decreases js.len(),
{
    if i == js.len() - 1 {
    } else {
        lemma_justs_of_prefix_nonempty(js.drop_last(), id, i);
    }
}

/// Appends `x` to `v` unless `v` already holds it.
pub fn push_new(v: &mut Vec<String>, x: &String)
    ensures
        views(final(v)@) == add_new(views(old(v)@), x@),
{
    if !contains_str(v, x.as_str()) {
        v.push(x.clone());
        assert(views(v@) == views(old(v)@).push(x@));
    }
}

/// The distinct antecedents of `node_id`'s justifications, in first-seen order.
pub fn get_antecedents(net: &Network, node_id: &str) -> (r: Vec<String>)
    ensures
        views(r@) == net.antecedent_ids(node_id@),
{
    let mut result: Vec<String> = Vec::new();
    let mut i: usize = 0;
    let ghost js = net.justifications@;
    while i < net.justifications.len()
        invariant
            js == net.justifications@,
            i <= js.len(),
            views(result@) == dedup(flat_antecedents(justs_of(js.take(i as int), node_id@))),
        decreases js.len() - i,
    {
        assert(js.take(i + 1).drop_last() == js.take(i as int));
        let j = &net.justifications[i];
        if str_eq(j.node_id.as_str(), node_id) {
            let ghost before = flat_antecedents(justs_of(js.take(i as int), node_id@));
            let mut k: usize = 0;
            while k < j.antecedents.len()
                invariant
                    k <= j.antecedents@.len(),
                    views(result@) == dedup(before + views(j.antecedents@).take(k as int)),
                decreases j.antecedents@.len() - k,
            {
                assert((before + views(j.antecedents@).take(k + 1)).drop_last() == before + views(
                    j.antecedents@,
                ).take(k as int));
                push_new(&mut result, &j.antecedents[k]);
                k = k + 1;
            }
            assert(views(j.antecedents@).take(j.antecedents@.len() as int) == views(j.antecedents@));
            let ghost jo = justs_of(js.take(i as int), node_id@);
            assert(justs_of(js.take(i + 1), node_id@) == jo.push(*j));
            assert(jo.push(*j).drop_last() == jo);
        }
        i = i + 1;
    }
    assert(js.take(js.len() as int) == js);
    result
}

/// Whether justification `j` names `id` among its antecedents or its outlist.
pub fn justification_mentions(j: &Justification, id: &str) -> (r: bool)
    ensures
        r == mentions(*j, id@),
{
    contains_str(&j.antecedents, id) || contains_str(&j.outlist, id)
}

/// The distinct nodes whose justifications mention `node_id`, in first-seen order.
pub fn get_dependents(net: &Network, node_id: &str) -> (r: Vec<String>)
    ensures
        views(r@) == net.dependent_ids(node_id@),
{
    let mut result: Vec<String> = Vec::new();
    let mut i: usize = 0;
    let ghost js = net.justifications@;
    while i < net.justifications.len()
        invariant
            js == net.justifications@,
            i <= js.len(),
            views(result@) == dedup(mention_owners(js.take(i as int), node_id@)),
        decreases js.len() - i,
    {
        assert(js.take(i + 1).drop_last() == js.take(i as int));
        let j = &net.justifications[i];
        if justification_mentions(j, node_id) {
            let ghost before = mention_owners(js.take(i as int), node_id@);
            assert(before.push(j.node_id@).drop_last() == before);
            push_new(&mut result, &j.node_id);
        }
        i = i + 1;
    }
    assert(js.take(js.len() as int) == js);
    result
}

/// `dedup` keeps one copy of every element, and nothing else.
pub proof fn lemma_dedup<A>(s: Seq<A>)
    ensures
        dedup(s).no_duplicates(),
        forall|x: A| #[trigger] dedup(s).contains(x) <==> s.contains(x),
    decreases s.len(),
{
    if s.len() > 0 {
        let d = dedup(s.drop_last());
        lemma_dedup(s.drop_last());
        assert forall|x: A| #[trigger] dedup(s).contains(x) <==> s.contains(x) by {
            if s.contains(x) && x != s.last() {
                let k = choose|k: int| 0 <= k < s.len() && s[k] == x;
                assert(s.drop_last()[k] == x);
            }
            if s.drop_last().contains(x) {
                let k = choose|k: int| 0 <= k < s.drop_last().len() && s.drop_last()[k] == x;
                assert(s[k] == x);
            }
            if x == s.last() {
                assert(s[s.len() - 1] == x);
                if !d.contains(x) {
                    assert(d.push(x)[d.len() as int] == x);
                }
            }
            if !d.contains(s.last()) && dedup(s).contains(x) && x != s.last() {
                let k = choose|k: int| 0 <= k < d.push(s.last()).len() && d.push(s.last())[k] == x;
                assert(d[k] == x);
            }
            if d.contains(x) && !d.contains(s.last()) {
                let k = choose|k: int| 0 <= k < d.len() && d[k] == x;
                assert(d.push(s.last())[k] == x);
            }
        }
    }
}

/// `a` is among the antecedents of the justifications `js` of `y` exactly
/// when some justification of `y` in `js` names it as antecedent.
proof fn lemma_flat_antecedents(js: Seq<Justification>, y: Seq<char>, a: Seq<char>)
    ensures
        flat_antecedents(justs_of(js, y)).contains(a) <==> exists|k: int|
            0 <= k < js.len() && #[trigger] js[k].node_id@ == y && views(js[k].antecedents@).contains(a),
    decreases js.len(),
{
    if js.len() > 0 {
        let d = js.drop_last();
        lemma_flat_antecedents(d, y, a);
        let l = js.last();
        let before = flat_antecedents(justs_of(d, y));
        if l.node_id@ == y {
            assert(justs_of(js, y) == justs_of(d, y).push(l));
            assert(justs_of(d, y).push(l).drop_last() == justs_of(d, y));
            let now = before + views(l.antecedents@);
            assert(flat_antecedents(justs_of(js, y)) == now);
            if now.contains(a) {
                let i = choose|i: int| 0 <= i < now.len() && now[i] == a;
                if i < before.len() {
                    assert(before[i] == a);
                    let k = choose|k: int| 0 <= k < d.len() && #[trigger] d[k].node_id@ == y && views(d[k].antecedents@).contains(a);
                    assert(js[k] == d[k]);
                } else {
                    assert(views(l.antecedents@)[i - before.len()] == a);
                    assert(js[js.len() - 1] == l);
                }
            }
            if exists|k: int| 0 <= k < js.len() && #[trigger] js[k].node_id@ == y && views(js[k].antecedents@).contains(a) {
                let k = choose|k: int| 0 <= k < js.len() && #[trigger] js[k].node_id@ == y && views(js[k].antecedents@).contains(a);
                if k < d.len() {
                    assert(d[k] == js[k]);
                    let i = choose|i: int| 0 <= i < before.len() && before[i] == a;
                    assert(now[i] == a);
                } else {
                    let i = choose|i: int| 0 <= i < views(l.antecedents@).len() && views(l.antecedents@)[i] == a;
                    assert(now[before.len() + i] == a);
                }
            }
        } else {
            if exists|k: int| 0 <= k < js.len() && #[trigger] js[k].node_id@ == y && views(js[k].antecedents@).contains(a) {
                let k = choose|k: int| 0 <= k < js.len() && #[trigger] js[k].node_id@ == y && views(js[k].antecedents@).contains(a);
                assert(k < d.len());
                assert(d[k] == js[k]);
            }
            if exists|k: int| 0 <= k < d.len() && #[trigger] d[k].node_id@ == y && views(d[k].antecedents@).contains(a) {
                let k = choose|k: int| 0 <= k < d.len() && #[trigger] d[k].node_id@ == y && views(d[k].antecedents@).contains(a);
                assert(js[k] == d[k]);
            }
        }
    }
}

/// `y` owns a justification of `js` that mentions `a` exactly when some
/// justification of `y` in `js` names `a` as antecedent or in its outlist.
proof fn lemma_mention_owners(js: Seq<Justification>, a: Seq<char>, y: Seq<char>)
    ensures
        mention_owners(js, a).contains(y) <==> exists|k: int|
            0 <= k < js.len() && #[trigger] js[k].node_id@ == y && mentions(js[k], a),
    decreases js.len(),
{
    if js.len() > 0 {
        let d = js.drop_last();
        lemma_mention_owners(d, a, y);
        let l = js.last();
        let before = mention_owners(d, a);
        if exists|k: int| 0 <= k < js.len() && #[trigger] js[k].node_id@ == y && mentions(js[k], a) {
            let k = choose|k: int| 0 <= k < js.len() && #[trigger] js[k].node_id@ == y && mentions(js[k], a);
            if k < d.len() {
                assert(d[k] == js[k]);
                let i = choose|i: int| 0 <= i < before.len() && before[i] == y;
                if mentions(l, a) {
                    assert(before.push(l.node_id@)[i] == y);
                }
            } else {
                assert(js[k] == l);
                assert(before.push(l.node_id@)[before.len() as int] == y);
            }
        }
        if mention_owners(js, a).contains(y) {
            if mentions(l, a) {
                let i = choose|i: int| 0 <= i < before.push(l.node_id@).len() && before.push(l.node_id@)[i] == y;
                if i < before.len() {
                    assert(before[i] == y);
                    let k = choose|k: int| 0 <= k < d.len() && #[trigger] d[k].node_id@ == y && mentions(d[k], a);
                    assert(js[k] == d[k]);
                } else {
                    assert(js[js.len() - 1] == l);
                }
            } else {
                let k = choose|k: int| 0 <= k < d.len() && #[trigger] d[k].node_id@ == y && mentions(d[k], a);
                assert(js[k] == d[k]);
            }
        }
    }
}

/// Going up and going down agree: `a` is an antecedent of `y` exactly when
/// `y` has a justification naming `a` as antecedent, and then `y` is among
/// the dependents of `a`. Both lists hold each node once.
pub proof fn lemma_antecedents_dependents(net: Network, y: Seq<char>, a: Seq<char>)
    ensures
        net.antecedent_ids(y).no_duplicates(),
        net.dependent_ids(a).no_duplicates(),
        net.antecedent_ids(y).contains(a) <==> exists|k: int|
            0 <= k < net.justifications@.len() && #[trigger] net.justifications@[k].node_id@ == y
                && views(net.justifications@[k].antecedents@).contains(a),
        net.dependent_ids(a).contains(y) <==> exists|k: int|
            0 <= k < net.justifications@.len() && #[trigger] net.justifications@[k].node_id@ == y
                && mentions(net.justifications@[k], a),
        net.antecedent_ids(y).contains(a) ==> net.dependent_ids(a).contains(y),
{
    let js = net.justifications@;
    lemma_dedup(flat_antecedents(justs_of(js, y)));
    lemma_dedup(mention_owners(js, a));
    lemma_flat_antecedents(js, y, a);
    lemma_mention_owners(js, a, y);
    if net.antecedent_ids(y).contains(a) {
        let k = choose|k: int| 0 <= k < js.len() && #[trigger] js[k].node_id@ == y && views(js[k].antecedents@).contains(a);
        assert(mentions(js[k], a));
    }
}

} // verus!
