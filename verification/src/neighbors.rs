//! Breadth-first expansion of a set of nodes to their neighbours in the
//! justification graph, as search results are widened.
use vstd::prelude::*;
use crate::network::{
    Justification, Network, flat_antecedents, justification_mentions, justs_of, mention_owners,
};
use crate::text::{contains_str, str_eq, views};

verus! {

/// The neighbours of `x`, in the order in which they are explored: first the
/// antecedents of `x`'s justifications, then the nodes whose justifications
/// mention `x` (as antecedent or in the outlist). Repeats are kept.
pub open spec fn neighbor_list(js: Seq<Justification>, x: Seq<char>) -> Seq<Seq<char>> {
    flat_antecedents(justs_of(js, x)) + mention_owners(js, x)
}

/// `y` is adjacent to `x`: one step away in the justification graph.
pub open spec fn adjacent(js: Seq<Justification>, x: Seq<char>, y: Seq<char>) -> bool {
    neighbor_list(js, x).contains(y)
}

/// One discovery step: `c` joins the newly found nodes and the visited ones
/// unless it was visited before. The state is (found, visited).
pub open spec fn absorb_step(st: (Seq<Seq<char>>, Seq<Seq<char>>), c: Seq<char>) -> (
    Seq<Seq<char>>,
    Seq<Seq<char>>,
) {
    if st.1.contains(c) {
        st
    } else {
        (st.0.push(c), st.1.push(c))
    }
}

/// Discovery steps for every candidate, in order.
pub open spec fn absorb(st: (Seq<Seq<char>>, Seq<Seq<char>>), cands: Seq<Seq<char>>) -> (
    Seq<Seq<char>>,
    Seq<Seq<char>>,
)
    decreases cands.len(),
{
    if cands.len() == 0 {
        st
    } else {
        absorb_step(absorb(st, cands.drop_last()), cands.last())
    }
}

/// Explores the neighbours of every node of `frontier`, in order.
pub open spec fn layer(
    js: Seq<Justification>,
    frontier: Seq<Seq<char>>,
    st: (Seq<Seq<char>>, Seq<Seq<char>>),
) -> (Seq<Seq<char>>, Seq<Seq<char>>)
    decreases frontier.len(),
{
    if frontier.len() == 0 {
        st
    } else {
        absorb(layer(js, frontier.drop_last(), st), neighbor_list(js, frontier.last()))
    }
}

/// The nodes found by exploring at most `d` more layers from `frontier`,
/// with `seen` already visited, in the order of discovery.
pub open spec fn bfs(js: Seq<Justification>, frontier: Seq<Seq<char>>, seen: Seq<Seq<char>>, d: nat) -> Seq<
    Seq<char>,
>
    decreases d,
{
    if d == 0 || frontier.len() == 0 {
        Seq::empty()
    } else {
        let st = layer(js, frontier, (Seq::empty(), seen));
        st.0 + bfs(js, st.0, st.1, (d - 1) as nat)
    }
}

/// The seeds followed by every node first reached within `depth` steps, in
/// breadth-first order.
pub open spec fn expansion(js: Seq<Justification>, seeds: Seq<Seq<char>>, depth: nat) -> Seq<
    Seq<char>,
> {
    seeds + bfs(js, seeds, seeds, depth)
}

/// Copies a list of strings.
pub fn copy_strings(v: &[String]) -> (r: Vec<String>)
    ensures
        views(r@) == views(v@),
{
    let mut r: Vec<String> = Vec::new();
    let mut i: usize = 0;
    while i < v.len()
        invariant
            i <= v@.len(),
            views(r@) == views(v@).take(i as int),
        decreases v@.len() - i,
    {
        r.push(v[i].clone());
        assert(views(r@) == views(v@).take(i as int).push(v@[i as int]@));
        assert(views(v@).take(i + 1) == views(v@).take(i as int).push(v@[i as int]@));
        i = i + 1;
    }
    assert(views(v@).take(v@.len() as int) == views(v@));
    r
}

fn absorb_one(found: &mut Vec<String>, visited: &mut Vec<String>, c: &String)
    ensures
        (views(final(found)@), views(final(visited)@)) == absorb_step(
            (views(old(found)@), views(old(visited)@)),
            c@,
        ),
{
    if !contains_str(visited, c.as_str()) {
        found.push(c.clone());
        visited.push(c.clone());
        assert(views(found@) == views(old(found)@).push(c@));
        assert(views(visited@) == views(old(visited)@).push(c@));
    }
}

/// Discovers the neighbours of `x`.
fn absorb_neighbors(net: &Network, x: &String, found: &mut Vec<String>, visited: &mut Vec<String>)
    ensures
        (views(final(found)@), views(final(visited)@)) == absorb(
            (views(old(found)@), views(old(visited)@)),
            neighbor_list(net.justifications@, x@),
        ),
{
    let ghost js = net.justifications@;
    let ghost st0 = (views(found@), views(visited@));
    let mut i: usize = 0;
    while i < net.justifications.len()
        invariant
            js == net.justifications@,
            i <= js.len(),
            (views(found@), views(visited@)) == absorb(st0, flat_antecedents(justs_of(js.take(i as int), x@))),
        decreases js.len() - i,
    {
        assert(js.take(i + 1).drop_last() == js.take(i as int));
        let j = &net.justifications[i];
        if str_eq(j.node_id.as_str(), x.as_str()) {
            let ghost before = flat_antecedents(justs_of(js.take(i as int), x@));
            let mut k: usize = 0;
            while k < j.antecedents.len()
                invariant
                    k <= j.antecedents@.len(),
                    (views(found@), views(visited@)) == absorb(st0, before + views(j.antecedents@).take(k as int)),
                decreases j.antecedents@.len() - k,
            {
                assert((before + views(j.antecedents@).take(k + 1)).drop_last() == before + views(
                    j.antecedents@,
                ).take(k as int));
                absorb_one(found, visited, &j.antecedents[k]);
                k = k + 1;
            }
            assert(views(j.antecedents@).take(j.antecedents@.len() as int) == views(j.antecedents@));
            let ghost jo = justs_of(js.take(i as int), x@);
            assert(justs_of(js.take(i + 1), x@) == jo.push(*j));
            assert(jo.push(*j).drop_last() == jo);
        }
        i = i + 1;
    }
    assert(js.take(js.len() as int) == js);
    let ghost ups = flat_antecedents(justs_of(js, x@));
    let mut i: usize = 0;
    assert(ups + mention_owners(js.take(0), x@) == ups);
    while i < net.justifications.len()
        invariant
            js == net.justifications@,
            i <= js.len(),
            ups == flat_antecedents(justs_of(js, x@)),
            (views(found@), views(visited@)) == absorb(st0, ups + mention_owners(js.take(i as int), x@)),
        decreases js.len() - i,
    {
        assert(js.take(i + 1).drop_last() == js.take(i as int));
        let j = &net.justifications[i];
        if justification_mentions(j, x.as_str()) {
            let ghost before = ups + mention_owners(js.take(i as int), x@);
            assert(ups + mention_owners(js.take(i + 1), x@) == before.push(j.node_id@));
            assert(before.push(j.node_id@).drop_last() == before);
            absorb_one(found, visited, &j.node_id);
        }
        i = i + 1;
    }
    assert(js.take(js.len() as int) == js);
}

/// The seeds followed by every node reachable from them in at most `depth`
/// steps of the justification graph, each once, in breadth-first order.
pub fn expand_neighbors(net: &Network, seed_ids: &[String], depth: usize) -> (r: Vec<String>)
    ensures
        views(r@) == expansion(net.justifications@, views(seed_ids@), depth as nat),
{
    let ghost js = net.justifications@;
    let ghost seeds = views(seed_ids@);
    let mut result = copy_strings(seed_ids);
    if depth == 0 {
        assert(seeds + Seq::<Seq<char>>::empty() == seeds);
        return result;
    }
    let mut visited = copy_strings(seed_ids);
    let mut frontier = copy_strings(seed_ids);
    let mut level: usize = 0;
    while level < depth && frontier.len() > 0
        invariant
            js == net.justifications@,
            level <= depth,
            views(result@) + bfs(js, views(frontier@), views(visited@), (depth - level) as nat)
                == expansion(js, seeds, depth as nat),
        decreases depth - level,
    {
        let ghost fr = views(frontier@);
        let ghost seen0 = views(visited@);
        let mut next: Vec<String> = Vec::new();
        let mut p: usize = 0;
        while p < frontier.len()
            invariant
                js == net.justifications@,
                fr == views(frontier@),
                p <= fr.len(),
                (views(next@), views(visited@)) == layer(js, fr.take(p as int), (Seq::empty(), seen0)),
            decreases fr.len() - p,
        {
            assert(fr.take(p + 1).drop_last() == fr.take(p as int));
            absorb_neighbors(net, &frontier[p], &mut next, &mut visited);
            p = p + 1;
        }
        assert(fr.take(fr.len() as int) == fr);
        let ghost before = views(result@);
        let mut q: usize = 0;
        while q < next.len()
            invariant
                q <= next@.len(),
                views(result@) == before + views(next@).take(q as int),
            decreases next@.len() - q,
        {
            result.push(next[q].clone());
            assert(views(next@).take(q + 1) == views(next@).take(q as int).push(next@[q as int]@));
            assert(views(result@) == (before + views(next@).take(q as int)).push(next@[q as int]@));
            q = q + 1;
        }
        assert(views(next@).take(next@.len() as int) == views(next@));
        frontier = next;
        level = level + 1;
    }
    assert(bfs(js, views(frontier@), views(visited@), (depth - level) as nat) == Seq::<Seq<char>>::empty());
    assert(views(result@) + Seq::<Seq<char>>::empty() == views(result@));
    result
}

/// The nodes one step away from some node of `w`.
pub open spec fn step_from(js: Seq<Justification>, w: Set<Seq<char>>) -> Set<Seq<char>> {
    Set::new(|y: Seq<char>| exists|x: Seq<char>| w.contains(x) && adjacent(js, x, y))
}

/// The nodes at most `k` steps away from some seed.
pub open spec fn within(js: Seq<Justification>, seeds: Seq<Seq<char>>, k: nat) -> Set<Seq<char>>
    decreases k,
{
    if k == 0 {
        seeds.to_set()
    } else {
        within(js, seeds, (k - 1) as nat).union(step_from(js, within(js, seeds, (k - 1) as nat)))
    }
}

/// Some node of `f` is adjacent to `y`.
pub open spec fn reached_by(js: Seq<Justification>, f: Seq<Seq<char>>, y: Seq<char>) -> bool {
    exists|i: int| 0 <= i < f.len() && #[trigger] adjacent(js, f[i], y)
}

/// `r` extends the discovery state `st`: the found list and the visited list
/// grow by the same new nodes, none repeated and none visited before.
pub open spec fn grows(st: (Seq<Seq<char>>, Seq<Seq<char>>), r: (Seq<Seq<char>>, Seq<Seq<char>>)) -> bool {
    &&& r.0.len() >= st.0.len()
    &&& r.0.take(st.0.len() as int) == st.0
    &&& r.1 == st.1 + r.0.skip(st.0.len() as int)
    &&& r.0.skip(st.0.len() as int).no_duplicates()
    &&& forall|x: Seq<char>| r.0.skip(st.0.len() as int).contains(x) ==> !st.1.contains(x)
}

proof fn lemma_grows_refl(st: (Seq<Seq<char>>, Seq<Seq<char>>))
    ensures
        grows(st, st),
{
    assert(st.0.take(st.0.len() as int) == st.0);
    assert(st.0.skip(st.0.len() as int) =~= Seq::<Seq<char>>::empty());
    assert(st.1 + Seq::<Seq<char>>::empty() == st.1);
}

proof fn lemma_grows_trans(
    a: (Seq<Seq<char>>, Seq<Seq<char>>),
    b: (Seq<Seq<char>>, Seq<Seq<char>>),
    c: (Seq<Seq<char>>, Seq<Seq<char>>),
)
    requires
        grows(a, b),
        grows(b, c),
    ensures
        grows(a, c),
{
    let n = a.0.len() as int;
    let m = b.0.len() as int;
    let d1 = b.0.skip(n);
    let d2 = c.0.skip(m);
    assert(c.0.take(m) == b.0);
    assert(c.0.take(n) =~= b.0.take(n));
    assert(c.0.skip(n) =~= d1 + d2);
    assert(c.1 =~= a.1 + (d1 + d2));
    assert forall|i: int, j: int| 0 <= i < (d1 + d2).len() && 0 <= j < (d1 + d2).len() && i != j
        implies (d1 + d2)[i] != (d1 + d2)[j] by {
        if i < d1.len() && j >= d1.len() {
            assert(d2[j - d1.len()] == (d1 + d2)[j]);
            assert(d2.contains((d1 + d2)[j]));
            assert(b.1[a.1.len() + i] == d1[i]);
            assert(b.1.contains(d1[i]));
        } else if j < d1.len() && i >= d1.len() {
            assert(d2[i - d1.len()] == (d1 + d2)[i]);
            assert(d2.contains((d1 + d2)[i]));
            assert(b.1[a.1.len() + j] == d1[j]);
            assert(b.1.contains(d1[j]));
        } else if i < d1.len() && j < d1.len() {
            assert(d1[i] != d1[j]);
        } else {
            assert(d2[i - d1.len()] != d2[j - d1.len()]);
        }
    }
    assert forall|x: Seq<char>| (d1 + d2).contains(x) implies !a.1.contains(x) by {
        let k = choose|k: int| 0 <= k < (d1 + d2).len() && (d1 + d2)[k] == x;
        if k < d1.len() {
            assert(d1[k] == x);
            assert(d1.contains(x));
        } else {
            assert(d2[k - d1.len()] == x);
            assert(d2.contains(x));
            if a.1.contains(x) {
                let k2 = choose|k2: int| 0 <= k2 < a.1.len() && a.1[k2] == x;
                assert(b.1[k2] == x);
                assert(b.1.contains(x));
            }
        }
    }
}

/// One discovery step extends the state, and afterwards the visited nodes are
/// the former ones and `c`.
proof fn lemma_absorb_step(st: (Seq<Seq<char>>, Seq<Seq<char>>), c: Seq<char>)
    ensures
        grows(st, absorb_step(st, c)),
        forall|x: Seq<char>| absorb_step(st, c).1.contains(x) <==> (st.1.contains(x) || x == c),
{
    if st.1.contains(c) {
        lemma_grows_refl(st);
    } else {
        let r = absorb_step(st, c);
        let n = st.0.len() as int;
        assert(r.0.take(n) =~= st.0);
        assert(r.0.skip(n) =~= seq![c]);
        assert(r.1 =~= st.1 + seq![c]);
        assert forall|x: Seq<char>| r.1.contains(x) <==> (st.1.contains(x) || x == c) by {
            if r.1.contains(x) && x != c {
                let k = choose|k: int| 0 <= k < r.1.len() && r.1[k] == x;
                assert(st.1[k] == x);
            }
            if x == c {
                assert(r.1[st.1.len() as int] == c);
            }
            if st.1.contains(x) {
                let k = choose|k: int| 0 <= k < st.1.len() && st.1[k] == x;
                assert(r.1[k] == x);
            }
        }
    }
}

/// Discovering a list of candidates extends the state by exactly the
/// candidates not visited before.
pub proof fn lemma_absorb(st: (Seq<Seq<char>>, Seq<Seq<char>>), cands: Seq<Seq<char>>)
    ensures
        grows(st, absorb(st, cands)),
        forall|x: Seq<char>| #[trigger] absorb(st, cands).1.contains(x) <==> (st.1.contains(x) || cands.contains(x)),
    decreases cands.len(),
{
    if cands.len() == 0 {
        lemma_grows_refl(st);
        assert forall|x: Seq<char>| #[trigger] absorb(st, cands).1.contains(x) <==> (st.1.contains(x) || cands.contains(x)) by {
            assert(absorb(st, cands) == st);
        }
    } else {
        let prev = absorb(st, cands.drop_last());
        lemma_absorb(st, cands.drop_last());
        lemma_absorb_step(prev, cands.last());
        assert(absorb(st, cands) == absorb_step(prev, cands.last()));
        lemma_grows_trans(st, prev, absorb(st, cands));
        let l = cands.last();
        assert forall|x: Seq<char>| #[trigger] absorb(st, cands).1.contains(x) <==> (st.1.contains(x) || cands.contains(x)) by {
            assert(absorb(st, cands).1.contains(x) <==> (prev.1.contains(x) || x == l));
            assert(prev.1.contains(x) <==> (st.1.contains(x) || cands.drop_last().contains(x)));
            if cands.contains(x) && x != cands.last() {
                let k = choose|k: int| 0 <= k < cands.len() && cands[k] == x;
                assert(cands.drop_last()[k] == x);
            }
            if cands.drop_last().contains(x) {
                let k = choose|k: int| 0 <= k < cands.drop_last().len() && cands.drop_last()[k] == x;
                assert(cands[k] == x);
            }
            if x == cands.last() {
                assert(cands[cands.len() - 1] == x);
            }
        }
    }
}

/// Exploring a frontier extends the state by exactly the neighbours of the
/// frontier not visited before.
pub proof fn lemma_layer(
    js: Seq<Justification>,
    frontier: Seq<Seq<char>>,
    st: (Seq<Seq<char>>, Seq<Seq<char>>),
)
    ensures
        grows(st, layer(js, frontier, st)),
        forall|x: Seq<char>| #[trigger] layer(js, frontier, st).1.contains(x) <==> (st.1.contains(x) || reached_by(js, frontier, x)),
    decreases frontier.len(),
{
    if frontier.len() == 0 {
        lemma_grows_refl(st);
    } else {
        let fl = frontier.drop_last();
        let prev = layer(js, fl, st);
        lemma_layer(js, fl, st);
        lemma_absorb(prev, neighbor_list(js, frontier.last()));
        lemma_grows_trans(st, prev, layer(js, frontier, st));
        assert forall|x: Seq<char>| layer(js, frontier, st).1.contains(x) <==> (st.1.contains(x) || reached_by(js, frontier, x)) by {
            if reached_by(js, frontier, x) {
                let i = choose|i: int| 0 <= i < frontier.len() && #[trigger] adjacent(js, frontier[i], x);
                if i < fl.len() {
                    assert(fl[i] == frontier[i]);
                    assert(reached_by(js, fl, x));
                }
            }
            if reached_by(js, fl, x) {
                let i = choose|i: int| 0 <= i < fl.len() && #[trigger] adjacent(js, fl[i], x);
                assert(frontier[i] == fl[i]);
                assert(adjacent(js, frontier[i], x));
            }
            if neighbor_list(js, frontier.last()).contains(x) {
                assert(adjacent(js, frontier[frontier.len() - 1], x));
            }
        }
    }
}

/// When the nodes within `k` steps have no neighbour outside them, going
/// further reaches nothing new.
proof fn lemma_within_closed(js: Seq<Justification>, seeds: Seq<Seq<char>>, k: nat, m: nat)
    requires
        step_from(js, within(js, seeds, k)).subset_of(within(js, seeds, k)),
    ensures
        within(js, seeds, k + m) == within(js, seeds, k),
    decreases m,
{
    if m > 0 {
        lemma_within_closed(js, seeds, k, (m - 1) as nat);
        assert(within(js, seeds, k + m) =~= within(js, seeds, k));
    }
}

/// Breadth-first exploration from a frontier whose visited nodes are those
/// within `k` steps reaches exactly the nodes within `k + d` steps, each once.
proof fn lemma_bfs(
    js: Seq<Justification>,
    seeds: Seq<Seq<char>>,
    f: Seq<Seq<char>>,
    s: Seq<Seq<char>>,
    k: nat,
    d: nat,
)
    requires
        s.to_set() == within(js, seeds, k),
        forall|x: Seq<char>| f.contains(x) ==> s.contains(x),
        forall|x: Seq<char>, y: Seq<char>|
            s.contains(x) && #[trigger] adjacent(js, x, y) ==> s.contains(y) || reached_by(js, f, y),
    ensures
        (s + bfs(js, f, s, d)).to_set() == within(js, seeds, k + d),
        bfs(js, f, s, d).no_duplicates(),
        forall|x: Seq<char>| bfs(js, f, s, d).contains(x) ==> !s.contains(x),
    decreases d,
{
    let b = bfs(js, f, s, d);
    if d == 0 || f.len() == 0 {
        assert(s + b =~= s);
        if d > 0 {
            assert(step_from(js, within(js, seeds, k)).subset_of(within(js, seeds, k))) by {
                assert forall|y: Seq<char>| step_from(js, within(js, seeds, k)).contains(y)
                    implies within(js, seeds, k).contains(y) by {
                    let x = choose|x: Seq<char>| within(js, seeds, k).contains(x) && adjacent(js, x, y);
                    assert(s.to_set().contains(x));
                    assert(s.contains(x));
                    if reached_by(js, f, y) {
                        let i = choose|i: int| 0 <= i < f.len() && #[trigger] adjacent(js, f[i], y);
                    }
                    assert(s.contains(y));
                    assert(s.to_set().contains(y));
                }
            }
            lemma_within_closed(js, seeds, k, d);
        }
    } else {
        let st = layer(js, f, (Seq::empty(), s));
        let n = st.0;
        let s2 = st.1;
        lemma_layer(js, f, (Seq::<Seq<char>>::empty(), s));
        assert(n.skip(0) == n);
        let w = within(js, seeds, k);
        assert(within(js, seeds, k + 1) == w.union(step_from(js, w)));
        assert(s2.to_set() =~= within(js, seeds, k + 1)) by {
            assert forall|x: Seq<char>| s2.to_set().contains(x) <==> within(js, seeds, k + 1).contains(x) by {
                if s2.contains(x) {
                    if s.contains(x) {
                        assert(s.to_set().contains(x));
                    } else {
                        let i = choose|i: int| 0 <= i < f.len() && #[trigger] adjacent(js, f[i], x);
                        assert(f.contains(f[i]));
                        assert(s.to_set().contains(f[i]));
                        assert(step_from(js, w).contains(x));
                    }
                }
                if within(js, seeds, k + 1).contains(x) {
                    if w.contains(x) {
                        assert(s.to_set().contains(x));
                    } else {
                        let y = choose|y: Seq<char>| w.contains(y) && adjacent(js, y, x);
                        assert(s.to_set().contains(y));
                        assert(s.contains(y));
                    }
                }
            }
        }
        assert forall|x: Seq<char>| n.contains(x) implies s2.contains(x) by {
            let i = choose|i: int| 0 <= i < n.len() && n[i] == x;
            assert(s2[s.len() + i] == x);
        }
        assert forall|x: Seq<char>, y: Seq<char>| s2.contains(x) && #[trigger] adjacent(js, x, y)
            implies s2.contains(y) || reached_by(js, n, y) by {
            if s.contains(x) {
                if s.contains(y) {
                } else {
                    assert(reached_by(js, f, y));
                }
            } else {
                let i = choose|i: int| 0 <= i < s2.len() && s2[i] == x;
                assert(n[i - s.len()] == x);
                assert(adjacent(js, n[i - s.len()], y));
            }
        }
        lemma_bfs(js, seeds, n, s2, k + 1, (d - 1) as nat);
        let rest = bfs(js, n, s2, (d - 1) as nat);
        assert(b == n + rest);
        assert(s2 == s + n);
        assert(s + b =~= s2 + rest);
        assert(n.no_duplicates());
        assert(rest.no_duplicates());
        assert forall|i: int, j: int| 0 <= i < b.len() && 0 <= j < b.len() && i != j implies b[i] != b[j] by {
            if i < n.len() && j >= n.len() {
                assert(b[j] == rest[j - n.len()]);
                assert(rest.contains(b[j]));
                assert(!s2.contains(b[j]));
                assert(b[i] == n[i]);
                assert(s2[s.len() + i] == b[i]);
                assert(s2.contains(b[i]));
                assert(b[i] != b[j]);
            } else if j < n.len() && i >= n.len() {
                assert(b[i] == rest[i - n.len()]);
                assert(rest.contains(b[i]));
                assert(!s2.contains(b[i]));
                assert(b[j] == n[j]);
                assert(s2[s.len() + j] == b[j]);
                assert(s2.contains(b[j]));
                assert(b[i] != b[j]);
            } else if i < n.len() && j < n.len() {
                assert(b[i] == n[i] && b[j] == n[j]);
                assert(b[i] != b[j]);
            } else {
                assert(b[i] == rest[i - n.len()] && b[j] == rest[j - n.len()]);
                assert(b[i] != b[j]);
            }
        }
        assert forall|x: Seq<char>| b.contains(x) implies !s.contains(x) by {
            let i = choose|i: int| 0 <= i < b.len() && b[i] == x;
            if i >= n.len() {
                assert(rest[i - n.len()] == x);
                assert(rest.contains(x));
                if s.contains(x) {
                    let k2 = choose|k2: int| 0 <= k2 < s.len() && s[k2] == x;
                    assert(s2[k2] == x);
                    assert(s2.contains(x));
                    assert(!s2.contains(x));
                }
            } else {
                assert(n[i] == x);
                let e: (Seq<Seq<char>>, Seq<Seq<char>>) = (Seq::empty(), s);
                assert(n.skip(e.0.len() as int) == n);
                assert(n.skip(e.0.len() as int).contains(x));
                assert(!s.contains(x));
            }
        }
    }
}

/// The expansion of `seeds` by `depth` steps lists the seeds first, then every
/// other node at most `depth` steps away from a seed, each exactly once:
/// its members are exactly the nodes within `depth` steps.
pub proof fn lemma_expansion_reaches_exactly(js: Seq<Justification>, seeds: Seq<Seq<char>>, depth: nat)
    ensures
        expansion(js, seeds, depth).to_set() == within(js, seeds, depth),
        expansion(js, seeds, depth).take(seeds.len() as int) == seeds,
        expansion(js, seeds, depth).skip(seeds.len() as int).no_duplicates(),
        forall|x: Seq<char>| expansion(js, seeds, depth).skip(seeds.len() as int).contains(x) ==> !seeds.contains(x),
{
    assert forall|x: Seq<char>, y: Seq<char>| seeds.contains(x) && #[trigger] adjacent(js, x, y)
        implies seeds.contains(y) || reached_by(js, seeds, y) by {
        let i = choose|i: int| 0 <= i < seeds.len() && seeds[i] == x;
        assert(adjacent(js, seeds[i], y));
    }
    lemma_bfs(js, seeds, seeds, seeds, 0, depth);
    let e = expansion(js, seeds, depth);
    assert(e.take(seeds.len() as int) =~= seeds);
    assert(e.skip(seeds.len() as int) =~= bfs(js, seeds, seeds, depth));
}

/// Widening more never loses a node: every node reached within `d1` steps
/// is reached within `d2 >= d1` steps.
pub proof fn lemma_within_grows(js: Seq<Justification>, seeds: Seq<Seq<char>>, d1: nat, d2: nat)
    requires
        d1 <= d2,
    ensures
        within(js, seeds, d1).subset_of(within(js, seeds, d2)),
    decreases d2 - d1,
{
    if d1 < d2 {
        lemma_within_grows(js, seeds, d1, (d2 - 1) as nat);
    }
}

/// A search widened by more steps lists every node a narrower one lists,
/// and the same direct matches first.
pub proof fn lemma_expansion_grows(js: Seq<Justification>, seeds: Seq<Seq<char>>, d1: nat, d2: nat)
    requires
        d1 <= d2,
    ensures
        expansion(js, seeds, d1).to_set().subset_of(expansion(js, seeds, d2).to_set()),
        expansion(js, seeds, d1).take(seeds.len() as int) == expansion(js, seeds, d2).take(seeds.len() as int),
{
    lemma_expansion_reaches_exactly(js, seeds, d1);
    lemma_expansion_reaches_exactly(js, seeds, d2);
    lemma_within_grows(js, seeds, d1, d2);
}

} // verus!
