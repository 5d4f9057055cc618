//! Search: query terms, the full-text queries tried in turn, and the
//! report of the matching beliefs with their neighbours.
use vstd::prelude::*;
use crate::listing::nodes_at;
use crate::network::{Network, Node};
use crate::render::{format_node_json, format_node_minimal, minimal_line, node_json, nodes_json};
use crate::neighbors::{expand_neighbors, expansion};
use crate::text::{
    contains_str, join, joined, lowercased, owned, split_words, str_eq, to_lowercase, truncate,
    truncated, views, words,
};
use crate::tree::premise_tag;

verus! {

/// Words too common to search for.
pub const STOP_WORDS: [&'static str; 130] = [
    "a", "about", "above", "after", "again", "against", "all", "am", "an", "and", "any", "are",
    "as", "at", "be", "because", "been", "before", "being", "below", "between", "both", "but",
    "by", "could", "did", "do", "does", "doing", "down", "during", "each", "few", "for",
    "from", "further", "get", "got", "had", "has", "have", "having", "he", "her", "here",
    "hers", "herself", "him", "himself", "his", "how", "i", "if", "in", "into", "is", "it",
    "its", "itself", "just", "let", "like", "me", "might", "more", "most", "my", "myself",
    "no", "nor", "not", "now", "of", "off", "on", "once", "only", "or", "other", "our", "ours",
    "ourselves", "out", "over", "own", "same", "she", "should", "so", "some", "such", "than",
    "that", "the", "their", "theirs", "them", "themselves", "then", "there", "these", "they",
    "this", "those", "through", "to", "too", "under", "until", "up", "very", "was", "we",
    "were", "what", "when", "where", "which", "while", "who", "whom", "why", "will", "with",
    "would", "you", "your", "yours", "yourself", "yourselves",
];

/// The stop words.
pub open spec fn stop_words() -> Seq<Seq<char>> {
    STOP_WORDS@.map_values(|w: &str| w@)
}

/// Whether `w` is a stop word.
pub fn is_stop_word(w: &str) -> (r: bool)
    ensures
        r == stop_words().contains(w@),
{
    let mut i: usize = 0;
    while i < 130
        invariant
            i <= 130,
            forall|k: int| 0 <= k < i ==> stop_words()[k] != w@,
        decreases 130 - i,
    {
        if str_eq(STOP_WORDS[i], w) {
            assert(stop_words()[i as int] == w@);
            return true;
        }
        i = i + 1;
    }
    assert(!stop_words().contains(w@)) by {
        if stop_words().contains(w@) {
            let k = choose|k: int| 0 <= k < stop_words().len() && stop_words()[k] == w@;
        }
    }
    false
}

/// The lower-cased words of `s` that are not stop words, in order.
pub open spec fn keep_terms(ws: Seq<Seq<char>>) -> Seq<Seq<char>>
    decreases ws.len(),
{
    if ws.len() == 0 {
        Seq::empty()
    } else {
        let w = lowercased(ws.last());
        if stop_words().contains(w) {
            keep_terms(ws.drop_last())
        } else {
            keep_terms(ws.drop_last()).push(w)
        }
    }
}

/// The search terms of a query: its words, lower-cased, without stop words.
pub open spec fn search_terms_of(query: Seq<char>) -> Seq<Seq<char>> {
    keep_terms(words(query))
}

/// The search terms of `query`.
pub fn search_terms(query: &str) -> (r: Vec<String>)
    ensures
        views(r@) == search_terms_of(query@),
{
    let ws = split_words(query);
    let ghost all = views(ws@);
    let mut r: Vec<String> = Vec::new();
    let mut i: usize = 0;
    while i < ws.len()
        invariant
            all == views(ws@),
            all == words(query@),
            i <= all.len(),
            views(r@) == keep_terms(all.take(i as int)),
        decreases all.len() - i,
    {
        assert(all.take(i + 1).drop_last() == all.take(i as int));
        let w = to_lowercase(ws[i].as_str());
        if !is_stop_word(w.as_str()) {
            let ghost prev = views(r@);
            r.push(w);
            assert(views(r@) =~= prev.push(w@));
        }
        i = i + 1;
    }
    assert(all.take(all.len() as int) == all);
    r
}

/// A term as a quoted full-text phrase.
pub open spec fn quoted(w: Seq<char>) -> Seq<char> {
    "\""@ + w + "\""@
}

/// The terms of `ws`, each quoted.
pub open spec fn quoted_all(ws: Seq<Seq<char>>) -> Seq<Seq<char>> {
    ws.map_values(|w: Seq<char>| quoted(w))
}

/// The full-text query for the terms: each quoted, separated by spaces.
pub open spec fn fts_query_of(ws: Seq<Seq<char>>) -> Seq<char> {
    joined(quoted_all(ws), " "@)
}

/// The full-text query for the first `n` terms.
pub fn fts_query(terms: &Vec<String>, n: usize) -> (r: String)
    requires
        n <= terms@.len(),
    ensures
        r@ == fts_query_of(views(terms@).take(n as int)),
{
    let mut parts: Vec<String> = Vec::new();
    let mut i: usize = 0;
    while i < n
        invariant
            i <= n <= terms@.len(),
            views(parts@) == quoted_all(views(terms@).take(i as int)),
        decreases n - i,
    {
        let mut q = owned("\"");
        q.append(terms[i].as_str());
        q.append("\"");
        let ghost prev = views(parts@);
        parts.push(q);
        assert(views(parts@) =~= prev.push(q@));
        assert(quoted_all(views(terms@).take(i + 1)) =~= quoted_all(views(terms@).take(i as int)).push(quoted(terms@[i as int]@)));
        i = i + 1;
    }
    join(&parts, " ")
}

/// The full-text queries tried in turn: all terms; then, when that finds
/// nothing and there are at least two terms, all but the last one, all but
/// the last two, and so on while at least half of the terms remain.
pub open spec fn fts_attempts_of(terms: Seq<Seq<char>>) -> Seq<Seq<char>> {
    Seq::new(
        (terms.len() / 2 + 1) as nat,
        |k: int| fts_query_of(terms.take(terms.len() - k)),
    )
}

/// The full-text queries to try, in order.
pub fn fts_attempts(terms: &Vec<String>) -> (r: Vec<String>)
    ensures
        views(r@) == fts_attempts_of(views(terms@)),
{
    let n = terms.len();
    let mut r: Vec<String> = Vec::new();
    let mut k: usize = 0;
    while k <= n / 2
        invariant
            n == terms@.len(),
            k <= n / 2 + 1,
            views(r@) =~= fts_attempts_of(views(terms@)).take(k as int),
        decreases n / 2 + 1 - k,
    {
        let q = fts_query(terms, n - k);
        let ghost prev = views(r@);
        r.push(q);
        assert(views(r@) =~= prev.push(q@));
        k = k + 1;
    }
    r
}

/// The nodes listed for the expanded ids: those stored, without the OUT ones
/// unless `include_out`.
pub open spec fn shown_nodes(net: Network, ids: Seq<Seq<char>>, include_out: bool) -> Seq<crate::network::Node>
    decreases ids.len(),
{
    if ids.len() == 0 {
        Seq::empty()
    } else {
        let r = shown_nodes(net, ids.drop_last(), include_out);
        match net.node(ids.last()) {
            Some(n) => if !include_out && n.truth_value@ == "OUT"@ {
                r
            } else {
                r.push(n)
            },
            None => r,
        }
    }
}

/// The line for a search result: `*` for a direct match, a space for a
/// neighbour, then `[<truth value>] <id>: <text cut to 80>` and the premise tag.
pub open spec fn result_line(net: Network, matched: Seq<Seq<char>>, n: crate::network::Node) -> Seq<char> {
    (if matched.contains(n.id@) { "*"@ } else { " "@ }) + " ["@ + n.truth_value@ + "] "@ + n.id@ + ": "@
        + truncated(n.text@, 80) + premise_tag(net, n.id@)
}

/// The result lines for `ns`.
pub open spec fn result_lines(net: Network, matched: Seq<Seq<char>>, ns: Seq<crate::network::Node>) -> Seq<Seq<char>> {
    ns.map_values(|n: crate::network::Node| result_line(net, matched, n))
}

/// The report for the matched ids widened by `depth` steps.
pub open spec fn results_text(net: Network, matched: Seq<Seq<char>>, depth: nat, include_out: bool) -> Seq<char> {
    let shown = shown_nodes(net, expansion(net.justifications@, matched, depth), include_out);
    if shown.len() == 0 {
        "No results found."@
    } else {
        joined(result_lines(net, matched, shown), "\n"@)
    }
}

/// The report for the matched ids, widened to their neighbours within
/// `depth` steps, without OUT nodes unless `include_out`.
pub fn search_results(net: &Network, matched: &Vec<String>, depth: usize, include_out: bool) -> (r: String)
    ensures
        r@ == results_text(*net, views(matched@), depth as nat, include_out),
{
    let expanded = expand_neighbors(net, matched.as_slice(), depth);
    let ghost ex = views(expanded@);
    let ghost m = views(matched@);
    let mut lines: Vec<String> = Vec::new();
    let mut i: usize = 0;
    while i < expanded.len()
        invariant
            ex == views(expanded@),
            m == views(matched@),
            i <= ex.len(),
            views(lines@) == result_lines(*net, m, shown_nodes(*net, ex.take(i as int), include_out)),
        decreases ex.len() - i,
    {
        assert(ex.take(i + 1).drop_last() == ex.take(i as int));
        let ghost prev_nodes = shown_nodes(*net, ex.take(i as int), include_out);
        let id = &expanded[i];
        match net.find_node(id.as_str()) {
            Some(k) => {
                let n = &net.nodes[k];
                proof {
                    crate::tree::lemma_lookup_found(net.nodes@, id@);
                }
                if include_out || !str_eq(n.truth_value.as_str(), "OUT") {
                    let mut line = if contains_str(matched, n.id.as_str()) {
                        owned("*")
                    } else {
                        owned(" ")
                    };
                    line.append(" [");
                    line.append(n.truth_value.as_str());
                    line.append("] ");
                    line.append(n.id.as_str());
                    line.append(": ");
                    let short = truncate(n.text.as_str(), 80);
                    line.append(short.as_str());
                    if !net.has_justification(n.id.as_str()) {
                        line.append(" (premise)");
                    } else {
                        assert(line@ == line@ + Seq::<char>::empty());
                    }
                    let ghost prev = views(lines@);
                    lines.push(line);
                    assert(views(lines@) =~= prev.push(line@));
                    assert(result_lines(*net, m, prev_nodes.push(*n)) =~= result_lines(*net, m, prev_nodes).push(result_line(*net, m, *n)));
                }
            },
            None => {},
        }
        i = i + 1;
    }
    assert(ex.take(ex.len() as int) == ex);
    if lines.len() == 0 {
        owned("No results found.")
    } else {
        join(&lines, "\n")
    }
}

/// The report in the asked format: JSON objects for `json`, one minimal line
/// per node for `minimal`, the marked lines otherwise.
pub open spec fn formatted_results(net: Network, matched: Seq<Seq<char>>, depth: nat, include_out: bool, format: Seq<char>) -> Seq<char> {
    let shown = shown_nodes(net, expansion(net.justifications@, matched, depth), include_out);
    if format == "json"@ && shown.len() > 0 {
        nodes_json(shown)
    } else if format == "minimal"@ && shown.len() > 0 {
        joined(shown.map_values(|n: Node| minimal_line(n)), "\n"@)
    } else {
        results_text(net, matched, depth, include_out)
    }
}

/// The positions of the records shown for the expanded ids.
fn shown_indices(net: &Network, expanded: &Vec<String>, include_out: bool) -> (r: Vec<usize>)
    ensures
        forall|k: int| 0 <= k < r@.len() ==> r@[k] < net.nodes@.len(),
        nodes_at(net.nodes@, r@) == shown_nodes(*net, views(expanded@), include_out),
{
    let ghost ex = views(expanded@);
    let mut r: Vec<usize> = Vec::new();
    let mut i: usize = 0;
    while i < expanded.len()
        invariant
            ex == views(expanded@),
            i <= ex.len(),
            forall|k: int| 0 <= k < r@.len() ==> r@[k] < net.nodes@.len(),
            nodes_at(net.nodes@, r@) == shown_nodes(*net, ex.take(i as int), include_out),
        decreases ex.len() - i,
    {
        assert(ex.take(i + 1).drop_last() == ex.take(i as int));
        match net.find_node(expanded[i].as_str()) {
            Some(k) => {
                if include_out || !str_eq(net.nodes[k].truth_value.as_str(), "OUT") {
                    let ghost prev = r@;
                    r.push(k);
                    assert(nodes_at(net.nodes@, r@) =~= nodes_at(net.nodes@, prev).push(net.nodes@[k as int]));
                }
            },
            None => {},
        }
        i = i + 1;
    }
    assert(ex.take(ex.len() as int) == ex);
    r
}

/// The report for the matched ids, widened by `depth` steps, in `format`.
pub fn search_results_as(net: &Network, matched: &Vec<String>, depth: usize, include_out: bool, format: &str) -> (r: String)
    ensures
        r@ == formatted_results(*net, views(matched@), depth as nat, include_out, format@),
{
    let json = str_eq(format, "json");
    let minimal = str_eq(format, "minimal");
    if !json && !minimal {
        return search_results(net, matched, depth, include_out);
    }
    let expanded = expand_neighbors(net, matched.as_slice(), depth);
    let idx = shown_indices(net, &expanded, include_out);
    if idx.len() == 0 {
        return search_results(net, matched, depth, include_out);
    }
    let ghost shown = nodes_at(net.nodes@, idx@);
    let mut parts: Vec<String> = Vec::new();
    let mut i: usize = 0;
    while i < idx.len()
        invariant
            i <= idx@.len(),
            forall|k: int| 0 <= k < idx@.len() ==> idx@[k] < net.nodes@.len(),
            shown == nodes_at(net.nodes@, idx@),
            json ==> views(parts@) == shown.take(i as int).map_values(|n: Node| node_json(n)),
            !json ==> views(parts@) == shown.take(i as int).map_values(|n: Node| minimal_line(n)),
        decreases idx@.len() - i,
    {
        let n = &net.nodes[idx[i]];
        let ghost prev = views(parts@);
        let part = if json {
            format_node_json(n)
        } else {
            format_node_minimal(n)
        };
        let ghost pv = part@;
        parts.push(part);
        assert(views(parts@) =~= prev.push(pv));
        assert(shown[i as int] == *n);
        if json {
            assert(views(parts@) =~= shown.take(i + 1).map_values(|n: Node| node_json(n)));
        } else {
            assert(views(parts@) =~= shown.take(i + 1).map_values(|n: Node| minimal_line(n)));
        }
        i = i + 1;
    }
    assert(shown.take(shown.len() as int) == shown);
    if json {
        let mut r = owned("[");
        let body = join(&parts, ",");
        r.append(body.as_str());
        r.append("]");
        r
    } else {
        join(&parts, "\n")
    }
}

/// The matches used: those of the first full-text attempt that found any,
/// otherwise those of the substring search.
pub open spec fn chosen_matches(attempts: Seq<Seq<Seq<char>>>, substring: Seq<Seq<char>>) -> Seq<Seq<char>>
    decreases attempts.len(),
{
    if attempts.len() == 0 {
        substring
    } else if attempts[0].len() > 0 {
        attempts[0]
    } else {
        chosen_matches(attempts.drop_first(), substring)
    }
}

/// The views of the matches each attempt found.
pub open spec fn attempt_views(rs: Seq<Vec<String>>) -> Seq<Seq<Seq<char>>> {
    rs.map_values(|v: Vec<String>| views(v@))
}

/// The search report for `query`: the attempts' matches are those the
/// full-text queries of `fts_attempts` found, in order, and `substring` those
/// a plain substring search found.
pub open spec fn search_text(
    net: Network,
    query: Seq<char>,
    format: Seq<char>,
    attempts: Seq<Seq<Seq<char>>>,
    substring: Seq<Seq<char>>,
    depth: nat,
    include_out: bool,
) -> Seq<char> {
    if search_terms_of(query).len() == 0 {
        "No search terms after filtering stop words."@
    } else {
        let matched = chosen_matches(attempts, substring);
        if matched.len() == 0 {
            "No results found."@
        } else {
            formatted_results(net, matched, depth, include_out, format)
        }
    }
}

/// The matches of the first attempt that found any, else the substring matches.
pub fn choose_matches(attempts: &Vec<Vec<String>>, substring: &Vec<String>) -> (r: Vec<String>)
    ensures
        views(r@) == chosen_matches(attempt_views(attempts@), views(substring@)),
{
    let ghost all = attempt_views(attempts@);
    let mut i: usize = 0;
    assert(all.skip(0) == all);
    while i < attempts.len()
        invariant
            all == attempt_views(attempts@),
            i <= all.len(),
            chosen_matches(all, views(substring@)) == chosen_matches(all.skip(i as int), views(substring@)),
            forall|k: int| 0 <= k < i ==> all[k].len() == 0,
        decreases all.len() - i,
    {
        assert(all.skip(i as int).drop_first() == all.skip(i + 1));
        assert(all.skip(i as int)[0] == all[i as int]);
        if attempts[i].len() > 0 {
            return crate::neighbors::copy_strings(attempts[i].as_slice());
        }
        i = i + 1;
    }
    assert(all.skip(i as int) =~= Seq::<Seq<Seq<char>>>::empty());
    crate::neighbors::copy_strings(substring.as_slice())
}

/// The search report for `query`, given what each full-text attempt and the
/// substring search found.
pub fn search_impl(
    net: &Network,
    query: &str,
    output_format: &str,
    attempts: &Vec<Vec<String>>,
    substring: &Vec<String>,
    depth: usize,
    include_out: bool,
) -> (r: String)
    ensures
        r@ == search_text(*net, query@, output_format@, attempt_views(attempts@), views(substring@), depth as nat, include_out),
{
    let terms = search_terms(query);
    if terms.len() == 0 {
        return owned("No search terms after filtering stop words.");
    }
    let matched = choose_matches(attempts, substring);
    if matched.len() == 0 {
        return owned("No results found.");
    }
    search_results_as(net, &matched, depth, include_out, output_format)
}

/// A node is shown exactly when some expanded id finds it, and it is not
/// OUT unless OUT nodes are asked for.
pub proof fn lemma_shown_nodes(net: Network, ids: Seq<Seq<char>>, include_out: bool, n: Node)
    ensures
        shown_nodes(net, ids, include_out).contains(n) <==> exists|k: int|
            0 <= k < ids.len() && net.node(#[trigger] ids[k]) == Some(n) && (include_out || n.truth_value@ != "OUT"@),
    decreases ids.len(),
{
    if ids.len() > 0 {
        let prev = ids.drop_last();
        lemma_shown_nodes(net, prev, include_out, n);
        let sp = shown_nodes(net, prev, include_out);
        if shown_nodes(net, ids, include_out).contains(n) {
            if !sp.contains(n) {
                let s = shown_nodes(net, ids, include_out);
                let t = choose|t: int| 0 <= t < s.len() && s[t] == n;
                if t < sp.len() {
                    assert(s[t] == sp[t]);
                }
                assert(net.node(ids[ids.len() - 1]) == Some(n));
            } else {
                let k = choose|k: int| 0 <= k < prev.len() && net.node(#[trigger] prev[k]) == Some(n) && (include_out || n.truth_value@ != "OUT"@);
                assert(ids[k] == prev[k]);
            }
        }
        if exists|k: int| 0 <= k < ids.len() && net.node(#[trigger] ids[k]) == Some(n) && (include_out || n.truth_value@ != "OUT"@) {
            let k = choose|k: int| 0 <= k < ids.len() && net.node(#[trigger] ids[k]) == Some(n) && (include_out || n.truth_value@ != "OUT"@);
            if k < prev.len() {
                assert(prev[k] == ids[k]);
                let t = choose|t: int| 0 <= t < sp.len() && sp[t] == n;
                let s = shown_nodes(net, ids, include_out);
                assert(s[t] == sp[t]);
            } else {
                let s = shown_nodes(net, ids, include_out);
                assert(s[s.len() - 1] == n);
            }
        }
    }
}

/// Searching deeper shows every node a shallower search shows.
pub proof fn lemma_search_grows(net: Network, matched: Seq<Seq<char>>, d1: nat, d2: nat, include_out: bool, n: Node)
    requires
        d1 <= d2,
        shown_nodes(net, expansion(net.justifications@, matched, d1), include_out).contains(n),
    ensures
        shown_nodes(net, expansion(net.justifications@, matched, d2), include_out).contains(n),
{
    let e1 = expansion(net.justifications@, matched, d1);
    let e2 = expansion(net.justifications@, matched, d2);
    crate::neighbors::lemma_expansion_grows(net.justifications@, matched, d1, d2);
    lemma_shown_nodes(net, e1, include_out, n);
    lemma_shown_nodes(net, e2, include_out, n);
    let k = choose|k: int| 0 <= k < e1.len() && net.node(#[trigger] e1[k]) == Some(n) && (include_out || n.truth_value@ != "OUT"@);
    assert(e1.to_set().contains(e1[k]));
    assert(e2.to_set().contains(e1[k]));
    let m = choose|m: int| 0 <= m < e2.len() && e2[m] == e1[k];
    assert(net.node(e2[m]) == Some(n));
}

} // verus!
