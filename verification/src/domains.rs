//! The domains a server serves: resolving a requested domain, listing them,
//! and the choices made when the server starts.
use vstd::prelude::*;
use crate::config::{DomainEntry, entry_names, pair_views};
use crate::text::{owned, str_eq, views};

verus! {

/// A server's domains: the databases served, in order, each name once,
/// and the default domain.
pub struct ReasonsServer {
    pub domain_paths: Vec<DomainEntry>,
    pub default_domain: String,
}

/// The entries of `list` whose name does not occur again later: when a name
/// is configured twice, the later entry is the one that counts.
pub open spec fn last_of_each(list: Seq<(Seq<char>, Seq<char>)>) -> Seq<(Seq<char>, Seq<char>)>
    decreases list.len(),
{
    if list.len() == 0 {
        Seq::empty()
    } else {
        let rest = last_of_each(list.drop_first());
        if exists|k: int| 1 <= k < list.len() && #[trigger] list[k].0 == list[0].0 {
            rest
        } else {
            seq![list[0]] + rest
        }
    }
}

/// The (name, path) pairs of the entries.
pub open spec fn entry_pairs(es: Seq<DomainEntry>) -> Seq<(Seq<char>, Seq<char>)> {
    es.map_values(|e: DomainEntry| (e.name@, e.path@))
}

/// The message for a domain that is not served.
pub open spec fn unknown_domain_error(name: Seq<char>) -> Seq<char> {
    "Error: unknown domain '"@ + name + "'. Use the 'domains' tool to list available domains."@
}

/// Whether some entry of `list` has the name `x`.
pub open spec fn has_name(list: Seq<(Seq<char>, Seq<char>)>, x: Seq<char>) -> bool {
    exists|i: int| 0 <= i < list.len() && #[trigger] list[i].0 == x
}

/// Keeping the last entry of each name serves every configured name, and
/// each of them once.
pub proof fn lemma_last_of_each(list: Seq<(Seq<char>, Seq<char>)>)
    ensures
        forall|i: int, j: int|
            0 <= i < j < last_of_each(list).len() ==> #[trigger] last_of_each(list)[i].0
                != #[trigger] last_of_each(list)[j].0,
        forall|x: Seq<char>| #[trigger] has_name(list, x) <==> has_name(last_of_each(list), x),
    decreases list.len(),
{
    if list.len() > 0 {
        let tail = list.drop_first();
        lemma_last_of_each(tail);
        let rest = last_of_each(tail);
        let res = last_of_each(list);
        let later = exists|k: int| 1 <= k < list.len() && #[trigger] list[k].0 == list[0].0;
        assert forall|x: Seq<char>| #[trigger] has_name(list, x) <==> has_name(res, x) by {
            if has_name(list, x) {
                let i = choose|i: int| 0 <= i < list.len() && #[trigger] list[i].0 == x;
                if i > 0 {
                    assert(tail[i - 1].0 == x);
                    assert(has_name(tail, x));
                    let m = choose|m: int| 0 <= m < rest.len() && #[trigger] rest[m].0 == x;
                    if later {
                        assert(res[m].0 == x);
                    } else {
                        assert(res[m + 1].0 == x);
                    }
                } else if later {
                    let k = choose|k: int| 1 <= k < list.len() && #[trigger] list[k].0 == list[0].0;
                    assert(tail[k - 1].0 == x);
                    assert(has_name(tail, x));
                    let m = choose|m: int| 0 <= m < rest.len() && #[trigger] rest[m].0 == x;
                    assert(res[m].0 == x);
                } else {
                    assert(res[0].0 == x);
                }
            }
            if has_name(res, x) {
                let i = choose|i: int| 0 <= i < res.len() && #[trigger] res[i].0 == x;
                if later {
                    assert(rest[i].0 == x);
                    assert(has_name(rest, x));
                    assert(has_name(tail, x));
                    let m = choose|m: int| 0 <= m < tail.len() && #[trigger] tail[m].0 == x;
                    assert(list[m + 1].0 == x);
                } else if i == 0 {
                    assert(list[0].0 == x);
                } else {
                    assert(rest[i - 1].0 == x);
                    assert(has_name(rest, x));
                    assert(has_name(tail, x));
                    let m = choose|m: int| 0 <= m < tail.len() && #[trigger] tail[m].0 == x;
                    assert(list[m + 1].0 == x);
                }
            }
        }
        if !later {
            assert forall|m: int| 0 <= m < rest.len() implies #[trigger] rest[m].0 != list[0].0 by {
                if rest[m].0 == list[0].0 {
                    assert(has_name(rest, list[0].0));
                    assert(has_name(tail, list[0].0));
                    let t = choose|t: int| 0 <= t < tail.len() && #[trigger] tail[t].0 == list[0].0;
                    assert(list[t + 1].0 == list[0].0);
                }
            }
            assert forall|i: int, j: int|
                0 <= i < j < res.len() implies #[trigger] res[i].0 != #[trigger] res[j].0 by {
                if i == 0 {
                    assert(res[j].0 == rest[j - 1].0);
                } else {
                    assert(res[i].0 == rest[i - 1].0);
                    assert(res[j].0 == rest[j - 1].0);
                }
            }
        }
    }
}

/// The server for the configured domains (a later entry replaces an
/// earlier one of the same name) and the default domain's name.
pub fn build_server(list: &Vec<(String, String)>, default_domain: &str) -> (r: ReasonsServer)
    ensures
        entry_pairs(r.domain_paths@) == last_of_each(pair_views(list@)),
        r.default_domain@ == default_domain@,
        r.wf(),
{
    let ghost all = pair_views(list@);
    let mut entries: Vec<DomainEntry> = Vec::new();
    let mut i: usize = list.len();
    assert(all.skip(i as int) =~= Seq::<(Seq<char>, Seq<char>)>::empty());
    while i > 0
        invariant
            all == pair_views(list@),
            i <= all.len(),
            entry_pairs(entries@) == last_of_each(all.skip(i as int)),
        decreases i,
    {
        let k = i - 1;
        let mut later = false;
        let mut m = i;
        while m < list.len()
            invariant
                all == pair_views(list@),
                i <= m <= all.len(),
                k == i - 1,
                later == exists|q: int| i <= q < m && #[trigger] all[q].0 == all[k as int].0,
            decreases all.len() - m,
        {
            assert(all[m as int].0 == list@[m as int].0@);
            assert(all[k as int].0 == list@[k as int].0@);
            if str_eq(list[m].0.as_str(), list[k].0.as_str()) {
                later = true;
            }
            m = m + 1;
        }
        let ghost tail = all.skip(k as int);
        assert(tail.drop_first() == all.skip(i as int));
        assert(tail[0] == all[k as int]);
        assert((exists|q: int| 1 <= q < tail.len() && #[trigger] tail[q].0 == tail[0].0) == later) by {
            if later {
                let q = choose|q: int| i <= q < all.len() && #[trigger] all[q].0 == all[k as int].0;
                assert(tail[q - k] == all[q]);
            }
            if exists|q: int| 1 <= q < tail.len() && #[trigger] tail[q].0 == tail[0].0 {
                let q = choose|q: int| 1 <= q < tail.len() && #[trigger] tail[q].0 == tail[0].0;
                assert(all[q + k] == tail[q]);
            }
        }
        if !later {
            let e = DomainEntry { name: list[k].0.clone(), path: list[k].1.clone() };
            let ghost prev = entry_pairs(entries@);
            entries.insert(0, e);
            assert(entry_pairs(entries@) =~= seq![(e.name@, e.path@)] + prev);
        }
        i = k;
    }
    assert(all.skip(0) == all);
    proof {
        lemma_last_of_each(all);
        let ps = entry_pairs(entries@);
        assert forall|i: int, j: int| 0 <= i < j < entries@.len() implies #[trigger] entries@[i].name@
            != #[trigger] entries@[j].name@ by {
            assert(ps[i].0 == entries@[i].name@);
            assert(ps[j].0 == entries@[j].name@);
        }
    }
    ReasonsServer { domain_paths: entries, default_domain: owned(default_domain) }
}

impl ReasonsServer {
    /// Well-formedness: each domain name is served once.
    pub open spec fn wf(&self) -> bool {
        forall|i: int, j: int| 0 <= i < j < self.domain_paths@.len() ==> #[trigger] self.domain_paths@[i].name@
            != #[trigger] self.domain_paths@[j].name@
    }

    /// The domain a request names: `domain`, or the default when it names none.
    pub open spec fn requested(&self, domain: Option<&str>) -> Seq<char> {
        match domain {
            Some(d) => d@,
            None => self.default_domain@,
        }
    }

    /// The names served.
    pub open spec fn names(&self) -> Seq<Seq<char>> {
        entry_names(self.domain_paths@)
    }

    /// The domain a request names (`domain`, or the default when it names
    /// none), or the error when that domain is not served.
    pub fn resolve_domain(&self, domain: Option<&str>) -> (r: Result<String, String>)
        ensures
            match r {
                Ok(n) => n@ == self.requested(domain) && self.names().contains(self.requested(domain)),
                Err(e) => e@ == unknown_domain_error(self.requested(domain)) && !self.names().contains(
                    self.requested(domain),
                ),
            },
    {
        let name = match domain {
            Some(d) => owned(d),
            None => self.default_domain.clone(),
        };
        let ghost want = match domain {
            Some(d) => d@,
            None => self.default_domain@,
        };
        assert(name@ == want);
        let mut i: usize = 0;
        while i < self.domain_paths.len()
            invariant
                i <= self.domain_paths@.len(),
                name@ == want,
                want == self.requested(domain),
                forall|k: int| 0 <= k < i ==> self.names()[k] != name@,
            decreases self.domain_paths@.len() - i,
        {
            let same = self.domain_paths[i].name == name;
            assert(same == (self.domain_paths@[i as int].name@ == name@));
            if same {
                assert(self.names()[i as int] == name@);
                assert(self.names().contains(name@));
                return Ok(name);
            }
            i = i + 1;
        }
        let mut e = owned("Error: unknown domain '");
        e.append(name.as_str());
        e.append("'. Use the 'domains' tool to list available domains.");
        Err(e)
    }
}

/// The listing line for one domain, marked when it is the default.
pub open spec fn domain_line(e: DomainEntry, default_domain: Seq<char>) -> Seq<char> {
    "- **"@ + e.name@ + "**"@ + (if e.name@ == default_domain { " (default)"@ } else { Seq::empty() }) + ": `"@
        + e.path@ + "`\n"@
}

/// The listing lines for the entries.
pub open spec fn domain_lines(es: Seq<DomainEntry>, default_domain: Seq<char>) -> Seq<char>
    decreases es.len(),
{
    if es.len() == 0 {
        Seq::empty()
    } else {
        domain_lines(es.drop_last(), default_domain) + domain_line(es.last(), default_domain)
    }
}

impl ReasonsServer {
    /// The served domains with their database paths, the default marked.
    pub fn domains(&self) -> (r: String)
        ensures
            r@ == "# Domains\n\n"@ + domain_lines(self.domain_paths@, self.default_domain@),
    {
        let mut out = owned("# Domains\n\n");
        let ghost start = out@;
        let mut i: usize = 0;
        while i < self.domain_paths.len()
            invariant
                i <= self.domain_paths@.len(),
                out@ == start + domain_lines(self.domain_paths@.take(i as int), self.default_domain@),
            decreases self.domain_paths@.len() - i,
        {
            assert(self.domain_paths@.take(i + 1).drop_last() == self.domain_paths@.take(i as int));
            let e = &self.domain_paths[i];
            out.append("- **");
            out.append(e.name.as_str());
            out.append("**");
            if e.name == self.default_domain {
                out.append(" (default)");
            } else {
                assert(out@ == out@ + Seq::<char>::empty());
            }
            out.append(": `");
            out.append(e.path.as_str());
            out.append("`\n");
            i = i + 1;
        }
        assert(self.domain_paths@.take(self.domain_paths@.len() as int) == self.domain_paths@);
        out
    }
}

/// The entries of `list` not named `name`, in order.
pub open spec fn without_name(list: Seq<(Seq<char>, Seq<char>)>, name: Seq<char>) -> Seq<(Seq<char>, Seq<char>)>
    decreases list.len(),
{
    if list.len() == 0 {
        Seq::empty()
    } else if list.last().0 == name {
        without_name(list.drop_last(), name)
    } else {
        without_name(list.drop_last(), name).push(list.last())
    }
}

/// The domains served when a database is also named on the command line: the
/// configured ones when one of them is that database (compared by canonical
/// paths); otherwise that database as `default`, the new default domain,
/// followed by the configured domains other than one named `default`, which
/// it takes the place of.
pub open spec fn with_cli(
    list: Seq<(Seq<char>, Seq<char>)>,
    default_domain: Seq<char>,
    cli_path: Seq<char>,
    cli_canonical: Seq<char>,
    canonical: Seq<Seq<char>>,
) -> (Seq<(Seq<char>, Seq<char>)>, Seq<char>) {
    if canonical.contains(cli_canonical) {
        (list, default_domain)
    } else {
        (seq![("default"@, cli_path)] + without_name(list, "default"@), "default"@)
    }
}

/// No entry left by `without_name` has that name.
pub proof fn lemma_without_name(list: Seq<(Seq<char>, Seq<char>)>, name: Seq<char>)
    ensures
        forall|i: int| 0 <= i < without_name(list, name).len() ==> #[trigger] without_name(list, name)[i].0 != name,
    decreases list.len(),
{
    if list.len() > 0 {
        let prev = without_name(list.drop_last(), name);
        lemma_without_name(list.drop_last(), name);
        if list.last().0 != name {
            assert forall|i: int| 0 <= i < prev.push(list.last()).len() implies #[trigger] prev.push(list.last())[i].0 != name by {
                if i < prev.len() {
                    assert(prev.push(list.last())[i] == prev[i]);
                }
            }
        }
    }
}

/// A database named on the command line is always served: when no configured
/// domain is it, the server built from the domains serves it as `default`,
/// which is the default domain.
pub proof fn lemma_cli_database_served(
    list: Seq<(Seq<char>, Seq<char>)>,
    default_domain: Seq<char>,
    cli_path: Seq<char>,
    cli_canonical: Seq<char>,
    canonical: Seq<Seq<char>>,
)
    requires
        !canonical.contains(cli_canonical),
    ensures
        ({
            let (served, d) = with_cli(list, default_domain, cli_path, cli_canonical, canonical);
            &&& d == "default"@
            &&& last_of_each(served).len() > 0
            &&& last_of_each(served)[0] == ("default"@, cli_path)
        }),
{
    let rest = without_name(list, "default"@);
    let served = seq![("default"@, cli_path)] + rest;
    lemma_without_name(list, "default"@);
    assert(served.drop_first() == rest);
    assert(!exists|k: int| 1 <= k < served.len() && #[trigger] served[k].0 == served[0].0) by {
        assert forall|k: int| 1 <= k < served.len() implies #[trigger] served[k].0 != served[0].0 by {
            assert(served[k] == rest[k - 1]);
        }
    }
}

/// Adds the command line's database to the configured domains, unless one of
/// them (`canonical` holds their canonical paths, in order) is already it.
pub fn add_cli_domain(
    list: Vec<(String, String)>,
    default_domain: String,
    cli_path: &str,
    cli_canonical: &str,
    canonical: &Vec<String>,
) -> (r: (Vec<(String, String)>, String))
    ensures
        (pair_views(r.0@), r.1@) == with_cli(pair_views(list@), default_domain@, cli_path@, cli_canonical@, views(canonical@)),
{
    if crate::text::contains_str(canonical, cli_canonical) {
        (list, default_domain)
    } else {
        let ghost all = pair_views(list@);
        let mut served: Vec<(String, String)> = Vec::new();
        served.push((owned("default"), owned(cli_path)));
        let mut i: usize = 0;
        while i < list.len()
            invariant
                all == pair_views(list@),
                i <= all.len(),
                pair_views(served@) == seq![("default"@, cli_path@)] + without_name(all.take(i as int), "default"@),
            decreases all.len() - i,
        {
            assert(all.take(i + 1).drop_last() == all.take(i as int));
            assert(all[i as int] == (list@[i as int].0@, list@[i as int].1@));
            if !str_eq(list[i].0.as_str(), "default") {
                let ghost prev = pair_views(served@);
                served.push((list[i].0.clone(), list[i].1.clone()));
                assert(pair_views(served@) =~= prev.push(all[i as int]));
            }
            i = i + 1;
        }
        assert(all.take(all.len() as int) == all);
        (served, owned("default"))
    }
}

/// The menu text for the configured domains: the database's path when there
/// is one domain, otherwise how many there are and which is the default.
pub open spec fn domains_label_text(list: Seq<(Seq<char>, Seq<char>)>, default_domain: Seq<char>) -> Seq<char> {
    if list.len() == 1 {
        "Database: "@ + list[0].1
    } else {
        "Domains: "@ + crate::text::decimal(list.len()) + " configured (default: "@ + default_domain + ")"@
    }
}

/// The menu text for the configured domains.
pub fn domains_label(list: &Vec<(String, String)>, default_domain: &str) -> (r: String)
    ensures
        r@ == domains_label_text(pair_views(list@), default_domain@),
{
    if list.len() == 1 {
        let mut r = owned("Database: ");
        r.append(list[0].1.as_str());
        r
    } else {
        let mut r = owned("Domains: ");
        crate::text::push_decimal(&mut r, list.len());
        r.append(" configured (default: ");
        r.append(default_domain);
        r.append(")");
        r
    }
}

/// The database of the default domain: that of the first domain from
/// position `i` on with the default's name; that of the very first domain
/// when none has it.
pub open spec fn default_database_from(list: Seq<(Seq<char>, Seq<char>)>, default_domain: Seq<char>, i: int) -> Seq<char>
    decreases list.len() - i,
{
    if i < 0 || i >= list.len() {
        list[0].1
    } else if list[i].0 == default_domain {
        list[i].1
    } else {
        default_database_from(list, default_domain, i + 1)
    }
}

/// The database of the default domain among the configured domains.
pub fn default_database(list: &Vec<(String, String)>, default_domain: &str) -> (r: String)
    requires
        list@.len() > 0,
    ensures
        r@ == default_database_from(pair_views(list@), default_domain@, 0),
{
    let ghost all = pair_views(list@);
    let mut i: usize = 0;
    while i < list.len()
        invariant
            all == pair_views(list@),
            all.len() > 0,
            i <= all.len(),
            default_database_from(all, default_domain@, 0) == default_database_from(all, default_domain@, i as int),
        decreases all.len() - i,
    {
        if str_eq(list[i].0.as_str(), default_domain) {
            return list[i].1.clone();
        }
        i = i + 1;
    }
    list[0].1.clone()
}

} // verus!
