//! Domain configuration: where the configuration file and the default
//! database live, and which databases (domains) a configuration selects.
use vstd::prelude::*;
use crate::text::{chars_of, owned, string_from_range, views};

verus! {

/// The path `base` joined with `rel`, as `Path::join` computes it.
pub uninterp spec fn joined_path(base: Seq<char>, rel: Seq<char>) -> Seq<char>;

/// `dirs::home_dir`, as text. The result depends on the environment and the
/// platform, so nothing is claimed of it.
#[verifier::external_body]
fn home_dir_text() -> (r: Option<String>) {
    match dirs::home_dir() {
        Some(p) => Some(p.to_string_lossy().into_owned()),
        None => None,
    }
}

/// `Path::join`: `rel` appended to `base`; the result is named.
#[verifier::external_body]
pub(crate) fn path_join(base: &str, rel: &str) -> (r: String)
    ensures
        r@ == joined_path(base@, rel@),
{
    std::path::Path::new(base).join(rel).to_string_lossy().into_owned()
}

/// The parent directory of a path, as `Path::parent` computes it.
pub uninterp spec fn parent_path(p: Seq<char>) -> Option<Seq<char>>;

/// `Path::parent`: the path without its last component, `None` for a root
/// or an empty path; the result is named.
#[verifier::external_body]
pub(crate) fn path_parent(p: &str) -> (r: Option<String>)
    ensures
        match r {
            Some(d) => parent_path(p@) == Some(d@),
            None => parent_path(p@) is None,
        },
{
    match std::path::Path::new(p).parent() {
        Some(d) => Some(d.to_string_lossy().into_owned()),
        None => None,
    }
}

/// The home directory, or `.` when there is none.
pub open spec fn home_or_current(home: Option<Seq<char>>) -> Seq<char> {
    match home {
        Some(h) => h,
        None => "."@,
    }
}

/// The optional text of a home directory.
pub open spec fn opt_home(home: Option<&str>) -> Option<Seq<char>> {
    match home {
        Some(h) => Some(h@),
        None => None,
    }
}

fn base_dir(home: Option<&str>) -> (r: String)
    ensures
        r@ == home_or_current(opt_home(home)),
{
    match home {
        Some(h) => owned(h),
        None => owned("."),
    }
}

/// A path with a leading `~/` resolved against the home directory (or `.`);
/// any other path unchanged.
pub open spec fn expanded_path(home: Option<Seq<char>>, path: Seq<char>) -> Seq<char> {
    if path.len() >= 2 && path[0] == '~' && path[1] == '/' {
        joined_path(home_or_current(home), path.skip(2))
    } else {
        path
    }
}

/// Resolves a leading `~/` of `path` against `home`.
pub fn expand_tilde_with(home: Option<&str>, path: &str) -> (r: String)
    ensures
        r@ == expanded_path(opt_home(home), path@),
{
    let cs = chars_of(path);
    if cs.len() >= 2 && cs[0] == '~' && cs[1] == '/' {
        let rest = string_from_range(&cs, 2, cs.len());
        assert(cs@.subrange(2, cs@.len() as int) == path@.skip(2));
        let base = base_dir(home);
        path_join(base.as_str(), rest.as_str())
    } else {
        owned(path)
    }
}

/// Resolves a leading `~/` of `path` against the user's home directory.
pub fn expand_tilde(path: &str) -> (r: String)
    ensures
        exists|h: Option<Seq<char>>| r@ == expanded_path(h, path@),
{
    let home = home_dir_text();
    match &home {
        Some(h) => expand_tilde_with(Some(h.as_str()), path),
        None => expand_tilde_with(None, path),
    }
}

/// Where the domains configuration lives, below the home directory.
pub open spec fn config_path_in(home: Option<Seq<char>>) -> Seq<char> {
    joined_path(home_or_current(home), ".reasons/domains.toml"@)
}

/// Where the default database lives, below the home directory.
pub open spec fn default_db_in(home: Option<Seq<char>>) -> Seq<char> {
    joined_path(home_or_current(home), "reasons.db"@)
}

/// The configuration file's path for the home directory `home`.
pub fn domains_config_path_in(home: Option<&str>) -> (r: String)
    ensures
        r@ == config_path_in(opt_home(home)),
{
    let base = base_dir(home);
    path_join(base.as_str(), ".reasons/domains.toml")
}

/// The default database's path for the home directory `home`.
pub fn default_db_path_in(home: Option<&str>) -> (r: String)
    ensures
        r@ == default_db_in(opt_home(home)),
{
    let base = base_dir(home);
    path_join(base.as_str(), "reasons.db")
}

/// The path of the domains configuration file: `.reasons/domains.toml` in
/// the user's home directory (or in `.` when there is none).
pub fn domains_config_path() -> (r: String)
    ensures
        exists|h: Option<Seq<char>>| r@ == config_path_in(h),
{
    let home = home_dir_text();
    match &home {
        Some(h) => domains_config_path_in(Some(h.as_str())),
        None => domains_config_path_in(None),
    }
}

/// The path of the default database: `reasons.db` in the user's home
/// directory (or in `.` when there is none).
pub fn default_db_path() -> (r: String)
    ensures
        exists|h: Option<Seq<char>>| r@ == default_db_in(h),
{
    let home = home_dir_text();
    match &home {
        Some(h) => default_db_path_in(Some(h.as_str())),
        None => default_db_path_in(None),
    }
}

/// One configured domain: its name and the path of its database.
pub struct DomainEntry {
    pub name: String,
    pub path: String,
}

/// The domains configuration: the default domain's name, if set, and the
/// configured domains in order.
pub struct DomainsConfig {
    pub default: Option<String>,
    pub domain: Vec<DomainEntry>,
}

/// The names of the entries.
pub open spec fn entry_names(es: Seq<DomainEntry>) -> Seq<Seq<char>> {
    es.map_values(|e: DomainEntry| e.name@)
}

/// The configured domains with their paths resolved: each name with its path
/// after `~/` expansion.
pub open spec fn resolved_entries(home: Option<Seq<char>>, es: Seq<DomainEntry>) -> Seq<(Seq<char>, Seq<char>)> {
    es.map_values(|e: DomainEntry| (e.name@, expanded_path(home, e.path@)))
}

/// The domains a configuration selects, with the default domain's name: the
/// configured domains (default: the one named, else the first) when there is
/// at least one; otherwise the single domain `default` on the default database.
pub open spec fn selected_domains(config: Option<DomainsConfig>, home: Option<Seq<char>>) -> (Seq<(Seq<char>, Seq<char>)>, Seq<char>) {
    match config {
        Some(c) if c.domain@.len() > 0 => (
            resolved_entries(home, c.domain@),
            match c.default {
                Some(d) => d@,
                None => c.domain@[0].name@,
            },
        ),
        _ => (seq![("default"@, default_db_in(home))], "default"@),
    }
}

/// The views of a list of (name, path) pairs.
pub open spec fn pair_views(v: Seq<(String, String)>) -> Seq<(Seq<char>, Seq<char>)> {
    v.map_values(|p: (String, String)| (p.0@, p.1@))
}

/// The domains selected by `config` (`None` when it could not be read or
/// parsed), paths resolved against `home`.
pub fn domains_from(config: Option<DomainsConfig>, home: Option<&str>) -> (r: (Vec<(String, String)>, String))
    ensures
        (pair_views(r.0@), r.1@) == selected_domains(config, opt_home(home)),
{
    match config {
        Some(c) => {
            if c.domain.len() > 0 {
                let mut list: Vec<(String, String)> = Vec::new();
                let mut i: usize = 0;
                while i < c.domain.len()
                    invariant
                        i <= c.domain@.len(),
                        pair_views(list@) == resolved_entries(opt_home(home), c.domain@).take(i as int),
                    decreases c.domain@.len() - i,
                {
                    let e = &c.domain[i];
                    let p = expand_tilde_with(home, e.path.as_str());
                    let ghost prev = pair_views(list@);
                    list.push((e.name.clone(), p));
                    assert(pair_views(list@) =~= prev.push((e.name@, p@)));
                    assert(resolved_entries(opt_home(home), c.domain@).take(i + 1) =~= resolved_entries(opt_home(home), c.domain@).take(i as int).push((e.name@, p@)));
                    i = i + 1;
                }
                assert(resolved_entries(opt_home(home), c.domain@).take(c.domain@.len() as int) == resolved_entries(opt_home(home), c.domain@));
                let default = match &c.default {
                    Some(d) => d.clone(),
                    None => c.domain[0].name.clone(),
                };
                return (list, default);
            }
        },
        None => {},
    }
    let mut list: Vec<(String, String)> = Vec::new();
    list.push((owned("default"), default_db_path_in(home)));
    assert(pair_views(list@) =~= seq![("default"@, default_db_in(opt_home(home)))]);
    (list, owned("default"))
}

/// The domains selected by `config`, paths resolved against the user's home
/// directory.
pub fn domains_for_config(config: Option<DomainsConfig>) -> (r: (Vec<(String, String)>, String))
    ensures
        exists|h: Option<Seq<char>>| (pair_views(r.0@), r.1@) == selected_domains(config, h),
{
    let home = home_dir_text();
    match &home {
        Some(h) => domains_from(config, Some(h.as_str())),
        None => domains_from(config, None),
    }
}

/// The configuration written on first run: comments, `default = "default"`,
/// and one domain `default` whose path is `db_path`.
pub open spec fn default_config_text(db_path: Seq<char>) -> Seq<char> {
    "# Reasons domains configuration\n# Each [[domain]] entry registers a reasons database.\n# The \"default\" key sets which domain is used when no domain is specified.\n\ndefault = \"default\"\n\n[[domain]]\nname = \"default\"\npath = \""@
        + db_path + "\"\n"@
}

/// The configuration to write on first run, naming `db_path` as the default database.
pub fn default_config_content(db_path: &str) -> (r: String)
    ensures
        r@ == default_config_text(db_path@),
{
    let mut r = owned(
        "# Reasons domains configuration\n# Each [[domain]] entry registers a reasons database.\n# The \"default\" key sets which domain is used when no domain is specified.\n\ndefault = \"default\"\n\n[[domain]]\nname = \"default\"\npath = \"",
    );
    r.append(db_path);
    r.append("\"\n");
    r
}

} // verus!
