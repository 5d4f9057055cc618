use reasons_core::config::{
    default_config_content, default_db_path, default_db_path_in, domains_config_path, domains_config_path_in,
    domains_for_config, domains_from, expand_tilde, expand_tilde_with, DomainEntry, DomainsConfig,
};
use reasons_core::domains::{add_cli_domain, build_server, default_database, domains_label};
use reasons_core::params::{default_depth, default_markdown, default_up};

fn entry(name: &str, path: &str) -> DomainEntry {
    DomainEntry { name: name.to_string(), path: path.to_string() }
}

fn pairs(v: &[(&str, &str)]) -> Vec<(String, String)> {
    v.iter().map(|(a, b)| (a.to_string(), b.to_string())).collect()
}

#[test]
fn tilde_paths_resolve_against_home() {
    assert_eq!(expand_tilde_with(Some("/home/ann"), "~/beliefs.db"), "/home/ann/beliefs.db");
    assert_eq!(expand_tilde_with(Some("/home/ann"), "~/dir/x.db"), "/home/ann/dir/x.db");
    assert_eq!(expand_tilde_with(None, "~/beliefs.db"), "./beliefs.db");
}

#[test]
fn other_paths_stay_as_they_are() {
    assert_eq!(expand_tilde_with(Some("/home/ann"), "/data/x.db"), "/data/x.db");
    assert_eq!(expand_tilde_with(Some("/home/ann"), "~"), "~");
    assert_eq!(expand_tilde_with(Some("/home/ann"), "~ann/x.db"), "~ann/x.db");
    assert_eq!(expand_tilde("relative.db"), "relative.db");
}

#[test]
fn expand_tilde_uses_some_home() {
    let r = expand_tilde("~/x.db");
    assert!(r.ends_with("/x.db"));
    assert!(!r.starts_with('~'));
}

#[test]
fn configuration_paths_below_home() {
    assert_eq!(domains_config_path_in(Some("/home/ann")), "/home/ann/.reasons/domains.toml");
    assert_eq!(domains_config_path_in(None), "./.reasons/domains.toml");
    assert_eq!(default_db_path_in(Some("/home/ann")), "/home/ann/reasons.db");
    assert_eq!(default_db_path_in(None), "./reasons.db");
    assert!(domains_config_path().ends_with("/.reasons/domains.toml"));
    assert!(default_db_path().ends_with("/reasons.db"));
}

#[test]
fn no_configuration_selects_the_default_database() {
    let (list, default) = domains_from(None, Some("/home/ann"));
    assert_eq!(list, pairs(&[("default", "/home/ann/reasons.db")]));
    assert_eq!(default, "default");
    let empty = DomainsConfig { default: Some("work".to_string()), domain: vec![] };
    let (list, default) = domains_from(Some(empty), None);
    assert_eq!(list, pairs(&[("default", "./reasons.db")]));
    assert_eq!(default, "default");
}

#[test]
fn configured_domains_keep_their_order() {
    let config = DomainsConfig {
        default: None,
        domain: vec![entry("work", "~/work.db"), entry("home", "/srv/home.db")],
    };
    let (list, default) = domains_from(Some(config), Some("/home/ann"));
    assert_eq!(list, pairs(&[("work", "/home/ann/work.db"), ("home", "/srv/home.db")]));
    assert_eq!(default, "work");
    let config = DomainsConfig { default: Some("home".to_string()), domain: vec![entry("work", "/w.db")] };
    let (_, default) = domains_for_config(Some(config));
    assert_eq!(default, "home");
}

#[test]
fn default_configuration_text() {
    assert_eq!(
        default_config_content("/home/ann/reasons.db"),
        "# Reasons domains configuration\n# Each [[domain]] entry registers a reasons database.\n# The \"default\" key sets which domain is used when no domain is specified.\n\ndefault = \"default\"\n\n[[domain]]\nname = \"default\"\npath = \"/home/ann/reasons.db\"\n"
    );
}

#[test]
fn server_keeps_the_later_entry_of_a_name() {
    let table = build_server(&pairs(&[("a", "/1.db"), ("b", "/2.db"), ("a", "/3.db")]), "a");
    let names: Vec<(&str, &str)> = table.domain_paths.iter().map(|e| (e.name.as_str(), e.path.as_str())).collect();
    assert_eq!(names, vec![("b", "/2.db"), ("a", "/3.db")]);
    assert_eq!(table.default_domain, "a");
}

#[test]
fn resolve_domain_names_the_default_or_fails() {
    let table = build_server(&pairs(&[("a", "/1.db"), ("b", "/2.db")]), "a");
    assert_eq!(table.resolve_domain(None), Ok("a".to_string()));
    assert_eq!(table.resolve_domain(Some("b")), Ok("b".to_string()));
    assert_eq!(
        table.resolve_domain(Some("c")),
        Err("Error: unknown domain 'c'. Use the 'domains' tool to list available domains.".to_string())
    );
    let orphan = build_server(&pairs(&[("a", "/1.db")]), "z");
    assert_eq!(
        orphan.resolve_domain(None),
        Err("Error: unknown domain 'z'. Use the 'domains' tool to list available domains.".to_string())
    );
}

#[test]
fn domains_listing_marks_the_default() {
    let table = build_server(&pairs(&[("a", "/1.db"), ("b", "/2.db")]), "b");
    assert_eq!(table.domains(), "# Domains\n\n- **a**: `/1.db`\n- **b** (default): `/2.db`\n");
    let none = build_server(&vec![], "x");
    assert_eq!(none.domains(), "# Domains\n\n");
}

#[test]
fn command_line_database_joins_unless_configured() {
    let list = pairs(&[("work", "/w.db")]);
    let (l, d) = add_cli_domain(list, "work".to_string(), "other.db", "/cwd/other.db", &vec!["/w.db".to_string()]);
    assert_eq!(l, pairs(&[("default", "other.db"), ("work", "/w.db")]));
    assert_eq!(d, "default");
    // The command line's database takes the place of a configured `default`.
    let list = pairs(&[("default", "/home/ann/reasons.db"), ("work", "/w.db")]);
    let canonical = vec!["/home/ann/reasons.db".to_string(), "/w.db".to_string()];
    let (l, d) = add_cli_domain(list, "default".to_string(), "other.db", "/cwd/other.db", &canonical);
    assert_eq!(l, pairs(&[("default", "other.db"), ("work", "/w.db")]));
    assert_eq!(d, "default");
    let server = build_server(&l, &d);
    assert_eq!(server.resolve_domain(None), Ok("default".to_string()));
    assert_eq!(server.domain_paths[0].path, "other.db");
    let list = pairs(&[("work", "/w.db")]);
    let (l, d) = add_cli_domain(list, "work".to_string(), "w.db", "/w.db", &vec!["/w.db".to_string()]);
    assert_eq!(l, pairs(&[("work", "/w.db")]));
    assert_eq!(d, "work");
}

#[test]
fn menu_label_for_domains() {
    assert_eq!(domains_label(&pairs(&[("default", "/r.db")]), "default"), "Database: /r.db");
    assert_eq!(
        domains_label(&pairs(&[("a", "/1.db"), ("b", "/2.db")]), "b"),
        "Domains: 2 configured (default: b)"
    );
}

#[test]
fn default_database_falls_back_to_the_first() {
    let list = pairs(&[("a", "/1.db"), ("b", "/2.db")]);
    assert_eq!(default_database(&list, "b"), "/2.db");
    assert_eq!(default_database(&list, "zzz"), "/1.db");
}

#[test]
fn request_defaults() {
    assert_eq!(default_markdown(), "markdown");
    assert_eq!(default_depth(), 1);
    assert_eq!(default_up(), "up");
}
