use reasons_core::desktop::{
    binary_beside, cli_add_args, cli_add_failure, has_reasons_server, install_label, register_server,
    status_label, JsonValue,
};

fn s(v: &str) -> JsonValue {
    JsonValue::Str(v.to_string())
}

fn obj(ms: Vec<(&str, JsonValue)>) -> JsonValue {
    JsonValue::Object(ms.into_iter().map(|(k, v)| (k.to_string(), v)).collect())
}

fn member<'a>(v: &'a JsonValue, key: &str) -> Option<&'a JsonValue> {
    match v {
        JsonValue::Object(ms) => ms.iter().find(|(k, _)| k == key).map(|(_, v)| v),
        _ => None,
    }
}

fn text(v: Option<&JsonValue>) -> Option<&str> {
    match v {
        Some(JsonValue::Str(t)) => Some(t.as_str()),
        _ => None,
    }
}

fn check_entry(entry: &JsonValue, binary: &str, db: &str) {
    assert_eq!(text(member(entry, "command")), Some(binary));
    match member(entry, "args") {
        Some(JsonValue::Array(args)) => {
            let got: Vec<Option<&str>> = args.iter().map(|a| text(Some(a))).collect();
            assert_eq!(got, vec![Some("mcp"), Some("--db"), Some(db)]);
        }
        _ => panic!("args missing"),
    }
}

#[test]
fn detects_a_registered_server() {
    let registered = obj(vec![("mcpServers", obj(vec![("reasons", obj(vec![]))]))]);
    assert!(has_reasons_server(&registered));
    let other = obj(vec![("mcpServers", obj(vec![("other", JsonValue::Null)]))]);
    assert!(!has_reasons_server(&other));
    assert!(!has_reasons_server(&obj(vec![])));
    assert!(!has_reasons_server(&JsonValue::Array(vec![])));
    let not_object = obj(vec![("mcpServers", JsonValue::Array(vec![s("reasons")]))]);
    assert!(!has_reasons_server(&not_object));
}

#[test]
fn register_into_an_empty_configuration() {
    let r = register_server(obj(vec![]), "/opt/reasons", "/home/ann/reasons.db").unwrap();
    let servers = member(&r, "mcpServers").unwrap();
    check_entry(member(servers, "reasons").unwrap(), "/opt/reasons", "/home/ann/reasons.db");
    assert!(has_reasons_server(&r));
}

#[test]
fn register_keeps_other_settings_and_servers() {
    let config = obj(vec![
        ("theme", s("dark")),
        ("mcpServers", obj(vec![("other", obj(vec![("command", s("x"))])), ("reasons", s("stale"))])),
    ]);
    let r = register_server(config, "/bin/reasons", "/db").unwrap();
    assert_eq!(text(member(&r, "theme")), Some("dark"));
    let servers = member(&r, "mcpServers").unwrap();
    assert_eq!(text(member(member(servers, "other").unwrap(), "command")), Some("x"));
    check_entry(member(servers, "reasons").unwrap(), "/bin/reasons", "/db");
    match servers {
        JsonValue::Object(ms) => assert_eq!(ms.len(), 2),
        _ => panic!("servers not an object"),
    }
}

#[test]
fn register_refuses_configurations_that_cannot_hold_it() {
    assert_eq!(
        register_server(JsonValue::Array(vec![]), "/b", "/d").err(),
        Some("Config is not an object".to_string())
    );
    assert_eq!(
        register_server(obj(vec![("mcpServers", JsonValue::Bool(true))]), "/b", "/d").err(),
        Some("mcpServers is not an object".to_string())
    );
}

#[test]
fn server_binary_lives_beside_the_program() {
    assert_eq!(binary_beside("/usr/local/bin/reasons-app"), "/usr/local/bin/reasons");
    assert_eq!(binary_beside(""), "./reasons");
    assert_eq!(binary_beside("app"), "reasons");
}

#[test]
fn menu_texts() {
    assert_eq!(install_label("Desk", true), "Desk: Installed \u{2713}");
    assert_eq!(install_label("Desk", false), "Install in Desk");
    assert_eq!(status_label(6519), "Status: running on port 6519");
    assert_eq!(status_label(0), "Status: running on port 0");
}

#[test]
fn command_line_registration() {
    assert_eq!(
        cli_add_args("/bin/reasons", "/db"),
        vec!["mcp", "add", "--scope", "user", "reasons", "--", "/bin/reasons", "mcp", "--db", "/db"]
    );
    assert_eq!(cli_add_failure("tool", "boom"), "tool mcp add failed: boom");
}
