//! Registering the server with desktop clients: the client configuration
//! entry that launches it, and the menu texts that report the registration.
use vstd::prelude::*;
use crate::config::{joined_path, parent_path, path_join, path_parent};
use crate::text::{decimal, owned, push_decimal, str_eq, views};

verus! {

/// A JSON document: numbers keep their text, an object keeps its members
/// (each key once).
pub enum JsonValue {
    Null,
    Bool(bool),
    Number(String),
    Str(String),
    Array(Vec<JsonValue>),
    Object(Vec<(String, JsonValue)>),
}

/// The mathematical form of a JSON document.
pub enum Json {
    Null,
    Bool(bool),
    Number(Seq<char>),
    Str(Seq<char>),
    Array(Seq<Json>),
    Object(Seq<(Seq<char>, Json)>),
}

/// The mathematical form of `j`.
pub open spec fn json_of(j: JsonValue) -> Json
    decreases j,
{
    match j {
        JsonValue::Null => Json::Null,
        JsonValue::Bool(b) => Json::Bool(b),
        JsonValue::Number(n) => Json::Number(n@),
        JsonValue::Str(s) => Json::Str(s@),
        JsonValue::Array(vs) => Json::Array(jsons_of(vs@)),
        JsonValue::Object(ms) => Json::Object(members_of(ms@)),
    }
}

/// The mathematical forms of the elements of `s`.
pub open spec fn jsons_of(s: Seq<JsonValue>) -> Seq<Json>
    decreases s,
{
    if s.len() == 0 {
        Seq::empty()
    } else {
        jsons_of(s.drop_last()).push(json_of(s.last()))
    }
}

/// The mathematical forms of the members of `s`.
pub open spec fn members_of(s: Seq<(String, JsonValue)>) -> Seq<(Seq<char>, Json)>
    decreases s,
{
    if s.len() == 0 {
        Seq::empty()
    } else {
        members_of(s.drop_last()).push((s.last().0@, json_of(s.last().1)))
    }
}

/// The forms of the members, member by member.
pub proof fn lemma_members_of(s: Seq<(String, JsonValue)>)
    ensures
        members_of(s).len() == s.len(),
        forall|k: int| 0 <= k < s.len() ==> #[trigger] members_of(s)[k] == (s[k].0@, json_of(s[k].1)),
    decreases s.len(),
{
    if s.len() > 0 {
        lemma_members_of(s.drop_last());
    }
}

/// The forms of the elements, element by element.
pub proof fn lemma_jsons_of(s: Seq<JsonValue>)
    ensures
        jsons_of(s).len() == s.len(),
        forall|k: int| 0 <= k < s.len() ==> #[trigger] jsons_of(s)[k] == json_of(s[k]),
    decreases s.len(),
{
    if s.len() > 0 {
        lemma_jsons_of(s.drop_last());
    }
}

/// `k` is the first position of `key` among the members `ms`.
pub open spec fn first_at(ms: Seq<(Seq<char>, Json)>, key: Seq<char>, k: int) -> bool {
    &&& 0 <= k < ms.len()
    &&& ms[k].0 == key
    &&& forall|m: int| 0 <= m < k ==> ms[m].0 != key
}

/// The first position of `key` among the members `ms`.
pub open spec fn key_position(ms: Seq<(Seq<char>, Json)>, key: Seq<char>) -> Option<int> {
    if exists|k: int| first_at(ms, key, k) {
        Some(choose|k: int| first_at(ms, key, k))
    } else {
        None
    }
}

/// The value of the member `key`.
pub open spec fn member_value(ms: Seq<(Seq<char>, Json)>, key: Seq<char>) -> Option<Json> {
    match key_position(ms, key) {
        Some(k) => Some(ms[k].1),
        None => None,
    }
}

/// The members with `key` set to `v`: replaced where it is, added at the end
/// when it is missing.
pub open spec fn set_member(ms: Seq<(Seq<char>, Json)>, key: Seq<char>, v: Json) -> Seq<(Seq<char>, Json)> {
    match key_position(ms, key) {
        Some(k) => ms.update(k, (key, v)),
        None => ms.push((key, v)),
    }
}

/// Whether a client configuration registers a server named `reasons`.
pub open spec fn registers_server(config: Json) -> bool {
    &&& config matches Json::Object(ms)
    &&& member_value(ms, "mcpServers"@) matches Some(Json::Object(ss))
    &&& member_value(ss, "reasons"@) is Some
}

/// The entry that launches the server: `binary mcp --db <db>`.
pub open spec fn server_entry(binary: Seq<char>, db: Seq<char>) -> Json {
    Json::Object(
        seq![
            ("command"@, Json::Str(binary)),
            ("args"@, Json::Array(seq![Json::Str("mcp"@), Json::Str("--db"@), Json::Str(db)])),
        ],
    )
}

/// A client configuration with the `reasons` server registered (replacing
/// any earlier registration), or why it cannot hold one.
pub open spec fn with_server(config: Json, binary: Seq<char>, db: Seq<char>) -> Result<Json, Seq<char>> {
    match config {
        Json::Object(ms) => match member_value(ms, "mcpServers"@) {
            None => Ok(
                Json::Object(set_member(ms, "mcpServers"@, Json::Object(seq![("reasons"@, server_entry(binary, db))]))),
            ),
            Some(Json::Object(ss)) => Ok(
                Json::Object(set_member(ms, "mcpServers"@, Json::Object(set_member(ss, "reasons"@, server_entry(binary, db))))),
            ),
            Some(_) => Err("mcpServers is not an object"@),
        },
        _ => Err("Config is not an object"@),
    }
}

/// The position of `key` among the members `ms`.
fn find_member(ms: &Vec<(String, JsonValue)>, key: &str) -> (r: Option<usize>)
    ensures
        match r {
            Some(k) => key_position(members_of(ms@), key@) == Some(k as int),
            None => key_position(members_of(ms@), key@) is None,
        },
{
    let ghost m = members_of(ms@);
    proof {
        lemma_members_of(ms@);
    }
    let mut i: usize = 0;
    while i < ms.len()
        invariant
            m == members_of(ms@),
            m.len() == ms@.len(),
            forall|q: int| 0 <= q < m.len() ==> #[trigger] m[q] == (ms@[q].0@, json_of(ms@[q].1)),
            i <= m.len(),
            forall|q: int| 0 <= q < i ==> m[q].0 != key@,
        decreases m.len() - i,
    {
        assert(m[i as int].0 == ms@[i as int].0@);
        if str_eq(ms[i].0.as_str(), key) {
            assert(first_at(m, key@, i as int));
            proof {
                let c = choose|k: int| first_at(m, key@, k);
                assert(first_at(m, key@, c));
                if c < i {
                    assert(m[c].0 != key@);
                }
                if c > i {
                    assert(m[i as int].0 != key@);
                }
            }
            return Some(i);
        }
        i = i + 1;
    }
    assert(!exists|k: int| first_at(m, key@, k));
    None
}

/// Sets the member `key` of `ms` to `v`.
fn set_member_vec(ms: &mut Vec<(String, JsonValue)>, key: &str, v: JsonValue)
    ensures
        members_of(final(ms)@) == set_member(members_of(old(ms)@), key@, json_of(v)),
{
    let ghost before = ms@;
    proof {
        lemma_members_of(before);
    }
    match find_member(ms, key) {
        Some(k) => {
            ms.set(k, (owned(key), v));
            proof {
                lemma_members_of(ms@);
                assert(members_of(ms@) =~= members_of(before).update(k as int, (key@, json_of(v))));
            }
        },
        None => {
            ms.push((owned(key), v));
            assert(ms@.drop_last() == before);
        },
    }
}

/// The launching entry as a document.
fn server_entry_value(binary: &str, db: &str) -> (r: JsonValue)
    ensures
        json_of(r) == server_entry(binary@, db@),
{
    let mut args: Vec<JsonValue> = Vec::new();
    args.push(JsonValue::Str(owned("mcp")));
    args.push(JsonValue::Str(owned("--db")));
    args.push(JsonValue::Str(owned(db)));
    let mut ms: Vec<(String, JsonValue)> = Vec::new();
    ms.push((owned("command"), JsonValue::Str(owned(binary))));
    ms.push((owned("args"), JsonValue::Array(args)));
    proof {
        lemma_jsons_of(args@);
        assert(jsons_of(args@) =~= seq![Json::Str("mcp"@), Json::Str("--db"@), Json::Str(db@)]);
        lemma_members_of(ms@);
        assert(members_of(ms@) =~= seq![
            ("command"@, Json::Str(binary@)),
            ("args"@, Json::Array(seq![Json::Str("mcp"@), Json::Str("--db"@), Json::Str(db@)])),
        ]);
    }
    JsonValue::Object(ms)
}

/// Whether the client configuration `config` registers a server named `reasons`.
pub fn has_reasons_server(config: &JsonValue) -> (r: bool)
    ensures
        r == registers_server(json_of(*config)),
{
    match config {
        JsonValue::Object(ms) => {
            proof {
                lemma_members_of(ms@);
            }
            match find_member(ms, "mcpServers") {
                Some(k) => match &ms[k].1 {
                    JsonValue::Object(ss) => find_member(ss, "reasons").is_some(),
                    _ => false,
                },
                None => false,
            }
        },
        _ => false,
    }
}

/// Registers the server `binary mcp --db <db>` as `reasons` in the client
/// configuration `config`, or says why the configuration cannot hold it.
pub fn register_server(config: JsonValue, binary: &str, db: &str) -> (r: Result<JsonValue, String>)
    ensures
        match r {
            Ok(c) => with_server(json_of(config), binary@, db@) == Ok::<Json, Seq<char>>(json_of(c)),
            Err(e) => with_server(json_of(config), binary@, db@) == Err::<Json, Seq<char>>(e@),
        },
{
    match config {
        JsonValue::Object(ms) => {
            let ghost before = ms@;
            proof {
                lemma_members_of(before);
            }
            let mut ms = ms;
            let entry = server_entry_value(binary, db);
            match find_member(&ms, "mcpServers") {
                None => {
                    let mut ss: Vec<(String, JsonValue)> = Vec::new();
                    ss.push((owned("reasons"), entry));
                    proof {
                        lemma_members_of(ss@);
                        assert(members_of(ss@) =~= seq![("reasons"@, server_entry(binary@, db@))]);
                    }
                    set_member_vec(&mut ms, "mcpServers", JsonValue::Object(ss));
                    Ok(JsonValue::Object(ms))
                },
                Some(k) => {
                    let (name, servers) = ms.remove(k);
                    assert(name@ == "mcpServers"@);
                    assert(json_of(servers) == members_of(before)[k as int].1);
                    match servers {
                        JsonValue::Object(ss) => {
                            let mut ss = ss;
                            set_member_vec(&mut ss, "reasons", entry);
                            let ghost inner = ss@;
                            ms.insert(k, (name, JsonValue::Object(ss)));
                            proof {
                                lemma_members_of(ms@);
                                assert(members_of(ms@) =~= members_of(before).update(
                                    k as int,
                                    ("mcpServers"@, Json::Object(members_of(inner))),
                                ));
                            }
                            Ok(JsonValue::Object(ms))
                        },
                        _ => Err(owned("mcpServers is not an object")),
                    }
                },
            }
        },
        _ => Err(owned("Config is not an object")),
    }
}

/// A belief's data after a challenge `cid`: the challenge appended to its
/// `challenges` list (made when missing); data that is not an object, or
/// whose `challenges` is not a list, stays as it is.
pub open spec fn challenged_meta(m: Json, cid: Seq<char>) -> Json {
    match m {
        Json::Object(ms) => match member_value(ms, "challenges"@) {
            None => Json::Object(set_member(ms, "challenges"@, Json::Array(seq![Json::Str(cid)]))),
            Some(Json::Array(a)) => Json::Object(set_member(ms, "challenges"@, Json::Array(a.push(Json::Str(cid))))),
            Some(_) => m,
        },
        _ => m,
    }
}

/// Records the challenge `cid` in a belief's data.
pub fn add_challenge(meta: JsonValue, cid: &str) -> (r: JsonValue)
    ensures
        json_of(r) == challenged_meta(json_of(meta), cid@),
{
    match meta {
        JsonValue::Object(ms) => {
            let ghost before = ms@;
            proof {
                lemma_members_of(before);
            }
            let mut ms = ms;
            match find_member(&ms, "challenges") {
                None => {
                    let mut a: Vec<JsonValue> = Vec::new();
                    a.push(JsonValue::Str(owned(cid)));
                    proof {
                        lemma_jsons_of(a@);
                        assert(jsons_of(a@) =~= seq![Json::Str(cid@)]);
                    }
                    set_member_vec(&mut ms, "challenges", JsonValue::Array(a));
                    JsonValue::Object(ms)
                },
                Some(k) => {
                    let (name, list) = ms.remove(k);
                    assert(json_of(list) == members_of(before)[k as int].1);
                    match list {
                        JsonValue::Array(a) => {
                            let mut a = a;
                            let ghost a0 = a@;
                            let item = JsonValue::Str(owned(cid));
                            let ghost itemv = item;
                            assert(json_of(itemv) == Json::Str(cid@));
                            a.push(item);
                            assert(a@.drop_last() == a0);
                            let ghost a1 = a@;
                            assert(a1.last() == itemv);
                            assert(jsons_of(a1) == jsons_of(a0).push(Json::Str(cid@)));
                            assert(member_value(members_of(before), "challenges"@) == Some(Json::Array(jsons_of(a0))));
                            ms.insert(k, (name, JsonValue::Array(a)));
                            proof {
                                lemma_members_of(ms@);
                                assert(members_of(ms@) =~= members_of(before).update(
                                    k as int,
                                    ("challenges"@, Json::Array(jsons_of(a1))),
                                ));
                            }
                            JsonValue::Object(ms)
                        },
                        other => {
                            assert(!(json_of(other) is Array));
                            ms.insert(k, (name, other));
                            proof {
                                lemma_members_of(ms@);
                                assert(ms@ =~= before);
                            }
                            JsonValue::Object(ms)
                        },
                    }
                },
            }
        },
        other => other,
    }
}

/// A defense node's data: the belief it defends and the challenge it counters.
pub open spec fn defended_meta(m: Json, target: Seq<char>, challenge: Seq<char>) -> Json {
    match m {
        Json::Object(ms) => Json::Object(
            set_member(set_member(ms, "defense_target"@, Json::Str(target)), "defends"@, Json::Str(challenge)),
        ),
        _ => m,
    }
}

/// Records in a defense node's data what it defends and what it counters.
pub fn mark_defense(meta: JsonValue, target: &str, challenge: &str) -> (r: JsonValue)
    ensures
        json_of(r) == defended_meta(json_of(meta), target@, challenge@),
{
    match meta {
        JsonValue::Object(ms) => {
            let mut ms = ms;
            set_member_vec(&mut ms, "defense_target", JsonValue::Str(owned(target)));
            set_member_vec(&mut ms, "defends", JsonValue::Str(owned(challenge)));
            JsonValue::Object(ms)
        },
        other => other,
    }
}

/// The server's executable beside the program at `exe`: `reasons` in the
/// directory of `exe`, or in `.` when `exe` has no parent.
pub open spec fn binary_beside_path(exe: Seq<char>) -> Seq<char> {
    joined_path(
        match parent_path(exe) {
            Some(d) => d,
            None => "."@,
        },
        "reasons"@,
    )
}

/// The path of the server's executable for the program at `exe`.
pub fn binary_beside(exe: &str) -> (r: String)
    ensures
        r@ == binary_beside_path(exe@),
{
    match path_parent(exe) {
        Some(d) => path_join(d.as_str(), "reasons"),
        None => path_join(".", "reasons"),
    }
}

/// The menu text for a client's registration: done, or offered.
pub open spec fn install_label_text(client: Seq<char>, installed: bool) -> Seq<char> {
    if installed {
        client + ": Installed \u{2713}"@
    } else {
        "Install in "@ + client
    }
}

/// The menu text for the registration with `client`.
pub fn install_label(client: &str, installed: bool) -> (r: String)
    ensures
        r@ == install_label_text(client@, installed),
{
    if installed {
        let mut r = owned(client);
        r.append(": Installed \u{2713}");
        r
    } else {
        let mut r = owned("Install in ");
        r.append(client);
        r
    }
}

/// The menu text for the running server.
pub fn status_label(port: u16) -> (r: String)
    ensures
        r@ == "Status: running on port "@ + decimal(port as nat),
{
    let mut r = owned("Status: running on port ");
    push_decimal(&mut r, port as usize);
    r
}

/// The arguments that register the server with a command-line client:
/// `mcp add --scope user reasons -- <binary> mcp --db <db>`.
pub open spec fn cli_add_args_of(binary: Seq<char>, db: Seq<char>) -> Seq<Seq<char>> {
    seq!["mcp"@, "add"@, "--scope"@, "user"@, "reasons"@, "--"@, binary, "mcp"@, "--db"@, db]
}

/// The arguments that register the server with a command-line client.
pub fn cli_add_args(binary: &str, db: &str) -> (r: Vec<String>)
    ensures
        views(r@) == cli_add_args_of(binary@, db@),
{
    let mut r: Vec<String> = Vec::new();
    r.push(owned("mcp"));
    r.push(owned("add"));
    r.push(owned("--scope"));
    r.push(owned("user"));
    r.push(owned("reasons"));
    r.push(owned("--"));
    r.push(owned(binary));
    r.push(owned("mcp"));
    r.push(owned("--db"));
    r.push(owned(db));
    assert(views(r@) =~= cli_add_args_of(binary@, db@));
    r
}

/// The error when the command-line client `program` refused the registration.
pub fn cli_add_failure(program: &str, stderr: &str) -> (r: String)
    ensures
        r@ == program@ + " mcp add failed: "@ + stderr@,
{
    let mut r = owned(program);
    r.append(" mcp add failed: ");
    r.append(stderr);
    r
}

} // verus!
