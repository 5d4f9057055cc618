//! Rendering nodes as JSON text and as minimal lines.
use vstd::prelude::*;
use crate::network::Node;
use crate::text::{chars_of, joined, owned, push_char};

verus! {

/// The lower-case hexadecimal digit of `d < 16`.
pub open spec fn hex_digit(d: nat) -> char {
    if d < 10 {
        crate::text::digit_char(d)
    } else if d == 10 { 'a' } else if d == 11 { 'b' } else if d == 12 { 'c' } else if d == 13 { 'd' }
    else if d == 14 { 'e' } else { 'f' }
}

/// How JSON writes one character inside a string: quotes, backslashes and
/// control characters escaped, everything else as it is.
pub open spec fn escape_char(c: char) -> Seq<char> {
    if c == '"' {
        seq!['\\', '"']
    } else if c == '\\' {
        seq!['\\', '\\']
    } else if c == '\n' {
        seq!['\\', 'n']
    } else if c == '\r' {
        seq!['\\', 'r']
    } else if c == '\t' {
        seq!['\\', 't']
    } else if c == '\u{8}' {
        seq!['\\', 'b']
    } else if c == '\u{c}' {
        seq!['\\', 'f']
    } else if (c as nat) < 32 {
        seq!['\\', 'u', '0', '0', hex_digit((c as nat) / 16), hex_digit((c as nat) % 16)]
    } else {
        seq![c]
    }
}

/// The characters of `s`, each escaped.
pub open spec fn escaped(s: Seq<char>) -> Seq<char>
    decreases s.len(),
{
    if s.len() == 0 {
        Seq::empty()
    } else {
        escaped(s.drop_last()) + escape_char(s.last())
    }
}

/// `s` as a JSON string.
pub open spec fn json_string(s: Seq<char>) -> Seq<char> {
    seq!['"'] + escaped(s) + seq!['"']
}

fn hex(d: u32) -> (c: char)
    requires
        d < 16,
    ensures
        c == hex_digit(d as nat),
{
    if d == 0 { '0' } else if d == 1 { '1' } else if d == 2 { '2' } else if d == 3 { '3' }
    else if d == 4 { '4' } else if d == 5 { '5' } else if d == 6 { '6' } else if d == 7 { '7' }
    else if d == 8 { '8' } else if d == 9 { '9' } else if d == 10 { 'a' } else if d == 11 { 'b' }
    else if d == 12 { 'c' } else if d == 13 { 'd' } else if d == 14 { 'e' } else { 'f' }
}

fn push_escaped_char(out: &mut String, c: char)
    ensures
        final(out)@ == old(out)@ + escape_char(c),
{
    let ghost o = out@;
    if c == '"' {
        push_char(out, '\\');
        push_char(out, '"');
        assert(out@ =~= o + seq!['\\', '"']);
    } else if c == '\\' {
        push_char(out, '\\');
        push_char(out, '\\');
        assert(out@ =~= o + seq!['\\', '\\']);
    } else if c == '\n' {
        push_char(out, '\\');
        push_char(out, 'n');
        assert(out@ =~= o + seq!['\\', 'n']);
    } else if c == '\r' {
        push_char(out, '\\');
        push_char(out, 'r');
        assert(out@ =~= o + seq!['\\', 'r']);
    } else if c == '\t' {
        push_char(out, '\\');
        push_char(out, 't');
        assert(out@ =~= o + seq!['\\', 't']);
    } else if c == '\u{8}' {
        push_char(out, '\\');
        push_char(out, 'b');
        assert(out@ =~= o + seq!['\\', 'b']);
    } else if c == '\u{c}' {
        push_char(out, '\\');
        push_char(out, 'f');
        assert(out@ =~= o + seq!['\\', 'f']);
    } else if (c as u32) < 32 {
        let v = c as u32;
        push_char(out, '\\');
        push_char(out, 'u');
        push_char(out, '0');
        push_char(out, '0');
        push_char(out, hex(v / 16));
        push_char(out, hex(v % 16));
        assert(out@ =~= o + escape_char(c));
    } else {
        push_char(out, c);
        assert(out@ =~= o + seq![c]);
    }
}

/// Appends `s` as a JSON string.
pub fn push_json_string(out: &mut String, s: &str)
    ensures
        final(out)@ == old(out)@ + json_string(s@),
{
    let cs = chars_of(s);
    let ghost o = out@;
    push_char(out, '"');
    let mut i: usize = 0;
    while i < cs.len()
        invariant
            cs@ == s@,
            i <= cs@.len(),
            out@ == o + seq!['"'] + escaped(cs@.take(i as int)),
        decreases cs@.len() - i,
    {
        assert(cs@.take(i + 1).drop_last() == cs@.take(i as int));
        push_escaped_char(out, cs[i]);
        i = i + 1;
    }
    assert(cs@.take(cs@.len() as int) == cs@);
    push_char(out, '"');
}

/// A node as a JSON object: its identifier, text, truth value and sources.
pub open spec fn node_json(n: Node) -> Seq<char> {
    "{\"id\":"@ + json_string(n.id@) + ",\"text\":"@ + json_string(n.text@) + ",\"truth_value\":"@
        + json_string(n.truth_value@) + ",\"source\":"@ + json_string(n.source@) + ",\"source_url\":"@
        + json_string(n.source_url@) + "}"@
}

/// Nodes as a JSON array of objects.
pub open spec fn nodes_json(ns: Seq<Node>) -> Seq<char> {
    "["@ + joined(ns.map_values(|n: Node| node_json(n)), ","@) + "]"@
}

/// A node's minimal line: `<id> [<truth value>]`.
pub open spec fn minimal_line(n: Node) -> Seq<char> {
    n.id@ + " ["@ + n.truth_value@ + "]"@
}

/// The JSON object of a node.
pub fn format_node_json(n: &Node) -> (r: String)
    ensures
        r@ == node_json(*n),
{
    let mut r = owned("{\"id\":");
    push_json_string(&mut r, n.id.as_str());
    r.append(",\"text\":");
    push_json_string(&mut r, n.text.as_str());
    r.append(",\"truth_value\":");
    push_json_string(&mut r, n.truth_value.as_str());
    r.append(",\"source\":");
    push_json_string(&mut r, n.source.as_str());
    r.append(",\"source_url\":");
    push_json_string(&mut r, n.source_url.as_str());
    r.append("}");
    r
}

/// The minimal line of a node.
pub fn format_node_minimal(n: &Node) -> (r: String)
    ensures
        r@ == minimal_line(*n),
{
    let mut r = owned(n.id.as_str());
    r.append(" [");
    r.append(n.truth_value.as_str());
    r.append("]");
    r
}

} // verus!
