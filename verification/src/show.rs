//! The detail of one node: its text, its justifications and its dependents.
use vstd::prelude::*;
use crate::network::{Justification, Network, Node, get_dependents, justs_of, node_lookup};
use crate::text::{decimal, join, joined, owned, push_decimal, str_eq, truncate, truncated, views};

verus! {

/// The heading of a node's detail: `<id> [<truth value>]` and its text.
pub open spec fn node_detail(n: Node) -> Seq<char> {
    n.id@ + " ["@ + n.truth_value@ + "]\n  "@ + n.text@ + "\n"@
}

/// The line for the `i`-th justification: its type and antecedents, the
/// outlist after `unless` when there is one, the label when there is one.
pub open spec fn justification_line(i: nat, j: Justification) -> Seq<char> {
    let base = "    ["@ + decimal(i) + "] "@ + j.jtype@ + ": "@ + joined(views(j.antecedents@), ", "@);
    let with_out = if j.outlist@.len() > 0 {
        base + " (unless: "@ + joined(views(j.outlist@), ", "@) + ")"@
    } else {
        base
    };
    let with_label = if j.label@.len() > 0 {
        with_out + " ["@ + j.label@ + "]"@
    } else {
        with_out
    };
    with_label + "\n"@
}

/// The lines for the justifications `js`, numbered from 0.
pub open spec fn justification_lines(js: Seq<Justification>) -> Seq<char>
    decreases js.len(),
{
    if js.len() == 0 {
        Seq::empty()
    } else {
        justification_lines(js.drop_last()) + justification_line((js.len() - 1) as nat, js.last())
    }
}

/// The lines for the dependents that are stored.
pub open spec fn dependent_lines(net: Network, ds: Seq<Seq<char>>) -> Seq<char>
    decreases ds.len(),
{
    if ds.len() == 0 {
        Seq::empty()
    } else {
        dependent_lines(net, ds.drop_last()) + match node_lookup(net.nodes@, ds.last()) {
            Some(n) => "    "@ + ds.last() + " ["@ + n.truth_value@ + "]: "@ + truncated(n.text@, 60) + "\n"@,
            None => Seq::empty(),
        }
    }
}

/// The detail shown for `id`: its heading, its justifications when it has
/// any, and its dependents when it has any.
pub open spec fn show_text(net: Network, id: Seq<char>) -> Seq<char> {
    match node_lookup(net.nodes@, id) {
        None => "Node not found: "@ + id,
        Some(n) => {
            let js = net.justs(id);
            let ds = net.dependent_ids(id);
            node_detail(n) + (if js.len() > 0 {
                "  Justifications:\n"@ + justification_lines(js)
            } else {
                Seq::empty()
            }) + (if ds.len() > 0 {
                "\n  Dependents:\n"@ + dependent_lines(net, ds)
            } else {
                Seq::empty()
            })
        },
    }
}

/// Appends the line for the `i`-th justification.
fn append_justification_line(out: &mut String, i: usize, j: &Justification)
    ensures
        final(out)@ == old(out)@ + justification_line(i as nat, *j),
{
    out.append("    [");
    push_decimal(out, i);
    out.append("] ");
    out.append(j.jtype.as_str());
    out.append(": ");
    let ants = join(&j.antecedents, ", ");
    out.append(ants.as_str());
    if j.outlist.len() > 0 {
        out.append(" (unless: ");
        let outs = join(&j.outlist, ", ");
        out.append(outs.as_str());
        out.append(")");
    }
    if j.label.as_str().unicode_len() > 0 {
        out.append(" [");
        out.append(j.label.as_str());
        out.append("]");
    }
    out.append("\n");
}

/// The detail of `node_id`: heading, justifications and dependents.
pub fn show_impl(net: &Network, node_id: &str) -> (r: String)
    ensures
        r@ == show_text(*net, node_id@),
{
    let k = match net.find_node(node_id) {
        None => {
            let mut out = owned("Node not found: ");
            out.append(node_id);
            return out;
        },
        Some(k) => k,
    };
    let n = &net.nodes[k];
    let mut out = owned(n.id.as_str());
    out.append(" [");
    out.append(n.truth_value.as_str());
    out.append("]\n  ");
    out.append(n.text.as_str());
    out.append("\n");
    let ghost head = out@;
    if net.has_justification(node_id) {
        out.append("  Justifications:\n");
        let ghost js = net.justifications@;
        let ghost start = out@;
        let mut count: usize = 0;
        let mut i: usize = 0;
        while i < net.justifications.len()
            invariant
                js == net.justifications@,
                i <= js.len(),
                count == justs_of(js.take(i as int), node_id@).len(),
                count <= i,
                out@ == start + justification_lines(justs_of(js.take(i as int), node_id@)),
            decreases js.len() - i,
        {
            assert(js.take(i + 1).drop_last() == js.take(i as int));
            let j = &net.justifications[i];
            if str_eq(j.node_id.as_str(), node_id) {
                let ghost before = justs_of(js.take(i as int), node_id@);
                assert(justs_of(js.take(i + 1), node_id@) == before.push(*j));
                assert(before.push(*j).drop_last() == before);
                append_justification_line(&mut out, count, j);
                count = count + 1;
            }
            i = i + 1;
        }
        assert(js.take(js.len() as int) == js);
    } else {
        assert(out@ == head + Seq::<char>::empty());
    }
    let ghost mid = out@;
    let deps = get_dependents(net, node_id);
    if deps.len() > 0 {
        out.append("\n  Dependents:\n");
        let ghost ds = views(deps@);
        let ghost start = out@;
        let mut i: usize = 0;
        while i < deps.len()
            invariant
                ds == views(deps@),
                i <= ds.len(),
                out@ == start + dependent_lines(*net, ds.take(i as int)),
            decreases ds.len() - i,
        {
            assert(ds.take(i + 1).drop_last() == ds.take(i as int));
            let d = &deps[i];
            match net.find_node(d.as_str()) {
                Some(m) => {
                    let dn = &net.nodes[m];
                    out.append("    ");
                    out.append(d.as_str());
                    out.append(" [");
                    out.append(dn.truth_value.as_str());
                    out.append("]: ");
                    let short = truncate(dn.text.as_str(), 60);
                    out.append(short.as_str());
                    out.append("\n");
                },
                None => {},
            }
            i = i + 1;
        }
        assert(ds.take(ds.len() as int) == ds);
    } else {
        assert(out@ == mid + Seq::<char>::empty());
    }
    out
}

} // verus!
