//! Text rendering: an indented tree, one line per symbol, with the
//! documentation summary beneath it.
use vstd::prelude::*;

use crate::filter::lemma_nodes_view_take;
use crate::model::{lemma_nodes_view_index, node_view, nodes_view, DocNode, DocNodeKind, DocNodeV};

verus! {

pub open spec fn kind_label(k: DocNodeKind) -> Seq<char> {
    match k {
        DocNodeKind::Function => "function"@,
        DocNodeKind::Variable => "variable"@,
        DocNodeKind::Class => "class"@,
        DocNodeKind::Interface => "interface"@,
        DocNodeKind::Enum => "enum"@,
        DocNodeKind::TypeAlias => "typeAlias"@,
        DocNodeKind::Namespace => "namespace"@,
        DocNodeKind::Import => "import"@,
    }
}

pub fn kind_label_str(k: DocNodeKind) -> (r: String)
    ensures
        r@ == kind_label(k),
{
    match k {
        DocNodeKind::Function => String::from_str("function"),
        DocNodeKind::Variable => String::from_str("variable"),
        DocNodeKind::Class => String::from_str("class"),
        DocNodeKind::Interface => String::from_str("interface"),
        DocNodeKind::Enum => String::from_str("enum"),
        DocNodeKind::TypeAlias => String::from_str("typeAlias"),
        DocNodeKind::Namespace => String::from_str("namespace"),
        DocNodeKind::Import => String::from_str("import"),
    }
}

/// The line (or two, with a summary) that one symbol prints as.
pub open spec fn node_head_text(v: DocNodeV, indent: Seq<char>) -> Seq<char> {
    indent + kind_label(v.kind) + " "@ + v.name + "\n"@ + (match v.js_doc {
        Some(d) => indent + "  "@ + d.summary + "\n"@,
        None => Seq::<char>::empty(),
    })
}

/// One symbol with its members, each line two spaces deeper.
pub open spec fn render_node_text(v: DocNodeV, indent: Seq<char>) -> Seq<char>
    decreases v,
{
    node_head_text(v, indent) + render_nodes_text(v.children, indent + "  "@)
}

pub open spec fn render_nodes_text(ns: Seq<DocNodeV>, indent: Seq<char>) -> Seq<char>
    decreases ns,
{
    if ns.len() == 0 {
        Seq::<char>::empty()
    } else {
        render_nodes_text(ns.drop_last(), indent) + render_node_text(ns.last(), indent)
    }
}

fn render_node_exec(v: &DocNode, indent: &String, out: &mut String)
    ensures
        final(out)@ == old(out)@ + render_node_text(node_view(*v), indent@),
    decreases *v,
{
    let ghost start = out@;
    out.append(indent.as_str());
    let lbl = kind_label_str(v.kind);
    out.append(lbl.as_str());
    out.append(" ");
    out.append(v.name.as_str());
    out.append("\n");
    match v.js_doc.as_ref() {
        Some(d) => {
            out.append(indent.as_str());
            out.append("  ");
            out.append(d.summary.as_str());
            out.append("\n");
        },
        None => {},
    }
    assert(out@ =~= start + node_head_text(node_view(*v), indent@));
    let mut child_indent = indent.clone();
    child_indent.append("  ");
    let ghost head_done = out@;
    let n = v.children.len();
    proof {
        lemma_nodes_view_index(v.children@);
    }
    let mut i: usize = 0;
    while i < n
        invariant
            0 <= i <= n,
            n == v.children@.len(),
            nodes_view(v.children@).len() == v.children@.len(),
            child_indent@ == indent@ + "  "@,
            out@ == head_done + render_nodes_text(
                nodes_view(v.children@).take(i as int),
                child_indent@,
            ),
        decreases n - i,
    {
        proof {
            lemma_nodes_view_take(v.children@, i as int);
            lemma_nodes_view_take(v.children@, i + 1);
            assert(nodes_view(v.children@).take(i + 1).drop_last() =~= nodes_view(
                v.children@,
            ).take(i as int));
            lemma_nodes_view_index(v.children@);
            assert(nodes_view(v.children@).take(i + 1).last() == node_view(v.children@[i as int]));
        }
        let ghost before = out@;
        render_node_exec(&v.children[i], &child_indent, out);
        proof {
            assert(out@ =~= head_done + render_nodes_text(
                nodes_view(v.children@).take(i + 1),
                child_indent@,
            ));
        }
        i = i + 1;
    }
    proof {
        assert(nodes_view(v.children@).take(n as int) =~= nodes_view(v.children@));
        assert(node_view(*v).children == nodes_view(v.children@));
        assert(final(out)@ =~= old(out)@ + render_node_text(node_view(*v), indent@));
    }
}

/// Renders the forest as an indented text tree.
pub fn render_text(ns: &Vec<DocNode>) -> (r: String)
    ensures
        r@ == render_nodes_text(nodes_view(ns@), Seq::<char>::empty()),
{
    let mut out = String::new();
    let indent = String::new();
    let n = ns.len();
    proof {
        lemma_nodes_view_index(ns@);
    }
    let mut i: usize = 0;
    while i < n
        invariant
            0 <= i <= n,
            n == ns@.len(),
            nodes_view(ns@).len() == ns@.len(),
            indent@ == Seq::<char>::empty(),
            out@ == render_nodes_text(nodes_view(ns@).take(i as int), Seq::<char>::empty()),
        decreases n - i,
    {
        proof {
            lemma_nodes_view_take(ns@, i as int);
            lemma_nodes_view_take(ns@, i + 1);
            assert(nodes_view(ns@).take(i + 1).drop_last() =~= nodes_view(ns@).take(i as int));
            lemma_nodes_view_index(ns@);
            assert(nodes_view(ns@).take(i + 1).last() == node_view(ns@[i as int]));
        }
        render_node_exec(&ns[i], &indent, &mut out);
        i = i + 1;
    }
    proof {
        assert(nodes_view(ns@).take(n as int) =~= nodes_view(ns@));
    }
    out
}

} // verus!
