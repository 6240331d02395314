//! JSON output: a mathematical JSON value for each symbol, the inverse
//! reading that reconstructs the symbols (the round-trip is proved), and a
//! verified renderer to the concrete JSON text.
use vstd::prelude::*;

use crate::filter::lemma_nodes_view_take;
use crate::model::{
    lemma_nodes_view_index, node_view, nodes_view, DocNode, DocNodeKind, DocNodeV, JsDocV,
    LocationV,
};
use crate::render::{kind_label, kind_label_str};
use crate::text::push_char;

verus! {

/// A JSON document, as a mathematical value.
pub ghost enum JsonV {
    Null,
    Str(Seq<char>),
    Num(u64),
    Arr(Seq<JsonV>),
    Obj(Seq<(Seq<char>, JsonV)>),
}

pub open spec fn strs_of(ts: Seq<Seq<char>>) -> Seq<JsonV>
    decreases ts.len(),
{
    if ts.len() == 0 {
        Seq::<JsonV>::empty()
    } else {
        strs_of(ts.drop_last()).push(JsonV::Str(ts.last()))
    }
}

pub open spec fn json_of_js_doc(d: JsDocV) -> JsonV {
    JsonV::Obj(
        seq![("summary"@, JsonV::Str(d.summary)), ("tags"@, JsonV::Arr(strs_of(d.tags)))],
    )
}

pub open spec fn json_of_js_doc_opt(o: Option<JsDocV>) -> JsonV {
    match o {
        Some(d) => json_of_js_doc(d),
        None => JsonV::Null,
    }
}

/// The JSON value that one documented symbol serializes to.
pub open spec fn json_of_node(v: DocNodeV) -> JsonV
    decreases v,
{
    JsonV::Obj(
        seq![
            ("name"@, JsonV::Str(v.name)),
            ("kind"@, JsonV::Str(kind_label(v.kind))),
            (
                "location"@,
                JsonV::Obj(
                    seq![
                        ("specifier"@, JsonV::Str(v.location.specifier)),
                        ("pos"@, JsonV::Num(v.location.pos)),
                    ],
                ),
            ),
            ("jsDoc"@, json_of_js_doc_opt(v.js_doc)),
            ("children"@, JsonV::Arr(json_of_nodes(v.children))),
        ],
    )
}

pub open spec fn json_of_nodes(ns: Seq<DocNodeV>) -> Seq<JsonV>
    decreases ns,
{
    if ns.len() == 0 {
        Seq::<JsonV>::empty()
    } else {
        json_of_nodes(ns.drop_last()).push(json_of_node(ns.last()))
    }
}

pub open spec fn kind_of_label(s: Seq<char>) -> Option<DocNodeKind> {
    if s == "function"@ {
        Some(DocNodeKind::Function)
    } else if s == "variable"@ {
        Some(DocNodeKind::Variable)
    } else if s == "class"@ {
        Some(DocNodeKind::Class)
    } else if s == "interface"@ {
        Some(DocNodeKind::Interface)
    } else if s == "enum"@ {
        Some(DocNodeKind::Enum)
    } else if s == "typeAlias"@ {
        Some(DocNodeKind::TypeAlias)
    } else if s == "namespace"@ {
        Some(DocNodeKind::Namespace)
    } else if s == "import"@ {
        Some(DocNodeKind::Import)
    } else {
        None
    }
}

pub open spec fn strs_back(ts: Seq<JsonV>) -> Option<Seq<Seq<char>>>
    decreases ts.len(),
{
    if ts.len() == 0 {
        Some(Seq::<Seq<char>>::empty())
    } else {
        match (strs_back(ts.drop_last()), ts.last()) {
            (Some(r), JsonV::Str(s)) => Some(r.push(s)),
            _ => None,
        }
    }
}

pub open spec fn js_doc_opt_of_json(j: JsonV) -> Option<Option<JsDocV>> {
    match j {
        JsonV::Null => Some(None),
        JsonV::Obj(ps) => {
            if ps.len() == 2 && ps[0].0 == "summary"@ && ps[1].0 == "tags"@ {
                match (ps[0].1, ps[1].1) {
                    (JsonV::Str(su), JsonV::Arr(ts)) => match strs_back(ts) {
                        Some(tags) => Some(Some(JsDocV { summary: su, tags })),
                        None => None,
                    },
                    _ => None,
                }
            } else {
                None
            }
        },
        _ => None,
    }
}

/// Reads one symbol back out of its JSON value.
pub open spec fn node_of_json(j: JsonV) -> Option<DocNodeV>
    decreases j,
{
    match j {
        JsonV::Obj(ps) => {
            if ps.len() == 5 && ps[0].0 == "name"@ && ps[1].0 == "kind"@ && ps[2].0 == "location"@
                && ps[3].0 == "jsDoc"@ && ps[4].0 == "children"@ {
                match (ps[0].1, ps[1].1, ps[2].1, ps[4].1) {
                    (JsonV::Str(nm), JsonV::Str(kl), JsonV::Obj(lps), JsonV::Arr(cs)) => {
                        if lps.len() == 2 && lps[0].0 == "specifier"@ && lps[1].0 == "pos"@ {
                            match (
                                lps[0].1,
                                lps[1].1,
                                kind_of_label(kl),
                                js_doc_opt_of_json(ps[3].1),
                                nodes_of_json(cs),
                            ) {
                                (
                                    JsonV::Str(spc),
                                    JsonV::Num(pos),
                                    Some(k),
                                    Some(jd),
                                    Some(ch),
                                ) => Some(
                                    DocNodeV {
                                        name: nm,
                                        kind: k,
                                        location: LocationV { specifier: spc, pos },
                                        js_doc: jd,
                                        children: ch,
                                    },
                                ),
                                _ => None,
                            }
                        } else {
                            None
                        }
                    },
                    _ => None,
                }
            } else {
                None
            }
        },
        _ => None,
    }
}

pub open spec fn nodes_of_json(js: Seq<JsonV>) -> Option<Seq<DocNodeV>>
    decreases js,
{
    if js.len() == 0 {
        Some(Seq::<DocNodeV>::empty())
    } else {
        match (nodes_of_json(js.drop_last()), node_of_json(js.last())) {
            (Some(r), Some(v)) => Some(r.push(v)),
            _ => None,
        }
    }
}

proof fn lemma_strs_round(ts: Seq<Seq<char>>)
    ensures
        strs_back(strs_of(ts)) == Some(ts),
    decreases ts.len(),
{
    if ts.len() == 0 {
        assert(strs_back(strs_of(ts)) == Some(Seq::<Seq<char>>::empty()));
        assert(ts =~= Seq::<Seq<char>>::empty());
    } else {
        lemma_strs_round(ts.drop_last());
        assert(strs_of(ts).drop_last() =~= strs_of(ts.drop_last()));
        assert(ts.drop_last().push(ts.last()) =~= ts);
    }
}

proof fn lemma_kind_round(k: DocNodeKind)
    ensures
        kind_of_label(kind_label(k)) == Some(k),
{
    reveal_strlit("function");
    reveal_strlit("variable");
    reveal_strlit("class");
    reveal_strlit("interface");
    reveal_strlit("enum");
    reveal_strlit("typeAlias");
    reveal_strlit("namespace");
    reveal_strlit("import");
    assert("function"@.len() == 8 && "variable"@.len() == 8 && "class"@.len() == 5
        && "interface"@.len() == 9 && "enum"@.len() == 4 && "typeAlias"@.len() == 9
        && "namespace"@.len() == 9 && "import"@.len() == 6);
    assert("variable"@[0] == 'v' && "function"@[0] == 'f');
    assert("typeAlias"@[0] == 't' && "interface"@[0] == 'i' && "namespace"@[0] == 'n');
    match k {
        DocNodeKind::Function => {
            assert(kind_of_label(kind_label(k)) == Some(k));
        },
        DocNodeKind::Variable => {
            assert(kind_of_label(kind_label(k)) == Some(k));
        },
        DocNodeKind::Class => {
            assert(kind_of_label(kind_label(k)) == Some(k));
        },
        DocNodeKind::Interface => {
            assert(kind_of_label(kind_label(k)) == Some(k));
        },
        DocNodeKind::Enum => {
            assert(kind_of_label(kind_label(k)) == Some(k));
        },
        DocNodeKind::TypeAlias => {
            assert(kind_of_label(kind_label(k)) == Some(k));
        },
        DocNodeKind::Namespace => {
            assert(kind_of_label(kind_label(k)) == Some(k));
        },
        DocNodeKind::Import => {
            assert(kind_of_label(kind_label(k)) == Some(k));
        },
    }
}

proof fn lemma_js_doc_round(o: Option<JsDocV>)
    ensures
        js_doc_opt_of_json(json_of_js_doc_opt(o)) == Some(o),
{
    match o {
        None => {},
        Some(d) => {
            lemma_strs_round(d.tags);
        },
    }
}

proof fn lemma_node_round(v: DocNodeV)
    ensures
        node_of_json(json_of_node(v)) == Some(v),
    decreases v, 1int,
{
    lemma_kind_round(v.kind);
    lemma_js_doc_round(v.js_doc);
    lemma_nodes_round(v.children);
}

proof fn lemma_nodes_round(ns: Seq<DocNodeV>)
    ensures
        nodes_of_json(json_of_nodes(ns)) == Some(ns),
    decreases ns, 2int,
{
    if ns.len() == 0 {
        assert(nodes_of_json(json_of_nodes(ns)) == Some(Seq::<DocNodeV>::empty()));
        assert(ns =~= Seq::<DocNodeV>::empty());
    } else {
        lemma_nodes_round(ns.drop_last());
        lemma_node_round(ns.last());
        assert(json_of_nodes(ns).drop_last() =~= json_of_nodes(ns.drop_last()));
        assert(ns.drop_last().push(ns.last()) =~= ns);
    }
}

/// The JSON round-trip law: reading the serialized sequence back yields
/// the very sequence that was serialized, names, kinds, locations,
/// comments and child structure included.
pub proof fn lemma_json_round_trip(ns: Seq<DocNodeV>)
    ensures
        nodes_of_json(json_of_nodes(ns)) == Some(ns),
{
    lemma_nodes_round(ns);
}

/// How one character stands in a JSON string literal.
pub open spec fn esc_char(c: char) -> Seq<char> {
    if c == '"' {
        "\\\""@
    } else if c == '\\' {
        "\\\\"@
    } else if c == '\n' {
        "\\n"@
    } else if c == '\r' {
        "\\r"@
    } else if c == '\t' {
        "\\t"@
    } else {
        seq![c]
    }
}

pub open spec fn json_escape(s: Seq<char>) -> Seq<char>
    decreases s.len(),
{
    if s.len() == 0 {
        Seq::<char>::empty()
    } else {
        json_escape(s.drop_last()) + esc_char(s.last())
    }
}

fn escape_into(s: &str, out: &mut String)
    ensures
        final(out)@ == old(out)@ + json_escape(s@),
{
    let n = s.unicode_len();
    let mut i: usize = 0;
    while i < n
        invariant
            0 <= i <= n,
            n == s@.len(),
            out@ == old(out)@ + json_escape(s@.take(i as int)),
        decreases n - i,
    {
        let c = s.get_char(i);
        proof {
            assert(s@.take(i + 1).drop_last() =~= s@.take(i as int));
            assert(s@.take(i + 1).last() == s@[i as int]);
        }
        if c == '"' {
            out.append("\\\"");
        } else if c == '\\' {
            out.append("\\\\");
        } else if c == '\n' {
            out.append("\\n");
        } else if c == '\r' {
            out.append("\\r");
        } else if c == '\t' {
            out.append("\\t");
        } else {
            push_char(out, c);
            assert(out@ =~= old(out)@ + json_escape(s@.take(i + 1)));
        }
        i = i + 1;
    }
    proof {
        assert(s@.take(n as int) =~= s@);
    }
}

/// The decimal digits of `n`.
pub open spec fn dec_str(n: nat) -> Seq<char>
    decreases n,
{
    if n < 10 {
        seq![digit(n)]
    } else {
        dec_str(n / 10).push(digit(n % 10))
    }
}

pub open spec fn digit(d: nat) -> char {
    if d == 0 {
        '0'
    } else if d == 1 {
        '1'
    } else if d == 2 {
        '2'
    } else if d == 3 {
        '3'
    } else if d == 4 {
        '4'
    } else if d == 5 {
        '5'
    } else if d == 6 {
        '6'
    } else if d == 7 {
        '7'
    } else if d == 8 {
        '8'
    } else {
        '9'
    }
}

fn digit_char(d: u64) -> (c: char)
    requires
        d < 10,
    ensures
        c == digit(d as nat),
{
    if d == 0 {
        '0'
    } else if d == 1 {
        '1'
    } else if d == 2 {
        '2'
    } else if d == 3 {
        '3'
    } else if d == 4 {
        '4'
    } else if d == 5 {
        '5'
    } else if d == 6 {
        '6'
    } else if d == 7 {
        '7'
    } else if d == 8 {
        '8'
    } else {
        '9'
    }
}

/// Writes `n` in decimal.
fn u64_dec(n: u64) -> (r: String)
    ensures
        r@ == dec_str(n as nat),
    decreases n,
{
    if n < 10 {
        let mut s = String::new();
        push_char(&mut s, digit_char(n));
        assert(s@ =~= dec_str(n as nat));
        s
    } else {
        let mut s = u64_dec(n / 10);
        push_char(&mut s, digit_char(n % 10));
        s
    }
}

/// The JSON text of a parsed documentation comment.
pub open spec fn js_doc_json_str(d: JsDocV) -> Seq<char> {
    "{\"summary\":\""@ + json_escape(d.summary) + "\",\"tags\":["@ + tags_inner(d.tags) + "]}"@
}

pub open spec fn tags_inner(ts: Seq<Seq<char>>) -> Seq<char>
    decreases ts.len(),
{
    if ts.len() == 0 {
        Seq::<char>::empty()
    } else if ts.len() == 1 {
        "\""@ + json_escape(ts[0]) + "\""@
    } else {
        tags_inner(ts.drop_last()) + ",\""@ + json_escape(ts.last()) + "\""@
    }
}

/// The JSON text of one symbol: the concrete form of `json_of_node`.
pub open spec fn json_node_str(v: DocNodeV) -> Seq<char>
    decreases v, 1int,
{
    "{\"name\":\""@ + json_escape(v.name) + "\",\"kind\":\""@ + kind_label(v.kind)
        + "\",\"location\":{\"specifier\":\""@ + json_escape(v.location.specifier) + "\",\"pos\":"@
        + dec_str(v.location.pos as nat) + "},\"jsDoc\":"@ + (match v.js_doc {
        Some(d) => js_doc_json_str(d),
        None => "null"@,
    }) + ",\"children\":["@ + json_nodes_inner(v.children) + "]}"@
}

pub open spec fn json_nodes_inner(ns: Seq<DocNodeV>) -> Seq<char>
    decreases ns, 2int,
{
    if ns.len() == 0 {
        Seq::<char>::empty()
    } else if ns.len() == 1 {
        json_node_str(ns[0])
    } else {
        json_nodes_inner(ns.drop_last()) + ","@ + json_node_str(ns.last())
    }
}

/// The JSON document of a whole symbol sequence.
pub open spec fn json_docs_str(ns: Seq<DocNodeV>) -> Seq<char> {
    "["@ + json_nodes_inner(ns) + "]"@
}

fn emit_js_doc(d: &crate::model::JsDoc, out: &mut String)
    ensures
        final(out)@ == old(out)@ + js_doc_json_str(crate::model::js_doc_view(*d)),
{
    out.append("{\"summary\":\"");
    escape_into(d.summary.as_str(), out);
    out.append("\",\"tags\":[");
    let n = d.tags.len();
    let ghost tviews = d.tags@.map_values(|t: String| t@);
    let ghost base = out@;
    let mut i: usize = 0;
    while i < n
        invariant
            0 <= i <= n,
            n == d.tags@.len(),
            tviews == d.tags@.map_values(|t: String| t@),
            out@ == base + tags_inner(tviews.take(i as int)),
        decreases n - i,
    {
        proof {
            assert(tviews.take(i + 1).drop_last() =~= tviews.take(i as int));
            assert(tviews.take(i + 1).last() == tviews[i as int]);
            assert(tviews[i as int] == (d.tags@[i as int])@);
        }
        if i > 0 {
            out.append(",\"");
        } else {
            out.append("\"");
        }
        escape_into(d.tags[i].as_str(), out);
        out.append("\"");
        proof {
            assert(out@ =~= base + tags_inner(tviews.take(i + 1)));
        }
        i = i + 1;
    }
    out.append("]}");
    proof {
        assert(tviews.take(n as int) =~= tviews);
        assert(final(out)@ =~= old(out)@ + js_doc_json_str(crate::model::js_doc_view(*d)));
    }
}

fn emit_node(v: &DocNode, out: &mut String)
    ensures
        final(out)@ == old(out)@ + json_node_str(node_view(*v)),
    decreases *v,
{
    out.append("{\"name\":\"");
    escape_into(v.name.as_str(), out);
    out.append("\",\"kind\":\"");
    let lbl = kind_label_str(v.kind);
    out.append(lbl.as_str());
    out.append("\",\"location\":{\"specifier\":\"");
    escape_into(v.location.specifier.as_str(), out);
    out.append("\",\"pos\":");
    let num = u64_dec(v.location.pos);
    out.append(num.as_str());
    out.append("},\"jsDoc\":");
    match v.js_doc.as_ref() {
        Some(d) => {
            emit_js_doc(d, out);
        },
        None => {
            out.append("null");
        },
    }
    out.append(",\"children\":[");
    let ghost base = out@;
    let n = v.children.len();
    proof {
        lemma_nodes_view_index(v.children@);
    }
    let mut i: usize = 0;
    while i < n
        invariant
            0 <= i <= n,
            n == v.children@.len(),
            nodes_view(v.children@).len() == v.children@.len(),
            out@ == base + json_nodes_inner(nodes_view(v.children@).take(i as int)),
        decreases n - i,
    {
        proof {
            lemma_nodes_view_take(v.children@, i as int);
            lemma_nodes_view_take(v.children@, i + 1);
            assert(nodes_view(v.children@).take(i + 1).drop_last() =~= nodes_view(
                v.children@,
            ).take(i as int));
            lemma_nodes_view_index(v.children@);
            assert(nodes_view(v.children@).take(i + 1).last() == node_view(v.children@[i as int]));
            assert(nodes_view(v.children@).take(i + 1)[0] == node_view(v.children@[0]));
        }
        if i > 0 {
            out.append(",");
        }
        emit_node(&v.children[i], out);
        proof {
            assert(out@ =~= base + json_nodes_inner(nodes_view(v.children@).take(i + 1)));
        }
        i = i + 1;
    }
    out.append("]}");
    proof {
        assert(nodes_view(v.children@).take(n as int) =~= nodes_view(v.children@));
        assert(node_view(*v).children == nodes_view(v.children@));
        assert(final(out)@ =~= old(out)@ + json_node_str(node_view(*v)));
    }
}

/// Renders the symbol sequence as one JSON document.
pub fn render_json(ns: &Vec<DocNode>) -> (r: String)
    ensures
        r@ == json_docs_str(nodes_view(ns@)),
{
    let mut out = String::new();
    out.append("[");
    let ghost base = out@;
    let n = ns.len();
    proof {
        lemma_nodes_view_index(ns@);
    }
    let mut i: usize = 0;
    while i < n
        invariant
            0 <= i <= n,
            n == ns@.len(),
            nodes_view(ns@).len() == ns@.len(),
            out@ == base + json_nodes_inner(nodes_view(ns@).take(i as int)),
        decreases n - i,
    {
        proof {
            lemma_nodes_view_take(ns@, i as int);
            lemma_nodes_view_take(ns@, i + 1);
            assert(nodes_view(ns@).take(i + 1).drop_last() =~= nodes_view(ns@).take(i as int));
            lemma_nodes_view_index(ns@);
            assert(nodes_view(ns@).take(i + 1).last() == node_view(ns@[i as int]));
            assert(nodes_view(ns@).take(i + 1)[0] == node_view(ns@[0]));
        }
        if i > 0 {
            out.append(",");
        }
        emit_node(&ns[i], &mut out);
        proof {
            assert(out@ =~= base + json_nodes_inner(nodes_view(ns@).take(i + 1)));
        }
        i = i + 1;
    }
    out.append("]");
    proof {
        assert(nodes_view(ns@).take(n as int) =~= nodes_view(ns@));
        assert(out@ =~= json_docs_str(nodes_view(ns@)));
    }
    out
}

} // verus!
