//! The data model: media types, declarations as the declared parser hands
//! them over, and the documented-symbol tree (`DocNode`) together with its
//! mathematical view.
use vstd::prelude::*;

use crate::text::{join_lines, push_char, split, split_chars, starts_with};

verus! {

/// Kind of a documented symbol.
#[derive(Clone, Copy, PartialEq, Eq, Structural, Debug)]
pub enum DocNodeKind {
    Function,
    Variable,
    Class,
    Interface,
    Enum,
    TypeAlias,
    Namespace,
    Import,
}

/// Classification of a module's content.
#[derive(Clone, Copy, PartialEq, Eq, Structural, Debug)]
pub enum MediaType {
    TypeScript,
    JavaScript,
    Dts,
    Json,
    Unknown,
}

/// The media type that a specifier's file extension announces.
pub open spec fn media_type_of(s: Seq<char>) -> MediaType {
    if ".d.ts"@.is_suffix_of(s) {
        MediaType::Dts
    } else if ".ts"@.is_suffix_of(s) {
        MediaType::TypeScript
    } else if ".js"@.is_suffix_of(s) || ".mjs"@.is_suffix_of(s) {
        MediaType::JavaScript
    } else if ".json"@.is_suffix_of(s) {
        MediaType::Json
    } else {
        MediaType::Unknown
    }
}

/// Determines a module's media type from its specifier.
pub fn media_type_for(specifier: &str) -> (r: MediaType)
    ensures
        r == media_type_of(specifier@),
{
    if crate::text::ends_with(specifier, ".d.ts") {
        MediaType::Dts
    } else if crate::text::ends_with(specifier, ".ts") {
        MediaType::TypeScript
    } else if crate::text::ends_with(specifier, ".js") || crate::text::ends_with(specifier, ".mjs") {
        MediaType::JavaScript
    } else if crate::text::ends_with(specifier, ".json") {
        MediaType::Json
    } else {
        MediaType::Unknown
    }
}

/// A parsed documentation comment: free text, then tagged annotation lines.
#[derive(Debug)]
pub struct JsDoc {
    pub summary: String,
    pub tags: Vec<String>,
}

/// Mathematical view of a documentation comment.
pub ghost struct JsDocV {
    pub summary: Seq<char>,
    pub tags: Seq<Seq<char>>,
}

pub open spec fn js_doc_view(d: JsDoc) -> JsDocV {
    JsDocV { summary: d.summary@, tags: d.tags@.map_values(|t: String| t@) }
}

/// A line that opens a tagged annotation.
pub open spec fn tag_line(l: Seq<char>) -> bool {
    "@"@.is_prefix_of(l)
}

/// Index of the first tag line, or the number of lines when there is none.
pub open spec fn tag_split_point(lines: Seq<Seq<char>>) -> int
    decreases lines.len(),
{
    if lines.len() == 0 {
        0
    } else if tag_line(lines[0]) {
        0
    } else {
        1 + tag_split_point(lines.drop_first())
    }
}

pub proof fn lemma_tag_split_point_at(lines: Seq<Seq<char>>, k: int)
    requires
        0 <= k <= lines.len(),
        forall|j: int| 0 <= j < k ==> !tag_line(#[trigger] lines[j]),
        k < lines.len() ==> tag_line(lines[k]),
    ensures
        tag_split_point(lines) == k,
    decreases lines.len(),
{
    if lines.len() == 0 {
    } else if k == 0 {
    } else {
        lemma_tag_split_point_at(lines.drop_first(), k - 1);
    }
}

/// What parsing a raw documentation comment yields: the lines before the
/// first `@`-line, joined back, as the summary; that line and all lines
/// after it as the tags.
pub open spec fn js_doc_of(raw: Seq<char>) -> JsDocV {
    let lines = split_chars(raw, '\n');
    let k = tag_split_point(lines);
    JsDocV { summary: join_lines(lines.take(k)), tags: lines.skip(k) }
}

/// Parses a raw documentation comment into summary text and tag lines.
pub fn parse_js_doc(raw: &str) -> (r: JsDoc)
    ensures
        js_doc_view(r) == js_doc_of(raw@),
{
    let lines = split(raw, '\n');
    let n = lines.len();
    let ghost lviews = lines@.map_values(|t: String| t@);
    let mut k: usize = 0;
    while k < n && !starts_with(lines[k].as_str(), "@")
        invariant
            0 <= k <= n,
            n == lines@.len(),
            lviews == lines@.map_values(|t: String| t@),
            forall|j: int| 0 <= j < k ==> !tag_line(#[trigger] lviews[j]),
        decreases n - k,
    {
        k = k + 1;
    }
    proof {
        lemma_tag_split_point_at(lviews, k as int);
    }
    let mut summary = String::new();
    let mut i: usize = 0;
    while i < k
        invariant
            0 <= i <= k <= n,
            n == lines@.len(),
            lviews == lines@.map_values(|t: String| t@),
            summary@ == join_lines(lviews.take(i as int)),
        decreases k - i,
    {
        if i > 0 {
            push_char(&mut summary, '\n');
        }
        summary.append(lines[i].as_str());
        assert(lviews.take(i + 1).drop_last() =~= lviews.take(i as int));
        assert(lviews.take(i + 1).last() == lviews[i as int]);
        i = i + 1;
    }
    let mut tags: Vec<String> = Vec::new();
    let mut j: usize = k;
    while j < n
        invariant
            0 <= k <= j <= n,
            n == lines@.len(),
            lviews == lines@.map_values(|t: String| t@),
            tags@.len() == j - k,
            forall|idx: int| 0 <= idx < j - k ==> (#[trigger] tags@[idx])@ == lviews[k + idx],
        decreases n - j,
    {
        let t = lines[j].clone();
        assert(t@ == lviews[j as int]);
        tags.push(t);
        j = j + 1;
    }
    proof {
        assert(tags@.map_values(|t: String| t@) =~= lviews.skip(k as int));
        assert(lviews.take(k as int) =~= lviews.take(tag_split_point(lviews)));
    }
    JsDoc { summary, tags }
}

/// Where a symbol is declared: the canonical specifier of its module and a
/// position inside that module's source.
#[derive(Debug)]
pub struct Location {
    pub specifier: String,
    pub pos: u64,
}

pub ghost struct LocationV {
    pub specifier: Seq<char>,
    pub pos: u64,
}

/// One top-level or member declaration, as the declared parser hands it
/// over: no location yet, and the documentation comment still raw.
#[derive(Debug)]
pub struct Decl {
    pub name: String,
    pub kind: DocNodeKind,
    pub exported: bool,
    pub pos: u64,
    pub raw_doc: Option<String>,
    pub members: Vec<Decl>,
}

/// One documented symbol and its nested members.
#[derive(Debug)]
pub struct DocNode {
    pub name: String,
    pub kind: DocNodeKind,
    pub location: Location,
    pub js_doc: Option<JsDoc>,
    pub children: Vec<DocNode>,
}

/// Mathematical view of a documented symbol.
pub ghost struct DocNodeV {
    pub name: Seq<char>,
    pub kind: DocNodeKind,
    pub location: LocationV,
    pub js_doc: Option<JsDocV>,
    pub children: Seq<DocNodeV>,
}

pub open spec fn node_view(n: DocNode) -> DocNodeV
    decreases n,
{
    proof {
        broadcast use vstd::std_specs::vec::group_vec_axioms;

        assert(decreases_to!(n => n.children));
    }
    DocNodeV {
        name: n.name@,
        kind: n.kind,
        location: LocationV { specifier: n.location.specifier@, pos: n.location.pos },
        js_doc: match n.js_doc {
            Some(d) => Some(js_doc_view(d)),
            None => None,
        },
        children: nodes_view(n.children@),
    }
}

pub open spec fn nodes_view(ns: Seq<DocNode>) -> Seq<DocNodeV>
    decreases ns,
{
    if ns.len() == 0 {
        Seq::<DocNodeV>::empty()
    } else {
        nodes_view(ns.drop_last()).push(node_view(ns.last()))
    }
}

pub proof fn lemma_nodes_view_index(ns: Seq<DocNode>)
    ensures
        nodes_view(ns).len() == ns.len(),
        forall|i: int| 0 <= i < ns.len() ==> nodes_view(ns)[i] == node_view(#[trigger] ns[i]),
    decreases ns.len(),
{
    if ns.len() > 0 {
        lemma_nodes_view_index(ns.drop_last());
        assert forall|i: int| 0 <= i < ns.len() implies nodes_view(ns)[i] == node_view(ns[i]) by {
            if i < ns.len() - 1 {
                assert(ns.drop_last()[i] == ns[i]);
            } else {
                assert(ns.last() == ns[i]);
            }
        }
    }
}

/// The view of the `DocNode` that a declaration in the module named by
/// `specifier` gives rise to: members become children, the raw comment is
/// parsed, and the location points at the declaring module.
pub open spec fn decl_node_view(d: Decl, specifier: Seq<char>) -> DocNodeV
    decreases d,
{
    proof {
        broadcast use vstd::std_specs::vec::group_vec_axioms;

        assert(decreases_to!(d => d.members));
    }
    DocNodeV {
        name: d.name@,
        kind: d.kind,
        location: LocationV { specifier: specifier, pos: d.pos },
        js_doc: match d.raw_doc {
            Some(raw) => Some(js_doc_of(raw@)),
            None => None,
        },
        children: decl_nodes_view(d.members@, specifier),
    }
}

pub open spec fn decl_nodes_view(ds: Seq<Decl>, specifier: Seq<char>) -> Seq<DocNodeV>
    decreases ds,
{
    if ds.len() == 0 {
        Seq::<DocNodeV>::empty()
    } else {
        decl_nodes_view(ds.drop_last(), specifier).push(decl_node_view(ds.last(), specifier))
    }
}

pub proof fn lemma_decl_nodes_view_index(ds: Seq<Decl>, specifier: Seq<char>)
    ensures
        decl_nodes_view(ds, specifier).len() == ds.len(),
        forall|i: int| 0 <= i < ds.len() ==> decl_nodes_view(ds, specifier)[i] == decl_node_view(
            #[trigger] ds[i],
            specifier,
        ),
    decreases ds.len(),
{
    if ds.len() > 0 {
        lemma_decl_nodes_view_index(ds.drop_last(), specifier);
        assert forall|i: int| 0 <= i < ds.len() implies decl_nodes_view(ds, specifier)[i]
            == decl_node_view(ds[i], specifier) by {
            if i < ds.len() - 1 {
                assert(ds.drop_last()[i] == ds[i]);
            } else {
                assert(ds.last() == ds[i]);
            }
        }
    }
}

/// Builds the `DocNode` for a declaration of the module named by `specifier`.
pub fn decl_to_node(d: &Decl, specifier: &String) -> (r: DocNode)
    ensures
        node_view(r) == decl_node_view(*d, specifier@),
    decreases *d,
{
    let js_doc = match d.raw_doc.as_ref() {
        Some(raw) => Some(parse_js_doc(raw.as_str())),
        None => None,
    };
    let mut children: Vec<DocNode> = Vec::new();
    let n = d.members.len();
    let mut i: usize = 0;
    while i < n
        invariant
            0 <= i <= n,
            n == d.members@.len(),
            children@.len() == i,
            forall|j: int| 0 <= j < i ==> node_view(#[trigger] children@[j]) == decl_node_view(
                d.members@[j],
                specifier@,
            ),
        decreases n - i,
    {
        let c = decl_to_node(&d.members[i], specifier);
        children.push(c);
        i = i + 1;
    }
    let r = DocNode {
        name: d.name.clone(),
        kind: d.kind,
        location: Location { specifier: specifier.clone(), pos: d.pos },
        js_doc,
        children,
    };
    proof {
        lemma_nodes_view_index(children@);
        lemma_decl_nodes_view_index(d.members@, specifier@);
        assert forall|j: int| 0 <= j < children@.len() implies nodes_view(children@)[j]
            == decl_nodes_view(d.members@, specifier@)[j] by {
            assert(node_view(children@[j]) == decl_node_view(d.members@[j], specifier@));
        }
        assert(node_view(r).children =~= decl_node_view(*d, specifier@).children);
    }
    assert(node_view(r) == decl_node_view(*d, specifier@));
    r
}

/// A copy of a documented symbol, equal to the original in its view.
pub fn clone_doc_node(n: &DocNode) -> (r: DocNode)
    ensures
        node_view(r) == node_view(*n),
    decreases *n,
{
    let js_doc = match n.js_doc.as_ref() {
        Some(d) => {
            let mut tags: Vec<String> = Vec::new();
            let tn = d.tags.len();
            let mut i: usize = 0;
            while i < tn
                invariant
                    0 <= i <= tn,
                    tn == d.tags@.len(),
                    tags@.len() == i,
                    forall|idx: int| 0 <= idx < i ==> (#[trigger] tags@[idx])@ == (d.tags@[idx])@,
                decreases tn - i,
            {
                let t = d.tags[i].clone();
                assert(t@ == (d.tags@[i as int])@);
                tags.push(t);
                i = i + 1;
            }
            proof {
                assert(tags@.map_values(|t: String| t@) =~= d.tags@.map_values(|t: String| t@));
            }
            let c = JsDoc { summary: d.summary.clone(), tags };
            assert(js_doc_view(c) == js_doc_view(*d));
            Some(c)
        },
        None => None,
    };
    let mut children: Vec<DocNode> = Vec::new();
    let cn = n.children.len();
    let mut i: usize = 0;
    while i < cn
        invariant
            0 <= i <= cn,
            cn == n.children@.len(),
            children@.len() == i,
            forall|j: int| 0 <= j < i ==> node_view(#[trigger] children@[j]) == node_view(
                n.children@[j],
            ),
        decreases cn - i,
    {
        let c = clone_doc_node(&n.children[i]);
        children.push(c);
        i = i + 1;
    }
    let r = DocNode {
        name: n.name.clone(),
        kind: n.kind,
        location: Location { specifier: n.location.specifier.clone(), pos: n.location.pos },
        js_doc,
        children,
    };
    proof {
        lemma_nodes_view_index(children@);
        lemma_nodes_view_index(n.children@);
        assert forall|j: int| 0 <= j < children@.len() implies nodes_view(children@)[j]
            == nodes_view(n.children@)[j] by {
            assert(node_view(children@[j]) == node_view(n.children@[j]));
        }
        assert(node_view(r).children =~= node_view(*n).children);
    }
    assert(node_view(r) == node_view(*n));
    r
}

} // verus!
