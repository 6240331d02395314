//! Documentation generation for a module ecosystem: resolve the dependency
//! graph reachable from a root specifier, extract every exported
//! declaration with its documentation comment, flatten re-export chains,
//! and render the symbol tree as text or JSON, optionally narrowed by a
//! dotted-path name query.
pub mod builder;
pub mod docs;
pub mod filter;
pub mod graph;
pub mod json;
pub mod model;
pub mod render;
pub mod resolve;
pub mod text;
pub mod urls;

use vstd::prelude::*;

use crate::builder::{edge_matches, lookup_or_not_found, opt_str_view, slot_matches};
use crate::docs::{
    all_clean, broken_at, chases_first_named, entry_at, exported_decl_nodes, first_edge_broken,
    named_surface, originates, owed_prefix, parse_with_reexports, DocError,
};
use crate::filter::find_by_query;
use crate::graph::{
    linked, LoadOutcome, MemoryLoader, ModuleGraph, ModuleSlot, ModuleSource, Reexport,
};
use crate::json::json_docs_str;
use crate::model::{
    decl_to_node, lemma_nodes_view_index, node_view, nodes_view, Decl, DocNode, DocNodeKind,
    DocNodeV,
};
use crate::render::render_nodes_text;
use crate::resolve::{DocResolver, ImportMap};
use crate::urls::{parse_url, url_canon};

verus! {

/// The canonical specifier under which the built-in declarations are
/// documented.
pub fn builtin_specifier() -> (r: String)
    ensures
        r@ == "deno://lib.deno.d.ts"@,
{
    String::from_str("deno://lib.deno.d.ts")
}

/// The virtual specifier of the synthetic root that re-exports the module
/// being documented.
pub fn synthetic_root_specifier() -> (r: String)
    ensures
        r@ == "moddoc://root"@,
{
    String::from_str("moddoc://root")
}

/// Direct mode, for the built-in declarations: the given declarations
/// become the symbol tree, located at the built-in specifier.
pub fn document_builtin(decls: &Vec<Decl>, include_private: bool) -> (r: Vec<DocNode>)
    ensures
        nodes_view(r@) == exported_decl_nodes(decls@, "deno://lib.deno.d.ts"@, include_private),
{
    let spec_name = builtin_specifier();
    let mut out: Vec<DocNode> = Vec::new();
    let n = decls.len();
    let mut i: usize = 0;
    while i < n
        invariant
            0 <= i <= n,
            n == decls@.len(),
            spec_name@ == "deno://lib.deno.d.ts"@,
            nodes_view(out@) == exported_decl_nodes(
                decls@.take(i as int),
                "deno://lib.deno.d.ts"@,
                include_private,
            ),
        decreases n - i,
    {
        proof {
            assert(decls@.take(i + 1).drop_last() =~= decls@.take(i as int));
            assert(decls@.take(i + 1).last() == decls@[i as int]);
        }
        let d = &decls[i];
        if d.exported || include_private {
            let node = decl_to_node(d, &spec_name);
            proof {
                assert(nodes_view(out@.push(node)) == nodes_view(out@).push(node_view(node))) by {
                    assert(out@.push(node).drop_last() =~= out@);
                    assert(out@.push(node).last() == node);
                }
            }
            out.push(node);
        }
        i = i + 1;
    }
    proof {
        assert(decls@.take(n as int) =~= decls@);
    }
    out
}

/// How a whole documentation run fails.
#[derive(Debug)]
pub enum DocRunError {
    /// The root specifier cannot be parsed into canonical form; the run
    /// fails fast, before any graph is built.
    InvalidRoot,
    /// Doc extraction reached a module with a recorded error. The graph
    /// that was built comes along for inspection: the named module really
    /// is broken in it.
    Generation { graph: ModuleGraph, specifier: String },
}

/// The graph a run builds: well-formed; rooted at the synthetic specifier
/// whose whole content is one wildcard re-export of the target; every
/// other slot matching what the given loader and resolver say of its
/// specifier; and no entry outside the root's reach.
pub open spec fn run_graph_ok(
    g: ModuleGraph,
    loader: MemoryLoader,
    import_map: Option<ImportMap>,
    target: Seq<char>,
) -> bool {
    &&& g.wf()
    &&& g.contains_spec("moddoc://root"@)
    &&& (entry_at(g, "moddoc://root"@).slot matches ModuleSlot::Ready(rec) && {
        &&& rec.decls@.len() == 0
        &&& rec.imports@.len() == 0
        &&& rec.reexports@.len() == 1
        &&& rec.reexports@[0].name is None
        &&& rec.reexports@[0].src@ == target
        &&& edge_matches(
            rec.reexports@[0].target,
            (DocResolver { import_map }),
            target,
            "moddoc://root"@,
        )
    })
    &&& forall|i: int|
        0 <= i < g.entries@.len() ==> (#[trigger] g.entries@[i]).specifier@ == "moddoc://root"@
            || slot_matches(
            g.entries@[i].slot,
            lookup_or_not_found(loader.entries@, g.entries@[i].specifier@),
            (DocResolver { import_map }),
            g.entries@[i].specifier@,
        )
    &&& forall|i: int|
        0 <= i < g.entries@.len() ==> (#[trigger] g.entries@[i]).specifier@ == "moddoc://root"@
            || linked(g, g.entries@[i].specifier@)
}

/// Re-export mode, for an arbitrary target: a synthetic root whose whole
/// content is one wildcard re-export of the target stands before the
/// loader, the graph reachable from it is built, and the symbol tree is
/// extracted through the re-export. The built graph comes back in both
/// outcomes, so that what graph building and extraction guarantee can be
/// read off it; in particular a generation failure exhibits the really
/// built, really broken graph, so a run over a fault-free reachable set
/// cannot fail.
pub fn document_module(
    target: &String,
    loader: MemoryLoader,
    import_map: Option<ImportMap>,
    include_private: bool,
) -> (r: Result<(ModuleGraph, Vec<DocNode>), DocRunError>)
    requires
        loader.wf(),
        !loader.keys().contains("moddoc://root"@),
    ensures
        url_canon(target@) is None <==> (r matches Err(e) && e is InvalidRoot),
        r matches Ok(pair) ==> {
            &&& run_graph_ok(pair.0, loader, import_map, target@)
            &&& !first_edge_broken(
                pair.0,
                entry_at(pair.0, "moddoc://root"@).slot->Ready_0,
                seq!["moddoc://root"@],
            )
            &&& owed_prefix(
                pair.0,
                "moddoc://root"@,
                seq!["moddoc://root"@],
                include_private,
            ).is_prefix_of(nodes_view(pair.1@))
            &&& chases_first_named(
                pair.0,
                entry_at(pair.0, "moddoc://root"@).slot->Ready_0,
                seq!["moddoc://root"@],
            ) ==> (forall|v: DocNodeV|
                #[trigger] named_surface(
                    pair.0,
                    entry_at(pair.0, "moddoc://root"@).slot->Ready_0,
                    include_private,
                ).contains(v) ==> nodes_view(pair.1@).contains(v))
            &&& forall|k: int|
                0 <= k < pair.1@.len() ==> originates(pair.0, node_view(#[trigger] pair.1@[k]))
        },
        r matches Err(e) ==> (e matches DocRunError::Generation { graph, specifier } ==> {
            &&& run_graph_ok(graph, loader, import_map, target@)
            &&& !all_clean(graph)
            &&& broken_at(graph, specifier@)
        }),
{
    match parse_url(target.as_str()) {
        None => Err(DocRunError::InvalidRoot),
        Some(_) => {
            let root = synthetic_root_specifier();
            let mut rx: Vec<Reexport> = Vec::new();
            rx.push(Reexport { name: None, src: target.clone() });
            let synthetic = ModuleSource {
                media_type: crate::model::MediaType::TypeScript,
                decls: Vec::new(),
                imports: Vec::new(),
                reexports: rx,
            };
            let mut ldr = loader;
            let ghost keys0 = ldr.keys();
            let ghost base_entries = ldr.entries@;
            ldr.entries.push((root.clone(), LoadOutcome::Found(synthetic)));
            let ghost seeded = ldr.entries@;
            let ghost synth_entry = seeded.last();
            proof {
                let ks = ldr.keys();
                assert(ks =~= keys0.push("moddoc://root"@));
                assert forall|p: int, q: int|
                    0 <= p < ks.len() && 0 <= q < ks.len() && p != q implies ks[p] != ks[q] by {
                    if p < keys0.len() && q < keys0.len() {
                        assert(ks[p] == keys0[p] && ks[q] == keys0[q]);
                    } else if p < keys0.len() {
                        assert(ks[q] == "moddoc://root"@ && ks[p] == keys0[p]);
                        if keys0[p] == "moddoc://root"@ {
                            assert(keys0.contains("moddoc://root"@));
                        }
                    } else {
                        assert(ks[p] == "moddoc://root"@ && ks[q] == keys0[q]);
                        if keys0[q] == "moddoc://root"@ {
                            assert(keys0.contains("moddoc://root"@));
                        }
                    }
                }
            }
            let resolver = DocResolver { import_map };
            let graph = crate::builder::build_graph(root.clone(), resolver, ldr);
            proof {
                assert(graph.contains_spec("moddoc://root"@));
                // the seeded loader answers the synthetic root with the
                // synthetic source, and everything else as before
                assert forall|j: int| 0 <= j < base_entries.len() implies (
                #[trigger] base_entries[j]).0@ != "moddoc://root"@ by {
                    assert(keys0[j] == base_entries[j].0@);
                    if base_entries[j].0@ == "moddoc://root"@ {
                        assert(keys0.contains("moddoc://root"@));
                    }
                }
                assert forall|j: int| 0 <= j < seeded.len() - 1 implies (#[trigger] seeded[j]).0@
                    != "moddoc://root"@ by {
                    assert(seeded[j] == base_entries[j]);
                }
                crate::graph::lemma_lookup_at(seeded, seeded.len() - 1, "moddoc://root"@);
                assert(lookup_or_not_found(seeded, "moddoc://root"@) == synth_entry.1);
                // place the synthetic root's entry
                let ri = choose|i: int|
                    0 <= i < graph.specs().len() && graph.specs()[i] == "moddoc://root"@;
                assert(graph.entries@[ri].specifier@ == "moddoc://root"@);
                crate::docs::lemma_entry_at(graph, "moddoc://root"@, ri);
                assert(slot_matches(
                    graph.entries@[ri].slot,
                    synth_entry.1,
                    resolver,
                    "moddoc://root"@,
                ));
                assert(entry_at(graph, "moddoc://root"@).slot matches ModuleSlot::Ready(rec) && {
                    &&& rec.decls@.len() == 0
                    &&& rec.imports@.len() == 0
                    &&& rec.reexports@.len() == 1
                    &&& rec.reexports@[0].name is None
                    &&& rec.reexports@[0].src@ == target@
                    &&& edge_matches(
                        rec.reexports@[0].target,
                        (DocResolver { import_map }),
                        target@,
                        "moddoc://root"@,
                    )
                });
                // every other entry matches the original loader
                assert forall|i: int|
                    0 <= i < graph.entries@.len() && (#[trigger] graph.entries@[i]).specifier@
                        != "moddoc://root"@ implies slot_matches(
                    graph.entries@[i].slot,
                    lookup_or_not_found(base_entries, graph.entries@[i].specifier@),
                    (DocResolver { import_map }),
                    graph.entries@[i].specifier@,
                ) by {
                    crate::graph::lemma_lookup_push(
                        base_entries,
                        synth_entry,
                        graph.entries@[i].specifier@,
                    );
                }
                assert(run_graph_ok(graph, loader, import_map, target@));
            }
            match parse_with_reexports(&graph, &root, include_private) {
                Ok(nodes) => Ok((graph, nodes)),
                Err(e) => {
                    match e {
                        DocError::Generation { specifier } => Err(
                            DocRunError::Generation { graph, specifier },
                        ),
                        DocError::FilterNotFound { name: _ } => {
                            proof {
                                assert(false);
                            }
                            Err(DocRunError::InvalidRoot)
                        },
                    }
                },
            }
        },
    }
}

/// Symbols that document something for a human reader: everything but
/// the `Import` entries.
pub open spec fn prune_imports_spec(ns: Seq<DocNodeV>) -> Seq<DocNodeV>
    decreases ns.len(),
{
    if ns.len() == 0 {
        Seq::<DocNodeV>::empty()
    } else if ns.last().kind == DocNodeKind::Import {
        prune_imports_spec(ns.drop_last())
    } else {
        prune_imports_spec(ns.drop_last()).push(ns.last())
    }
}

/// Drops the `Import`-kind entries, keeping the order of the rest.
pub fn prune_imports(ns: Vec<DocNode>) -> (r: Vec<DocNode>)
    ensures
        nodes_view(r@) == prune_imports_spec(nodes_view(ns@)),
{
    let ghost ns0views = nodes_view(ns@);
    proof {
        lemma_nodes_view_index(ns@);
    }
    let mut rest = ns;
    let mut out: Vec<DocNode> = Vec::new();
    let ghost i: int = 0;
    proof {
        assert(nodes_view(rest@) =~= ns0views.skip(0));
        assert(nodes_view(out@) =~= prune_imports_spec(ns0views.take(0)));
    }
    while rest.len() > 0
        invariant
            0 <= i <= ns0views.len(),
            ns0views.len() == i + rest@.len(),
            nodes_view(rest@) == ns0views.skip(i as int),
            nodes_view(rest@).len() == rest@.len(),
            nodes_view(out@) == prune_imports_spec(ns0views.take(i as int)),
        decreases rest@.len(),
    {
        let ghost restpre = rest@;
        let n = rest.remove(0);
        proof {
            restpre.remove_ensures(0);
            lemma_nodes_view_index(restpre);
            lemma_nodes_view_index(rest@);
            assert(nodes_view(rest@) =~= ns0views.skip(i + 1)) by {
                assert forall|k: int| 0 <= k < rest@.len() implies nodes_view(rest@)[k]
                    == ns0views.skip(i + 1)[k] by {
                    assert(rest@[k] == restpre.remove(0)[k]);
                    assert(rest@[k] == restpre[k + 1]);
                    assert(nodes_view(restpre)[k + 1] == node_view(restpre[k + 1]));
                    assert(ns0views.skip(i as int)[k + 1] == ns0views[i + 1 + k]);
                    assert(ns0views.skip(i + 1)[k] == ns0views[i + 1 + k]);
                }
            }
            assert(node_view(n) == nodes_view(restpre)[0]);
            assert(node_view(n) == ns0views[i as int]);
            assert(ns0views.take(i + 1).drop_last() =~= ns0views.take(i as int));
            assert(ns0views.take(i + 1).last() == ns0views[i as int]);
        }
        let keep = !matches!(n.kind, DocNodeKind::Import);
        if keep {
            proof {
                assert(nodes_view(out@.push(n)) == nodes_view(out@).push(node_view(n))) by {
                    assert(out@.push(n).drop_last() =~= out@);
                    assert(out@.push(n).last() == n);
                }
            }
            out.push(n);
        }
        proof {
            i = i + 1;
        }
    }
    proof {
        assert(ns0views.skip(i as int).len() == 0);
        assert(i == ns0views.len());
        assert(ns0views.take(i as int) =~= ns0views);
    }
    out
}

/// What the output stage returns for a symbol sequence: the JSON document
/// (imports included), or the text tree of the pruned, optionally
/// filtered symbols; a filter that matches nothing is an error carrying
/// the filter text.
pub open spec fn output_spec(ns: Seq<DocNodeV>, json: bool, filter: Option<Seq<char>>) -> Result<
    Seq<char>,
    Seq<char>,
> {
    if json {
        Ok(json_docs_str(ns))
    } else {
        let pruned = prune_imports_spec(ns);
        match filter {
            Some(f) => {
                let found = find_by_query(pruned, f);
                if found.len() == 0 {
                    Err(f)
                } else {
                    Ok(render_nodes_text(found, Seq::<char>::empty()))
                }
            },
            None => Ok(render_nodes_text(pruned, Seq::<char>::empty())),
        }
    }
}

/// The output stage. JSON mode serializes every symbol, `Import` entries
/// included; text mode drops them, applies the filter if one is given,
/// and renders the tree. The filter matching nothing is exactly the
/// `FilterNotFound` error, never an empty success.
pub fn generate_output(doc_nodes: Vec<DocNode>, json: bool, filter: Option<String>) -> (r: Result<
    String,
    DocError,
>)
    ensures
        match output_spec(nodes_view(doc_nodes@), json, opt_str_view(filter)) {
            Ok(s) => r matches Ok(rs) && rs@ == s,
            Err(f) => r matches Err(e) && (e matches DocError::FilterNotFound { name } && name@
                == f),
        },
{
    if json {
        Ok(crate::json::render_json(&doc_nodes))
    } else {
        let pruned = prune_imports(doc_nodes);
        match filter {
            Some(f) => {
                let found = crate::filter::find_nodes_by_name_recursively(&pruned, &f);
                proof {
                    lemma_nodes_view_index(found@);
                }
                if found.len() == 0 {
                    Err(DocError::FilterNotFound { name: f })
                } else {
                    Ok(crate::render::render_text(&found))
                }
            },
            None => Ok(crate::render::render_text(&pruned)),
        }
    }
}

/// The filter law: a name with zero matches in the pruned tree always
/// fails, carrying the filter text, and a match always renders; an
/// empty-but-successful result cannot happen.
pub proof fn lemma_filter_not_found(ns: Seq<DocNodeV>, f: Seq<char>)
    ensures
        find_by_query(prune_imports_spec(ns), f).len() == 0 <==> output_spec(
            ns,
            false,
            Some(f),
        ) is Err,
        output_spec(ns, false, Some(f)) matches Err(e) ==> e == f,
{
}

} // verus!
