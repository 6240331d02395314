//! Documentation extraction: walking a built graph from a root module,
//! turning declarations into `DocNode`s, chasing re-export chains with a
//! cycle guard, and attributing every symbol to its declaring module.
use vstd::prelude::*;

use crate::graph::{EdgeTarget, GraphEntry, ModuleGraph, ModuleRecord, ModuleSlot, ResolvedImport};
use crate::model::{
    decl_node_view, decl_to_node, lemma_nodes_view_index, node_view, nodes_view, DocNode,
    DocNodeKind, DocNodeV, Location, LocationV,
};
use crate::text::vec_contains_str;

verus! {

/// How extraction or rendering fails.
#[derive(Debug, PartialEq, Eq)]
pub enum DocError {
    /// Doc extraction reached a module with a recorded load or resolution
    /// error; fatal to the whole run.
    Generation { specifier: String },
    /// The name filter matched nothing; fatal to rendering.
    FilterNotFound { name: String },
}

/// The view of the `Import`-kind node that an import edge gives rise to.
pub open spec fn import_node_view(im: ResolvedImport, s: Seq<char>) -> DocNodeV {
    DocNodeV {
        name: im.name@,
        kind: DocNodeKind::Import,
        location: LocationV { specifier: s, pos: 0 },
        js_doc: None,
        children: Seq::<DocNodeV>::empty(),
    }
}

pub open spec fn import_nodes(ims: Seq<ResolvedImport>, s: Seq<char>) -> Seq<DocNodeV>
    decreases ims.len(),
{
    if ims.len() == 0 {
        Seq::<DocNodeV>::empty()
    } else {
        import_nodes(ims.drop_last(), s).push(import_node_view(ims.last(), s))
    }
}

/// The nodes of a module's own declarations, in declaration order: the
/// exported ones, or all of them when private symbols are asked for.
pub open spec fn exported_decl_nodes(
    ds: Seq<crate::model::Decl>,
    s: Seq<char>,
    p: bool,
) -> Seq<DocNodeV>
    decreases ds.len(),
{
    if ds.len() == 0 {
        Seq::<DocNodeV>::empty()
    } else {
        let rest = exported_decl_nodes(ds.drop_last(), s, p);
        if ds.last().exported || p {
            rest.push(decl_node_view(ds.last(), s))
        } else {
            rest
        }
    }
}

/// What a module contributes directly (not through re-exports): its import
/// edges as `Import` nodes, then its own declarations.
pub open spec fn own_nodes(r: ModuleRecord, s: Seq<char>, p: bool) -> Seq<DocNodeV> {
    import_nodes(r.imports@, s) + exported_decl_nodes(r.decls@, s, p)
}

/// `v` is a declaration of the record `r` whose module is named `s`.
pub open spec fn module_declares(r: ModuleRecord, s: Seq<char>, v: DocNodeV) -> bool {
    exists|j: int| 0 <= j < r.decls@.len() && v == decl_node_view(#[trigger] r.decls@[j], s)
}

/// `v` is the `Import` node of one of `r`'s import edges.
pub open spec fn module_import_node(r: ModuleRecord, s: Seq<char>, v: DocNodeV) -> bool {
    exists|j: int| 0 <= j < r.imports@.len() && v == import_node_view(#[trigger] r.imports@[j], s)
}

/// Attribution: `v` carries the specifier of a module of the graph that
/// really declares it (or holds the import edge it stands for); symbols
/// surfaced through re-export chains still point at their true module.
pub open spec fn originates(g: ModuleGraph, v: DocNodeV) -> bool {
    exists|i: int|
        {
            &&& 0 <= i < g.entries@.len()
            &&& (#[trigger] g.entries@[i]).slot matches ModuleSlot::Ready(r)
            &&& v.location.specifier == g.entries@[i].specifier@
            &&& (module_declares(r, g.entries@[i].specifier@, v) || module_import_node(
                r,
                g.entries@[i].specifier@,
                v,
            ))
        }
}

/// A record with no unresolved re-export edge.
pub open spec fn record_clean(r: ModuleRecord) -> bool {
    forall|j: int|
        0 <= j < r.reexports@.len() ==> (#[trigger] r.reexports@[j]).target matches
            EdgeTarget::Resolved(_)
}

/// A graph with no recorded error anywhere: every module loaded and every
/// re-export edge resolved. On such a graph extraction is owed success.
pub open spec fn all_clean(g: ModuleGraph) -> bool {
    forall|i: int|
        0 <= i < g.entries@.len() ==> ((#[trigger] g.entries@[i]).slot matches ModuleSlot::Ready(r)
            && record_clean(r))
}

/// Position of the entry for a contained specifier.
pub open spec fn entry_index(g: ModuleGraph, s: Seq<char>) -> int {
    choose|i: int| 0 <= i < g.entries@.len() && g.entries@[i].specifier@ == s
}

/// The entry that a well-formed graph holds for a contained specifier.
pub open spec fn entry_at(g: ModuleGraph, s: Seq<char>) -> GraphEntry {
    g.entries@[entry_index(g, s)]
}

pub proof fn lemma_entry_at(g: ModuleGraph, s: Seq<char>, at: int)
    requires
        g.wf(),
        0 <= at < g.entries@.len(),
        g.entries@[at].specifier@ == s,
    ensures
        entry_at(g, s) == g.entries@[at],
{
    assert(exists|i: int| 0 <= i < g.entries@.len() && g.entries@[i].specifier@ == s) by {
        assert(0 <= at < g.entries@.len() && g.entries@[at].specifier@ == s);
    }
    let i = entry_index(g, s);
    assert(0 <= i < g.entries@.len() && g.entries@[i].specifier@ == s);
    crate::graph::lemma_graph_dedup(g, i, at);
}

/// The target of a record's first re-export edge, where it resolved.
pub open spec fn first_target(rec: ModuleRecord) -> Seq<char> {
    rec.reexports@[0].target->Resolved_0@
}

/// The record's first re-export edge is a wildcard onto a loaded module
/// that the walk has not seen yet; its whole surface is then owed in the
/// output, right after the record's own nodes.
pub open spec fn chases_first_wildcard(
    g: ModuleGraph,
    rec: ModuleRecord,
    vs0: Seq<Seq<char>>,
) -> bool {
    &&& rec.reexports@.len() > 0
    &&& rec.reexports@[0].name is None
    &&& rec.reexports@[0].target is Resolved
    &&& !vs0.contains(first_target(rec))
    &&& entry_at(g, first_target(rec)).slot is Ready
}

/// The name a record's first re-export edge carries, where it has one.
pub open spec fn first_name(rec: ModuleRecord) -> Seq<char> {
    rec.reexports@[0].name->0@
}

/// The record's first re-export edge re-exports one named symbol from a
/// loaded module that the walk has not seen yet; that symbol's nodes are
/// then owed in the output.
pub open spec fn chases_first_named(
    g: ModuleGraph,
    rec: ModuleRecord,
    vs0: Seq<Seq<char>>,
) -> bool {
    &&& rec.reexports@.len() > 0
    &&& rec.reexports@[0].name is Some
    &&& rec.reexports@[0].target is Resolved
    &&& !vs0.contains(first_target(rec))
    &&& entry_at(g, first_target(rec)).slot is Ready
}

/// The nodes of `ns` that a re-export of the single name `nm` lets
/// through: those named `nm` that are not import edges.
pub open spec fn named_of_nodes(ns: Seq<DocNodeV>, nm: Seq<char>) -> Seq<DocNodeV>
    decreases ns.len(),
{
    if ns.len() == 0 {
        Seq::<DocNodeV>::empty()
    } else {
        let rest = named_of_nodes(ns.drop_last(), nm);
        if ns.last().name == nm && ns.last().kind != DocNodeKind::Import {
            rest.push(ns.last())
        } else {
            rest
        }
    }
}

proof fn lemma_named_of_nodes_sub(ns: Seq<DocNodeV>, nm: Seq<char>, v: DocNodeV)
    requires
        named_of_nodes(ns, nm).contains(v),
    ensures
        ns.contains(v),
        v.name == nm,
        v.kind != DocNodeKind::Import,
    decreases ns.len(),
{
    if ns.len() > 0 {
        let rest = named_of_nodes(ns.drop_last(), nm);
        if ns.last().name == nm && ns.last().kind != DocNodeKind::Import {
            if v == ns.last() {
                assert(ns.contains(v)) by {
                    assert(ns[ns.len() - 1] == v);
                }
            } else {
                let ix = choose|ix: int|
                    0 <= ix < rest.push(ns.last()).len() && rest.push(ns.last())[ix] == v;
                assert(rest[ix] == v);
                lemma_named_of_nodes_sub(ns.drop_last(), nm, v);
                let iy = choose|iy: int| 0 <= iy < ns.drop_last().len() && ns.drop_last()[iy] == v;
                assert(ns[iy] == v);
            }
        } else {
            lemma_named_of_nodes_sub(ns.drop_last(), nm, v);
            let iy = choose|iy: int| 0 <= iy < ns.drop_last().len() && ns.drop_last()[iy] == v;
            assert(ns[iy] == v);
        }
    }
}

/// The record's first re-export edge resolves onto a module the walk has
/// not seen whose slot is a recorded failure: following it must abort.
pub open spec fn first_edge_broken(
    g: ModuleGraph,
    rec: ModuleRecord,
    vs0: Seq<Seq<char>>,
) -> bool {
    &&& rec.reexports@.len() > 0
    &&& rec.reexports@[0].target is Resolved
    &&& !vs0.contains(first_target(rec))
    &&& entry_at(g, first_target(rec)).slot is Failed
}

/// What a fresh named first edge owes: the target's own surface narrowed
/// to the re-exported name.
pub open spec fn named_surface(g: ModuleGraph, rec: ModuleRecord, p: bool) -> Seq<DocNodeV> {
    named_of_nodes(
        own_nodes(entry_at(g, first_target(rec)).slot->Ready_0, first_target(rec), p),
        first_name(rec),
    )
}

/// What a walk of the module named `s`, begun with `vs0` already visited,
/// owes at the head of its output: the record's own nodes and, when the
/// first edge is a fresh wildcard, the full direct surface of its target.
pub open spec fn owed_prefix(
    g: ModuleGraph,
    s: Seq<char>,
    vs0: Seq<Seq<char>>,
    p: bool,
) -> Seq<DocNodeV> {
    let rec = entry_at(g, s).slot->Ready_0;
    if chases_first_wildcard(g, rec, vs0) {
        own_nodes(rec, s, p) + own_nodes(
            entry_at(g, first_target(rec)).slot->Ready_0,
            first_target(rec),
            p,
        )
    } else {
        own_nodes(rec, s, p)
    }
}

proof fn lemma_prefix_concat(a: Seq<DocNodeV>, b: Seq<DocNodeV>, c: Seq<DocNodeV>)
    requires
        b.is_prefix_of(c),
    ensures
        (a + b).is_prefix_of(a + c),
{
    assert forall|i: int| 0 <= i < (a + b).len() implies (a + b)[i] == (a + c).subrange(
        0,
        (a + b).len() as int,
    )[i] by {
        if i < a.len() {
            assert((a + b)[i] == a[i] && (a + c)[i] == a[i]);
        } else {
            assert((a + b)[i] == b[i - a.len()]);
            assert(b =~= c.subrange(0, b.len() as int));
            assert((a + c)[i] == c[i - a.len()]);
        }
    }
    assert((a + b) =~= (a + c).subrange(0, (a + b).len() as int));
}

/// The module a generation failure names really is broken: it stands in
/// the graph, and its slot is a recorded load failure or holds an
/// unresolved re-export edge.
pub open spec fn broken_at(g: ModuleGraph, sp: Seq<char>) -> bool {
    &&& g.contains_spec(sp)
    &&& !(entry_at(g, sp).slot matches ModuleSlot::Ready(rec) && record_clean(rec))
}

/// Specifiers already walked: all keys of the graph, none twice.
pub open spec fn visited_ok(vs: Seq<Seq<char>>, g: ModuleGraph) -> bool {
    &&& vs.no_duplicates()
    &&& forall|i: int| 0 <= i < vs.len() ==> g.contains_spec(#[trigger] vs[i])
}

proof fn lemma_visited_bound(vs: Seq<Seq<char>>, g: ModuleGraph)
    requires
        visited_ok(vs, g),
    ensures
        vs.len() <= g.entries@.len(),
{
    broadcast use vstd::seq_lib::group_seq_lib_default, vstd::set_lib::group_set_lib_default;

    vs.unique_seq_to_set();
    assert(vs.to_set().subset_of(g.specs().to_set())) by {
        assert forall|x: Seq<char>| vs.to_set().contains(x) implies g.specs().to_set().contains(
            x,
        ) by {
            assert(vs.contains(x));
            let i = choose|i: int| 0 <= i < vs.len() && vs[i] == x;
            assert(g.contains_spec(vs[i]));
        }
    }
    g.specs().lemma_cardinality_of_set();
    vstd::set_lib::lemma_len_subset(vs.to_set(), g.specs().to_set());
}

/// Walks the module named `specifier` and the modules its re-exports
/// reach, collecting the documented symbols in order: import edges, own
/// declarations, then what each re-export surfaces. Modules already in
/// `visited` are skipped, which guards against re-export cycles.
pub fn collect_module_docs(
    g: &ModuleGraph,
    specifier: &String,
    visited: &mut Vec<String>,
    include_private: bool,
) -> (r: Result<Vec<DocNode>, DocError>)
    requires
        g.wf(),
        g.contains_spec(specifier@),
        visited_ok(old(visited)@.map_values(|p: String| p@), *g),
        old(visited)@.map_values(|p: String| p@).contains(specifier@),
    ensures
        visited_ok(final(visited)@.map_values(|p: String| p@), *g),
        old(visited)@.map_values(|p: String| p@).is_prefix_of(
            final(visited)@.map_values(|p: String| p@),
        ),
        r matches Ok(nodes) ==> {
            &&& entry_at(*g, specifier@).slot matches ModuleSlot::Ready(rec) && own_nodes(
                rec,
                specifier@,
                include_private,
            ).is_prefix_of(nodes_view(nodes@))
            &&& owed_prefix(
                *g,
                specifier@,
                old(visited)@.map_values(|p: String| p@),
                include_private,
            ).is_prefix_of(nodes_view(nodes@))
            &&& chases_first_named(
                *g,
                entry_at(*g, specifier@).slot->Ready_0,
                old(visited)@.map_values(|p: String| p@),
            ) ==> (forall|v: DocNodeV|
                #[trigger] named_surface(
                    *g,
                    entry_at(*g, specifier@).slot->Ready_0,
                    include_private,
                ).contains(v) ==> nodes_view(nodes@).contains(v))
            &&& forall|k: int|
                0 <= k < nodes@.len() ==> originates(*g, node_view(#[trigger] nodes@[k]))
        },
        all_clean(*g) ==> r is Ok,
        r is Err ==> !all_clean(*g),
        (entry_at(*g, specifier@).slot is Ready && first_edge_broken(
            *g,
            entry_at(*g, specifier@).slot->Ready_0,
            old(visited)@.map_values(|p: String| p@),
        )) ==> r is Err,
        r matches Err(e) ==> e matches DocError::Generation { specifier: sp } && broken_at(
            *g,
            sp@,
        ),
    decreases g.entries@.len() - visited@.len(),
{
    let found = g.find(specifier);
    assert(found is Some) by {
        if found is None {
            assert(!g.contains_spec(specifier@));
        }
    }
    let idx = found.unwrap();
    proof {
        lemma_entry_at(*g, specifier@, idx as int);
    }
    match &g.entries[idx].slot {
        ModuleSlot::Failed(_) => {
            proof {
                assert(!(g.entries@[idx as int].slot matches ModuleSlot::Ready(r) && record_clean(
                    r,
                )));
                assert(broken_at(*g, specifier@));
            }
            Err(DocError::Generation { specifier: specifier.clone() })
        },
        ModuleSlot::Ready(rec) => {
            let ghost sspec = specifier@;
            let mut out: Vec<DocNode> = Vec::new();
            let ni = rec.imports.len();
            let mut i: usize = 0;
            while i < ni
                invariant
                    0 <= i <= ni,
                    g.wf(),
                    0 <= idx < g.entries@.len(),
                    g.entries@[idx as int].specifier@ == sspec,
                    g.entries@[idx as int].slot == ModuleSlot::Ready(*rec),
                    sspec == specifier@,
                    ni == rec.imports@.len(),
                    nodes_view(out@) == import_nodes(rec.imports@.take(i as int), sspec),
                    out@.len() == i,
                    forall|k: int|
                        0 <= k < out@.len() ==> originates(*g, node_view(#[trigger] out@[k])),
                decreases ni - i,
            {
                let im = &rec.imports[i];
                let node = DocNode {
                    name: im.name.clone(),
                    kind: DocNodeKind::Import,
                    location: Location { specifier: specifier.clone(), pos: 0 },
                    js_doc: None,
                    children: Vec::new(),
                };
                proof {
                    assert(nodes_view(node.children@) =~= Seq::<DocNodeV>::empty());
                    assert(node_view(node) == import_node_view(rec.imports@[i as int], sspec));
                    assert(rec.imports@.take(i + 1).drop_last() =~= rec.imports@.take(i as int));
                    assert(rec.imports@.take(i + 1).last() == rec.imports@[i as int]);
                    assert(nodes_view(out@.push(node)) == nodes_view(out@).push(node_view(node)))
                        by {
                        assert(out@.push(node).drop_last() =~= out@);
                        assert(out@.push(node).last() == node);
                    }
                    assert(module_import_node(*rec, sspec, node_view(node)));
                    assert(originates(*g, node_view(node)));
                }
                out.push(node);
                i = i + 1;
            }
            proof {
                assert(rec.imports@.take(ni as int) =~= rec.imports@);
            }
            let nd = rec.decls.len();
            let mut i2: usize = 0;
            while i2 < nd
                invariant
                    0 <= i2 <= nd,
                    g.wf(),
                    0 <= idx < g.entries@.len(),
                    g.entries@[idx as int].specifier@ == sspec,
                    g.entries@[idx as int].slot == ModuleSlot::Ready(*rec),
                    sspec == specifier@,
                    nd == rec.decls@.len(),
                    nodes_view(out@) == import_nodes(rec.imports@, sspec) + exported_decl_nodes(
                        rec.decls@.take(i2 as int),
                        sspec,
                        include_private,
                    ),
                    forall|k: int|
                        0 <= k < out@.len() ==> originates(*g, node_view(#[trigger] out@[k])),
                decreases nd - i2,
            {
                let d = &rec.decls[i2];
                proof {
                    assert(rec.decls@.take(i2 + 1).drop_last() =~= rec.decls@.take(i2 as int));
                    assert(rec.decls@.take(i2 + 1).last() == rec.decls@[i2 as int]);
                }
                if d.exported || include_private {
                    let node = decl_to_node(d, specifier);
                    proof {
                        assert(nodes_view(out@.push(node)) == nodes_view(out@).push(
                            node_view(node),
                        )) by {
                            assert(out@.push(node).drop_last() =~= out@);
                            assert(out@.push(node).last() == node);
                        }
                        assert(module_declares(*rec, sspec, node_view(node)));
                        assert(originates(*g, node_view(node)));
                    }
                    out.push(node);
                }
                i2 = i2 + 1;
            }
            proof {
                assert(rec.decls@.take(nd as int) =~= rec.decls@);
            }
            let ghost own = own_nodes(*rec, sspec, include_private);
            assert(nodes_view(out@) == own);
            let ghost vsentry = old(visited)@.map_values(|p: String| p@);
            let ghost special = chases_first_wildcard(*g, *rec, vsentry);
            let ghost bonus = own_nodes(
                entry_at(*g, first_target(*rec)).slot->Ready_0,
                first_target(*rec),
                include_private,
            );
            let ghost owed = if special {
                own + bonus
            } else {
                own
            };
            let ghost special_n = chases_first_named(*g, *rec, vsentry);
            let ghost nsurf = named_surface(*g, *rec, include_private);
            let ghost special_b = first_edge_broken(*g, *rec, vsentry);
            let nr = rec.reexports.len();
            let mut i3: usize = 0;
            while i3 < nr
                invariant
                    0 <= i3 <= nr,
                    g.wf(),
                    0 <= idx < g.entries@.len(),
                    g.entries@[idx as int].specifier@ == sspec,
                    g.entries@[idx as int].slot == ModuleSlot::Ready(*rec),
                    entry_at(*g, sspec) == g.entries@[idx as int],
                    sspec == specifier@,
                    nr == rec.reexports@.len(),
                    vsentry == old(visited)@.map_values(|p: String| p@),
                    special == chases_first_wildcard(*g, *rec, vsentry),
                    bonus == own_nodes(
                        entry_at(*g, first_target(*rec)).slot->Ready_0,
                        first_target(*rec),
                        include_private,
                    ),
                    owed == (if special {
                        own + bonus
                    } else {
                        own
                    }),
                    own == own_nodes(*rec, sspec, include_private),
                    i3 == 0 ==> visited@ == old(visited)@,
                    i3 == 0 ==> nodes_view(out@) == own,
                    special && i3 >= 1 ==> owed.is_prefix_of(nodes_view(out@)),
                    special_n == chases_first_named(*g, *rec, vsentry),
                    nsurf == named_surface(*g, *rec, include_private),
                    special_b == first_edge_broken(*g, *rec, vsentry),
                    special_b ==> i3 == 0,
                    special_n && i3 >= 1 ==> (forall|v: DocNodeV|
                        #[trigger] nsurf.contains(v) ==> nodes_view(out@).contains(v)),
                    own.is_prefix_of(nodes_view(out@)),
                    forall|k: int|
                        0 <= k < out@.len() ==> originates(*g, node_view(#[trigger] out@[k])),
                    visited_ok(visited@.map_values(|p: String| p@), *g),
                    old(visited)@.map_values(|p: String| p@).is_prefix_of(
                        visited@.map_values(|p: String| p@),
                    ),
                    visited@.len() >= old(visited)@.len(),
                decreases nr - i3,
            {
                let rx = &rec.reexports[i3];
                let target: &String = match &rx.target {
                    EdgeTarget::Resolved(t) => t,
                    EdgeTarget::Unresolved(_) => {
                        proof {
                            assert(!record_clean(*rec));
                            assert(!all_clean(*g));
                            assert(g.specs()[idx as int] == sspec);
                            assert(g.contains_spec(sspec));
                            assert(broken_at(*g, specifier@));
                        }
                        return Err(DocError::Generation { specifier: specifier.clone() });
                    },
                };
                if !vec_contains_str(visited, target) {
                    proof {
                        assert(crate::graph::slot_closed(
                            g.entries@[idx as int].slot,
                            g.specs(),
                            Seq::<Seq<char>>::empty(),
                        ));
                        assert(crate::graph::target_in(
                            rec.reexports@[i3 as int].target,
                            g.specs(),
                            Seq::<Seq<char>>::empty(),
                        ));
                        assert(g.contains_spec(target@));
                    }
                    let ghost vs0 = visited@.map_values(|p: String| p@);
                    visited.push(target.clone());
                    proof {
                        let vs1 = visited@.map_values(|p: String| p@);
                        assert(vs1 =~= vs0.push(target@));
                        assert forall|p: int, q: int|
                            0 <= p < vs1.len() && 0 <= q < vs1.len() && p != q implies vs1[p]
                            != vs1[q] by {
                            if p < vs0.len() && q < vs0.len() {
                                assert(vs1[p] == vs0[p] && vs1[q] == vs0[q]);
                            } else if p < vs0.len() {
                                assert(vs1[q] == target@ && vs1[p] == vs0[p]);
                                if vs0[p] == target@ {
                                    assert(vs0.contains(target@));
                                }
                            } else {
                                assert(vs1[p] == target@ && vs1[q] == vs0[q]);
                                if vs0[q] == target@ {
                                    assert(vs0.contains(target@));
                                }
                            }
                        }
                        assert forall|k: int| 0 <= k < vs1.len() implies g.contains_spec(
                            #[trigger] vs1[k],
                        ) by {
                            if k < vs0.len() {
                                assert(vs1[k] == vs0[k]);
                            } else {
                                assert(vs1[k] == target@);
                            }
                        }
                        assert(vs1.contains(target@)) by {
                            assert(vs1[vs1.len() - 1] == target@);
                        }
                        lemma_visited_bound(vs1, *g);
                    }
                    let sub = match collect_module_docs(g, target, visited, include_private) {
                        Ok(v) => v,
                        Err(e) => {
                            return Err(e);
                        },
                    };
                    proof {
                        if special_b && i3 == 0 {
                            assert(target@ == first_target(*rec));
                            assert(entry_at(*g, target@).slot is Ready);
                            assert(false);
                        }
                    }
                    let ghost sub0 = sub@;
                    let ghost bview = nodes_view(sub0);
                    let ghost outpre = nodes_view(out@);
                    let ghost i30special = special && i3 == 0;
                    let ghost i30named = special_n && i3 == 0;
                    let mut sub = sub;
                    proof {
                        lemma_nodes_view_index(sub0);
                        assert(sub@ =~= sub0.skip(0));
                        assert(bview.take(0) =~= Seq::<DocNodeV>::empty());
                        assert(nodes_view(out@) =~= outpre + bview.take(0));
                        if i30special || i30named {
                            assert(target@ == first_target(*rec));
                        }
                    }
                    while sub.len() > 0
                        invariant
                            g.wf(),
                            forall|k: int|
                                0 <= k < sub@.len() ==> originates(
                                    *g,
                                    node_view(#[trigger] sub@[k]),
                                ),
                            forall|k: int|
                                0 <= k < out@.len() ==> originates(
                                    *g,
                                    node_view(#[trigger] out@[k]),
                                ),
                            own.is_prefix_of(nodes_view(out@)),
                            special && i3 >= 1 ==> owed.is_prefix_of(nodes_view(out@)),
                            bview == nodes_view(sub0),
                            bview.len() == sub0.len(),
                            sub@.len() <= sub0.len(),
                            sub@ == sub0.skip(sub0.len() - sub@.len()),
                            i30special ==> rx.name is None,
                            i30special ==> nodes_view(out@) == outpre + bview.take(
                                sub0.len() - sub@.len(),
                            ),
                            i30named ==> rx.name is Some && rx.name->0@ == first_name(*rec),
                            special_n && i3 >= 1 ==> (forall|v: DocNodeV|
                                #[trigger] nsurf.contains(v) ==> nodes_view(out@).contains(v)),
                            i30named ==> (forall|v: DocNodeV|
                                {
                                    (#[trigger] bview.take(sub0.len() - sub@.len()).contains(v)
                                        && v.name == first_name(*rec) && v.kind
                                        != DocNodeKind::Import) ==> nodes_view(out@).contains(v)
                                }),
                        decreases sub@.len(),
                    {
                        let ghost subpre = sub@;
                        let ghost consumed = sub0.len() - subpre.len();
                        let n = sub.remove(0);
                        proof {
                            subpre.remove_ensures(0);
                            assert(n == subpre[0]);
                            assert forall|k: int| 0 <= k < sub@.len() implies originates(
                                *g,
                                node_view(#[trigger] sub@[k]),
                            ) by {
                                assert(sub@[k] == subpre.remove(0)[k]);
                                assert(sub@[k] == subpre[k + 1]);
                            }
                            assert(subpre[0] == sub0.skip(consumed as int)[0]);
                            assert(n == sub0[consumed as int]);
                            assert(sub@ =~= sub0.skip(consumed + 1)) by {
                                assert forall|k: int| 0 <= k < sub@.len() implies sub@[k]
                                    == sub0.skip(consumed + 1)[k] by {
                                    assert(sub@[k] == subpre[k + 1]);
                                    assert(subpre[k + 1] == sub0.skip(consumed as int)[k + 1]);
                                }
                            }
                            lemma_nodes_view_index(sub0);
                            assert(node_view(n) == bview[consumed as int]);
                            assert(bview.take(consumed + 1) =~= bview.take(consumed as int).push(
                                bview[consumed as int],
                            ));
                        }
                        let keep: bool = match &rx.name {
                            Some(nm) => n.kind != DocNodeKind::Import && n.name.eq(nm),
                            None => true,
                        };
                        let ghost outv_pre = nodes_view(out@);
                        if keep {
                            proof {
                                lemma_prefix_push(own, nodes_view(out@), node_view(n));
                                if special && i3 >= 1 {
                                    lemma_prefix_push(owed, nodes_view(out@), node_view(n));
                                }
                                assert(nodes_view(out@.push(n)) == nodes_view(out@).push(
                                    node_view(n),
                                )) by {
                                    assert(out@.push(n).drop_last() =~= out@);
                                    assert(out@.push(n).last() == n);
                                }
                                if i30special {
                                    assert(nodes_view(out@).push(node_view(n)) =~= outpre
                                        + bview.take(consumed + 1));
                                }
                            }
                            out.push(n);
                            proof {
                                assert(nodes_view(out@) == outv_pre.push(node_view(n)));
                                if special_n && i3 >= 1 {
                                    assert forall|v: DocNodeV| #[trigger] nsurf.contains(
                                        v,
                                    ) implies nodes_view(out@).contains(v) by {
                                        crate::builder::lemma_contains_push(
                                            outv_pre,
                                            node_view(n),
                                            v,
                                        );
                                    }
                                }
                                if i30named {
                                    assert forall|v: DocNodeV|
                                        (#[trigger] bview.take(consumed + 1).contains(v) && v.name
                                            == first_name(*rec) && v.kind
                                            != DocNodeKind::Import) implies nodes_view(
                                        out@,
                                    ).contains(v) by {
                                        let ix = choose|ix: int|
                                            0 <= ix < consumed + 1 && #[trigger] bview.take(
                                                consumed + 1,
                                            )[ix] == v;
                                        if ix < consumed {
                                            assert(bview.take(consumed as int)[ix] == v);
                                            assert(bview.take(consumed as int).contains(v));
                                            crate::builder::lemma_contains_push(
                                                outv_pre,
                                                node_view(n),
                                                v,
                                            );
                                        } else {
                                            assert(v == node_view(n));
                                            assert(nodes_view(out@)[nodes_view(out@).len() - 1]
                                                == v);
                                        }
                                    }
                                }
                            }
                        } else {
                            proof {
                                assert(!i30special);
                                if i30named {
                                    assert(rx.name is Some);
                                    let vv = node_view(n);
                                    assert(vv.name != first_name(*rec) || vv.kind
                                        == DocNodeKind::Import);
                                    assert forall|v: DocNodeV|
                                        (#[trigger] bview.take(consumed + 1).contains(v) && v.name
                                            == first_name(*rec) && v.kind
                                            != DocNodeKind::Import) implies nodes_view(
                                        out@,
                                    ).contains(v) by {
                                        let ix = choose|ix: int|
                                            0 <= ix < consumed + 1 && #[trigger] bview.take(
                                                consumed + 1,
                                            )[ix] == v;
                                        if ix < consumed {
                                            assert(bview.take(consumed as int)[ix] == v);
                                            assert(bview.take(consumed as int).contains(v));
                                        } else {
                                            assert(v == vv);
                                        }
                                    }
                                }
                            }
                        }
                    }
                    proof {
                        if i30special {
                            assert(sub@.len() == 0);
                            assert(bview.take(sub0.len() as int) =~= bview);
                            assert(nodes_view(out@) == outpre + bview);
                            assert(outpre == own);
                            assert(bonus.is_prefix_of(bview));
                            lemma_prefix_concat(own, bonus, bview);
                            assert(owed.is_prefix_of(nodes_view(out@)));
                        }
                        if i30named {
                            assert(sub@.len() == 0);
                            assert(bview.take(sub0.len() as int) =~= bview);
                            let own_t = own_nodes(
                                entry_at(*g, first_target(*rec)).slot->Ready_0,
                                first_target(*rec),
                                include_private,
                            );
                            assert(own_t.is_prefix_of(bview));
                            assert forall|v: DocNodeV| #[trigger] nsurf.contains(
                                v,
                            ) implies nodes_view(out@).contains(v) by {
                                lemma_named_of_nodes_sub(own_t, first_name(*rec), v);
                                let ix = choose|ix: int|
                                    0 <= ix < own_t.len() && own_t[ix] == v;
                                assert(own_t =~= bview.subrange(0, own_t.len() as int));
                                assert(bview[ix] == v);
                                assert(bview.take(sub0.len() as int)[ix] == v);
                                assert(bview.take(sub0.len() as int).contains(v));
                            }
                        }
                    }
                } else {
                    proof {
                        if (special || special_n || special_b) && i3 == 0 {
                            assert(visited@ == old(visited)@);
                            assert(target@ == first_target(*rec));
                            assert(vsentry.contains(target@));
                            assert(false);
                        }
                    }
                }
                proof {
                    if special && i3 == 0 {
                        assert(owed.is_prefix_of(nodes_view(out@)));
                    }
                }
                i3 = i3 + 1;
            }
            proof {
                assert(own.is_prefix_of(nodes_view(out@)));
                assert(entry_at(*g, sspec).slot->Ready_0 == *rec);
                assert(owed == owed_prefix(*g, specifier@, vsentry, include_private));
                if special {
                    assert(nr >= 1);
                    assert(owed.is_prefix_of(nodes_view(out@)));
                } else {
                    assert(owed == own);
                }
                if special_n {
                    assert(nr >= 1);
                    assert(forall|v: DocNodeV|
                        #[trigger] nsurf.contains(v) ==> nodes_view(out@).contains(v));
                }
                assert(!special_b);
                assert(chases_first_named(*g, entry_at(*g, specifier@).slot->Ready_0, vsentry)
                    == special_n);
                assert(named_surface(*g, entry_at(*g, specifier@).slot->Ready_0, include_private)
                    == nsurf);
                assert(owed_prefix(
                    *g,
                    specifier@,
                    old(visited)@.map_values(|p: String| p@),
                    include_private,
                ).is_prefix_of(nodes_view(out@)));
                lemma_nodes_view_index(out@);
                assert forall|k: int| 0 <= k < out@.len() implies originates(
                    *g,
                    nodes_view(out@)[k],
                ) by {
                    assert(nodes_view(out@)[k] == node_view(out@[k]));
                }
            }
            Ok(out)
        },
    }
}

proof fn lemma_prefix_push(a: Seq<DocNodeV>, b: Seq<DocNodeV>, x: DocNodeV)
    requires
        a.is_prefix_of(b),
    ensures
        a.is_prefix_of(b.push(x)),
{
    assert(b.push(x).subrange(0, a.len() as int) =~= b.subrange(0, a.len() as int));
}

/// Extraction from a root module, re-export chains included.
pub fn parse_with_reexports(g: &ModuleGraph, root: &String, include_private: bool) -> (r: Result<
    Vec<DocNode>,
    DocError,
>)
    requires
        g.wf(),
        g.contains_spec(root@),
    ensures
        r matches Ok(nodes) ==> {
            &&& entry_at(*g, root@).slot matches ModuleSlot::Ready(rec) && own_nodes(
                rec,
                root@,
                include_private,
            ).is_prefix_of(nodes_view(nodes@))
            &&& owed_prefix(*g, root@, seq![root@], include_private).is_prefix_of(
                nodes_view(nodes@),
            )
            &&& chases_first_named(*g, entry_at(*g, root@).slot->Ready_0, seq![root@]) ==> (
            forall|v: DocNodeV|
                #[trigger] named_surface(
                    *g,
                    entry_at(*g, root@).slot->Ready_0,
                    include_private,
                ).contains(v) ==> nodes_view(nodes@).contains(v))
            &&& forall|k: int|
                0 <= k < nodes@.len() ==> originates(*g, node_view(#[trigger] nodes@[k]))
        },
        all_clean(*g) ==> r is Ok,
        r is Err ==> !all_clean(*g),
        (entry_at(*g, root@).slot is Ready && first_edge_broken(
            *g,
            entry_at(*g, root@).slot->Ready_0,
            seq![root@],
        )) ==> r is Err,
        r matches Err(e) ==> e matches DocError::Generation { specifier: sp } && broken_at(
            *g,
            sp@,
        ),
{
    let mut visited: Vec<String> = Vec::new();
    visited.push(root.clone());
    proof {
        let vs = visited@.map_values(|p: String| p@);
        assert(vs =~= seq![root@]);
        assert(vs[0] == root@);
        assert(vs.contains(root@));
    }
    collect_module_docs(g, root, &mut visited, include_private)
}

/// A top-level declaration named `name` stands in the graph at entry `i`,
/// declaration position `j`.
pub open spec fn decl_named_at(g: ModuleGraph, i: int, j: int, name: Seq<char>) -> bool {
    &&& 0 <= i < g.entries@.len()
    &&& g.entries@[i].slot matches ModuleSlot::Ready(r)
    &&& 0 <= j < r.decls@.len()
    &&& r.decls@[j].name@ == name
}

/// Every node of an extraction is attributed to the module that declares
/// it: when exactly one module of the graph declares a symbol named
/// `name`, a non-import node of that name points at that module, however
/// long the re-export chain it travelled.
pub proof fn lemma_reexport_attribution(
    g: ModuleGraph,
    nodes: Seq<DocNode>,
    k: int,
    c: Seq<char>,
    name: Seq<char>,
)
    requires
        g.wf(),
        forall|k2: int| 0 <= k2 < nodes.len() ==> originates(g, node_view(#[trigger] nodes[k2])),
        0 <= k < nodes.len(),
        node_view(nodes[k]).name == name,
        node_view(nodes[k]).kind != DocNodeKind::Import,
        forall|i: int, j: int|
            #[trigger] decl_named_at(g, i, j, name) ==> g.entries@[i].specifier@ == c,
    ensures
        node_view(nodes[k]).location.specifier == c,
{
    let v = node_view(nodes[k]);
    assert(originates(g, v));
    let i = choose|i: int|
        {
            &&& 0 <= i < g.entries@.len()
            &&& (#[trigger] g.entries@[i]).slot matches ModuleSlot::Ready(r)
            &&& v.location.specifier == g.entries@[i].specifier@
            &&& (module_declares(r, g.entries@[i].specifier@, v) || module_import_node(
                r,
                g.entries@[i].specifier@,
                v,
            ))
        };
    let r = g.entries@[i].slot->Ready_0;
    let s = g.entries@[i].specifier@;
    if module_import_node(r, s, v) {
        let j = choose|j: int|
            0 <= j < r.imports@.len() && v == import_node_view(#[trigger] r.imports@[j], s);
        assert(v.kind == DocNodeKind::Import);
    }
    assert(module_declares(r, s, v));
    let j = choose|j: int|
        0 <= j < r.decls@.len() && v == decl_node_view(#[trigger] r.decls@[j], s);
    assert(r.decls@[j].name@ == name);
    assert(decl_named_at(g, i, j, name));
}

} // verus!
