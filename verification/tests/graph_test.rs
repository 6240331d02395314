use moddoc::builder::build_graph;
use moddoc::DocRunError;
use moddoc::graph::{
    ImportDecl, LoadOutcome, MemoryLoader, ModuleSlot, ModuleSource, Reexport,
};
use moddoc::model::{Decl, DocNodeKind, MediaType};
use moddoc::resolve::DocResolver;

fn source(imports: Vec<&str>, reexports: Vec<(Option<&str>, &str)>, decls: Vec<Decl>) -> ModuleSource {
    ModuleSource {
        media_type: MediaType::TypeScript,
        decls,
        imports: imports
            .into_iter()
            .map(|s| ImportDecl { name: String::from("dep"), src: String::from(s) })
            .collect(),
        reexports: reexports
            .into_iter()
            .map(|(n, s)| Reexport { name: n.map(String::from), src: String::from(s) })
            .collect(),
    }
}

fn decl(name: &str, kind: DocNodeKind, exported: bool, doc: Option<&str>) -> Decl {
    Decl {
        name: String::from(name),
        kind,
        exported,
        pos: 0,
        raw_doc: doc.map(String::from),
        members: Vec::new(),
    }
}

fn count(g: &moddoc::graph::ModuleGraph, spec: &str) -> usize {
    g.entries.iter().filter(|e| e.specifier == spec).count()
}

#[test]
fn same_canonical_specifier_is_one_record() {
    let loader = MemoryLoader {
        entries: vec![
            (
                String::from("file:///a.ts"),
                LoadOutcome::Found(source(vec!["./b.ts", "./c.ts"], vec![], vec![])),
            ),
            (
                String::from("file:///b.ts"),
                LoadOutcome::Found(source(vec!["./c.ts"], vec![], vec![])),
            ),
            (String::from("file:///c.ts"), LoadOutcome::Found(source(vec![], vec![], vec![]))),
        ],
    };
    let g = build_graph(
        String::from("file:///a.ts"),
        DocResolver { import_map: None },
        loader,
    );
    assert_eq!(g.entries.len(), 3);
    assert_eq!(count(&g, "file:///c.ts"), 1);
}

#[test]
fn cycle_terminates_and_each_module_appears_once() {
    let loader = MemoryLoader {
        entries: vec![
            (
                String::from("file:///a.ts"),
                LoadOutcome::Found(source(vec!["./b.ts"], vec![], vec![])),
            ),
            (
                String::from("file:///b.ts"),
                LoadOutcome::Found(source(vec!["./a.ts"], vec![], vec![])),
            ),
        ],
    };
    let g = build_graph(
        String::from("file:///a.ts"),
        DocResolver { import_map: None },
        loader,
    );
    assert_eq!(g.entries.len(), 2);
    assert_eq!(count(&g, "file:///a.ts"), 1);
    assert_eq!(count(&g, "file:///b.ts"), 1);
}

#[test]
fn missing_module_is_recorded_not_fatal() {
    let loader = MemoryLoader {
        entries: vec![(
            String::from("file:///a.ts"),
            LoadOutcome::Found(source(vec!["./gone.ts"], vec![], vec![])),
        )],
    };
    let g = build_graph(
        String::from("file:///a.ts"),
        DocResolver { import_map: None },
        loader,
    );
    assert_eq!(g.entries.len(), 2);
    let gone = g.entries.iter().find(|e| e.specifier == "file:///gone.ts").unwrap();
    assert!(matches!(gone.slot, ModuleSlot::Failed(_)));
}

#[test]
fn reexport_chain_attributes_to_declaring_module() {
    let loader = MemoryLoader {
        entries: vec![
            (
                String::from("file:///a.ts"),
                LoadOutcome::Found(source(vec![], vec![(None, "./b.ts")], vec![])),
            ),
            (
                String::from("file:///b.ts"),
                LoadOutcome::Found(source(vec![], vec![(None, "./c.ts")], vec![])),
            ),
            (
                String::from("file:///c.ts"),
                LoadOutcome::Found(source(
                    vec![],
                    vec![],
                    vec![decl("util", DocNodeKind::Variable, true, None)],
                )),
            ),
        ],
    };
    let (_, nodes) = moddoc::document_module(
        &String::from("file:///a.ts"),
        loader,
        None,
        false,
    )
    .unwrap();
    let util: Vec<_> = nodes.iter().filter(|n| n.name == "util").collect();
    assert_eq!(util.len(), 1);
    assert_eq!(util[0].location.specifier, "file:///c.ts");
}

#[test]
fn reexport_cycle_terminates() {
    let loader = MemoryLoader {
        entries: vec![
            (
                String::from("file:///a.ts"),
                LoadOutcome::Found(source(
                    vec![],
                    vec![(None, "./b.ts")],
                    vec![decl("fromA", DocNodeKind::Function, true, None)],
                )),
            ),
            (
                String::from("file:///b.ts"),
                LoadOutcome::Found(source(
                    vec![],
                    vec![(None, "./a.ts")],
                    vec![decl("fromB", DocNodeKind::Function, true, None)],
                )),
            ),
        ],
    };
    let (_, nodes) = moddoc::document_module(
        &String::from("file:///a.ts"),
        loader,
        None,
        false,
    )
    .unwrap();
    let names: Vec<_> = nodes.iter().map(|n| n.name.as_str()).collect();
    assert!(names.contains(&"fromA"));
    assert!(names.contains(&"fromB"));
}

#[test]
fn broken_branch_fails_doc_generation() {
    let loader = MemoryLoader {
        entries: vec![(
            String::from("file:///a.ts"),
            LoadOutcome::Found(source(vec![], vec![(None, "./missing.ts")], vec![])),
        )],
    };
    let r = moddoc::document_module(&String::from("file:///a.ts"), loader, None, false);
    match r {
        Err(DocRunError::Generation { graph, specifier }) => {
            assert_eq!(specifier, "file:///missing.ts");
            assert!(graph.entries.iter().any(|e| e.specifier == "file:///missing.ts"));
        }
        other => panic!("expected a generation failure, got {:?}", other.is_ok()),
    }
}

#[test]
fn load_error_is_recorded_and_surfaces_on_demand() {
    let loader = MemoryLoader {
        entries: vec![
            (
                String::from("file:///a.ts"),
                LoadOutcome::Found(source(vec![], vec![(None, "./broken.ts")], vec![])),
            ),
            (
                String::from("file:///broken.ts"),
                LoadOutcome::Error(String::from("permission denied")),
            ),
        ],
    };
    let r = moddoc::document_module(&String::from("file:///a.ts"), loader, None, false);
    assert!(matches!(r, Err(DocRunError::Generation { .. })));
}

#[test]
fn invalid_root_fails_fast() {
    let loader = MemoryLoader { entries: vec![] };
    let r = moddoc::document_module(&String::from("not a specifier"), loader, None, false);
    assert!(matches!(r, Err(DocRunError::InvalidRoot)));
}

#[test]
fn named_reexport_surfaces_only_that_symbol() {
    let loader = MemoryLoader {
        entries: vec![
            (
                String::from("file:///mod8.ts"),
                LoadOutcome::Found(source(vec![], vec![(Some("util"), "./lib.ts")], vec![])),
            ),
            (
                String::from("file:///lib.ts"),
                LoadOutcome::Found(source(
                    vec![],
                    vec![],
                    vec![
                        decl("util", DocNodeKind::Variable, true, None),
                        decl("other", DocNodeKind::Function, true, None),
                    ],
                )),
            ),
        ],
    };
    let (_, nodes) = moddoc::document_module(
        &String::from("file:///mod8.ts"),
        loader,
        None,
        false,
    )
    .unwrap();
    let found = moddoc::filter::find_nodes_by_name_recursively(&nodes, &String::from("util"));
    assert_eq!(found.len(), 1);
    assert_eq!(found[0].location.specifier, "file:///lib.ts");
    assert!(nodes.iter().all(|n| n.name != "other"));
}

#[test]
fn private_declarations_only_with_flag() {
    let loader = MemoryLoader {
        entries: vec![(
            String::from("file:///p.ts"),
            LoadOutcome::Found(source(
                vec![],
                vec![],
                vec![
                    decl("shown", DocNodeKind::Function, true, None),
                    decl("hidden", DocNodeKind::Function, false, None),
                ],
            )),
        )],
    };
    let target = String::from("file:///p.ts");
    let (_, without) =
        moddoc::document_module(&target, make_p_loader(), None, false).unwrap();
    assert!(without.iter().all(|n| n.name != "hidden"));
    let (_, with) = moddoc::document_module(&target, loader, None, true).unwrap();
    assert!(with.iter().any(|n| n.name == "hidden"));
}

fn make_p_loader() -> MemoryLoader {
    MemoryLoader {
        entries: vec![(
            String::from("file:///p.ts"),
            LoadOutcome::Found(source(
                vec![],
                vec![],
                vec![
                    decl("shown", DocNodeKind::Function, true, None),
                    decl("hidden", DocNodeKind::Function, false, None),
                ],
            )),
        )],
    }
}

#[test]
fn stub_loader_records_the_root_as_not_found() {
    let g = build_graph(
        String::from("deno://lib.deno.d.ts"),
        DocResolver { import_map: None },
        MemoryLoader::stub(),
    );
    assert_eq!(g.entries.len(), 1);
    assert_eq!(g.entries[0].specifier, "deno://lib.deno.d.ts");
    assert!(matches!(g.entries[0].slot, ModuleSlot::Failed(_)));
}

#[test]
fn target_recorded_not_found_fails_the_run() {
    let loader = MemoryLoader {
        entries: vec![(String::from("file:///gone.ts"), LoadOutcome::NotFound)],
    };
    let r = moddoc::document_module(&String::from("file:///gone.ts"), loader, None, false);
    match r {
        Err(DocRunError::Generation { graph, specifier }) => {
            assert_eq!(specifier, "file:///gone.ts");
            assert!(graph.entries.iter().any(|e| e.specifier == "file:///gone.ts"));
        }
        _ => panic!("expected a generation failure"),
    }
}
