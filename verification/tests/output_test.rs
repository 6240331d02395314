use moddoc::docs::DocError;
use moddoc::graph::{ImportDecl, LoadOutcome, MemoryLoader, ModuleSource, Reexport};
use moddoc::model::{clone_doc_node, Decl, DocNode, DocNodeKind, MediaType};
use moddoc::{document_builtin, generate_output};

fn decl_with(
    name: &str,
    kind: DocNodeKind,
    doc: Option<&str>,
    members: Vec<Decl>,
) -> Decl {
    Decl {
        name: String::from(name),
        kind,
        exported: true,
        pos: 0,
        raw_doc: doc.map(String::from),
        members,
    }
}

fn builtin_decls() -> Vec<Decl> {
    vec![
        decl_with("atob", DocNodeKind::Function, Some("Decodes base64."), vec![]),
        decl_with(
            "Console",
            DocNodeKind::Class,
            None,
            vec![decl_with("log", DocNodeKind::Function, None, vec![])],
        ),
        decl_with("VERSION", DocNodeKind::Variable, None, vec![]),
    ]
}

#[test]
fn builtin_text_tree_has_no_import_entries() {
    let decls = builtin_decls();
    let nodes = document_builtin(&decls, false);
    let text = generate_output(nodes, false, None).unwrap();
    assert!(text.contains("function atob"));
    assert!(text.contains("class Console"));
    assert!(text.contains("  function log"));
    assert!(text.contains("variable VERSION"));
    assert!(!text.contains("import "));
}

#[test]
fn greet_scenario_summary_and_location() {
    let loader = MemoryLoader {
        entries: vec![(
            String::from("file:///mod.ts"),
            LoadOutcome::Found(ModuleSource {
                media_type: MediaType::TypeScript,
                decls: vec![decl_with(
                    "greet",
                    DocNodeKind::Function,
                    Some("Greets a person."),
                    vec![],
                )],
                imports: vec![],
                reexports: vec![],
            }),
        )],
    };
    let (_, nodes) =
        moddoc::document_module(&String::from("file:///mod.ts"), loader, None, false).unwrap();
    let greet = nodes.iter().find(|n| n.name == "greet").unwrap();
    assert!(matches!(greet.kind, DocNodeKind::Function));
    assert_eq!(greet.js_doc.as_ref().unwrap().summary, "Greets a person.");

    let copy: Vec<DocNode> = nodes.iter().map(clone_doc_node).collect();
    let text = generate_output(copy, false, None).unwrap();
    assert!(text.contains("function greet"));
    assert!(text.contains("Greets a person."));

    let json = generate_output(nodes, true, None).unwrap();
    let v: serde_json::Value = serde_json::from_str(&json).unwrap();
    let arr = v.as_array().unwrap();
    let g = arr
        .iter()
        .find(|n| n["name"] == "greet")
        .unwrap();
    assert!(g["location"]["specifier"].as_str().unwrap().ends_with("mod.ts"));
    assert_eq!(g["jsDoc"]["summary"], "Greets a person.");
}

#[test]
fn filter_with_zero_matches_fails_and_prints_nothing() {
    let decls = builtin_decls();
    let nodes = document_builtin(&decls, false);
    let r = generate_output(nodes, false, Some(String::from("doesNotExist")));
    match r {
        Err(DocError::FilterNotFound { name }) => assert_eq!(name, "doesNotExist"),
        _ => panic!("expected the not-found failure"),
    }
}

#[test]
fn filter_never_returns_empty_success() {
    let nodes = document_builtin(&Vec::new(), false);
    let r = generate_output(nodes, false, Some(String::from("anything")));
    assert!(r.is_err());
}

#[test]
fn dotted_filter_descends_members() {
    let decls = builtin_decls();
    let nodes = document_builtin(&decls, false);
    let text = generate_output(nodes, false, Some(String::from("Console.log"))).unwrap();
    assert!(text.contains("function log"));
    assert!(!text.contains("atob"));
}

fn check_value_matches(v: &serde_json::Value, n: &DocNode) {
    assert_eq!(v["name"].as_str().unwrap(), n.name);
    let kind = match n.kind {
        DocNodeKind::Function => "function",
        DocNodeKind::Variable => "variable",
        DocNodeKind::Class => "class",
        DocNodeKind::Interface => "interface",
        DocNodeKind::Enum => "enum",
        DocNodeKind::TypeAlias => "typeAlias",
        DocNodeKind::Namespace => "namespace",
        DocNodeKind::Import => "import",
    };
    assert_eq!(v["kind"].as_str().unwrap(), kind);
    let children = v["children"].as_array().unwrap();
    assert_eq!(children.len(), n.children.len());
    for (cv, cn) in children.iter().zip(n.children.iter()) {
        check_value_matches(cv, cn);
    }
}

#[test]
fn json_round_trips_name_kind_and_structure() {
    let decls = vec![
        decl_with(
            "Outer",
            DocNodeKind::Namespace,
            Some("Has \"quotes\", a \\ backslash\nand a newline.\n@tag one"),
            vec![
                decl_with("inner", DocNodeKind::Function, None, vec![]),
                decl_with(
                    "Deep",
                    DocNodeKind::Interface,
                    None,
                    vec![decl_with("field", DocNodeKind::Variable, None, vec![])],
                ),
            ],
        ),
        decl_with("alias", DocNodeKind::TypeAlias, None, vec![]),
    ];
    let nodes = document_builtin(&decls, false);
    let copy: Vec<DocNode> = nodes.iter().map(clone_doc_node).collect();
    let json = generate_output(copy, true, None).unwrap();
    let v: serde_json::Value = serde_json::from_str(&json).unwrap();
    let arr = v.as_array().unwrap();
    assert_eq!(arr.len(), nodes.len());
    for (jv, n) in arr.iter().zip(nodes.iter()) {
        check_value_matches(jv, n);
    }
}

#[test]
fn json_keeps_import_entries_text_drops_them() {
    let loader = MemoryLoader {
        entries: vec![
            (
                String::from("file:///m.ts"),
                LoadOutcome::Found(ModuleSource {
                    media_type: MediaType::TypeScript,
                    decls: vec![decl_with("f", DocNodeKind::Function, None, vec![])],
                    imports: vec![ImportDecl {
                        name: String::from("helper"),
                        src: String::from("./h.ts"),
                    }],
                    reexports: vec![],
                }),
            ),
            (
                String::from("file:///h.ts"),
                LoadOutcome::Found(ModuleSource {
                    media_type: MediaType::TypeScript,
                    decls: vec![],
                    imports: vec![],
                    reexports: vec![],
                }),
            ),
        ],
    };
    let (_, nodes) =
        moddoc::document_module(&String::from("file:///m.ts"), loader, None, false).unwrap();
    let copy: Vec<DocNode> = nodes.iter().map(clone_doc_node).collect();
    let json = generate_output(copy, true, None).unwrap();
    let v: serde_json::Value = serde_json::from_str(&json).unwrap();
    let kinds: Vec<&str> = v
        .as_array()
        .unwrap()
        .iter()
        .map(|n| n["kind"].as_str().unwrap())
        .collect();
    assert!(kinds.contains(&"import"));
    let text = generate_output(nodes, false, None).unwrap();
    assert!(!text.contains("import "));
    assert!(text.contains("function f"));
}

#[test]
fn json_number_and_escape_forms_are_exact() {
    let mut d = decl_with("weird\"name", DocNodeKind::Variable, None, vec![]);
    d.pos = 1234567890;
    let nodes = document_builtin(&vec![d], false);
    let json = generate_output(nodes, true, None).unwrap();
    assert!(json.contains("\"pos\":1234567890"));
    assert!(json.contains("weird\\\"name"));
    let v: serde_json::Value = serde_json::from_str(&json).unwrap();
    assert_eq!(v[0]["name"].as_str().unwrap(), "weird\"name");
}

#[test]
fn reserved_sentinel_names_the_builtin_root() {
    let nodes = document_builtin(&builtin_decls(), false);
    assert!(nodes.iter().all(|n| n.location.specifier == "deno://lib.deno.d.ts"));
}

#[test]
fn position_zero_serializes_as_zero() {
    let nodes = document_builtin(&vec![decl_with("x", DocNodeKind::Variable, None, vec![])], false);
    let json = generate_output(nodes, true, None).unwrap();
    assert!(json.contains("\"pos\":0"));
}

#[test]
fn three_level_dotted_filter_reaches_deep_members() {
    let decls = vec![decl_with(
        "A",
        DocNodeKind::Namespace,
        None,
        vec![decl_with(
            "B",
            DocNodeKind::Class,
            None,
            vec![decl_with("c", DocNodeKind::Function, None, vec![])],
        )],
    )];
    let nodes = document_builtin(&decls, false);
    let text = generate_output(nodes, false, Some(String::from("A.B.c"))).unwrap();
    assert!(text.contains("function c"));
    assert!(!text.contains("namespace A"));
}

#[test]
fn empty_symbol_list_renders_empty_json_array() {
    let nodes = document_builtin(&Vec::new(), false);
    let json = generate_output(nodes, true, None).unwrap();
    assert_eq!(json, "[]");
}
