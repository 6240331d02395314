use moddoc::model::{media_type_for, parse_js_doc, MediaType};
use moddoc::resolve::{resolve_import, DocResolver, ImportMap, ImportMapEntry, ResolveError};

#[test]
fn absolute_specifier_stands_as_it_is() {
    let r = resolve_import("https://example.com/mod.ts", "file:///main.ts");
    assert_eq!(r.unwrap(), "https://example.com/mod.ts");
}

#[test]
fn relative_specifier_joins_referrer() {
    let r = resolve_import("./x.ts", "https://example.com/dir/mod.ts");
    assert_eq!(r.unwrap(), "https://example.com/dir/x.ts");
}

#[test]
fn parent_relative_specifier_joins_referrer() {
    let r = resolve_import("../up.ts", "file:///a/b/mod.ts");
    assert_eq!(r.unwrap(), "file:///a/up.ts");
}

#[test]
fn bare_specifier_is_refused() {
    let r = resolve_import("react", "file:///main.ts");
    assert_eq!(r.unwrap_err(), ResolveError::ImportPrefixMissing);
}

#[test]
fn import_map_exact_entry_wins() {
    let map = ImportMap {
        entries: vec![ImportMapEntry {
            key: String::from("lodash"),
            target: String::from("https://cdn.example/lodash.js"),
        }],
    };
    let resolver = DocResolver { import_map: Some(map) };
    let r = resolver.resolve("lodash", "file:///main.ts");
    assert_eq!(r.unwrap(), "https://cdn.example/lodash.js");
}

#[test]
fn import_map_prefix_entry_expands() {
    let map = ImportMap {
        entries: vec![ImportMapEntry {
            key: String::from("a/"),
            target: String::from("https://cdn.example/a/"),
        }],
    };
    let resolver = DocResolver { import_map: Some(map) };
    let r = resolver.resolve("a/x.ts", "file:///main.ts");
    assert_eq!(r.unwrap(), "https://cdn.example/a/x.ts");
}

#[test]
fn import_map_bad_target_is_explicit_failure() {
    let map = ImportMap {
        entries: vec![ImportMapEntry {
            key: String::from("bad"),
            target: String::from("no scheme at all"),
        }],
    };
    let resolver = DocResolver { import_map: Some(map) };
    let r = resolver.resolve("bad", "file:///main.ts");
    assert_eq!(r.unwrap_err(), ResolveError::InvalidMapTarget);
}

#[test]
fn import_map_without_entry_falls_back() {
    let map = ImportMap {
        entries: vec![ImportMapEntry {
            key: String::from("lodash"),
            target: String::from("https://cdn.example/lodash.js"),
        }],
    };
    let resolver = DocResolver { import_map: Some(map) };
    let r = resolver.resolve("./y.ts", "file:///dir/main.ts");
    assert_eq!(r.unwrap(), "file:///dir/y.ts");
}

#[test]
fn media_type_follows_extension() {
    assert_eq!(media_type_for("file:///a.d.ts"), MediaType::Dts);
    assert_eq!(media_type_for("file:///a.ts"), MediaType::TypeScript);
    assert_eq!(media_type_for("file:///a.js"), MediaType::JavaScript);
    assert_eq!(media_type_for("file:///a.mjs"), MediaType::JavaScript);
    assert_eq!(media_type_for("file:///a.json"), MediaType::Json);
    assert_eq!(media_type_for("file:///a.wasm"), MediaType::Unknown);
}

#[test]
fn js_doc_splits_summary_and_tags() {
    let doc = parse_js_doc("Line one\nLine two\n@param x a value\n@returns nothing");
    assert_eq!(doc.summary, "Line one\nLine two");
    assert_eq!(doc.tags, vec!["@param x a value", "@returns nothing"]);
}

#[test]
fn js_doc_without_tags_is_all_summary() {
    let doc = parse_js_doc("Greets a person.");
    assert_eq!(doc.summary, "Greets a person.");
    assert!(doc.tags.is_empty());
}

#[test]
fn js_doc_all_tags_has_empty_summary() {
    let doc = parse_js_doc("@deprecated\n@since forever");
    assert_eq!(doc.summary, "");
    assert_eq!(doc.tags, vec!["@deprecated", "@since forever"]);
}

#[test]
fn first_matching_map_entry_wins() {
    let map = ImportMap {
        entries: vec![
            ImportMapEntry {
                key: String::from("x"),
                target: String::from("https://first.example/x.ts"),
            },
            ImportMapEntry {
                key: String::from("x"),
                target: String::from("https://second.example/x.ts"),
            },
        ],
    };
    let resolver = DocResolver { import_map: Some(map) };
    assert_eq!(resolver.resolve("x", "file:///m.ts").unwrap(), "https://first.example/x.ts");
}
