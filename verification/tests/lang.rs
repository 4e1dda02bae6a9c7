use d3j::lang::{resolve_lang, Arity, Entry, NodeTypes, TypeRef};
use d3j::{Error, Lang};
use serde_json::Value;

fn type_ref(v: &Value) -> TypeRef {
    TypeRef {
        kind: v["type"].as_str().unwrap_or_default().to_string(),
        named: v["named"].as_bool().unwrap_or(false),
    }
}

fn arity(v: &Value) -> Arity {
    Arity {
        required: v["required"].as_bool().unwrap_or(false),
        multiple: v["multiple"].as_bool().unwrap_or(false),
        types: v["types"].as_array().map(|ts| ts.iter().map(type_ref).collect()).unwrap_or_default(),
    }
}

/// The grammar's node types, loaded from its bundled JSON.
fn node_types(lang: Lang) -> NodeTypes {
    let json: Value = serde_json::from_str(lang.node_types_json()).expect("bundled JSON parses");
    let entries = json
        .as_array()
        .expect("node-types.json is an array")
        .iter()
        .map(|e| Entry {
            kind: e["type"].as_str().unwrap_or_default().to_string(),
            named: e["named"].as_bool().unwrap_or(false),
            fields: e["fields"]
                .as_object()
                .map(|fs| fs.iter().map(|(name, a)| (name.clone(), arity(a))).collect())
                .unwrap_or_default(),
            children: e.get("children").map(arity),
            subtypes: e["subtypes"].as_array().map(|ts| ts.iter().map(type_ref).collect()).unwrap_or_default(),
        })
        .collect();
    NodeTypes::from_entries(entries)
}

#[test]
fn detects_language_from_extension() {
    assert_eq!(Lang::detect("foo.rs").map(Lang::name), Some("rust"));
    assert_eq!(Lang::detect("Foo.java").map(Lang::name), Some("java"));
    assert_eq!(Lang::detect("foo.json").map(Lang::name), Some("json"));
    assert!(Lang::detect("foo.zig").is_none());
}

#[test]
fn by_name_returns_none_for_unregistered_language() {
    assert!(Lang::by_name("zig").is_none());
}

#[test]
fn node_types_metadata_is_loaded() {
    // binary_expression has fields => fixed slots exist for it.
    let has_fields = Lang::by_name("rust").map(|lang| node_types(lang).has_fields("binary_expression"));
    assert_eq!(has_fields, Some(true));
}

#[test]
fn fields_carry_required_multiple_and_types() {
    let types = node_types(Lang::Rust);
    let left_arity = types.get("binary_expression").and_then(|node_type| node_type.field("left"));
    assert!(matches!(left_arity, Some(Arity { required: true, multiple: false, .. })));
}

#[test]
fn children_slot_is_loaded_for_kinds_without_fields() {
    // JSON's `array` node has an unordered children list, not fields.
    let types = node_types(Lang::Json);
    let children = types.get("array").and_then(|node_type| node_type.children.as_ref());
    assert!(matches!(children, Some(Arity { multiple: true, .. })));
}

#[test]
fn named_entry_wins_over_anonymous_duplicate() {
    // Rust's `block` appears twice in node-types.json: the named entry
    // has a children arity, the anonymous token entry has nothing.
    let types = node_types(Lang::Rust);
    let children = types.get("block").and_then(|node_type| node_type.children.as_ref());
    assert!(matches!(
        children,
        Some(Arity { required: false, multiple: true, types }) if types.iter().any(|t| t.kind == "_expression")
    ));
}

#[test]
fn java_node_types_content_is_loaded() {
    let types = node_types(Lang::Java);
    let throws_children = types.get("throws").and_then(|node_type| node_type.children.as_ref());
    assert!(matches!(
        throws_children,
        Some(Arity { required: true, multiple: true, types }) if types.iter().any(|t| t.kind == "_type")
    ));
    let has_operator = types
        .get("binary_expression")
        .is_some_and(|node_type| node_type.field("operator").is_some());
    assert!(has_operator);
}

#[test]
fn supertype_subtypes_are_loaded() {
    let types = node_types(Lang::Rust);
    let has_const_item = types
        .get("_declaration_statement")
        .is_some_and(|node_type| node_type.subtypes.iter().any(|t| t.kind == "const_item"));
    assert!(has_const_item);
}

#[test]
fn language_accessor_exposes_grammar() {
    let node_kind_count = Lang::by_name("json").map(|lang| lang.language().node_kind_count());
    assert!(node_kind_count.is_some_and(|count| count > 0));
}

#[test]
fn unknown_kind_has_no_fields_or_metadata() {
    let types = node_types(Lang::Rust);
    assert!(!types.has_fields("not_a_real_kind"));
    assert!(types.get("not_a_real_kind").is_none());
}

#[test]
fn anonymous_entries_never_register() {
    let token = Entry { kind: "x".into(), named: false, fields: Vec::new(), children: None, subtypes: Vec::new() };
    let item = Entry {
        kind: "x".into(),
        named: true,
        fields: vec![("f".into(), Arity { required: true, multiple: false, types: Vec::new() })],
        children: None,
        subtypes: Vec::new(),
    };
    let types = NodeTypes::from_entries(vec![item, token]);
    assert!(types.has_fields("x"));
    assert!(types.get("x").and_then(|t| t.field("f")).is_some());
    assert!(types.get("x").and_then(|t| t.field("g")).is_none());
}

#[test]
fn names_and_extensions_round_trip() {
    for lang in [Lang::Rust, Lang::Java, Lang::Json] {
        assert_eq!(Lang::by_name(lang.name()), Some(lang));
    }
    assert_eq!(Lang::from_extension("rs"), Some(Lang::Rust));
    assert_eq!(Lang::from_extension("RS"), None);
    assert_eq!(Lang::detect("dir/foo.RS"), None);
    assert_eq!(Lang::detect("noext"), None);
}

#[test]
fn commutative_kinds_are_per_grammar() {
    assert!(Lang::Json.is_commutative("object"));
    assert!(!Lang::Json.is_commutative("array"));
    assert!(Lang::Rust.is_commutative("declaration_list"));
    assert!(Lang::Java.is_commutative("class_body"));
    assert!(!Lang::Java.is_commutative("block"));
}

#[test]
fn resolve_lang_prefers_the_flag_then_the_extension() {
    assert_eq!(resolve_lang("a.txt", Some("json")).ok(), Some(Lang::Json));
    assert_eq!(resolve_lang("a.rs", None).ok(), Some(Lang::Rust));
    match resolve_lang("a.rs", Some("zig")) {
        Err(Error::UnknownLanguage { path }) => assert_eq!(path, "zig"),
        other => panic!("expected an unknown language, got {other:?}"),
    }
    match resolve_lang("a.zig", None) {
        Err(Error::UnknownLanguage { path }) => assert_eq!(path, "a.zig"),
        other => panic!("expected an unknown language, got {other:?}"),
    }
}

#[test]
fn a_bare_name_is_detected_by_the_text_after_its_last_dot() {
    assert_eq!(Lang::detect("archive.tar.json").map(Lang::name), Some("json"));
    assert_eq!(Lang::detect("..rs").map(Lang::name), Some("rust"));
    assert_eq!(Lang::detect(".rs"), None);
    assert_eq!(Lang::detect("main.rs."), None);
}

#[test]
fn a_path_is_detected_by_its_last_components_extension() {
    assert_eq!(Lang::detect("src/main.rs").map(Lang::name), Some("rust"));
    assert_eq!(Lang::detect("/tmp/x.d/a.json").map(Lang::name), Some("json"));
    assert_eq!(Lang::detect("x.rs/noext"), None);
}
