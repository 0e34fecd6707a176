use rust_generator::bundle::bundle_documents;
use rust_generator::discovery::{document_key_of, select_schema_files};
use rust_generator::error::BundleError;
use rust_generator::hoist::{transform, Entry};
use rust_generator::json::Json;

fn s(t: &str) -> Json {
    Json::Str(t.to_string())
}

fn obj(ms: Vec<(&str, Json)>) -> Json {
    Json::Object(ms.into_iter().map(|(k, v)| (k.to_string(), v)).collect())
}

fn docs(ds: Vec<(&str, Json)>) -> Vec<(String, Json)> {
    ds.into_iter().map(|(k, v)| (k.to_string(), v)).collect()
}

fn bundle_of(defs: Json) -> Json {
    obj(vec![
        ("$schema", s("http://json-schema.org/draft-07/schema")),
        ("definitions", defs),
    ])
}

fn one_of(alts: Vec<Json>) -> Json {
    obj(vec![("oneOf", Json::Array(alts))])
}

fn ty(t: &str) -> Json {
    obj(vec![("type", s(t))])
}

fn has_defs_block(v: &Json) -> bool {
    match v {
        Json::Array(items) => items.iter().any(has_defs_block),
        Json::Object(ms) => ms.iter().any(|(k, x)| {
            ((k == "$defs" || k == "definitions") && matches!(x, Json::Object(_)))
                || has_defs_block(x)
        }),
        _ => false,
    }
}

fn collect_refs(v: &Json, out: &mut Vec<String>) {
    match v {
        Json::Array(items) => items.iter().for_each(|x| collect_refs(x, out)),
        Json::Object(ms) => {
            for (k, x) in ms {
                match x {
                    Json::Str(t) if k == "$ref" => out.push(t.clone()),
                    _ => collect_refs(x, out),
                }
            }
        }
        _ => {}
    }
}

fn definitions_of(bundle: &Json) -> &Vec<(String, Json)> {
    match bundle {
        Json::Object(ms) => match &ms[1].1 {
            Json::Object(d) => d,
            _ => panic!("no definitions map"),
        },
        _ => panic!("not an object"),
    }
}

#[test]
fn two_independent_documents() {
    let input = docs(vec![
        ("a", ty("object")),
        ("b", obj(vec![("$ref", s("./a.schema.json"))])),
    ]);
    let out = bundle_documents(&input).unwrap();
    let expected = bundle_of(obj(vec![
        ("a", ty("object")),
        ("b", obj(vec![("$ref", s("#/definitions/a"))])),
    ]));
    assert!(out.same(&expected), "{:?}", out);
}

#[test]
fn nested_local_definitions_with_cross_document_reference() {
    let a = obj(vec![
        ("$defs", obj(vec![("Foo", ty("string"))])),
        ("type", s("object")),
    ]);
    let b = obj(vec![("$ref", s("./a.schema.json#/$defs/Foo"))]);
    let out = bundle_documents(&docs(vec![("a", a), ("b", b)])).unwrap();
    let expected = bundle_of(obj(vec![
        ("a.Foo", ty("string")),
        ("a", ty("object")),
        ("b", obj(vec![("$ref", s("#/definitions/a.Foo"))])),
    ]));
    assert!(out.same(&expected), "{:?}", out);
}

#[test]
fn definitions_inside_definitions_are_hoisted_first() {
    let a = obj(vec![(
        "$defs",
        obj(vec![(
            "Outer",
            obj(vec![
                ("definitions", obj(vec![("Inner", ty("string"))])),
                ("$ref", s("#/$defs/Inner")),
            ]),
        )]),
    )]);
    let out = bundle_documents(&docs(vec![("a", a)])).unwrap();
    let expected = bundle_of(obj(vec![
        ("a.Inner", ty("string")),
        ("a.Outer", obj(vec![("$ref", s("#/definitions/a.Inner"))])),
        ("a", obj(vec![])),
    ]));
    assert!(out.same(&expected), "{:?}", out);
    assert!(definitions_of(&out).iter().all(|(_, x)| !has_defs_block(x)));
}

#[test]
fn every_reference_of_a_bundle_resolves() {
    let a = obj(vec![
        ("$defs", obj(vec![("Foo", ty("string")), ("Bar", obj(vec![("$ref", s("#/$defs/Foo"))]))])),
        ("properties", obj(vec![("x", obj(vec![("$ref", s("#/definitions/Bar"))]))])),
    ]);
    let b = obj(vec![(
        "items",
        Json::Array(vec![
            obj(vec![("$ref", s("./a.schema.json"))]),
            obj(vec![("$ref", s("./a.schema.json#/definitions/Foo"))]),
        ]),
    )]);
    let out = bundle_documents(&docs(vec![("a", a), ("b", b)])).unwrap();
    let defs = definitions_of(&out);
    let mut refs = Vec::new();
    collect_refs(&out, &mut refs);
    assert_eq!(refs.len(), 4);
    for r in refs {
        let name = r.strip_prefix("#/definitions/").unwrap();
        assert!(defs.iter().any(|(k, _)| k == name), "{}", r);
    }
    assert!(definitions_of(&out).iter().all(|(_, x)| !has_defs_block(x)));
}

#[test]
fn dangling_reference_fails() {
    let b = obj(vec![("$ref", s("./missing.schema.json"))]);
    match bundle_documents(&docs(vec![("b", b)])) {
        Err(BundleError::DanglingReference { reference }) => {
            assert_eq!(reference, "#/definitions/missing");
        }
        other => panic!("unexpected {:?}", other),
    }
}

#[test]
fn second_plain_entry_under_one_name_fails() {
    let a = obj(vec![
        ("$defs", obj(vec![("C", ty("string"))])),
        ("definitions", obj(vec![("C", ty("number"))])),
    ]);
    match bundle_documents(&docs(vec![("a", a)])) {
        Err(BundleError::Collision { name, existing, incoming }) => {
            assert_eq!(name, "a.C");
            assert_eq!(existing, "a");
            assert_eq!(incoming, "a");
        }
        other => panic!("unexpected {:?}", other),
    }
}

#[test]
fn document_root_clashing_with_hoisted_name_fails() {
    let a = obj(vec![("$defs", obj(vec![("b", ty("string"))]))]);
    let ab = ty("object");
    match bundle_documents(&docs(vec![("a", a), ("a.b", ab)])) {
        Err(BundleError::Collision { name, existing, incoming }) => {
            assert_eq!(name, "a.b");
            assert_eq!(existing, "a");
            assert_eq!(incoming, "a.b");
        }
        other => panic!("unexpected {:?}", other),
    }
}

#[test]
fn one_of_lists_under_one_name_are_merged() {
    let a = obj(vec![("$defs", obj(vec![("b.Kind", one_of(vec![ty("string"), ty("number")]))]))]);
    let ab = obj(vec![
        ("$defs", obj(vec![("Kind", one_of(vec![ty("number"), ty("boolean")]))])),
        ("$ref", s("#/$defs/Kind")),
    ]);
    let out = bundle_documents(&docs(vec![("a", a), ("a.b", ab)])).unwrap();
    let expected = bundle_of(obj(vec![
        ("a.b.Kind", one_of(vec![ty("string"), ty("number"), ty("boolean")])),
        ("a", obj(vec![])),
        ("a.b", obj(vec![("$ref", s("#/definitions/a.b.Kind"))])),
    ]));
    assert!(out.same(&expected), "{:?}", out);
}

#[test]
fn one_of_lists_in_one_document_are_merged() {
    let a = obj(vec![
        ("$defs", obj(vec![("K", one_of(vec![s("x"), s("y")]))])),
        ("definitions", obj(vec![("K", one_of(vec![s("y"), s("z"), s("x")]))])),
    ]);
    let mut hoisted: Vec<Entry> = Vec::new();
    let out = transform(&a, "a", &mut hoisted).unwrap();
    assert!(out.same(&obj(vec![])));
    assert_eq!(hoisted.len(), 1);
    assert_eq!(hoisted[0].name, "a.K");
    assert_eq!(hoisted[0].owner, "a");
    assert!(hoisted[0].schema.same(&one_of(vec![s("x"), s("y"), s("z")])));
}

#[test]
fn transform_keeps_other_members_and_arrays() {
    let v = obj(vec![
        ("$defs", s("not a block")),
        ("n", Json::Number("1.5".to_string())),
        ("list", Json::Array(vec![Json::Null, Json::Bool(true), obj(vec![("$ref", s("#/$defs/X"))])])),
        ("$ref", Json::Number("3".to_string())),
    ]);
    let mut hoisted: Vec<Entry> = Vec::new();
    let out = transform(&v, "d", &mut hoisted).unwrap();
    let expected = obj(vec![
        ("$defs", s("not a block")),
        ("n", Json::Number("1.5".to_string())),
        ("list", Json::Array(vec![Json::Null, Json::Bool(true), obj(vec![("$ref", s("#/definitions/d.X"))])])),
        ("$ref", Json::Number("3".to_string())),
    ]);
    assert!(out.same(&expected), "{:?}", out);
    assert!(hoisted.is_empty());
}

#[test]
fn empty_input_gives_empty_definitions() {
    let out = bundle_documents(&Vec::new()).unwrap();
    assert!(out.same(&bundle_of(obj(vec![]))));
}

#[test]
fn bundling_twice_gives_the_same_result() {
    let make = || {
        docs(vec![
            ("a", obj(vec![("$defs", obj(vec![("Foo", ty("string"))]))])),
            ("b", obj(vec![("$ref", s("./a.schema.json#/$defs/Foo"))])),
        ])
    };
    let first = bundle_documents(&make()).unwrap();
    let second = bundle_documents(&make()).unwrap();
    assert!(first.same(&second));
}

#[test]
fn exclusion_set_is_skipped() {
    let names: Vec<String> = vec!["b.schema.json", "bundled.schema.json", "a.schema.json", "notes.txt"]
        .into_iter()
        .map(String::from)
        .collect();
    let skip = vec!["bundled.schema.json".to_string()];
    let picked = select_schema_files(&names, &skip);
    assert_eq!(picked, vec!["a.schema.json".to_string(), "b.schema.json".to_string()]);
}

#[test]
fn selection_ignores_listing_order() {
    let one: Vec<String> = vec!["c.schema.json", "a.schema.json", "ab.schema.json", "B.schema.json"]
        .into_iter()
        .map(String::from)
        .collect();
    let mut two = one.clone();
    two.reverse();
    let from_one = select_schema_files(&one, &Vec::new());
    let from_two = select_schema_files(&two, &Vec::new());
    assert_eq!(from_one, from_two);
    assert_eq!(from_one, vec!["B.schema.json", "a.schema.json", "ab.schema.json", "c.schema.json"]);
}

#[test]
fn document_keys_drop_the_suffix() {
    assert_eq!(document_key_of("a.schema.json"), "a");
    assert_eq!(document_key_of("graph.node.schema.json"), "graph.node");
    assert_eq!(document_key_of("plain.json"), "plain.json");
}

#[test]
fn copy_and_same() {
    let v = obj(vec![("k", Json::Array(vec![s("x"), Json::Number("2".to_string())]))]);
    let c = v.copy();
    assert!(v.same(&c));
    assert!(!v.same(&obj(vec![("k", Json::Array(vec![s("x")]))])));
    assert!(!s("1").same(&Json::Number("1".to_string())));
}

#[test]
fn transforming_twice_changes_nothing_more() {
    let v = obj(vec![
        ("$defs", obj(vec![("Foo", ty("string"))])),
        ("a", obj(vec![("$ref", s("#/$defs/Foo"))])),
        ("b", obj(vec![("$ref", s("#/definitions/d.Bar"))])),
        ("c", obj(vec![("$ref", s("#/properties/x"))])),
    ]);
    let mut first: Vec<Entry> = Vec::new();
    let once = transform(&v, "d", &mut first).unwrap();
    let mut second: Vec<Entry> = Vec::new();
    let twice = transform(&once, "d", &mut second).unwrap();
    assert!(once.same(&twice), "{:?}", twice);
    assert!(second.is_empty());
    assert_eq!(first.len(), 1);
}
