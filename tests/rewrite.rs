use rust_generator::error::BundleError;
use rust_generator::reference::rewrite_ref_target;

fn ok(s: &str, doc: &str) -> String {
    match rewrite_ref_target(s, doc) {
        Ok(t) => t,
        Err(e) => panic!("unexpected error {:?}", e),
    }
}

#[test]
fn cross_document_whole() {
    assert_eq!(ok("./a.schema.json", "b"), "#/definitions/a");
}

#[test]
fn cross_document_whole_without_suffix() {
    assert_eq!(ok("./a", "b"), "#/definitions/a");
}

#[test]
fn cross_document_empty_fragment() {
    assert_eq!(ok("./a.schema.json#", "b"), "#/definitions/a");
    assert_eq!(ok("./a.schema.json#/", "b"), "#/definitions/a");
}

#[test]
fn cross_document_defs_pointer() {
    assert_eq!(ok("./a.schema.json#/$defs/Foo", "b"), "#/definitions/a.Foo");
}

#[test]
fn cross_document_definitions_pointer() {
    assert_eq!(ok("./a.schema.json#/definitions/Foo", "b"), "#/definitions/a.Foo");
    assert_eq!(ok("./a.schema.json#definitions/Foo", "b"), "#/definitions/a.Foo");
}

#[test]
fn local_defs_pointer_uses_current_document() {
    assert_eq!(ok("#/$defs/Foo", "a"), "#/definitions/a.Foo");
    assert_eq!(ok("#/definitions/Bar", "c"), "#/definitions/c.Bar");
}

#[test]
fn local_other_fragment_unchanged() {
    assert_eq!(ok("#/properties/x", "a"), "#/properties/x");
    assert_eq!(ok("#", "a"), "#");
    assert_eq!(ok("#/$defs/", "a"), "#/$defs/");
}

#[test]
fn foreign_reference_unchanged() {
    assert_eq!(ok("http://example.com/s.json", "a"), "http://example.com/s.json");
    assert_eq!(ok("", "a"), "");
}

#[test]
fn canonical_reference_of_own_document_unchanged() {
    assert_eq!(ok("#/definitions/a.Foo", "a"), "#/definitions/a.Foo");
    assert_eq!(ok("#/definitions/a", "a"), "#/definitions/a");
    assert_eq!(ok("#/definitions/a.Foo.Bar", "a"), "#/definitions/a.Foo.Bar");
}

#[test]
fn definitions_pointer_of_another_owner_is_namespaced() {
    assert_eq!(ok("#/definitions/b.Foo", "a"), "#/definitions/a.b.Foo");
    assert_eq!(ok("#/definitions/ab", "a"), "#/definitions/a.ab");
    assert_eq!(ok("#/$defs/a.Foo", "a"), "#/definitions/a.a.Foo");
}

#[test]
fn rewriting_twice_changes_nothing_more() {
    for s in ["#/$defs/Foo", "#/definitions/Bar", "#/properties/x", "#/definitions/a.Foo"] {
        let once = ok(s, "a");
        assert_eq!(ok(&once, "a"), once);
    }
}

#[test]
fn empty_document_key_fails() {
    match rewrite_ref_target("./.schema.json#/$defs/X", "b") {
        Err(BundleError::EmptyDocumentKey { reference, document }) => {
            assert_eq!(reference, "./.schema.json#/$defs/X");
            assert_eq!(document, "b");
        }
        other => panic!("unexpected {:?}", other),
    }
}

#[test]
fn unrecognized_fragment_fails() {
    match rewrite_ref_target("./a.schema.json#/properties/x", "b") {
        Err(BundleError::UnrecognizedFragment { reference, document }) => {
            assert_eq!(reference, "./a.schema.json#/properties/x");
            assert_eq!(document, "b");
        }
        other => panic!("unexpected {:?}", other),
    }
}
