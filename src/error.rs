use vstd::prelude::*;

verus! {

/// Why a bundling run failed, with the text that locates the offending input.
#[derive(Debug)]
pub enum BundleError {
    /// A relative-path reference names no document once the path prefix and
    /// the schema suffix are removed.
    EmptyDocumentKey { reference: String, document: String },
    /// A cross-document reference carries a fragment that is neither empty
    /// nor a pointer to a local definition.
    UnrecognizedFragment { reference: String, document: String },
    /// Two entries that are not both `oneOf` lists claim the same global name.
    Collision { name: String, existing: String, incoming: String },
    /// A `$ref` of the bundle does not point at a key of its definitions map.
    DanglingReference { reference: String },
}

/// The mathematical value of a `BundleError`.
pub enum Fault {
    EmptyDocumentKey { reference: Seq<char>, document: Seq<char> },
    UnrecognizedFragment { reference: Seq<char>, document: Seq<char> },
    Collision { name: Seq<char>, existing: Seq<char>, incoming: Seq<char> },
    DanglingReference { reference: Seq<char> },
}

impl View for BundleError {
    type V = Fault;

    open spec fn view(&self) -> Fault {
        match self {
            BundleError::EmptyDocumentKey { reference, document } => Fault::EmptyDocumentKey {
                reference: reference@,
                document: document@,
            },
            BundleError::UnrecognizedFragment { reference, document } =>
                Fault::UnrecognizedFragment { reference: reference@, document: document@ },
            BundleError::Collision { name, existing, incoming } => Fault::Collision {
                name: name@,
                existing: existing@,
                incoming: incoming@,
            },
            BundleError::DanglingReference { reference } => Fault::DanglingReference {
                reference: reference@,
            },
        }
    }
}

} // verus!
