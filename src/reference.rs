use vstd::prelude::*;

use crate::error::{BundleError, Fault};
use crate::text::{
    append, chars_of, ends_with, find_char, find_from, has_prefix, has_suffix, slice, starts_with,
    string_of,
};

verus! {

/// The suffix that marks a schema file.
pub open spec fn schema_suffix() -> Seq<char> {
    ".schema.json"@
}

/// The start of a cross-document reference.
pub open spec fn relative_marker() -> Seq<char> {
    "./"@
}

/// The first accepted spelling of a local-definitions block, with its separator.
pub open spec fn defs_marker() -> Seq<char> {
    "$defs/"@
}

/// The second accepted spelling of a local-definitions block, with its separator.
pub open spec fn definitions_marker() -> Seq<char> {
    "definitions/"@
}

/// Every rewritten reference starts with this.
pub open spec fn canonical_marker() -> Seq<char> {
    "#/definitions/"@
}

/// The canonical reference to the global name `g`.
pub open spec fn canonical(g: Seq<char>) -> Seq<char> {
    canonical_marker() + g
}

/// The global name of the local definition `name` of document `doc`.
pub open spec fn global_name(doc: Seq<char>, name: Seq<char>) -> Seq<char> {
    doc + seq!['.'] + name
}

/// A file name with the schema suffix removed, if it has one.
pub open spec fn document_key(file: Seq<char>) -> Seq<char> {
    if ends_with(file, schema_suffix()) {
        file.subrange(0, file.len() - schema_suffix().len())
    } else {
        file
    }
}

/// The local name a fragment points at: after an optional leading `/`, one of
/// the two spellings, a `/`, and a non-empty name.
pub open spec fn local_name(frag: Seq<char>) -> Option<Seq<char>> {
    let body = if frag.len() > 0 && frag[0] == '/' {
        frag.drop_first()
    } else {
        frag
    };
    if starts_with(body, defs_marker()) && body.len() > defs_marker().len() {
        Some(body.skip(defs_marker().len() as int))
    } else if starts_with(body, definitions_marker()) && body.len() > definitions_marker().len() {
        Some(body.skip(definitions_marker().len() as int))
    } else {
        None
    }
}

/// A fragment that names a whole document: empty, or a lone `/`.
pub open spec fn names_whole_document(frag: Seq<char>) -> bool {
    frag.len() == 0 || frag =~= seq!['/']
}

/// The shape of a reference string.
pub enum ReferenceV {
    /// `#` followed by a fragment.
    Local { path: Seq<char> },
    /// `./` followed by a file name and, after a `#`, maybe a fragment.
    Document { target: Seq<char>, fragment: Option<Seq<char>> },
    /// Anything else.
    Foreign,
}

pub open spec fn parse_spec(s: Seq<char>) -> ReferenceV {
    if starts_with(s, relative_marker()) {
        let rest = s.skip(relative_marker().len() as int);
        let h = find_from(rest, '#', 0);
        let target = document_key(rest.take(h));
        if h == rest.len() {
            ReferenceV::Document { target, fragment: None }
        } else {
            ReferenceV::Document { target, fragment: Some(rest.skip(h + 1)) }
        }
    } else if s.len() > 0 && s[0] == '#' {
        ReferenceV::Local { path: s.drop_first() }
    } else {
        ReferenceV::Foreign
    }
}

/// The global name `n` belongs to document `doc`: it is the document's own
/// key, or one of its hoisted definitions.
pub open spec fn owned_by(n: Seq<char>, doc: Seq<char>) -> bool {
    n == doc || starts_with(n, doc + seq!['.'])
}

/// `s` is already the canonical reference to a global name of `doc`.
pub open spec fn canonical_in(s: Seq<char>, doc: Seq<char>) -> bool {
    starts_with(s, canonical_marker()) && owned_by(s.skip(canonical_marker().len() as int), doc)
}

/// What a reference found in document `doc` becomes in the bundle. A
/// reference that is already canonical for `doc` is kept as it is.
pub open spec fn rewrite_spec(s: Seq<char>, doc: Seq<char>) -> Result<Seq<char>, Fault> {
    match parse_spec(s) {
        ReferenceV::Document { target, fragment } => {
            if target.len() == 0 {
                Err(Fault::EmptyDocumentKey { reference: s, document: doc })
            } else {
                match fragment {
                    None => Ok(canonical(target)),
                    Some(f) => match local_name(f) {
                        Some(n) => Ok(canonical(global_name(target, n))),
                        None => if names_whole_document(f) {
                            Ok(canonical(target))
                        } else {
                            Err(Fault::UnrecognizedFragment { reference: s, document: doc })
                        },
                    },
                }
            }
        },
        ReferenceV::Local { path } => if canonical_in(s, doc) {
            Ok(s)
        } else {
            match local_name(path) {
                Some(n) => Ok(canonical(global_name(doc, n))),
                None => Ok(s),
            }
        },
        ReferenceV::Foreign => Ok(s),
    }
}

/// A reference string, split into its parts.
pub enum Reference {
    Local { path: Vec<char> },
    Document { target: Vec<char>, fragment: Option<Vec<char>> },
    Foreign,
}

impl View for Reference {
    type V = ReferenceV;

    open spec fn view(&self) -> ReferenceV {
        match self {
            Reference::Local { path } => ReferenceV::Local { path: path@ },
            Reference::Document { target, fragment } => ReferenceV::Document {
                target: target@,
                fragment: match fragment {
                    Some(f) => Some(f@),
                    None => None,
                },
            },
            Reference::Foreign => ReferenceV::Foreign,
        }
    }
}

/// Splits a reference string into its parts.
pub fn parse_reference(s: &Vec<char>) -> (r: Reference)
    ensures
        r@ == parse_spec(s@),
{
    let marker = chars_of("./");
    if has_prefix(s, &marker) {
        let rest = slice(s, marker.len(), s.len());
        let h = find_char(&rest, '#', 0);
        let file = slice(&rest, 0, h);
        let target = strip_schema_suffix(&file);
        if h == rest.len() {
            Reference::Document { target, fragment: None }
        } else {
            let fragment = slice(&rest, h + 1, rest.len());
            Reference::Document { target, fragment: Some(fragment) }
        }
    } else if s.len() > 0 && s[0] == '#' {
        Reference::Local { path: slice(s, 1, s.len()) }
    } else {
        Reference::Foreign
    }
}

/// The document key of a file name.
pub fn strip_schema_suffix(file: &Vec<char>) -> (r: Vec<char>)
    ensures
        r@ == document_key(file@),
{
    let suffix = chars_of(".schema.json");
    if has_suffix(file, &suffix) {
        slice(file, 0, file.len() - suffix.len())
    } else {
        slice(file, 0, file.len())
    }
}

/// The local name a fragment points at, if any.
pub fn fragment_local_name(frag: &Vec<char>) -> (r: Option<Vec<char>>)
    ensures
        match r {
            Some(n) => local_name(frag@) == Some(n@),
            None => local_name(frag@) is None,
        },
{
    let body = if frag.len() > 0 && frag[0] == '/' {
        slice(frag, 1, frag.len())
    } else {
        slice(frag, 0, frag.len())
    };
    proof {
        assert(frag@.len() > 0 && frag@[0] == '/' ==> body@ == frag@.drop_first());
        assert(!(frag@.len() > 0 && frag@[0] == '/') ==> body@ =~= frag@);
    }
    let defs = chars_of("$defs/");
    if has_prefix(&body, &defs) && body.len() > defs.len() {
        return Some(slice(&body, defs.len(), body.len()));
    }
    let definitions = chars_of("definitions/");
    if has_prefix(&body, &definitions) && body.len() > definitions.len() {
        return Some(slice(&body, definitions.len(), body.len()));
    }
    None
}

/// The canonical reference to the global name `g`.
pub fn canonical_reference(g: &Vec<char>) -> (r: String)
    ensures
        r@ == canonical(g@),
{
    let mut out = chars_of("#/definitions/");
    append(&mut out, g);
    string_of(out.as_slice())
}

/// The global name of the local definition `name` of document `doc`.
pub fn make_global_name(doc: &Vec<char>, name: &Vec<char>) -> (r: Vec<char>)
    ensures
        r@ == global_name(doc@, name@),
{
    let mut out = slice(doc, 0, doc.len());
    out.push('.');
    append(&mut out, name);
    out
}

/// Whether `s` is already the canonical reference to a global name of `doc`.
pub fn is_canonical_in(s: &Vec<char>, doc: &Vec<char>) -> (r: bool)
    ensures
        r == canonical_in(s@, doc@),
{
    let marker = chars_of("#/definitions/");
    if !has_prefix(s, &marker) {
        return false;
    }
    let n = slice(s, marker.len(), s.len());
    assert(n@ =~= s@.skip(canonical_marker().len() as int));
    if n.len() == doc.len() && has_prefix(&n, doc) {
        assert(n@.subrange(0, doc@.len() as int) =~= n@);
        return true;
    }
    if n.len() == doc.len() {
        assert(n@ != doc@) by {
            if n@ == doc@ {
                assert(n@.subrange(0, doc@.len() as int) =~= n@);
            }
        }
    }
    let mut owner = slice(doc, 0, doc.len());
    owner.push('.');
    assert(owner@ =~= doc@ + seq!['.']);
    has_prefix(&n, &owner)
}

/// Rewrites a reference found in document `current_doc` to the canonical
/// reference of its target in the bundle.
pub fn rewrite_ref_target(s: &str, current_doc: &str) -> (r: Result<String, BundleError>)
    ensures
        match r {
            Ok(t) => rewrite_spec(s@, current_doc@) == Ok::<Seq<char>, Fault>(t@),
            Err(e) => rewrite_spec(s@, current_doc@) == Err::<Seq<char>, Fault>(e@),
        },
{
    let chars = chars_of(s);
    match parse_reference(&chars) {
        Reference::Document { target, fragment } => {
            if target.len() == 0 {
                return Err(
                    BundleError::EmptyDocumentKey {
                        reference: s.to_owned(),
                        document: current_doc.to_owned(),
                    },
                );
            }
            match fragment {
                None => Ok(canonical_reference(&target)),
                Some(f) => match fragment_local_name(&f) {
                    Some(n) => Ok(canonical_reference(&make_global_name(&target, &n))),
                    None => {
                        if f.len() == 0 || (f.len() == 1 && f[0] == '/') {
                            proof {
                                assert(f@.len() == 1 ==> f@ =~= seq!['/']);
                            }
                            Ok(canonical_reference(&target))
                        } else {
                            Err(
                                BundleError::UnrecognizedFragment {
                                    reference: s.to_owned(),
                                    document: current_doc.to_owned(),
                                },
                            )
                        }
                    },
                },
            }
        },
        Reference::Local { path } => {
            let doc = chars_of(current_doc);
            if is_canonical_in(&chars, &doc) {
                return Ok(s.to_owned());
            }
            match fragment_local_name(&path) {
                Some(n) => Ok(canonical_reference(&make_global_name(&doc, &n))),
                None => Ok(s.to_owned()),
            }
        },
        Reference::Foreign => Ok(s.to_owned()),
    }
}

} // verus!
