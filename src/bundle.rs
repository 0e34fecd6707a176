use vstd::prelude::*;

use crate::error::{BundleError, Fault};
use crate::hoist::{
    hoist, insert_entry, insert_spec, is_text, ref_key, transform, view_entries, Entry, EntryV,
};
use crate::json::{lemma_view_items, lemma_view_members, view_items, view_members, Json, JsonV};
use crate::reference::{canonical, canonical_reference};
use crate::text::chars_of;

verus! {

broadcast use {vstd::seq::group_seq_axioms, vstd::std_specs::vec::group_vec_axioms};

/// The schema identifier of every bundle.
pub open spec fn draft_07() -> Seq<char> {
    "http://json-schema.org/draft-07/schema"@
}

/// `defs` with each entry of `added` inserted in turn.
pub open spec fn merge_spec(defs: Seq<EntryV>, added: Seq<EntryV>) -> Result<Seq<EntryV>, Fault>
    decreases added.len(),
{
    if added.len() == 0 {
        Ok(defs)
    } else {
        match merge_spec(defs, added.drop_last()) {
            Err(f) => Err(f),
            Ok(d1) => insert_spec(d1, added.last().name, added.last().schema, added.last().owner),
        }
    }
}

/// The definitions map built from the documents `docs`, each a document key
/// and its body, taken in order: for each, the definitions it hoists, then
/// its own rewritten body under its key.
pub open spec fn bundle_defs(docs: Seq<(Seq<char>, JsonV)>) -> Result<Seq<EntryV>, Fault>
    decreases docs.len(),
{
    if docs.len() == 0 {
        Ok(Seq::empty())
    } else {
        match bundle_defs(docs.drop_last()) {
            Err(f) => Err(f),
            Ok(d1) => {
                let key = docs.last().0;
                match hoist(docs.last().1, key, Seq::empty()) {
                    Err(f) => Err(f),
                    Ok((out, local)) => match merge_spec(d1, local) {
                        Err(f) => Err(f),
                        Ok(d2) => insert_spec(d2, key, out, key),
                    },
                }
            },
        }
    }
}

/// `s` is the canonical reference to an entry of `defs`.
pub open spec fn resolves(s: Seq<char>, defs: Seq<EntryV>) -> bool {
    exists|i: int| 0 <= i < defs.len() && s == canonical(#[trigger] defs[i].name)
}

/// Every reference string of `v` resolves in `defs`.
pub open spec fn refs_resolve(v: JsonV, defs: Seq<EntryV>) -> bool
    decreases v,
{
    match v {
        JsonV::Array(items) => items_resolve(items, defs),
        JsonV::Object(ms) => members_resolve(ms, defs),
        _ => true,
    }
}

pub open spec fn items_resolve(items: Seq<JsonV>, defs: Seq<EntryV>) -> bool
    decreases items,
{
    items.len() == 0 || (items_resolve(items.drop_last(), defs) && refs_resolve(
        items.last(),
        defs,
    ))
}

pub open spec fn members_resolve(ms: Seq<(Seq<char>, JsonV)>, defs: Seq<EntryV>) -> bool
    decreases ms,
{
    ms.len() == 0 || (members_resolve(ms.drop_last(), defs) && {
        let k = ms.last().0;
        let x = ms.last().1;
        if k == ref_key() && x is Str {
            resolves(x->Str_0, defs)
        } else {
            refs_resolve(x, defs)
        }
    })
}

/// Every reference string of every entry of `defs` resolves in `defs`.
pub open spec fn closed(defs: Seq<EntryV>) -> bool {
    forall|i: int| 0 <= i < defs.len() ==> refs_resolve(#[trigger] defs[i].schema, defs)
}

/// The members of the definitions map.
pub open spec fn definitions_members(defs: Seq<EntryV>) -> Seq<(Seq<char>, JsonV)> {
    defs.map_values(|e: EntryV| (e.name, e.schema))
}

/// The bundle document around the definitions map `defs`.
pub open spec fn bundle_value(defs: Seq<EntryV>) -> JsonV {
    JsonV::Object(
        seq![
            ("$schema"@, JsonV::Str(draft_07())),
            ("definitions"@, JsonV::Object(definitions_members(defs))),
        ],
    )
}

/// Whether `s` is the canonical reference to an entry of `defs`.
pub fn resolves_in(s: &String, defs: &Vec<Entry>) -> (r: bool)
    ensures
        r == resolves(s@, view_entries(defs@)),
{
    let ghost vd = view_entries(defs@);
    let mut i: usize = 0;
    while i < defs.len()
        invariant
            i <= defs@.len(),
            vd == view_entries(defs@),
            forall|j: int| 0 <= j < i ==> s@ != canonical(#[trigger] vd[j].name),
        decreases defs@.len() - i,
    {
        let c = canonical_reference(&chars_of(defs[i].name.as_str()));
        if *s == c {
            assert(s@ == canonical(vd[i as int].name));
            return true;
        }
        i += 1;
    }
    false
}

proof fn lemma_items_unresolved(items: Seq<JsonV>, i: int, defs: Seq<EntryV>)
    requires
        0 <= i <= items.len(),
        !items_resolve(items.take(i), defs),
    ensures
        !items_resolve(items, defs),
    decreases items.len() - i,
{
    if i == items.len() {
        assert(items.take(i) =~= items);
    } else {
        assert(items.take(i + 1).drop_last() =~= items.take(i));
        lemma_items_unresolved(items, i + 1, defs);
    }
}

proof fn lemma_members_unresolved(ms: Seq<(Seq<char>, JsonV)>, i: int, defs: Seq<EntryV>)
    requires
        0 <= i <= ms.len(),
        !members_resolve(ms.take(i), defs),
    ensures
        !members_resolve(ms, defs),
    decreases ms.len() - i,
{
    if i == ms.len() {
        assert(ms.take(i) =~= ms);
    } else {
        assert(ms.take(i + 1).drop_last() =~= ms.take(i));
        lemma_members_unresolved(ms, i + 1, defs);
    }
}

/// A reference string of `v` that does not resolve in `defs`, if there is one.
pub fn find_dangling(v: &Json, defs: &Vec<Entry>) -> (r: Option<String>)
    ensures
        r is None <==> refs_resolve(v@, view_entries(defs@)),
        r matches Some(s) ==> !resolves(s@, view_entries(defs@)),
    decreases v,
{
    let ghost vd = view_entries(defs@);
    match v {
        Json::Array(items) => {
            let ghost vi = view_items(items@);
            proof {
                lemma_view_items(items@);
            }
            let mut i: usize = 0;
            while i < items.len()
                invariant
                    i <= items@.len(),
                    *v == Json::Array(*items),
                    vi == view_items(items@),
                    vi.len() == items@.len(),
                    vd == view_entries(defs@),
                    forall|j: int| 0 <= j < items@.len() ==> #[trigger] vi[j] == items@[j]@,
                    items_resolve(vi.take(i as int), vd),
                decreases items@.len() - i,
            {
                assert(vi.take(i + 1).drop_last() =~= vi.take(i as int));
                assert(vi.take(i + 1).last() == vi[i as int]);
                proof {
                    assert(decreases_to!(*v => (*v)->Array_0));
                    assert(decreases_to!(*items => items[i as int]));
                }
                let d = find_dangling(&items[i], defs);
                if d.is_some() {
                    proof {
                        lemma_items_unresolved(vi, i + 1, vd);
                    }
                    return d;
                }
                i += 1;
            }
            assert(vi.take(vi.len() as int) =~= vi);
            None
        },
        Json::Object(ms) => {
            let ghost vm = view_members(ms@);
            proof {
                lemma_view_members(ms@);
            }
            let mut i: usize = 0;
            while i < ms.len()
                invariant
                    i <= ms@.len(),
                    *v == Json::Object(*ms),
                    vm == view_members(ms@),
                    vm.len() == ms@.len(),
                    vd == view_entries(defs@),
                    forall|j: int|
                        0 <= j < ms@.len() ==> #[trigger] vm[j] == (ms@[j].0@, ms@[j].1@),
                    members_resolve(vm.take(i as int), vd),
                decreases ms@.len() - i,
            {
                assert(vm.take(i + 1).drop_last() =~= vm.take(i as int));
                assert(vm.take(i + 1).last() == vm[i as int]);
                proof {
                    assert(decreases_to!(*v => (*v)->Object_0));
                    assert(decreases_to!(*ms => ms[i as int]));
                }
                let is_ref = is_text(&ms[i].0, "$ref");
                let d = match &ms[i].1 {
                    Json::Str(t) if is_ref => {
                        if resolves_in(t, defs) {
                            None
                        } else {
                            Some(t.clone())
                        }
                    },
                    x => find_dangling(x, defs),
                };
                if d.is_some() {
                    proof {
                        lemma_members_unresolved(vm, i + 1, vd);
                    }
                    return d;
                }
                i += 1;
            }
            assert(vm.take(vm.len() as int) =~= vm);
            None
        },
        _ => None,
    }
}

/// Inserts each entry of `added` into `defs` in turn.
pub fn merge_entries(defs: &mut Vec<Entry>, added: &Vec<Entry>) -> (r: Result<(), BundleError>)
    ensures
        match merge_spec(view_entries(old(defs)@), view_entries(added@)) {
            Ok(d) => r is Ok && view_entries(final(defs)@) == d,
            Err(f) => r is Err && r->Err_0@ == f,
        },
{
    let ghost va = view_entries(added@);
    let ghost d0 = view_entries(defs@);
    assert(va.take(0) =~= Seq::<EntryV>::empty());
    let mut i: usize = 0;
    while i < added.len()
        invariant
            i <= added@.len(),
            va == view_entries(added@),
            d0 == view_entries(old(defs)@),
            merge_spec(d0, va.take(i as int)) == Ok::<Seq<EntryV>, Fault>(view_entries(defs@)),
        decreases added@.len() - i,
    {
        assert(va.take(i + 1).drop_last() =~= va.take(i as int));
        let e = &added[i];
        match insert_entry(defs, e.name.clone(), e.schema.copy(), e.owner.as_str()) {
            Ok(()) => {},
            Err(err) => {
                proof {
                    lemma_merge_fail(d0, va, i + 1);
                }
                return Err(err);
            },
        }
        i += 1;
    }
    assert(va.take(va.len() as int) =~= va);
    Ok(())
}

proof fn lemma_merge_fail(d: Seq<EntryV>, added: Seq<EntryV>, i: int)
    requires
        0 <= i <= added.len(),
        merge_spec(d, added.take(i)) is Err,
    ensures
        merge_spec(d, added) == merge_spec(d, added.take(i)),
    decreases added.len() - i,
{
    if i == added.len() {
        assert(added.take(i) =~= added);
    } else {
        assert(added.take(i + 1).drop_last() =~= added.take(i));
        lemma_merge_fail(d, added, i + 1);
    }
}

proof fn lemma_bundle_fail(docs: Seq<(Seq<char>, JsonV)>, i: int)
    requires
        0 <= i <= docs.len(),
        bundle_defs(docs.take(i)) is Err,
    ensures
        bundle_defs(docs) == bundle_defs(docs.take(i)),
    decreases docs.len() - i,
{
    if i == docs.len() {
        assert(docs.take(i) =~= docs);
    } else {
        assert(docs.take(i + 1).drop_last() =~= docs.take(i));
        lemma_bundle_fail(docs, i + 1);
    }
}

/// A reference string of some entry of `defs` that does not resolve in
/// `defs`, if there is one.
pub fn find_dangling_entry(defs: &Vec<Entry>) -> (r: Option<String>)
    ensures
        r is None <==> closed(view_entries(defs@)),
        r matches Some(s) ==> !resolves(s@, view_entries(defs@)),
{
    let ghost vd = view_entries(defs@);
    let mut i: usize = 0;
    while i < defs.len()
        invariant
            i <= defs@.len(),
            vd == view_entries(defs@),
            forall|j: int| 0 <= j < i ==> refs_resolve(#[trigger] vd[j].schema, vd),
        decreases defs@.len() - i,
    {
        let d = find_dangling(&defs[i].schema, defs);
        if d.is_some() {
            assert(!refs_resolve(vd[i as int].schema, vd));
            return d;
        }
        i += 1;
    }
    None
}

/// The definitions map built from `docs`, each a document key and its body,
/// in the given order.
pub fn build_definitions(docs: &Vec<(String, Json)>) -> (r: Result<Vec<Entry>, BundleError>)
    ensures
        match bundle_defs(view_members(docs@)) {
            Ok(d) => r is Ok && view_entries(r->Ok_0@) == d,
            Err(f) => r is Err && r->Err_0@ == f,
        },
{
    let ghost vdocs = view_members(docs@);
    proof {
        lemma_view_members(docs@);
        assert(vdocs.take(0) =~= Seq::<(Seq<char>, JsonV)>::empty());
        assert(view_entries(Seq::<Entry>::empty()) =~= Seq::<EntryV>::empty());
    }
    let mut defs: Vec<Entry> = Vec::new();
    let mut i: usize = 0;
    while i < docs.len()
        invariant
            i <= docs@.len(),
            vdocs == view_members(docs@),
            vdocs.len() == docs@.len(),
            forall|j: int|
                0 <= j < docs@.len() ==> #[trigger] vdocs[j] == (docs@[j].0@, docs@[j].1@),
            bundle_defs(vdocs.take(i as int)) == Ok::<Seq<EntryV>, Fault>(view_entries(defs@)),
        decreases docs@.len() - i,
    {
        assert(vdocs.take(i + 1).drop_last() =~= vdocs.take(i as int));
        assert(vdocs.take(i + 1).last() == vdocs[i as int]);
        let key = &docs[i].0;
        let mut local: Vec<Entry> = Vec::new();
        assert(view_entries(local@) =~= Seq::<EntryV>::empty());
        let out = match transform(&docs[i].1, key.as_str(), &mut local) {
            Ok(out) => out,
            Err(e) => {
                proof {
                    lemma_bundle_fail(vdocs, i + 1);
                }
                return Err(e);
            },
        };
        match merge_entries(&mut defs, &local) {
            Ok(()) => {},
            Err(e) => {
                proof {
                    lemma_bundle_fail(vdocs, i + 1);
                }
                return Err(e);
            },
        }
        match insert_entry(&mut defs, key.clone(), out, key.as_str()) {
            Ok(()) => {},
            Err(e) => {
                proof {
                    lemma_bundle_fail(vdocs, i + 1);
                }
                return Err(e);
            },
        }
        i += 1;
    }
    assert(vdocs.take(vdocs.len() as int) =~= vdocs);
    Ok(defs)
}

/// The bundle document around the definitions map `defs`.
pub fn bundle_document(defs: &Vec<Entry>) -> (r: Json)
    ensures
        r@ == bundle_value(view_entries(defs@)),
{
    let ghost vd = view_entries(defs@);
    let mut members: Vec<(String, Json)> = Vec::new();
    let mut i: usize = 0;
    while i < defs.len()
        invariant
            i <= defs@.len(),
            vd == view_entries(defs@),
            members@.len() == i,
            forall|j: int|
                0 <= j < i ==> #[trigger] members@[j].0@ == vd[j].name && members@[j].1@
                    == vd[j].schema,
        decreases defs@.len() - i,
    {
        members.push((defs[i].name.clone(), defs[i].schema.copy()));
        i += 1;
    }
    proof {
        lemma_view_members(members@);
        assert(view_members(members@) =~= definitions_members(vd));
    }
    let mut top: Vec<(String, Json)> = Vec::new();
    top.push(("$schema".to_owned(), Json::Str("http://json-schema.org/draft-07/schema".to_owned())));
    top.push(("definitions".to_owned(), Json::Object(members)));
    proof {
        lemma_view_members(top@);
        assert(view_members(top@) =~= seq![
            ("$schema"@, JsonV::Str(draft_07())),
            ("definitions"@, JsonV::Object(definitions_members(vd))),
        ]);
    }
    Json::Object(top)
}

/// Bundles the documents `docs`, each a document key and its body, taken in
/// the given order, into one schema document whose definitions map holds
/// every document body and every hoisted local definition.
pub fn bundle_documents(docs: &Vec<(String, Json)>) -> (r: Result<Json, BundleError>)
    ensures
        match bundle_defs(view_members(docs@)) {
            Err(f) => r is Err && r->Err_0@ == f,
            Ok(d) => if closed(d) {
                r is Ok && r->Ok_0@ == bundle_value(d)
            } else {
                r is Err && (r->Err_0@ matches Fault::DanglingReference { reference } && !resolves(
                    reference,
                    d,
                ))
            },
        },
{
    let defs = match build_definitions(docs) {
        Ok(defs) => defs,
        Err(e) => return Err(e),
    };
    match find_dangling_entry(&defs) {
        Some(reference) => Err(BundleError::DanglingReference { reference }),
        None => Ok(bundle_document(&defs)),
    }
}

} // verus!
