use vstd::prelude::*;

use crate::error::{BundleError, Fault};
use crate::json::{lemma_view_items, lemma_view_members, view_items, view_members, Json, JsonV};
use crate::reference::{global_name, make_global_name, rewrite_ref_target, rewrite_spec};
use crate::text::chars_of;

verus! {

broadcast use {vstd::seq::group_seq_axioms, vstd::std_specs::vec::group_vec_axioms};

/// One entry of a definitions map: its global name, the document that
/// contributed it, and its schema.
#[derive(Debug)]
pub struct Entry {
    pub name: String,
    pub owner: String,
    pub schema: Json,
}

/// The mathematical value of an `Entry`.
pub struct EntryV {
    pub name: Seq<char>,
    pub owner: Seq<char>,
    pub schema: JsonV,
}

impl View for Entry {
    type V = EntryV;

    open spec fn view(&self) -> EntryV {
        EntryV { name: self.name@, owner: self.owner@, schema: self.schema@ }
    }
}

pub open spec fn view_entries(s: Seq<Entry>) -> Seq<EntryV> {
    s.map_values(|e: Entry| e@)
}

/// A key that opens a local-definitions block.
pub open spec fn is_defs_key(k: Seq<char>) -> bool {
    k == "$defs"@ || k == "definitions"@
}

/// The key whose string value is a reference.
pub open spec fn ref_key() -> Seq<char> {
    "$ref"@
}

/// The alternatives of a `oneOf`-shaped schema: an object whose only member
/// is an array under `oneOf`.
pub open spec fn one_of_items(j: JsonV) -> Option<Seq<JsonV>> {
    match j {
        JsonV::Object(ms) => if ms.len() == 1 && ms[0].0 == "oneOf"@ {
            match ms[0].1 {
                JsonV::Array(items) => Some(items),
                _ => None,
            }
        } else {
            None
        },
        _ => None,
    }
}

/// `s` followed by those of `items` that are not already there, in order,
/// each once.
pub open spec fn add_distinct(s: Seq<JsonV>, items: Seq<JsonV>) -> Seq<JsonV>
    decreases items.len(),
{
    if items.len() == 0 {
        s
    } else {
        let s1 = add_distinct(s, items.drop_last());
        if s1.contains(items.last()) {
            s1
        } else {
            s1.push(items.last())
        }
    }
}

/// The `oneOf` schema whose alternatives are those of `a` and `b`, each once.
pub open spec fn merged_one_of(a: Seq<JsonV>, b: Seq<JsonV>) -> JsonV {
    JsonV::Object(seq![("oneOf"@, JsonV::Array(add_distinct(Seq::empty(), a + b)))])
}

/// The index of the last entry named `name`, or -1.
pub open spec fn entry_index(acc: Seq<EntryV>, name: Seq<char>) -> int
    decreases acc.len(),
{
    if acc.len() == 0 {
        -1
    } else if acc.last().name == name {
        acc.len() - 1
    } else {
        entry_index(acc.drop_last(), name)
    }
}

/// Adds `schema` under `name` on behalf of document `owner`: a new name is
/// appended; two `oneOf` schemas under one name are merged in place; any
/// other clash fails.
pub open spec fn insert_spec(
    acc: Seq<EntryV>,
    name: Seq<char>,
    schema: JsonV,
    owner: Seq<char>,
) -> Result<Seq<EntryV>, Fault> {
    let i = entry_index(acc, name);
    if i < 0 {
        Ok(acc.push(EntryV { name, owner, schema }))
    } else {
        match (one_of_items(acc[i].schema), one_of_items(schema)) {
            (Some(a), Some(b)) => Ok(
                acc.update(
                    i,
                    EntryV { name, owner: acc[i].owner, schema: merged_one_of(a, b) },
                ),
            ),
            _ => Err(Fault::Collision { name, existing: acc[i].owner, incoming: owner }),
        }
    }
}

/// The value `v` of document `doc` with its references rewritten and its
/// local-definitions blocks removed, and `acc` with those definitions added.
pub open spec fn hoist(v: JsonV, doc: Seq<char>, acc: Seq<EntryV>) -> Result<
    (JsonV, Seq<EntryV>),
    Fault,
>
    decreases v,
{
    match v {
        JsonV::Array(items) => match hoist_items(items, doc, acc) {
            Ok((xs, a)) => Ok((JsonV::Array(xs), a)),
            Err(f) => Err(f),
        },
        JsonV::Object(ms) => match hoist_members(ms, doc, acc) {
            Ok((xs, a)) => Ok((JsonV::Object(xs), a)),
            Err(f) => Err(f),
        },
        _ => Ok((v, acc)),
    }
}

pub open spec fn hoist_items(items: Seq<JsonV>, doc: Seq<char>, acc: Seq<EntryV>) -> Result<
    (Seq<JsonV>, Seq<EntryV>),
    Fault,
>
    decreases items,
{
    if items.len() == 0 {
        Ok((Seq::empty(), acc))
    } else {
        match hoist_items(items.drop_last(), doc, acc) {
            Err(f) => Err(f),
            Ok((xs, a1)) => match hoist(items.last(), doc, a1) {
                Err(f) => Err(f),
                Ok((x, a2)) => Ok((xs.push(x), a2)),
            },
        }
    }
}

pub open spec fn hoist_members(
    ms: Seq<(Seq<char>, JsonV)>,
    doc: Seq<char>,
    acc: Seq<EntryV>,
) -> Result<(Seq<(Seq<char>, JsonV)>, Seq<EntryV>), Fault>
    decreases ms,
{
    if ms.len() == 0 {
        Ok((Seq::empty(), acc))
    } else {
        match hoist_members(ms.drop_last(), doc, acc) {
            Err(f) => Err(f),
            Ok((xs, a1)) => {
                let k = ms.last().0;
                let x = ms.last().1;
                if is_defs_key(k) && x is Object {
                    match hoist_definitions(x->Object_0, doc, a1) {
                        Err(f) => Err(f),
                        Ok(a2) => Ok((xs, a2)),
                    }
                } else if k == ref_key() && x is Str {
                    match rewrite_spec(x->Str_0, doc) {
                        Err(f) => Err(f),
                        Ok(t) => Ok((xs.push((k, JsonV::Str(t))), a1)),
                    }
                } else {
                    match hoist(x, doc, a1) {
                        Err(f) => Err(f),
                        Ok((y, a2)) => Ok((xs.push((k, y)), a2)),
                    }
                }
            },
        }
    }
}

pub open spec fn hoist_definitions(
    children: Seq<(Seq<char>, JsonV)>,
    doc: Seq<char>,
    acc: Seq<EntryV>,
) -> Result<Seq<EntryV>, Fault>
    decreases children,
{
    if children.len() == 0 {
        Ok(acc)
    } else {
        match hoist_definitions(children.drop_last(), doc, acc) {
            Err(f) => Err(f),
            Ok(a1) => match hoist(children.last().1, doc, a1) {
                Err(f) => Err(f),
                Ok((y, a2)) => insert_spec(a2, global_name(doc, children.last().0), y, doc),
            },
        }
    }
}

/// Whether `k` holds exactly the characters of `lit`.
pub fn is_text(k: &String, lit: &str) -> (r: bool)
    ensures
        r == (k@ == lit@),
{
    let t = lit.to_owned();
    *k == t
}

pub proof fn lemma_view_entries_push(s: Seq<Entry>, e: Entry)
    ensures
        view_entries(s.push(e)) == view_entries(s).push(e@),
{
    assert(view_entries(s.push(e)) =~= view_entries(s).push(e@));
}

/// The index of the last entry named `name`.
pub fn find_entry(acc: &Vec<Entry>, name: &String) -> (r: Option<usize>)
    ensures
        match r {
            Some(i) => entry_index(view_entries(acc@), name@) == i && i < acc@.len(),
            None => entry_index(view_entries(acc@), name@) == -1,
        },
{
    let ghost va = view_entries(acc@);
    let mut i: usize = acc.len();
    assert(va.take(i as int) =~= va);
    while i > 0
        invariant
            i <= acc@.len(),
            va == view_entries(acc@),
            entry_index(va, name@) == entry_index(va.take(i as int), name@),
        decreases i,
    {
        assert(va.take(i as int).drop_last() =~= va.take(i - 1));
        if acc[i - 1].name == *name {
            return Some(i - 1);
        }
        i -= 1;
    }
    None
}

/// The alternatives of a `oneOf`-shaped schema.
pub fn one_of_alternatives(j: &Json) -> (r: Option<&Vec<Json>>)
    ensures
        match r {
            Some(items) => one_of_items(j@) == Some(view_items(items@)),
            None => one_of_items(j@) is None,
        },
{
    match j {
        Json::Object(ms) => {
            proof {
                lemma_view_members(ms@);
            }
            if ms.len() == 1 && is_text(&ms[0].0, "oneOf") {
                match &ms[0].1 {
                    Json::Array(items) => Some(items),
                    _ => None,
                }
            } else {
                None
            }
        },
        _ => None,
    }
}

/// Whether `items` holds a value equal to `x`.
pub fn contains_value(items: &Vec<Json>, x: &Json) -> (r: bool)
    ensures
        r == view_items(items@).contains(x@),
{
    proof {
        lemma_view_items(items@);
    }
    let mut i: usize = 0;
    while i < items.len()
        invariant
            i <= items@.len(),
            view_items(items@).len() == items@.len(),
            forall|j: int| 0 <= j < items@.len() ==> #[trigger] view_items(items@)[j] == items@[j]@,
            forall|j: int| 0 <= j < i ==> items@[j]@ != x@,
        decreases items@.len() - i,
    {
        if items[i].same(x) {
            assert(view_items(items@)[i as int] == x@);
            return true;
        }
        i += 1;
    }
    false
}

proof fn lemma_view_items_push(s: Seq<Json>, x: Json)
    ensures
        view_items(s.push(x)) == view_items(s).push(x@),
{
    assert(s.push(x).drop_last() =~= s);
}

/// The `oneOf` schema whose alternatives are those of `a` and then those of
/// `b`, each once.
pub fn merge_alternatives(a: &Vec<Json>, b: &Vec<Json>) -> (r: Json)
    ensures
        r@ == merged_one_of(view_items(a@), view_items(b@)),
{
    let ghost all = view_items(a@) + view_items(b@);
    proof {
        lemma_view_items(a@);
        lemma_view_items(b@);
    }
    let mut out: Vec<Json> = Vec::new();
    let mut k: usize = 0;
    let n: usize = a.len();
    while k < n
        invariant
            k <= n == a@.len(),
            all == view_items(a@) + view_items(b@),
            view_items(a@).len() == a@.len(),
            forall|j: int| 0 <= j < a@.len() ==> #[trigger] view_items(a@)[j] == a@[j]@,
            view_items(out@) == add_distinct(Seq::empty(), all.take(k as int)),
        decreases n - k,
    {
        assert(all.take(k + 1).drop_last() =~= all.take(k as int));
        assert(all.take(k + 1).last() == a@[k as int]@);
        if !contains_value(&out, &a[k]) {
            let c = a[k].copy();
            proof {
                lemma_view_items_push(out@, c);
            }
            out.push(c);
        }
        k += 1;
    }
    let mut k: usize = 0;
    while k < b.len()
        invariant
            k <= b@.len(),
            n == a@.len(),
            all == view_items(a@) + view_items(b@),
            view_items(a@).len() == a@.len(),
            view_items(b@).len() == b@.len(),
            forall|j: int| 0 <= j < b@.len() ==> #[trigger] view_items(b@)[j] == b@[j]@,
            view_items(out@) == add_distinct(Seq::empty(), all.take(n + k)),
        decreases b@.len() - k,
    {
        assert(all.take(n + k + 1).drop_last() =~= all.take(n + k));
        assert(all.take(n + k + 1).last() == b@[k as int]@);
        if !contains_value(&out, &b[k]) {
            let c = b[k].copy();
            proof {
                lemma_view_items_push(out@, c);
            }
            out.push(c);
        }
        k += 1;
    }
    assert(all.take(all.len() as int) =~= all);
    let mut members: Vec<(String, Json)> = Vec::new();
    members.push(("oneOf".to_owned(), Json::Array(out)));
    proof {
        lemma_view_members(members@);
        assert(view_members(members@) =~= seq![("oneOf"@, JsonV::Array(add_distinct(Seq::empty(), all)))]);
    }
    Json::Object(members)
}

/// Adds `schema` under `name` on behalf of document `owner`, by the
/// collision policy of `insert_spec`.
pub fn insert_entry(acc: &mut Vec<Entry>, name: String, schema: Json, owner: &str) -> (r: Result<
    (),
    BundleError,
>)
    ensures
        match insert_spec(view_entries(old(acc)@), name@, schema@, owner@) {
            Ok(a) => r is Ok && view_entries(final(acc)@) == a,
            Err(f) => r is Err && r->Err_0@ == f,
        },
{
    let ghost va = view_entries(acc@);
    match find_entry(acc, &name) {
        None => {
            let e = Entry { name, owner: owner.to_owned(), schema };
            proof {
                lemma_view_entries_push(acc@, e);
            }
            acc.push(e);
            Ok(())
        },
        Some(i) => {
            let merged = match (one_of_alternatives(&acc[i].schema), one_of_alternatives(&schema)) {
                (Some(a), Some(b)) => Some(merge_alternatives(a, b)),
                _ => None,
            };
            match merged {
                Some(m) => {
                    let e = Entry { name, owner: acc[i].owner.clone(), schema: m };
                    acc.set(i, e);
                    assert(view_entries(acc@) =~= va.update(i as int, e@));
                    Ok(())
                },
                None => Err(
                    BundleError::Collision {
                        name,
                        existing: acc[i].owner.clone(),
                        incoming: owner.to_owned(),
                    },
                ),
            }
        },
    }
}

proof fn lemma_view_members_push(s: Seq<(String, Json)>, p: (String, Json))
    ensures
        view_members(s.push(p)) == view_members(s).push((p.0@, p.1@)),
{
    assert(s.push(p).drop_last() =~= s);
}

proof fn lemma_items_fail(items: Seq<JsonV>, i: int, doc: Seq<char>, acc: Seq<EntryV>)
    requires
        0 <= i <= items.len(),
        hoist_items(items.take(i), doc, acc) is Err,
    ensures
        hoist_items(items, doc, acc) == hoist_items(items.take(i), doc, acc),
    decreases items.len() - i,
{
    if i == items.len() {
        assert(items.take(i) =~= items);
    } else {
        assert(items.take(i + 1).drop_last() =~= items.take(i));
        lemma_items_fail(items, i + 1, doc, acc);
    }
}

proof fn lemma_members_fail(
    ms: Seq<(Seq<char>, JsonV)>,
    i: int,
    doc: Seq<char>,
    acc: Seq<EntryV>,
)
    requires
        0 <= i <= ms.len(),
        hoist_members(ms.take(i), doc, acc) is Err,
    ensures
        hoist_members(ms, doc, acc) == hoist_members(ms.take(i), doc, acc),
    decreases ms.len() - i,
{
    if i == ms.len() {
        assert(ms.take(i) =~= ms);
    } else {
        assert(ms.take(i + 1).drop_last() =~= ms.take(i));
        lemma_members_fail(ms, i + 1, doc, acc);
    }
}

proof fn lemma_definitions_fail(
    ms: Seq<(Seq<char>, JsonV)>,
    i: int,
    doc: Seq<char>,
    acc: Seq<EntryV>,
)
    requires
        0 <= i <= ms.len(),
        hoist_definitions(ms.take(i), doc, acc) is Err,
    ensures
        hoist_definitions(ms, doc, acc) == hoist_definitions(ms.take(i), doc, acc),
    decreases ms.len() - i,
{
    if i == ms.len() {
        assert(ms.take(i) =~= ms);
    } else {
        assert(ms.take(i + 1).drop_last() =~= ms.take(i));
        lemma_definitions_fail(ms, i + 1, doc, acc);
    }
}

/// Moves the children of a local-definitions block of document `current_doc`
/// into `hoisted`, each transformed and under its global name.
pub fn hoist_block(
    children: &Vec<(String, Json)>,
    current_doc: &str,
    hoisted: &mut Vec<Entry>,
) -> (r: Result<(), BundleError>)
    ensures
        match hoist_definitions(view_members(children@), current_doc@, view_entries(old(hoisted)@)) {
            Ok(a) => r is Ok && view_entries(final(hoisted)@) == a,
            Err(f) => r is Err && r->Err_0@ == f,
        },
    decreases children, 1nat,
{
    let ghost vc = view_members(children@);
    let ghost acc0 = view_entries(hoisted@);
    let ghost doc = current_doc@;
    proof {
        lemma_view_members(children@);
        assert(vc.take(0) =~= Seq::<(Seq<char>, JsonV)>::empty());
    }
    let doc_chars = chars_of(current_doc);
    let mut i: usize = 0;
    while i < children.len()
        invariant
            i <= children@.len(),
            vc == view_members(children@),
            vc.len() == children@.len(),
            forall|j: int|
                0 <= j < children@.len() ==> #[trigger] vc[j] == (children@[j].0@, children@[j].1@),
            doc == current_doc@,
            doc_chars@ == doc,
            acc0 == view_entries(old(hoisted)@),
            hoist_definitions(vc.take(i as int), doc, acc0) == Ok::<Seq<EntryV>, Fault>(
                view_entries(hoisted@),
            ),
        decreases children@.len() - i,
    {
        assert(vc.take(i + 1).drop_last() =~= vc.take(i as int));
        assert(vc.take(i + 1).last() == vc[i as int]);
        proof {
            assert(decreases_to!(*children => children[i as int]));
        }
        let y = match transform(&children[i].1, current_doc, hoisted) {
            Ok(y) => y,
            Err(e) => {
                proof {
                    lemma_definitions_fail(vc, i + 1, doc, acc0);
                }
                return Err(e);
            },
        };
        let local = chars_of(children[i].0.as_str());
        let name = crate::text::string_of(make_global_name(&doc_chars, &local).as_slice());
        match insert_entry(hoisted, name, y, current_doc) {
            Ok(()) => {},
            Err(e) => {
                proof {
                    lemma_definitions_fail(vc, i + 1, doc, acc0);
                }
                return Err(e);
            },
        }
        i += 1;
    }
    assert(vc.take(vc.len() as int) =~= vc);
    Ok(())
}

/// Rewrites every reference of `value`, a part of document `current_doc`,
/// removes its local-definitions blocks and moves their children into
/// `hoisted`.
pub fn transform(value: &Json, current_doc: &str, hoisted: &mut Vec<Entry>) -> (r: Result<
    Json,
    BundleError,
>)
    ensures
        match hoist(value@, current_doc@, view_entries(old(hoisted)@)) {
            Ok((out, acc)) => r matches Ok(j) && j@ == out && view_entries(final(hoisted)@) == acc,
            Err(f) => r is Err && r->Err_0@ == f,
        },
    decreases value, 0nat,
{
    let ghost acc0 = view_entries(hoisted@);
    let ghost doc = current_doc@;
    match value {
        Json::Array(items) => {
            let ghost vi = view_items(items@);
            proof {
                lemma_view_items(items@);
                assert(vi.take(0) =~= Seq::<JsonV>::empty());
            }
            let mut out: Vec<Json> = Vec::new();
            let mut i: usize = 0;
            while i < items.len()
                invariant
                    i <= items@.len(),
                    *value == Json::Array(*items),
                    vi == view_items(items@),
                    vi.len() == items@.len(),
                    forall|j: int| 0 <= j < items@.len() ==> #[trigger] vi[j] == items@[j]@,
                    doc == current_doc@,
                    acc0 == view_entries(old(hoisted)@),
                    hoist_items(vi.take(i as int), doc, acc0) == Ok::<
                        (Seq<JsonV>, Seq<EntryV>),
                        Fault,
                    >((view_items(out@), view_entries(hoisted@))),
                decreases items@.len() - i,
            {
                assert(vi.take(i + 1).drop_last() =~= vi.take(i as int));
                assert(vi.take(i + 1).last() == vi[i as int]);
                proof {
                    assert(decreases_to!(*value => (*value)->Array_0));
                    assert(decreases_to!(*items => items[i as int]));
                }
                match transform(&items[i], current_doc, hoisted) {
                    Ok(y) => {
                        proof {
                            lemma_view_items_push(out@, y);
                        }
                        out.push(y);
                    },
                    Err(e) => {
                        proof {
                            lemma_items_fail(vi, i + 1, doc, acc0);
                        }
                        return Err(e);
                    },
                }
                i += 1;
            }
            assert(vi.take(vi.len() as int) =~= vi);
            Ok(Json::Array(out))
        },
        Json::Object(ms) => {
            let ghost vm = view_members(ms@);
            proof {
                lemma_view_members(ms@);
                assert(vm.take(0) =~= Seq::<(Seq<char>, JsonV)>::empty());
            }
            let mut out: Vec<(String, Json)> = Vec::new();
            let mut i: usize = 0;
            while i < ms.len()
                invariant
                    i <= ms@.len(),
                    *value == Json::Object(*ms),
                    vm == view_members(ms@),
                    vm.len() == ms@.len(),
                    forall|j: int|
                        0 <= j < ms@.len() ==> #[trigger] vm[j] == (ms@[j].0@, ms@[j].1@),
                    doc == current_doc@,
                    acc0 == view_entries(old(hoisted)@),
                    hoist_members(vm.take(i as int), doc, acc0) == Ok::<
                        (Seq<(Seq<char>, JsonV)>, Seq<EntryV>),
                        Fault,
                    >((view_members(out@), view_entries(hoisted@))),
                decreases ms@.len() - i,
            {
                assert(vm.take(i + 1).drop_last() =~= vm.take(i as int));
                assert(vm.take(i + 1).last() == vm[i as int]);
                proof {
                    assert(decreases_to!(*value => (*value)->Object_0));
                    assert(decreases_to!(*ms => ms[i as int]));
                }
                let k = &ms[i].0;
                let is_defs = is_text(k, "$defs") || is_text(k, "definitions");
                let is_ref = is_text(k, "$ref");
                match &ms[i].1 {
                    Json::Object(children) if is_defs => {
                        match hoist_block(children, current_doc, hoisted) {
                            Ok(()) => {},
                            Err(e) => {
                                proof {
                                    lemma_members_fail(vm, i + 1, doc, acc0);
                                }
                                return Err(e);
                            },
                        }
                    },
                    Json::Str(t) if is_ref => {
                        match rewrite_ref_target(t.as_str(), current_doc) {
                            Ok(t2) => {
                                let p = (k.clone(), Json::Str(t2));
                                proof {
                                    lemma_view_members_push(out@, p);
                                }
                                out.push(p);
                            },
                            Err(e) => {
                                proof {
                                    lemma_members_fail(vm, i + 1, doc, acc0);
                                }
                                return Err(e);
                            },
                        }
                    },
                    x => {
                        match transform(x, current_doc, hoisted) {
                            Ok(y) => {
                                let p = (k.clone(), y);
                                proof {
                                    lemma_view_members_push(out@, p);
                                }
                                out.push(p);
                            },
                            Err(e) => {
                                proof {
                                    lemma_members_fail(vm, i + 1, doc, acc0);
                                }
                                return Err(e);
                            },
                        }
                    },
                }
                i += 1;
            }
            assert(vm.take(vm.len() as int) =~= vm);
            Ok(Json::Object(out))
        },
        _ => Ok(value.copy()),
    }
}

} // verus!
