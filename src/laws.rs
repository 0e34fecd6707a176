use vstd::prelude::*;

use crate::bundle::{bundle_defs, merge_spec};
use crate::discovery::{lemma_lex_lt_asymmetric, lex_lt, sorted};
use crate::error::Fault;
use crate::hoist::{
    add_distinct, entry_index, hoist, hoist_definitions, hoist_items, hoist_members, insert_spec,
    is_defs_key, merged_one_of, one_of_items, ref_key, EntryV,
};
use crate::json::JsonV;
use crate::reference::{
    canonical, canonical_in, canonical_marker, global_name, local_name, owned_by,
    relative_marker, rewrite_spec,
};
use crate::text::starts_with;

verus! {

broadcast use vstd::seq::group_seq_axioms;

/// No two entries of `defs` share a name.
pub open spec fn unique_names(defs: Seq<EntryV>) -> bool {
    forall|i: int, j: int|
        0 <= i < defs.len() && 0 <= j < defs.len() && i != j ==> #[trigger] defs[i].name
            != #[trigger] defs[j].name
}

/// `name` is the name of some entry of `defs`.
pub open spec fn has_name(defs: Seq<EntryV>, name: Seq<char>) -> bool {
    exists|i: int| 0 <= i < defs.len() && #[trigger] defs[i].name == name
}

pub proof fn lemma_entry_index(acc: Seq<EntryV>, name: Seq<char>)
    ensures
        -1 <= entry_index(acc, name) < acc.len(),
        entry_index(acc, name) == -1 <==> !has_name(acc, name),
        entry_index(acc, name) >= 0 ==> acc[entry_index(acc, name)].name == name,
    decreases acc.len(),
{
    if acc.len() > 0 {
        lemma_entry_index(acc.drop_last(), name);
        if has_name(acc, name) && acc.last().name != name {
            let i = choose|i: int| 0 <= i < acc.len() && #[trigger] acc[i].name == name;
            assert(acc.drop_last()[i].name == name);
        }
        if has_name(acc.drop_last(), name) {
            let i = choose|i: int|
                0 <= i < acc.drop_last().len() && #[trigger] acc.drop_last()[i].name == name;
            assert(acc[i].name == name);
        }
    }
}

/// Inserting into a definitions map with distinct names keeps the names
/// distinct; the names after are those before and the inserted one.
pub proof fn lemma_insert_unique(acc: Seq<EntryV>, name: Seq<char>, schema: JsonV, owner: Seq<char>)
    requires
        unique_names(acc),
    ensures
        insert_spec(acc, name, schema, owner) matches Ok(a) ==> unique_names(a) && has_name(
            a,
            name,
        ) && forall|n: Seq<char>| has_name(acc, n) ==> has_name(a, n),
{
    lemma_entry_index(acc, name);
    let i = entry_index(acc, name);
    if let Ok(a) = insert_spec(acc, name, schema, owner) {
        if i < 0 {
            assert(a[acc.len() as int].name == name);
            assert forall|n: Seq<char>| has_name(acc, n) implies has_name(a, n) by {
                let k = choose|k: int| 0 <= k < acc.len() && #[trigger] acc[k].name == n;
                assert(a[k].name == n);
            }
        } else {
            assert(a[i].name == name);
            assert forall|n: Seq<char>| has_name(acc, n) implies has_name(a, n) by {
                let k = choose|k: int| 0 <= k < acc.len() && #[trigger] acc[k].name == n;
                assert(a[k].name == n);
            }
        }
    }
}

/// A second entry under a name already in the map fails the insertion,
/// unless both are `oneOf` lists.
pub proof fn law_second_entry_fails(
    acc: Seq<EntryV>,
    i: int,
    schema: JsonV,
    owner: Seq<char>,
)
    requires
        unique_names(acc),
        0 <= i < acc.len(),
        one_of_items(acc[i].schema) is None || one_of_items(schema) is None,
    ensures
        insert_spec(acc, acc[i].name, schema, owner) == Err::<Seq<EntryV>, Fault>(
            Fault::Collision { name: acc[i].name, existing: acc[i].owner, incoming: owner },
        ),
{
    lemma_entry_index(acc, acc[i].name);
    let k = entry_index(acc, acc[i].name);
    assert(k == i);
}

proof fn lemma_merge_unique(defs: Seq<EntryV>, added: Seq<EntryV>)
    requires
        unique_names(defs),
    ensures
        merge_spec(defs, added) matches Ok(d) ==> unique_names(d),
    decreases added.len(),
{
    if added.len() > 0 {
        lemma_merge_unique(defs, added.drop_last());
        if let Ok(d1) = merge_spec(defs, added.drop_last()) {
            lemma_insert_unique(d1, added.last().name, added.last().schema, added.last().owner);
        }
    }
}

proof fn lemma_definitions_unique(ms: Seq<(Seq<char>, JsonV)>, doc: Seq<char>, acc: Seq<EntryV>)
    requires
        unique_names(acc),
    ensures
        hoist_definitions(ms, doc, acc) matches Ok(a) ==> unique_names(a),
    decreases ms, 0nat,
{
    if ms.len() > 0 {
        lemma_definitions_unique(ms.drop_last(), doc, acc);
        if let Ok(a1) = hoist_definitions(ms.drop_last(), doc, acc) {
            lemma_hoist_unique(ms.last().1, doc, a1);
            if let Ok((y, a2)) = hoist(ms.last().1, doc, a1) {
                lemma_insert_unique(a2, global_name(doc, ms.last().0), y, doc);
            }
        }
    }
}

proof fn lemma_members_unique(ms: Seq<(Seq<char>, JsonV)>, doc: Seq<char>, acc: Seq<EntryV>)
    requires
        unique_names(acc),
    ensures
        hoist_members(ms, doc, acc) matches Ok((xs, a)) ==> unique_names(a),
    decreases ms, 0nat,
{
    if ms.len() > 0 {
        lemma_members_unique(ms.drop_last(), doc, acc);
        if let Ok((xs, a1)) = hoist_members(ms.drop_last(), doc, acc) {
            let x = ms.last().1;
            if is_defs_key(ms.last().0) && x is Object {
                lemma_definitions_unique(x->Object_0, doc, a1);
            } else {
                lemma_hoist_unique(x, doc, a1);
            }
        }
    }
}

proof fn lemma_items_unique(items: Seq<JsonV>, doc: Seq<char>, acc: Seq<EntryV>)
    requires
        unique_names(acc),
    ensures
        hoist_items(items, doc, acc) matches Ok((xs, a)) ==> unique_names(a),
    decreases items, 0nat,
{
    if items.len() > 0 {
        lemma_items_unique(items.drop_last(), doc, acc);
        if let Ok((xs, a1)) = hoist_items(items.drop_last(), doc, acc) {
            lemma_hoist_unique(items.last(), doc, a1);
        }
    }
}

proof fn lemma_hoist_unique(v: JsonV, doc: Seq<char>, acc: Seq<EntryV>)
    requires
        unique_names(acc),
    ensures
        hoist(v, doc, acc) matches Ok((out, a)) ==> unique_names(a),
    decreases v, 1nat,
{
    match v {
        JsonV::Array(items) => lemma_items_unique(items, doc, acc),
        JsonV::Object(ms) => lemma_members_unique(ms, doc, acc),
        _ => {},
    }
}

/// Every name in a bundle's definitions map is held by one entry only.
pub proof fn law_definitions_unique(docs: Seq<(Seq<char>, JsonV)>)
    ensures
        bundle_defs(docs) matches Ok(d) ==> unique_names(d),
    decreases docs.len(),
{
    if docs.len() > 0 {
        law_definitions_unique(docs.drop_last());
        if let Ok(d1) = bundle_defs(docs.drop_last()) {
            let key = docs.last().0;
            lemma_hoist_unique(docs.last().1, key, Seq::empty());
            if let Ok((out, local)) = hoist(docs.last().1, key, Seq::empty()) {
                lemma_merge_unique(d1, local);
                if let Ok(d2) = merge_spec(d1, local) {
                    lemma_insert_unique(d2, key, out, key);
                }
            }
        }
    }
}

/// `v` holds no local-definitions block: no member under either spelling
/// whose value is an object, at any depth.
pub open spec fn no_blocks(v: JsonV) -> bool
    decreases v,
{
    match v {
        JsonV::Array(items) => items_no_blocks(items),
        JsonV::Object(ms) => members_no_blocks(ms),
        _ => true,
    }
}

pub open spec fn items_no_blocks(items: Seq<JsonV>) -> bool
    decreases items,
{
    items.len() == 0 || (items_no_blocks(items.drop_last()) && no_blocks(items.last()))
}

pub open spec fn members_no_blocks(ms: Seq<(Seq<char>, JsonV)>) -> bool
    decreases ms,
{
    ms.len() == 0 || (members_no_blocks(ms.drop_last()) && !(is_defs_key(ms.last().0)
        && ms.last().1 is Object) && no_blocks(ms.last().1))
}

/// No entry of `defs` holds a local-definitions block.
pub open spec fn entries_no_blocks(defs: Seq<EntryV>) -> bool {
    forall|i: int| 0 <= i < defs.len() ==> no_blocks(#[trigger] defs[i].schema)
}

proof fn lemma_items_no_blocks(items: Seq<JsonV>)
    ensures
        items_no_blocks(items) <==> forall|i: int|
            0 <= i < items.len() ==> no_blocks(#[trigger] items[i]),
    decreases items.len(),
{
    if items.len() > 0 {
        lemma_items_no_blocks(items.drop_last());
        if items_no_blocks(items) {
            assert forall|i: int| 0 <= i < items.len() implies no_blocks(#[trigger] items[i]) by {
                if i < items.len() - 1 {
                    assert(items.drop_last()[i] == items[i]);
                }
            }
        }
        if forall|i: int| 0 <= i < items.len() ==> no_blocks(#[trigger] items[i]) {
            assert forall|i: int| 0 <= i < items.drop_last().len() implies no_blocks(
                #[trigger] items.drop_last()[i],
            ) by {
                assert(items.drop_last()[i] == items[i]);
            }
        }
    }
}

proof fn lemma_add_distinct_no_blocks(s: Seq<JsonV>, items: Seq<JsonV>)
    requires
        items_no_blocks(s),
        items_no_blocks(items),
    ensures
        items_no_blocks(add_distinct(s, items)),
    decreases items.len(),
{
    if items.len() > 0 {
        lemma_add_distinct_no_blocks(s, items.drop_last());
        let s1 = add_distinct(s, items.drop_last());
        assert(s1.push(items.last()).drop_last() =~= s1);
    }
}

proof fn lemma_insert_no_blocks(acc: Seq<EntryV>, name: Seq<char>, schema: JsonV, owner: Seq<char>)
    requires
        entries_no_blocks(acc),
        no_blocks(schema),
    ensures
        insert_spec(acc, name, schema, owner) matches Ok(a) ==> entries_no_blocks(a),
{
    lemma_entry_index(acc, name);
    let i = entry_index(acc, name);
    if let Ok(a) = insert_spec(acc, name, schema, owner) {
        if i < 0 {
            assert forall|j: int| 0 <= j < a.len() implies no_blocks(#[trigger] a[j].schema) by {
                if j < acc.len() {
                    assert(a[j] == acc[j]);
                }
            }
        } else {
            let old_one = acc[i].schema;
            let ms0 = old_one->Object_0;
            let ms1 = schema->Object_0;
            let xa = one_of_items(old_one)->Some_0;
            let xb = one_of_items(schema)->Some_0;
            assert(no_blocks(old_one));
            assert(one_of_items(old_one) is Some && one_of_items(schema) is Some);
            assert(ms0.len() == 1 && ms1.len() == 1);
            assert(ms0.last() == ms0[0] && ms1.last() == ms1[0]);
            assert(ms0[0].1 == JsonV::Array(xa));
            assert(ms1[0].1 == JsonV::Array(xb));
            assert(ms0.drop_last() =~= Seq::<(Seq<char>, JsonV)>::empty());
            assert(ms1.drop_last() =~= Seq::<(Seq<char>, JsonV)>::empty());
            assert(members_no_blocks(ms0));
            assert(no_blocks(ms0.last().1));
            assert(no_blocks(JsonV::Array(xa)));
            assert(items_no_blocks(xa));
            assert(no_blocks(schema));
            assert(members_no_blocks(ms1));
            assert(no_blocks(ms1.last().1));
            assert(no_blocks(JsonV::Array(xb)));
            assert(items_no_blocks(xb));
            lemma_items_no_blocks(xa);
            lemma_items_no_blocks(xb);
            lemma_items_no_blocks(xa + xb);
            lemma_add_distinct_no_blocks(Seq::empty(), xa + xb);
            let merged = merged_one_of(xa, xb);
            let mm = merged->Object_0;
            assert(mm.drop_last() =~= Seq::<(Seq<char>, JsonV)>::empty());
            lemma_reserved_keys();
            assert(!is_defs_key(mm.last().0));
            let ad = add_distinct(Seq::empty(), xa + xb);
            assert(mm.last() == ("oneOf"@, JsonV::Array(ad)));
            assert(no_blocks(JsonV::Array(ad)));
            assert(members_no_blocks(mm.drop_last()));
            assert(members_no_blocks(mm));
            assert(no_blocks(merged));
            assert forall|j: int| 0 <= j < a.len() implies no_blocks(#[trigger] a[j].schema) by {
                if j != i {
                    assert(a[j] == acc[j]);
                }
            }
        }
    }
}

proof fn lemma_merge_no_blocks(defs: Seq<EntryV>, added: Seq<EntryV>)
    requires
        entries_no_blocks(defs),
        entries_no_blocks(added),
    ensures
        merge_spec(defs, added) matches Ok(d) ==> entries_no_blocks(d),
    decreases added.len(),
{
    if added.len() > 0 {
        assert(added.drop_last().len() < added.len());
        assert forall|j: int| 0 <= j < added.drop_last().len() implies no_blocks(
            #[trigger] added.drop_last()[j].schema,
        ) by {
            assert(added.drop_last()[j] == added[j]);
        }
        lemma_merge_no_blocks(defs, added.drop_last());
        if let Ok(d1) = merge_spec(defs, added.drop_last()) {
            assert(no_blocks(added[added.len() - 1].schema));
            lemma_insert_no_blocks(d1, added.last().name, added.last().schema, added.last().owner);
        }
    }
}

/// Hoisting keeps an object an object and a string a string.
proof fn lemma_hoist_shape(v: JsonV, doc: Seq<char>, acc: Seq<EntryV>)
    ensures
        hoist(v, doc, acc) matches Ok((out, a)) ==> (out is Object <==> v is Object) && (out is Str
            <==> v is Str),
{
}

proof fn lemma_definitions_no_blocks(
    ms: Seq<(Seq<char>, JsonV)>,
    doc: Seq<char>,
    acc: Seq<EntryV>,
)
    ensures
        entries_no_blocks(acc) ==> (hoist_definitions(ms, doc, acc) matches Ok(a)
            ==> entries_no_blocks(a)),
    decreases ms, 0nat,
{
    if ms.len() > 0 {
        lemma_definitions_no_blocks(ms.drop_last(), doc, acc);
        if let Ok(a1) = hoist_definitions(ms.drop_last(), doc, acc) {
            law_transform_leaves_no_block(ms.last().1, doc, a1);
            if let Ok((y, a2)) = hoist(ms.last().1, doc, a1) {
                if entries_no_blocks(a2) {
                    lemma_insert_no_blocks(a2, global_name(doc, ms.last().0), y, doc);
                }
            }
        }
    }
}

proof fn lemma_members_no_blocks(ms: Seq<(Seq<char>, JsonV)>, doc: Seq<char>, acc: Seq<EntryV>)
    ensures
        hoist_members(ms, doc, acc) matches Ok((xs, a)) ==> members_no_blocks(xs) && (
        entries_no_blocks(acc) ==> entries_no_blocks(a)),
    decreases ms, 0nat,
{
    lemma_reserved_keys();
    if ms.len() > 0 {
        lemma_members_no_blocks(ms.drop_last(), doc, acc);
        if let Ok((xs, a1)) = hoist_members(ms.drop_last(), doc, acc) {
            let k = ms.last().0;
            let x = ms.last().1;
            if is_defs_key(k) && x is Object {
                lemma_definitions_no_blocks(x->Object_0, doc, a1);
            } else if k == ref_key() && x is Str {
                if let Ok(t) = rewrite_spec(x->Str_0, doc) {
                    let p = (k, JsonV::Str(t));
                    assert(xs.push(p).drop_last() =~= xs);
                    assert(!is_defs_key(k));
                    assert(members_no_blocks(xs));
                    assert(xs.push(p).last() == p);
                    assert(no_blocks(p.1));
                    assert(members_no_blocks(xs.push(p)));
                }
            } else {
                law_transform_leaves_no_block(x, doc, a1);
                lemma_hoist_shape(x, doc, a1);
                if let Ok((y, a2)) = hoist(x, doc, a1) {
                    assert(xs.push((k, y)).drop_last() =~= xs);
                    assert(members_no_blocks(xs.push((k, y))));
                }
            }
        }
    }
}

proof fn lemma_items_hoist_no_blocks(items: Seq<JsonV>, doc: Seq<char>, acc: Seq<EntryV>)
    ensures
        hoist_items(items, doc, acc) matches Ok((xs, a)) ==> items_no_blocks(xs) && (
        entries_no_blocks(acc) ==> entries_no_blocks(a)),
    decreases items, 0nat,
{
    if items.len() > 0 {
        lemma_items_hoist_no_blocks(items.drop_last(), doc, acc);
        if let Ok((xs, a1)) = hoist_items(items.drop_last(), doc, acc) {
            law_transform_leaves_no_block(items.last(), doc, a1);
            if let Ok((y, a2)) = hoist(items.last(), doc, a1) {
                assert(xs.push(y).drop_last() =~= xs);
            }
        }
    }
}

/// What `transform` returns holds no local-definitions block, under either
/// spelling, at any depth; and if what `hoisted` held had none, it still
/// has none.
pub proof fn law_transform_leaves_no_block(v: JsonV, doc: Seq<char>, acc: Seq<EntryV>)
    ensures
        hoist(v, doc, acc) matches Ok((out, a)) ==> no_blocks(out) && (entries_no_blocks(acc)
            ==> entries_no_blocks(a)),
    decreases v, 1nat,
{
    match v {
        JsonV::Array(items) => lemma_items_hoist_no_blocks(items, doc, acc),
        JsonV::Object(ms) => lemma_members_no_blocks(ms, doc, acc),
        _ => {},
    }
}

/// No local-definitions block, under either spelling, survives anywhere in
/// a bundle's definitions map: each has been moved into the map.
pub proof fn law_no_definitions_block_survives(docs: Seq<(Seq<char>, JsonV)>)
    ensures
        bundle_defs(docs) matches Ok(d) ==> entries_no_blocks(d),
    decreases docs.len(),
{
    if docs.len() > 0 {
        law_no_definitions_block_survives(docs.drop_last());
        if let Ok(d1) = bundle_defs(docs.drop_last()) {
            let key = docs.last().0;
            law_transform_leaves_no_block(docs.last().1, key, Seq::empty());
            if let Ok((out, local)) = hoist(docs.last().1, key, Seq::empty()) {
                lemma_merge_no_blocks(d1, local);
                if let Ok(d2) = merge_spec(d1, local) {
                    lemma_insert_no_blocks(d2, key, out, key);
                }
            }
        }
    }
}

/// Neither `$ref` nor `oneOf` spells a local-definitions block.
proof fn lemma_reserved_keys()
    ensures
        !is_defs_key(ref_key()),
        !is_defs_key("oneOf"@),
{
    reveal_strlit("$ref");
    reveal_strlit("oneOf");
    reveal_strlit("$defs");
    reveal_strlit("definitions");
    assert(ref_key().len() == 4);
    assert("oneOf"@.len() == 5 && "oneOf"@[0] == 'o');
    assert("$defs"@.len() == 5 && "$defs"@[0] == '$');
    assert("definitions"@.len() == 11);
}

/// A fragment reference that does not point at a local definition comes
/// out of the rewriter unchanged.
pub proof fn law_plain_fragment_unchanged(frag: Seq<char>, doc: Seq<char>)
    requires
        local_name(frag) is None,
    ensures
        rewrite_spec(seq!['#'] + frag, doc) == Ok::<Seq<char>, Fault>(seq!['#'] + frag),
{
    let s = seq!['#'] + frag;
    reveal_strlit("./");
    assert(relative_marker()[0] == '.');
    assert(s[0] == '#');
    assert(!starts_with(s, relative_marker()));
    assert(s.drop_first() =~= frag);
}

/// A reference that is already canonical for the document it is read in
/// comes out of the rewriter unchanged.
pub proof fn law_canonical_reference_unchanged(g: Seq<char>, doc: Seq<char>)
    requires
        owned_by(g, doc),
    ensures
        rewrite_spec(canonical(g), doc) == Ok::<Seq<char>, Fault>(canonical(g)),
{
    let s = canonical(g);
    reveal_strlit("./");
    reveal_strlit("#/definitions/");
    assert(relative_marker()[0] == '.');
    assert(s[0] == '#');
    assert(!starts_with(s, relative_marker()));
    assert(s.subrange(0, canonical_marker().len() as int) =~= canonical_marker());
    assert(s.skip(canonical_marker().len() as int) =~= g);
}

/// Rewriting is idempotent on every reference that does not name another
/// file: the rewritten reference, read again in the same document, is kept.
pub proof fn law_rewrite_idempotent(s: Seq<char>, doc: Seq<char>)
    requires
        !starts_with(s, relative_marker()),
    ensures
        rewrite_spec(s, doc) matches Ok(t) && rewrite_spec(t, doc) == Ok::<Seq<char>, Fault>(t),
{
    reveal_strlit("./");
    reveal_strlit("#/definitions/");
    assert(relative_marker()[0] == '.');
    if s.len() > 0 && s[0] == '#' && !canonical_in(s, doc) {
        if let Some(n) = local_name(s.drop_first()) {
            let g = global_name(doc, n);
            assert(g.subrange(0, doc.len() + 1int) =~= doc + seq!['.']);
            law_canonical_reference_unchanged(g, doc);
        }
    }
}

/// Two sorted selections of the same names are the same sequence: what
/// `select_schema_files` returns depends on which names a listing holds, not
/// on the order in which it lists them.
pub proof fn law_selection_ignores_listing_order(a: Seq<Seq<char>>, b: Seq<Seq<char>>)
    requires
        sorted(a),
        sorted(b),
        forall|y: Seq<char>| a.contains(y) <==> b.contains(y),
    ensures
        a == b,
    decreases a.len() + b.len(),
{
    if a.len() == 0 || b.len() == 0 {
        if a.len() > 0 {
            assert(a.contains(a[0]));
        }
        if b.len() > 0 {
            assert(b.contains(b[0]));
        }
        assert(a =~= b);
    } else {
        assert(a.contains(a[0]));
        assert(b.contains(b[0]));
        let k = choose|k: int| 0 <= k < b.len() && b[k] == a[0];
        let m = choose|m: int| 0 <= m < a.len() && a[m] == b[0];
        if k > 0 && m > 0 {
            assert(lex_lt(b[0], b[k]));
            assert(lex_lt(a[0], a[m]));
            lemma_lex_lt_asymmetric(a[0], b[0]);
        } else if k > 0 {
            assert(lex_lt(b[0], b[k]));
            lemma_lex_lt_asymmetric(b[0], b[0]);
        } else if m > 0 {
            assert(lex_lt(a[0], a[m]));
            lemma_lex_lt_asymmetric(a[0], a[0]);
        }
        assert(a[0] == b[0]);
        let a1 = a.drop_first();
        let b1 = b.drop_first();
        assert forall|y: Seq<char>| a1.contains(y) <==> b1.contains(y) by {
            if a1.contains(y) {
                let i = choose|i: int| 0 <= i < a1.len() && a1[i] == y;
                assert(a[i + 1] == y);
                assert(lex_lt(a[0], a[i + 1]));
                lemma_lex_lt_asymmetric(y, y);
                assert(b.contains(y));
                let j = choose|j: int| 0 <= j < b.len() && b[j] == y;
                assert(j != 0);
                assert(b1[j - 1] == y);
            }
            if b1.contains(y) {
                let i = choose|i: int| 0 <= i < b1.len() && b1[i] == y;
                assert(b[i + 1] == y);
                assert(lex_lt(b[0], b[i + 1]));
                lemma_lex_lt_asymmetric(y, y);
                assert(a.contains(y));
                let j = choose|j: int| 0 <= j < a.len() && a[j] == y;
                assert(j != 0);
                assert(a1[j - 1] == y);
            }
        }
        assert forall|i: int, j: int| 0 <= i < j < a1.len() implies lex_lt(
            #[trigger] a1[i],
            #[trigger] a1[j],
        ) by {
            assert(a1[i] == a[i + 1] && a1[j] == a[j + 1]);
        }
        assert forall|i: int, j: int| 0 <= i < j < b1.len() implies lex_lt(
            #[trigger] b1[i],
            #[trigger] b1[j],
        ) by {
            assert(b1[i] == b[i + 1] && b1[j] == b[j + 1]);
        }
        law_selection_ignores_listing_order(a1, b1);
        assert(a =~= seq![a[0]] + a1);
        assert(b =~= seq![b[0]] + b1);
    }
}

/// No `$ref` string of `v`, at any depth, names another file.
pub open spec fn no_relative_refs(v: JsonV) -> bool
    decreases v,
{
    match v {
        JsonV::Array(items) => items_no_relative_refs(items),
        JsonV::Object(ms) => members_no_relative_refs(ms),
        _ => true,
    }
}

pub open spec fn items_no_relative_refs(items: Seq<JsonV>) -> bool
    decreases items,
{
    items.len() == 0 || (items_no_relative_refs(items.drop_last()) && no_relative_refs(
        items.last(),
    ))
}

pub open spec fn members_no_relative_refs(ms: Seq<(Seq<char>, JsonV)>) -> bool
    decreases ms,
{
    ms.len() == 0 || (members_no_relative_refs(ms.drop_last()) && {
        let k = ms.last().0;
        let x = ms.last().1;
        if k == ref_key() && x is Str {
            !starts_with(x->Str_0, relative_marker())
        } else {
            no_relative_refs(x)
        }
    })
}

proof fn lemma_items_idempotent(
    items: Seq<JsonV>,
    doc: Seq<char>,
    acc: Seq<EntryV>,
    acc2: Seq<EntryV>,
)
    requires
        items_no_relative_refs(items),
    ensures
        hoist_items(items, doc, acc) matches Ok((xs, a)) ==> hoist_items(xs, doc, acc2) == Ok::<
            (Seq<JsonV>, Seq<EntryV>),
            Fault,
        >((xs, acc2)),
    decreases items, 0nat,
{
    if items.len() > 0 {
        lemma_items_idempotent(items.drop_last(), doc, acc, acc2);
        if let Ok((xs, a1)) = hoist_items(items.drop_last(), doc, acc) {
            law_transform_idempotent(items.last(), doc, a1, acc2);
            if let Ok((y, a2)) = hoist(items.last(), doc, a1) {
                assert(xs.push(y).drop_last() =~= xs);
            }
        }
    } else {
        assert(hoist_items(Seq::<JsonV>::empty(), doc, acc2) == Ok::<
            (Seq<JsonV>, Seq<EntryV>),
            Fault,
        >((Seq::<JsonV>::empty(), acc2)));
    }
}

proof fn lemma_members_idempotent(
    ms: Seq<(Seq<char>, JsonV)>,
    doc: Seq<char>,
    acc: Seq<EntryV>,
    acc2: Seq<EntryV>,
)
    requires
        members_no_relative_refs(ms),
    ensures
        hoist_members(ms, doc, acc) matches Ok((xs, a)) ==> hoist_members(xs, doc, acc2) == Ok::<
            (Seq<(Seq<char>, JsonV)>, Seq<EntryV>),
            Fault,
        >((xs, acc2)),
    decreases ms, 0nat,
{
    lemma_reserved_keys();
    if ms.len() > 0 {
        lemma_members_idempotent(ms.drop_last(), doc, acc, acc2);
        if let Ok((xs, a1)) = hoist_members(ms.drop_last(), doc, acc) {
            let k = ms.last().0;
            let x = ms.last().1;
            if is_defs_key(k) && x is Object {
            } else if k == ref_key() && x is Str {
                law_rewrite_idempotent(x->Str_0, doc);
                if let Ok(t) = rewrite_spec(x->Str_0, doc) {
                    assert(xs.push((k, JsonV::Str(t))).drop_last() =~= xs);
                }
            } else {
                law_transform_idempotent(x, doc, a1, acc2);
                lemma_hoist_shape(x, doc, a1);
                if let Ok((y, a2)) = hoist(x, doc, a1) {
                    assert(xs.push((k, y)).drop_last() =~= xs);
                }
            }
        }
    } else {
        assert(hoist_members(Seq::<(Seq<char>, JsonV)>::empty(), doc, acc2) == Ok::<
            (Seq<(Seq<char>, JsonV)>, Seq<EntryV>),
            Fault,
        >((Seq::<(Seq<char>, JsonV)>::empty(), acc2)));
    }
}

/// Transforming is idempotent on a value none of whose references names
/// another file: transforming the result again, in the same document,
/// returns it unchanged and adds nothing to any accumulator.
pub proof fn law_transform_idempotent(
    v: JsonV,
    doc: Seq<char>,
    acc: Seq<EntryV>,
    acc2: Seq<EntryV>,
)
    requires
        no_relative_refs(v),
    ensures
        hoist(v, doc, acc) matches Ok((out, a)) ==> hoist(out, doc, acc2) == Ok::<
            (JsonV, Seq<EntryV>),
            Fault,
        >((out, acc2)),
    decreases v, 1nat,
{
    match v {
        JsonV::Array(items) => lemma_items_idempotent(items, doc, acc, acc2),
        JsonV::Object(ms) => lemma_members_idempotent(ms, doc, acc, acc2),
        _ => {},
    }
}

/// No value occurs twice in `s`.
pub open spec fn distinct(s: Seq<JsonV>) -> bool {
    forall|i: int, j: int| 0 <= i < s.len() && 0 <= j < s.len() && i != j ==> s[i] != s[j]
}

proof fn lemma_add_distinct(s: Seq<JsonV>, items: Seq<JsonV>)
    requires
        distinct(s),
    ensures
        distinct(add_distinct(s, items)),
        forall|x: JsonV|
            #[trigger] add_distinct(s, items).contains(x) <==> (s.contains(x) || items.contains(x)),
    decreases items.len(),
{
    if items.len() > 0 {
        let rest = items.drop_last();
        let x = items.last();
        lemma_add_distinct(s, rest);
        let s1 = add_distinct(s, rest);
        assert forall|y: JsonV| #[trigger] items.contains(y) <==> (rest.contains(y) || y == x) by {
            if items.contains(y) {
                let k = choose|k: int| 0 <= k < items.len() && items[k] == y;
                if k < items.len() - 1 {
                    assert(rest[k] == y);
                }
            }
            if rest.contains(y) {
                let k = choose|k: int| 0 <= k < rest.len() && rest[k] == y;
                assert(items[k] == y);
            }
            if y == x {
                assert(items[items.len() - 1] == y);
            }
        }
        if !s1.contains(x) {
            let s2 = s1.push(x);
            assert forall|y: JsonV| #[trigger] s2.contains(y) <==> (s1.contains(y) || y == x) by {
                if s2.contains(y) {
                    let k = choose|k: int| 0 <= k < s2.len() && s2[k] == y;
                    if k < s1.len() {
                        assert(s1[k] == y);
                    }
                }
                if s1.contains(y) {
                    let k = choose|k: int| 0 <= k < s1.len() && s1[k] == y;
                    assert(s2[k] == y);
                }
                if y == x {
                    assert(s2[s1.len() as int] == y);
                }
            }
            assert forall|i: int, j: int|
                0 <= i < s2.len() && 0 <= j < s2.len() && i != j implies s2[i] != s2[j] by {
                if i == s1.len() {
                    assert(s2[j] == s1[j]);
                } else if j == s1.len() {
                    assert(s2[i] == s1[i]);
                } else {
                    assert(s2[i] == s1[i] && s2[j] == s1[j]);
                }
            }
        }
    }
}

/// The alternatives of two merged `oneOf` lists are those of either list,
/// each exactly once.
pub proof fn law_one_of_union(a: Seq<JsonV>, b: Seq<JsonV>)
    ensures
        merged_one_of(a, b) == JsonV::Object(
            seq![("oneOf"@, JsonV::Array(add_distinct(Seq::empty(), a + b)))],
        ),
        distinct(add_distinct(Seq::empty(), a + b)),
        forall|x: JsonV|
            #[trigger] add_distinct(Seq::empty(), a + b).contains(x) <==> (a.contains(x)
                || b.contains(x)),
{
    lemma_add_distinct(Seq::empty(), a + b);
    assert forall|x: JsonV| (a + b).contains(x) <==> (a.contains(x) || b.contains(x)) by {
        if (a + b).contains(x) {
            let k = choose|k: int| 0 <= k < (a + b).len() && (a + b)[k] == x;
            if k < a.len() {
                assert(a[k] == x);
            } else {
                assert(b[k - a.len()] == x);
            }
        }
        if a.contains(x) {
            let k = choose|k: int| 0 <= k < a.len() && a[k] == x;
            assert((a + b)[k] == x);
        }
        if b.contains(x) {
            let k = choose|k: int| 0 <= k < b.len() && b[k] == x;
            assert((a + b)[k + a.len()] == x);
        }
    }
}

/// The names of the entries of `defs`.
pub open spec fn name_set(defs: Seq<EntryV>) -> Set<Seq<char>> {
    Set::new(|n: Seq<char>| has_name(defs, n))
}

/// The global names under which transforming `v`, a part of document `doc`,
/// hoists definitions: `doc.<name>` for every child of every
/// local-definitions block, at any depth.
pub open spec fn hoisted_names(v: JsonV, doc: Seq<char>) -> Set<Seq<char>>
    decreases v,
{
    match v {
        JsonV::Array(items) => items_hoisted_names(items, doc),
        JsonV::Object(ms) => members_hoisted_names(ms, doc),
        _ => Set::empty(),
    }
}

pub open spec fn items_hoisted_names(items: Seq<JsonV>, doc: Seq<char>) -> Set<Seq<char>>
    decreases items,
{
    if items.len() == 0 {
        Set::empty()
    } else {
        items_hoisted_names(items.drop_last(), doc) + hoisted_names(items.last(), doc)
    }
}

pub open spec fn members_hoisted_names(ms: Seq<(Seq<char>, JsonV)>, doc: Seq<char>) -> Set<
    Seq<char>,
>
    decreases ms,
{
    if ms.len() == 0 {
        Set::empty()
    } else {
        let k = ms.last().0;
        let x = ms.last().1;
        members_hoisted_names(ms.drop_last(), doc) + if is_defs_key(k) && x is Object {
            block_hoisted_names(x->Object_0, doc)
        } else {
            hoisted_names(x, doc)
        }
    }
}

pub open spec fn block_hoisted_names(children: Seq<(Seq<char>, JsonV)>, doc: Seq<char>) -> Set<
    Seq<char>,
>
    decreases children,
{
    if children.len() == 0 {
        Set::empty()
    } else {
        block_hoisted_names(children.drop_last(), doc) + hoisted_names(children.last().1, doc).insert(
            global_name(doc, children.last().0),
        )
    }
}

/// The keys a bundle of `docs` has: each document key, and every name its
/// document hoists.
pub open spec fn bundle_names(docs: Seq<(Seq<char>, JsonV)>) -> Set<Seq<char>>
    decreases docs.len(),
{
    if docs.len() == 0 {
        Set::empty()
    } else {
        bundle_names(docs.drop_last()) + hoisted_names(docs.last().1, docs.last().0).insert(
            docs.last().0,
        )
    }
}

proof fn lemma_insert_names(acc: Seq<EntryV>, name: Seq<char>, schema: JsonV, owner: Seq<char>)
    ensures
        insert_spec(acc, name, schema, owner) matches Ok(a) ==> name_set(a) == name_set(
            acc,
        ).insert(name),
{
    lemma_entry_index(acc, name);
    let i = entry_index(acc, name);
    if let Ok(a) = insert_spec(acc, name, schema, owner) {
        assert forall|n: Seq<char>| has_name(a, n) <==> (has_name(acc, n) || n == name) by {
            if has_name(a, n) {
                let k = choose|k: int| 0 <= k < a.len() && #[trigger] a[k].name == n;
                if i < 0 {
                    if k < acc.len() {
                        assert(acc[k].name == n);
                    }
                } else if k != i {
                    assert(acc[k].name == n);
                }
            }
            if has_name(acc, n) {
                let k = choose|k: int| 0 <= k < acc.len() && #[trigger] acc[k].name == n;
                assert(a[k].name == n);
            }
            if n == name {
                if i < 0 {
                    assert(a[acc.len() as int].name == n);
                } else {
                    assert(a[i].name == n);
                }
            }
        }
        assert(name_set(a) =~= name_set(acc).insert(name));
    }
}

proof fn lemma_merge_names(defs: Seq<EntryV>, added: Seq<EntryV>)
    ensures
        merge_spec(defs, added) matches Ok(d) ==> name_set(d) == name_set(defs) + name_set(added),
    decreases added.len(),
{
    if added.len() > 0 {
        lemma_merge_names(defs, added.drop_last());
        if let Ok(d1) = merge_spec(defs, added.drop_last()) {
            lemma_insert_names(d1, added.last().name, added.last().schema, added.last().owner);
            assert forall|n: Seq<char>| has_name(added, n) <==> (has_name(added.drop_last(), n)
                || n == added.last().name) by {
                if has_name(added, n) {
                    let k = choose|k: int| 0 <= k < added.len() && #[trigger] added[k].name == n;
                    if k < added.len() - 1 {
                        assert(added.drop_last()[k].name == n);
                    }
                }
                if has_name(added.drop_last(), n) {
                    let k = choose|k: int|
                        0 <= k < added.drop_last().len() && #[trigger] added.drop_last()[k].name
                            == n;
                    assert(added[k].name == n);
                }
                if n == added.last().name {
                    assert(added[added.len() - 1].name == n);
                }
            }
            assert(name_set(added) =~= name_set(added.drop_last()).insert(added.last().name));
            if let Ok(d) = merge_spec(defs, added) {
                assert(name_set(d) =~= name_set(defs) + name_set(added));
            }
        }
    } else {
        assert(name_set(added) =~= Set::<Seq<char>>::empty());
        assert(name_set(defs) + name_set(added) =~= name_set(defs));
    }
}

proof fn lemma_block_names(ms: Seq<(Seq<char>, JsonV)>, doc: Seq<char>, acc: Seq<EntryV>)
    ensures
        hoist_definitions(ms, doc, acc) matches Ok(a) ==> name_set(a) == name_set(acc)
            + block_hoisted_names(ms, doc),
    decreases ms, 0nat,
{
    if ms.len() > 0 {
        lemma_block_names(ms.drop_last(), doc, acc);
        if let Ok(a1) = hoist_definitions(ms.drop_last(), doc, acc) {
            law_transform_names(ms.last().1, doc, a1);
            if let Ok((y, a2)) = hoist(ms.last().1, doc, a1) {
                lemma_insert_names(a2, global_name(doc, ms.last().0), y, doc);
                if let Ok(a) = hoist_definitions(ms, doc, acc) {
                    assert(name_set(a) =~= name_set(acc) + block_hoisted_names(ms, doc));
                }
            }
        }
    } else {
        assert(name_set(acc) + block_hoisted_names(ms, doc) =~= name_set(acc));
    }
}

proof fn lemma_members_names(ms: Seq<(Seq<char>, JsonV)>, doc: Seq<char>, acc: Seq<EntryV>)
    ensures
        hoist_members(ms, doc, acc) matches Ok((xs, a)) ==> name_set(a) == name_set(acc)
            + members_hoisted_names(ms, doc),
    decreases ms, 0nat,
{
    if ms.len() > 0 {
        lemma_members_names(ms.drop_last(), doc, acc);
        if let Ok((xs, a1)) = hoist_members(ms.drop_last(), doc, acc) {
            let k = ms.last().0;
            let x = ms.last().1;
            if is_defs_key(k) && x is Object {
                lemma_block_names(x->Object_0, doc, a1);
            } else {
                law_transform_names(x, doc, a1);
            }
            if let Ok((xs2, a)) = hoist_members(ms, doc, acc) {
                assert(name_set(a) =~= name_set(acc) + members_hoisted_names(ms, doc));
            }
        }
    } else {
        assert(name_set(acc) + members_hoisted_names(ms, doc) =~= name_set(acc));
    }
}

proof fn lemma_items_names(items: Seq<JsonV>, doc: Seq<char>, acc: Seq<EntryV>)
    ensures
        hoist_items(items, doc, acc) matches Ok((xs, a)) ==> name_set(a) == name_set(acc)
            + items_hoisted_names(items, doc),
    decreases items, 0nat,
{
    if items.len() > 0 {
        lemma_items_names(items.drop_last(), doc, acc);
        if let Ok((xs, a1)) = hoist_items(items.drop_last(), doc, acc) {
            law_transform_names(items.last(), doc, a1);
            if let Ok((xs2, a)) = hoist_items(items, doc, acc) {
                assert(name_set(a) =~= name_set(acc) + items_hoisted_names(items, doc));
            }
        }
    } else {
        assert(name_set(acc) + items_hoisted_names(items, doc) =~= name_set(acc));
    }
}

/// Transforming `v` adds to the accumulator exactly the names of
/// `hoisted_names`: `doc.<name>` for every child of every local-definitions
/// block of `v`, at any depth.
pub proof fn law_transform_names(v: JsonV, doc: Seq<char>, acc: Seq<EntryV>)
    ensures
        hoist(v, doc, acc) matches Ok((out, a)) ==> name_set(a) == name_set(acc) + hoisted_names(
            v,
            doc,
        ),
    decreases v, 1nat,
{
    match v {
        JsonV::Array(items) => lemma_items_names(items, doc, acc),
        JsonV::Object(ms) => lemma_members_names(ms, doc, acc),
        _ => {
            assert(name_set(acc) + hoisted_names(v, doc) =~= name_set(acc));
        },
    }
}

/// The keys of a bundle's definitions map are exactly the document keys and
/// the names their documents hoist.
pub proof fn law_bundle_keys(docs: Seq<(Seq<char>, JsonV)>)
    ensures
        bundle_defs(docs) matches Ok(d) ==> name_set(d) == bundle_names(docs),
    decreases docs.len(),
{
    if docs.len() > 0 {
        law_bundle_keys(docs.drop_last());
        if let Ok(d1) = bundle_defs(docs.drop_last()) {
            let key = docs.last().0;
            law_transform_names(docs.last().1, key, Seq::empty());
            assert(name_set(Seq::<EntryV>::empty()) =~= Set::<Seq<char>>::empty());
            if let Ok((out, local)) = hoist(docs.last().1, key, Seq::empty()) {
                lemma_merge_names(d1, local);
                if let Ok(d2) = merge_spec(d1, local) {
                    lemma_insert_names(d2, key, out, key);
                    if let Ok(d) = bundle_defs(docs) {
                        assert(name_set(d) =~= bundle_names(docs));
                    }
                }
            }
        }
    } else {
        assert(name_set(Seq::<EntryV>::empty()) =~= Set::<Seq<char>>::empty());
    }
}

/// In a bundling run, a document whose key is already held in the map, by
/// an entry that is not a `oneOf` list or against a body that is not one,
/// fails the whole run with a collision that names the key, the document
/// that holds it and the document that claims it.
pub proof fn law_run_fails_on_taken_key(
    docs: Seq<(Seq<char>, JsonV)>,
    d2: Seq<EntryV>,
    out: JsonV,
    i: int,
)
    requires
        docs.len() > 0,
        bundle_defs(docs.drop_last()) matches Ok(d1) && hoist(
            docs.last().1,
            docs.last().0,
            Seq::empty(),
        ) matches Ok((o, local)) && o == out && merge_spec(d1, local) == Ok::<
            Seq<EntryV>,
            Fault,
        >(d2),
        0 <= i < d2.len(),
        d2[i].name == docs.last().0,
        one_of_items(d2[i].schema) is None || one_of_items(out) is None,
    ensures
        bundle_defs(docs) == Err::<Seq<EntryV>, Fault>(
            Fault::Collision { name: docs.last().0, existing: d2[i].owner, incoming: docs.last().0 },
        ),
{
    law_definitions_unique(docs.drop_last());
    let d1 = bundle_defs(docs.drop_last())->Ok_0;
    let local = hoist(docs.last().1, docs.last().0, Seq::empty())->Ok_0.1;
    lemma_merge_unique(d1, local);
    law_second_entry_fails(d2, i, out, docs.last().0);
}

} // verus!
