use vstd::prelude::*;

use crate::reference::{document_key, schema_suffix, strip_schema_suffix};
use crate::text::{chars_of, ends_with, has_suffix, string_of};

verus! {

broadcast use {vstd::seq::group_seq_axioms, vstd::std_specs::vec::group_vec_axioms};

/// Lexicographic order of character sequences, by code point.
pub open spec fn lex_lt(a: Seq<char>, b: Seq<char>) -> bool
    decreases a.len(),
{
    if a.len() == 0 {
        b.len() > 0
    } else if b.len() == 0 {
        false
    } else if a[0] != b[0] {
        a[0] < b[0]
    } else {
        lex_lt(a.drop_first(), b.drop_first())
    }
}

/// Each name comes before every later one: in order, and no name twice.
pub open spec fn sorted(s: Seq<Seq<char>>) -> bool {
    forall|i: int, j: int| 0 <= i < j < s.len() ==> lex_lt(#[trigger] s[i], #[trigger] s[j])
}

pub open spec fn names_view(s: Seq<String>) -> Seq<Seq<char>> {
    s.map_values(|x: String| x@)
}

/// A file that takes part in a bundle: a schema file not named in `skip`.
pub open spec fn is_candidate(name: Seq<char>, skip: Seq<Seq<char>>) -> bool {
    ends_with(name, schema_suffix()) && !skip.contains(name)
}

pub proof fn lemma_lex_lt_asymmetric(a: Seq<char>, b: Seq<char>)
    ensures
        lex_lt(a, b) ==> !lex_lt(b, a),
        !lex_lt(a, a),
    decreases a.len(),
{
    if a.len() > 0 && b.len() > 0 && a[0] == b[0] {
        lemma_lex_lt_asymmetric(a.drop_first(), b.drop_first());
    }
    if a.len() > 0 {
        lemma_lex_lt_asymmetric(a.drop_first(), a.drop_first());
    }
}

pub proof fn lemma_lex_lt_total(a: Seq<char>, b: Seq<char>)
    ensures
        a != b ==> lex_lt(a, b) || lex_lt(b, a),
    decreases a.len(),
{
    if a.len() > 0 && b.len() > 0 && a[0] == b[0] {
        lemma_lex_lt_total(a.drop_first(), b.drop_first());
        if a.drop_first() == b.drop_first() {
            assert(a =~= seq![a[0]] + a.drop_first());
            assert(b =~= seq![b[0]] + b.drop_first());
        }
    }
    if a.len() == 0 && b.len() == 0 {
        assert(a =~= b);
    }
}

pub proof fn lemma_lex_lt_transitive(a: Seq<char>, b: Seq<char>, c: Seq<char>)
    requires
        lex_lt(a, b),
        lex_lt(b, c),
    ensures
        lex_lt(a, c),
    decreases a.len(),
{
    if a.len() > 0 && b.len() > 0 && c.len() > 0 && a[0] == b[0] && b[0] == c[0] {
        lemma_lex_lt_transitive(a.drop_first(), b.drop_first(), c.drop_first());
    }
}

/// Whether `a` comes before `b`.
pub fn less_than(a: &Vec<char>, b: &Vec<char>) -> (r: bool)
    ensures
        r == lex_lt(a@, b@),
{
    let mut i: usize = 0;
    assert(a@.skip(0) =~= a@);
    assert(b@.skip(0) =~= b@);
    while i < a.len() && i < b.len() && a[i] == b[i]
        invariant
            i <= a@.len(),
            i <= b@.len(),
            lex_lt(a@, b@) == lex_lt(a@.skip(i as int), b@.skip(i as int)),
        decreases a@.len() - i,
    {
        assert(a@.skip(i as int).drop_first() =~= a@.skip(i + 1));
        assert(b@.skip(i as int).drop_first() =~= b@.skip(i + 1));
        i += 1;
    }
    if i == a.len() {
        i < b.len()
    } else if i == b.len() {
        false
    } else {
        a[i] < b[i]
    }
}

/// Whether `skip` holds `name`.
pub fn contains_name(skip: &Vec<String>, name: &String) -> (r: bool)
    ensures
        r == names_view(skip@).contains(name@),
{
    let ghost vs = names_view(skip@);
    let mut i: usize = 0;
    while i < skip.len()
        invariant
            i <= skip@.len(),
            vs == names_view(skip@),
            forall|j: int| 0 <= j < i ==> vs[j] != name@,
        decreases skip@.len() - i,
    {
        if skip[i] == *name {
            assert(vs[i as int] == name@);
            return true;
        }
        i += 1;
    }
    false
}

/// Inserts `x`, which `names` does not hold, into the sorted `names` before
/// the first name greater than it.
pub fn insert_sorted(names: &mut Vec<String>, x: String)
    requires
        sorted(names_view(old(names)@)),
        !names_view(old(names)@).contains(x@),
    ensures
        sorted(names_view(final(names)@)),
        forall|y: Seq<char>|
            names_view(final(names)@).contains(y) <==> (names_view(old(names)@).contains(y) || y
                == x@),
{
    let ghost v0 = names_view(names@);
    let xc = chars_of(x.as_str());
    let mut j: usize = 0;
    while j < names.len() && !less_than(&xc, &chars_of(names[j].as_str()))
        invariant
            j <= names@.len(),
            names@ == old(names)@,
            v0 == names_view(names@),
            xc@ == x@,
            forall|k: int| 0 <= k < j ==> !lex_lt(x@, #[trigger] v0[k]),
        decreases names@.len() - j,
    {
        j += 1;
    }
    let ghost xv = x@;
    proof {
        assert forall|k: int| 0 <= k < j implies lex_lt(#[trigger] v0[k], xv) by {
            lemma_lex_lt_total(xv, v0[k]);
            assert(v0[k] != xv);
        }
        assert forall|k: int| j <= k < v0.len() implies lex_lt(xv, #[trigger] v0[k]) by {
            if k > j {
                lemma_lex_lt_transitive(xv, v0[j as int], v0[k]);
            }
        }
    }
    names.insert(j, x);
    let ghost v1 = names_view(names@);
    assert(v1 =~= v0.insert(j as int, xv));
    assert forall|p: int, q: int| 0 <= p < q < v1.len() implies lex_lt(
        #[trigger] v1[p],
        #[trigger] v1[q],
    ) by {
        if q < j {
            assert(v1[p] == v0[p] && v1[q] == v0[q]);
        } else if q == j {
            assert(v1[p] == v0[p] && v1[q] == xv);
        } else if p < j {
            assert(v1[p] == v0[p] && v1[q] == v0[q - 1]);
        } else if p == j {
            assert(v1[p] == xv && v1[q] == v0[q - 1]);
        } else {
            assert(v1[p] == v0[p - 1] && v1[q] == v0[q - 1]);
        }
    }
    assert forall|y: Seq<char>| v1.contains(y) <==> (v0.contains(y) || y == xv) by {
        if v0.contains(y) {
            let k = choose|k: int| 0 <= k < v0.len() && v0[k] == y;
            if k < j {
                assert(v1[k] == y);
            } else {
                assert(v1[k + 1] == y);
            }
        }
        if v1.contains(y) {
            let k = choose|k: int| 0 <= k < v1.len() && v1[k] == y;
            if k < j {
                assert(v0[k] == y);
            } else if k > j {
                assert(v0[k - 1] == y);
            }
        }
        if y == xv {
            assert(v1[j as int] == y);
        }
    }
}

/// The schema files among `names` that `skip` does not list, each once, in
/// lexicographic order.
pub fn select_schema_files(names: &Vec<String>, skip: &Vec<String>) -> (r: Vec<String>)
    ensures
        sorted(names_view(r@)),
        forall|y: Seq<char>|
            names_view(r@).contains(y) <==> (names_view(names@).contains(y) && is_candidate(
                y,
                names_view(skip@),
            )),
{
    let ghost vn = names_view(names@);
    let ghost vs = names_view(skip@);
    let suffix = chars_of(".schema.json");
    let mut out: Vec<String> = Vec::new();
    let mut i: usize = 0;
    assert(names_view(out@) =~= Seq::<Seq<char>>::empty());
    while i < names.len()
        invariant
            i <= names@.len(),
            vn == names_view(names@),
            vs == names_view(skip@),
            suffix@ == schema_suffix(),
            sorted(names_view(out@)),
            forall|y: Seq<char>|
                #![trigger names_view(out@).contains(y)]
                #![trigger vn.take(i as int).contains(y)]
                names_view(out@).contains(y) <==> (vn.take(i as int).contains(y) && is_candidate(
                    y,
                    vs,
                )),
        decreases names@.len() - i,
    {
        let ghost before = names_view(out@);
        assert(forall|y: Seq<char>|
            #[trigger] before.contains(y) <==> (vn.take(i as int).contains(y) && is_candidate(y, vs)));
        let name = &names[i];
        let keep = has_suffix(&chars_of(name.as_str()), &suffix) && !contains_name(skip, name);
        assert(vn[i as int] == name@);
        assert(keep == is_candidate(name@, vs));
        if keep && !contains_name(&out, name) {
            insert_sorted(&mut out, name.clone());
        }
        assert forall|y: Seq<char>|
            names_view(out@).contains(y) <==> (vn.take(i + 1).contains(y) && is_candidate(
                y,
                vs,
            )) by {
            let t1 = vn.take(i + 1);
            let t0 = vn.take(i as int);
            if t1.contains(y) {
                let k = choose|k: int| 0 <= k < t1.len() && t1[k] == y;
                if k < i {
                    assert(t0[k] == y);
                }
            }
            if t0.contains(y) {
                let k = choose|k: int| 0 <= k < t0.len() && t0[k] == y;
                assert(t1[k] == y);
            }
            assert(t1[i as int] == vn[i as int]);
            assert(names_view(out@).contains(y) <==> (before.contains(y) || (keep && y == vn[i as int])));
            assert(before.contains(y) <==> (t0.contains(y) && is_candidate(y, vs)));
        }
        i += 1;
    }
    assert(vn.take(vn.len() as int) =~= vn);
    assert(forall|y: Seq<char>|
        #[trigger] names_view(out@).contains(y) <==> (vn.contains(y) && is_candidate(y, vs)));
    out
}

/// The document key of a schema file name: the name without its suffix.
pub fn document_key_of(file_name: &str) -> (r: String)
    ensures
        r@ == document_key(file_name@),
{
    let key = strip_schema_suffix(&chars_of(file_name));
    string_of(key.as_slice())
}

} // verus!
