use vstd::prelude::*;

use crate::discovery::names_view;
use crate::text::{append, chars_of, has_prefix, matches_at, slice, starts_with, string_of};

verus! {

broadcast use {vstd::seq::group_seq_axioms, vstd::std_specs::vec::group_vec_axioms};

/// A line without the carriage return that ends it, if one does.
pub open spec fn strip_cr(line: Seq<char>) -> Seq<char> {
    if line.len() > 0 && line.last() == '\r' {
        line.drop_last()
    } else {
        line
    }
}

/// The lines of the text `s`, the current line having begun with `cur`: a
/// line ends at `\n`, and a `\r` right before it is dropped; the last line
/// is kept only if it is not empty.
pub open spec fn lines_from(s: Seq<char>, cur: Seq<char>) -> Seq<Seq<char>>
    decreases s.len(),
{
    if s.len() == 0 {
        if cur.len() == 0 {
            Seq::empty()
        } else {
            seq![cur]
        }
    } else if s[0] == '\n' {
        seq![strip_cr(cur)] + lines_from(s.drop_first(), Seq::empty())
    } else {
        lines_from(s.drop_first(), cur.push(s[0]))
    }
}

/// The lines of a text.
pub open spec fn lines_of(s: Seq<char>) -> Seq<Seq<char>> {
    lines_from(s, Seq::empty())
}

/// Splits a text into its lines.
pub fn text_lines(s: &str) -> (r: Vec<String>)
    ensures
        names_view(r@) == lines_of(s@),
{
    let sc = chars_of(s);
    let mut out: Vec<String> = Vec::new();
    let mut cur: Vec<char> = Vec::new();
    let mut i: usize = 0;
    assert(sc@.skip(0) =~= sc@);
    assert(names_view(out@) =~= Seq::<Seq<char>>::empty());
    while i < sc.len()
        invariant
            i <= sc@.len(),
            sc@ == s@,
            lines_of(s@) == names_view(out@) + lines_from(sc@.skip(i as int), cur@),
        decreases sc@.len() - i,
    {
        let ghost rest = sc@.skip(i as int);
        assert(rest.drop_first() =~= sc@.skip(i + 1));
        assert(rest[0] == sc@[i as int]);
        if sc[i] == '\n' {
            let line = if cur.len() > 0 && cur[cur.len() - 1] == '\r' {
                slice(&cur, 0, cur.len() - 1)
            } else {
                slice(&cur, 0, cur.len())
            };
            assert(line@ =~= strip_cr(cur@));
            let ghost before = names_view(out@);
            out.push(string_of(line.as_slice()));
            assert(names_view(out@) =~= before.push(line@));
            assert(before + (seq![line@] + lines_from(sc@.skip(i + 1), Seq::empty()))
                =~= before.push(line@) + lines_from(sc@.skip(i + 1), Seq::empty()));
            cur = Vec::new();
            assert(cur@ =~= Seq::<char>::empty());
        } else {
            cur.push(sc[i]);
        }
        i += 1;
    }
    if cur.len() > 0 {
        let ghost before = names_view(out@);
        out.push(string_of(cur.as_slice()));
        assert(names_view(out@) =~= before + seq![cur@]);
    } else {
        assert(names_view(out@) + Seq::<Seq<char>>::empty() =~= names_view(out@));
    }
    out
}

/// `s` with every occurrence of `from`, taken from left to right without
/// overlap, replaced by `to`.
pub open spec fn replaced(s: Seq<char>, from: Seq<char>, to: Seq<char>) -> Seq<char>
    decreases s.len(),
{
    if from.len() == 0 || s.len() == 0 {
        s
    } else if starts_with(s, from) {
        to + replaced(s.skip(from.len() as int), from, to)
    } else {
        seq![s[0]] + replaced(s.drop_first(), from, to)
    }
}

/// `s` with every occurrence of `from`, taken from left to right without
/// overlap, replaced by `to`.
pub fn replace_all(s: &str, from: &str, to: &str) -> (r: String)
    requires
        from@.len() > 0,
    ensures
        r@ == replaced(s@, from@, to@),
{
    let sc = chars_of(s);
    let fc = chars_of(from);
    let tc = chars_of(to);
    let mut out: Vec<char> = Vec::new();
    let mut i: usize = 0;
    assert(sc@.skip(0) =~= sc@);
    while i < sc.len()
        invariant
            i <= sc@.len(),
            fc@.len() > 0,
            fc@ == from@,
            tc@ == to@,
            replaced(sc@, fc@, tc@) == out@ + replaced(sc@.skip(i as int), fc@, tc@),
        decreases sc@.len() - i,
    {
        let ghost rest = sc@.skip(i as int);
        if matches_at(&sc, &fc, i) {
            assert(rest.skip(fc@.len() as int) =~= sc@.skip(i + fc@.len()));
            append(&mut out, &tc);
            assert(replaced(sc@, fc@, tc@) == out@ + replaced(
                sc@.skip(i + fc@.len()),
                fc@,
                tc@,
            ));
            i = i + fc.len();
        } else {
            assert(rest.drop_first() =~= sc@.skip(i + 1));
            out.push(sc[i]);
            assert(replaced(sc@, fc@, tc@) == out@ + replaced(sc@.skip(i + 1), fc@, tc@));
            i = i + 1;
        }
    }
    assert(out@ + replaced(sc@.skip(i as int), fc@, tc@) =~= out@);
    string_of(out.as_slice())
}

/// The state after reading some lines: the text so far, whether the last
/// line read was a doc comment, whether no comment block has been met yet.
pub open spec fn reflow_state(lines: Seq<Seq<char>>) -> (Seq<char>, bool, bool)
    decreases lines.len(),
{
    if lines.len() == 0 {
        (Seq::empty(), false, true)
    } else {
        let (text, in_block, first) = reflow_state(lines.drop_last());
        let line = lines.last();
        if starts_with(line, "///"@) {
            if in_block {
                (text, true, first)
            } else if first {
                (text, true, false)
            } else {
                (text.push('\n'), true, false)
            }
        } else {
            (text + line + seq!['\n'], false, first)
        }
    }
}

/// The lines with doc-comment lines dropped, each block of them leaving one
/// empty line in its place, but the first; every kept line ends with a
/// newline.
pub open spec fn reflow(lines: Seq<Seq<char>>) -> Seq<char> {
    reflow_state(lines).0
}

/// Drops the doc-comment lines of `lines`, leaving one empty line for each
/// block of them but the first.
pub fn cleanup_comment_lines(lines: &Vec<String>) -> (r: String)
    ensures
        r@ == reflow(names_view(lines@)),
{
    let ghost vl = names_view(lines@);
    let marker = chars_of("///");
    let mut result: Vec<char> = Vec::new();
    let mut in_comment_block = false;
    let mut first_comment_block = true;
    let mut i: usize = 0;
    assert(vl.take(0) =~= Seq::<Seq<char>>::empty());
    while i < lines.len()
        invariant
            i <= lines@.len(),
            vl == names_view(lines@),
            marker@ == "///"@,
            reflow_state(vl.take(i as int)) == (result@, in_comment_block, first_comment_block),
        decreases lines@.len() - i,
    {
        assert(vl.take(i + 1).drop_last() =~= vl.take(i as int));
        assert(vl.take(i + 1).last() == lines@[i as int]@);
        let line = chars_of(lines[i].as_str());
        if has_prefix(&line, &marker) {
            if !in_comment_block {
                in_comment_block = true;
                if first_comment_block {
                    first_comment_block = false;
                } else {
                    result.push('\n');
                }
            }
        } else {
            in_comment_block = false;
            append(&mut result, &line);
            result.push('\n');
        }
        i += 1;
    }
    assert(vl.take(vl.len() as int) =~= vl);
    string_of(result.as_slice())
}

/// Drops the doc comments of generated source text, leaving one empty line
/// for each block of them but the first.
pub fn cleanup_comment_blocks(input: &str) -> (r: String)
    ensures
        r@ == reflow(lines_of(input@)),
{
    let lines = text_lines(input);
    cleanup_comment_lines(&lines)
}

/// The generated source text after `cleanup_rs_code`'s substitutions, applied
/// to `s` in order.
pub open spec fn shorten_paths(s: Seq<char>) -> Seq<char> {
    let s1 = replaced(s, "::std::convert::From"@, "From"@);
    let s2 = replaced(s1, "::std::convert::TryFrom"@, "TryFrom"@);
    let s3 = replaced(s2, "::std::option::Option"@, "Option"@);
    let s4 = replaced(s3, "::std::result::Result"@, "Result"@);
    let s5 = replaced(s4, "::std::string::String"@, "String"@);
    let s6 = replaced(s5, "::std::vec::Vec"@, "Vec"@);
    replaced(s6, " ::"@, " "@)
}

/// Tidies generated source text: drops doc comments, then writes std paths
/// by their short names.
pub fn cleanup_rs_code(code: &str) -> (r: String)
    ensures
        r@ == shorten_paths(reflow(lines_of(code@))),
{
    let code = cleanup_comment_blocks(code);
    proof {
        reveal_strlit("::std::convert::From");
        reveal_strlit("::std::convert::TryFrom");
        reveal_strlit("::std::option::Option");
        reveal_strlit("::std::result::Result");
        reveal_strlit("::std::string::String");
        reveal_strlit("::std::vec::Vec");
        reveal_strlit(" ::");
    }
    let s1 = replace_all(code.as_str(), "::std::convert::From", "From");
    let s2 = replace_all(s1.as_str(), "::std::convert::TryFrom", "TryFrom");
    let s3 = replace_all(s2.as_str(), "::std::option::Option", "Option");
    let s4 = replace_all(s3.as_str(), "::std::result::Result", "Result");
    let s5 = replace_all(s4.as_str(), "::std::string::String", "String");
    let s6 = replace_all(s5.as_str(), "::std::vec::Vec", "Vec");
    replace_all(s6.as_str(), " ::", " ")
}

} // verus!
