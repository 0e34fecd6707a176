use rust_generator::cleanup::{
    cleanup_comment_blocks, cleanup_comment_lines, cleanup_rs_code, replace_all, text_lines,
};

#[test]
fn comment_blocks_become_blank_lines() {
    let input = "/// Doc of A\nstruct A;\n/// x\n/// y\nstruct B;\n";
    assert_eq!(cleanup_comment_blocks(input), "struct A;\n\nstruct B;\n");
}

#[test]
fn comment_lines_from_a_list() {
    let lines: Vec<String> = vec!["use x;", "///a", "///b", "fn f() {}", "/// c", "fn g() {}"]
        .into_iter()
        .map(String::from)
        .collect();
    assert_eq!(cleanup_comment_lines(&lines), "use x;\nfn f() {}\n\nfn g() {}\n");
}

#[test]
fn indented_comments_are_kept() {
    assert_eq!(cleanup_comment_blocks("    /// kept\nx\r\n"), "    /// kept\nx\n");
}

#[test]
fn empty_text_stays_empty() {
    assert_eq!(cleanup_comment_blocks(""), "");
}

#[test]
fn std_paths_are_shortened() {
    let code = "pub struct S {\n    pub a: ::std::option::Option<::std::string::String>,\n    pub b: ::std::vec::Vec<i32>,\n}\nimpl ::std::convert::From<S> for T {}\nimpl ::std::convert::TryFrom<S> for U {}\nfn f() -> ::std::result::Result<(), ()> { x:: y }\n#[derive( ::serde::Deserialize)]\n";
    let expected = "pub struct S {\n    pub a: Option<String>,\n    pub b: Vec<i32>,\n}\nimpl From<S> for T {}\nimpl TryFrom<S> for U {}\nfn f() -> Result<(), ()> { x:: y }\n#[derive( serde::Deserialize)]\n";
    assert_eq!(cleanup_rs_code(code), expected);
}

#[test]
fn lines_split_like_std() {
    for text in ["", "a", "a\n", "\n", "a\n\nb", "a\r\nb\r\n", "a\r", "x\ry\n"] {
        let expected: Vec<String> = text.lines().map(String::from).collect();
        assert_eq!(text_lines(text), expected, "{:?}", text);
    }
}

#[test]
fn replace_all_is_leftmost_and_non_overlapping() {
    assert_eq!(replace_all("aaaa", "aa", "b"), "bb");
    assert_eq!(replace_all("aaa", "aa", "b"), "ba");
    assert_eq!(replace_all("x::y ::z", " ::", " "), "x::y z");
    assert_eq!(replace_all("", "a", "b"), "");
}
