use mac_mips::line::{push_repeated, CodeLine, SplitLine, DEFAULT_COMMENT_GAP};

fn line(code: Option<&str>, comment: Option<&str>) -> CodeLine {
    CodeLine::new(code.map(String::from), comment.map(String::from))
}

#[test]
fn new_line_has_no_gap_and_no_indent() {
    let l = CodeLine::new(Some(String::from("li")), None);
    assert_eq!(l.code, Some(String::from("li")));
    assert_eq!(l.comment, None);
    assert_eq!(l.com_gap, None);
    assert_eq!(l.indent, 0);
}

#[test]
fn default_line_is_blank() {
    let l = CodeLine::default();
    assert_eq!(l, line(None, None));
    assert!(l.is_empty());
    assert_eq!(l.to_string(), "");
}

#[test]
fn parse_code_only() {
    assert_eq!(CodeLine::parse("li $v0, 1"), line(Some("li $v0, 1"), None));
    assert_eq!(CodeLine::parse("  li  "), line(Some("li"), None));
}

#[test]
fn parse_comment_only() {
    assert_eq!(CodeLine::parse("# I am a comment"), line(None, Some("I am a comment")));
    assert_eq!(CodeLine::parse("   #   spaced   "), line(None, Some("spaced")));
    assert_eq!(CodeLine::parse("#"), line(None, Some("")));
}

#[test]
fn parse_code_and_comment() {
    assert_eq!(CodeLine::parse("li $v0, 1#3"), line(Some("li $v0, 1"), Some("3")));
    assert_eq!(CodeLine::parse("main:   # entry # point"), line(Some("main:"), Some("entry # point")));
}

#[test]
fn parse_blank() {
    assert_eq!(CodeLine::parse(""), line(None, None));
    assert_eq!(CodeLine::parse("   \t"), line(None, None));
    assert_eq!(CodeLine::parse("\u{00A0}\u{3000}"), line(None, None));
}

#[test]
fn parse_cuts_a_literal_at_its_hash() {
    assert_eq!(CodeLine::parse(".asciiz \"a#b\""), line(Some(".asciiz \"a"), Some("b\"")));
}

#[test]
fn format_respaces_the_code() {
    let mut l = line(Some("lb $a0, 0 ( $sp )"), Some("load"));
    l.format();
    assert_eq!(l, line(Some("lb $a0, 0($sp)"), Some("load")));
    let mut l = line(Some("0 ( $sp )"), None);
    l.format();
    assert_eq!(l.code, Some(String::from("0($sp)")));
    let mut l = line(Some("li $v0 ,1"), None);
    l.format();
    assert_eq!(l.code, Some(String::from("li $v0, 1")));
}

#[test]
fn format_leaves_comment_only_and_blank_lines() {
    let mut l = line(None, Some("a  ,  b"));
    l.format();
    assert_eq!(l, line(None, Some("a  ,  b")));
    let mut l = line(None, None);
    l.format();
    assert_eq!(l, line(None, None));
}

#[test]
fn format_keeps_gap_and_indent() {
    let mut l = line(Some("a ,b"), Some("c"));
    l.com_gap = Some(7);
    l.indent = 3;
    l.format();
    assert_eq!(l.code, Some(String::from("a, b")));
    assert_eq!(l.com_gap, Some(7));
    assert_eq!(l.indent, 3);
}

#[test]
fn format_twice_is_format_once() {
    for code in ["lb $a0, 0 ( $sp )", "a,b:c(d)e", "txt:.asciiz\"hello\"", "li \"abc"] {
        let mut once = line(Some(code), None);
        once.format();
        let mut twice = once.clone();
        twice.format();
        assert_eq!(once, twice);
    }
}

#[test]
fn kinds_of_line() {
    assert!(line(None, Some("c")).is_comment_only());
    assert!(!line(Some("x"), Some("c")).is_comment_only());
    assert!(!line(Some("x"), None).is_comment_only());
    assert!(!line(None, None).is_comment_only());
    assert!(line(None, None).is_empty());
    assert!(!line(None, Some("")).is_empty());
    assert!(!line(Some("x"), None).is_empty());
}

#[test]
fn code_width_counts_bytes() {
    assert_eq!(line(None, Some("comment")).code_w(), 0);
    assert_eq!(line(Some("li $v0, 1"), None).code_w(), 9);
    assert_eq!(line(Some("\u{e9}"), None).code_w(), 2);
    assert_eq!(line(Some("\u{4e16}\u{754c}"), None).code_w(), 6);
}

#[test]
fn starts_and_ends_with() {
    let l = line(Some(".globl main"), Some("x:"));
    assert!(l.starts_with(".globl"));
    assert!(l.starts_with(""));
    assert!(!l.starts_with(".global"));
    assert!(!l.starts_with(".globl main and more"));
    assert!(l.ends_with("main"));
    assert!(!l.ends_with(":"));
    assert!(line(Some("main:"), None).ends_with(":"));
    assert!(!line(None, Some(".globl")).starts_with(".globl"));
    assert!(!line(None, None).starts_with(""));
    assert!(!line(None, None).ends_with(""));
}

#[test]
fn indent_goes_one_level_deeper() {
    let mut l = line(Some("x"), None);
    l.indent();
    assert_eq!(l.indent, 1);
    l.indent();
    assert_eq!(l.indent, 2);
    assert_eq!(l.to_string(), "\t\tx");
}

#[test]
fn hash_index_sets_the_gap() {
    let mut l = line(Some("12345"), Some("c"));
    l.set_hash_index(7);
    assert_eq!(l.com_gap, Some(2));
    l.set_hash_index(5);
    assert_eq!(l.com_gap, Some(0));
    l.set_hash_index(4);
    assert_eq!(l.com_gap, None);
    let mut l = line(None, Some("c"));
    l.set_hash_index(3);
    assert_eq!(l.com_gap, Some(3));
}

#[test]
fn line_as_text() {
    assert_eq!(line(None, None).to_string(), "");
    assert_eq!(line(Some("syscall"), None).to_string(), "syscall");
    assert_eq!(line(None, Some("note")).to_string(), "# note");
    assert_eq!(line(None, Some("")).to_string(), "# ");
    assert_eq!(line(Some("li"), Some("note")).to_string(), "li  # note");
    assert_eq!(DEFAULT_COMMENT_GAP, 2);
    let mut l = line(Some("li"), Some("note"));
    l.com_gap = Some(5);
    l.indent = 1;
    assert_eq!(l.to_string(), "\tli     # note");
    assert_eq!(l.to_string_without_indent(), "li     # note");
    l.com_gap = Some(0);
    assert_eq!(l.to_string(), "\tli# note");
}

#[test]
fn gap_of_a_line_without_comment_is_not_written() {
    let mut l = line(Some("li"), None);
    l.com_gap = Some(9);
    assert_eq!(l.to_string(), "li");
}

#[test]
fn repeated_characters() {
    let mut s = String::from("ab");
    push_repeated(&mut s, '-', 3);
    assert_eq!(s, "ab---");
    push_repeated(&mut s, 'x', 0);
    assert_eq!(s, "ab---");
}

#[test]
fn split_label_and_instruction() {
    assert_eq!(SplitLine::parse("main:    li $v0, 1"), SplitLine::Two(("main:", "    li $v0, 1")));
    assert_eq!(SplitLine::parse("main:li $v0, 1"), SplitLine::Two(("main:", "li $v0, 1")));
    assert_eq!(SplitLine::parse("main:"), SplitLine::Two(("main:", "")));
    assert_eq!(SplitLine::parse("a: b: c"), SplitLine::Two(("a:", " b: c")));
}

#[test]
fn split_with_comment() {
    assert_eq!(SplitLine::parse("main: li # c"), SplitLine::Two(("main:", " li # c")));
    assert_eq!(SplitLine::parse("main: # entry"), SplitLine::One("main: # entry"));
    assert_eq!(SplitLine::parse("main:# entry"), SplitLine::One("main:# entry"));
    assert_eq!(SplitLine::parse("li $v0 # a: b"), SplitLine::One("li $v0 # a: b"));
    assert_eq!(SplitLine::parse("# a: b"), SplitLine::One("# a: b"));
}

#[test]
fn split_without_colon() {
    assert_eq!(SplitLine::parse("syscall"), SplitLine::One("syscall"));
    assert_eq!(SplitLine::parse(""), SplitLine::One(""));
}

#[test]
fn split_counts_characters_not_bytes() {
    assert_eq!(SplitLine::parse("\u{e9}t\u{e9}: li"), SplitLine::Two(("\u{e9}t\u{e9}:", " li")));
}
