use mac_mips::formatter;
use mac_mips::formatter::FormatError;

fn formatted(input: &str) -> String {
    formatter::format(String::from(input)).unwrap()
}

const SAMPLES: [&str; 12] = [
    "",
    "\n\n",
    "# I am a comment\n",
    ".data\noutput: .asciiz \"Hello World\"\n.text\nmain:\nli $v0, 4\nla $a0, output\nsyscall\nend:\nli $v0, 10\nsyscall",
    ".text # 1\nmain: #2\nli $v0, 1#3",
    "main:\nli $v0, 1\n\n# 1\n\nli $v0, 10\nsyscall\n\n# 2",
    "# Comment about function\nmain:\n# Middle comment\nli $v0, 1\nli $a0, 69\n\n# Linked comment\nsyscall\n",
    ".text\n.globl main\nmain:\nli $t2, 25",
    ".data\n.align 2\n\n\no: .space 10\n# c\n.globl x\n# d",
    "main:    li $v0, 1   # one\nother:   li $a0, 69 # sixty-nine\nsyscall",
    ".data\nlong_line: .asciiz \"A very super long string that takes up a lot of horizontal space\"\nshort_line: .space 22000  # 22KB\n",
    "#\nmain: # entry\n#\n\n\nli $v0 ,1 #\n.globl main # g\n",
];

#[test]
fn formatting_twice_is_formatting_once() {
    for input in SAMPLES {
        let once = formatted(input);
        assert_eq!(formatted(&once), once, "{:?}", input);
    }
}

#[test]
fn formatting_changes_a_line_with_two_labels_twice() {
    let once = formatted("a: b: c");
    assert_eq!(once, "a:\n\tb: c\n");
    assert_eq!(formatted(&once), "a:\nb:\n\tc\n");
}

#[test]
fn no_two_empty_lines_in_a_row() {
    for input in SAMPLES {
        let out = formatted(input);
        assert!(!out.contains("\n\n\n"), "{:?}", out);
        assert!(!out.starts_with('\n'), "{:?}", out);
        assert!(out.is_empty() || out.ends_with('\n'), "{:?}", out);
    }
}

#[test]
fn many_blank_lines_collapse() {
    assert_eq!(formatted("a\n\n\n\n\nb\n\n\n"), "a\n\nb\n");
    assert_eq!(formatted("\n\n\n# c\n\n\n\n# d"), "# c\n\n# d\n");
}

#[test]
fn white_space_only_gives_nothing() {
    assert_eq!(formatted("   \n\t\n  "), "");
    assert_eq!(formatted("\n"), "");
}

#[test]
fn comments_of_a_block_share_a_column() {
    let out = formatted(".data\na: .word 1 # one\nbbbbbb: .word 22 # two\nc: .space 4\nd: .byte 0 #three");
    assert_eq!(
        out,
        ".data\n\na: .word 1        # one\nbbbbbb: .word 22  # two\nc: .space 4\nd: .byte 0        # three\n"
    );
    let columns: Vec<usize> = out.lines().filter_map(|l| l.find('#')).collect();
    assert_eq!(columns, vec![18, 18, 18]);
}

#[test]
fn far_longer_line_without_comment_does_not_move_the_comments() {
    let out = formatted("li $v0, 1 # a\n.asciiz \"0123456789\"\nli $a0, 22 # b");
    assert_eq!(out, "li $v0, 1   # a\n.asciiz \"0123456789\"\nli $a0, 22  # b\n");
    let out = formatted("li $v0, 1 # a\n.asciiz \"0123456\"\nli $a0, 22 # b");
    assert_eq!(out, "li $v0, 1          # a\n.asciiz \"0123456\"\nli $a0, 22         # b\n");
}

#[test]
fn code_behind_a_label_is_indented_by_one_tab() {
    let out = formatted("pre\nmain:\na\n# n\nb\n\n.globl x\nc\n# about next\nnext:\nd");
    assert_eq!(
        out,
        "pre\n\nmain:\n\ta\n\n\t# n\n\tb\n\n.globl x\n\n\tc\n\n# about next\nnext:\n\td\n"
    );
}

#[test]
fn data_sections_are_not_indented() {
    let out = formatted(".data\nx:\n.word 1\n# c\n.word 2");
    assert_eq!(out, ".data\n\nx:\n.word 1\n\n# c\n.word 2\n");
}

#[test]
fn parens_collapse() {
    assert_eq!(formatted("0 ( $sp )"), "0($sp)\n");
}

#[test]
fn comma_is_attached() {
    assert_eq!(formatted("li $v0 ,1"), "li $v0, 1\n");
    assert_eq!(formatted("add $t0 , $t1 ,$t2"), "add $t0, $t1, $t2\n");
}

#[test]
fn literal_is_kept_byte_for_byte() {
    assert_eq!(formatted("\"Hello      World   ,  \""), "\"Hello      World   ,  \"\n");
    assert_eq!(
        formatted(".data\ns: .asciiz \" ( a , b ) : c \\\" d \""),
        ".data\n\ns: .asciiz \" ( a , b ) : c \\\" d \"\n"
    );
}

#[test]
fn unterminated_literal_is_closed() {
    assert_eq!(formatted(".data\ns: .asciiz \"abc"), ".data\n\ns: .asciiz \"abc\"\n");
}

#[test]
fn carriage_returns_go_with_the_line_ends() {
    assert_eq!(formatted(".text\r\nmain:\r\nli $v0, 1\r\n"), ".text\n\nmain:\n\tli $v0, 1\n");
}

#[test]
fn every_ordinary_input_is_formatted() {
    for input in SAMPLES {
        assert!(formatter::format(String::from(input)).is_ok());
    }
}

#[test]
fn error_in_words() {
    assert_eq!(FormatError.to_string(), "a line is too long to be aligned");
    assert_eq!(FormatError, FormatError);
}
