use mac_mips::align::{align_comments, calc_hash_index, MAX_COMMENT_DISPARITY};
use mac_mips::chunk::{is_modifier_line, parse_chunks, Chunk, Directive};
use mac_mips::compile::compile_section;
use mac_mips::formatter::{align_chunks, format_lines, render_lines};
use mac_mips::indent::{indent_all, indent_chunks, is_modifier_chunk};
use mac_mips::line::CodeLine;
use mac_mips::section::{parse_sections, Section};

fn code(s: &str) -> CodeLine {
    CodeLine::new(Some(String::from(s)), None)
}

fn note(s: &str) -> CodeLine {
    CodeLine::new(None, Some(String::from(s)))
}

fn both(c: &str, n: &str) -> CodeLine {
    CodeLine::new(Some(String::from(c)), Some(String::from(n)))
}

fn blank() -> CodeLine {
    CodeLine::default()
}

fn deeper(mut l: CodeLine) -> CodeLine {
    l.indent();
    l
}

fn gapped(mut l: CodeLine, gap: usize) -> CodeLine {
    l.com_gap = Some(gap);
    l
}

#[test]
fn section_new_with_and_without_directive() {
    let s = Section::new("", Directive::Text);
    assert_eq!(s.dir, Directive::Text);
    assert_eq!(s.dir_line, None);
    assert!(s.lines.is_empty());
    let s = Section::new(".data # d", Directive::Data);
    assert_eq!(s.dir, Directive::Data);
    assert_eq!(s.dir_line, Some(both(".data", "d")));
    assert!(s.lines.is_empty());
}

#[test]
fn sections_of_no_lines() {
    let sections = parse_sections(&Vec::new());
    assert_eq!(sections, vec![Section::new("", Directive::Text)]);
}

#[test]
fn sections_split_at_directives() {
    let lines = vec!["# top", ".data", "x: .word 1", ".text", "main: li $v0, 1", "syscall"];
    let sections = parse_sections(&lines);
    assert_eq!(sections.len(), 3);
    assert_eq!(sections[0].dir, Directive::Text);
    assert_eq!(sections[0].dir_line, None);
    assert_eq!(sections[0].lines, vec![note("top")]);
    assert_eq!(sections[1].dir, Directive::Data);
    assert_eq!(sections[1].dir_line, Some(code(".data")));
    assert_eq!(sections[1].lines, vec![code("x: .word 1")]);
    assert_eq!(sections[2].dir, Directive::Text);
    assert_eq!(sections[2].dir_line, Some(code(".text")));
    assert_eq!(sections[2].lines, vec![code("main:"), code("li $v0, 1"), code("syscall")]);
}

#[test]
fn label_alone_is_followed_by_a_blank_line() {
    let sections = parse_sections(&vec!["main:", "syscall"]);
    assert_eq!(sections[0].lines, vec![code("main:"), blank(), code("syscall")]);
}

#[test]
fn label_with_comment_is_not_split() {
    let sections = parse_sections(&vec!["main: # entry"]);
    assert_eq!(sections[0].lines, vec![both("main:", "entry")]);
}

#[test]
fn directive_needs_only_to_begin_the_line() {
    let sections = parse_sections(&vec![".textual", "x", ".data.rel", "y: z"]);
    assert_eq!(sections.len(), 3);
    assert_eq!(sections[1].dir_line, Some(code(".textual")));
    assert_eq!(sections[2].dir, Directive::Data);
    assert_eq!(sections[2].lines, vec![code("y: z")]);
}

#[test]
fn modifier_lines_by_kind_of_section() {
    assert!(is_modifier_line(&Directive::Text, &code("main:")));
    assert!(!is_modifier_line(&Directive::Data, &code("main:")));
    assert!(is_modifier_line(&Directive::Data, &code(".align 2")));
    assert!(!is_modifier_line(&Directive::Text, &code(".align 2")));
    assert!(!is_modifier_line(&Directive::Text, &note("main:")));
}

#[test]
fn chunks_of_no_lines() {
    assert_eq!(parse_chunks(Vec::new(), &Directive::Text), vec![Chunk::Space]);
}

#[test]
fn chunks_group_neighbours_of_one_kind() {
    let lines = vec![
        note("a"),
        note("b"),
        code("main:"),
        code("li $v0, 1"),
        both("syscall", "go"),
        blank(),
        blank(),
        code(".globl main"),
        code("jr $ra"),
    ];
    assert_eq!(
        parse_chunks(lines, &Directive::Text),
        vec![
            Chunk::Space,
            Chunk::Comment(vec![note("a"), note("b")]),
            Chunk::Modifier(code("main:")),
            Chunk::Code(vec![code("li $v0, 1"), both("syscall", "go")]),
            Chunk::Space,
            Chunk::GlobDec(code(".globl main")),
            Chunk::Code(vec![code("jr $ra")]),
        ]
    );
}

#[test]
fn leading_blank_lines_join_the_first_chunk() {
    assert_eq!(
        parse_chunks(vec![blank(), blank(), code("x")], &Directive::Data),
        vec![Chunk::Space, Chunk::Code(vec![code("x")])]
    );
}

#[test]
fn chunks_in_a_data_section() {
    let lines = vec![code(".align 2"), code("o: .space 10"), code("end:")];
    assert_eq!(
        parse_chunks(lines, &Directive::Data),
        vec![
            Chunk::Space,
            Chunk::Modifier(code(".align 2")),
            Chunk::Code(vec![code("o: .space 10"), code("end:")]),
        ]
    );
}

#[test]
fn comment_after_code_starts_a_chunk() {
    let lines = vec![code("a"), note("n"), code("b")];
    assert_eq!(
        parse_chunks(lines, &Directive::Text),
        vec![
            Chunk::Space,
            Chunk::Code(vec![code("a")]),
            Chunk::Comment(vec![note("n")]),
            Chunk::Code(vec![code("b")]),
        ]
    );
}

#[test]
fn column_is_two_behind_the_longest_line() {
    let lines = vec![both("12345", "a"), code("1234567"), both("1", "b")];
    assert_eq!(calc_hash_index(&lines), 9);
    assert_eq!(calc_hash_index(&Vec::new()), 2);
    assert_eq!(calc_hash_index(&vec![note("x")]), 2);
}

#[test]
fn column_ignores_a_far_longer_line_without_comment() {
    assert_eq!(MAX_COMMENT_DISPARITY, 10);
    let lines = vec![both("12345", "a"), code("123456789012345")];
    assert_eq!(calc_hash_index(&lines), 7);
    let lines = vec![both("12345", "a"), code("12345678901234")];
    assert_eq!(calc_hash_index(&lines), 16);
    let lines = vec![code("1234567890")];
    assert_eq!(calc_hash_index(&lines), 2);
    let lines = vec![code("123456789")];
    assert_eq!(calc_hash_index(&lines), 11);
}

#[test]
fn column_counts_bytes() {
    let lines = vec![both("\u{e9}\u{e9}", "a"), both("abc", "b")];
    assert_eq!(calc_hash_index(&lines), 6);
}

#[test]
fn comments_of_a_code_chunk_share_a_column() {
    let mut chunk = Chunk::Code(vec![both("12345", "a"), code("1234567"), both("1", "b")]);
    align_comments(&mut chunk);
    assert_eq!(
        chunk,
        Chunk::Code(vec![gapped(both("12345", "a"), 4), code("1234567"), gapped(both("1", "b"), 8)])
    );
}

#[test]
fn only_code_chunks_are_aligned() {
    for chunk in [
        Chunk::Space,
        Chunk::Comment(vec![note("a")]),
        Chunk::Modifier(both("main:", "a")),
        Chunk::GlobDec(both(".globl main", "a")),
    ] {
        let mut aligned = chunk.clone();
        align_comments(&mut aligned);
        assert_eq!(aligned, chunk);
    }
}

#[test]
fn every_chunk_is_aligned_by_itself() {
    let mut chunks = vec![
        Chunk::Code(vec![both("1", "a")]),
        Chunk::Space,
        Chunk::Code(vec![both("123", "b"), both("1", "c")]),
    ];
    align_chunks(&mut chunks);
    assert_eq!(
        chunks,
        vec![
            Chunk::Code(vec![gapped(both("1", "a"), 2)]),
            Chunk::Space,
            Chunk::Code(vec![gapped(both("123", "b"), 2), gapped(both("1", "c"), 4)]),
        ]
    );
}

#[test]
fn indent_all_lines() {
    let mut lines = vec![code("a"), note("b")];
    indent_all(&mut lines);
    assert_eq!(lines, vec![deeper(code("a")), deeper(note("b"))]);
}

#[test]
fn modifier_chunks() {
    assert!(is_modifier_chunk(&Chunk::Modifier(code("main:"))));
    assert!(!is_modifier_chunk(&Chunk::Space));
    assert!(!is_modifier_chunk(&Chunk::Code(vec![code("main:")])));
}

#[test]
fn nothing_is_indented_without_a_label() {
    let chunks = vec![Chunk::Space, Chunk::Comment(vec![note("a")]), Chunk::Code(vec![code("b")])];
    let mut indented = chunks.clone();
    indent_chunks(&mut indented);
    assert_eq!(indented, chunks);
    let mut none: Vec<Chunk> = Vec::new();
    indent_chunks(&mut none);
    assert!(none.is_empty());
}

#[test]
fn bodies_of_labels_are_indented() {
    let mut chunks = vec![
        Chunk::Space,
        Chunk::Comment(vec![note("before")]),
        Chunk::Code(vec![code("pre")]),
        Chunk::Modifier(code("main:")),
        Chunk::Comment(vec![note("inside")]),
        Chunk::Code(vec![code("a"), code("b")]),
        Chunk::Space,
        Chunk::GlobDec(code(".globl x")),
        Chunk::Comment(vec![note("linked")]),
        Chunk::Space,
        Chunk::Code(vec![code("c")]),
        Chunk::Comment(vec![note("about other")]),
        Chunk::Modifier(code("other:")),
        Chunk::Code(vec![code("d")]),
        Chunk::Comment(vec![note("trailing")]),
    ];
    indent_chunks(&mut chunks);
    assert_eq!(
        chunks,
        vec![
            Chunk::Space,
            Chunk::Comment(vec![note("before")]),
            Chunk::Code(vec![code("pre")]),
            Chunk::Modifier(code("main:")),
            Chunk::Comment(vec![deeper(note("inside"))]),
            Chunk::Code(vec![deeper(code("a")), deeper(code("b"))]),
            Chunk::Space,
            Chunk::GlobDec(code(".globl x")),
            Chunk::Comment(vec![deeper(note("linked"))]),
            Chunk::Space,
            Chunk::Code(vec![deeper(code("c"))]),
            Chunk::Comment(vec![note("about other")]),
            Chunk::Modifier(code("other:")),
            Chunk::Code(vec![deeper(code("d"))]),
            Chunk::Comment(vec![note("trailing")]),
        ]
    );
}

#[test]
fn compile_directive_alone() {
    let mut out = Vec::new();
    compile_section(&mut out, Some(code(".data")), vec![Chunk::Space]);
    assert_eq!(out, vec![code(".data"), blank()]);
}

#[test]
fn compile_nothing() {
    let mut out = vec![code("kept")];
    compile_section(&mut out, None, vec![Chunk::Space]);
    assert_eq!(out, vec![code("kept")]);
}

#[test]
fn compile_code_is_followed_by_a_blank_line() {
    let mut out = Vec::new();
    compile_section(&mut out, None, vec![Chunk::Code(vec![code("a"), code("b")])]);
    assert_eq!(out, vec![code("a"), code("b"), blank()]);
}

#[test]
fn compile_global_declaration_stands_apart() {
    let mut out = Vec::new();
    compile_section(&mut out, None, vec![Chunk::GlobDec(code(".globl a"))]);
    assert_eq!(out, vec![code(".globl a"), blank()]);
    let mut out = Vec::new();
    compile_section(
        &mut out,
        None,
        vec![Chunk::Modifier(code("m:")), Chunk::GlobDec(code(".globl a"))],
    );
    assert_eq!(out, vec![code("m:"), blank(), code(".globl a"), blank()]);
    let mut out = Vec::new();
    compile_section(
        &mut out,
        None,
        vec![Chunk::Comment(vec![note("n")]), Chunk::GlobDec(code(".globl a"))],
    );
    assert_eq!(out, vec![note("n"), blank(), code(".globl a"), blank()]);
}

#[test]
fn compile_space_counts_only_after_a_comment() {
    let mut out = Vec::new();
    compile_section(
        &mut out,
        None,
        vec![
            Chunk::Space,
            Chunk::Comment(vec![note("n")]),
            Chunk::Space,
            Chunk::Modifier(code("m:")),
            Chunk::Space,
            Chunk::Code(vec![code("a")]),
            Chunk::Space,
            Chunk::Comment(vec![note("o")]),
            Chunk::Modifier(code("p:")),
        ],
    );
    assert_eq!(
        out,
        vec![
            note("n"),
            blank(),
            code("m:"),
            code("a"),
            blank(),
            note("o"),
            code("p:"),
            blank(),
        ]
    );
}

#[test]
fn compile_closes_a_section_that_ends_on_a_comment() {
    let mut out = Vec::new();
    compile_section(&mut out, Some(code(".text")), vec![Chunk::Comment(vec![note("n")])]);
    assert_eq!(out, vec![code(".text"), blank(), note("n"), blank()]);
}

#[test]
fn format_lines_respaces_each() {
    let mut lines = vec![code("a ,b"), note("c , d"), blank(), both("x ( y )", "z")];
    assert!(format_lines(&mut lines));
    assert_eq!(lines, vec![code("a, b"), note("c , d"), blank(), both("x(y)", "z")]);
}

#[test]
fn render_lines_joins_with_line_feeds() {
    assert_eq!(render_lines(&Vec::new()), "");
    assert_eq!(render_lines(&vec![code("a")]), "a");
    assert_eq!(render_lines(&vec![code("a"), blank()]), "a\n");
    assert_eq!(render_lines(&vec![code("a"), blank(), deeper(note("b")), blank()]), "a\n\n\t# b\n");
}
