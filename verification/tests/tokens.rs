use mac_mips::token::{render_tokens, should_be_spaced, tokenise_line, CodeToken};

fn item(s: &str) -> CodeToken {
    CodeToken::Item(String::from(s))
}

fn literal(s: &str) -> CodeToken {
    CodeToken::Literal(String::from(s))
}

#[test]
fn token_text_of_each_kind() {
    assert_eq!(CodeToken::Comma.to_string(), ",");
    assert_eq!(CodeToken::Colon.to_string(), ":");
    assert_eq!(CodeToken::ParenOpen.to_string(), "(");
    assert_eq!(CodeToken::ParenClose.to_string(), ")");
    assert_eq!(item("$v0").to_string(), "$v0");
    assert_eq!(literal("a b").to_string(), "\"a b\"");
    assert_eq!(literal("").to_string(), "\"\"");
}

#[test]
fn token_from_punctuation() {
    assert_eq!(CodeToken::from(','), CodeToken::Comma);
    assert_eq!(CodeToken::from(':'), CodeToken::Colon);
    assert_eq!(CodeToken::from('('), CodeToken::ParenOpen);
    assert_eq!(CodeToken::from(')'), CodeToken::ParenClose);
}

#[test]
fn tokens_of_an_instruction() {
    assert_eq!(
        tokenise_line("lb $a0, 0 ( $sp )"),
        vec![
            item("lb"),
            item("$a0"),
            CodeToken::Comma,
            item("0"),
            CodeToken::ParenOpen,
            item("$sp"),
            CodeToken::ParenClose,
        ]
    );
}

#[test]
fn tokens_of_nothing() {
    assert_eq!(tokenise_line(""), Vec::<CodeToken>::new());
    assert_eq!(tokenise_line("   \t "), Vec::<CodeToken>::new());
}

#[test]
fn punctuation_closes_an_item() {
    assert_eq!(
        tokenise_line("a,b:c(d)e"),
        vec![
            item("a"),
            CodeToken::Comma,
            item("b"),
            CodeToken::Colon,
            item("c"),
            CodeToken::ParenOpen,
            item("d"),
            CodeToken::ParenClose,
            item("e"),
        ]
    );
}

#[test]
fn quote_closes_an_item_and_opens_a_literal() {
    assert_eq!(
        tokenise_line("txt:.asciiz\"hello\""),
        vec![item("txt"), CodeToken::Colon, item(".asciiz"), literal("hello")]
    );
}

#[test]
fn literal_keeps_spaces_and_punctuation() {
    assert_eq!(
        tokenise_line("\"Hello      World   ,  \""),
        vec![literal("Hello      World   ,  ")]
    );
    assert_eq!(tokenise_line("\"a:(b),\" x"), vec![literal("a:(b),"), item("x")]);
}

#[test]
fn escaped_quote_stays_inside_the_literal() {
    assert_eq!(tokenise_line("\"a\\\"b\" c"), vec![literal("a\\\"b"), item("c")]);
}

#[test]
fn unterminated_literal_is_flushed() {
    assert_eq!(tokenise_line("li \"abc"), vec![item("li"), literal("abc")]);
    assert_eq!(tokenise_line("\""), vec![literal("")]);
}

#[test]
fn empty_literal_is_a_token() {
    assert_eq!(tokenise_line("\"\"\"\""), vec![literal(""), literal("")]);
}

#[test]
fn unicode_white_space_separates_items() {
    assert_eq!(tokenise_line("a\u{00A0}b\u{3000}c\u{2003}d"), vec![
        item("a"),
        item("b"),
        item("c"),
        item("d"),
    ]);
    assert_eq!(tokenise_line("a\u{200B}b"), vec![item("a\u{200B}b")]);
}

#[test]
fn spacing_between_neighbours() {
    let left = [
        item("a"),
        literal("a"),
        CodeToken::Comma,
        CodeToken::Colon,
        CodeToken::ParenOpen,
        CodeToken::ParenClose,
    ];
    let right = [
        item("b"),
        literal("b"),
        CodeToken::Comma,
        CodeToken::Colon,
        CodeToken::ParenOpen,
        CodeToken::ParenClose,
    ];
    let expected = [
        [true, true, false, false, false, false],
        [true, true, false, false, false, false],
        [true, true, false, false, true, false],
        [true, true, false, false, false, false],
        [false, false, false, false, false, false],
        [false, false, false, false, false, false],
    ];
    for (i, l) in left.iter().enumerate() {
        for (j, r) in right.iter().enumerate() {
            assert_eq!(should_be_spaced(l, r), expected[i][j], "{:?} {:?}", l, r);
        }
    }
}

#[test]
fn rendering_tokens() {
    assert_eq!(render_tokens(&tokenise_line("li $v0 ,1")), "li $v0, 1");
    assert_eq!(render_tokens(&tokenise_line("0 ( $sp )")), "0($sp)");
    assert_eq!(render_tokens(&tokenise_line("a , ( b )")), "a, (b)");
    assert_eq!(render_tokens(&tokenise_line("x : y")), "x: y");
    assert_eq!(render_tokens(&tokenise_line("\"a\"\"b\"")), "\"a\" \"b\"");
    assert_eq!(render_tokens(&tokenise_line("li \"abc")), "li \"abc\"");
    assert_eq!(render_tokens(&Vec::new()), "");
}

#[test]
fn rendering_keeps_the_tokens() {
    for code in [
        "lb $a0, 0 ( $sp )",
        "li $v0 ,1",
        "txt   :   .asciiz   \"hello\"",
        "a,b:c(d)e",
        "\"a\\\"b\" c",
        "li \"abc",
        "( ( , ) ) : x",
    ] {
        let tokens = tokenise_line(code);
        let text = render_tokens(&tokens);
        assert_eq!(tokenise_line(&text), tokens, "{}", code);
        assert_eq!(render_tokens(&tokenise_line(&text)), text, "{}", code);
    }
}

#[test]
fn literal_cut_short_behind_a_backslash_changes() {
    let tokens = tokenise_line("\"a\\");
    assert_eq!(tokens, vec![literal("a\\")]);
    let text = render_tokens(&tokens);
    assert_eq!(text, "\"a\\\"");
    assert_eq!(tokenise_line(&text), vec![literal("a\\\"")]);
}

#[test]
fn comma_is_attached_to_what_stands_before_it() {
    for code in ["a ,b", "a , b", "a,b", "\"s\" , x", "( a ) , ( b )", "x , \"s\""] {
        let text = render_tokens(&tokenise_line(code));
        let chars: Vec<char> = text.chars().collect();
        for (i, c) in chars.iter().enumerate() {
            if *c == ',' {
                assert!(i > 0 && !chars[i - 1].is_whitespace(), "{}", text);
                assert_eq!(chars[i + 1], ' ', "{}", text);
            }
        }
    }
    assert_eq!(render_tokens(&tokenise_line("a , )")), "a,)");
    assert_eq!(render_tokens(&tokenise_line("a , , b")), "a,, b");
}
