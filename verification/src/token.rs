//! The tokens of the code part of a line, the scanner that finds them, and
//! the canonical spacing with which they are written back.

use crate::text::{is_space, text_of};
use vstd::prelude::*;
use vstd::string::*;

verus! {

/// One token of the code part of a line.
#[derive(Debug, Clone, PartialEq, Eq)]
pub enum CodeToken {
    /// A mnemonic, register, number or any other run of plain characters.
    Item(String),
    Comma,
    Colon,
    ParenOpen,
    ParenClose,
    /// The inside of a string literal, without its quotes.
    Literal(String),
}

/// The mathematical value of a [`CodeToken`].
pub enum Token {
    Item(Seq<char>),
    Comma,
    Colon,
    ParenOpen,
    ParenClose,
    Literal(Seq<char>),
}

impl View for CodeToken {
    type V = Token;

    open spec fn view(&self) -> Token {
        match self {
            CodeToken::Item(s) => Token::Item(s@),
            CodeToken::Comma => Token::Comma,
            CodeToken::Colon => Token::Colon,
            CodeToken::ParenOpen => Token::ParenOpen,
            CodeToken::ParenClose => Token::ParenClose,
            CodeToken::Literal(s) => Token::Literal(s@),
        }
    }
}

/// The views of a sequence of tokens.
pub open spec fn token_views(tokens: Seq<CodeToken>) -> Seq<Token> {
    tokens.map_values(|t: CodeToken| t@)
}

/// The four characters that are a token each, wherever they stand.
pub open spec fn is_punct(c: char) -> bool {
    c == ',' || c == ':' || c == '(' || c == ')'
}

/// The token that a punctuation character is.
pub open spec fn punct_token(c: char) -> Token {
    if c == ',' {
        Token::Comma
    } else if c == ':' {
        Token::Colon
    } else if c == '(' {
        Token::ParenOpen
    } else {
        Token::ParenClose
    }
}

impl Token {
    /// The token as it is written out: a literal between its quotes,
    /// everything else as it is.
    pub open spec fn text(self) -> Seq<char> {
        match self {
            Token::Item(s) => s,
            Token::Comma => seq![','],
            Token::Colon => seq![':'],
            Token::ParenOpen => seq!['('],
            Token::ParenClose => seq![')'],
            Token::Literal(s) => seq!['"'] + s + seq!['"'],
        }
    }
}

/// What the scanner is in the middle of.
#[derive(Debug, Clone, Copy, PartialEq, Eq)]
pub enum ScanMode {
    Waiting,
    InItem,
    InStringLiteral,
}

/// The scanner between two characters: the tokens it has closed, what it is
/// in the middle of, and the characters gathered for the token in progress.
pub struct ScanState {
    pub done: Seq<Token>,
    pub mode: ScanMode,
    pub cur: Seq<char>,
}

/// The closed tokens together with the one in progress, if there is one.
pub open spec fn flush(st: ScanState) -> Seq<Token> {
    match st.mode {
        ScanMode::Waiting => st.done,
        ScanMode::InItem => st.done.push(Token::Item(st.cur)),
        ScanMode::InStringLiteral => st.done.push(Token::Literal(st.cur)),
    }
}

/// The scanner at rest with the tokens `done` behind it.
pub open spec fn waiting(done: Seq<Token>) -> ScanState {
    ScanState { done, mode: ScanMode::Waiting, cur: Seq::empty() }
}

/// A quote ends the literal gathered in `cur` unless a backslash stands
/// right before it.
pub open spec fn closes_literal(cur: Seq<char>, c: char) -> bool {
    c == '"' && !(cur.len() > 0 && cur.last() == '\\')
}

/// The scanner after one more character.
pub open spec fn scan_step(st: ScanState, c: char) -> ScanState {
    if st.mode is InStringLiteral {
        if closes_literal(st.cur, c) {
            waiting(flush(st))
        } else {
            ScanState { done: st.done, mode: ScanMode::InStringLiteral, cur: st.cur.push(c) }
        }
    } else if is_space(c) {
        waiting(flush(st))
    } else if is_punct(c) {
        waiting(flush(st).push(punct_token(c)))
    } else if c == '"' {
        ScanState { done: flush(st), mode: ScanMode::InStringLiteral, cur: Seq::empty() }
    } else if st.mode is InItem {
        ScanState { done: st.done, mode: ScanMode::InItem, cur: st.cur.push(c) }
    } else {
        ScanState { done: st.done, mode: ScanMode::InItem, cur: seq![c] }
    }
}

/// The scanner after all of `s`, started in state `st`.
pub open spec fn scan_from(st: ScanState, s: Seq<char>) -> ScanState
    decreases s.len(),
{
    if s.len() == 0 {
        st
    } else {
        scan_step(scan_from(st, s.drop_last()), s.last())
    }
}

/// The scanner after all of `s`, started at rest.
pub open spec fn scan(s: Seq<char>) -> ScanState {
    scan_from(waiting(Seq::empty()), s)
}

/// The tokens of `s`. A literal or an item that the end of `s` cuts short is
/// a token all the same.
pub open spec fn tokens_of(s: Seq<char>) -> Seq<Token> {
    flush(scan(s))
}

/// Whether one space stands between `left` and `right` when they are
/// neighbours.
pub open spec fn spaced(left: Token, right: Token) -> bool {
    ||| (left is Item || left is Literal || left is Comma || left is Colon) && (right is Item
        || right is Literal)
    ||| left is Comma && right is ParenOpen
}

/// What is written between two neighbours: one space or nothing.
pub open spec fn gap(left: Token, right: Token) -> Seq<char> {
    if spaced(left, right) {
        seq![' ']
    } else {
        Seq::empty()
    }
}

/// The tokens written out one after the other in canonical spacing.
pub open spec fn render(ts: Seq<Token>) -> Seq<char>
    decreases ts.len(),
{
    if ts.len() == 0 {
        Seq::empty()
    } else if ts.len() == 1 {
        ts[0].text()
    } else {
        render(ts.drop_last()) + gap(ts[ts.len() - 2], ts.last()) + ts.last().text()
    }
}

/// A code text in canonical spacing.
pub open spec fn canonical(code: Seq<char>) -> Seq<char> {
    render(tokens_of(code))
}

impl CodeToken {
    /// The token as it is written out.
    pub fn to_string(&self) -> (s: String)
        ensures
            s@ == self@.text(),
    {
        let mut s = String::new();
        match self {
            CodeToken::Comma => s.push(','),
            CodeToken::Colon => s.push(':'),
            CodeToken::ParenOpen => s.push('('),
            CodeToken::ParenClose => s.push(')'),
            CodeToken::Item(item) => s.append(item.as_str()),
            CodeToken::Literal(string) => {
                s.push('"');
                s.append(string.as_str());
                s.push('"');
            },
        }
        assert(s@ =~= self@.text());
        s
    }

    /// The token that the punctuation character `c` is.
    pub fn from(c: char) -> (t: CodeToken)
        requires
            is_punct(c),
        ensures
            t@ == punct_token(c),
    {
        if c == ',' {
            CodeToken::Comma
        } else if c == ':' {
            CodeToken::Colon
        } else if c == '(' {
            CodeToken::ParenOpen
        } else {
            CodeToken::ParenClose
        }
    }
}

/// Whether one space stands between `left` and `right` when they are
/// neighbours.
pub fn should_be_spaced(left: &CodeToken, right: &CodeToken) -> (b: bool)
    ensures
        b == spaced(left@, right@),
{
    match (left, right) {
        (
            CodeToken::Item(_) | CodeToken::Literal(_) | CodeToken::Comma | CodeToken::Colon,
            CodeToken::Item(_) | CodeToken::Literal(_),
        ) => true,
        (CodeToken::Comma, CodeToken::ParenOpen) => true,
        (_, _) => false,
    }
}

/// The tokens of `code`.
pub fn tokenise_line(code: &str) -> (tokens: Vec<CodeToken>)
    ensures
        token_views(tokens@) == tokens_of(code@),
{
    let mut done: Vec<CodeToken> = Vec::new();
    let mut mode = ScanMode::Waiting;
    let mut cur: Vec<char> = Vec::new();
    assert(token_views(done@) =~= Seq::<Token>::empty());
    assert(code@.take(0) =~= Seq::<char>::empty());
    for c in it: code.chars()
        invariant
            it.seq() == code@,
            (ScanState { done: token_views(done@), mode, cur: cur@ }) == scan(
                code@.take(it.index() as int),
            ),
    {
        let ghost before = ScanState { done: token_views(done@), mode, cur: cur@ };
        proof {
            let next = code@.take(it.index() + 1);
            assert(next.drop_last() =~= code@.take(it.index() as int));
            assert(next.last() == c);
        }
        match mode {
            ScanMode::InStringLiteral => {
                if c == '"' && !(cur.len() > 0 && cur[cur.len() - 1] == '\\') {
                    done.push(CodeToken::Literal(text_of(&cur)));
                    cur.clear();
                    mode = ScanMode::Waiting;
                } else {
                    cur.push(c);
                }
            },
            _ => {
                let space = c.is_whitespace();
                if space || c == ',' || c == ':' || c == '(' || c == ')' || c == '"' {
                    match mode {
                        ScanMode::InItem => {
                            done.push(CodeToken::Item(text_of(&cur)));
                        },
                        _ => {},
                    }
                    cur.clear();
                    if space {
                        mode = ScanMode::Waiting;
                    } else if c == '"' {
                        mode = ScanMode::InStringLiteral;
                    } else {
                        done.push(CodeToken::from(c));
                        mode = ScanMode::Waiting;
                    }
                } else {
                    match mode {
                        ScanMode::InItem => {},
                        _ => {
                            cur.clear();
                        },
                    }
                    cur.push(c);
                    mode = ScanMode::InItem;
                }
            },
        }
        proof {
            let after = ScanState { done: token_views(done@), mode, cur: cur@ };
            assert(after.done =~= scan_step(before, c).done);
            assert(after.cur =~= scan_step(before, c).cur);
        }
    }
    proof {
        assert(code@.take(code@.len() as int) =~= code@);
    }
    let ghost last = ScanState { done: token_views(done@), mode, cur: cur@ };
    match mode {
        ScanMode::Waiting => {},
        ScanMode::InItem => done.push(CodeToken::Item(text_of(&cur))),
        ScanMode::InStringLiteral => done.push(CodeToken::Literal(text_of(&cur))),
    }
    assert(token_views(done@) =~= flush(last));
    done
}

/// The tokens written out one after the other in canonical spacing.
pub fn render_tokens(tokens: &Vec<CodeToken>) -> (s: String)
    ensures
        s@ == render(token_views(tokens@)),
{
    let mut s = String::new();
    let mut i: usize = 0;
    assert(token_views(tokens@).take(0) =~= Seq::<Token>::empty());
    while i < tokens.len()
        invariant
            i <= tokens.len(),
            s@ == render(token_views(tokens@).take(i as int)),
        decreases tokens.len() - i,
    {
        let ghost ts = token_views(tokens@);
        if i > 0 && should_be_spaced(&tokens[i - 1], &tokens[i]) {
            s.push(' ');
        }
        let word = tokens[i].to_string();
        s.append(word.as_str());
        proof {
            let next = ts.take(i + 1);
            assert(next.drop_last() =~= ts.take(i as int));
            assert(next.last() == ts[i as int]);
            if i > 0 {
                assert(next[next.len() - 2] == ts[i - 1]);
            }
            assert(s@ =~= render(next));
        }
        i += 1;
    }
    assert(token_views(tokens@).take(tokens@.len() as int) =~= token_views(tokens@));
    s
}

} // verus!
