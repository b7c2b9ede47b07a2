//! One line of a source file: its code part, its comment part, and how it is
//! written back.

use crate::text::{
    byte_len, chars_of, find_char, is_trimmed, lemma_trim_is_trimmed, opt_text, position, repeat,
    str_ends_with, str_starts_with, text_of_range, trim, trim_range,
};
use crate::token::{canonical, render_tokens, tokenise_line};
use vstd::prelude::*;
use vstd::string::*;

verus! {

/// The number of spaces between code and comment where none was computed.
pub const DEFAULT_COMMENT_GAP: usize = 2;

/// One line of the source: code, comment, both or neither.
#[derive(Debug, Clone, PartialEq, Eq)]
pub struct CodeLine {
    /// The code part, trimmed; `None` where the line has none.
    pub code: Option<String>,
    /// The text after the first `#`, trimmed; `None` where the line has no `#`.
    pub comment: Option<String>,
    /// The number of spaces between the code and the `#`.
    pub com_gap: Option<usize>,
    /// The number of tabs in front of the line.
    pub indent: usize,
}

/// The mathematical value of a [`CodeLine`].
pub struct Line {
    pub code: Option<Seq<char>>,
    pub comment: Option<Seq<char>>,
    pub gap: Option<nat>,
    pub indent: nat,
}

/// `Some(s)` where `s` holds anything, `None` where it is empty.
pub open spec fn non_empty(s: Seq<char>) -> Option<Seq<char>> {
    if s.len() == 0 {
        None
    } else {
        Some(s)
    }
}

/// The line with neither code nor comment.
pub open spec fn blank_line() -> Line {
    Line { code: None, comment: None, gap: None, indent: 0 }
}

/// The line that the text `s` is: what stands before the first `#` is code,
/// what stands after it is comment, each trimmed; code that holds nothing is
/// no code.
pub open spec fn parse_line(s: Seq<char>) -> Line {
    let hash = position(s, '#');
    if hash < s.len() {
        Line {
            code: non_empty(trim(s.subrange(0, hash))),
            comment: Some(trim(s.subrange(hash + 1, s.len() as int))),
            gap: None,
            indent: 0,
        }
    } else {
        Line { code: non_empty(trim(s)), comment: None, gap: None, indent: 0 }
    }
}

impl Line {
    /// Neither code nor comment.
    pub open spec fn is_blank(self) -> bool {
        self.code is None && self.comment is None
    }

    /// A comment and no code.
    pub open spec fn is_comment_only(self) -> bool {
        self.code is None && self.comment is Some
    }

    /// The length of the code in bytes, 0 where there is none.
    pub open spec fn width(self) -> nat {
        match self.code {
            Some(code) => byte_len(code),
            None => 0,
        }
    }

    /// Whether there is code and it begins with `pat`.
    pub open spec fn starts_with(self, pat: Seq<char>) -> bool {
        match self.code {
            Some(code) => pat.is_prefix_of(code),
            None => false,
        }
    }

    /// Whether there is code and it ends with `pat`.
    pub open spec fn ends_with(self, pat: Seq<char>) -> bool {
        match self.code {
            Some(code) => pat.is_suffix_of(code),
            None => false,
        }
    }

    /// The code, where there is any, holds something.
    pub open spec fn holds_text(self) -> bool {
        self.code matches Some(code) ==> code.len() > 0
    }

    /// The line with its code in canonical spacing.
    pub open spec fn formatted(self) -> Line {
        Line {
            code: match self.code {
                Some(code) => Some(canonical(code)),
                None => None,
            },
            ..self
        }
    }

    /// The line one level deeper.
    pub open spec fn indented(self) -> Line {
        Line { indent: self.indent + 1, ..self }
    }

    /// The line with the gap that puts its `#` in column `column`, or with no
    /// gap where the code reaches beyond that column.
    pub open spec fn with_gap(self, column: nat) -> Line {
        Line {
            gap: if column >= self.width() {
                Some((column - self.width()) as nat)
            } else {
                None
            },
            ..self
        }
    }

    /// The number of spaces written between code and `#`.
    pub open spec fn gap_width(self) -> nat {
        match self.gap {
            Some(g) => g,
            None => DEFAULT_COMMENT_GAP as nat,
        }
    }

    /// The line as text, without its indentation.
    pub open spec fn body(self) -> Seq<char> {
        match (self.code, self.comment) {
            (None, None) => Seq::empty(),
            (Some(code), None) => code,
            (None, Some(comment)) => seq!['#', ' '] + comment,
            (Some(code), Some(comment)) => code + repeat(' ', self.gap_width()) + seq!['#', ' ']
                + comment,
        }
    }

    /// The line as text: one tab for each level, then the body.
    pub open spec fn rendered(self) -> Seq<char> {
        repeat('\t', self.indent) + self.body()
    }
}

impl View for CodeLine {
    type V = Line;

    open spec fn view(&self) -> Line {
        Line {
            code: opt_text(self.code),
            comment: opt_text(self.comment),
            gap: match self.com_gap {
                Some(g) => Some(g as nat),
                None => None,
            },
            indent: self.indent as nat,
        }
    }
}

/// The views of a sequence of lines.
pub open spec fn line_views(lines: Seq<CodeLine>) -> Seq<Line> {
    lines.map_values(|l: CodeLine| l@)
}

impl Default for CodeLine {
    /// The blank line.
    fn default() -> (line: CodeLine)
        ensures
            line@ == blank_line(),
    {
        CodeLine::new(None, None)
    }
}

impl CodeLine {
    /// The line with this code and comment, no gap and no indentation.
    pub fn new(code: Option<String>, comment: Option<String>) -> (line: CodeLine)
        ensures
            line@ == (Line { code: opt_text(code), comment: opt_text(comment), gap: None, indent: 0 }),
    {
        CodeLine { code, comment, com_gap: None, indent: 0 }
    }

    /// The line that the text `line` is.
    pub fn parse(line: &str) -> (parsed: CodeLine)
        ensures
            parsed@ == parse_line(line@),
    {
        let chars = chars_of(line);
        let n = chars.len();
        let hash = find_char(&chars, 0, n, '#');
        assert(chars@.subrange(0, n as int) =~= line@);
        if hash < n {
            let (a, b) = trim_range(&chars, 0, hash);
            let code = if a < b {
                Some(text_of_range(&chars, a, b))
            } else {
                None
            };
            let (c, d) = trim_range(&chars, hash + 1, n);
            CodeLine::new(code, Some(text_of_range(&chars, c, d)))
        } else {
            let (a, b) = trim_range(&chars, 0, n);
            let code = if a < b {
                Some(text_of_range(&chars, a, b))
            } else {
                None
            };
            CodeLine::new(code, None)
        }
    }

    /// Puts the code in canonical spacing.
    pub fn format(&mut self)
        ensures
            final(self)@ == old(self)@.formatted(),
    {
        let formatted = match &self.code {
            Some(code) => {
                let tokens = tokenise_line(code.as_str());
                Some(render_tokens(&tokens))
            },
            None => None,
        };
        self.code = formatted;
    }

    /// Whether the line has a comment and no code.
    pub fn is_comment_only(&self) -> (b: bool)
        ensures
            b == self@.is_comment_only(),
    {
        match (&self.code, &self.comment) {
            (None, Some(_)) => true,
            _ => false,
        }
    }

    /// The length of the code in bytes, 0 where there is none.
    pub fn code_w(&self) -> (w: usize)
        ensures
            w == self@.width(),
    {
        match &self.code {
            Some(code) => code.as_str().as_bytes().len(),
            None => 0,
        }
    }

    /// Whether the line has neither code nor comment.
    pub fn is_empty(&self) -> (b: bool)
        ensures
            b == self@.is_blank(),
    {
        match (&self.code, &self.comment) {
            (None, None) => true,
            (_, _) => false,
        }
    }

    /// Whether there is code and it begins with `pat`.
    pub fn starts_with(&self, pat: &str) -> (b: bool)
        ensures
            b == self@.starts_with(pat@),
    {
        match &self.code {
            Some(code) => str_starts_with(code.as_str(), pat),
            None => false,
        }
    }

    /// Whether there is code and it ends with `pat`.
    pub fn ends_with(&self, pat: &str) -> (b: bool)
        ensures
            b == self@.ends_with(pat@),
    {
        match &self.code {
            Some(code) => str_ends_with(code.as_str(), pat),
            None => false,
        }
    }

    /// Moves the line one level deeper.
    pub fn indent(&mut self)
        requires
            old(self).indent < usize::MAX,
        ensures
            final(self)@ == old(self)@.indented(),
    {
        self.indent += 1;
    }

    /// Sets the gap that puts the `#` in column `h_index`, or no gap where
    /// the code reaches beyond that column.
    pub fn set_hash_index(&mut self, h_index: usize)
        ensures
            final(self)@ == old(self)@.with_gap(h_index as nat),
    {
        let w = self.code_w();
        self.com_gap = if h_index >= w {
            Some(h_index - w)
        } else {
            None
        };
    }

    /// The line as text, without its indentation.
    pub fn to_string_without_indent(&self) -> (s: String)
        ensures
            s@ == self@.body(),
    {
        let mut s = String::new();
        match (&self.code, &self.comment) {
            (None, None) => {},
            (Some(code), None) => {
                s.append(code.as_str());
            },
            (None, Some(comment)) => {
                s.push('#');
                s.push(' ');
                s.append(comment.as_str());
            },
            (Some(code), Some(comment)) => {
                s.append(code.as_str());
                let width = match self.com_gap {
                    Some(g) => g,
                    None => DEFAULT_COMMENT_GAP,
                };
                push_repeated(&mut s, ' ', width);
                s.push('#');
                s.push(' ');
                s.append(comment.as_str());
            },
        }
        assert(s@ =~= self@.body());
        s
    }

    /// The line as text.
    pub fn to_string(&self) -> (s: String)
        ensures
            s@ == self@.rendered(),
    {
        let mut s = String::new();
        push_repeated(&mut s, '\t', self.indent);
        let body = self.to_string_without_indent();
        s.append(body.as_str());
        assert(s@ =~= self@.rendered());
        s
    }
}

/// Appends `n` copies of `c` to `s`.
pub fn push_repeated(s: &mut String, c: char, n: usize)
    ensures
        final(s)@ == old(s)@ + repeat(c, n as nat),
{
    let mut i: usize = 0;
    assert(s@ =~= old(s)@ + repeat(c, 0));
    while i < n
        invariant
            i <= n,
            s@ == old(s)@ + repeat(c, i as nat),
        decreases n - i,
    {
        s.push(c);
        assert(s@ =~= old(s)@ + repeat(c, (i + 1) as nat));
        i += 1;
    }
}

/// A raw line of a text section, as one logical line or as the two that a
/// label and the instruction behind it make.
#[derive(Debug, PartialEq, Eq)]
pub enum SplitLine<'a> {
    One(&'a str),
    Two((&'a str, &'a str)),
}

/// The mathematical value of a [`SplitLine`].
pub enum Split {
    One(Seq<char>),
    Two(Seq<char>, Seq<char>),
}

impl<'a> View for SplitLine<'a> {
    type V = Split;

    open spec fn view(&self) -> Split {
        match self {
            SplitLine::One(l) => Split::One(l@),
            SplitLine::Two(p) => Split::Two(p.0@, p.1@),
        }
    }
}

/// Whether `s` is cut behind its first colon: it has one, and either no `#`
/// at all, or the `#` comes later with something other than white space in
/// between.
pub open spec fn splits(s: Seq<char>) -> bool {
    let colon = position(s, ':');
    let hash = position(s, '#');
    colon < s.len() && (hash >= s.len() || (colon < hash && trim(
        s.subrange(colon + 1, hash),
    ).len() > 0))
}

/// `s` as one logical line or two: up to and with the first colon, and the
/// rest.
pub open spec fn split_line(s: Seq<char>) -> Split {
    if splits(s) {
        let colon = position(s, ':');
        Split::Two(s.subrange(0, colon + 1), s.subrange(colon + 1, s.len() as int))
    } else {
        Split::One(s)
    }
}

impl<'a> SplitLine<'a> {
    /// `line` as one logical line or two.
    pub fn parse(line: &'a str) -> (split: SplitLine<'a>)
        ensures
            split@ == split_line(line@),
    {
        let chars = chars_of(line);
        let n = chars.len();
        assert(chars@.subrange(0, n as int) =~= line@);
        let colon = find_char(&chars, 0, n, ':');
        if colon < n {
            let hash = find_char(&chars, 0, n, '#');
            let cut = if hash < n {
                if colon < hash {
                    let (a, b) = trim_range(&chars, colon + 1, hash);
                    a < b
                } else {
                    false
                }
            } else {
                true
            };
            if cut {
                return SplitLine::Two(
                    (line.substring_char(0, colon + 1), line.substring_char(colon + 1, n)),
                );
            }
        }
        SplitLine::One(line)
    }
}

/// What `parse_line` gives is well formed: its code and comment are trimmed,
/// its code holds something and no `#`.
pub proof fn lemma_parse_line_trimmed(s: Seq<char>)
    ensures
        parse_line(s).code matches Some(code) ==> code.len() > 0 && is_trimmed(code),
        parse_line(s).comment matches Some(comment) ==> is_trimmed(comment),
{
    let hash = position(s, '#');
    if hash < s.len() {
        lemma_trim_is_trimmed(s.subrange(0, hash));
        lemma_trim_is_trimmed(s.subrange(hash + 1, s.len() as int));
    } else {
        lemma_trim_is_trimmed(s);
    }
}

} // verus!
