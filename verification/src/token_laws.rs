//! What holds of scanning a code text and writing its tokens back.

use crate::text::is_space;
use crate::token::{
    canonical, closes_literal, flush, gap, is_punct, punct_token, render, scan, scan_from,
    scan_step, spaced, tokens_of, waiting, ScanMode, ScanState, Token,
};
use vstd::prelude::*;

verus! {

/// A character that an item is made of: not white space, not punctuation,
/// not a quote.
pub open spec fn is_item_char(c: char) -> bool {
    !is_space(c) && !is_punct(c) && c != '"'
}

/// A text that is one item: it holds something, and item characters only.
pub open spec fn is_item_text(s: Seq<char>) -> bool {
    s.len() > 0 && forall|i: int| 0 <= i < s.len() ==> is_item_char(#[trigger] s[i])
}

/// Every quote in `s` has a backslash right before it.
pub open spec fn quotes_escaped(s: Seq<char>) -> bool {
    forall|i: int| 0 <= i < s.len() && #[trigger] s[i] == '"' ==> i > 0 && s[i - 1] == '\\'
}

/// The last character of `s` is a backslash.
pub open spec fn ends_in_backslash(s: Seq<char>) -> bool {
    s.len() > 0 && s.last() == '\\'
}

/// A token as the scanner makes them: an item is an item text, and every
/// quote inside a literal is escaped.
pub open spec fn token_ok(t: Token) -> bool {
    match t {
        Token::Item(s) => is_item_text(s),
        Token::Literal(s) => quotes_escaped(s),
        _ => true,
    }
}

/// A token that a closing quote can follow: any token but a literal that
/// ends in a backslash.
pub open spec fn token_closed(t: Token) -> bool {
    t matches Token::Literal(s) ==> !ends_in_backslash(s)
}

pub open spec fn tokens_ok(ts: Seq<Token>) -> bool {
    forall|i: int| 0 <= i < ts.len() ==> token_ok(#[trigger] ts[i])
}

pub open spec fn tokens_closed(ts: Seq<Token>) -> bool {
    forall|i: int| 0 <= i < ts.len() ==> token_closed(#[trigger] ts[i])
}

/// A state that the scanner can be in: the tokens behind it are well formed
/// and closed, and what it has gathered fits what it is in the middle of.
pub open spec fn state_ok(st: ScanState) -> bool {
    &&& tokens_ok(st.done)
    &&& tokens_closed(st.done)
    &&& match st.mode {
        ScanMode::Waiting => st.cur.len() == 0,
        ScanMode::InItem => is_item_text(st.cur),
        ScanMode::InStringLiteral => quotes_escaped(st.cur),
    }
}

/// Whether the text ends inside a literal, right behind a backslash. Such a
/// text is written back with a closing quote that the backslash then escapes.
pub open spec fn ends_in_open_escape(code: Seq<char>) -> bool {
    scan(code).mode is InStringLiteral && ends_in_backslash(scan(code).cur)
}

proof fn lemma_step_ok(st: ScanState, c: char)
    requires
        state_ok(st),
    ensures
        state_ok(scan_step(st, c)),
{
    let next = scan_step(st, c);
    if st.mode is InStringLiteral {
        if closes_literal(st.cur, c) {
            assert(next.done =~= st.done.push(Token::Literal(st.cur)));
        } else {
            assert forall|i: int| 0 <= i < next.cur.len() && #[trigger] next.cur[i] == '"' implies i
                > 0 && next.cur[i - 1] == '\\' by {
                if i < st.cur.len() {
                    assert(st.cur[i] == '"');
                }
            }
        }
    } else if is_space(c) || is_punct(c) || c == '"' {
    } else if st.mode is InItem {
        assert forall|i: int| 0 <= i < next.cur.len() implies is_item_char(
            #[trigger] next.cur[i],
        ) by {
            if i < st.cur.len() {
                assert(is_item_char(st.cur[i]));
            }
        }
    } else {
    }
}

proof fn lemma_scan_from_ok(st: ScanState, s: Seq<char>)
    requires
        state_ok(st),
    ensures
        state_ok(scan_from(st, s)),
    decreases s.len(),
{
    if s.len() > 0 {
        lemma_scan_from_ok(st, s.drop_last());
        lemma_step_ok(scan_from(st, s.drop_last()), s.last());
    }
}

/// The tokens of any text are well formed, and all but the last are closed.
pub proof fn lemma_tokens_well_formed(code: Seq<char>)
    ensures
        tokens_ok(tokens_of(code)),
        forall|i: int| 0 <= i < tokens_of(code).len() - 1 ==> token_closed(#[trigger] tokens_of(code)[i]),
        tokens_closed(tokens_of(code)) <==> !ends_in_open_escape(code),
{
    lemma_scan_from_ok(waiting(Seq::empty()), code);
    let st = scan(code);
    let ts = tokens_of(code);
    if ends_in_open_escape(code) {
        assert(!token_closed(ts[ts.len() - 1]));
    }
}

/// Scanning one text and then another is scanning both in one go.
pub proof fn lemma_scan_from_concat(st: ScanState, a: Seq<char>, b: Seq<char>)
    ensures
        scan_from(st, a + b) == scan_from(scan_from(st, a), b),
    decreases b.len(),
{
    if b.len() == 0 {
        assert(a + b =~= a);
    } else {
        assert((a + b).drop_last() =~= a + b.drop_last());
        lemma_scan_from_concat(st, a, b.drop_last());
    }
}

proof fn lemma_scan_item(done: Seq<Token>, x: Seq<char>)
    requires
        is_item_text(x),
    ensures
        scan_from(waiting(done), x) == (ScanState { done, mode: ScanMode::InItem, cur: x }),
    decreases x.len(),
{
    let c = x.last();
    let pre = x.drop_last();
    assert(is_item_char(c));
    if pre.len() == 0 {
        assert(scan_from(waiting(done), pre) == waiting(done));
        assert(seq![c] =~= x);
    } else {
        assert forall|i: int| 0 <= i < pre.len() implies is_item_char(#[trigger] pre[i]) by {
            assert(pre[i] == x[i]);
        }
        lemma_scan_item(done, pre);
        assert(pre.push(c) =~= x);
    }
}

proof fn lemma_scan_literal_body(done: Seq<Token>, body: Seq<char>)
    requires
        quotes_escaped(body),
    ensures
        scan_from(
            ScanState { done, mode: ScanMode::InStringLiteral, cur: Seq::empty() },
            body,
        ) == (ScanState { done, mode: ScanMode::InStringLiteral, cur: body }),
    decreases body.len(),
{
    let start = ScanState { done, mode: ScanMode::InStringLiteral, cur: Seq::empty() };
    if body.len() == 0 {
        assert(body =~= Seq::<char>::empty());
    } else {
        let c = body.last();
        let pre = body.drop_last();
        assert forall|i: int| 0 <= i < pre.len() && #[trigger] pre[i] == '"' implies i > 0 && pre[i
            - 1] == '\\' by {
            assert(body[i] == '"');
        }
        lemma_scan_literal_body(done, pre);
        if c == '"' {
            assert(body[body.len() - 1] == '"');
            assert(pre.last() == body[body.len() - 2]);
        }
        assert(!closes_literal(pre, c));
        assert(pre.push(c) =~= body);
    }
}

/// The scanner behind the written form of `ts`: in the middle of the last
/// token where that is an item, at rest otherwise.
pub open spec fn state_after(ts: Seq<Token>) -> ScanState {
    if ts.len() == 0 {
        waiting(ts)
    } else {
        match ts.last() {
            Token::Item(x) => ScanState { done: ts.drop_last(), mode: ScanMode::InItem, cur: x },
            _ => waiting(ts),
        }
    }
}

proof fn lemma_flush_state_after(ts: Seq<Token>)
    ensures
        flush(state_after(ts)) == ts,
{
    if ts.len() > 0 {
        assert(ts.drop_last().push(ts.last()) =~= ts);
    }
}

proof fn lemma_scan_one(st: ScanState, c: char)
    ensures
        scan_from(st, seq![c]) == scan_step(st, c),
{
    let s = seq![c];
    assert(s.drop_last() =~= Seq::<char>::empty());
    assert(scan_from(st, s.drop_last()) == st);
}

/// Scanning the written form of well-formed, closed tokens ends right behind
/// the last of them.
pub proof fn lemma_scan_render(ts: Seq<Token>)
    requires
        tokens_ok(ts),
        tokens_closed(ts),
    ensures
        scan(render(ts)) == state_after(ts),
    decreases ts.len(),
{
    let init = waiting(Seq::<Token>::empty());
    if ts.len() == 0 {
        assert(ts =~= Seq::<Token>::empty());
    } else {
        let pre = ts.drop_last();
        let t = ts.last();
        assert forall|i: int| 0 <= i < pre.len() implies token_ok(#[trigger] pre[i])
            && token_closed(pre[i]) by {
            assert(pre[i] == ts[i]);
        }
        lemma_scan_render(pre);
        lemma_flush_state_after(pre);
        let st1 = state_after(pre);
        let g = if pre.len() > 0 {
            gap(pre.last(), t)
        } else {
            Seq::<char>::empty()
        };
        if pre.len() == 0 {
            assert(render(ts) =~= render(pre) + (g + t.text()));
        } else {
            assert(pre.last() == ts[ts.len() - 2]);
            assert(render(ts) =~= render(pre) + (g + t.text()));
        }
        lemma_scan_from_concat(init, render(pre), g + t.text());
        lemma_scan_from_concat(st1, g, t.text());
        let st2 = scan_from(st1, g);
        if g.len() > 0 {
            assert(g =~= seq![' ']);
            lemma_scan_one(st1, ' ');
            assert(st2 == waiting(pre));
        } else {
            assert(g =~= Seq::<char>::empty());
            assert(st2 == st1);
        }
        assert(token_ok(t) && token_closed(t));
        assert(pre.push(t) =~= ts);
        match t {
            Token::Item(x) => {
                assert(st2 == waiting(pre));
                lemma_scan_item(pre, x);
            },
            Token::Literal(body) => {
                assert(st2 == waiting(pre));
                let open = ScanState {
                    done: pre,
                    mode: ScanMode::InStringLiteral,
                    cur: Seq::<char>::empty(),
                };
                let full = ScanState { done: pre, mode: ScanMode::InStringLiteral, cur: body };
                assert(t.text() =~= seq!['"'] + (body + seq!['"']));
                lemma_scan_from_concat(st2, seq!['"'], body + seq!['"']);
                lemma_scan_one(st2, '"');
                assert(scan_step(st2, '"') == open);
                lemma_scan_from_concat(open, body, seq!['"']);
                lemma_scan_literal_body(pre, body);
                lemma_scan_one(full, '"');
                assert(closes_literal(body, '"'));
            },
            Token::Comma => {
                assert(t.text() =~= seq![',']);
                lemma_scan_one(st2, ',');
                assert(flush(st2) == pre);
            },
            Token::Colon => {
                assert(t.text() =~= seq![':']);
                lemma_scan_one(st2, ':');
                assert(flush(st2) == pre);
            },
            Token::ParenOpen => {
                assert(t.text() =~= seq!['(']);
                lemma_scan_one(st2, '(');
                assert(flush(st2) == pre);
            },
            Token::ParenClose => {
                assert(t.text() =~= seq![')']);
                lemma_scan_one(st2, ')');
                assert(flush(st2) == pre);
            },
        }
    }
}

/// Formatting keeps the tokens: scanning the canonical form of a code text
/// gives the tokens of the text itself, none added, dropped or moved. The
/// one text of which this fails is left out: one that ends inside a literal
/// right behind a backslash.
pub proof fn lemma_formatting_keeps_tokens(code: Seq<char>)
    requires
        !ends_in_open_escape(code),
    ensures
        tokens_of(canonical(code)) == tokens_of(code),
{
    lemma_tokens_well_formed(code);
    lemma_scan_render(tokens_of(code));
    lemma_flush_state_after(tokens_of(code));
}

/// The canonical form of a code text is its own canonical form, for every
/// text but one that ends inside a literal right behind a backslash.
pub proof fn lemma_canonical_is_stable(code: Seq<char>)
    requires
        !ends_in_open_escape(code),
    ensures
        canonical(canonical(code)) == canonical(code),
{
    lemma_formatting_keeps_tokens(code);
}

/// The written form of the first `k` tokens is the beginning of the written
/// form of them all.
pub proof fn lemma_render_prefix(ts: Seq<Token>, k: int)
    requires
        0 <= k <= ts.len(),
    ensures
        render(ts.take(k)).is_prefix_of(render(ts)),
    decreases ts.len() - k,
{
    if k == ts.len() {
        assert(ts.take(k) =~= ts);
    } else {
        lemma_render_prefix(ts, k + 1);
        let more = ts.take(k + 1);
        assert(more.drop_last() =~= ts.take(k));
        if k > 0 {
            assert(render(more) == render(ts.take(k)) + gap(more[more.len() - 2], more.last())
                + more.last().text());
        } else {
            assert(ts.take(k) =~= Seq::<Token>::empty());
        }
        let a = render(ts.take(k));
        let b = render(more);
        let c = render(ts);
        assert(a.is_prefix_of(b));
        assert(a =~= c.subrange(0, a.len() as int)) by {
            assert(b == c.subrange(0, b.len() as int));
            assert(a == b.subrange(0, a.len() as int));
        }
    }
}

/// The written form of well-formed tokens ends in a character that is not
/// white space.
pub proof fn lemma_render_ends_in_text(ts: Seq<Token>)
    requires
        tokens_ok(ts),
        ts.len() > 0,
    ensures
        render(ts).len() > 0,
        !is_space(render(ts).last()),
        !is_space(render(ts)[0]),
    decreases ts.len(),
{
    let t = ts.last();
    assert(token_ok(t));
    let text = t.text();
    assert(text.len() > 0 && !is_space(text.last()) && !is_space(text[0])) by {
        match t {
            Token::Item(x) => {
                assert(is_item_char(x[x.len() - 1]));
                assert(is_item_char(x[0]));
            },
            _ => {},
        }
    }
    if ts.len() > 1 {
        let pre = ts.drop_last();
        assert forall|i: int| 0 <= i < pre.len() implies token_ok(#[trigger] pre[i]) by {
            assert(pre[i] == ts[i]);
        }
        lemma_render_ends_in_text(pre);
        assert(render(ts)[0] == render(pre)[0]);
    }
}

/// A comma follows the token before it at once, with no white space in
/// front, and is followed by exactly one space where an item or a literal
/// comes next. Both stand in the canonical form at the comma's place.
pub proof fn lemma_comma_attachment(code: Seq<char>, i: int)
    requires
        0 <= i < tokens_of(code).len(),
        tokens_of(code)[i] is Comma,
    ensures
        ({
            let ts = tokens_of(code);
            let before = render(ts.take(i));
            let upto = render(ts.take(i + 1));
            &&& upto == before + seq![',']
            &&& upto.is_prefix_of(canonical(code))
            &&& i > 0 ==> before.len() > 0 && !is_space(before.last())
            &&& i + 1 < ts.len() && (ts[i + 1] is Item || ts[i + 1] is Literal) ==> {
                let next = render(ts.take(i + 2));
                &&& next == upto + seq![' '] + ts[i + 1].text()
                &&& next.is_prefix_of(canonical(code))
            }
        }),
{
    let ts = tokens_of(code);
    lemma_tokens_well_formed(code);
    lemma_render_prefix(ts, i + 1);
    let head = ts.take(i + 1);
    assert(head.drop_last() =~= ts.take(i));
    assert(head.last() == ts[i]);
    if i > 0 {
        let pre = ts.take(i);
        assert forall|k: int| 0 <= k < pre.len() implies token_ok(#[trigger] pre[k]) by {
            assert(pre[k] == ts[k]);
        }
        lemma_render_ends_in_text(pre);
        assert(head[head.len() - 2] == ts[i - 1]);
        assert(gap(ts[i - 1], ts[i]) =~= Seq::<char>::empty());
        assert(render(head) =~= render(pre) + seq![',']);
    } else {
        assert(ts.take(i) =~= Seq::<Token>::empty());
        assert(render(head) =~= render(ts.take(i)) + seq![',']);
    }
    if i + 1 < ts.len() && (ts[i + 1] is Item || ts[i + 1] is Literal) {
        lemma_render_prefix(ts, i + 2);
        let two = ts.take(i + 2);
        assert(two.drop_last() =~= head);
        assert(two.last() == ts[i + 1]);
        assert(two[two.len() - 2] == ts[i]);
        assert(gap(ts[i], ts[i + 1]) =~= seq![' ']);
    }
}

/// Whether `body` stands in `code` as it is, right behind a quote.
pub open spec fn stands_quoted(code: Seq<char>, body: Seq<char>) -> bool {
    exists|k: int|
        1 <= k && k + body.len() <= code.len() && code[k - 1] == '"' && #[trigger] code.subrange(
            k,
            k + body.len(),
        ) == body
}

/// Every literal behind the scanner stands in the scanned text as it is, and
/// so does the one it is in the middle of, at the very end of the text.
spec fn literals_verbatim(st: ScanState, s: Seq<char>) -> bool {
    &&& forall|i: int|
        0 <= i < st.done.len() ==> ((#[trigger] st.done[i]) matches Token::Literal(body)
            ==> stands_quoted(s, body))
    &&& st.mode is InStringLiteral ==> {
        &&& st.cur.len() < s.len()
        &&& s[s.len() - st.cur.len() - 1] == '"'
        &&& s.subrange(s.len() - st.cur.len(), s.len() as int) == st.cur
    }
}

proof fn lemma_stands_quoted_extends(s: Seq<char>, c: char, body: Seq<char>)
    requires
        stands_quoted(s, body),
    ensures
        stands_quoted(s.push(c), body),
{
    let k = choose|k: int|
        1 <= k && k + body.len() <= s.len() && s[k - 1] == '"' && #[trigger] s.subrange(
            k,
            k + body.len(),
        ) == body;
    assert(s.push(c).subrange(k, k + body.len()) =~= s.subrange(k, k + body.len()));
}

proof fn lemma_scan_literals_verbatim(s: Seq<char>)
    ensures
        literals_verbatim(scan(s), s),
    decreases s.len(),
{
    if s.len() > 0 {
        let pre = s.drop_last();
        let c = s.last();
        lemma_scan_literals_verbatim(pre);
        let st = scan(pre);
        let next = scan(s);
        assert(next == scan_step(st, c));
        assert(pre.push(c) =~= s);
        assert forall|i: int| 0 <= i < st.done.len() implies ((#[trigger] st.done[i])
            matches Token::Literal(body) ==> stands_quoted(s, body)) by {
            if let Token::Literal(body) = st.done[i] {
                lemma_stands_quoted_extends(pre, c, body);
            }
        }
        if st.mode is InStringLiteral {
            let k = pre.len() - st.cur.len();
            if closes_literal(st.cur, c) {
                assert(s.subrange(k, k + st.cur.len()) =~= pre.subrange(k, pre.len() as int));
                assert(stands_quoted(s, st.cur));
                assert forall|i: int| 0 <= i < next.done.len() implies ((#[trigger] next.done[i])
                    matches Token::Literal(body) ==> stands_quoted(s, body)) by {
                    if i < st.done.len() {
                        assert(next.done[i] == st.done[i]);
                    }
                }
            } else {
                assert(s.subrange(s.len() - next.cur.len(), s.len() as int) =~= st.cur.push(c));
            }
        } else {
            assert forall|i: int| 0 <= i < next.done.len() implies ((#[trigger] next.done[i])
                matches Token::Literal(body) ==> stands_quoted(s, body)) by {
                if i < st.done.len() {
                    assert(next.done[i] == st.done[i]);
                }
            }
            if next.mode is InStringLiteral {
                assert(s.subrange(s.len() - 0, s.len() as int) =~= Seq::<char>::empty());
            }
        }
    }
}

/// A string literal is kept character for character: the body of every
/// literal token is a piece of the code text, standing there right behind
/// its opening quote, and the canonical form holds it between two quotes at
/// the token's place.
pub proof fn lemma_literal_preserved(code: Seq<char>, i: int)
    requires
        0 <= i < tokens_of(code).len(),
        tokens_of(code)[i] is Literal,
    ensures
        ({
            let ts = tokens_of(code);
            let body = ts[i]->Literal_0;
            let upto = render(ts.take(i + 1));
            &&& stands_quoted(code, body)
            &&& (seq!['"'] + body + seq!['"']).is_suffix_of(upto)
            &&& upto.is_prefix_of(canonical(code))
        }),
{
    let ts = tokens_of(code);
    let st = scan(code);
    let body = ts[i]->Literal_0;
    lemma_scan_literals_verbatim(code);
    if i < st.done.len() {
        assert(ts[i] == st.done[i]);
    } else {
        let k = code.len() - st.cur.len();
        assert(code.subrange(k, k + body.len()) == body);
    }
    lemma_render_prefix(ts, i + 1);
    let head = ts.take(i + 1);
    assert(head.last() == ts[i]);
    let text = ts[i].text();
    let upto = render(head);
    if i > 0 {
        let rest = render(head.drop_last()) + gap(head[head.len() - 2], head.last());
        assert(upto == rest + text);
        assert(upto.subrange(upto.len() - text.len(), upto.len() as int) =~= text);
    } else {
        assert(upto.subrange(upto.len() - text.len(), upto.len() as int) =~= text);
    }
}

/// The tokens only grow in number as the scanner goes on.
proof fn lemma_flush_grows(st: ScanState, s: Seq<char>)
    ensures
        flush(scan_from(st, s)).len() >= flush(st).len(),
    decreases s.len(),
{
    if s.len() > 0 {
        lemma_flush_grows(st, s.drop_last());
    }
}

/// A code text that begins with something other than white space has a
/// canonical form that holds something.
pub proof fn lemma_canonical_holds_text(code: Seq<char>)
    requires
        code.len() > 0,
        !is_space(code[0]),
    ensures
        tokens_of(code).len() > 0,
        canonical(code).len() > 0,
        !is_space(canonical(code)[0]),
        !is_space(canonical(code).last()),
{
    let init = waiting(Seq::<Token>::empty());
    let first = seq![code[0]];
    let rest = code.subrange(1, code.len() as int);
    assert(first + rest =~= code);
    lemma_scan_from_concat(init, first, rest);
    lemma_scan_one(init, code[0]);
    lemma_flush_grows(scan_step(init, code[0]), rest);
    lemma_tokens_well_formed(code);
    lemma_render_ends_in_text(tokens_of(code));
}

} // verus!
