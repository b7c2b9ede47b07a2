//! Character sequences: white space, trimming, searching, line splitting, and
//! the conversions between strings and character vectors that the rest of the
//! formatter is built on.
//!
//! Every text is modelled as a `Seq<char>`, the view of `str` and `String`.

use vstd::prelude::*;
use vstd::string::*;

verus! {

/// The characters with the Unicode `White_Space` property: U+0009 to U+000D,
/// U+0020, U+0085, U+00A0, U+1680, U+2000 to U+200A, U+2028, U+2029, U+202F,
/// U+205F and U+3000.
pub open spec fn is_space(c: char) -> bool {
    let u = c as u32;
    ||| 0x09 <= u <= 0x0D
    ||| u == 0x20
    ||| u == 0x85
    ||| u == 0xA0
    ||| u == 0x1680
    ||| 0x2000 <= u <= 0x200A
    ||| u == 0x2028
    ||| u == 0x2029
    ||| u == 0x202F
    ||| u == 0x205F
    ||| u == 0x3000
}

/// Trusted: `char::is_whitespace` of the standard library tells whether the
/// character has the `White_Space` property, the set that [`is_space`] lists.
pub assume_specification[ char::is_whitespace ](c: char) -> (b: bool)
    ensures
        b == is_space(c),
;

/// Trusted: `String::push` of the standard library appends the one character
/// to the end of the string and changes nothing else.
pub assume_specification[ String::push ](s: &mut String, c: char)
    ensures
        final(s)@ == old(s)@.push(c),
;

/// The index of the first `c` in `s`, or `s.len()` when `s` holds none.
pub open spec fn position(s: Seq<char>, c: char) -> int
    decreases s.len(),
{
    if s.len() == 0 {
        0
    } else if s[0] == c {
        0
    } else {
        1 + position(s.drop_first(), c)
    }
}

/// `position` is the least index that holds `c`.
pub proof fn lemma_position(s: Seq<char>, c: char)
    ensures
        0 <= position(s, c) <= s.len(),
        position(s, c) < s.len() ==> s[position(s, c)] == c,
        forall|j: int| 0 <= j < position(s, c) ==> s[j] != c,
    decreases s.len(),
{
    if s.len() > 0 && s[0] != c {
        let rest = s.drop_first();
        lemma_position(rest, c);
        assert forall|j: int| 0 <= j < position(s, c) implies s[j] != c by {
            if j > 0 {
                assert(s[j] == rest[j - 1]);
            }
        }
    }
}

/// Any index that no `c` precedes, and that either holds `c` or is the end,
/// is `position`.
pub proof fn lemma_position_unique(s: Seq<char>, c: char, i: int)
    requires
        0 <= i <= s.len(),
        i < s.len() ==> s[i] == c,
        forall|j: int| 0 <= j < i ==> s[j] != c,
    ensures
        position(s, c) == i,
{
    lemma_position(s, c);
    let p = position(s, c);
    if p < i {
        assert(s[p] != c);
    }
}

/// `s` without its leading white space.
pub open spec fn trim_start(s: Seq<char>) -> Seq<char>
    decreases s.len(),
{
    if s.len() > 0 && is_space(s[0]) {
        trim_start(s.drop_first())
    } else {
        s
    }
}

/// `s` without its trailing white space.
pub open spec fn trim_end(s: Seq<char>) -> Seq<char>
    decreases s.len(),
{
    if s.len() > 0 && is_space(s.last()) {
        trim_end(s.drop_last())
    } else {
        s
    }
}

/// `s` without the white space on either side.
pub open spec fn trim(s: Seq<char>) -> Seq<char> {
    trim_end(trim_start(s))
}

/// Neither the first nor the last character of `s` is white space.
pub open spec fn is_trimmed(s: Seq<char>) -> bool {
    s.len() > 0 ==> !is_space(s[0]) && !is_space(s.last())
}

/// The lines of `s`: the pieces between line feeds. A line feed at the very
/// end closes the last line and opens no further one.
pub open spec fn split_lines(s: Seq<char>) -> Seq<Seq<char>>
    decreases s.len(),
{
    if s.len() == 0 {
        Seq::empty()
    } else {
        let p = position(s, '\n');
        if p >= s.len() {
            seq![s]
        } else {
            proof {
                lemma_position(s, '\n');
            }
            seq![s.subrange(0, p)] + split_lines(s.subrange(p + 1, s.len() as int))
        }
    }
}

/// The lines of `s`, each trimmed. A carriage return before a line feed is
/// white space and goes with the rest.
pub open spec fn trimmed_lines(s: Seq<char>) -> Seq<Seq<char>> {
    split_lines(s).map_values(|l: Seq<char>| trim(l))
}

/// `lines` with one line feed between each two neighbours.
pub open spec fn join_lines(lines: Seq<Seq<char>>) -> Seq<char>
    decreases lines.len(),
{
    if lines.len() == 0 {
        Seq::empty()
    } else if lines.len() == 1 {
        lines[0]
    } else {
        join_lines(lines.drop_last()) + seq!['\n'] + lines.last()
    }
}

/// `n` copies of `c`.
pub open spec fn repeat(c: char, n: nat) -> Seq<char> {
    Seq::new(n, |i: int| c)
}

/// The views of a sequence of string slices.
pub open spec fn str_views(lines: Seq<&str>) -> Seq<Seq<char>> {
    lines.map_values(|l: &str| l@)
}

/// The view of an optional string.
pub open spec fn opt_text(o: Option<String>) -> Option<Seq<char>> {
    match o {
        Some(s) => Some(s@),
        None => None,
    }
}

/// The number of bytes that `s` takes in UTF-8.
pub open spec fn byte_len(s: Seq<char>) -> nat {
    vstd::utf8::encode_utf8(s).len()
}

pub proof fn lemma_trim_start_is_suffix(s: Seq<char>)
    ensures
        trim_start(s).len() <= s.len(),
        trim_start(s) == s.subrange(s.len() - trim_start(s).len(), s.len() as int),
        trim_start(s).len() > 0 ==> !is_space(trim_start(s)[0]),
    decreases s.len(),
{
    if s.len() > 0 && is_space(s[0]) {
        let rest = s.drop_first();
        lemma_trim_start_is_suffix(rest);
        let t = trim_start(rest);
        assert(rest.subrange(rest.len() - t.len(), rest.len() as int) =~= s.subrange(
            s.len() - t.len(),
            s.len() as int,
        ));
    } else {
        assert(s.subrange(0, s.len() as int) =~= s);
    }
}

pub proof fn lemma_trim_end_is_prefix(s: Seq<char>)
    ensures
        trim_end(s).len() <= s.len(),
        trim_end(s) == s.subrange(0, trim_end(s).len() as int),
        trim_end(s).len() > 0 ==> !is_space(trim_end(s).last()),
    decreases s.len(),
{
    if s.len() > 0 && is_space(s.last()) {
        let rest = s.drop_last();
        lemma_trim_end_is_prefix(rest);
        let t = trim_end(rest);
        assert(rest.subrange(0, t.len() as int) =~= s.subrange(0, t.len() as int));
    } else {
        assert(s.subrange(0, s.len() as int) =~= s);
    }
}

/// A trimmed text has no white space at either end, and is a piece of the
/// text it was trimmed from.
pub proof fn lemma_trim_is_trimmed(s: Seq<char>)
    ensures
        is_trimmed(trim(s)),
        trim(s).len() <= s.len(),
{
    lemma_trim_start_is_suffix(s);
    let t = trim_start(s);
    lemma_trim_end_is_prefix(t);
    let r = trim_end(t);
    if r.len() > 0 {
        assert(r[0] == t[0]);
    }
}

/// Trimming a text that begins with something other than white space keeps
/// that beginning.
pub proof fn lemma_trim_keeps_first(s: Seq<char>)
    requires
        s.len() > 0,
        !is_space(s[0]),
    ensures
        trim(s).len() > 0,
        trim(s)[0] == s[0],
        trim(s) == trim_end(s),
    decreases s.len(),
{
    if is_space(s.last()) {
        let rest = s.drop_last();
        assert(rest.len() > 0);
        assert(rest[0] == s[0]);
        lemma_trim_keeps_first(rest);
    }
}

/// The characters of `s`.
pub fn chars_of(s: &str) -> (v: Vec<char>)
    ensures
        v@ == s@,
{
    let mut v: Vec<char> = Vec::new();
    for c in it: s.chars()
        invariant
            v@ == it.seq().take(it.index() as int),
            it.seq() == s@,
    {
        v.push(c);
    }
    v
}

/// The string made of `v[from..to]`.
pub fn text_of_range(v: &Vec<char>, from: usize, to: usize) -> (s: String)
    requires
        from <= to <= v.len(),
    ensures
        s@ == v@.subrange(from as int, to as int),
{
    let mut s = String::new();
    let mut i: usize = from;
    while i < to
        invariant
            from <= i <= to <= v.len(),
            s@ == v@.subrange(from as int, i as int),
        decreases to - i,
    {
        s.push(v[i]);
        i += 1;
    }
    s
}

/// The string made of all of `v`.
pub fn text_of(v: &Vec<char>) -> (s: String)
    ensures
        s@ == v@,
{
    let s = text_of_range(v, 0, v.len());
    assert(v@.subrange(0, v.len() as int) =~= v@);
    s
}

/// The index of the first `c` in `v[from..to]`, counted from the start of
/// `v`, or `to` when that range holds none.
pub fn find_char(v: &Vec<char>, from: usize, to: usize, c: char) -> (i: usize)
    requires
        from <= to <= v.len(),
    ensures
        i == from + position(v@.subrange(from as int, to as int), c),
        from <= i <= to,
{
    let mut i: usize = from;
    while i < to && v[i] != c
        invariant
            from <= i <= to <= v.len(),
            forall|j: int| from <= j < i ==> v@[j] != c,
        decreases to - i,
    {
        i += 1;
    }
    proof {
        lemma_position_unique(v@.subrange(from as int, to as int), c, i - from);
    }
    i
}

/// The bounds of `v[from..to]` without the white space on either side.
pub fn trim_range(v: &Vec<char>, from: usize, to: usize) -> (r: (usize, usize))
    requires
        from <= to <= v.len(),
    ensures
        from <= r.0 <= r.1 <= to,
        v@.subrange(r.0 as int, r.1 as int) == trim(v@.subrange(from as int, to as int)),
{
    let mut a: usize = from;
    while a < to && v[a].is_whitespace()
        invariant
            from <= a <= to <= v.len(),
            trim_start(v@.subrange(from as int, to as int)) == trim_start(
                v@.subrange(a as int, to as int),
            ),
        decreases to - a,
    {
        assert(v@.subrange(a as int, to as int).drop_first() =~= v@.subrange(
            a + 1,
            to as int,
        ));
        a += 1;
    }
    let mut b: usize = to;
    while a < b && v[b - 1].is_whitespace()
        invariant
            a <= b <= to <= v.len(),
            trim_end(v@.subrange(a as int, to as int)) == trim_end(
                v@.subrange(a as int, b as int),
            ),
        decreases b - a,
    {
        assert(v@.subrange(a as int, b as int).drop_last() =~= v@.subrange(
            a as int,
            b - 1,
        ));
        b -= 1;
    }
    (a, b)
}

/// Whether `v` begins with `pat`.
pub fn has_prefix(v: &Vec<char>, pat: &Vec<char>) -> (b: bool)
    ensures
        b == pat@.is_prefix_of(v@),
{
    if pat.len() > v.len() {
        return false;
    }
    let mut i: usize = 0;
    while i < pat.len()
        invariant
            i <= pat.len() <= v.len(),
            forall|j: int| 0 <= j < i ==> pat@[j] == v@[j],
        decreases pat.len() - i,
    {
        if pat[i] != v[i] {
            assert(v@.subrange(0, pat@.len() as int)[i as int] != pat@[i as int]);
            return false;
        }
        i += 1;
    }
    assert(v@.subrange(0, pat@.len() as int) =~= pat@);
    true
}

/// Whether `v` ends with `pat`.
pub fn has_suffix(v: &Vec<char>, pat: &Vec<char>) -> (b: bool)
    ensures
        b == pat@.is_suffix_of(v@),
{
    if pat.len() > v.len() {
        return false;
    }
    let shift: usize = v.len() - pat.len();
    let mut i: usize = 0;
    while i < pat.len()
        invariant
            i <= pat.len() <= v.len(),
            shift == v.len() - pat.len(),
            forall|j: int| 0 <= j < i ==> pat@[j] == v@[shift + j],
        decreases pat.len() - i,
    {
        if pat[i] != v[shift + i] {
            assert(v@.subrange(v@.len() - pat@.len(), v@.len() as int)[i as int] != pat@[i as int]);
            return false;
        }
        i += 1;
    }
    assert(v@.subrange(v@.len() - pat@.len(), v@.len() as int) =~= pat@);
    true
}

/// Whether `s` begins with `pat`.
pub fn str_starts_with(s: &str, pat: &str) -> (b: bool)
    ensures
        b == pat@.is_prefix_of(s@),
{
    has_prefix(&chars_of(s), &chars_of(pat))
}

/// Whether `s` ends with `pat`.
pub fn str_ends_with(s: &str, pat: &str) -> (b: bool)
    ensures
        b == pat@.is_suffix_of(s@),
{
    has_suffix(&chars_of(s), &chars_of(pat))
}

/// The lines of `v`, each trimmed.
pub fn split_trimmed(v: &Vec<char>) -> (lines: Vec<String>)
    ensures
        lines@.map_values(|l: String| l@) == trimmed_lines(v@),
{
    let mut lines: Vec<String> = Vec::new();
    let mut start: usize = 0;
    let n: usize = v.len();
    proof {
        assert(v@.subrange(0, n as int) =~= v@);
        assert(lines@.map_values(|l: String| l@) + trimmed_lines(v@) =~= trimmed_lines(v@));
    }
    while start < n
        invariant
            start <= n == v.len(),
            trimmed_lines(v@) == lines@.map_values(|l: String| l@) + trimmed_lines(
                v@.subrange(start as int, n as int),
            ),
        decreases n - start,
    {
        let ghost rest = v@.subrange(start as int, n as int);
        let end = find_char(v, start, n, '\n');
        let (a, b) = trim_range(v, start, end);
        let line = text_of_range(v, a, b);
        let ghost before = lines@.map_values(|l: String| l@);
        lines.push(line);
        let next: usize = if end < n {
            end + 1
        } else {
            n
        };
        proof {
            let p = position(rest, '\n');
            assert(rest.subrange(0, p) =~= v@.subrange(start as int, end as int));
            if end < n {
                assert(rest.subrange(p + 1, rest.len() as int) =~= v@.subrange(
                    next as int,
                    n as int,
                ));
                assert(split_lines(rest) == seq![rest.subrange(0, p)] + split_lines(
                    v@.subrange(next as int, n as int),
                ));
            } else {
                assert(rest.subrange(0, p) =~= rest);
                assert(split_lines(rest) =~= seq![rest] + split_lines(
                    v@.subrange(next as int, n as int),
                ));
            }
            assert(trimmed_lines(rest) =~= seq![line@] + trimmed_lines(
                v@.subrange(next as int, n as int),
            ));
            assert(lines@.map_values(|l: String| l@) =~= before.push(line@));
        }
        start = next;
    }
    proof {
        assert(trimmed_lines(v@.subrange(n as int, n as int)) =~= Seq::<Seq<char>>::empty());
        assert(trimmed_lines(v@) =~= lines@.map_values(|l: String| l@));
    }
    lines
}

} // verus!
