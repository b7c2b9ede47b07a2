//! What holds of the lines that a file is written as: where blank lines can
//! stand, and which lines are written as empty text.

use crate::align::{align_line, aligned};
use crate::chunk::{
    block_lines, block_ok, chunks_of, chunks_ok, lemma_chunks_hold_lines, lemma_chunks_of_ok,
    Block, Directive,
};
use crate::compile::{
    compile_chunks, compiled, emitted, next_state, section_head, section_tail, CompileState,
};
use crate::formatter::{
    aligned_all, all_lines, format_text, formatted_all, formatted_lines, rendered_all,
    section_chunks, section_lines,
};
use crate::indent::{indent_block, indented, is_indented};
use crate::line::{blank_line, lemma_parse_line_trimmed, parse_line, split_line, Line, Split};
use crate::section::{
    data_word, lemma_sections_unindented, logical_lines, sections_of, text_word, Region,
};
use crate::text::{is_space, is_trimmed, lemma_position, lemma_trim_keeps_first, position,
    trimmed_lines};
use crate::token_laws::lemma_canonical_holds_text;
use vstd::prelude::*;

verus! {

/// No two blank lines in a row.
pub open spec fn no_double_blank(lines: Seq<Line>) -> bool {
    forall|i: int| 0 < i < lines.len() ==> !(lines[i - 1].is_blank() && (#[trigger] lines[i]).is_blank())
}

/// Lines as a section leaves them: none at all, or lines that begin with one
/// that is not blank, end on a blank one and hold no two blank lines in a row.
pub open spec fn tidy(lines: Seq<Line>) -> bool {
    &&& no_double_blank(lines)
    &&& lines.len() > 0 ==> !lines[0].is_blank() && lines.last().is_blank()
}

/// A line that is written as empty text exactly where it is blank: a blank
/// line is not indented, and code, where there is any, holds something.
pub open spec fn line_plain(line: Line) -> bool {
    if line.is_blank() {
        line == blank_line()
    } else {
        line.holds_text()
    }
}

/// A chunk without blank lines in it, and with at least one line where it is
/// a code or a comment chunk.
pub open spec fn block_solid(block: Block) -> bool {
    &&& block is Code || block is Comment ==> block_lines(block).len() > 0
    &&& forall|j: int|
        0 <= j < block_lines(block).len() ==> {
            let line = #[trigger] block_lines(block)[j];
            !line.is_blank() && line.holds_text()
        }
}

pub open spec fn chunks_solid(chunks: Seq<Block>) -> bool {
    forall|i: int| 0 <= i < chunks.len() ==> block_solid(#[trigger] chunks[i])
}

/// A line that is not blank is written as text that holds something, and a
/// blank line as empty text.
pub proof fn lemma_rendered_empty_iff_blank(line: Line)
    requires
        line_plain(line),
    ensures
        line.rendered().len() == 0 <==> line.is_blank(),
{
}

proof fn lemma_emitted_solid(state: CompileState, block: Block)
    requires
        block_solid(block),
    ensures
        ({
            let e = emitted(state, block);
            &&& no_double_blank(e)
            &&& forall|k: int| 0 <= k < e.len() ==> line_plain(#[trigger] e[k])
            &&& e.len() > 0 && e[0].is_blank() ==> !(state is Free)
            &&& e.len() > 0 ==> (e.last().is_blank() <==> next_state(state, block) is Free)
            &&& e.len() == 0 ==> next_state(state, block) == state
        }),
{
    let e = emitted(state, block);
    match block {
        Block::GlobDec(line) => {
            assert(block_lines(block)[0] == line);
        },
        Block::Modifier(line) => {
            assert(block_lines(block)[0] == line);
        },
        Block::Code(lines) => {
            assert forall|k: int| 0 <= k < e.len() implies line_plain(#[trigger] e[k]) by {
                if k < lines.len() {
                    assert(block_lines(block)[k] == e[k]);
                }
            }
            assert forall|i: int| 0 < i < e.len() implies !(e[i - 1].is_blank() && (
            #[trigger] e[i]).is_blank()) by {
                assert(block_lines(block)[i - 1] == e[i - 1]);
            }
            assert(block_lines(block)[0] == e[0]);
        },
        Block::Comment(lines) => {
            assert forall|k: int| 0 <= k < e.len() implies line_plain(#[trigger] e[k]) by {
                assert(block_lines(block)[k] == e[k]);
            }
            assert forall|i: int| 0 < i < e.len() implies !(e[i - 1].is_blank() && (
            #[trigger] e[i]).is_blank()) by {
                assert(block_lines(block)[i] == e[i]);
            }
            assert(block_lines(block)[e.len() - 1] == e.last());
            assert(block_lines(block)[0] == e[0]);
        },
        Block::Space => {},
    }
}

/// Two runs of lines without two blank lines in a row make one such run
/// unless a blank line at the end of the first meets one at the start of the
/// second.
proof fn lemma_join_no_double_blank(a: Seq<Line>, b: Seq<Line>)
    requires
        no_double_blank(a),
        no_double_blank(b),
        a.len() > 0 && b.len() > 0 ==> !(a.last().is_blank() && b[0].is_blank()),
    ensures
        no_double_blank(a + b),
{
    let c = a + b;
    assert forall|i: int| 0 < i < c.len() implies !(c[i - 1].is_blank() && (#[trigger] c[i]).is_blank()) by {
        if i < a.len() {
            assert(c[i] == a[i] && c[i - 1] == a[i - 1]);
        } else if i == a.len() {
            assert(c[i] == b[0] && c[i - 1] == a.last());
        } else {
            assert(c[i] == b[i - a.len()] && c[i - 1] == b[i - a.len() - 1]);
        }
    }
}

/// The lines written for solid chunks hold no two blank lines in a row, do
/// not begin with a blank line, and end on one exactly in state `Free`.
proof fn lemma_compile_chunks_tidy(chunks: Seq<Block>)
    requires
        chunks_solid(chunks),
    ensures
        ({
            let c = compile_chunks(chunks);
            &&& no_double_blank(c.lines)
            &&& forall|k: int| 0 <= k < c.lines.len() ==> line_plain(#[trigger] c.lines[k])
            &&& c.lines.len() > 0 ==> !c.lines[0].is_blank()
            &&& c.state is Free <==> (c.lines.len() == 0 || c.lines.last().is_blank())
        }),
    decreases chunks.len(),
{
    if chunks.len() > 0 {
        let pre = chunks.drop_last();
        assert forall|i: int| 0 <= i < pre.len() implies block_solid(#[trigger] pre[i]) by {
            assert(pre[i] == chunks[i]);
        }
        lemma_compile_chunks_tidy(pre);
        let before = compile_chunks(pre);
        let block = chunks.last();
        assert(block_solid(block));
        lemma_emitted_solid(before.state, block);
        let e = emitted(before.state, block);
        lemma_join_no_double_blank(before.lines, e);
        let c = compile_chunks(chunks);
        assert(c.lines == before.lines + e);
        assert forall|k: int| 0 <= k < c.lines.len() implies line_plain(#[trigger] c.lines[k]) by {
            if k < before.lines.len() {
                assert(c.lines[k] == before.lines[k]);
            } else {
                assert(c.lines[k] == e[k - before.lines.len()]);
            }
        }
        if e.len() > 0 {
            assert(c.lines.last() == e.last());
            if before.lines.len() > 0 {
                assert(c.lines[0] == before.lines[0]);
            } else {
                assert(c.lines[0] == e[0]);
            }
        } else {
            assert(c.lines =~= before.lines);
        }
    }
}

/// The lines of a section with solid chunks are tidy.
proof fn lemma_compiled_tidy(dir_line: Option<Line>, chunks: Seq<Block>)
    requires
        chunks_solid(chunks),
        dir_line matches Some(line) ==> !line.is_blank() && line.holds_text(),
    ensures
        tidy(compiled(dir_line, chunks)),
        forall|k: int|
            0 <= k < compiled(dir_line, chunks).len() ==> line_plain(
                #[trigger] compiled(dir_line, chunks)[k],
            ),
{
    lemma_compile_chunks_tidy(chunks);
    let body = compile_chunks(chunks);
    let head = section_head(dir_line);
    let tail = section_tail(body.state);
    lemma_join_no_double_blank(head, body.lines);
    lemma_join_no_double_blank(head + body.lines, tail);
    let out = compiled(dir_line, chunks);
    assert forall|k: int| 0 <= k < out.len() implies line_plain(#[trigger] out[k]) by {
        if k < head.len() {
            assert(out[k] == head[k]);
        } else if k < head.len() + body.lines.len() {
            assert(out[k] == body.lines[k - head.len()]);
        } else {
            assert(out[k] == tail[k - head.len() - body.lines.len()]);
        }
    }
    if out.len() > 0 {
        if head.len() > 0 {
            assert(out[0] == head[0]);
        } else {
            assert(out[0] == body.lines[0]);
        }
        if tail.len() > 0 {
            assert(out.last() == tail.last());
        } else if body.lines.len() > 0 {
            assert(out.last() == body.lines.last());
        } else {
            assert(out.last() == head.last());
        }
    }
}

/// A region as `sections_of` makes them: its directive line, where it has
/// one, is not blank; the code of each of its lines, where there is any,
/// holds something and is trimmed.
pub open spec fn region_ok(region: Region) -> bool {
    &&& region.dir_line matches Some(line) ==> !line.is_blank() && line.holds_text()
    &&& forall|j: int|
        0 <= j < region.lines.len() ==> ((#[trigger] region.lines[j]).code matches Some(code)
            ==> code.len() > 0 && is_trimmed(code))
}

proof fn lemma_directive_line_not_blank(line: Seq<char>)
    requires
        text_word().is_prefix_of(line) || data_word().is_prefix_of(line),
    ensures
        !parse_line(line).is_blank(),
        parse_line(line).holds_text(),
{
    reveal_strlit(".text");
    reveal_strlit(".data");
    assert(line[0] == '.') by {
        if text_word().is_prefix_of(line) {
            assert(line.subrange(0, 5)[0] == text_word()[0]);
        } else {
            assert(line.subrange(0, 5)[0] == data_word()[0]);
        }
    }
    lemma_position(line, '#');
    let hash = position(line, '#');
    if hash < line.len() {
        let code = line.subrange(0, hash);
        assert(code[0] == line[0]);
        lemma_trim_keeps_first(code);
    } else {
        lemma_trim_keeps_first(line);
    }
}

/// Every region of a file is well formed.
pub proof fn lemma_sections_ok(lines: Seq<Seq<char>>)
    ensures
        forall|i: int| 0 <= i < sections_of(lines).len() ==> region_ok(#[trigger] sections_of(lines)[i]),
    decreases lines.len(),
{
    let regions = sections_of(lines);
    if lines.len() == 0 {
    } else {
        let before = sections_of(lines.drop_last());
        let line = lines.last();
        lemma_sections_ok(lines.drop_last());
        lemma_sections_unindented(lines.drop_last());
        assert forall|i: int| 0 <= i < regions.len() implies region_ok(#[trigger] regions[i]) by {
            if text_word().is_prefix_of(line) || data_word().is_prefix_of(line) {
                if i < before.len() {
                    assert(regions[i] == before[i]);
                } else {
                    lemma_directive_line_not_blank(line);
                }
            } else if i < before.len() - 1 {
                assert(regions[i] == before[i]);
            } else {
                let cur = before.last();
                assert(region_ok(cur));
                let added = logical_lines(cur.dir, line);
                assert forall|j: int| 0 <= j < regions[i].lines.len() implies ((
                #[trigger] regions[i].lines[j]).code matches Some(code) ==> code.len() > 0
                    && is_trimmed(code)) by {
                    if j < cur.lines.len() {
                        assert(regions[i].lines[j] == cur.lines[j]);
                    } else {
                        lemma_parse_line_trimmed(line);
                        match split_line(line) {
                            Split::One(l) => {
                                lemma_parse_line_trimmed(l);
                            },
                            Split::Two(a, b) => {
                                lemma_parse_line_trimmed(a);
                                lemma_parse_line_trimmed(b);
                            },
                        }
                        assert(regions[i].lines[j] == added[j - cur.lines.len()]);
                    }
                }
            }
        }
    }
}

/// The chunks that a well-formed region is written from are solid.
proof fn lemma_section_chunks_solid(region: Region)
    requires
        region_ok(region),
    ensures
        chunks_solid(section_chunks(region)),
{
    let lines = formatted_all(region.lines);
    let dir = region.dir;
    let chunks = chunks_of(lines, dir);
    lemma_chunks_of_ok(lines, dir);
    lemma_chunks_hold_lines(lines, dir);
    assert forall|i: int| 0 <= i < chunks.len() implies block_solid(#[trigger] chunks[i]) by {
        assert(block_ok(dir, chunks[i]));
        assert forall|j: int| 0 <= j < block_lines(chunks[i]).len() implies {
            let line = #[trigger] block_lines(chunks[i])[j];
            !line.is_blank() && line.holds_text()
        } by {
            let line = block_lines(chunks[i])[j];
            assert(lines.contains(line));
            let k = choose|k: int| 0 <= k < lines.len() && lines[k] == line;
            let raw = region.lines[k];
            assert(line == raw.formatted());
            if let Some(code) = raw.code {
                lemma_canonical_holds_text(code);
            }
            match chunks[i] {
                Block::Code(ls) => {
                    assert(ls[j] == line);
                },
                Block::Comment(ls) => {
                    assert(ls[j] == line);
                },
                _ => {},
            }
        }
    }
    let lined = aligned_all(chunks);
    assert forall|i: int| 0 <= i < lined.len() implies block_solid(#[trigger] lined[i]) by {
        assert(block_solid(chunks[i]));
        assert(block_lines(lined[i]).len() == block_lines(chunks[i]).len());
        assert forall|j: int| 0 <= j < block_lines(lined[i]).len() implies {
            let line = #[trigger] block_lines(lined[i])[j];
            !line.is_blank() && line.holds_text()
        } by {
            let old = block_lines(chunks[i])[j];
            assert(!old.is_blank() && old.holds_text());
        }
    }
    let done = section_chunks(region);
    assert forall|i: int| 0 <= i < done.len() implies block_solid(#[trigger] done[i]) by {
        assert(block_solid(lined[i]));
        assert(block_lines(done[i]).len() == block_lines(lined[i]).len());
        assert forall|j: int| 0 <= j < block_lines(done[i]).len() implies {
            let line = #[trigger] block_lines(done[i])[j];
            !line.is_blank() && line.holds_text()
        } by {
            let old = block_lines(lined[i])[j];
            assert(!old.is_blank() && old.holds_text());
        }
    }
}

/// The lines of well-formed regions, one after the other, are tidy.
proof fn lemma_all_lines_tidy(regions: Seq<Region>)
    requires
        forall|i: int| 0 <= i < regions.len() ==> region_ok(#[trigger] regions[i]),
    ensures
        tidy(all_lines(regions)),
        forall|k: int|
            0 <= k < all_lines(regions).len() ==> line_plain(#[trigger] all_lines(regions)[k]),
    decreases regions.len(),
{
    if regions.len() > 0 {
        let pre = regions.drop_last();
        assert forall|i: int| 0 <= i < pre.len() implies region_ok(#[trigger] pre[i]) by {
            assert(pre[i] == regions[i]);
        }
        lemma_all_lines_tidy(pre);
        let region = regions.last();
        assert(region_ok(region));
        lemma_section_chunks_solid(region);
        lemma_compiled_tidy(region.dir_line, section_chunks(region));
        let a = all_lines(pre);
        let b = section_lines(region);
        lemma_join_no_double_blank(a, b);
        let out = all_lines(regions);
        assert(out == a + b);
        assert forall|k: int| 0 <= k < out.len() implies line_plain(#[trigger] out[k]) by {
            if k < a.len() {
                assert(out[k] == a[k]);
            } else {
                assert(out[k] == b[k - a.len()]);
            }
        }
        if out.len() > 0 {
            if a.len() > 0 {
                assert(out[0] == a[0]);
            } else {
                assert(out[0] == b[0]);
            }
            if b.len() > 0 {
                assert(out.last() == b.last());
            } else {
                assert(out =~= a);
            }
        }
    }
}

/// The output never holds two empty lines in a row. It is `join_lines` of the
/// texts below, of which no two neighbours are both empty; the first of them
/// is not empty, and the last is, so that an output that holds anything ends
/// in a line feed.
pub proof fn lemma_no_double_blank_lines(contents: Seq<char>)
    ensures
        ({
            let out = rendered_all(formatted_lines(contents));
            &&& forall|i: int| 0 < i < out.len() ==> !(out[i - 1].len() == 0 && (#[trigger] out[i]).len() == 0)
            &&& out.len() > 0 ==> out[0].len() > 0 && out.last().len() == 0
        }),
{
    let regions = sections_of(trimmed_lines(contents));
    lemma_sections_ok(trimmed_lines(contents));
    lemma_all_lines_tidy(regions);
    let lines = formatted_lines(contents);
    let out = rendered_all(lines);
    assert forall|i: int| 0 <= i < out.len() implies ((#[trigger] out[i]).len() == 0
        <==> lines[i].is_blank()) by {
        lemma_rendered_empty_iff_blank(lines[i]);
    }
    assert forall|i: int| 0 < i < out.len() implies !(out[i - 1].len() == 0 && (
    #[trigger] out[i]).len() == 0) by {
        assert(!(lines[i - 1].is_blank() && lines[i].is_blank()));
    }
}

} // verus!
