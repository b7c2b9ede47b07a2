//! The formatter itself: from the text of a file to its canonical layout.

use crate::align::{align_comments, aligned, can_align, widths_fit, COMMENT_MARGIN};
use crate::chunk::{
    block_lines, chunk_views, chunks_of, lemma_chunks_hold_lines, parse_chunks, Block, Chunk,
    Directive,
};
use crate::compile::{compile_section, compiled};
use crate::indent::{can_indent, indent_chunks, indented};
use crate::line::{line_views, CodeLine, Line};
use crate::section::{
    lemma_sections_unindented, parse_sections, section_views, sections_of, Region, Section,
};
use crate::text::{chars_of, join_lines, split_trimmed, str_views, trimmed_lines};
use vstd::prelude::*;
use vstd::string::*;

verus! {

/// The one way in which formatting fails: the code of some line is so long
/// that the column of its comment cannot be counted in a machine word.
#[derive(Debug, PartialEq, Eq, Structural)]
pub struct FormatError;

impl FormatError {
    /// What went wrong, in words.
    pub fn to_string(&self) -> (s: String)
        ensures
            s@ == "a line is too long to be aligned"@,
    {
        String::from_str("a line is too long to be aligned")
    }
}

/// Each of `lines` with its code in canonical spacing.
pub open spec fn formatted_all(lines: Seq<Line>) -> Seq<Line> {
    lines.map_values(|l: Line| l.formatted())
}

/// Each of `chunks` with the comments of its lines in one column.
pub open spec fn aligned_all(chunks: Seq<Block>) -> Seq<Block> {
    chunks.map_values(|b: Block| aligned(b))
}

/// The chunks of a section as they are written: lines in canonical spacing,
/// comments aligned, and, in a text section, the bodies of labels indented.
pub open spec fn section_chunks(region: Region) -> Seq<Block> {
    let chunks = aligned_all(chunks_of(formatted_all(region.lines), region.dir));
    match region.dir {
        Directive::Text => indented(chunks),
        Directive::Data => chunks,
    }
}

/// The lines that a section is written as.
pub open spec fn section_lines(region: Region) -> Seq<Line> {
    compiled(region.dir_line, section_chunks(region))
}

/// The lines that the sections are written as, one section after the other.
pub open spec fn all_lines(regions: Seq<Region>) -> Seq<Line>
    decreases regions.len(),
{
    if regions.len() == 0 {
        Seq::empty()
    } else {
        all_lines(regions.drop_last()) + section_lines(regions.last())
    }
}

/// The lines that the text `contents` is written as.
pub open spec fn formatted_lines(contents: Seq<char>) -> Seq<Line> {
    all_lines(sections_of(trimmed_lines(contents)))
}

/// Each of `lines` as text.
pub open spec fn rendered_all(lines: Seq<Line>) -> Seq<Seq<char>> {
    lines.map_values(|l: Line| l.rendered())
}

/// The text `contents` in canonical layout.
pub open spec fn format_text(contents: Seq<char>) -> Seq<char> {
    join_lines(rendered_all(formatted_lines(contents)))
}

/// Whether the lines of every one of `regions` are short enough for their
/// comments to be aligned.
pub open spec fn regions_fit(regions: Seq<Region>) -> bool {
    forall|i: int|
        0 <= i < regions.len() ==> widths_fit(formatted_all((#[trigger] regions[i]).lines))
}

/// Whether `contents` can be formatted: no line of it has code within two
/// bytes of the largest machine word in length.
pub open spec fn can_format(contents: Seq<char>) -> bool {
    regions_fit(sections_of(trimmed_lines(contents)))
}

/// Puts the code of each of `lines` in canonical spacing, and tells whether
/// their comments can then be aligned.
pub fn format_lines(lines: &mut Vec<CodeLine>) -> (fits: bool)
    ensures
        line_views(final(lines)@) == formatted_all(line_views(old(lines)@)),
        fits == widths_fit(line_views(final(lines)@)),
{
    let ghost before = line_views(lines@);
    let mut fits = true;
    let mut i: usize = 0;
    while i < lines.len()
        invariant
            i <= lines.len(),
            lines.len() == before.len(),
            forall|k: int| 0 <= k < i ==> (#[trigger] lines@[k])@ == before[k].formatted(),
            forall|k: int| i <= k < lines.len() ==> (#[trigger] lines@[k])@ == before[k],
            fits == (forall|k: int|
                0 <= k < i ==> (#[trigger] before[k]).formatted().width() + COMMENT_MARGIN
                    <= usize::MAX),
        decreases lines.len() - i,
    {
        assert(lines@[i as int]@ == before[i as int]);
        lines[i].format();
        if lines[i].code_w() > usize::MAX - COMMENT_MARGIN {
            fits = false;
        }
        i += 1;
    }
    proof {
        let after = line_views(lines@);
        assert(after =~= formatted_all(before));
        if fits {
            assert forall|k: int| 0 <= k < after.len() implies #[trigger] after[k].width()
                + COMMENT_MARGIN <= usize::MAX by {
                assert(before[k].formatted().width() + COMMENT_MARGIN <= usize::MAX);
            }
        } else {
            let k = choose|k: int|
                0 <= k < i && !((#[trigger] before[k]).formatted().width() + COMMENT_MARGIN
                    <= usize::MAX);
            assert(after[k].width() + COMMENT_MARGIN > usize::MAX);
        }
    }
    fits
}

/// Puts the comments of every code chunk in one column.
pub fn align_chunks(chunks: &mut Vec<Chunk>)
    requires
        can_align(chunk_views(old(chunks)@)),
    ensures
        chunk_views(final(chunks)@) == aligned_all(chunk_views(old(chunks)@)),
{
    let ghost before = chunk_views(chunks@);
    let mut i: usize = 0;
    while i < chunks.len()
        invariant
            i <= chunks.len(),
            chunks.len() == before.len(),
            forall|k: int| 0 <= k < i ==> (#[trigger] chunks@[k])@ == aligned(before[k]),
            forall|k: int| i <= k < chunks.len() ==> (#[trigger] chunks@[k])@ == before[k],
            can_align(before),
        decreases chunks.len() - i,
    {
        assert(chunks@[i as int]@ == before[i as int]);
        align_comments(&mut chunks[i]);
        i += 1;
    }
    proof {
        assert(chunk_views(chunks@) =~= aligned_all(before));
    }
}

/// The lines as text, with one line feed between each two neighbours.
pub fn render_lines(lines: &Vec<CodeLine>) -> (s: String)
    ensures
        s@ == join_lines(rendered_all(line_views(lines@))),
{
    let ghost all = rendered_all(line_views(lines@));
    let mut s = String::new();
    let mut i: usize = 0;
    proof {
        assert(all.take(0) =~= Seq::<Seq<char>>::empty());
    }
    while i < lines.len()
        invariant
            i <= lines.len(),
            all == rendered_all(line_views(lines@)),
            s@ == join_lines(all.take(i as int)),
        decreases lines.len() - i,
    {
        if i > 0 {
            s.push('\n');
        }
        let text = lines[i].to_string();
        s.append(text.as_str());
        proof {
            let next = all.take(i + 1);
            assert(next.drop_last() =~= all.take(i as int));
            assert(next.last() == text@);
            if i == 0 {
                assert(s@ =~= text@);
            } else {
                assert(s@ =~= join_lines(all.take(i as int)) + seq!['\n'] + text@);
            }
        }
        i += 1;
    }
    proof {
        assert(all.take(all.len() as int) =~= all);
    }
    s
}

/// The chunks of an unindented section can be aligned where its lines are
/// short enough, and indented after that.
proof fn lemma_chunks_ready(lines: Seq<Line>, dir: Directive)
    requires
        widths_fit(lines),
        forall|j: int| 0 <= j < lines.len() ==> (#[trigger] lines[j]).indent == 0,
    ensures
        can_align(chunks_of(lines, dir)),
        can_indent(aligned_all(chunks_of(lines, dir))),
{
    let chunks = chunks_of(lines, dir);
    lemma_chunks_hold_lines(lines, dir);
    assert forall|i: int| 0 <= i < chunks.len() implies ((#[trigger] chunks[i]) matches Block::Code(
        ls,
    ) ==> widths_fit(ls)) by {
        if let Block::Code(ls) = chunks[i] {
            assert forall|j: int| 0 <= j < ls.len() implies #[trigger] ls[j].width()
                + COMMENT_MARGIN <= usize::MAX by {
                assert(lines.contains(block_lines(chunks[i])[j]));
                let k = choose|k: int| 0 <= k < lines.len() && lines[k] == ls[j];
                assert(lines[k].width() + COMMENT_MARGIN <= usize::MAX);
            }
        }
    }
    let after = aligned_all(chunks);
    assert forall|i: int, j: int|
        0 <= i < after.len() && 0 <= j < block_lines(after[i]).len() implies (
    #[trigger] block_lines(after[i])[j]).indent < usize::MAX by {
        assert(block_lines(after[i]).len() == block_lines(chunks[i]).len());
        assert(lines.contains(block_lines(chunks[i])[j]));
        let k = choose|k: int| 0 <= k < lines.len() && lines[k] == block_lines(chunks[i])[j];
        assert(lines[k].indent == 0);
        assert(block_lines(after[i])[j].indent == block_lines(chunks[i])[j].indent);
    }
}

/// The text `contents` in canonical layout: token spacing normalised,
/// comments aligned chunk by chunk, the bodies of labels indented by one tab,
/// and groups of lines kept apart by single blank lines.
pub fn format(contents: String) -> (res: Result<String, FormatError>)
    ensures
        match res {
            Ok(out) => can_format(contents@) && out@ == format_text(contents@),
            Err(_) => !can_format(contents@),
        },
{
    let chars = chars_of(contents.as_str());
    let raw = split_trimmed(&chars);
    let mut raw_lines: Vec<&str> = Vec::new();
    let mut k: usize = 0;
    while k < raw.len()
        invariant
            k <= raw.len(),
            raw_lines.len() == k,
            forall|j: int| 0 <= j < k ==> (#[trigger] raw_lines@[j])@ == raw@[j]@,
        decreases raw.len() - k,
    {
        raw_lines.push(raw[k].as_str());
        k += 1;
    }
    proof {
        assert(str_views(raw_lines@) =~= trimmed_lines(contents@));
    }
    let sections = parse_sections(&raw_lines);
    let ghost regions = section_views(sections@);
    let mut output_lines: Vec<CodeLine> = Vec::new();
    proof {
        lemma_sections_unindented(trimmed_lines(contents@));
        assert(regions.take(0) =~= Seq::<Region>::empty());
        assert(line_views(output_lines@) =~= Seq::<Line>::empty());
    }
    for section in it: sections
        invariant
            it.seq() == sections@,
            regions == section_views(sections@),
            regions == sections_of(trimmed_lines(contents@)),
            forall|i: int, j: int|
                0 <= i < regions.len() && 0 <= j < regions[i].lines.len() ==> (
                #[trigger] regions[i].lines[j]).indent == 0,
            line_views(output_lines@) == all_lines(regions.take(it.index() as int)),
            forall|i: int|
                0 <= i < it.index() ==> widths_fit(formatted_all((#[trigger] regions[i]).lines)),
    {
        let ghost region = section@;
        proof {
            let next = regions.take(it.index() + 1);
            assert(next.drop_last() =~= regions.take(it.index() as int));
            assert(next.last() == region);
            assert(region == regions[it.index() as int]);
        }
        let Section { dir, dir_line, lines } = section;
        let mut lines = lines;
        let fits = format_lines(&mut lines);
        if !fits {
            return Err(FormatError);
        }
        proof {
            let formatted = formatted_all(region.lines);
            assert forall|j: int| 0 <= j < formatted.len() implies (#[trigger] formatted[j]).indent
                == 0 by {
                assert(regions[it.index() as int].lines[j].indent == 0);
            }
            lemma_chunks_ready(formatted, dir);
        }
        let mut chunks = parse_chunks(lines, &dir);
        align_chunks(&mut chunks);
        match dir {
            Directive::Text => indent_chunks(&mut chunks),
            Directive::Data => {},
        }
        compile_section(&mut output_lines, dir_line, chunks);
    }
    proof {
        assert(regions.take(regions.len() as int) =~= regions);
    }
    Ok(render_lines(&output_lines))
}

} // verus!
