//! The column in which the comments of one code chunk begin.

use crate::chunk::{Block, Chunk};
use crate::line::{line_views, CodeLine, Line};
use vstd::prelude::*;

verus! {

/// How much longer than every commented line an uncommented line has to be
/// for the comments to be set by the commented lines alone.
pub const MAX_COMMENT_DISPARITY: usize = 10;

/// The number of spaces between the longest line that counts and the `#`.
pub const COMMENT_MARGIN: usize = 2;

/// The greater of two numbers.
pub open spec fn larger(a: nat, b: nat) -> nat {
    if a >= b {
        a
    } else {
        b
    }
}

/// The greatest code width among `lines`, 0 where there is no line.
pub open spec fn max_width(lines: Seq<Line>) -> nat
    decreases lines.len(),
{
    if lines.len() == 0 {
        0
    } else {
        larger(max_width(lines.drop_last()), lines.last().width())
    }
}

/// The greatest code width among those of `lines` that carry a comment, 0
/// where none does.
pub open spec fn max_commented_width(lines: Seq<Line>) -> nat
    decreases lines.len(),
{
    if lines.len() == 0 {
        0
    } else if lines.last().comment is Some {
        larger(max_commented_width(lines.drop_last()), lines.last().width())
    } else {
        max_commented_width(lines.drop_last())
    }
}

/// The column of the `#` in a code chunk: two behind the longest line, or,
/// where some uncommented line is longer than every commented one by the
/// disparity or more, two behind the longest commented line.
pub open spec fn comment_column(lines: Seq<Line>) -> nat {
    let all = max_width(lines);
    let commented = max_commented_width(lines);
    if all - commented >= MAX_COMMENT_DISPARITY {
        commented + COMMENT_MARGIN as nat
    } else {
        all + COMMENT_MARGIN as nat
    }
}

/// Whether the column of every code chunk made of `lines` can be computed in
/// a machine word.
pub open spec fn widths_fit(lines: Seq<Line>) -> bool {
    forall|i: int| 0 <= i < lines.len() ==> #[trigger] lines[i].width() + COMMENT_MARGIN
        <= usize::MAX
}

/// Whether the column of every code chunk among `chunks` can be computed in a
/// machine word.
pub open spec fn can_align(chunks: Seq<Block>) -> bool {
    forall|i: int|
        0 <= i < chunks.len() ==> ((#[trigger] chunks[i]) matches Block::Code(lines)
            ==> widths_fit(lines))
}

/// `line` with the gap that puts its `#` in column `column`; a line without
/// a comment is left as it is.
pub open spec fn align_line(line: Line, column: nat) -> Line {
    if line.comment is Some {
        line.with_gap(column)
    } else {
        line
    }
}

/// `block` with the comments of its lines in one column, where it is a code
/// chunk; any other chunk as it is.
pub open spec fn aligned(block: Block) -> Block {
    match block {
        Block::Code(lines) => Block::Code(
            lines.map_values(|l: Line| align_line(l, comment_column(lines))),
        ),
        _ => block,
    }
}

/// The two maxima bound the widths they are taken over, the commented one
/// is the smaller, and each is the width of some line unless it is 0.
pub proof fn lemma_max_width(lines: Seq<Line>)
    ensures
        forall|i: int| 0 <= i < lines.len() ==> #[trigger] lines[i].width() <= max_width(lines),
        forall|i: int|
            0 <= i < lines.len() && lines[i].comment is Some ==> #[trigger] lines[i].width()
                <= max_commented_width(lines),
        max_commented_width(lines) <= max_width(lines),
        max_width(lines) > 0 ==> exists|i: int|
            0 <= i < lines.len() && #[trigger] lines[i].width() == max_width(lines),
        max_commented_width(lines) > 0 ==> exists|i: int|
            0 <= i < lines.len() && lines[i].comment is Some && #[trigger] lines[i].width()
                == max_commented_width(lines),
    decreases lines.len(),
{
    if lines.len() > 0 {
        let rest = lines.drop_last();
        let n = lines.len() - 1;
        lemma_max_width(rest);
        assert forall|i: int| 0 <= i < lines.len() implies #[trigger] lines[i].width()
            <= max_width(lines) by {
            if i < n {
                assert(rest[i] == lines[i]);
            }
        }
        assert forall|i: int|
            0 <= i < lines.len() && lines[i].comment is Some implies #[trigger] lines[i].width()
            <= max_commented_width(lines) by {
            if i < n {
                assert(rest[i] == lines[i]);
            }
        }
        if max_width(lines) > 0 {
            if max_width(lines) == lines[n].width() {
            } else {
                let i = choose|i: int|
                    0 <= i < rest.len() && #[trigger] rest[i].width() == max_width(rest);
                assert(lines[i] == rest[i]);
            }
        }
        if max_commented_width(lines) > 0 {
            if lines[n].comment is Some && max_commented_width(lines) == lines[n].width() {
            } else {
                let i = choose|i: int|
                    0 <= i < rest.len() && rest[i].comment is Some && #[trigger] rest[i].width()
                        == max_commented_width(rest);
                assert(lines[i] == rest[i]);
            }
        }
    }
}

/// Within one code chunk every comment begins in the same column, the one
/// that `comment_column` gives, and at least two spaces behind its own code.
pub proof fn lemma_comments_share_a_column(lines: Seq<Line>, i: int)
    requires
        0 <= i < lines.len(),
        lines[i].comment is Some,
    ensures
        aligned(Block::Code(lines)) matches Block::Code(out) && out.len() == lines.len() && (
        out[i].gap matches Some(g) && lines[i].width() + g == comment_column(lines) && g
            >= COMMENT_MARGIN),
        aligned(Block::Code(lines)) matches Block::Code(out) && out[i].code == lines[i].code
            && out[i].comment == lines[i].comment && out[i].indent == lines[i].indent,
{
    lemma_max_width(lines);
}

/// The column in which the comments of `lines` begin.
pub fn calc_hash_index(lines: &Vec<CodeLine>) -> (column: usize)
    requires
        widths_fit(line_views(lines@)),
    ensures
        column == comment_column(line_views(lines@)),
{
    let ghost all = line_views(lines@);
    let mut max_length_all: usize = 0;
    let mut max_length_comments: usize = 0;
    let mut i: usize = 0;
    proof {
        assert(all.take(0) =~= Seq::<Line>::empty());
    }
    while i < lines.len()
        invariant
            i <= lines.len(),
            all == line_views(lines@),
            max_length_all == max_width(all.take(i as int)),
            max_length_comments == max_commented_width(all.take(i as int)),
        decreases lines.len() - i,
    {
        proof {
            let next = all.take(i + 1);
            assert(next.drop_last() =~= all.take(i as int));
            assert(next.last() == lines@[i as int]@);
        }
        let w = lines[i].code_w();
        if w > max_length_all {
            max_length_all = w;
        }
        if lines[i].comment.is_some() && w > max_length_comments {
            max_length_comments = w;
        }
        i += 1;
    }
    proof {
        assert(all.take(all.len() as int) =~= all);
        lemma_max_width(all);
        if max_width(all) > 0 {
            let k = choose|k: int| 0 <= k < all.len() && #[trigger] all[k].width() == max_width(all);
            assert(all[k].width() + COMMENT_MARGIN <= usize::MAX);
        }
    }
    if max_length_all - max_length_comments >= MAX_COMMENT_DISPARITY {
        max_length_comments + COMMENT_MARGIN
    } else {
        max_length_all + COMMENT_MARGIN
    }
}

/// Puts the comments of a code chunk in one column; leaves any other chunk
/// as it is.
pub fn align_comments(chunk: &mut Chunk)
    requires
        old(chunk)@ matches Block::Code(lines) ==> widths_fit(lines),
    ensures
        final(chunk)@ == aligned(old(chunk)@),
{
    if let Chunk::Code(lines) = chunk {
        let ghost before = line_views(lines@);
        let comment_index = calc_hash_index(lines);
        let mut i: usize = 0;
        while i < lines.len()
            invariant
                i <= lines.len(),
                lines.len() == before.len(),
                comment_index == comment_column(before),
                forall|k: int|
                    0 <= k < i ==> (#[trigger] lines@[k])@ == align_line(before[k], comment_index as nat),
                forall|k: int| i <= k < lines.len() ==> (#[trigger] lines@[k])@ == before[k],
            decreases lines.len() - i,
        {
            if lines[i].comment.is_some() {
                lines[i].set_hash_index(comment_index);
            }
            i += 1;
        }
        proof {
            assert(line_views(lines@) =~= before.map_values(
                |l: Line| align_line(l, comment_column(before)),
            ));
        }
    }
}

} // verus!
