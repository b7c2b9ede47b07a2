//! The chunks of a section: runs of neighbouring lines that play one role.

use crate::line::{line_views, CodeLine, Line};
use vstd::prelude::*;

verus! {

/// The kind of a section.
#[derive(Debug, Clone, Copy, PartialEq, Eq)]
pub enum Directive {
    Text,
    Data,
}

/// A run of neighbouring lines that play one role.
#[derive(Debug, Clone, PartialEq, Eq)]
pub enum Chunk {
    /// One or more blank lines.
    Space,
    /// A `.globl` line.
    GlobDec(CodeLine),
    /// A label in a text section, an `.align` line in a data section.
    Modifier(CodeLine),
    /// Lines of code, each with or without a comment behind it.
    Code(Vec<CodeLine>),
    /// Lines that hold a comment and nothing else.
    Comment(Vec<CodeLine>),
}

/// The mathematical value of a [`Chunk`].
pub enum Block {
    Space,
    GlobDec(Line),
    Modifier(Line),
    Code(Seq<Line>),
    Comment(Seq<Line>),
}

impl View for Chunk {
    type V = Block;

    open spec fn view(&self) -> Block {
        match self {
            Chunk::Space => Block::Space,
            Chunk::GlobDec(l) => Block::GlobDec(l@),
            Chunk::Modifier(l) => Block::Modifier(l@),
            Chunk::Code(ls) => Block::Code(line_views(ls@)),
            Chunk::Comment(ls) => Block::Comment(line_views(ls@)),
        }
    }
}

/// The views of a sequence of chunks.
pub open spec fn chunk_views(chunks: Seq<Chunk>) -> Seq<Block> {
    chunks.map_values(|c: Chunk| c@)
}

/// The lines that a chunk holds.
pub open spec fn block_lines(block: Block) -> Seq<Line> {
    match block {
        Block::Space => Seq::empty(),
        Block::GlobDec(line) => seq![line],
        Block::Modifier(line) => seq![line],
        Block::Code(lines) => lines,
        Block::Comment(lines) => lines,
    }
}

/// The word that opens a global declaration.
pub open spec fn globl_word() -> Seq<char> {
    ".globl"@
}

/// The word that opens an alignment line.
pub open spec fn align_word() -> Seq<char> {
    ".align"@
}

/// The character that closes a label.
pub open spec fn label_end() -> Seq<char> {
    ":"@
}

/// Whether `line` stands alone as a modifier in a section of kind `dir`: an
/// alignment line in a data section, a label in a text section.
pub open spec fn is_modifier(dir: Directive, line: Line) -> bool {
    match dir {
        Directive::Data => line.starts_with(align_word()),
        Directive::Text => line.ends_with(label_end()),
    }
}

/// The chunks after one more line. `chunks` is never empty: its last chunk is
/// the one that `line` may join.
pub open spec fn chunk_step(chunks: Seq<Block>, dir: Directive, line: Line) -> Seq<Block> {
    let last = chunks.len() - 1;
    if line.is_blank() {
        if chunks.last() is Space {
            chunks
        } else {
            chunks.push(Block::Space)
        }
    } else if line.starts_with(globl_word()) {
        chunks.push(Block::GlobDec(line))
    } else if line.is_comment_only() {
        match chunks.last() {
            Block::Comment(cur) => chunks.update(last, Block::Comment(cur.push(line))),
            _ => chunks.push(Block::Comment(seq![line])),
        }
    } else if is_modifier(dir, line) {
        chunks.push(Block::Modifier(line))
    } else {
        match chunks.last() {
            Block::Code(cur) => chunks.update(last, Block::Code(cur.push(line))),
            _ => chunks.push(Block::Code(seq![line])),
        }
    }
}

/// The chunks of the lines of a section of kind `dir`. The first chunk is
/// always a `Space`: a section starts as if a blank line had come before it.
pub open spec fn chunks_of(lines: Seq<Line>, dir: Directive) -> Seq<Block>
    decreases lines.len(),
{
    if lines.len() == 0 {
        seq![Block::Space]
    } else {
        chunk_step(chunks_of(lines.drop_last(), dir), dir, lines.last())
    }
}

/// Whether `line` is a line of code in a section of kind `dir`: it is not
/// blank, no global declaration, no mere comment and no modifier.
pub open spec fn is_code_line(dir: Directive, line: Line) -> bool {
    &&& !line.is_blank()
    &&& !line.starts_with(globl_word())
    &&& !line.is_comment_only()
    &&& !is_modifier(dir, line)
}

/// Whether `block` holds the lines that belong in a chunk of its kind, and at
/// least one where it is a code or a comment chunk.
pub open spec fn block_ok(dir: Directive, block: Block) -> bool {
    match block {
        Block::Space => true,
        Block::GlobDec(line) => !line.is_blank() && line.starts_with(globl_word()),
        Block::Modifier(line) => {
            &&& !line.is_blank()
            &&& !line.starts_with(globl_word())
            &&& !line.is_comment_only()
            &&& is_modifier(dir, line)
        },
        Block::Code(lines) => lines.len() > 0 && forall|j: int|
            0 <= j < lines.len() ==> is_code_line(dir, #[trigger] lines[j]),
        Block::Comment(lines) => lines.len() > 0 && forall|j: int|
            0 <= j < lines.len() ==> (#[trigger] lines[j]).is_comment_only(),
    }
}

/// Whether two chunks can be neighbours: not two blank chunks, not two code
/// chunks, not two comment chunks.
pub open spec fn can_follow(left: Block, right: Block) -> bool {
    &&& !(left is Space && right is Space)
    &&& !(left is Code && right is Code)
    &&& !(left is Comment && right is Comment)
}

/// Whether `chunks` are as `chunks_of` makes them: a blank chunk first, every
/// chunk with the lines that belong in it, and no two neighbours that would
/// have been one chunk.
pub open spec fn chunks_ok(dir: Directive, chunks: Seq<Block>) -> bool {
    &&& chunks.len() > 0
    &&& chunks[0] is Space
    &&& forall|i: int| 0 <= i < chunks.len() ==> block_ok(dir, #[trigger] chunks[i])
    &&& forall|i: int| 0 < i < chunks.len() ==> can_follow(chunks[i - 1], #[trigger] chunks[i])
}

/// What `chunks_of` makes is well formed, whatever the lines.
pub proof fn lemma_chunks_of_ok(lines: Seq<Line>, dir: Directive)
    ensures
        chunks_ok(dir, chunks_of(lines, dir)),
    decreases lines.len(),
{
    let chunks = chunks_of(lines, dir);
    if lines.len() > 0 {
        let before = chunks_of(lines.drop_last(), dir);
        let line = lines.last();
        lemma_chunks_of_ok(lines.drop_last(), dir);
        let last = before.len() - 1;
        assert(block_ok(dir, before[last]));
        assert forall|i: int| 0 <= i < chunks.len() implies block_ok(dir, #[trigger] chunks[i]) by {
            if i < last {
                assert(chunks[i] == before[i]);
                assert(block_ok(dir, before[i]));
            } else if i == last && chunks[i] != before[i] {
                match before[last] {
                    Block::Comment(cur) => {
                        let grown = cur.push(line);
                        assert forall|j: int| 0 <= j < grown.len() implies (
                        #[trigger] grown[j]).is_comment_only() by {
                            if j < cur.len() {
                                assert(cur[j].is_comment_only());
                            }
                        }
                    },
                    Block::Code(cur) => {
                        let grown = cur.push(line);
                        assert forall|j: int| 0 <= j < grown.len() implies is_code_line(
                            dir,
                            #[trigger] grown[j],
                        ) by {
                            if j < cur.len() {
                                assert(is_code_line(dir, cur[j]));
                            }
                        }
                    },
                    _ => {},
                }
            } else {
            }
        }
        assert forall|i: int| 0 < i < chunks.len() implies can_follow(
            chunks[i - 1],
            #[trigger] chunks[i],
        ) by {
            if i < last {
                assert(can_follow(before[i - 1], before[i]));
            } else if i == last {
                assert(can_follow(before[i - 1], before[i]));
            } else {
            }
        }
    }
}

/// There is always a first chunk.
pub proof fn lemma_chunks_of_nonempty(lines: Seq<Line>, dir: Directive)
    ensures
        chunks_of(lines, dir).len() > 0,
        chunks_of(lines, dir)[0] is Space,
    decreases lines.len(),
{
    if lines.len() > 0 {
        lemma_chunks_of_nonempty(lines.drop_last(), dir);
    }
}

/// Every line of every chunk is one of the lines that the chunks were made
/// of.
pub proof fn lemma_chunks_hold_lines(lines: Seq<Line>, dir: Directive)
    ensures
        forall|i: int, j: int|
            0 <= i < chunks_of(lines, dir).len() && 0 <= j < block_lines(
                chunks_of(lines, dir)[i],
            ).len() ==> lines.contains(#[trigger] block_lines(chunks_of(lines, dir)[i])[j]),
    decreases lines.len(),
{
    let chunks = chunks_of(lines, dir);
    if lines.len() > 0 {
        let rest = lines.drop_last();
        let line = lines.last();
        let before = chunks_of(rest, dir);
        lemma_chunks_hold_lines(rest, dir);
        lemma_chunks_of_nonempty(rest, dir);
        let last = before.len() - 1;
        assert forall|i: int, j: int|
            0 <= i < chunks.len() && 0 <= j < block_lines(chunks[i]).len() implies lines.contains(
            #[trigger] block_lines(chunks[i])[j],
        ) by {
            let x = block_lines(chunks[i])[j];
            if i < before.len() && chunks[i] == before[i] {
                assert(rest.contains(block_lines(before[i])[j]));
                let k = choose|k: int| 0 <= k < rest.len() && rest[k] == x;
                assert(lines[k] == x);
            } else if i == last && j < block_lines(before[i]).len() {
                assert(x == block_lines(before[i])[j]);
                assert(rest.contains(block_lines(before[i])[j]));
                let k = choose|k: int| 0 <= k < rest.len() && rest[k] == x;
                assert(lines[k] == x);
            } else {
                assert(x == line);
                assert(lines[lines.len() - 1] == x);
            }
        }
    }
}

/// The chunks of the lines of a section of kind `dir`.
pub fn parse_chunks(lines: Vec<CodeLine>, dir: &Directive) -> (chunks: Vec<Chunk>)
    ensures
        chunk_views(chunks@) == chunks_of(line_views(lines@), *dir),
{
    let mut chunks: Vec<Chunk> = Vec::new();
    chunks.push(Chunk::Space);
    let ghost all = line_views(lines@);
    proof {
        assert(all.take(0) =~= Seq::<Line>::empty());
        assert(chunk_views(chunks@) =~= seq![Block::Space]);
    }
    for line in it: lines
        invariant
            it.seq() == lines@,
            all == line_views(lines@),
            chunks.len() > 0,
            chunk_views(chunks@) == chunks_of(all.take(it.index() as int), *dir),
    {
        let ghost before = chunk_views(chunks@);
        let ghost l = line@;
        proof {
            let next = all.take(it.index() + 1);
            assert(next.drop_last() =~= all.take(it.index() as int));
            assert(next.last() == l);
        }
        let last = chunks.len() - 1;
        let ghost old_chunks = chunks@;
        if line.is_empty() {
            let after_space = match &chunks[last] {
                Chunk::Space => true,
                _ => false,
            };
            if !after_space {
                chunks.push(Chunk::Space);
            }
        } else if line.starts_with(".globl") {
            chunks.push(Chunk::GlobDec(line));
        } else if line.is_comment_only() {
            match &mut chunks[last] {
                Chunk::Comment(cur) => {
                    let ghost old_cur = cur@;
                    cur.push(line);
                    proof {
                        assert(line_views(cur@) =~= line_views(old_cur).push(l));
                    }
                },
                _ => {
                    let mut cur: Vec<CodeLine> = Vec::new();
                    cur.push(line);
                    proof {
                        assert(line_views(cur@) =~= seq![l]);
                    }
                    chunks.push(Chunk::Comment(cur));
                },
            }
        } else if is_modifier_line(dir, &line) {
            chunks.push(Chunk::Modifier(line));
        } else {
            match &mut chunks[last] {
                Chunk::Code(cur) => {
                    let ghost old_cur = cur@;
                    cur.push(line);
                    proof {
                        assert(line_views(cur@) =~= line_views(old_cur).push(l));
                    }
                },
                _ => {
                    let mut cur: Vec<CodeLine> = Vec::new();
                    cur.push(line);
                    proof {
                        assert(line_views(cur@) =~= seq![l]);
                    }
                    chunks.push(Chunk::Code(cur));
                },
            }
        }
        proof {
            let step = chunk_step(before, *dir, l);
            assert(before.last() == old_chunks[last as int]@);
            assert(chunk_views(chunks@).len() == step.len());
            assert forall|k: int| 0 <= k < step.len() implies chunk_views(chunks@)[k] == step[k] by {
                if k < last {
                    assert(chunks@[k] == old_chunks[k]);
                    assert(step[k] == before[k]);
                }
            }
            assert(chunk_views(chunks@) =~= step);
        }
    }
    proof {
        assert(all.take(all.len() as int) =~= all);
    }
    chunks
}

/// Whether `line` stands alone as a modifier in a section of kind `dir`.
pub fn is_modifier_line(dir: &Directive, line: &CodeLine) -> (b: bool)
    ensures
        b == is_modifier(*dir, line@),
{
    match dir {
        Directive::Data => line.starts_with(".align"),
        Directive::Text => line.ends_with(":"),
    }
}

} // verus!
