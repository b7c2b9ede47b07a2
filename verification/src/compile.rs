//! Writing the chunks of a section back as lines, with one blank line
//! wherever two groups are to be kept apart.

use crate::chunk::{chunk_views, Block, Chunk};
use crate::line::{blank_line, line_views, CodeLine, Line};
use vstd::prelude::*;

verus! {

/// What was written last.
#[derive(Debug, Clone, Copy, PartialEq, Eq)]
pub enum CompileState {
    /// Nothing yet, or a blank line.
    Free,
    /// A comment block.
    AfterComment,
    /// A modifier line.
    AfterModifier,
}

/// The lines written for a run of chunks, and what was written last.
pub struct Compiled {
    pub lines: Seq<Line>,
    pub state: CompileState,
}

/// The lines that `block` adds when it comes in state `state`.
pub open spec fn emitted(state: CompileState, block: Block) -> Seq<Line> {
    match block {
        Block::GlobDec(line) => if state is Free {
            seq![line, blank_line()]
        } else {
            seq![blank_line(), line, blank_line()]
        },
        Block::Code(lines) => lines.push(blank_line()),
        Block::Comment(lines) => lines,
        Block::Modifier(line) => seq![line],
        Block::Space => if state is AfterComment {
            seq![blank_line()]
        } else {
            Seq::empty()
        },
    }
}

/// The state after `block` has come in state `state`.
pub open spec fn next_state(state: CompileState, block: Block) -> CompileState {
    match block {
        Block::GlobDec(_) => CompileState::Free,
        Block::Code(_) => CompileState::Free,
        Block::Comment(_) => CompileState::AfterComment,
        Block::Modifier(_) => CompileState::AfterModifier,
        Block::Space => if state is AfterComment {
            CompileState::Free
        } else {
            state
        },
    }
}

/// The lines written for `chunks`, started in state `Free`.
pub open spec fn compile_chunks(chunks: Seq<Block>) -> Compiled
    decreases chunks.len(),
{
    if chunks.len() == 0 {
        Compiled { lines: Seq::empty(), state: CompileState::Free }
    } else {
        let before = compile_chunks(chunks.drop_last());
        Compiled {
            lines: before.lines + emitted(before.state, chunks.last()),
            state: next_state(before.state, chunks.last()),
        }
    }
}

/// The two lines that open a section with a directive: the directive and a
/// blank line. A section without a directive opens with nothing.
pub open spec fn section_head(dir_line: Option<Line>) -> Seq<Line> {
    match dir_line {
        Some(line) => seq![line, blank_line()],
        None => Seq::empty(),
    }
}

/// The blank line that closes a section which did not end on one.
pub open spec fn section_tail(state: CompileState) -> Seq<Line> {
    if state is Free {
        Seq::empty()
    } else {
        seq![blank_line()]
    }
}

/// The lines of a whole section: its head, its chunks, its tail.
pub open spec fn compiled(dir_line: Option<Line>, chunks: Seq<Block>) -> Seq<Line> {
    let body = compile_chunks(chunks);
    section_head(dir_line) + body.lines + section_tail(body.state)
}

/// The view of an optional line.
pub open spec fn opt_line(line: Option<CodeLine>) -> Option<Line> {
    match line {
        Some(l) => Some(l@),
        None => None,
    }
}

/// Appends the lines of one section to `lines`.
pub fn compile_section(lines: &mut Vec<CodeLine>, dir_line: Option<CodeLine>, chunks: Vec<Chunk>)
    ensures
        line_views(final(lines)@) == line_views(old(lines)@) + compiled(
            opt_line(dir_line),
            chunk_views(chunks@),
        ),
{
    let ghost start = line_views(lines@);
    let ghost head = section_head(opt_line(dir_line));
    let ghost blocks = chunk_views(chunks@);
    if let Some(dir_line) = dir_line {
        lines.push(dir_line);
        lines.push(CodeLine::default());
    }
    let mut state = CompileState::Free;
    proof {
        assert(line_views(lines@) =~= start + head);
        assert(blocks.take(0) =~= Seq::<Block>::empty());
        assert(line_views(lines@) =~= start + head + compile_chunks(blocks.take(0)).lines);
    }
    for block in it: chunks
        invariant
            it.seq() == chunks@,
            blocks == chunk_views(chunks@),
            line_views(lines@) == start + head + compile_chunks(
                blocks.take(it.index() as int),
            ).lines,
            state == compile_chunks(blocks.take(it.index() as int)).state,
    {
        let ghost before = line_views(lines@);
        let ghost b = block@;
        proof {
            let next = blocks.take(it.index() + 1);
            assert(next.drop_last() =~= blocks.take(it.index() as int));
            assert(next.last() == b);
        }
        state = match (state, block) {
            (CompileState::Free, Chunk::GlobDec(line)) => {
                lines.push(line);
                lines.push(CodeLine::default());
                CompileState::Free
            },
            (_, Chunk::GlobDec(line)) => {
                lines.push(CodeLine::default());
                lines.push(line);
                lines.push(CodeLine::default());
                CompileState::Free
            },
            (_, Chunk::Code(code)) => {
                let mut code = code;
                lines.append(&mut code);
                lines.push(CodeLine::default());
                CompileState::Free
            },
            (_, Chunk::Comment(comments)) => {
                let mut comments = comments;
                lines.append(&mut comments);
                CompileState::AfterComment
            },
            (_, Chunk::Modifier(line)) => {
                lines.push(line);
                CompileState::AfterModifier
            },
            (CompileState::AfterComment, Chunk::Space) => {
                lines.push(CodeLine::default());
                CompileState::Free
            },
            (state, Chunk::Space) => state,
        };
        proof {
            let prev = compile_chunks(blocks.take(it.index() as int));
            assert(line_views(lines@) =~= before + emitted(prev.state, b));
        }
    }
    proof {
        assert(blocks.take(blocks.len() as int) =~= blocks);
    }
    let ghost body = line_views(lines@);
    match state {
        CompileState::Free => {},
        _ => lines.push(CodeLine::default()),
    }
    proof {
        assert(line_views(lines@) =~= body + section_tail(state));
    }
}

} // verus!
