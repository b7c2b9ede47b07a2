//! Indentation of the bodies of labels in a text section.

use crate::chunk::{block_lines, chunk_views, Block, Chunk};
use crate::line::{line_views, CodeLine, Line};
use vstd::prelude::*;

verus! {

/// The index of the first modifier among `chunks`, or their number where
/// there is none.
pub open spec fn first_modifier(chunks: Seq<Block>) -> int
    decreases chunks.len(),
{
    if chunks.len() == 0 {
        0
    } else if chunks[0] is Modifier {
        0
    } else {
        1 + first_modifier(chunks.drop_first())
    }
}

/// Whether code follows chunk `i` before the next modifier does.
pub open spec fn in_scope(chunks: Seq<Block>, i: int) -> bool {
    exists|j: int|
        i < j < chunks.len() && #[trigger] chunks[j] is Code && forall|k: int|
            i < k < j ==> !(#[trigger] chunks[k] is Modifier)
}

/// Whether chunk `i` is moved one level deeper: it stands behind the first
/// modifier and is code, or is a comment block that code follows before the
/// next modifier does.
pub open spec fn is_indented(chunks: Seq<Block>, i: int) -> bool {
    &&& first_modifier(chunks) < i < chunks.len()
    &&& chunks[i] is Code || (chunks[i] is Comment && in_scope(chunks, i))
}

/// Each of `lines` one level deeper.
pub open spec fn indent_lines(lines: Seq<Line>) -> Seq<Line> {
    lines.map_values(|l: Line| l.indented())
}

/// The lines of a code or comment chunk one level deeper; any other chunk as
/// it is.
pub open spec fn indent_block(block: Block) -> Block {
    match block {
        Block::Code(lines) => Block::Code(indent_lines(lines)),
        Block::Comment(lines) => Block::Comment(indent_lines(lines)),
        _ => block,
    }
}

/// The chunks of a text section with the bodies of its labels one level
/// deeper.
pub open spec fn indented(chunks: Seq<Block>) -> Seq<Block> {
    Seq::new(
        chunks.len(),
        |i: int|
            if is_indented(chunks, i) {
                indent_block(chunks[i])
            } else {
                chunks[i]
            },
    )
}

/// Whether every line of `chunks` can go one level deeper in a machine word.
pub open spec fn can_indent(chunks: Seq<Block>) -> bool {
    forall|i: int, j: int|
        0 <= i < chunks.len() && 0 <= j < block_lines(chunks[i]).len() ==> (
        #[trigger] block_lines(chunks[i])[j]).indent < usize::MAX
}

/// `first_modifier` is the least index that holds a modifier.
pub proof fn lemma_first_modifier(chunks: Seq<Block>)
    ensures
        0 <= first_modifier(chunks) <= chunks.len(),
        first_modifier(chunks) < chunks.len() ==> chunks[first_modifier(chunks)] is Modifier,
        forall|j: int| 0 <= j < first_modifier(chunks) ==> !(#[trigger] chunks[j] is Modifier),
    decreases chunks.len(),
{
    if chunks.len() > 0 && !(chunks[0] is Modifier) {
        let rest = chunks.drop_first();
        lemma_first_modifier(rest);
        assert forall|j: int| 0 <= j < first_modifier(chunks) implies !(
        #[trigger] chunks[j] is Modifier) by {
            if j > 0 {
                assert(chunks[j] == rest[j - 1]);
            }
        }
    }
}

/// Any index that no modifier precedes, and that either holds one or is the
/// end, is `first_modifier`.
pub proof fn lemma_first_modifier_unique(chunks: Seq<Block>, i: int)
    requires
        0 <= i <= chunks.len(),
        i < chunks.len() ==> chunks[i] is Modifier,
        forall|j: int| 0 <= j < i ==> !(#[trigger] chunks[j] is Modifier),
    ensures
        first_modifier(chunks) == i,
{
    lemma_first_modifier(chunks);
    let f = first_modifier(chunks);
    if f < i {
        assert(!(chunks[f] is Modifier));
    }
}

/// Walking backwards: whether code follows chunk `i - 1` before the next
/// modifier is settled by chunk `i` where that is a modifier or code, and is
/// otherwise what it is for chunk `i`.
pub proof fn lemma_scope_step(chunks: Seq<Block>, i: int)
    requires
        0 <= i < chunks.len(),
    ensures
        in_scope(chunks, i - 1) == match chunks[i] {
            Block::Modifier(_) => false,
            Block::Code(_) => true,
            _ => in_scope(chunks, i),
        },
{
    match chunks[i] {
        Block::Modifier(_) => {
            if in_scope(chunks, i - 1) {
                let j = choose|j: int|
                    i - 1 < j < chunks.len() && #[trigger] chunks[j] is Code && forall|k: int|
                        i - 1 < k < j ==> !(#[trigger] chunks[k] is Modifier);
                assert(!(chunks[i] is Modifier));
            }
        },
        Block::Code(_) => {
            assert(chunks[i] is Code);
        },
        _ => {
            if in_scope(chunks, i - 1) {
                let j = choose|j: int|
                    i - 1 < j < chunks.len() && #[trigger] chunks[j] is Code && forall|k: int|
                        i - 1 < k < j ==> !(#[trigger] chunks[k] is Modifier);
                assert(chunks[j] is Code);
                assert(in_scope(chunks, i));
            }
            if in_scope(chunks, i) {
                let j = choose|j: int|
                    i < j < chunks.len() && #[trigger] chunks[j] is Code && forall|k: int|
                        i < k < j ==> !(#[trigger] chunks[k] is Modifier);
                assert(chunks[j] is Code);
                assert(in_scope(chunks, i - 1));
            }
        },
    }
}

/// The indentation of a text section, chunk by chunk. Code behind the first
/// label goes one level deeper. So does a comment block behind the first
/// label that code follows before the next label. Everything else stays where
/// it is: the labels themselves, what stands before the first label, blank
/// chunks, global declarations, and a comment block that leads up to the next
/// label or to the end of the section.
pub proof fn lemma_label_body_indentation(chunks: Seq<Block>, i: int)
    requires
        0 <= i < chunks.len(),
    ensures
        indented(chunks).len() == chunks.len(),
        first_modifier(chunks) < i && chunks[i] is Code ==> indented(chunks)[i] == indent_block(
            chunks[i],
        ),
        first_modifier(chunks) < i && chunks[i] is Comment && in_scope(chunks, i) ==> indented(
            chunks,
        )[i] == indent_block(chunks[i]),
        chunks[i] is Comment && !in_scope(chunks, i) ==> indented(chunks)[i] == chunks[i],
        i <= first_modifier(chunks) ==> indented(chunks)[i] == chunks[i],
        chunks[i] is Modifier || chunks[i] is Space || chunks[i] is GlobDec ==> indented(chunks)[i]
            == chunks[i],
        forall|j: int|
            0 <= j < block_lines(chunks[i]).len() ==> {
                let before = #[trigger] block_lines(chunks[i])[j];
                let after = block_lines(indented(chunks)[i])[j];
                &&& block_lines(indented(chunks)[i]).len() == block_lines(chunks[i]).len()
                &&& after.code == before.code
                &&& after.comment == before.comment
                &&& after.gap == before.gap
                &&& after.indent == if is_indented(chunks, i) {
                    before.indent + 1
                } else {
                    before.indent
                }
            },
{
}

/// Moves each of `lines` one level deeper.
pub fn indent_all(lines: &mut Vec<CodeLine>)
    requires
        forall|j: int| 0 <= j < old(lines).len() ==> (#[trigger] old(lines)@[j]).indent < usize::MAX,
    ensures
        line_views(final(lines)@) == indent_lines(line_views(old(lines)@)),
{
    let ghost before = line_views(lines@);
    let mut i: usize = 0;
    while i < lines.len()
        invariant
            i <= lines.len(),
            lines.len() == before.len(),
            forall|k: int| 0 <= k < i ==> (#[trigger] lines@[k])@ == before[k].indented(),
            forall|k: int| i <= k < lines.len() ==> (#[trigger] lines@[k])@ == before[k],
            forall|k: int| 0 <= k < before.len() ==> (#[trigger] before[k]).indent < usize::MAX,
        decreases lines.len() - i,
    {
        assert(lines@[i as int]@ == before[i as int]);
        lines[i].indent();
        i += 1;
    }
    proof {
        assert(line_views(lines@) =~= indent_lines(before));
    }
}

/// Moves the bodies of the labels of a text section one level deeper.
pub fn indent_chunks(chunks: &mut Vec<Chunk>)
    requires
        can_indent(chunk_views(old(chunks)@)),
    ensures
        chunk_views(final(chunks)@) == indented(chunk_views(old(chunks)@)),
{
    let ghost orig = chunk_views(chunks@);
    let n = chunks.len();
    let mut first: usize = 0;
    while first < n && !is_modifier_chunk(&chunks[first])
        invariant
            first <= n == chunks.len(),
            orig == chunk_views(chunks@),
            forall|j: int| 0 <= j < first ==> !(#[trigger] orig[j] is Modifier),
        decreases n - first,
    {
        first += 1;
    }
    proof {
        lemma_first_modifier_unique(orig, first as int);
    }
    if first < n {
        let mut should_indent = false;
        let mut i: usize = n;
        while i > first + 1
            invariant
                first < i <= n == chunks.len(),
                orig.len() == n,
                first == first_modifier(orig),
                can_indent(orig),
                should_indent == in_scope(orig, i - 1),
                forall|k: int| 0 <= k < i ==> (#[trigger] chunks@[k])@ == orig[k],
                forall|k: int| i <= k < n ==> (#[trigger] chunks@[k])@ == indented(orig)[k],
            decreases i,
        {
            i -= 1;
            proof {
                lemma_scope_step(orig, i as int);
                assert(chunks@[i as int]@ == orig[i as int]);
            }
            match &mut chunks[i] {
                Chunk::Modifier(_) => {
                    should_indent = false;
                },
                Chunk::Code(lines) => {
                    should_indent = true;
                    proof {
                        assert forall|j: int| 0 <= j < lines.len() implies (
                        #[trigger] lines@[j]).indent < usize::MAX by {
                            assert(block_lines(orig[i as int])[j] == lines@[j]@);
                        }
                    }
                    indent_all(lines);
                },
                Chunk::Comment(lines) => {
                    if should_indent {
                        proof {
                            assert forall|j: int| 0 <= j < lines.len() implies (
                            #[trigger] lines@[j]).indent < usize::MAX by {
                                assert(block_lines(orig[i as int])[j] == lines@[j]@);
                            }
                        }
                        indent_all(lines);
                    }
                },
                _ => {},
            }
        }
        proof {
            assert forall|k: int| 0 <= k < n implies chunk_views(chunks@)[k] == indented(orig)[k] by {
                if k < i {
                    assert(chunks@[k]@ == orig[k]);
                }
            }
        }
    }
    proof {
        assert(chunk_views(chunks@) =~= indented(orig));
    }
}

/// Whether `chunk` is a modifier.
pub fn is_modifier_chunk(chunk: &Chunk) -> (b: bool)
    ensures
        b == (chunk@ is Modifier),
{
    match chunk {
        Chunk::Modifier(_) => true,
        _ => false,
    }
}

} // verus!
