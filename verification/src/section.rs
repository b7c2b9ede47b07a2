//! The sections of a file: the lines from one `.text` or `.data` directive to
//! the next.

use crate::chunk::Directive;
use crate::compile::opt_line;
use crate::line::{line_views, parse_line, split_line, CodeLine, Line, Split, SplitLine};
use crate::text::{str_starts_with, str_views};
use vstd::prelude::*;

verus! {

/// The lines from one section directive to the next.
#[derive(Debug, Clone, PartialEq, Eq)]
pub struct Section {
    pub dir: Directive,
    /// The line of the directive; `None` for what stands before the first
    /// directive of a file.
    pub dir_line: Option<CodeLine>,
    pub lines: Vec<CodeLine>,
}

/// The mathematical value of a [`Section`].
pub struct Region {
    pub dir: Directive,
    pub dir_line: Option<Line>,
    pub lines: Seq<Line>,
}

impl View for Section {
    type V = Region;

    open spec fn view(&self) -> Region {
        Region { dir: self.dir, dir_line: opt_line(self.dir_line), lines: line_views(self.lines@) }
    }
}

/// The views of a sequence of sections.
pub open spec fn section_views(sections: Seq<Section>) -> Seq<Region> {
    sections.map_values(|s: Section| s@)
}

/// The word that opens a text section.
pub open spec fn text_word() -> Seq<char> {
    ".text"@
}

/// The word that opens a data section.
pub open spec fn data_word() -> Seq<char> {
    ".data"@
}

/// The section that the directive line `line` opens, still without lines. An
/// empty `line` stands for no directive.
pub open spec fn new_region(line: Seq<char>, dir: Directive) -> Region {
    Region {
        dir,
        dir_line: if line.len() == 0 {
            None
        } else {
            Some(parse_line(line))
        },
        lines: Seq::empty(),
    }
}

/// The logical lines that the raw line `line` gives in a section of kind
/// `dir`: one in a data section; in a text section two where a label and an
/// instruction share the line.
pub open spec fn logical_lines(dir: Directive, line: Seq<char>) -> Seq<Line> {
    match dir {
        Directive::Data => seq![parse_line(line)],
        Directive::Text => match split_line(line) {
            Split::One(l) => seq![parse_line(l)],
            Split::Two(a, b) => seq![parse_line(a), parse_line(b)],
        },
    }
}

/// The sections after one more raw line. `sections` is never empty.
pub open spec fn section_step(sections: Seq<Region>, line: Seq<char>) -> Seq<Region> {
    if text_word().is_prefix_of(line) {
        sections.push(new_region(line, Directive::Text))
    } else if data_word().is_prefix_of(line) {
        sections.push(new_region(line, Directive::Data))
    } else {
        let cur = sections.last();
        sections.update(
            sections.len() - 1,
            Region { lines: cur.lines + logical_lines(cur.dir, line), ..cur },
        )
    }
}

/// The sections of the raw lines of a file. The first section is the text
/// section without a directive that stands before the first directive.
pub open spec fn sections_of(lines: Seq<Seq<char>>) -> Seq<Region>
    decreases lines.len(),
{
    if lines.len() == 0 {
        seq![new_region(Seq::empty(), Directive::Text)]
    } else {
        section_step(sections_of(lines.drop_last()), lines.last())
    }
}

/// Every line of every section comes straight from `parse_line`: it has no
/// gap and no indentation yet.
pub proof fn lemma_sections_unindented(lines: Seq<Seq<char>>)
    ensures
        sections_of(lines).len() > 0,
        forall|i: int, j: int|
            0 <= i < sections_of(lines).len() && 0 <= j < sections_of(lines)[i].lines.len() ==> {
                let line = #[trigger] sections_of(lines)[i].lines[j];
                line.indent == 0 && line.gap is None
            },
    decreases lines.len(),
{
    if lines.len() > 0 {
        lemma_sections_unindented(lines.drop_last());
        let before = sections_of(lines.drop_last());
        let after = sections_of(lines);
        assert forall|i: int, j: int|
            0 <= i < after.len() && 0 <= j < after[i].lines.len() implies {
            let line = #[trigger] after[i].lines[j];
            line.indent == 0 && line.gap is None
        } by {
            if i < before.len() && j < before[i].lines.len() {
                assert(after[i].lines[j] == before[i].lines[j]);
            }
        }
    }
}

impl Section {
    /// The section that the directive line `line` opens, still without lines.
    pub fn new(line: &str, dir: Directive) -> (section: Section)
        ensures
            section@ == new_region(line@, dir),
    {
        let dir_line = if line.is_empty() {
            None
        } else {
            Some(CodeLine::parse(line))
        };
        let section = Section { dir, dir_line, lines: Vec::new() };
        assert(section@.lines =~= Seq::<Line>::empty());
        section
    }
}

/// The sections of the raw lines of a file.
pub fn parse_sections(lines: &Vec<&str>) -> (sections: Vec<Section>)
    ensures
        section_views(sections@) == sections_of(str_views(lines@)),
{
    let mut sections: Vec<Section> = Vec::new();
    sections.push(Section::new("", Directive::Text));
    let ghost all = str_views(lines@);
    proof {
        reveal_strlit("");
        assert(all.take(0) =~= Seq::<Seq<char>>::empty());
        assert(section_views(sections@) =~= seq![new_region(Seq::empty(), Directive::Text)]);
    }
    let mut i: usize = 0;
    while i < lines.len()
        invariant
            i <= lines.len(),
            all == str_views(lines@),
            sections.len() > 0,
            section_views(sections@) == sections_of(all.take(i as int)),
        decreases lines.len() - i,
    {
        let line: &str = lines[i];
        let ghost before = section_views(sections@);
        let ghost old_sections = sections@;
        proof {
            let next = all.take(i + 1);
            assert(next.drop_last() =~= all.take(i as int));
            assert(next.last() == line@);
        }
        let last = sections.len() - 1;
        if str_starts_with(line, ".text") {
            sections.push(Section::new(line, Directive::Text));
        } else if str_starts_with(line, ".data") {
            sections.push(Section::new(line, Directive::Data));
        } else {
            let cur = &mut sections[last];
            let ghost old_lines = line_views(cur.lines@);
            match cur.dir {
                Directive::Data => {
                    cur.lines.push(CodeLine::parse(line));
                },
                Directive::Text => match SplitLine::parse(line) {
                    SplitLine::One(l) => {
                        cur.lines.push(CodeLine::parse(l));
                    },
                    SplitLine::Two((part1, part2)) => {
                        cur.lines.push(CodeLine::parse(part1));
                        cur.lines.push(CodeLine::parse(part2));
                    },
                },
            }
            proof {
                assert(line_views(cur.lines@) =~= old_lines + logical_lines(cur.dir, line@));
            }
        }
        proof {
            let step = section_step(before, line@);
            assert(before.last() == old_sections[last as int]@);
            assert(section_views(sections@).len() == step.len());
            assert forall|k: int| 0 <= k < step.len() implies section_views(sections@)[k]
                == step[k] by {
                if k < last {
                    assert(sections@[k] == old_sections[k]);
                    assert(step[k] == before[k]);
                }
            }
            assert(section_views(sections@) =~= step);
        }
        i += 1;
    }
    proof {
        assert(all.take(all.len() as int) =~= all);
    }
    sections
}

} // verus!
