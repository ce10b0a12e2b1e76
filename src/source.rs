use vstd::prelude::*;

verus! {

/// A byte range in the source text, as offsets from its start.
#[derive(Clone, Copy, Debug, PartialEq, Eq, Structural)]
pub struct Span {
    pub lo: u32,
    pub hi: u32,
}

/// The two forms of comment: `// ...` and `/* ... */`.
#[derive(Clone, Copy, Debug, PartialEq, Eq, Structural)]
pub enum CommentKind {
    Line,
    Block,
}

/// A comment of the parsed source: its form, where it stands, and its text
/// without the comment markers.
#[derive(Clone, Debug)]
pub struct Comment {
    pub kind: CommentKind,
    pub span: Span,
    pub text: String,
}

/// How many of the positions in `s` lie at or before `pos`.
pub open spec fn count_at_most(s: Seq<u32>, pos: u32) -> nat
    decreases s.len(),
{
    if s.len() == 0 {
        0
    } else {
        count_at_most(s.drop_last(), pos) + if s.last() <= pos {
            1nat
        } else {
            0nat
        }
    }
}

/// The line that holds `pos`, counted from 0, where `line_starts` holds the
/// offset at which each line starts, in increasing order, from 0: how many
/// lines after the first start at or before `pos`.
pub open spec fn line_of(line_starts: Seq<u32>, pos: u32) -> nat {
    if line_starts.len() == 0 {
        0
    } else {
        count_at_most(line_starts.drop_first(), pos)
    }
}

/// Maps byte offsets of one source text to line numbers.
pub struct LineIndex {
    pub line_starts: Vec<u32>,
}

impl LineIndex {
    /// The index of a text whose lines start at `line_starts`: in increasing
    /// order, the first at 0.
    pub fn new(line_starts: Vec<u32>) -> (r: LineIndex)
        ensures
            r.line_starts@ == line_starts@,
    {
        LineIndex { line_starts }
    }

    /// The line, counted from 0, that holds the byte offset `pos`.
    pub fn line_index(&self, pos: u32) -> (r: usize)
        ensures
            r == line_of(self.line_starts@, pos),
    {
        let s = &self.line_starts;
        if s.len() == 0 {
            return 0;
        }
        let mut count: usize = 0;
        let mut i: usize = 1;
        while i < s.len()
            invariant
                1 <= i <= s@.len(),
                count <= i,
                count == count_at_most(s@.subrange(1, i as int), pos),
            decreases s@.len() - i,
        {
            assert(s@.subrange(1, i + 1).drop_last() =~= s@.subrange(1, i as int));
            if s[i] <= pos {
                count = count + 1;
            }
            i = i + 1;
        }
        assert(s@.subrange(1, s@.len() as int) =~= s@.drop_first());
        count
    }
}

} // verus!
