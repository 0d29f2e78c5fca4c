//! From a slice spec to the lines that are printed.

use vstd::prelude::*;

use crate::bound::decimal;
use crate::slice::{SliceSpec, SliceView};

verus! {

/// Lines `start..=end` of a file, counted from 1.
#[derive(Debug, Clone, Copy, PartialEq, Eq, Structural)]
pub struct LineRange {
    pub start: usize,
    pub end: usize,
}

/// A range whose start lies after its end, once absent bounds are filled in.
#[derive(Debug, Clone, Copy, PartialEq, Eq, Structural)]
pub struct InvalidRange {
    pub start: usize,
    pub end: usize,
}

/// The start bound, 1 where it is absent.
pub open spec fn resolved_start(b: Option<usize>) -> usize {
    match b {
        Some(v) => v,
        None => 1,
    }
}

/// The end bound, the largest `usize` where it is absent.
pub open spec fn resolved_end(b: Option<usize>) -> usize {
    match b {
        Some(v) => v,
        None => usize::MAX,
    }
}

/// The range that a slice spec asks for, or the error where its start lies
/// after its end.
pub open spec fn resolve_view(v: SliceView) -> Result<LineRange, InvalidRange> {
    let start = resolved_start(v.start);
    let end = resolved_end(v.end);
    if start <= end {
        Ok(LineRange { start, end })
    } else {
        Err(InvalidRange { start, end })
    }
}

/// Line `pos` (counted from 1) lies in `r`.
pub open spec fn selects(r: LineRange, pos: int) -> bool {
    r.start <= pos <= r.end
}

/// How line `pos` reads on output: prefixed with its number and a tab when
/// lines are numbered, bare otherwise.
pub open spec fn rendered(pos: nat, line: Seq<char>, number: bool) -> Seq<char> {
    if number {
        decimal(pos) + seq!['\t'] + line
    } else {
        line
    }
}

/// Relies on `ToString` for `usize` (through its `Display`): the decimal
/// digits of `n`, with no sign and no leading zero.
#[verifier::external_body]
fn decimal_string(n: usize) -> (r: String)
    ensures
        r@ == decimal(n as nat),
{
    n.to_string()
}

/// Line `line` as it is printed at position `pos`.
pub fn render_line(pos: usize, line: &str, number: bool) -> (r: String)
    ensures
        r@ == rendered(pos as nat, line@, number),
{
    if number {
        let mut out = decimal_string(pos);
        let tab = "\t";
        proof {
            reveal_strlit("\t");
        }
        out.append(tab);
        out.append(line);
        out
    } else {
        String::from_str(line)
    }
}

impl SliceSpec {
    /// The range of lines to print: an absent start is 1, an absent end the
    /// largest `usize`, and a start after the end is an error that carries
    /// both.
    pub fn resolve(&self) -> (r: Result<LineRange, InvalidRange>)
        ensures
            r == resolve_view(self@),
    {
        let start = match self.start {
            Some(v) => v,
            None => 1,
        };
        let end = match self.end {
            Some(v) => v,
            None => usize::MAX,
        };
        if start <= end {
            Ok(LineRange { start, end })
        } else {
            Err(InvalidRange { start, end })
        }
    }
}

/// With neither bound given, the range is the whole file: every line, up to
/// the most a `usize` can count, is printed.
pub proof fn lemma_unbounded_is_whole_file(v: SliceView)
    requires
        v.start is None,
        v.end is None,
    ensures
        resolve_view(v) == Ok::<LineRange, InvalidRange>(LineRange { start: 1, end: usize::MAX }),
        forall|pos: int| 1 <= pos <= usize::MAX ==> selects(resolve_view(v)->Ok_0, pos),
{
}

/// Walks through the lines of one file and decides which are printed.
pub struct LineRenderer {
    range: LineRange,
    number: bool,
    read: usize,
}

impl LineRenderer {
    /// The range of lines that are printed.
    pub closed spec fn range(&self) -> LineRange {
        self.range
    }

    /// Whether printed lines carry their number.
    pub closed spec fn numbered(&self) -> bool {
        self.number
    }

    /// How many lines have been fed so far.
    pub closed spec fn lines_read(&self) -> nat {
        self.read as nat
    }

    /// A renderer at the start of a file.
    pub fn new(range: LineRange, number: bool) -> (r: LineRenderer)
        ensures
            r.range() == range,
            r.numbered() == number,
            r.lines_read() == 0,
    {
        LineRenderer { range, number, read: 0 }
    }

    /// No line after those already fed can lie in the range.
    pub fn is_done(&self) -> (r: bool)
        ensures
            r == (self.lines_read() >= self.range().end),
    {
        self.read >= self.range.end
    }

    /// Takes the next line of the file: `Some` text where it could be read,
    /// `None` where reading it failed. Returns what to print for it, which is
    /// nothing for a failed line or one outside the range.
    pub fn feed(&mut self, line: Option<&str>) -> (r: Option<String>)
        requires
            old(self).lines_read() < old(self).range().end,
        ensures
            final(self).range() == old(self).range(),
            final(self).numbered() == old(self).numbered(),
            final(self).lines_read() == old(self).lines_read() + 1,
            match r {
                Some(out) => line is Some && selects(old(self).range(), final(self).lines_read() as int)
                    && out@ == rendered(
                    final(self).lines_read(),
                    line->0@,
                    old(self).numbered(),
                ),
                None => !(line is Some && selects(old(self).range(), final(self).lines_read() as int)),
            },
    {
        self.read = self.read + 1;
        match line {
            Some(text) => {
                if self.range.start <= self.read && self.read <= self.range.end {
                    Some(render_line(self.read, text, self.number))
                } else {
                    None
                }
            },
            None => None,
        }
    }
}

} // verus!
