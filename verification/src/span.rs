use vstd::prelude::*;

verus! {

/// A line range in a source file, 1-indexed, both ends inclusive.
#[derive(Debug, Clone, Copy, PartialEq, Eq)]
pub struct Span {
    /// First line of the construct, 1-indexed.
    pub start_line: u32,
    /// Last line of the construct, 1-indexed, inclusive.
    pub end_line: u32,
}

impl Span {
    /// A span is well formed when lines are 1-indexed and ordered.
    pub open spec fn wf(self) -> bool {
        1 <= self.start_line <= self.end_line
    }

    /// Builds a span covering `start_line..=end_line`.
    pub fn new(start_line: u32, end_line: u32) -> (s: Span)
        requires
            start_line >= 1,
            end_line >= start_line,
        ensures
            s.start_line == start_line,
            s.end_line == end_line,
            s.wf(),
    {
        Span { start_line, end_line }
    }

    /// Builds a span covering a single line.
    pub fn single(line: u32) -> (s: Span)
        requires
            line >= 1,
        ensures
            s.start_line == line,
            s.end_line == line,
    {
        Span::new(line, line)
    }

    /// Number of lines covered by this span.
    pub fn line_count(&self) -> (n: u32)
        requires
            self.wf(),
        ensures
            n == self.end_line - self.start_line + 1,
    {
        self.end_line - self.start_line + 1
    }
}

} // verus!
