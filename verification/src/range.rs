use vstd::prelude::*;

verus! {

/// A position in a text buffer: a zero-based line index and a zero-based
/// count of codepoints from the start of that line.
#[derive(Clone, Copy, Debug, PartialEq, Eq, Structural)]
pub struct Point {
    pub row: usize,
    pub column: usize,
}

impl Point {
    pub fn new(row: usize, column: usize) -> (p: Point)
        ensures
            p == (Point { row, column }),
    {
        Point { row, column }
    }
}

/// A stretch of source text, given both as byte offsets into the whole
/// text and as the positions of its two ends.
#[derive(Clone, Copy, Debug, PartialEq, Eq, Structural)]
pub struct Range {
    pub start_byte: usize,
    pub end_byte: usize,
    pub start_point: Point,
    pub end_point: Point,
}

impl Range {
    /// The start does not lie behind the end.
    pub open spec fn ordered(self) -> bool {
        self.start_byte <= self.end_byte
    }

    /// The bytes of `inner` lie within the bytes of `self`.
    pub open spec fn covers(self, inner: Range) -> bool {
        self.start_byte <= inner.start_byte && inner.end_byte <= self.end_byte
    }

    /// Both ranges span the same bytes.
    pub open spec fn same_span(self, other: Range) -> bool {
        self.start_byte == other.start_byte && self.end_byte == other.end_byte
    }

    /// `self`, whose end is the last selected byte, selects exactly the
    /// bytes of `span`, whose end is one past its last byte.
    pub open spec fn selects_exactly(self, span: Range) -> bool {
        span.start_byte == self.start_byte && span.end_byte == self.end_byte + 1
    }

    pub fn new(
        start_byte: usize,
        end_byte: usize,
        start_point: Point,
        end_point: Point,
    ) -> (r: Range)
        ensures
            r == (Range { start_byte, end_byte, start_point, end_point }),
    {
        Range { start_byte, end_byte, start_point, end_point }
    }

    /// Tells whether the bytes of `inner` lie within the bytes of `self`.
    pub fn contains(&self, inner: &Range) -> (b: bool)
        ensures
            b == self.covers(*inner),
    {
        self.start_byte <= inner.start_byte && inner.end_byte <= self.end_byte
    }

    /// Tells whether both ranges span the same bytes.
    pub fn spans_like(&self, other: &Range) -> (b: bool)
        ensures
            b == self.same_span(*other),
    {
        self.start_byte == other.start_byte && self.end_byte == other.end_byte
    }

    /// Tells whether `self`, read as a selection that ends on its last
    /// byte, selects exactly the bytes of `span`.
    pub fn is_selection_of(&self, span: &Range) -> (b: bool)
        ensures
            b == self.selects_exactly(*span),
    {
        span.start_byte == self.start_byte && span.end_byte > 0 && span.end_byte - 1
            == self.end_byte
    }
}

} // verus!
