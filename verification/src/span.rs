//! Half-open byte ranges over a source text.

use text_size::{TextRange, TextSize};
use vstd::prelude::*;

verus! {

/// The half-open byte range `start..end` of a source text.
///
/// A span is meant to satisfy `start <= end`; see [`Span::is_valid`].
#[derive(Clone, Copy, Debug, PartialEq, Eq, Hash, Structural)]
pub struct Span {
    pub start: u32,
    pub end: u32,
}

impl Span {
    /// The ordering constraint every span is expected to satisfy.
    pub open spec fn is_valid(self) -> bool {
        self.start <= self.end
    }

    /// The smallest span that contains both `self` and `other`.
    pub open spec fn hull(self, other: Span) -> Span {
        Span {
            start: if self.start <= other.start { self.start } else { other.start },
            end: if self.end >= other.end { self.end } else { other.end },
        }
    }

    /// The span `start..end`.
    pub fn new(start: u32, end: u32) -> (span: Span)
        requires
            start <= end,
        ensures
            span == (Span { start, end }),
    {
        Span { start, end }
    }

    /// Extends the span so that it covers `other` as well.
    pub fn cover(self, other: Span) -> (span: Span)
        requires
            self.is_valid(),
            other.is_valid(),
        ensures
            span == self.hull(other),
            span.is_valid(),
    {
        range_cover(self, other)
    }
}

/// `text_size::TextRange::cover` applied to the ranges `a.start..a.end` and
/// `b.start..b.end`. That function takes the smaller of the two starts and
/// the larger of the two ends; building a `TextRange` panics when its start
/// lies behind its end, which the precondition rules out.
#[verifier::external_body]
fn range_cover(a: Span, b: Span) -> (c: Span)
    requires
        a.start <= a.end,
        b.start <= b.end,
    ensures
        c == a.hull(b),
{
    let left = TextRange::new(TextSize::from(a.start), TextSize::from(a.end));
    let right = TextRange::new(TextSize::from(b.start), TextSize::from(b.end));
    let both = left.cover(right);
    Span { start: u32::from(both.start()), end: u32::from(both.end()) }
}

} // verus!
