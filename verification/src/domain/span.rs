//! Byte spans into a page's exact text.

use vstd::prelude::*;
use vstd::string::*;

use crate::text::{at_boundary, byte_len, decimal, lemma_boundary, lemma_str_valid, push_decimal, slice_str};

verus! {

/// Why a span is not usable for a given text.
#[derive(Debug, Clone, Copy, PartialEq, Eq, Structural)]
pub enum SpanError {
    EndBeforeStart { start: usize, end: usize },
    OutOfBounds { span_end: usize, text_len: usize },
    NotUtf8Boundary { offset: usize },
}

/// The text of a span error.
pub open spec fn span_error_message(e: SpanError) -> Seq<char> {
    match e {
        SpanError::EndBeforeStart { start, end } => "span end "@ + decimal(end as nat) + " is before start "@
            + decimal(start as nat),
        SpanError::OutOfBounds { span_end, text_len } => "span end "@ + decimal(span_end as nat)
            + " exceeds text length "@ + decimal(text_len as nat),
        SpanError::NotUtf8Boundary { offset } => "span offset "@ + decimal(offset as nat)
            + " is not a UTF-8 boundary"@,
    }
}

impl SpanError {
    /// The text of the error (`Display`).
    pub fn message(&self) -> (r: String)
        ensures
            r@ == span_error_message(*self),
    {
        match *self {
            SpanError::EndBeforeStart { start, end } => {
                let mut out = "span end ".to_owned();
                push_decimal(&mut out, end);
                out.append(" is before start ");
                push_decimal(&mut out, start);
                out
            },
            SpanError::OutOfBounds { span_end, text_len } => {
                let mut out = "span end ".to_owned();
                push_decimal(&mut out, span_end);
                out.append(" exceeds text length ");
                push_decimal(&mut out, text_len);
                out
            },
            SpanError::NotUtf8Boundary { offset } => {
                let mut out = "span offset ".to_owned();
                push_decimal(&mut out, offset);
                out.append(" is not a UTF-8 boundary");
                out
            },
        }
    }
}

/// A half-open range `[start, end)` of UTF-8 byte offsets; `start <= end` always holds.
#[derive(Debug, Clone, Copy, PartialEq, Eq, PartialOrd, Ord, Hash, Structural)]
pub struct SourceSpan {
    start: usize,
    end: usize,
}

impl SourceSpan {
    #[verifier::type_invariant]
    spec fn ordered(self) -> bool {
        self.start <= self.end
    }

    /// The first byte offset of the span.
    pub closed spec fn lo(self) -> usize {
        self.start
    }

    /// The byte offset just past the span.
    pub closed spec fn hi(self) -> usize {
        self.end
    }

    /// The span `[start, end)` as a value.
    pub closed spec fn spec_new(start: usize, end: usize) -> SourceSpan {
        SourceSpan { start, end }
    }

    /// Fields of a span built from two offsets.
    pub broadcast proof fn lemma_spec_new(start: usize, end: usize)
        ensures
            #[trigger] Self::spec_new(start, end).lo() == start,
            Self::spec_new(start, end).hi() == end,
    {
    }

    /// Two spans are equal exactly when their offsets are.
    pub proof fn lemma_ext(a: SourceSpan, b: SourceSpan)
        ensures
            (a.lo() == b.lo() && a.hi() == b.hi()) <==> a == b,
    {
    }

    /// A span is the span of its own offsets.
    pub broadcast proof fn lemma_self_new(a: SourceSpan)
        ensures
            #[trigger] Self::spec_new(a.lo(), a.hi()) == a,
    {
    }

    /// `Ok` exactly when `start <= end`.
    pub fn new(start: usize, end: usize) -> (r: Result<Self, SpanError>)
        ensures
            end < start ==> r == Err::<Self, SpanError>(SpanError::EndBeforeStart { start, end }),
            start <= end ==> r == Ok::<Self, SpanError>(Self::spec_new(start, end)),
    {
        if end < start {
            return Err(SpanError::EndBeforeStart { start, end });
        }
        Ok(Self { start, end })
    }

    /// A span whose offsets the caller already knows to be ordered.
    pub fn unchecked(start: usize, end: usize) -> (r: Self)
        requires
            start <= end,
        ensures
            r == Self::spec_new(start, end),
    {
        Self { start, end }
    }

    pub fn start(self) -> (r: usize)
        ensures
            r == self.lo(),
            self.lo() <= self.hi(),
    {
        proof {
            use_type_invariant(&self);
        }
        self.start
    }

    pub fn end(self) -> (r: usize)
        ensures
            r == self.hi(),
            self.lo() <= self.hi(),
    {
        proof {
            use_type_invariant(&self);
        }
        self.end
    }

    pub fn len(self) -> (r: usize)
        ensures
            r == self.hi() - self.lo(),
    {
        proof {
            use_type_invariant(&self);
        }
        self.end - self.start
    }

    pub fn is_empty(self) -> (r: bool)
        ensures
            r == (self.lo() == self.hi()),
    {
        self.start == self.end
    }

    pub fn contains_offset(self, offset: usize) -> (r: bool)
        ensures
            r == (self.lo() <= offset && offset < self.hi()),
    {
        self.start <= offset && offset < self.end
    }

    pub fn contains_span(self, other: Self) -> (r: bool)
        ensures
            r == (self.lo() <= other.lo() && other.hi() <= self.hi()),
    {
        self.start <= other.start && other.end <= self.end
    }

    /// The text of the span, when both ends are character boundaries inside `text`.
    pub fn slice<'a>(self, text: &'a str) -> (r: Result<&'a str, SpanError>)
        ensures
            r is Ok <==> self.fits(text.spec_bytes()),
            !self.fits(text.spec_bytes()) ==> r == Err::<&str, SpanError>(
                self.fit_error(text.spec_bytes()),
            ),
            r matches Ok(s) ==> s.spec_bytes() == text.spec_bytes().subrange(
                self.lo() as int,
                self.hi() as int,
            ),
    {
        proof {
            use_type_invariant(&self);
        }
        match self.validate_for_text(text) {
            Err(e) => Err(e),
            Ok(()) => Ok(slice_str(text, self.start, self.end)),
        }
    }

    /// Both ends of the span are character boundaries of `bytes`.
    pub open spec fn fits(self, bytes: Seq<u8>) -> bool {
        &&& self.hi() <= bytes.len()
        &&& at_boundary(bytes, self.lo() as int)
        &&& at_boundary(bytes, self.hi() as int)
    }

    /// The first failed check of `validate_for_text`.
    pub open spec fn fit_error(self, bytes: Seq<u8>) -> SpanError {
        if self.hi() > bytes.len() {
            SpanError::OutOfBounds { span_end: self.hi(), text_len: bytes.len() as usize }
        } else if !at_boundary(bytes, self.lo() as int) {
            SpanError::NotUtf8Boundary { offset: self.lo() }
        } else {
            SpanError::NotUtf8Boundary { offset: self.hi() }
        }
    }

    /// `Ok` exactly when the span lies inside `text` on character boundaries.
    pub fn validate_for_text(self, text: &str) -> (r: Result<(), SpanError>)
        ensures
            r is Ok <==> self.fits(text.spec_bytes()),
            !self.fits(text.spec_bytes()) ==> r == Err::<(), SpanError>(
                self.fit_error(text.spec_bytes()),
            ),
    {
        proof {
            use_type_invariant(&self);
            lemma_str_valid(text);
            lemma_boundary(text.spec_bytes(), self.start as int);
            lemma_boundary(text.spec_bytes(), self.end as int);
        }
        let text_len = byte_len(text);
        if self.end > text_len {
            return Err(SpanError::OutOfBounds { span_end: self.end, text_len });
        }
        if !text.is_char_boundary(self.start) {
            return Err(SpanError::NotUtf8Boundary { offset: self.start });
        }
        if !text.is_char_boundary(self.end) {
            return Err(SpanError::NotUtf8Boundary { offset: self.end });
        }
        Ok(())
    }
}

} // verus!
