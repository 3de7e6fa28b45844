//! Errors in the form in which they are reported.

use crate::num::{dec, Int};
use crate::span::Span;
use crate::text::{own, put};
use vstd::prelude::*;

verus! {

/// An error.
#[derive(Debug)]
pub enum SalError {
    /// A text that cannot be parsed.
    Parse { file: String, span: Span, msg: String },
    /// A context that is not well-formed.
    Semantic { context: String, span: Span, msg: String },
    /// An error of no place.
    Global(String),
}

/// The place of an error, as it is printed.
pub open spec fn place_text(span: Span) -> Seq<char> {
    ", line("@ + dec(span.start.line as int) + "), column("@ + dec(span.start.col as int) + ")]"@
}

impl SalError {
    /// An error in a context.
    pub fn semantic(context: &str, span: Span, msg: &str) -> (r: SalError)
        ensures
            r matches SalError::Semantic { context: c, span: s, msg: m } && c@ == context@ && s == span && m@
                == msg@,
    {
        SalError::Semantic { context: own(context), span, msg: own(msg) }
    }

    /// An error of no place.
    pub fn global(msg: &str) -> (r: SalError)
        ensures
            r matches SalError::Global(m) && m@ == msg@,
    {
        SalError::Global(own(msg))
    }

    /// The printed form.
    pub open spec fn printed(&self) -> Seq<char> {
        match self {
            SalError::Parse { file, span, msg } => "Error: ["@ + file@ + place_text(*span) + " "@ + msg@,
            SalError::Semantic { context, span, msg } => "Error: [Context: "@ + context@ + place_text(*span)
                + ": "@ + msg@,
            SalError::Global(msg) => "Error: "@ + msg@,
        }
    }

    /// The printed form.
    pub fn text(&self) -> (r: String)
        ensures
            r@ == self.printed(),
    {
        match self {
            SalError::Parse { file, span, msg } => {
                let mut out = own("Error: [");
                put(&mut out, file.as_str());
                put_place(&mut out, *span);
                put(&mut out, " ");
                put(&mut out, msg.as_str());
                out
            },
            SalError::Semantic { context, span, msg } => {
                let mut out = own("Error: [Context: ");
                put(&mut out, context.as_str());
                put_place(&mut out, *span);
                put(&mut out, ": ");
                put(&mut out, msg.as_str());
                out
            },
            SalError::Global(msg) => {
                let mut out = own("Error: ");
                put(&mut out, msg.as_str());
                out
            },
        }
    }
}

/// Adds the place of an error.
pub(crate) fn put_place(out: &mut String, span: Span)
    ensures
        final(out)@ == old(out)@ + place_text(span),
{
    let ghost o = out@;
    put(out, ", line(");
    put(out, Int::from_u64(span.start.line as u64).text().as_str());
    put(out, "), column(");
    put(out, Int::from_u64(span.start.col as u64).text().as_str());
    put(out, ")]");
    assert(out@ =~= o + place_text(span));
}

} // verus!
