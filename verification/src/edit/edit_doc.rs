//! A value that is edited in place and committed back.
use vstd::prelude::*;
use vstd::string::*;
use vstd::utf8::*;
use super::apply::{applied, changes_view, Applied};
use super::doc::Document;
use super::set::{strict_opts, SetOpts};
use crate::error::Error;
use crate::parser::grammar::{only_document, stream};
use crate::parser::layout::Fail;
use crate::parser::{past_bom, report, Parser};
use crate::value::{BorrowedValue, Val};

verus! {

/// A value wrapping a [`Document`], which can be mutated in place and committed back.
///
/// The values before and after are both kept, so edits that e.g. clear a value are recognized, and
/// fields can be removed (instead of setting them to null).
pub struct Edit<'d> {
    /// The document that the changes go to.
    pub doc: &'d mut Document,
    /// The value of the document.
    pub before: BorrowedValue<'static>,
    /// The value to be changed.
    pub after: BorrowedValue<'static>,
}

/// The one document of the source `s`.
pub open spec fn single(s: Seq<u8>) -> Result<Val, Fail> {
    match stream(past_bom(s)) {
        Err(f) => Err(f),
        Ok((vs, st)) => only_document(vs, st.p),
    }
}

impl<'d> Edit<'d> {
    /// Apply changes to the inner [`Document`], with default [`SetOpts`] guarantees.
    pub fn commit(self) -> (r: Result<Applied, Error>)
        ensures
            match (r, applied(old(self.doc).text(), self.before.val(), self.after.val(), strict_opts())) {
                (Ok(done), Ok((text, want))) => final(self.doc).text() == text && changes_view(done.changes@) == want,
                (Err(e), Err(want)) => e@ == want && final(self.doc).text() == old(self.doc).text(),
                _ => false,
            },
    {
        self.commit_with(SetOpts::default())
    }

    /// Apply changes to the inner [`Document`], just like [`Self::commit`], but with control over
    /// the guarantees (or behavior) of edits through [`opts`][`SetOpts`]
    pub fn commit_with(self, opts: SetOpts) -> (r: Result<Applied, Error>)
        ensures
            match (r, applied(old(self.doc).text(), self.before.val(), self.after.val(), opts@)) {
                (Ok(done), Ok((text, want))) => final(self.doc).text() == text && changes_view(done.changes@) == want,
                (Err(e), Err(want)) => e@ == want && final(self.doc).text() == old(self.doc).text(),
                _ => false,
            },
    {
        let Edit { doc, before, after } = self;
        doc.apply_with(&before, &after, opts)
    }
}

/// Reads the one document of `src`.
fn read_single(src: &str) -> (r: Result<BorrowedValue<'static>, Error>)
    ensures
        match (r, single(encode_utf8(src@))) {
            (Ok(x), Ok(v)) => x.val() == v,
            (Err(e), Err(f)) => e@ == report(past_bom(encode_utf8(src@)), f),
            _ => false,
        },
{
    let mut parser = Parser::new(src);
    match parser.parse() {
        Ok(v) => Ok(v.to_static()),
        Err(e) => Err(e),
    }
}

impl Document {
    /// Parse this document for editing.
    ///
    /// Parses a copy to be mutated, and one to be used for diffs
    pub fn edit(&mut self) -> (r: Result<Edit<'_>, Error>)
        ensures
            match (r, single(old(self).text())) {
                (Ok(x), Ok(v)) => x.before.val() == v && x.after.val() == v && x.doc.text() == old(self).text()
                    && final(self).text() == final(x.doc).text(),
                (Err(e), Err(f)) => e@ == report(past_bom(old(self).text()), f) && final(self).text() == old(
                    self,
                ).text(),
                _ => false,
            },
    {
        let before = match read_single(self.as_str()) {
            Ok(v) => v,
            Err(e) => {
                return Err(e);
            },
        };
        let after = before.dup();
        Ok(Edit { doc: self, before, after })
    }
}

} // verus!
