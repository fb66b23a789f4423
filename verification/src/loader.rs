//! In-memory sources of gram-count text.

use vstd::prelude::*;

use crate::error::LmError;
use crate::parser::GramsParser;

verus! {

/// File formats supported for gram-count streams.
#[derive(Clone, Copy, Debug, PartialEq, Eq, Structural)]
pub enum GramsFileFormats {
    Plain,
    Gzip,
}

/// Loader over a gram-count text already held in memory.
pub struct GramsTextLoader<'a> {
    text: &'a [u8],
}

impl<'a> GramsTextLoader<'a> {
    /// The text this loader reads.
    pub closed spec fn text_view(&self) -> Seq<u8> {
        self.text@
    }

    /// Creates a loader over a text.
    pub fn new(text: &'a [u8]) -> (r: Self)
        ensures
            r.text_view() == text@,
    {
        Self { text }
    }

    /// Creates the parser over the text.
    pub fn parser(&self) -> (r: Result<GramsParser<'a>, LmError>)
        ensures
            r matches Ok(p) ==> p.wf() && p.text_view() == self.text_view()
                && p.spec_num_parsed() == 0,
            r matches Err(e) ==> e == LmError::InvalidHeader,
    {
        GramsParser::new(self.text)
    }
}

} // verus!
