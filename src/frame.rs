//! Laid-out documents: primitives placed on pages.
use vstd::prelude::*;

use crate::content::Inline;

verus! {

/// A primitive at its place: page, line on the page, and horizontal offset.
#[derive(Debug, PartialEq)]
pub struct Placed {
    pub page: usize,
    pub line: usize,
    pub x: u64,
    pub item: Inline,
}

/// A finished document: its page count and everything placed on its pages,
/// in document order.
#[derive(Debug, PartialEq)]
pub struct Document {
    pub pages: usize,
    pub items: Vec<Placed>,
}

impl Document {
    /// A document of one blank page.
    pub fn empty() -> (r: Document)
        ensures
            r.pages == 1,
            r.items@.len() == 0,
    {
        Document { pages: 1, items: Vec::new() }
    }
}

} // verus!
