//! Measuring the laid-out size of content.
use vstd::prelude::*;

use crate::content::Content;
use crate::introspect::{Constraint, Introspector};
use crate::layout::{layout, run, size_of, Region, Size};
use crate::outline::resolve_spec;
use crate::realize::{realize, realize_content};
use crate::style::StyleChain;

verus! {

/// The size content takes when laid out in a single unbounded region. A
/// what-if layout: the introspector is only read, and the locations and the
/// constraint of this layout are discarded, so the enclosing pass sees
/// nothing of it.
pub fn measure(content: &Vec<Content>, styles: &StyleChain, intro: &Introspector) -> (r: Size)
    requires
        content@.len() < u32::MAX,
    ensures
        r == size_of(run(realize(content@, resolve_spec(styles@), intro@).0, Region { lines: None }).0),
{
    let mut scratch = Constraint::new();
    let items = realize_content(content, styles, intro, &mut scratch);
    let (_, size) = layout(&items, Region { lines: None });
    size
}

} // verus!
