//! Incremental layout core: content and styles, stable locations,
//! introspection and the fixed-point driver that relayouts a document until
//! its cross-references agree with the pages they describe.
use vstd::prelude::*;

pub mod blend;
pub mod content;
pub mod frame;
pub mod introspect;
pub mod layout;
pub mod measure;
pub mod outline;
pub mod realize;
pub mod style;
pub mod typeset;

verus! {

} // verus!
