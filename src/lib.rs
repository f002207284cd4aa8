//! Pixel storage and path control of a ray tracer: packed frame buffers that
//! take finished scanlines in any order, and the bounce budget that decides
//! when a light path ends.
use vstd::prelude::*;

pub mod framebuffer;
pub mod path;

verus! {

} // verus!
