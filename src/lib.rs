//! The core of a text layout engine for fixed boxes, such as speech balloons:
//! line composition over shaped segments, baseline placement in horizontal and
//! vertical right-to-left writing, tight ink bounds, the search for the largest
//! font size that fits, and hyphenation-driven word splitting.
//!
//! Lengths are integer layout units; shaping, font metrics and line-break
//! analysis are supplied by the caller as plain values.

use vstd::prelude::*;

pub mod fit;
pub mod ink;
pub mod layout;
pub mod text;
pub mod words;

verus! {

} // verus!
