//! Sectioned binary vector codec: variable sections written through a rolling
//! section writer, and fixed 256-element sections with nibble-packed payloads.

pub mod error;
pub mod nibblepack;
pub mod section;
