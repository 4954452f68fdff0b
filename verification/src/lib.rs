//! Applies textual diff descriptions (unified, context, or normal dialect) to
//! a line-based document, relocating hunks whose declared positions have
//! drifted and classifying each hunk as cleanly applied, conflicting, or
//! already applied.

pub mod bestmatch;
pub mod common;
pub mod inp;
pub mod merge;
pub mod pch;
pub mod safe;
pub mod text;
