//! Time-tracking facts gathered from several sources into one set without
//! duplicates, and written out as lines of tab-separated text.

pub mod fact;
pub mod instant;
pub mod merge;
pub mod paths;
pub mod text;
