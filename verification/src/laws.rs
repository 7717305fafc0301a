//! What holds of the library as a whole.

pub mod basics;
pub mod dragging;
pub mod drops;
pub mod paths;
pub mod pieces;
pub mod quoting;
pub mod sharing;
pub mod stream;
pub mod words;
