//! Layout of a unified ("inline") diff view: which line numbers of each
//! side are shown for a hunk, which of them are novel, and how wide the
//! line-number column is.

pub mod pairs;
pub mod boundary;
pub mod layout;
pub mod printer;
