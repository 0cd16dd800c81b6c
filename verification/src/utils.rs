//! Small shared utilities: the writable flat buffer the engines' design
//! speaks of, an equality asserter for comparing engine outputs, and
//! display helpers.

pub mod asserter;
pub mod format;
pub mod slice;
