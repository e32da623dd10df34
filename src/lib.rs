//! Locates the source position of an XML element named by a compact
//! positional path such as `a[1]/b[2]`, without building a document tree.
//!
//! [`selector`] turns the path text into a sequence of (tag, index) segments;
//! [`matcher`] walks the structural events of a document and reports the
//! position of the first element whose resolved path equals the target.

pub mod matcher;
pub mod selector;

pub use matcher::{match_events, Event, PathMatcher, TextPosition};
pub use selector::parse_xpath;
