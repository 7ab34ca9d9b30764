//! Fuzzy resolution of git branch names.
//!
//! The library holds the pure logic of a branch-checkout helper: assembling
//! the branch list from the version-control tool's text output, collapsing
//! remote-tracking branches that shadow a local branch, matching a pattern
//! exactly and then by substring, and deciding what action follows from the
//! number of matches. Branch names are handled as byte strings; running the
//! version-control tool and rendering output happen outside the library.

pub mod branches;
pub mod highlight;
pub mod matching;
pub mod text;
