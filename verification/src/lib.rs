//! Scans a project tree, filters the discovered paths against inclusion and
//! exclusion rules, renders the survivors as an ASCII tree, and splices the
//! rendering into a README between sentinel markers.

pub mod adapters;
pub mod converters;
pub mod domain;
pub mod parsing;
pub mod paths;
pub mod pipeline;
pub mod regexes;
pub mod test_utils;
pub mod text;
pub mod tree;
