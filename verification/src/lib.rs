//! Finds files with identical content below a directory and plans their safe
//! removal or replacement by symbolic links.
//!
//! The library never touches the file system itself. Callers hand it what they
//! observed (entries, file contents, the outcome of an unlink) and receive
//! decisions back: whether a path takes part, which group it joins, which
//! operation comes next.

pub mod text;
pub mod ignore;
pub mod fingerprint;
pub mod groups;
pub mod index;
pub mod scan;
pub mod remediate;
pub mod effects;
pub mod report;
