//! The command line: what it is given, where it keeps trees between runs, which
//! way it goes about a request, and what it prints.

pub mod args;
pub mod authorize;
pub mod cache;
pub mod content_hash;
pub mod digits;
pub mod execute;
pub mod laws;
pub mod timing;
