//! Core of a stacked-patch manager: the in-memory patch series, its
//! transitions, and the pure decisions behind persisting it as a log of
//! commits.

pub mod error;
pub mod oid;
pub mod patchname;
pub mod state;
pub mod pinning;
pub mod fanin;
pub mod branch_delete;
pub mod editor;
pub mod trailers;
pub mod text;
pub mod treebuild;
pub mod stackjson;
pub mod stack;
