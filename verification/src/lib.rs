//! Keeps pull mirrors on a Gitea/Forgejo instance in step with a source forge.
//!
//! The crate holds the decisions of the tool: which repositories to mirror, what
//! to ask of the two forges, and what to remember between runs. Sending requests,
//! reading files and sleeping is left to the program around it.

pub mod config;
pub mod filter;
pub mod http;
pub mod json;
pub mod names;
pub mod scheduler;
pub mod source;
pub mod state;
pub mod sync;
pub mod target;
pub mod text;
