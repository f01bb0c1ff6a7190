//! The logic of the zhtta web server and the gash shell: caches, request
//! scheduling, responses, server-side includes, command lines and the
//! kernel shell.
use vstd::prelude::*;

pub mod assoc;
pub mod cache_manager;
pub mod config;
pub mod gash;
pub mod http;
pub mod lru_cache;
pub mod scheduler;
pub mod sgash;
pub mod ssi;
pub mod text;
pub mod web_server;

verus! {

} // verus!
