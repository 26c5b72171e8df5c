//! Resilient acquisition and indexing pipeline for a private tracker site:
//! torrent metainfo decoding, HTML entity extraction, session lifecycle,
//! rate limiting, mirror-domain discovery and multi-query result merging.

use vstd::prelude::*;

pub mod auth;
pub mod bencode;
pub mod config;
pub mod domain;
mod errors;
pub mod extract;
pub mod filetree;
pub mod infohash;
pub mod queries;
pub mod ratelimit;
pub mod search;
pub mod session;
pub mod sizes;
pub mod user;
pub mod text;

pub use errors::YggError;

verus! {

/// Path of the login page on the tracker; a response that lands here means
/// the session is no longer authenticated.
pub const LOGIN_PAGE: &'static str = "/auth/login";

/// Path of the endpoint that processes submitted credentials.
pub const LOGIN_PROCESS_PAGE: &'static str = "/auth/process_login";

} // verus!
