//! A git credential helper: hands out credentials for git from several
//! providers, configured per host, repository and user.

pub mod cache;
pub mod config;
pub mod keyed;
pub mod providers;
pub mod request;
pub mod text;
pub mod timestamp;
