//! The credential providers.
use vstd::prelude::*;

pub mod github_app;
pub mod static_creds;

verus! {

/// A username and password handed to git.
pub struct Credential {
    pub username: String,
    pub password: String,
}

} // verus!
