//! The `static` provider: credentials written in the configuration.
use vstd::prelude::*;

use super::Credential;
use crate::config::StaticCredsConfig;

verus! {

/// The credential that the configuration names, unchanged.
pub fn get_credential(config: &StaticCredsConfig) -> (res: Credential)
    ensures
        res.username@ == config.username@,
        res.password@ == config.password@,
{
    Credential { username: config.username.clone(), password: config.password.clone() }
}

} // verus!
