//! The desktop agent's configuration: the server URL, the stored
//! credentials, and the chosen sync directory. Reading and writing the
//! `config.json` file that carries it is the caller's concern.

use vstd::prelude::*;

verus! {

/// Stored login credentials.
#[derive(Debug, Clone)]
pub struct Credentials {
    pub email: String,
    pub password: String,
}

/// The agent's configuration document; every field is optional until
/// setup fills it in.
#[derive(Debug, Clone)]
pub struct Configuration {
    pub url: Option<String>,
    pub credentials: Option<Credentials>,
    pub sync_dir: Option<String>,
}

impl Configuration {
    /// The blank configuration written on first start.
    pub fn empty() -> (r: Configuration)
        ensures
            r.url is None,
            r.credentials is None,
            r.sync_dir is None,
    {
        Configuration { url: None, credentials: None, sync_dir: None }
    }
}

} // verus!
