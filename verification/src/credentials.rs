use crate::association::{spec_trim_end, trim_end};
use vstd::prelude::*;

verus! {

/// Access data of the remote service.
#[derive(Debug, Clone)]
pub struct Credentials {
    /// Base URL of the service, without a slash at its end.
    pub base_url: String,
    pub access_key_id: String,
    pub access_key_secret: String,
}

impl Credentials {
    /// Credentials for the service at `domain`: the base URL is `domain`
    /// without the slashes at its end; the key pair is kept as given.
    pub fn new(domain: &str, id: String, secret: String) -> (credentials: Self)
        ensures
            credentials.base_url@ == spec_trim_end(domain@, '/'),
            credentials.access_key_id == id,
            credentials.access_key_secret == secret,
    {
        Credentials { base_url: trim_end(domain, '/'), access_key_id: id, access_key_secret: secret }
    }
}

} // verus!
