//! The credential record that the operator's store persists between runs.

use vstd::prelude::*;

verus! {

/// The four persisted credential values: the consumer pair identifying the
/// application and the access pair identifying the authorizing user.
#[derive(Debug)]
pub struct Config {
    pub consumer_key: String,
    pub consumer_secret: String,
    pub access_key: String,
    pub access_secret: String,
}

impl Config {
    /// Bundles the four credential values.
    pub fn new(
        consumer_key: String,
        consumer_secret: String,
        access_key: String,
        access_secret: String,
    ) -> (c: Config)
        ensures
            c.consumer_key@ == consumer_key@,
            c.consumer_secret@ == consumer_secret@,
            c.access_key@ == access_key@,
            c.access_secret@ == access_secret@,
    {
        Config { consumer_key, consumer_secret, access_key, access_secret }
    }
}

} // verus!
