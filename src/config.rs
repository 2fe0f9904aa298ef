//! The application's configuration.
use vstd::prelude::*;


verus! {

/// Storage directory used when the configuration names none.
pub open spec fn default_storage_dir_spec() -> Seq<char> {
    "./mirrors"@
}

/// Storage directory used when the configuration names none.
pub fn default_storage_dir() -> (r: String)
    ensures
        r@ == default_storage_dir_spec(),
{
    String::from_str("./mirrors")
}

/// Identifiers to mirror and where the mirrors live.
pub struct AppConfig {
    /// Short identifiers: `owner/repo` or a bare owner.
    pub mirrors: Vec<String>,
    /// The storage root.
    pub storage_dir: String,
}

impl AppConfig {
    /// A configuration with the default storage directory.
    pub fn new(mirrors: Vec<String>) -> (r: AppConfig)
        ensures
            r.mirrors@ == mirrors@,
            r.storage_dir@ == default_storage_dir_spec(),
    {
        AppConfig { mirrors, storage_dir: default_storage_dir() }
    }
}

} // verus!
