//! Content bundle subsystem: a persistent, ordered collection of named
//! bundles of Workshop item identifiers, with a text codec that round-trips
//! a bundle through a human-readable script, a reconciler that merges a
//! bundle against a collection's live membership, and a store that keeps
//! bundles sorted by their update time.

use vstd::prelude::*;

pub mod binfmt;
pub mod bundle;
pub mod chars;
pub mod codec;
pub mod errors;
pub mod laws;
pub mod numtext;
pub mod reconcile;
pub mod script;
pub mod store;
pub mod timefmt;

pub use binfmt::{decode_bundle, encode_bundle};
pub use bundle::{Bundle, BundleCollectionLink};
pub use errors::BundleError;
pub use store::Bundles;
pub use timefmt::TS_MAX;

verus! {

/// Path of the directory that holds the per-bundle files, below the
/// user-data directory.
pub fn bundles_path(user_data_dir: &str) -> (r: String)
    ensures
        r@ == user_data_dir@ + "/content_generator"@,
{
    let mut r = String::from_str(user_data_dir);
    r.append("/content_generator");
    r
}

/// Marker for the shell's application-data webview plugin; its script
/// generation is webview glue and lives with the shell, not here.
pub struct Plugin;

impl Plugin {
    /// The plugin's registration name.
    pub fn name(&self) -> (r: &'static str)
        ensures
            r@ == "AppData"@,
    {
        "AppData"
    }
}

} // verus!
