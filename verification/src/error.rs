//! The error kinds a run can end with.

use vstd::prelude::*;

verus! {

/// What went wrong during a run: a filesystem failure, a bad world
/// configuration, or a placement mode the platform cannot provide.
#[derive(Debug)]
pub enum StoreError {
    /// A file or directory could not be read or written; carries a detail line.
    IoError(String),
    /// The world configuration was missing or malformed; carries a detail line.
    ConfigError(String),
    /// Symbolic-link placement was requested on a platform without the primitive.
    PlatformUnsupported,
}

impl StoreError {
    /// A single human-readable line describing the failure.
    pub fn message(&self) -> (r: String)
        ensures
            match self {
                StoreError::IoError(d) => r@ == "IO error: "@ + d@,
                StoreError::ConfigError(d) => r@ == "Settings file error: "@ + d@,
                StoreError::PlatformUnsupported => r@ == "Symlinking not supported on this platform!"@,
            },
    {
        match self {
            StoreError::IoError(d) => String::from_str("IO error: ").concat(d.as_str()),
            StoreError::ConfigError(d) => String::from_str("Settings file error: ").concat(d.as_str()),
            StoreError::PlatformUnsupported => String::from_str("Symlinking not supported on this platform!"),
        }
    }
}

} // verus!
