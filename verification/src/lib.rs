//! Sorts the files of one directory into subdirectories by extension rules.
//!
//! The library holds the verified core: the rule set and its ordered-map
//! semantics (`rules`), path reading and joining (`paths`), the planning of
//! sort and clean passes (`organizer`), the stored text of a configuration
//! and its decoder (`codec`), and the fixed settings locations with the
//! start-up decision (`config`). Scanning directories, moving and deleting
//! files, and reading or writing the configuration file are left to the
//! caller, who hands plain values in and carries the returned plans out.

use vstd::prelude::*;

pub mod codec;
pub mod config;
pub mod organizer;
pub mod paths;
pub mod rules;

verus! {

/// The error kinds the organizer distinguishes.
///
/// `ConfigCorrupt` is the only kind the library itself produces (a stored
/// configuration that cannot be decoded); the I/O kinds are for the
/// unverified shell around the library, so that callers see one error type.
#[derive(Clone, Copy, PartialEq, Eq, Structural, Debug)]
pub enum OrgError {
    ConfigCorrupt,
    ConfigDirCreateFailed,
    ConfigWriteFailed,
    FileScanFailed,
    FileMoveFailed,
    FileDeleteFailed,
}

impl OrgError {
    /// A fixed line of text for each kind, for reporting.
    pub fn describe(&self) -> (r: String)
        ensures
            r@ == (match *self {
                OrgError::ConfigCorrupt => "the saved configuration is corrupt"@,
                OrgError::ConfigDirCreateFailed => "the configuration directory could not be created"@,
                OrgError::ConfigWriteFailed => "the configuration could not be written"@,
                OrgError::FileScanFailed => "the directory could not be scanned"@,
                OrgError::FileMoveFailed => "a file could not be moved"@,
                OrgError::FileDeleteFailed => "a file could not be deleted"@,
            }),
    {
        match self {
            OrgError::ConfigCorrupt => "the saved configuration is corrupt".to_owned(),
            OrgError::ConfigDirCreateFailed => "the configuration directory could not be created".to_owned(),
            OrgError::ConfigWriteFailed => "the configuration could not be written".to_owned(),
            OrgError::FileScanFailed => "the directory could not be scanned".to_owned(),
            OrgError::FileMoveFailed => "a file could not be moved".to_owned(),
            OrgError::FileDeleteFailed => "a file could not be deleted".to_owned(),
        }
    }
}

} // verus!
