//! The Project IR's addressing: project-relative POSIX paths, the two fixed
//! file names at a project root, and the engine's identity.

use vstd::prelude::*;

use crate::text::{chars_of, string_of};

verus! {

/// A project-relative POSIX path (`regions/region_00001/region.json`).
/// Ordering is the byte order of the path string, the hash's sorted-path
/// order.
#[derive(Clone, Debug, Hash, PartialEq, Eq, PartialOrd, Ord)]
pub struct RelPath(String);

impl View for RelPath {
    type V = Seq<char>;

    closed spec fn view(&self) -> Seq<char> {
        self.0@
    }
}

impl RelPath {
    pub fn new(path: String) -> (res: Self)
        ensures
            res@ == path@,
    {
        RelPath(path)
    }

    /// A path from its characters.
    pub fn from_chars(chars: &Vec<char>) -> (res: Self)
        ensures
            res@ == chars@,
    {
        RelPath(string_of(chars))
    }

    pub fn as_str(&self) -> (res: &str)
        ensures
            res@ == self@,
    {
        self.0.as_str()
    }

    /// A copy of this path.
    pub fn duplicate(&self) -> (res: RelPath)
        ensures
            res@ == self@,
    {
        RelPath(self.0.clone())
    }

    /// The path's characters.
    pub fn chars(&self) -> (res: Vec<char>)
        ensures
            res@ == self@,
    {
        chars_of(self.0.as_str())
    }

    /// Whether two paths are the same string.
    pub fn same(&self, other: &RelPath) -> (res: bool)
        ensures
            res == (self@ == other@),
    {
        crate::text::chars_equal(&self.chars(), &other.chars())
    }
}

/// The file name of the project manifest inside a project root.
pub const MANIFEST_FILE: &'static str = "project.systole.json";

/// The file name of the lock inside a project root.
pub const LOCK_FILE: &'static str = "systole.lock.json";

/// The schema number this engine writes.
pub const PROJECT_SCHEMA: u32 = 1;

/// The revision a freshly initialized project starts at.
pub const FIRST_REVISION: &'static str = "rev_00000";

/// The engine's name as recorded in the manifest.
pub const ENGINE_NAME: &'static str = "systole";

/// The running engine's version string.
pub fn engine_version() -> (res: String)
    ensures
        res@ == "0.1.0"@,
{
    String::from_str("0.1.0")
}

/// A module recorded in the manifest: its version and schema number.
#[derive(Clone, Debug, PartialEq)]
pub struct ModuleEntry {
    pub version: String,
    pub schema: u32,
}

/// The head of the audit chain: the id and hash of the last entry.
#[derive(Clone, Debug, PartialEq)]
pub struct AuditHead {
    pub id: String,
    pub hash: String,
}

} // verus!
