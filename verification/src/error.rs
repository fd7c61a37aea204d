//! What can stop a resolution or a bisection.

use vstd::prelude::*;
use vstd::string::StringExecFns;

verus! {

/// Why a dependency resolution or a bisection round cannot go on.
#[derive(Debug)]
pub enum BisectError {
    /// A required dependency is neither built in nor declared by any candidate.
    MissingDependency(String),
    /// A pinned id is declared by no package of the working set.
    MissingConsistentMod(String),
}

/// Mathematical model of a [`BisectError`].
pub enum Failure {
    MissingDependency(Seq<char>),
    MissingConsistentMod(Seq<char>),
}

impl View for BisectError {
    type V = Failure;

    open spec fn view(&self) -> Failure {
        match self {
            BisectError::MissingDependency(id) => Failure::MissingDependency(id@),
            BisectError::MissingConsistentMod(id) => Failure::MissingConsistentMod(id@),
        }
    }
}

impl BisectError {
    /// The failure in words, naming the id that it is about.
    pub fn message(&self) -> (text: String)
        ensures
            text@ == match self@ {
                Failure::MissingDependency(id) => "Missing dependency: "@ + id,
                Failure::MissingConsistentMod(id) => "Missing consistent mod: "@ + id,
            },
    {
        match self {
            BisectError::MissingDependency(id) => "Missing dependency: ".to_owned().concat(
                id.as_str(),
            ),
            BisectError::MissingConsistentMod(id) => "Missing consistent mod: ".to_owned().concat(
                id.as_str(),
            ),
        }
    }
}

/// Why an archive yields no package. Each failure concerns one archive only.
#[derive(Clone, Copy, Debug, PartialEq, Eq, Structural)]
pub enum ScanError {
    /// The file name has no extension.
    MissingExtension,
    /// The file name's extension is not that of a package archive.
    InvalidExtension,
    /// The bytes cannot be opened as an archive.
    NotAnArchive,
    /// An entry of the archive cannot be read in full.
    UnreadableEntry,
    /// An entry that should hold text is not valid UTF-8.
    InvalidText,
    /// The descriptor is not a TOML document.
    MalformedDescriptor,
    /// The descriptor has no `mods` entry.
    MissingMods,
    /// The descriptor's `mods` entry is not a list.
    ModsNotArray,
    /// The descriptor's `dependencies` entry is not a table.
    DependenciesNotTable,
    /// A package entry has no `modId`.
    MissingModId,
    /// A package entry's `modId` is not a string.
    ModIdNotString,
    /// A package entry has no `displayName`.
    MissingDisplayName,
    /// A package entry's `displayName` is not a string.
    DisplayNameNotString,
    /// The manifest of nested archives is not JSON.
    MalformedManifest,
    /// The manifest has no `jars` entry.
    MissingJars,
    /// The manifest's `jars` entry is not a list.
    JarsNotArray,
    /// An entry of the manifest has no `path`.
    MissingPath,
    /// The `path` of an entry of the manifest is not a string.
    PathNotString,
    /// The manifest names a nested archive that the archive does not hold.
    MissingNestedArchive,
    /// Archives are nested more deeply than the reader follows.
    NestedTooDeeply,
}

} // verus!
