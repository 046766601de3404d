//! The commands of the organizer and the decisions taken before any file is touched.

use vstd::prelude::*;
use vstd::string::StringExecFns;

verus! {

/// What a path names on disk, as seen just before a command runs.
#[derive(Clone, Copy, Debug, PartialEq, Eq, Structural)]
pub enum PathKind {
    Missing,
    NotDirectory,
    Directory,
}

/// How the files of a directory are grouped.
#[derive(Clone, Copy, Debug, PartialEq, Eq, Structural)]
pub enum SortMode {
    /// By lowercased extension.
    Extension,
    /// By the Jaccard index of the tokens of their names.
    Lexical,
    /// By the closeness of the word vectors of the tokens of their names.
    Semantic,
}

/// Options for sorting files.
#[derive(Clone, Copy, Debug, PartialEq, Eq, Structural)]
pub struct SortOptions {
    /// Sort files by extension.
    pub ext: bool,
    /// Sort files by the meaning of their names.
    pub name: bool,
    /// Sort each subdirectory as well, each on its own.
    pub recursive: bool,
}

impl SortOptions {
    /// The grouping that the options ask for: by extension when `ext` is set, else by
    /// meaning when `name` is set, else by shared tokens.
    pub fn mode(&self) -> (m: SortMode)
        ensures
            m == (if self.ext {
                SortMode::Extension
            } else if self.name {
                SortMode::Semantic
            } else {
                SortMode::Lexical
            }),
    {
        if self.ext {
            SortMode::Extension
        } else if self.name {
            SortMode::Semantic
        } else {
            SortMode::Lexical
        }
    }
}

/// The commands of the organizer, each on a directory.
#[derive(Debug, PartialEq, Eq)]
pub enum Commands {
    /// Populate the directory with test files.
    Populate { path: String },
    /// Clear all files from the directory.
    Clear { path: String },
    /// Sort files in the directory.
    Sort { path: String, ext: bool, name: bool, recursive: bool },
}

/// A parsed command line.
#[derive(Debug, PartialEq, Eq)]
pub struct Cli {
    /// The command to execute.
    pub command: Commands,
}

/// The work that a command comes to once its directory has been checked.
#[derive(Debug, PartialEq, Eq)]
pub enum Action {
    Populate(String),
    Clear(String),
    Sort(String, SortOptions),
}

/// The message for a path that names nothing.
pub open spec fn missing_message(path: Seq<char>) -> Seq<char> {
    "Path does not exist: "@ + path
}

/// The message for a path that names something other than a directory.
pub open spec fn not_directory_message(path: Seq<char>) -> Seq<char> {
    "Path is not a directory: "@ + path
}

/// Accepts `path` when it names a directory (`kind`), and says what is wrong otherwise.
pub fn validate_path(path: &String, kind: PathKind) -> (r: Result<(), String>)
    ensures
        match kind {
            PathKind::Directory => r is Ok,
            PathKind::Missing => r matches Err(e) && e@ == missing_message(path@),
            PathKind::NotDirectory => r matches Err(e) && e@ == not_directory_message(path@),
        },
{
    match kind {
        PathKind::Directory => Ok(()),
        PathKind::Missing => Err(String::from_str("Path does not exist: ").concat(path.as_str())),
        PathKind::NotDirectory => Err(
            String::from_str("Path is not a directory: ").concat(path.as_str()),
        ),
    }
}

impl Commands {
    /// The directory that the command works on.
    pub open spec fn target(&self) -> String {
        match self {
            Commands::Populate { path } => *path,
            Commands::Clear { path } => *path,
            Commands::Sort { path, .. } => *path,
        }
    }

    /// The work that the command comes to, given what its directory is (`kind`); the
    /// directory is checked first, and a path that is not a directory is refused with the
    /// message of `validate_path` before anything is done.
    pub fn execute(&self, kind: PathKind) -> (r: Result<Action, String>)
        ensures
            kind == PathKind::Missing ==> (r matches Err(e) && e@ == missing_message(
                self.target()@,
            )),
            kind == PathKind::NotDirectory ==> (r matches Err(e) && e@ == not_directory_message(
                self.target()@,
            )),
            kind == PathKind::Directory ==> match self {
                Commands::Populate { path } => r matches Ok(Action::Populate(p)) && p@ == path@,
                Commands::Clear { path } => r matches Ok(Action::Clear(p)) && p@ == path@,
                Commands::Sort { path, ext, name, recursive } => r matches Ok(
                    Action::Sort(p, o),
                ) && p@ == path@ && o == (SortOptions {
                    ext: *ext,
                    name: *name,
                    recursive: *recursive,
                }),
            },
    {
        match self {
            Commands::Populate { path } => {
                validate_path(path, kind)?;
                Ok(Action::Populate(path.clone()))
            },
            Commands::Clear { path } => {
                validate_path(path, kind)?;
                Ok(Action::Clear(path.clone()))
            },
            Commands::Sort { path, ext, name, recursive } => {
                validate_path(path, kind)?;
                let options = SortOptions { ext: *ext, name: *name, recursive: *recursive };
                Ok(Action::Sort(path.clone(), options))
            },
        }
    }
}

} // verus!
