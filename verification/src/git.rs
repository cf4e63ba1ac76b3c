//! Data carried by the version-control staging pane: file status entries,
//! diff hunks and their lines. The repository itself is an external
//! collaborator; only the data model lives here.

use vstd::prelude::*;

verus! {

/// The working-tree status of one file.
#[derive(Clone, Copy, Debug, PartialEq, Eq, Structural)]
pub enum GitFileStatus {
    Modified,
    Added,
    Deleted,
    Renamed,
    Untracked,
}

impl GitFileStatus {
    /// The short status marker shown in the file list.
    pub fn to_str(self) -> (r: &'static str)
        ensures
            self is Modified ==> r@ == "M"@,
            self is Added ==> r@ == "A"@,
            self is Deleted ==> r@ == "D"@,
            self is Renamed ==> r@ == "R"@,
            self is Untracked ==> r@ == "??"@,
    {
        match self {
            GitFileStatus::Modified => "M",
            GitFileStatus::Added => "A",
            GitFileStatus::Deleted => "D",
            GitFileStatus::Renamed => "R",
            GitFileStatus::Untracked => "??",
        }
    }
}

/// One changed file: its repository-relative path, status and whether the
/// change is staged.
pub struct GitFile {
    pub path: String,
    pub status: GitFileStatus,
    pub staged: bool,
}

/// One line of a diff hunk.
pub struct DiffLine {
    pub origin: char,
    pub content: String,
    pub old_lineno: Option<u32>,
    pub new_lineno: Option<u32>,
}

/// One hunk of a file diff.
pub struct GitHunk {
    pub old_start: u32,
    pub old_lines: u32,
    pub new_start: u32,
    pub new_lines: u32,
    pub header: String,
    pub lines: Vec<DiffLine>,
    pub staged: bool,
}

} // verus!
