//! What a walk over a directory tree hands to generation and verification,
//! and which of it they pass over.

use vstd::prelude::*;

verus! {

/// One entry of a walk: where it is, its leaf name if that is text, whether
/// it is a regular file, and for a regular file its size and contents.
#[derive(Debug, PartialEq, Eq)]
pub struct TreeEntry {
    /// The path as the manifest writes it.
    pub path: String,
    /// The leaf name, where it is text.
    pub name: Option<String>,
    /// Whether the entry is a regular file.
    pub is_file: bool,
    /// The size in bytes that the file system gives.
    pub size: u64,
    /// The bytes of the file.
    pub content: Vec<u8>,
}

/// The mathematical value of a `TreeEntry`.
#[verifier::ext_equal]
pub struct TreeItem {
    pub path: Seq<char>,
    pub name: Option<Seq<char>>,
    pub is_file: bool,
    pub size: u64,
    pub content: Seq<u8>,
}

impl View for TreeEntry {
    type V = TreeItem;

    open spec fn view(&self) -> TreeItem {
        TreeItem {
            path: self.path@,
            name: match self.name {
                Some(n) => Some(n@),
                None => None,
            },
            is_file: self.is_file,
            size: self.size,
            content: self.content@,
        }
    }
}

/// The values of the entries of a walk, in order.
pub open spec fn items(files: Seq<TreeEntry>) -> Seq<TreeItem> {
    files.map_values(|f: TreeEntry| f@)
}

/// Where a run writes while it is under way.
pub open spec fn temp_path_of(manifest_path: Seq<char>) -> Seq<char> {
    manifest_path + ".tmp"@
}

/// Where a resumed run keeps what the run before it had written.
pub open spec fn backup_path_of(manifest_path: Seq<char>) -> Seq<char> {
    temp_path_of(manifest_path) + ".backup"@
}

/// The names of the manifest's own files: the manifest, the file a run
/// writes to, and the copy kept of an earlier run.
pub open spec fn own_name(name: Seq<char>, manifest_name: Seq<char>) -> bool {
    ||| name == manifest_name
    ||| name == temp_path_of(manifest_name)
    ||| name == backup_path_of(manifest_name)
}

/// The path of the file that a run writes to.
pub fn temp_path(manifest_path: &str) -> (path: String)
    ensures
        path@ == temp_path_of(manifest_path@),
{
    manifest_path.to_owned().concat(".tmp")
}

/// The path under which a resumed run keeps the file of the run before it.
pub fn backup_path(manifest_path: &str) -> (path: String)
    ensures
        path@ == backup_path_of(manifest_path@),
{
    temp_path(manifest_path).concat(".backup")
}

/// Whether `name` is the name of one of the manifest's own files.
pub fn is_own_name(name: &str, manifest_name: &str) -> (own: bool)
    ensures
        own == own_name(name@, manifest_name@),
{
    let name = name.to_owned();
    if name == manifest_name.to_owned() {
        return true;
    }
    if name == temp_path(manifest_name) {
        return true;
    }
    name == backup_path(manifest_name)
}

/// How a run treats an entry.
#[derive(Debug, Clone, Copy, PartialEq, Eq)]
pub enum EntryKind {
    /// Not a regular file: passed over.
    Other,
    /// A regular file whose name is not text: the run fails on it.
    Unnamed,
    /// One of the manifest's own files: passed over.
    Own,
    /// A regular file that the manifest is about.
    Listed,
}

/// The kind of an entry, from whether it is a regular file and from its
/// name.
pub open spec fn kind_of(is_file: bool, name: Option<Seq<char>>, manifest_name: Seq<char>) -> EntryKind {
    if !is_file {
        EntryKind::Other
    } else {
        match name {
            None => EntryKind::Unnamed,
            Some(n) => if own_name(n, manifest_name) {
                EntryKind::Own
            } else {
                EntryKind::Listed
            },
        }
    }
}

/// The kind of an entry of a walk.
pub open spec fn item_kind(f: TreeItem, manifest_name: Seq<char>) -> EntryKind {
    kind_of(f.is_file, f.name, manifest_name)
}

/// The files of a walk that the manifest is about, in order.
pub open spec fn listed_files(files: Seq<TreeItem>, manifest_name: Seq<char>) -> Seq<TreeItem> {
    files.filter(|f: TreeItem| item_kind(f, manifest_name) == EntryKind::Listed)
}

/// The characters of a name that is text.
pub open spec fn name_of(name: Option<&str>) -> Option<Seq<char>> {
    match name {
        Some(n) => Some(n@),
        None => None,
    }
}

/// Sorts an entry by whether it is a regular file and by its name.
pub fn classify(is_file: bool, name: Option<&str>, manifest_name: &str) -> (kind: EntryKind)
    ensures
        kind == kind_of(is_file, name_of(name), manifest_name@),
{
    if !is_file {
        EntryKind::Other
    } else {
        match name {
            None => EntryKind::Unnamed,
            Some(n) => if is_own_name(n, manifest_name) {
                EntryKind::Own
            } else {
                EntryKind::Listed
            },
        }
    }
}

/// Why a generation or a verification stops.
#[derive(Debug, Clone, Copy, PartialEq, Eq)]
pub enum WalkError {
    /// A regular file whose name is not text.
    InvalidFilename,
    /// A file with more bytes than one digest can cover.
    TooLarge,
}

/// The words for a walk error.
pub open spec fn walk_error_text(e: WalkError) -> Seq<char> {
    match e {
        WalkError::InvalidFilename => "Invalid filename!"@,
        WalkError::TooLarge => "File too large to digest"@,
    }
}

impl WalkError {
    /// The error in words.
    pub fn message(&self) -> (text: String)
        ensures
            text@ == walk_error_text(*self),
    {
        match self {
            WalkError::InvalidFilename => "Invalid filename!".to_owned(),
            WalkError::TooLarge => "File too large to digest".to_owned(),
        }
    }
}

/// Whether progress is reported after the `count`-th file: after the first
/// and after every hundredth.
pub fn progress_due(count: u64) -> (due: bool)
    ensures
        due == (count == 1 || count % 100 == 0),
{
    count == 1 || count % 100 == 0
}

} // verus!
