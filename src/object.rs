//! The object model: blobs, trees, commits, and their mathematical views.

use vstd::prelude::*;

verus! {

/// A 20-byte object identifier.
pub type Sha = [u8; 20];

/// The mode of a tree entry.
#[derive(Clone, Copy, Debug, PartialEq, Eq, Structural)]
pub enum TreeEntryPermission {
    Directory,
    RegularFile,
    SymbolicLink,
    Executable,
}

/// What a tree entry stands for: its mode, its name bytes and the hash it references.
pub ghost struct EntryModel {
    pub permission: TreeEntryPermission,
    pub name: Seq<u8>,
    pub hash: Seq<u8>,
}

/// One line of a tree: a mode, a name (raw bytes) and the hash of the referenced object.
#[derive(Clone, Debug)]
pub struct TreeEntry {
    pub permission: TreeEntryPermission,
    pub name: Vec<u8>,
    pub hash: Sha,
}

impl View for TreeEntry {
    type V = EntryModel;

    open spec fn view(&self) -> EntryModel {
        EntryModel { permission: self.permission, name: self.name@, hash: self.hash@ }
    }
}

/// A directory snapshot: entries in the order in which they are encoded.
#[derive(Clone, Debug)]
pub struct Tree {
    pub entries: Vec<TreeEntry>,
}

impl View for Tree {
    type V = Seq<EntryModel>;

    open spec fn view(&self) -> Seq<EntryModel> {
        self.entries@.map_values(|e: TreeEntry| e@)
    }
}

/// Raw file contents.
#[derive(Clone, Debug)]
pub struct Blob {
    pub content: Vec<u8>,
}

impl View for Blob {
    type V = Seq<u8>;

    open spec fn view(&self) -> Seq<u8> {
        self.content@
    }
}

/// Who wrote a commit: free-form name and e-mail bytes.
#[derive(Clone, Debug)]
pub struct CommitAuthor {
    pub name: Vec<u8>,
    pub email: Vec<u8>,
}

/// When a commit was written: seconds since the epoch, and the offset from
/// UTC in minutes (east positive).
#[derive(Clone, Copy, Debug, PartialEq, Eq, Structural)]
pub struct CommitTimestamp {
    pub seconds: u64,
    pub timezone_offset: i16,
}

impl CommitTimestamp {
    /// The offset fits the four-digit `HHMM` rendering.
    pub open spec fn wf(&self) -> bool {
        -6000 < self.timezone_offset < 6000
    }
}

/// What a commit stands for.
pub ghost struct CommitModel {
    pub tree: Seq<u8>,
    pub parents: Seq<Seq<u8>>,
    pub author_name: Seq<u8>,
    pub author_email: Seq<u8>,
    pub timestamp: CommitTimestamp,
    pub message: Seq<u8>,
}

/// A commit record: a tree, parent commits in order, authorship and a message.
#[derive(Clone, Debug)]
pub struct Commit {
    pub tree: Sha,
    pub parents: Vec<Sha>,
    pub author: CommitAuthor,
    pub author_timestamp: CommitTimestamp,
    pub message: Vec<u8>,
}

impl View for Commit {
    type V = CommitModel;

    open spec fn view(&self) -> CommitModel {
        CommitModel {
            tree: self.tree@,
            parents: self.parents@.map_values(|p: Sha| p@),
            author_name: self.author.name@,
            author_email: self.author.email@,
            timestamp: self.author_timestamp,
            message: self.message@,
        }
    }
}

/// What a stored object stands for.
pub ghost enum ObjectModel {
    Blob(Seq<u8>),
    Tree(Seq<EntryModel>),
    Commit(CommitModel),
}

/// A stored object: exactly one of the three kinds.
#[derive(Clone, Debug)]
pub enum GitObject {
    Blob(Blob),
    Tree(Tree),
    Commit(Commit),
}

impl View for GitObject {
    type V = ObjectModel;

    open spec fn view(&self) -> ObjectModel {
        match self {
            GitObject::Blob(b) => ObjectModel::Blob(b@),
            GitObject::Tree(t) => ObjectModel::Tree(t@),
            GitObject::Commit(c) => ObjectModel::Commit(c@),
        }
    }
}

/// The store of objects, addressed by the hash of their encoding.
pub struct ObjectStorage {}

/// The ways in which an operation of the store can fail.
#[derive(Clone, Copy, Debug, PartialEq, Eq, Structural)]
pub enum ObjectError {
    InvalidHashEncoding,
    ObjectNotFound,
    MalformedObject,
    UnsupportedObjectType,
    UnsupportedPermission,
    UnexpectedObjectKind,
    AlreadyInitialized,
    FilesystemError,
}

} // verus!
