//! The decisions of checkout and of building trees from a directory. The
//! caller reads and writes the files; these functions say what to do.

use vstd::prelude::*;
use crate::codec::encode_object;
use crate::decode::hashes_view;
use crate::hex::{as_chars, hex_lower};
use crate::object::{
    Blob, Commit, CommitAuthor, CommitTimestamp, GitObject, ObjectError, ObjectModel,
    ObjectStorage, Sha, TreeEntry, TreeEntryPermission,
};
use crate::store::{path_for, stores, ObjectWrite};
use crate::text::{copy_range, matches_at};

verus! {

/// What the object reached during checkout is expected to be.
#[derive(Clone, Copy, Debug, PartialEq, Eq, Structural)]
pub enum Expected {
    /// The object named by the caller: a commit, a tree or a blob.
    Any,
    /// The object of a directory entry, or the tree of a commit.
    Tree,
    /// The contents of a file or symbolic link entry.
    Blob,
}

/// What checkout does with an object it has read.
#[derive(Debug)]
pub enum CheckoutStep {
    /// A commit: check out its tree at the same place.
    Descend(Sha),
    /// A blob: its bytes become the file at the destination.
    Write(Vec<u8>),
    /// A tree: materialise each entry under the destination.
    Expand(Vec<TreeEntry>),
}

/// How a tree entry is materialised.
#[derive(Clone, Copy, Debug, PartialEq, Eq, Structural)]
pub enum Materialize {
    /// Create the directory (an existing one is fine) and check out the tree in it.
    Directory,
    /// Write the blob's bytes to a file.
    File,
    /// Write the blob's bytes to a file and set its executable bit.
    ExecutableFile,
    /// Create a symbolic link whose target is the blob's bytes.
    SymbolicLink,
}

/// The materialisation of each mode.
pub open spec fn materialization_of(p: TreeEntryPermission) -> Materialize {
    match p {
        TreeEntryPermission::Directory => Materialize::Directory,
        TreeEntryPermission::RegularFile => Materialize::File,
        TreeEntryPermission::Executable => Materialize::ExecutableFile,
        TreeEntryPermission::SymbolicLink => Materialize::SymbolicLink,
    }
}

/// What checkout expects to find behind an entry of each mode.
pub open spec fn expected_of(p: TreeEntryPermission) -> Expected {
    match p {
        TreeEntryPermission::Directory => Expected::Tree,
        _ => Expected::Blob,
    }
}

impl TreeEntryPermission {
    /// How an entry of this mode is materialised.
    pub fn materialization(&self) -> (r: Materialize)
        ensures
            r == materialization_of(*self),
    {
        match self {
            TreeEntryPermission::Directory => Materialize::Directory,
            TreeEntryPermission::RegularFile => Materialize::File,
            TreeEntryPermission::Executable => Materialize::ExecutableFile,
            TreeEntryPermission::SymbolicLink => Materialize::SymbolicLink,
        }
    }

    /// What the object behind an entry of this mode must be.
    pub fn expected(&self) -> (r: Expected)
        ensures
            r == expected_of(*self),
    {
        match self {
            TreeEntryPermission::Directory => Expected::Tree,
            _ => Expected::Blob,
        }
    }

    /// The mode of a directory child: a directory, a symbolic link, an
    /// executable file, or a regular file, in that order of precedence.
    pub fn for_child(is_dir: bool, is_symlink: bool, is_executable: bool) -> (r:
        TreeEntryPermission)
        ensures
            r == (if is_dir {
                TreeEntryPermission::Directory
            } else if is_symlink {
                TreeEntryPermission::SymbolicLink
            } else if is_executable {
                TreeEntryPermission::Executable
            } else {
                TreeEntryPermission::RegularFile
            }),
    {
        if is_dir {
            TreeEntryPermission::Directory
        } else if is_symlink {
            TreeEntryPermission::SymbolicLink
        } else if is_executable {
            TreeEntryPermission::Executable
        } else {
            TreeEntryPermission::RegularFile
        }
    }
}

/// Whether an object of this kind may stand where `expected` is asked for.
pub open spec fn kind_allowed(o: ObjectModel, expected: Expected) -> bool {
    match expected {
        Expected::Any => true,
        Expected::Tree => o is Tree,
        Expected::Blob => o is Blob,
    }
}

/// The bytes `.git`, the store's own directory.
pub open spec fn store_dir_name() -> Seq<u8> {
    seq![46u8, 103, 105, 116]
}

impl ObjectStorage {
    /// What checkout does with `object`, found where `expected` was asked
    /// for; an object of another kind is `UnexpectedObjectKind`.
    pub fn checkout_step(object: GitObject, expected: Expected) -> (r: Result<
        CheckoutStep,
        ObjectError,
    >)
        ensures
            !kind_allowed(object@, expected) ==> r == Err::<CheckoutStep, ObjectError>(
                ObjectError::UnexpectedObjectKind,
            ),
            kind_allowed(object@, expected) ==> match object {
                GitObject::Commit(c) => r matches Ok(CheckoutStep::Descend(t)) && t == c.tree,
                GitObject::Blob(b) => r matches Ok(CheckoutStep::Write(v)) && v@ == b@,
                GitObject::Tree(t) => r matches Ok(CheckoutStep::Expand(es)) && es@ == t.entries@,
            },
    {
        match object {
            GitObject::Commit(c) => {
                if expected != Expected::Any {
                    return Err(ObjectError::UnexpectedObjectKind);
                }
                Ok(CheckoutStep::Descend(c.tree))
            },
            GitObject::Blob(b) => {
                if expected == Expected::Tree {
                    return Err(ObjectError::UnexpectedObjectKind);
                }
                Ok(CheckoutStep::Write(b.content))
            },
            GitObject::Tree(t) => {
                if expected == Expected::Blob {
                    return Err(ObjectError::UnexpectedObjectKind);
                }
                Ok(CheckoutStep::Expand(t.entries))
            },
        }
    }

    /// Whether a directory child is skipped when a tree is built: the
    /// store's own directory, `.git`.
    pub fn is_excluded(name: &[u8]) -> (r: bool)
        ensures
            r == (name@ == store_dir_name()),
    {
        let r = name.len() == 4 && matches_at(name, 0, &[46u8, 103, 105, 116]);
        proof {
            if name@.len() == 4 {
                assert(name@.subrange(0, 4) =~= name@);
            }
            assert(store_dir_name() =~= seq![46u8, 103, 105, 116]);
        }
        r
    }

    /// The file that holds the object with hash `sha`.
    pub fn git_object_path(sha: &Sha) -> (r: String)
        ensures
            r@ == path_for(as_chars(hex_lower(sha@))),
    {
        let hex = Self::sha_to_hex_string(sha);
        Self::dir_and_path(hex.as_str()).1
    }

    /// A commit of `tree` with the given parents, in order, authorship and
    /// message, and the write that stores it. Nothing else is looked up or
    /// updated.
    pub fn commit_tree(
        tree: &Sha,
        parents: Vec<Sha>,
        message: Vec<u8>,
        author: CommitAuthor,
        timestamp: CommitTimestamp,
    ) -> (r: Result<(Commit, ObjectWrite), ObjectError>)
        requires
            timestamp.wf(),
        ensures
            r is Ok,
            r matches Ok((c, w)) ==> c.tree == *tree && hashes_view(c.parents@) == hashes_view(
                parents@,
            ) && c@.message == message@ && c@.author_name == author.name@ && c@.author_email
                == author.email@ && c.author_timestamp == timestamp && stores(
                w,
                encode_object(ObjectModel::Commit(c@)),
            ),
    {
        let c = Commit { tree: *tree, parents, author, author_timestamp: timestamp, message };
        let w = c.write_to_object_storage()?;
        Ok((c, w))
    }
}

impl TreeEntry {
    /// The line that lists this entry: its name alone, or its mode, name and
    /// hex hash separated by single spaces.
    pub fn listing_line(&self, name_only: bool) -> (r: Vec<u8>)
        ensures
            name_only ==> r@ == self.name@,
            !name_only ==> r@ == crate::codec::mode_text(self.permission) + seq![32u8]
                + self.name@ + seq![32u8] + hex_lower(self.hash@),
    {
        if name_only {
            return copy_range(self.name.as_slice(), 0, self.name.len());
        }
        let mut r = self.permission.mode_bytes();
        r.push(32u8);
        crate::text::push_bytes(&mut r, self.name.as_slice());
        r.push(32u8);
        let hex = crate::hex::hex_bytes(&self.hash);
        crate::text::push_bytes(&mut r, hex.as_slice());
        proof {
            assert(self.name@.subrange(0, self.name@.len() as int) =~= self.name@);
        }
        r
    }
}

} // verus!
