//! One node of the tree.
use vstd::prelude::*;
use crate::path::RelPath;

verus! {

/// What is known of an entry's contents.
#[derive(Clone, Copy, Debug, PartialEq, Eq, Structural)]
pub enum EntryKind {
    /// A directory scheduled for reading.
    PendingDir,
    /// A directory known to exist whose contents were not read.
    UnloadedDir,
    /// A directory whose contents were read.
    Dir,
    File,
}

impl EntryKind {
    pub open spec fn spec_is_dir(self) -> bool {
        self != EntryKind::File
    }

    pub fn is_dir(&self) -> (r: bool)
        ensures
            r == self.spec_is_dir(),
    {
        !matches!(self, EntryKind::File)
    }
}

pub struct Entry {
    pub path: RelPath,
    pub id: u64,
    pub kind: EntryKind,
    pub mtime: u64,
    pub size: u64,
    pub inode: u64,
    pub is_symlink: bool,
    pub is_ignored: bool,
    pub is_external: bool,
    pub is_always_included: bool,
    pub is_private: bool,
}

/// An entry as a mathematical value.
pub struct EntryView {
    pub path: Seq<Seq<u8>>,
    pub id: u64,
    pub kind: EntryKind,
    pub mtime: u64,
    pub size: u64,
    pub inode: u64,
    pub is_symlink: bool,
    pub is_ignored: bool,
    pub is_external: bool,
    pub is_always_included: bool,
    pub is_private: bool,
}

impl View for Entry {
    type V = EntryView;

    open spec fn view(&self) -> EntryView {
        EntryView {
            path: self.path@,
            id: self.id,
            kind: self.kind,
            mtime: self.mtime,
            size: self.size,
            inode: self.inode,
            is_symlink: self.is_symlink,
            is_ignored: self.is_ignored,
            is_external: self.is_external,
            is_always_included: self.is_always_included,
            is_private: self.is_private,
        }
    }
}

impl Entry {
    /// A new entry with the given identity and no flags set.
    pub fn new(path: RelPath, id: u64, kind: EntryKind, inode: u64, mtime: u64, size: u64) -> (r: Entry)
        ensures
            r@ == (EntryView {
                path: path@,
                id,
                kind,
                mtime,
                size,
                inode,
                is_symlink: false,
                is_ignored: false,
                is_external: false,
                is_always_included: false,
                is_private: false,
            }),
    {
        Entry {
            path,
            id,
            kind,
            mtime,
            size,
            inode,
            is_symlink: false,
            is_ignored: false,
            is_external: false,
            is_always_included: false,
            is_private: false,
        }
    }

    pub fn copy(&self) -> (r: Entry)
        ensures
            r@ == self@,
    {
        Entry {
            path: self.path.copy(),
            id: self.id,
            kind: self.kind,
            mtime: self.mtime,
            size: self.size,
            inode: self.inode,
            is_symlink: self.is_symlink,
            is_ignored: self.is_ignored,
            is_external: self.is_external,
            is_always_included: self.is_always_included,
            is_private: self.is_private,
        }
    }

    /// Whether two entries agree in every field.
    pub fn same_as(&self, o: &Entry) -> (r: bool)
        ensures
            r == (self@ == o@),
    {
        self.path.path_eq(&o.path) && self.id == o.id && self.kind == o.kind && self.mtime == o.mtime
            && self.size == o.size && self.inode == o.inode && self.is_symlink == o.is_symlink
            && self.is_ignored == o.is_ignored && self.is_external == o.is_external
            && self.is_always_included == o.is_always_included && self.is_private == o.is_private
    }

    pub fn is_dir(&self) -> (r: bool)
        ensures
            r == self.kind.spec_is_dir(),
    {
        self.kind.is_dir()
    }

    pub fn is_file(&self) -> (r: bool)
        ensures
            r == (self.kind == EntryKind::File),
    {
        !self.kind.is_dir()
    }
}

} // verus!
