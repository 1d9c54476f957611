//! File-type tags for discovered entries, and the optional type filter that
//! selects which entries are counted and listed.

use vstd::prelude::*;

verus! {

/// The file-type tag of a discovered directory entry.
#[derive(Copy, Clone, PartialEq, Eq, Structural, Debug)]
pub enum FileKind {
    Regular,
    Directory,
    Symlink,
    Block,
    Char,
    Pipe,
    Socket,
}

/// A type filter: selects exactly one file kind. Matched entries are eligible
/// for counting and listing; directory descent is never affected by it.
#[derive(Copy, Clone, PartialEq, Eq, Structural, Debug)]
pub enum FileTypeMatcher {
    Dir,
    Regular,
    Symlink,
    Block,
    Char,
    Pipe,
    Socket,
}

impl FileTypeMatcher {
    /// The single-letter code understood on the command line, if valid.
    pub open spec fn spec_from(c: char) -> Option<FileTypeMatcher> {
        match c {
            'b' => Some(FileTypeMatcher::Block),
            'c' => Some(FileTypeMatcher::Char),
            'd' => Some(FileTypeMatcher::Dir),
            'p' => Some(FileTypeMatcher::Pipe),
            'f' => Some(FileTypeMatcher::Regular),
            'l' => Some(FileTypeMatcher::Symlink),
            's' => Some(FileTypeMatcher::Socket),
            _ => None,
        }
    }

    /// Parses a single-letter type code; callers must hand a valid code.
    pub fn from(c: char) -> (r: FileTypeMatcher)
        requires
            Self::spec_from(c) is Some,
        ensures
            Some(r) == Self::spec_from(c),
    {
        match c {
            'b' => FileTypeMatcher::Block,
            'c' => FileTypeMatcher::Char,
            'd' => FileTypeMatcher::Dir,
            'p' => FileTypeMatcher::Pipe,
            'f' => FileTypeMatcher::Regular,
            'l' => FileTypeMatcher::Symlink,
            _ => FileTypeMatcher::Socket,
        }
    }

    /// Whether this filter accepts the given file kind.
    pub open spec fn spec_is(self, k: FileKind) -> bool {
        match self {
            FileTypeMatcher::Block => k == FileKind::Block,
            FileTypeMatcher::Char => k == FileKind::Char,
            FileTypeMatcher::Pipe => k == FileKind::Pipe,
            FileTypeMatcher::Socket => k == FileKind::Socket,
            FileTypeMatcher::Symlink => k == FileKind::Symlink,
            FileTypeMatcher::Regular => k == FileKind::Regular,
            FileTypeMatcher::Dir => k == FileKind::Directory,
        }
    }

    /// Tests whether an entry of kind `k` matches this filter.
    pub fn is(&self, k: FileKind) -> (r: bool)
        ensures
            r == self.spec_is(k),
    {
        match *self {
            FileTypeMatcher::Block => k == FileKind::Block,
            FileTypeMatcher::Char => k == FileKind::Char,
            FileTypeMatcher::Pipe => k == FileKind::Pipe,
            FileTypeMatcher::Socket => k == FileKind::Socket,
            FileTypeMatcher::Symlink => k == FileKind::Symlink,
            FileTypeMatcher::Regular => k == FileKind::Regular,
            FileTypeMatcher::Dir => k == FileKind::Directory,
        }
    }
}

} // verus!
