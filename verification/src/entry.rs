//! One member of an archive, as the plain values that extraction reads.

use vstd::prelude::*;
use vstd::string::*;
use crate::path::{resolve_path, resolved};

verus! {

/// One member of an archive.
#[derive(Clone, Debug, PartialEq, Eq)]
pub struct Entry {
    /// The path stored in the archive, verbatim.
    pub name: String,
    /// The name as the archive reader vouches for it, absent for an entry
    /// that the reader holds to be unsafe.
    pub enclosed: Option<String>,
    /// The entry's comment, empty where it has none.
    pub comment: String,
    /// The declared length of the uncompressed contents, in bytes.
    pub size: u64,
    /// The Unix mode, where the archive recorded one.
    pub unix_mode: Option<u32>,
}

/// The mathematical value of an [`Entry`].
pub struct EntryView {
    pub name: Seq<char>,
    pub enclosed: Option<Seq<char>>,
    pub comment: Seq<char>,
    pub size: u64,
    pub unix_mode: Option<u32>,
}

impl View for Entry {
    type V = EntryView;

    open spec fn view(&self) -> EntryView {
        EntryView {
            name: self.name@,
            enclosed: match self.enclosed {
                Some(e) => Some(e@),
                None => None,
            },
            comment: self.comment@,
            size: self.size,
            unix_mode: self.unix_mode,
        }
    }
}

/// An entry is a directory exactly when its declared name ends with `/`.
pub open spec fn is_directory(e: EntryView) -> bool {
    e.name.len() > 0 && e.name.last() == '/'
}

/// The path at which an entry is materialized: its enclosed name, resolved
/// relative to the working directory. `None` means that the entry is skipped.
pub open spec fn entry_path(e: EntryView) -> Option<Seq<char>> {
    match e.enclosed {
        Some(n) => resolved(n),
        None => None,
    }
}

impl Entry {
    /// Whether the entry stands for a directory.
    pub fn is_dir(&self) -> (b: bool)
        ensures
            b == is_directory(self@),
    {
        let n: usize = self.name.as_str().unicode_len();
        n > 0 && self.name.as_str().get_char(n - 1) == '/'
    }

    /// The path at which the entry is materialized, or `None` where the
    /// entry is skipped.
    pub fn resolve(&self) -> (r: Option<String>)
        ensures
            match r {
                Some(p) => entry_path(self@) == Some(p@),
                None => entry_path(self@) is None,
            },
    {
        match &self.enclosed {
            Some(n) => resolve_path(n.as_str()),
            None => None,
        }
    }
}

} // verus!
