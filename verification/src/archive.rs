//! The archive reader: a ZIP archive held in memory, its entries addressed
//! by index. Parsing and decompression are the work of the `zip` crate.

use vstd::prelude::*;
use crate::entry::{Entry, EntryView};
use crate::entry::entry_path;
use crate::path::{
    components, has_double_dot, is_absolute, is_plainly_unsafe,
    lemma_name_without_double_dot_resolves, lemma_unsafe_name_is_rejected,
};
use crate::plan::{entry_actions, ActionView, Host};

verus! {

/// `zip::ZipArchive`, the reader of the `zip` crate: carried as it is,
/// nothing inside it is seen here.
#[verifier::external_type_specification]
#[verifier::external_body]
#[verifier::reject_recursive_types(R)]
pub struct ExZipArchive<R>(zip::ZipArchive<R>);

/// `std::io::Cursor`, through which the reader reads bytes held in memory.
#[verifier::external_type_specification]
#[verifier::external_body]
#[verifier::reject_recursive_types(T)]
pub struct ExCursor<T>(std::io::Cursor<T>);

/// `zip::result::ZipError`, the error of the `zip` crate: only that there
/// was one is read from it.
#[verifier::external_type_specification]
#[verifier::external_body]
pub struct ExZipError(zip::result::ZipError);

/// What an archive records of one entry, whatever the host.
pub struct Record {
    pub name: Seq<char>,
    pub comment: Seq<char>,
    pub size: u64,
    pub unix_mode: Option<u32>,
}

/// The records that an opened archive holds, in the order of its central
/// directory.
pub uninterp spec fn held_records(a: zip::ZipArchive<std::io::Cursor<Vec<u8>>>) -> Seq<Record>;

/// The uncompressed contents that an opened archive yields for the entry
/// with the given index, or `None` where the entry cannot be read to its
/// end.
pub uninterp spec fn held_contents(
    a: zip::ZipArchive<std::io::Cursor<Vec<u8>>>,
    i: int,
) -> Option<Seq<u8>>;

/// Whether an opened archive yields the entry with the given index: the
/// index is in range, the entry's headers can be read, and the entry asks
/// for no password that the empty one does not meet.
pub uninterp spec fn held_opens(a: zip::ZipArchive<std::io::Cursor<Vec<u8>>>, i: int) -> bool;

/// The records of the archive that the bytes hold, or `None` where the
/// bytes hold no archive that can be read.
pub uninterp spec fn parsed_records(bytes: Seq<u8>) -> Option<Seq<Record>>;

/// Whether an entry is what the record says, with an enclosed name that is
/// either absent or the declared name itself. It is absent for a declared
/// name that holds a NUL or is absolute; for which other names it is absent
/// depends on the host.
pub open spec fn describes(r: Record, e: EntryView) -> bool {
    &&& e.name == r.name
    &&& e.comment == r.comment
    &&& e.size == r.size
    &&& e.unix_mode == r.unix_mode
    &&& (e.enclosed is None || e.enclosed == Some(e.name))
    &&& (r.name.contains('\0') || is_absolute(r.name) ==> e.enclosed is None)
}

/// Whether an entry is what [`Archive::entry`] hands out for the record: it
/// is what the record says, and it has an enclosed name only where that
/// name resolves. An entry with an enclosed name is thus one that is
/// extracted.
pub open spec fn fetched(r: Record, e: EntryView) -> bool {
    &&& describes(r, e)
    &&& (e.enclosed is Some ==> components(r.name) is Some && entry_path(e) is Some)
}

/// Calls `zip::ZipArchive::new` on a cursor over the bytes. Whether the
/// bytes make an archive, and with which records, depends on the bytes
/// alone; nothing more is claimed of it.
#[verifier::external_body]
fn open_bytes(bytes: Vec<u8>) -> (r: Result<
    zip::ZipArchive<std::io::Cursor<Vec<u8>>>,
    zip::result::ZipError,
>)
    ensures
        match r {
            Ok(a) => parsed_records(bytes@) == Some(held_records(a)),
            Err(_) => parsed_records(bytes@) is None,
        },
{
    zip::ZipArchive::new(std::io::Cursor::new(bytes))
}

/// Calls `zip::ZipArchive::len`: the number of entries that the archive
/// holds.
#[verifier::external_body]
fn archive_len(a: &zip::ZipArchive<std::io::Cursor<Vec<u8>>>) -> (n: usize)
    ensures
        n == held_records(*a).len(),
{
    a.len()
}

/// Calls `zip::ZipArchive::by_index_decrypt` with the empty password, which
/// returns where `by_index` would unwind on an entry that asks for a
/// password, and copies out what the entry's `name`, `enclosed_name`,
/// `comment`, `size` and `unix_mode` return. The call fails for an index
/// past the end, and for any other index whose entry the archive does not
/// yield, a refused password among the reasons; it leaves what the archive
/// holds as it was. The enclosed name, where there is one, is the declared
/// name as a path; there is none for a name with a NUL or an absolute one.
#[verifier::external_body]
fn read_entry(a: &mut zip::ZipArchive<std::io::Cursor<Vec<u8>>>, i: usize) -> (r: Result<
    Entry,
    zip::result::ZipError,
>)
    ensures
        held_records(*final(a)) == held_records(*old(a)),
        forall|k: int| held_contents(*final(a), k) == held_contents(*old(a), k),
        forall|k: int| held_opens(*final(a), k) == held_opens(*old(a), k),
        match r {
            Ok(e) => held_opens(*old(a), i as int) && i < held_records(*old(a)).len()
                && describes(held_records(*old(a))[i as int], e@),
            Err(_) => !held_opens(*old(a), i as int),
        },
{
    match a.by_index_decrypt(i, b"")? {
        Ok(f) => Ok(
            Entry {
                name: f.name().to_owned(),
                enclosed: f.enclosed_name().and_then(std::path::Path::to_str).map(str::to_owned),
                comment: f.comment().to_owned(),
                size: f.size(),
                unix_mode: f.unix_mode(),
            },
        ),
        Err(_) => Err(
            zip::result::ZipError::UnsupportedArchive(zip::result::ZipError::PASSWORD_REQUIRED),
        ),
    }
}

/// Calls `zip::ZipArchive::by_index_decrypt` with the empty password and
/// reads the entry to its end with `std::io::Read::read_to_end`. The call
/// fails where the archive does not yield the entry or the entry cannot be
/// read to its end, which depends on the archive and the index alone; it
/// leaves what the archive holds as it was.
#[verifier::external_body]
fn read_contents(a: &mut zip::ZipArchive<std::io::Cursor<Vec<u8>>>, i: usize) -> (r: Result<
    Vec<u8>,
    zip::result::ZipError,
>)
    ensures
        held_records(*final(a)) == held_records(*old(a)),
        forall|k: int| held_contents(*final(a), k) == held_contents(*old(a), k),
        forall|k: int| held_opens(*final(a), k) == held_opens(*old(a), k),
        match r {
            Ok(v) => held_opens(*old(a), i as int) && i < held_records(*old(a)).len()
                && held_contents(*old(a), i as int) == Some(v@),
            Err(_) => held_contents(*old(a), i as int) is None,
        },
{
    match a.by_index_decrypt(i, b"")? {
        Ok(mut f) => {
            let mut buf = Vec::new();
            std::io::Read::read_to_end(&mut f, &mut buf)?;
            Ok(buf)
        },
        Err(_) => Err(
            zip::result::ZipError::UnsupportedArchive(zip::result::ZipError::PASSWORD_REQUIRED),
        ),
    }
}

/// Why reading an archive failed.
#[derive(Clone, Copy, PartialEq, Eq, Structural, Debug)]
pub enum ArchiveError {
    /// The bytes are not a ZIP archive that can be read.
    Open,
    /// The entry with this index could not be fetched.
    Metadata { index: usize },
    /// The contents of the entry with this index could not be read.
    Contents { index: usize },
}

/// A ZIP archive held in memory.
pub struct Archive {
    inner: zip::ZipArchive<std::io::Cursor<Vec<u8>>>,
}

impl Archive {
    /// The records of the archive's entries, in archive order.
    pub closed spec fn records(&self) -> Seq<Record> {
        held_records(self.inner)
    }

    /// The uncompressed contents of the entry with index `i`, or `None`
    /// where the entry cannot be read to its end.
    pub closed spec fn contents_of(&self, i: int) -> Option<Seq<u8>> {
        held_contents(self.inner, i)
    }

    /// Whether the archive yields the entry with index `i`.
    pub closed spec fn opens(&self, i: int) -> bool {
        held_opens(self.inner, i)
    }

    /// Whether two archives hold the same: the same records, and for each
    /// index the same contents and the same answer to whether the entry can
    /// be fetched.
    pub open spec fn same_as(&self, other: &Archive) -> bool {
        &&& self.records() == other.records()
        &&& forall|k: int| self.contents_of(k) == other.contents_of(k)
        &&& forall|k: int| self.opens(k) == other.opens(k)
    }

    /// Opens the archive that the bytes hold: succeeds exactly where the
    /// bytes hold a readable archive, with the records that they hold, and
    /// fails with [`ArchiveError::Open`] otherwise.
    pub fn open(bytes: Vec<u8>) -> (r: Result<Archive, ArchiveError>)
        ensures
            match r {
                Ok(a) => parsed_records(bytes@) == Some(a.records()),
                Err(err) => parsed_records(bytes@) is None && err == ArchiveError::Open,
            },
    {
        match open_bytes(bytes) {
            Ok(inner) => Ok(Archive { inner: inner }),
            Err(_) => Err(ArchiveError::Open),
        }
    }

    /// The number of entries, fixed for as long as the archive lives.
    pub fn count(&self) -> (n: usize)
        ensures
            n == self.records().len(),
    {
        archive_len(&self.inner)
    }

    /// Fetches the entry with index `i`: succeeds exactly where the archive
    /// yields that entry, which it does for no index past the end, and fails
    /// with [`ArchiveError::Metadata`] and the index otherwise. The entry
    /// keeps the enclosed name that the reader gave it only where that name
    /// resolves, so that an entry with an enclosed name is one that is
    /// extracted. The archive holds afterwards what it held before.
    pub fn entry(&mut self, i: usize) -> (r: Result<Entry, ArchiveError>)
        ensures
            final(self).same_as(old(self)),
            match r {
                Ok(e) => old(self).opens(i as int) && i < old(self).records().len() && fetched(
                    old(self).records()[i as int],
                    e@,
                ),
                Err(err) => !old(self).opens(i as int) && err == (ArchiveError::Metadata {
                    index: i,
                }),
            },
    {
        match read_entry(&mut self.inner, i) {
            Ok(e) => {
                if e.resolve().is_some() {
                    Ok(e)
                } else {
                    Ok(
                        Entry {
                            name: e.name,
                            enclosed: None,
                            comment: e.comment,
                            size: e.size,
                            unix_mode: e.unix_mode,
                        },
                    )
                }
            },
            Err(_) => Err(ArchiveError::Metadata { index: i }),
        }
    }

    /// Reads the whole contents of the entry with index `i`: succeeds
    /// exactly where the entry can be read to its end, which it can for no
    /// entry that the archive does not yield, and fails with
    /// [`ArchiveError::Contents`] and the index otherwise. The archive holds
    /// afterwards what it held before.
    pub fn contents(&mut self, i: usize) -> (r: Result<Vec<u8>, ArchiveError>)
        ensures
            final(self).same_as(old(self)),
            match r {
                Ok(v) => old(self).opens(i as int) && i < old(self).records().len() && old(
                    self,
                ).contents_of(i as int) == Some(v@),
                Err(err) => old(self).contents_of(i as int) is None && err == (
                ArchiveError::Contents { index: i }),
            },
    {
        match read_contents(&mut self.inner, i) {
            Ok(v) => Ok(v),
            Err(_) => Err(ArchiveError::Contents { index: i }),
        }
    }

    /// Fetches every entry, in archive order: succeeds exactly where the
    /// archive yields each of its entries, and fails otherwise with the
    /// index of the first that it does not yield.
    pub fn entries(&mut self) -> (r: Result<Vec<Entry>, ArchiveError>)
        ensures
            final(self).same_as(old(self)),
            match r {
                Ok(v) => {
                    &&& v@.len() == old(self).records().len()
                    &&& forall|k: int| 0 <= k < v@.len() ==> old(self).opens(k)
                    &&& forall|k: int|
                        0 <= k < v@.len() ==> fetched(
                            #[trigger] old(self).records()[k],
                            v@[k]@,
                        )
                },
                Err(err) => match err {
                    ArchiveError::Metadata { index } => {
                        &&& index < old(self).records().len()
                        &&& !old(self).opens(index as int)
                        &&& forall|k: int| 0 <= k < index ==> old(self).opens(k)
                    },
                    _ => false,
                },
            },
    {
        let n: usize = self.count();
        let mut out: Vec<Entry> = Vec::new();
        let mut i: usize = 0;
        while i < n
            invariant
                self.same_as(old(self)),
                n == self.records().len(),
                i <= n,
                out@.len() == i,
                forall|k: int| 0 <= k < i ==> old(self).opens(k),
                forall|k: int|
                    0 <= k < i ==> fetched(#[trigger] old(self).records()[k], out@[k]@),
            decreases n - i,
        {
            match self.entry(i) {
                Ok(e) => {
                    out.push(e);
                },
                Err(err) => {
                    return Err(err);
                },
            }
            i = i + 1;
        }
        Ok(out)
    }
}

/// Safety: an entry fetched from an archive whose declared name does not
/// resolve gets no step at all, whatever the archive reader made of the
/// name. Such is every name that is absolute, holds a NUL, or climbs above
/// the directory it starts in, at its beginning or later.
pub proof fn lemma_unsafe_declared_name_has_no_steps(r: Record, e: EntryView, i: nat, host: Host)
    requires
        describes(r, e),
        components(r.name) is None || is_plainly_unsafe(r.name),
    ensures
        entry_actions(i, e, host) == Seq::<ActionView>::empty(),
{
    if is_plainly_unsafe(r.name) {
        lemma_unsafe_name_is_rejected(r.name);
    }
}

/// An entry that the reader gave an enclosed name keeps it, and is
/// extracted, wherever its declared name holds no two dots side by side:
/// the reader gives no enclosed name to a name that is absolute or holds a
/// NUL, and without `..` a name cannot climb.
pub proof fn lemma_name_without_double_dot_is_kept(r: Record, e: EntryView)
    requires
        describes(r, e),
        e.enclosed is Some,
        !has_double_dot(r.name),
    ensures
        fetched(r, e),
{
    lemma_name_without_double_dot_resolves(r.name);
}

/// Of the entries that an archive hands out, those with an enclosed name
/// are exactly those that are extracted: what is stated of extracted
/// entries holds of every entry with an enclosed name.
pub proof fn lemma_enclosed_means_extracted(records: Seq<Record>, entries: Seq<EntryView>)
    requires
        entries.len() == records.len(),
        forall|k: int| 0 <= k < entries.len() ==> fetched(#[trigger] records[k], entries[k]),
    ensures
        forall|k: int|
            0 <= k < entries.len() ==> ((#[trigger] entries[k]).enclosed is Some <==> entry_path(
                entries[k],
            ) is Some),
{
    assert forall|k: int| 0 <= k < entries.len() implies ((#[trigger] entries[k]).enclosed
        is Some <==> entry_path(entries[k]) is Some) by {
        assert(fetched(records[k], entries[k]));
    }
}

} // verus!
