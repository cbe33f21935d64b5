//! The file protocol's vocabulary: status codes, attributes, handles, names
//! and pages of directory listings.

use crate::action::IoErrorKind;
use crate::text::exact_text;
use crate::tree::NfsTime;
use vstd::prelude::*;
use vstd::string::*;
use vstd::utf8::{decode_utf8, valid_utf8};

verus! {

/// Why a request failed.
#[derive(Clone, Copy, Debug, PartialEq, Eq, Structural)]
pub enum Status {
    NoEnt,
    Io,
    Acces,
    Exist,
    NotDir,
    IsDir,
    Inval,
    RoFs,
    NotEmpty,
    Stale,
    BadHandle,
}

/// What kind of file something is.
#[derive(Clone, Copy, Debug, PartialEq, Eq, Structural)]
pub enum FileType {
    Regular,
    Directory,
    Block,
    Character,
    Link,
    Socket,
    Fifo,
}

/// The attributes of a file.
#[derive(Clone, Copy, Debug, PartialEq, Eq, Structural)]
pub struct FileAttr {
    pub ftype: FileType,
    pub mode: u32,
    pub nlink: u32,
    pub uid: u32,
    pub gid: u32,
    pub size: u64,
    pub used: u64,
    /// Major number of a device.
    pub rdev_major: u32,
    /// Minor number of a device.
    pub rdev_minor: u32,
    pub fsid: u64,
    pub fileid: u64,
    pub atime: NfsTime,
    pub mtime: NfsTime,
    pub ctime: NfsTime,
}

/// The status that answers a refusal of the operating system.
pub open spec fn io_status(kind: IoErrorKind) -> Status {
    match kind {
        IoErrorKind::NotFound => Status::NoEnt,
        IoErrorKind::PermissionDenied => Status::Acces,
        IoErrorKind::AlreadyExists => Status::Exist,
        IoErrorKind::DirectoryNotEmpty => Status::NotEmpty,
        IoErrorKind::Other => Status::Io,
    }
}

/// The status that answers a refusal of the operating system.
pub fn io_err(kind: IoErrorKind) -> (r: Status)
    ensures
        r == io_status(kind),
{
    match kind {
        IoErrorKind::NotFound => Status::NoEnt,
        IoErrorKind::PermissionDenied => Status::Acces,
        IoErrorKind::AlreadyExists => Status::Exist,
        IoErrorKind::DirectoryNotEmpty => Status::NotEmpty,
        IoErrorKind::Other => Status::Io,
    }
}

/// The name that bytes spell, if they spell one.
pub open spec fn name_in(bytes: Seq<u8>) -> Option<Seq<char>> {
    if valid_utf8(bytes) {
        Some(decode_utf8(bytes))
    } else {
        None
    }
}

/// The name in a request; one that is no text is not there.
pub fn str_name(bytes: &[u8]) -> (r: Result<String, Status>)
    ensures
        match r {
            Ok(name) => name_in(bytes@) == Some(name@),
            Err(status) => name_in(bytes@) is None && status == Status::NoEnt,
        },
{
    match exact_text(bytes) {
        Some(name) => Ok(name),
        None => Err(Status::NoEnt),
    }
}

/// The number that bytes spell, the lowest byte first.
pub open spec fn le_number(bytes: Seq<u8>) -> nat
    decreases bytes.len(),
{
    if bytes.len() == 0 {
        0
    } else {
        bytes[0] as nat + 256 * le_number(bytes.drop_first())
    }
}

/// The number in a file handle: handles have sixteen bytes, of which the last
/// eight are the number. The first eight name the server instance and are not
/// looked at, so that a mount survives a restart of the server.
pub fn fh_to_id(handle: &[u8]) -> (r: Result<u64, Status>)
    ensures
        match r {
            Ok(id) => handle@.len() == 16 && id == le_number(handle@.subrange(8, 16)),
            Err(status) => handle@.len() != 16 && status == Status::BadHandle,
        },
{
    if handle.len() != 16 {
        return Err(Status::BadHandle);
    }
    proof {
        let s = handle@.subrange(8, 16);
        reveal_with_fuel(le_number, 9);
        assert(s.drop_first() =~= handle@.subrange(9, 16));
        assert(handle@.subrange(9, 16).drop_first() =~= handle@.subrange(10, 16));
        assert(handle@.subrange(10, 16).drop_first() =~= handle@.subrange(11, 16));
        assert(handle@.subrange(11, 16).drop_first() =~= handle@.subrange(12, 16));
        assert(handle@.subrange(12, 16).drop_first() =~= handle@.subrange(13, 16));
        assert(handle@.subrange(13, 16).drop_first() =~= handle@.subrange(14, 16));
        assert(handle@.subrange(14, 16).drop_first() =~= handle@.subrange(15, 16));
        assert(handle@.subrange(15, 16).drop_first() =~= handle@.subrange(16, 16));
    }
    Ok(
        handle[8] as u64 + 0x100 * (handle[9] as u64) + 0x1_0000 * (handle[10] as u64) + 0x100_0000
            * (handle[11] as u64) + 0x1_0000_0000 * (handle[12] as u64) + 0x100_0000_0000 * (
        handle[13] as u64) + 0x1_0000_0000_0000 * (handle[14] as u64) + 0x100_0000_0000_0000 * (
        handle[15] as u64),
    )
}

/// Byte strings of one length spell the same number only if they are the same.
proof fn lemma_le_number_injective(a: Seq<u8>, b: Seq<u8>)
    requires
        a.len() == b.len(),
        le_number(a) == le_number(b),
    ensures
        a == b,
    decreases a.len(),
{
    if a.len() == 0 {
        assert(a =~= b);
    } else {
        lemma_le_number_injective(a.drop_first(), b.drop_first());
        assert(a =~= seq![a[0]] + a.drop_first());
        assert(b =~= seq![b[0]] + b.drop_first());
    }
}

/// Two handles stand for the same node exactly if their last eight bytes are
/// the same, whatever server instance issued them.
pub proof fn law_handles_ignore_the_instance(a: Seq<u8>, b: Seq<u8>)
    requires
        a.len() == 16,
        b.len() == 16,
    ensures
        le_number(a.subrange(8, 16)) == le_number(b.subrange(8, 16)) <==> a.subrange(8, 16)
            == b.subrange(8, 16),
{
    if le_number(a.subrange(8, 16)) == le_number(b.subrange(8, 16)) {
        lemma_le_number_injective(a.subrange(8, 16), b.subrange(8, 16));
    }
}

/// The number in a handle is that of its last eight bytes, of which each counts
/// two hundred and fifty-six times as much as the one before.
pub proof fn law_numbers_in_handles(handle: Seq<u8>)
    requires
        handle.len() == 16,
    ensures
        le_number(handle.subrange(8, 16)) == handle[8] + 0x100 * (handle[9] + 0x100 * (handle[10]
            + 0x100 * (handle[11] + 0x100 * (handle[12] + 0x100 * (handle[13] + 0x100 * (handle[14]
            + 0x100 * handle[15])))))),
{
    reveal_with_fuel(le_number, 9);
    let s = handle.subrange(8, 16);
    assert(s.drop_first() =~= handle.subrange(9, 16));
    assert(handle.subrange(9, 16).drop_first() =~= handle.subrange(10, 16));
    assert(handle.subrange(10, 16).drop_first() =~= handle.subrange(11, 16));
    assert(handle.subrange(11, 16).drop_first() =~= handle.subrange(12, 16));
    assert(handle.subrange(12, 16).drop_first() =~= handle.subrange(13, 16));
    assert(handle.subrange(13, 16).drop_first() =~= handle.subrange(14, 16));
    assert(handle.subrange(14, 16).drop_first() =~= handle.subrange(15, 16));
    assert(handle.subrange(15, 16).drop_first() =~= handle.subrange(16, 16));
}

/// The lowest bytes of a number, the lowest first.
pub open spec fn le_bytes(n: nat, count: nat) -> Seq<u8>
    decreases count,
{
    if count == 0 {
        Seq::empty()
    } else {
        seq![(n % 256) as u8] + le_bytes(n / 256, (count - 1) as nat)
    }
}

/// How many numbers so many bytes can spell.
pub open spec fn le_limit(count: nat) -> nat
    decreases count,
{
    if count == 0 {
        1
    } else {
        256 * le_limit((count - 1) as nat)
    }
}

proof fn lemma_le_round_trip(n: nat, count: nat)
    requires
        n < le_limit(count),
    ensures
        le_bytes(n, count).len() == count,
        le_number(le_bytes(n, count)) == n,
    decreases count,
{
    if count > 0 {
        let rest = le_bytes(n / 256, (count - 1) as nat);
        lemma_le_round_trip(n / 256, (count - 1) as nat);
        assert(le_bytes(n, count).drop_first() =~= rest);
    }
}

/// A handle made of any server instance and the bytes of a number stands for
/// that number: handles stay good when the server is restarted.
pub proof fn law_handles_survive_restarts(instance: Seq<u8>, id: u64)
    requires
        instance.len() == 8,
    ensures
        (instance + le_bytes(id as nat, 8)).len() == 16,
        le_number((instance + le_bytes(id as nat, 8)).subrange(8, 16)) == id,
{
    reveal_with_fuel(le_limit, 9);
    lemma_le_round_trip(id as nat, 8);
    let handle = instance + le_bytes(id as nat, 8);
    assert(handle.subrange(8, 16) =~= le_bytes(id as nat, 8));
}

/// One entry of a directory listing.
#[derive(Debug)]
pub struct DirEntry {
    pub fileid: u64,
    pub name: String,
    pub attr: FileAttr,
}

/// What a [`DirEntry`] says.
pub struct EntryView {
    pub fileid: u64,
    pub name: Seq<char>,
    pub attr: FileAttr,
}

impl View for DirEntry {
    type V = EntryView;

    open spec fn view(&self) -> EntryView {
        EntryView { fileid: self.fileid, name: self.name@, attr: self.attr }
    }
}

/// What a listing says.
pub open spec fn entry_views(entries: Seq<DirEntry>) -> Seq<EntryView> {
    Seq::new(entries.len(), |i: int| entries[i]@)
}

/// A part of a directory listing, and whether it reaches the end.
#[derive(Debug)]
pub struct ReadDirResult {
    pub entries: Vec<DirEntry>,
    pub end: bool,
}

/// How many entries come up to and with the one that has a number: all of
/// them, where none has it.
pub open spec fn upto(entries: Seq<EntryView>, id: u64) -> nat
    decreases entries.len(),
{
    if entries.len() == 0 {
        0
    } else if entries[0].fileid == id {
        1
    } else {
        1 + upto(entries.drop_first(), id)
    }
}

/// The entries that are still to be sent after the one with a number; zero
/// stands for the beginning.
pub open spec fn remaining(entries: Seq<EntryView>, start_after: u64) -> Seq<EntryView> {
    if start_after == 0 {
        entries
    } else {
        entries.skip(upto(entries, start_after) as int)
    }
}

/// The page of a listing after the entry with a number, at most `max_entries`
/// long (zero sets no limit), and whether it reaches the end.
pub open spec fn page(entries: Seq<EntryView>, start_after: u64, max_entries: nat) -> (
    Seq<EntryView>,
    bool,
) {
    let rest = remaining(entries, start_after);
    if max_entries == 0 || rest.len() <= max_entries {
        (rest, true)
    } else {
        (rest.take(max_entries as int), false)
    }
}

proof fn lemma_upto_len(entries: Seq<EntryView>, id: u64)
    ensures
        upto(entries, id) <= entries.len(),
    decreases entries.len(),
{
    if entries.len() > 0 {
        lemma_upto_len(entries.drop_first(), id);
    }
}

/// A page of a listing. If the entry to start after no longer exists, the
/// listing ends there: that is safer than to start over.
pub fn paginate(entries: Vec<DirEntry>, start_after: u64, max_entries: usize) -> (r: ReadDirResult)
    ensures
        (entry_views(r.entries@), r.end) == page(
            entry_views(entries@),
            start_after,
            max_entries as nat,
        ),
{
    let ghost all = entry_views(entries@);
    let total = entries.len();
    let mut start: usize = 0;
    if start_after != 0 {
        let mut found = false;
        assert(all.skip(0) =~= all);
        while start < total && !found
            invariant
                total == entries@.len(),
                all == entry_views(entries@),
                start <= total,
                found ==> upto(all, start_after) == start,
                !found ==> upto(all, start_after) == start + upto(
                    all.skip(start as int),
                    start_after,
                ),
            decreases total - start,
        {
            proof {
                assert(all.skip(start as int)[0] == entries@[start as int]@);
                assert(all.skip(start as int).drop_first() =~= all.skip(start + 1));
            }
            if entries[start].fileid == start_after {
                found = true;
            }
            start = start + 1;
        }
    }
    assert(remaining(all, start_after) =~= all.skip(start as int));
    let mut rest = entries;
    let mut tail = rest.split_off(start);
    assert(entry_views(tail@) =~= all.skip(start as int));
    let end = max_entries == 0 || tail.len() <= max_entries;
    if !end {
        let ghost before = tail@;
        tail.truncate(max_entries);
        assert(entry_views(tail@) =~= entry_views(before).take(max_entries as int));
    }
    ReadDirResult { entries: tail, end }
}

/// Whether every entry has a number of its own, and none is zero.
pub open spec fn numbers_are_distinct(entries: Seq<EntryView>) -> bool {
    &&& forall|i: int| 0 <= i < entries.len() ==> (#[trigger] entries[i]).fileid != 0
    &&& forall|i: int, j: int|
        0 <= i < j < entries.len() ==> (#[trigger] entries[i]).fileid != (
        #[trigger] entries[j]).fileid
}

/// An entry with a number of its own is found at its place.
pub proof fn lemma_upto(entries: Seq<EntryView>, i: int)
    requires
        numbers_are_distinct(entries),
        0 <= i < entries.len(),
    ensures
        upto(entries, entries[i].fileid) == i + 1,
    decreases i,
{
    if i > 0 {
        let rest = entries.drop_first();
        assert(entries[0].fileid != entries[i].fileid);
        assert forall|a: int, b: int| 0 <= a < b < rest.len() implies (#[trigger] rest[a]).fileid != (
        #[trigger] rest[b]).fileid by {
            assert(entries[a + 1].fileid != entries[b + 1].fileid);
        }
        assert forall|a: int| 0 <= a < rest.len() implies (#[trigger] rest[a]).fileid != 0 by {
            assert(entries[a + 1].fileid != 0);
        }
        lemma_upto(rest, i - 1);
    }
}

/// What a client has read once it has fetched pages up to the end, each after
/// the last entry of the one before.
pub open spec fn read_pages(
    entries: Seq<EntryView>,
    start_after: u64,
    max_entries: nat,
    pages: nat,
) -> Seq<EntryView>
    decreases pages,
{
    let (part, end) = page(entries, start_after, max_entries);
    if end || pages == 0 || part.len() == 0 {
        part
    } else {
        part + read_pages(entries, part.last().fileid, max_entries, (pages - 1) as nat)
    }
}

proof fn lemma_read_pages(
    entries: Seq<EntryView>,
    start_after: u64,
    max_entries: nat,
    pages: nat,
    from: int,
)
    requires
        numbers_are_distinct(entries),
        0 <= from <= entries.len(),
        remaining(entries, start_after) == entries.skip(from),
        pages >= entries.len() - from,
    ensures
        read_pages(entries, start_after, max_entries, pages) == entries.skip(from),
    decreases pages,
{
    let (part, end) = page(entries, start_after, max_entries);
    if !end {
        let next = from + max_entries;
        assert(part.last() == entries[next - 1]);
        lemma_upto(entries, next - 1);
        assert(entries[next - 1].fileid != 0);
        assert(remaining(entries, part.last().fileid) == entries.skip(next));
        lemma_read_pages(entries, part.last().fileid, max_entries, (pages - 1) as nat, next);
        assert(part + entries.skip(next) =~= entries.skip(from));
    }
}

/// Pages put together are the whole listing: a client that reads page after
/// page sees every entry exactly once, whatever the size of a page.
pub proof fn law_pages_make_the_listing(entries: Seq<EntryView>, max_entries: nat)
    requires
        numbers_are_distinct(entries),
    ensures
        read_pages(entries, 0, max_entries, entries.len()) == entries,
{
    assert(entries.skip(0) =~= entries);
    lemma_read_pages(entries, 0, max_entries, entries.len(), 0);
}

/// A listing that is continued after an entry that is gone ends at once.
pub proof fn law_lost_place_ends_the_listing(
    entries: Seq<EntryView>,
    start_after: u64,
    max_entries: nat,
)
    requires
        start_after != 0,
        forall|i: int| 0 <= i < entries.len() ==> (#[trigger] entries[i]).fileid != start_after,
    ensures
        page(entries, start_after, max_entries) == (Seq::<EntryView>::empty(), true),
{
    lemma_upto_missing(entries, start_after);
    assert(remaining(entries, start_after) =~= Seq::<EntryView>::empty());
}

proof fn lemma_upto_missing(entries: Seq<EntryView>, id: u64)
    requires
        forall|i: int| 0 <= i < entries.len() ==> (#[trigger] entries[i]).fileid != id,
    ensures
        upto(entries, id) == entries.len(),
    decreases entries.len(),
{
    if entries.len() > 0 {
        let rest = entries.drop_first();
        assert forall|i: int| 0 <= i < rest.len() implies (#[trigger] rest[i]).fileid != id by {
            assert(entries[i + 1].fileid != id);
        }
        assert(entries[0].fileid != id);
        lemma_upto_missing(rest, id);
    }
}

/// What a read of `count` bytes at `offset` gives of a file that was `len`
/// bytes long: nothing and the end of the file, where it starts past the end;
/// otherwise what was read, and the end if that reaches it.
pub open spec fn read_reply(offset: u64, len: u64, data: Seq<u8>) -> (Seq<u8>, bool) {
    if offset >= len {
        (Seq::empty(), true)
    } else {
        (data, offset + data.len() >= len)
    }
}

/// The reply to a read, out of the length of the file and what was read.
pub fn read_result(offset: u64, len: u64, data: Vec<u8>) -> (r: (Vec<u8>, bool))
    ensures
        (r.0@, r.1) == read_reply(offset, len, data@),
{
    if offset >= len {
        let none: Vec<u8> = Vec::new();
        assert(none@ =~= Seq::empty());
        return (none, true);
    }
    let left: u64 = len - offset;
    let end = data.len() as u64 >= left;
    (data, end)
}

} // verus!
