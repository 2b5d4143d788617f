//! The boundary with the `zip` crate: reading entries of an archive held in
//! memory, and writing a new archive into memory.
//!
//! An archive is modelled by the entries it holds: for each, its name, its
//! metadata when the reader can open it, and its contents when the reader can
//! decompress them. Writing is modelled by the entries written so far.
use vstd::prelude::*;

use crate::text::digits;

use std::io::{Cursor, Read, Write};
use zip::read::ZipArchive;
use zip::result::ZipError;
use zip::write::SimpleFileOptions;
use zip::{CompressionMethod, DateTime, ZipWriter};

verus! {

#[verifier::external_type_specification]
#[verifier::external_body]
#[verifier::reject_recursive_types(T)]
pub struct ExCursor<T>(Cursor<T>);

#[verifier::external_type_specification]
#[verifier::external_body]
#[verifier::reject_recursive_types(R)]
pub struct ExZipArchive<R>(ZipArchive<R>);

/// An archive being read from memory.
pub type MemArchive = ZipArchive<Cursor<Vec<u8>>>;

/// The zip method code of an entry stored without compression.
pub const METHOD_STORED: u16 = 0;

/// The zip method code of an entry compressed with deflate.
pub const METHOD_DEFLATED: u16 = 8;

/// A modification time in the MS-DOS encoding used by zip headers.
#[derive(Debug, Clone, Copy, PartialEq, Eq, Structural)]
pub struct DosTime {
    pub date: u16,
    pub time: u16,
}

/// The number of days in `month` of `year` (February by the Gregorian
/// leap-year rule).
pub open spec fn days_in_month(year: int, month: int) -> int {
    if month == 2 {
        if year % 4 == 0 && (year % 25 != 0 || year % 16 == 0) {
            29
        } else {
            28
        }
    } else if month == 4 || month == 6 || month == 9 || month == 11 {
        30
    } else {
        31
    }
}

/// Whether `t` is a time the zip crate accepts (`DateTime::try_from_msdos`):
/// a month from 1 to 12, a day that month has in its year (1980 plus the top
/// seven bits of the date), an hour up to 23, a minute up to 59, and a
/// seconds field (counting two seconds) up to 30.
pub open spec fn dos_time_accepted(t: DosTime) -> bool {
    let day: int = (t.date % 32) as int;
    let month: int = ((t.date / 32) % 16) as int;
    let year: int = t.date / 512 + 1980;
    &&& 1 <= month <= 12
    &&& 1 <= day <= days_in_month(year, month)
    &&& t.time / 2048 <= 23
    &&& (t.time / 32) % 64 <= 59
    &&& t.time % 32 <= 30
}

/// What the zip crate keeps of an accepted time: all of it, except that a
/// seconds field of 30 (sixty seconds) becomes 29.
pub open spec fn dos_time_kept(t: DosTime) -> DosTime {
    if t.time % 32 == 30 {
        DosTime { date: t.date, time: (t.time - 1) as u16 }
    } else {
        t
    }
}

/// An accepted time that the zip crate keeps as it is.
pub open spec fn dos_time_normal(t: DosTime) -> bool {
    dos_time_accepted(t) && t.time % 32 < 30
}

/// The date (year, month from 1, day from 1) in the proleptic Gregorian
/// calendar of the day `z` days after 1970-01-01 (counting in eras of 400
/// years that begin on March 1st).
pub open spec fn civil_from_days(z: int) -> (int, int, int) {
    let z2 = z + 719468;
    let era = z2 / 146097;
    let doe = z2 - era * 146097;
    let yoe = (doe - doe / 1460 + doe / 36524 - doe / 146096) / 365;
    let doy = doe - (365 * yoe + yoe / 4 - yoe / 100);
    let mp = (5 * doy + 2) / 153;
    let d = doy - (153 * mp + 2) / 5 + 1;
    let m: int = if mp < 10 {
        mp + 3
    } else {
        mp - 9
    };
    let carry: int = if m <= 2 {
        1
    } else {
        0
    };
    (yoe + era * 400 + carry, m, d)
}

/// The zip encoding of the UTC time `secs` seconds after the Unix epoch:
/// its date and time of day, seconds halved; `None` outside the years 1980
/// to 2107 that the encoding covers.
pub open spec fn dos_time_of_unix(secs: i64) -> Option<DosTime> {
    let days = secs / 86400;
    let sod = secs % 86400;
    let (y, m, d) = civil_from_days(days as int);
    if 1980 <= y <= 2107 {
        Some(
            DosTime {
                date: (d + m * 32 + (y - 1980) * 512) as u16,
                time: ((sod % 60) / 2 + ((sod / 60) % 60) * 32 + (sod / 3600) * 2048) as u16,
            },
        )
    } else {
        None
    }
}

/// Converts a Unix time to the zip encoding (`time::OffsetDateTime::from_unix_timestamp`,
/// then `zip::DateTime::try_from`, which takes the UTC date and time and
/// refuses a year outside 1980 to 2107): the encoding [`dos_time_of_unix`]
/// describes, a time the zip crate keeps as it is.
#[verifier::external_body]
pub(crate) fn dos_time_from_unix(secs: i64) -> (r: Option<DosTime>)
    ensures
        r == dos_time_of_unix(secs),
        r matches Some(t) ==> dos_time_normal(t),
{
    let odt = time::OffsetDateTime::from_unix_timestamp(secs).ok()?;
    let dt = DateTime::try_from(odt).ok()?;
    Some(DosTime { date: dt.datepart(), time: dt.timepart() })
}

/// The current time in the zip encoding (`time::OffsetDateTime::now_utc`,
/// then `zip::DateTime::try_from`), or `None` when it cannot be encoded.
/// Which time it is depends on the clock; it is one the zip crate keeps as
/// it is (the conversion builds it through `DateTime::from_date_and_time`).
#[verifier::external_body]
pub(crate) fn dos_time_now() -> (r: Option<DosTime>)
    ensures
        r matches Some(t) ==> dos_time_normal(t),
{
    let dt = DateTime::try_from(time::OffsetDateTime::now_utc()).ok()?;
    Some(DosTime { date: dt.datepart(), time: dt.timepart() })
}

/// The name the zip crate gives the compression method with code `code`
/// (its `Debug` form): the two methods it implements by name, any other
/// code as unsupported.
pub open spec fn spec_method_label(code: u16) -> Seq<char> {
    if code == METHOD_STORED {
        "Stored"@
    } else if code == METHOD_DEFLATED {
        "Deflated"@
    } else {
        "Unsupported("@ + digits(code as nat, 10) + ")"@
    }
}

/// The `Debug` form of `CompressionMethod::from_u16(code)`.
#[verifier::external_body]
pub(crate) fn method_label(code: u16) -> (r: String)
    ensures
        r@ == spec_method_label(code),
{
    #[allow(deprecated)]
    let method = CompressionMethod::from_u16(code);
    format!("{:?}", method)
}

/// The metadata of one archive entry.
#[derive(Debug, Clone)]
pub struct EntryInfo {
    pub name: String,
    pub is_dir: bool,
    pub size: u64,
    pub compressed_size: u64,
    pub crc32: u32,
    pub method: u16,
    pub mtime: Option<DosTime>,
    pub unix_mode: Option<u32>,
    pub comment: String,
}

/// The abstract content of an [`EntryInfo`].
pub struct InfoView {
    pub name: Seq<char>,
    pub is_dir: bool,
    pub size: u64,
    pub compressed_size: u64,
    pub crc32: u32,
    pub method: u16,
    pub mtime: Option<DosTime>,
    pub unix_mode: Option<u32>,
    pub comment: Seq<char>,
}

impl View for EntryInfo {
    type V = InfoView;

    open spec fn view(&self) -> InfoView {
        InfoView {
            name: self.name@,
            is_dir: self.is_dir,
            size: self.size,
            compressed_size: self.compressed_size,
            crc32: self.crc32,
            method: self.method,
            mtime: self.mtime,
            unix_mode: self.unix_mode,
            comment: self.comment@,
        }
    }
}

/// One entry of an archive: its name, its metadata when the reader can open
/// it, and its contents when the reader can also decompress them.
pub struct StoredEntry {
    pub name: Seq<char>,
    pub info: Option<InfoView>,
    pub data: Option<Seq<u8>>,
}

/// What holds of every archive the reader opens: names are pairwise
/// distinct, the metadata carries the entry's name and a modification time
/// the zip crate keeps as it is (the reader only produces such times), and
/// contents can only be read from an entry that can be opened.
pub open spec fn directory_wf(es: Seq<StoredEntry>) -> bool {
    &&& forall|i: int, j: int| 0 <= i < j < es.len() ==> es[i].name != es[j].name
    &&& forall|i: int|
        0 <= i < es.len() ==> ((#[trigger] es[i]).info matches Some(m) ==> m.name == es[i].name)
    &&& forall|i: int|
        0 <= i < es.len() ==> ((#[trigger] es[i]).info matches Some(m) ==> (m.mtime matches Some(t)
            ==> dos_time_normal(t)))
    &&& forall|i: int| 0 <= i < es.len() ==> ((#[trigger] es[i]).data is Some ==> es[i].info is Some)
}

/// The entries the zip reader finds in `bytes`, or `None` when it cannot
/// read them as an archive.
pub uninterp spec fn zip_directory(bytes: Seq<u8>) -> Option<Seq<StoredEntry>>;

/// The entries of an opened archive.
pub uninterp spec fn archive_entries(a: MemArchive) -> Seq<StoredEntry>;

/// Opens `bytes` as an archive (`ZipArchive::new`). Succeeds exactly when
/// the bytes read as an archive; the entries are then those of the bytes,
/// with distinct names (the reader keys its entries by name, a later
/// duplicate replacing an earlier one).
#[verifier::external_body]
pub(crate) fn open_archive(bytes: Vec<u8>) -> (r: Result<MemArchive, ZipError>)
    ensures
        match r {
            Ok(a) => zip_directory(bytes@) == Some(archive_entries(a)) && directory_wf(archive_entries(a)),
            Err(_) => zip_directory(bytes@) is None,
        },
{
    ZipArchive::new(Cursor::new(bytes))
}

/// The number of entries (`ZipArchive::len`).
#[verifier::external_body]
pub(crate) fn archive_len(a: &MemArchive) -> (r: usize)
    ensures
        r == archive_entries(*a).len(),
{
    a.len()
}

/// The metadata of entry `i` (`ZipArchive::by_index` and the accessors of
/// the entry it returns): fails exactly when the reader cannot open the
/// entry; reading leaves the entries as they are.
#[verifier::external_body]
pub(crate) fn entry_info(a: &mut MemArchive, i: usize) -> (r: Result<EntryInfo, ZipError>)
    requires
        i < archive_entries(*old(a)).len(),
    ensures
        archive_entries(*final(a)) == archive_entries(*old(a)),
        match r {
            Ok(m) => archive_entries(*old(a))[i as int].info == Some(m@),
            Err(_) => archive_entries(*old(a))[i as int].info is None,
        },
{
    let f = a.by_index(i)?;
    #[allow(deprecated)]
    let method = f.compression().to_u16();
    let mtime = f.last_modified().map(|d| DosTime { date: d.datepart(), time: d.timepart() });
    Ok(EntryInfo {
        name: f.name().to_string(), is_dir: f.is_dir(), size: f.size(),
        compressed_size: f.compressed_size(), crc32: f.crc32(), method, mtime,
        unix_mode: f.unix_mode(), comment: f.comment().to_string(),
    })
}

/// The decompressed contents of entry `i` (`ZipArchive::by_index`, then
/// `Read::read_to_end`): fails exactly when the reader cannot produce them.
#[verifier::external_body]
pub(crate) fn entry_data(a: &mut MemArchive, i: usize) -> (r: Result<Vec<u8>, ZipError>)
    requires
        i < archive_entries(*old(a)).len(),
    ensures
        archive_entries(*final(a)) == archive_entries(*old(a)),
        match r {
            Ok(v) => archive_entries(*old(a))[i as int].data == Some(v@),
            Err(_) => archive_entries(*old(a))[i as int].data is None,
        },
{
    let mut f = a.by_index(i)?;
    let mut out = Vec::new();
    f.read_to_end(&mut out).map_err(ZipError::Io)?;
    Ok(out)
}

/// The index of the entry called `name` (`ZipArchive::index_for_name`).
#[verifier::external_body]
pub(crate) fn entry_index(a: &MemArchive, name: &str) -> (r: Option<usize>)
    ensures
        match r {
            Some(i) => i < archive_entries(*a).len() && archive_entries(*a)[i as int].name == name@,
            None => forall|i: int|
                0 <= i < archive_entries(*a).len() ==> (#[trigger] archive_entries(*a)[i]).name != name@,
        },
{
    a.index_for_name(name)
}

/// An archive being written into memory (a `ZipWriter` over an in-memory
/// cursor). The writer is held opaquely, since its type's `Write + Seek`
/// bounds cannot be declared; what it holds is modelled by
/// [`written_entries`].
#[verifier::external_body]
pub struct ArchiveWriter {
    inner: ZipWriter<Cursor<Vec<u8>>>,
}

/// One entry written so far: its name, its contents when they are known
/// (written here, or copied from an entry whose contents the reader
/// produces), whether contents may still be appended to it, the options it
/// was started with (none for an entry copied as it was), and the metadata
/// of the entry it was copied from (none for a new entry).
pub struct WrittenEntry {
    pub name: Seq<char>,
    pub data: Option<Seq<u8>>,
    pub open: bool,
    pub opts: Option<NewEntryOptions>,
    pub copied: Option<InfoView>,
}

/// The Unix mode a written entry reads back with, given the mode it was
/// written with: the permission bits (0o644 when none was given) of a
/// regular file.
pub open spec fn written_mode(mode: Option<u32>) -> Option<u32> {
    let m: u32 = match mode {
        Some(x) => x,
        None => 0o644,
    };
    Some((m % 512 + 0o100000) as u32)
}

/// What copying an entry as it is keeps of its metadata `src`: the method,
/// both sizes, the checksum, the modification time when it has one, and the
/// permission bits of its Unix mode (as a regular file's).
pub open spec fn kept_meta(m: InfoView, src: InfoView) -> bool {
    &&& m.method == src.method
    &&& m.size == src.size
    &&& m.compressed_size == src.compressed_size
    &&& m.crc32 == src.crc32
    &&& src.mtime is Some ==> m.mtime == src.mtime
    &&& m.unix_mode == written_mode(src.unix_mode)
}

/// The number of bytes a character takes in UTF-8.
pub open spec fn char_utf8_len(c: char) -> nat {
    if (c as u32) < 0x80 {
        1
    } else if (c as u32) < 0x800 {
        2
    } else if (c as u32) < 0x10000 {
        3
    } else {
        4
    }
}

/// The number of bytes `s` takes in UTF-8.
pub open spec fn utf8_len(s: Seq<char>) -> nat
    decreases s.len(),
{
    if s.len() == 0 {
        0
    } else {
        utf8_len(s.drop_last()) + char_utf8_len(s.last())
    }
}

/// The length of `s` in bytes (`str::len`), that is its UTF-8 length.
#[verifier::external_body]
pub(crate) fn utf8_byte_len(s: &str) -> (r: usize)
    ensures
        r == utf8_len(s@),
{
    s.len()
}

/// The longest entry name, in UTF-8 bytes, that the writer can store (its
/// headers keep the length in 16 bits).
pub const NAME_LIMIT: usize = 0xffff;

/// The most bytes an entry may hold, or take up stored, without the zip64
/// extension, which the writer is not asked to use.
pub const ENTRY_LIMIT: u64 = 0xffff_ffff;

/// Options the writer accepts for a new entry: stored without a level, or
/// deflated at the default level or a level from 1 to 264; and a
/// modification time, when one is given, that the zip crate accepts.
pub open spec fn writer_accepts(o: NewEntryOptions) -> bool {
    &&& (o.method == METHOD_STORED && o.level is None) || (o.method == METHOD_DEFLATED && (o.level matches Some(l)
        ==> 1 <= l <= 264))
    &&& o.mtime matches Some(t) ==> dos_time_accepted(t)
}

/// An upper bound on the bytes that contents of `len` bytes take up stored
/// as `o` says: as many when stored; for deflate (at the default level or a
/// level up to 9, where the encoder stores a block raw when compressing it
/// does not pay, and otherwise spends at most nine bits on a byte, plus
/// block headers) a quarter more and a kilobyte.
pub open spec fn stored_size_bound(o: NewEntryOptions, len: nat) -> nat {
    if o.method == METHOD_STORED {
        len
    } else {
        len + len / 4 + 1024
    }
}

/// Contents of `len` bytes that an entry started with `o` holds within the
/// limit: the contents and the bytes they take up stored are both within it
/// (for deflate, at the default level or a level up to 9).
pub open spec fn fits_entry(o: NewEntryOptions, len: nat) -> bool {
    &&& len <= ENTRY_LIMIT
    &&& stored_size_bound(o, len) <= ENTRY_LIMIT
    &&& o.method == METHOD_STORED || (o.level matches Some(l) ==> l <= 9)
}

/// What the writer spends on an entry besides its name and its data: a
/// local and a central header, each with at most a zip64 extra field.
pub const ENTRY_OVERHEAD: u64 = 200;

/// What the writer spends on an archive besides its entries: the end of the
/// central directory, with its zip64 record and locator when needed.
pub const ARCHIVE_OVERHEAD: u64 = 200;

/// An upper bound on the bytes a copied entry called `name` takes up in the
/// written archive: overhead, the name twice, and its compressed data.
pub open spec fn copy_bound(name: Seq<char>, src: InfoView) -> nat {
    (ENTRY_OVERHEAD + 2 * utf8_len(name) + src.compressed_size) as nat
}

/// An upper bound on the bytes a new entry called `name`, started with `o`
/// and holding `len` bytes, takes up in the written archive.
pub open spec fn new_entry_bound(name: Seq<char>, o: NewEntryOptions, len: nat) -> nat {
    (ENTRY_OVERHEAD + 2 * utf8_len(name) + stored_size_bound(o, len)) as nat
}

/// An upper bound on the bytes a written entry takes up in the archive.
pub open spec fn entry_size_bound(w: WrittenEntry) -> nat {
    match w.copied {
        Some(src) => copy_bound(w.name, src),
        None => match (w.opts, w.data) {
            (Some(o), Some(d)) => new_entry_bound(w.name, o, d.len()),
            _ => 0,
        },
    }
}

/// The sum of the bounds of the written entries.
pub open spec fn written_sum(ws: Seq<WrittenEntry>) -> nat
    decreases ws.len(),
{
    if ws.len() == 0 {
        0
    } else {
        written_sum(ws.drop_last()) + entry_size_bound(ws.last())
    }
}

/// A written entry stays within the limit: a copied entry always does, a
/// new one when its contents fit.
pub open spec fn entry_fits(w: WrittenEntry) -> bool {
    w.opts matches Some(o) ==> (w.data matches Some(d) && fits_entry(o, d.len()))
}

/// Every written entry stays within the limit.
pub open spec fn all_fit(ws: Seq<WrittenEntry>) -> bool {
    forall|k: int| 0 <= k < ws.len() ==> entry_fits(#[trigger] ws[k])
}

/// The entries written so far.
pub uninterp spec fn written_entries(w: ArchiveWriter) -> Seq<WrittenEntry>;

/// The names of written entries.
pub open spec fn written_names(ws: Seq<WrittenEntry>) -> Seq<Seq<char>> {
    ws.map_values(|e: WrittenEntry| e.name)
}

/// How a new entry is to be stored.
#[derive(Debug, Clone, Copy, PartialEq, Eq, Structural)]
pub struct NewEntryOptions {
    pub method: u16,
    pub level: Option<i64>,
    pub unix_mode: Option<u32>,
    pub mtime: Option<DosTime>,
}

/// A new, empty archive in memory (`ZipWriter::new`).
#[verifier::external_body]
pub(crate) fn new_writer() -> (w: ArchiveWriter)
    ensures
        written_entries(w) == Seq::<WrittenEntry>::empty(),
{
    ArchiveWriter { inner: ZipWriter::new(Cursor::new(Vec::new())) }
}

/// Copies entry `i` of `a` without recompressing it (`ZipArchive::by_index`,
/// then `ZipWriter::raw_copy_file`). On success the entry could be opened,
/// its name was not yet taken (the writer refuses duplicate names), and it
/// is appended under its own name, with the contents the reader would give
/// for the entry copied and a copy of its compressed data and metadata. It
/// succeeds when the entry can be opened, its name is not yet taken, and the
/// entries written before stay within the limit (copying first finishes the
/// entry before it). The writer panics on a name longer than it can store.
#[verifier::external_body]
pub(crate) fn copy_entry(w: &mut ArchiveWriter, a: &mut MemArchive, i: usize) -> (r: Result<(), ZipError>)
    requires
        i < archive_entries(*old(a)).len(),
        utf8_len(archive_entries(*old(a))[i as int].name) <= NAME_LIMIT,
    ensures
        archive_entries(*final(a)) == archive_entries(*old(a)),
        r is Ok ==> {
            &&& archive_entries(*old(a))[i as int].info is Some
            &&& !written_names(written_entries(*old(w))).contains(archive_entries(*old(a))[i as int].name)
            &&& written_entries(*final(w)) == written_entries(*old(w)).push(
                WrittenEntry {
                    name: archive_entries(*old(a))[i as int].name,
                    data: archive_entries(*old(a))[i as int].data,
                    open: false,
                    opts: None,
                    copied: archive_entries(*old(a))[i as int].info,
                },
            )
        },
        archive_entries(*old(a))[i as int].info is Some && !written_names(written_entries(*old(w))).contains(
            archive_entries(*old(a))[i as int].name,
        ) && all_fit(written_entries(*old(w))) ==> r is Ok,
{
    let f = a.by_index(i)?;
    w.inner.raw_copy_file(f)
}

/// Starts a new entry called `name` stored as `opts` says
/// (`ZipWriter::start_file`, with the options built from `opts`: method,
/// level, Unix permissions when given, modification time when given, the
/// time through `DateTime::try_from_msdos`, which refuses a time it does not
/// accept). On success the name was not yet taken and an empty, open entry
/// is appended. It succeeds when the name is not yet taken, the writer
/// accepts the options, and the entries written before stay within the
/// limit (starting first finishes the entry before it). The writer panics on
/// a name longer than it can store.
#[verifier::external_body]
pub(crate) fn start_entry(w: &mut ArchiveWriter, name: &str, opts: NewEntryOptions) -> (r: Result<(), ZipError>)
    requires
        utf8_len(name@) <= NAME_LIMIT,
    ensures
        r is Ok ==> {
            &&& !written_names(written_entries(*old(w))).contains(name@)
            &&& written_entries(*final(w)) == written_entries(*old(w)).push(
                WrittenEntry { name: name@, data: Some(Seq::empty()), open: true, opts: Some(opts), copied: None },
            )
        },
        !written_names(written_entries(*old(w))).contains(name@) && writer_accepts(opts) && all_fit(
            written_entries(*old(w)),
        ) ==> r is Ok,
{
    #[allow(deprecated)]
    let method = CompressionMethod::from_u16(opts.method);
    let mut o = SimpleFileOptions::default().compression_method(method).compression_level(opts.level);
    if let Some(mode) = opts.unix_mode {
        o = o.unix_permissions(mode);
    }
    if let Some(t) = opts.mtime {
        o = o.last_modified_time(DateTime::try_from_msdos(t.date, t.time)?);
    }
    w.inner.start_file(name, o)
}

/// Writes `data` as the contents of the entry just started
/// (`Write::write_all`). It succeeds when `data` is within the limit (the
/// writer refuses to count more bytes into an entry).
#[verifier::external_body]
pub(crate) fn write_data(w: &mut ArchiveWriter, data: &[u8]) -> (r: Result<(), ZipError>)
    requires
        written_entries(*old(w)).len() > 0,
        written_entries(*old(w)).last().open,
        written_entries(*old(w)).last().data == Some(Seq::<u8>::empty()),
    ensures
        r is Ok ==> written_entries(*final(w)) == written_entries(*old(w)).update(
            written_entries(*old(w)).len() - 1,
            WrittenEntry {
                name: written_entries(*old(w)).last().name,
                data: Some(data@),
                open: true,
                opts: written_entries(*old(w)).last().opts,
                copied: written_entries(*old(w)).last().copied,
            },
        ),
        data@.len() <= ENTRY_LIMIT ==> r is Ok,
{
    w.inner.write_all(data).map_err(ZipError::Io)
}

/// What reading back a written entry gives: its name, the contents written
/// or copied when they are known, no comment, and, as far as the entry can
/// be opened: for an entry started with options, the method, the Unix mode
/// and the modification time (as the zip crate keeps it) it was started
/// with; for a copied entry, the metadata a copy keeps.
pub open spec fn reads_back(e: StoredEntry, w: WrittenEntry) -> bool {
    &&& e.name == w.name
    &&& w.data is Some ==> e.data == w.data
    &&& e.info matches Some(m) ==> m.comment.len() == 0
    &&& w.opts matches Some(o) ==> (e.info matches Some(m) ==> m.method == o.method && m.unix_mode == written_mode(
        o.unix_mode,
    ) && (o.mtime matches Some(t) ==> m.mtime == Some(dos_time_kept(t))))
    &&& w.copied matches Some(src) ==> (e.info matches Some(m) ==> kept_meta(m, src))
}

/// Finishes the archive (`ZipWriter::finish`) and returns its bytes. Read
/// back, they hold the written entries in the order written, as
/// [`reads_back`] says; their length is at most the overhead of an archive
/// plus the bounds of its entries (each entry is a local header, its name,
/// its data as stored, and a central header with its name again; a copy
/// takes at most its compressed data across). It succeeds when every
/// written entry stays within the limit (finishing the last entry checks
/// its stored size).
#[verifier::external_body]
pub(crate) fn finish_writer(w: ArchiveWriter) -> (r: Result<Vec<u8>, ZipError>)
    ensures
        r matches Ok(b) ==> zip_directory(b@) matches Some(es) && directory_wf(es) && es.len()
            == written_entries(w).len() && forall|k: int|
            0 <= k < es.len() ==> reads_back(#[trigger] es[k], written_entries(w)[k]),
        r matches Ok(b) ==> b@.len() <= ARCHIVE_OVERHEAD + written_sum(written_entries(w)),
        all_fit(written_entries(w)) ==> r is Ok,
{
    let c = w.inner.finish()?;
    Ok(c.into_inner())
}

} // verus!
