//! Reading, listing and rewriting (possibly nested) archives held in memory.
use vstd::prelude::*;

use crate::config::{spec_is_archive_name, Config};
use crate::error::{agrees, agrees_by, ErrView, ZiprError};
use crate::path_expr::{make_expr, normalize_path_for_zip, spec_join_expr, spec_make_expr, views, ZipExpr};
use crate::patch_spec::{LevelName, LevelPolicy, MethodPolicy, MtimePolicy};
use crate::text::{slashes_forward, str_eq};
use crate::zipio::{
    all_fit, archive_entries, archive_len, copy_entry, directory_wf, dos_time_from_unix, dos_time_kept, dos_time_normal,
    dos_time_now, dos_time_of_unix, entry_data, entry_fits, entry_index, entry_info, finish_writer, fits_entry, kept_meta,
    new_writer, open_archive, start_entry, utf8_byte_len, utf8_len, write_data, writer_accepts, written_entries,
    written_mode, written_names, zip_directory, copy_bound, entry_size_bound, new_entry_bound, stored_size_bound,
    written_sum, ArchiveWriter, DosTime, EntryInfo, InfoView, MemArchive, NewEntryOptions, StoredEntry, WrittenEntry,
    ARCHIVE_OVERHEAD, METHOD_DEFLATED, METHOD_STORED, NAME_LIMIT,
};

verus! {

/// One listed entry: its full expression, sizes, and whether it is itself
/// an archive (by extension).
#[derive(Debug, Clone)]
pub struct ListedEntry {
    pub expr: String,
    pub size: u64,
    pub compressed_size: u64,
    /// True if this entry is itself an archive (zip/jar/war/ear). Whether the
    /// nested archive's children are present in the same list depends on
    /// which list function was called: `list_recursive` includes them,
    /// `list_top_level` does not.
    pub is_archive: bool,
}

/// The abstract content of a [`ListedEntry`].
pub struct ListedView {
    pub expr: Seq<char>,
    pub size: u64,
    pub compressed_size: u64,
    pub is_archive: bool,
}

impl View for ListedEntry {
    type V = ListedView;

    open spec fn view(&self) -> ListedView {
        ListedView {
            expr: self.expr@,
            size: self.size,
            compressed_size: self.compressed_size,
            is_archive: self.is_archive,
        }
    }
}

/// The views of a sequence of listed entries.
pub open spec fn listed_views(v: Seq<ListedEntry>) -> Seq<ListedView> {
    v.map_values(|e: ListedEntry| e@)
}

/// How deep nested archives are followed by the recursive traversals.
pub const NESTING_LIMIT: u64 = 0xffff_ffff_ffff_ffff;

/// The index of the entry called `n`, if there is one.
pub open spec fn named_index(es: Seq<StoredEntry>, n: Seq<char>) -> Option<int> {
    if exists|i: int| 0 <= i < es.len() && (#[trigger] es[i]).name == n {
        Some(choose|i: int| 0 <= i < es.len() && (#[trigger] es[i]).name == n)
    } else {
        None
    }
}

/// The contents of the entry called `name` in the archive `bytes`.
pub open spec fn spec_read_entry(bytes: Seq<u8>, name: Seq<char>) -> Result<Seq<u8>, ErrView> {
    match zip_directory(bytes) {
        None => Err(ErrView::Zip),
        Some(es) => match named_index(es, name) {
            None => Err(ErrView::EntryNotFound(name)),
            Some(i) => match es[i].data {
                Some(d) => Ok(d),
                None => Err(ErrView::Zip),
            },
        },
    }
}

/// Following `chain` down from the archive `bytes`: each segment is read
/// from the current archive and must carry an archive extension.
pub open spec fn spec_descend(bytes: Seq<u8>, chain: Seq<Seq<char>>, exts: Set<Seq<char>>) -> Result<Seq<u8>, ErrView>
    decreases chain.len(),
{
    if chain.len() == 0 {
        Ok(bytes)
    } else {
        match spec_read_entry(bytes, chain[0]) {
            Err(_) => Err(ErrView::SegmentNotFound(chain[0])),
            Ok(inner) => if !spec_is_archive_name(exts, chain[0]) {
                Err(ErrView::NotArchiveSegment(chain[0]))
            } else {
                spec_descend(inner, chain.skip(1), exts)
            },
        }
    }
}

/// The meaning of [`get`]: the contents of the entry the segments address.
pub open spec fn spec_get(root: Seq<u8>, segs: Seq<Seq<char>>, exts: Set<Seq<char>>) -> Result<Seq<u8>, ErrView> {
    if segs.len() == 0 {
        Err(ErrView::NoTarget)
    } else {
        match spec_descend(root, segs.drop_last(), exts) {
            Err(e) => Err(e),
            Ok(b) => match spec_read_entry(b, segs.last()) {
                Ok(d) => Ok(d),
                Err(_) => Err(ErrView::TargetEntryNotFound),
            },
        }
    }
}

pub(crate) proof fn lemma_named_index(es: Seq<StoredEntry>, n: Seq<char>, i: int)
    requires
        crate::zipio::directory_wf(es),
        0 <= i < es.len(),
        es[i].name == n,
    ensures
        named_index(es, n) == Some(i),
{
    let j = choose|j: int| 0 <= j < es.len() && (#[trigger] es[j]).name == n;
    if j != i {
        if j < i {
            assert(es[j].name != es[i].name);
        } else {
            assert(es[i].name != es[j].name);
        }
    }
}

/// The contents of the entry called `name` in the archive `bytes`.
pub fn read_from_bytes(bytes: Vec<u8>, name: &str) -> (r: Result<Vec<u8>, ZiprError>)
    ensures
        agrees(r, spec_read_entry(bytes@, name@)),
{
    let ghost b = bytes@;
    let mut a = match open_archive(bytes) {
        Ok(a) => a,
        Err(e) => return Err(ZiprError::Zip(e)),
    };
    match entry_index(&a, name) {
        None => {
            proof {
                let es = archive_entries(a);
                assert(!(exists|i: int| 0 <= i < es.len() && (#[trigger] es[i]).name == name@));
            }
            Err(ZiprError::EntryNotFound(name.to_owned()))
        },
        Some(i) => {
            proof {
                lemma_named_index(archive_entries(a), name@, i as int);
            }
            match entry_data(&mut a, i) {
                Ok(v) => Ok(v),
                Err(e) => Err(ZiprError::Zip(e)),
            }
        },
    }
}

/// The contents of the entry an expression addresses, starting from the
/// bytes of its root archive: every segment but the last is read as a nested
/// archive (and must carry an archive extension), the last is read from the
/// innermost archive.
pub fn get(expr: &ZipExpr, root: Vec<u8>, config: &Config) -> (r: Result<Vec<u8>, ZiprError>)
    ensures
        agrees(r, spec_get(root@, views(expr.segments@), config@.exts)),
{
    let ghost segs = views(expr.segments@);
    let chain = expr.archive_chain();
    let ghost chain_v = views(chain@);
    proof {
        if segs.len() > 0 {
            assert(chain_v =~= segs.drop_last());
        } else {
            assert(chain_v =~= Seq::<Seq<char>>::empty());
        }
    }
    let mut bytes = root;
    let n = chain.len();
    assert(chain_v.skip(0) == chain_v);
    for k in 0..n
        invariant
            n == chain@.len(),
            chain_v == views(chain@),
            segs == views(expr.segments@),
            segs.len() > 0 ==> chain_v == segs.drop_last(),
            n > 0 ==> segs.len() > 0,
            spec_descend(root@, chain_v, config@.exts) == spec_descend(bytes@, chain_v.skip(k as int), config@.exts),
    {
        let seg = chain[k].as_str();
        let ghost before = bytes@;
        proof {
            assert(chain_v.skip(k as int)[0] == seg@);
            assert(chain_v.skip(k as int).skip(1) == chain_v.skip(k + 1));
        }
        let inner = match read_from_bytes(bytes, seg) {
            Ok(v) => v,
            Err(_) => return Err(ZiprError::SegmentNotFound(seg.to_owned())),
        };
        if !config.is_archive_name(seg) {
            return Err(ZiprError::NotArchiveSegment(seg.to_owned()));
        }
        bytes = inner;
    }
    assert(chain_v.skip(n as int) =~= Seq::<Seq<char>>::empty());
    let target = match expr.target() {
        Ok(t) => t,
        Err(e) => return Err(e),
    };
    match read_from_bytes(bytes, target) {
        Ok(v) => Ok(v),
        Err(_) => Err(ZiprError::TargetEntryNotFound),
    }
}

/// The listing of one archive level: every entry that is not a directory,
/// in order, its expression formed from `prefix` and its name; `None` when
/// an entry before the `i`-th cannot be opened.
pub open spec fn level_listing(es: Seq<StoredEntry>, prefix: Seq<char>, exts: Set<Seq<char>>, i: int) -> Option<Seq<ListedView>>
    decreases i,
{
    if i <= 0 {
        Some(Seq::empty())
    } else {
        match level_listing(es, prefix, exts, i - 1) {
            None => None,
            Some(acc) => match es[i - 1].info {
                None => None,
                Some(m) => if m.is_dir {
                    Some(acc)
                } else {
                    Some(acc.push(listed_item(m, prefix, exts)))
                },
            },
        }
    }
}

/// The listing item of an entry.
pub open spec fn listed_item(m: crate::zipio::InfoView, prefix: Seq<char>, exts: Set<Seq<char>>) -> ListedView {
    ListedView {
        expr: spec_make_expr(prefix, m.name),
        size: m.size,
        compressed_size: m.compressed_size,
        is_archive: spec_is_archive_name(exts, m.name),
    }
}

/// The top-level listing of the archive `bytes`, or why there is none.
pub open spec fn spec_list_level(bytes: Seq<u8>, prefix: Seq<char>, exts: Set<Seq<char>>) -> Result<Seq<ListedView>, ErrView> {
    match zip_directory(bytes) {
        None => Err(ErrView::Zip),
        Some(es) => match level_listing(es, prefix, exts, es.len() as int) {
            None => Err(ErrView::Zip),
            Some(l) => Ok(l),
        },
    }
}

fn listed_entry(m: &crate::zipio::EntryInfo, prefix: &str, config: &Config) -> (r: ListedEntry)
    ensures
        r@ == listed_item(m@, prefix@, config@.exts),
{
    ListedEntry {
        expr: make_expr(prefix, m.name.as_str()),
        size: m.size,
        compressed_size: m.compressed_size,
        is_archive: config.is_archive_name(m.name.as_str()),
    }
}

/// Appends the listing of one archive level to `out`.
fn list_one_level(archive: &mut MemArchive, prefix: &str, config: &Config, out: &mut Vec<ListedEntry>) -> (r: Result<(), ZiprError>)
    ensures
        archive_entries(*final(archive)) == archive_entries(*old(archive)),
        match level_listing(archive_entries(*old(archive)), prefix@, config@.exts, archive_entries(*old(archive)).len() as int) {
            Some(l) => r is Ok && listed_views(final(out)@) == listed_views(old(out)@) + l,
            None => r matches Err(e) && e@ == ErrView::Zip,
        },
{
    let ghost es = archive_entries(*archive);
    let n = archive_len(archive);
    let ghost base = listed_views(out@);
    assert(listed_views(out@) =~= base + Seq::<ListedView>::empty());
    for i in 0..n
        invariant
            n == es.len(),
            es == archive_entries(*old(archive)),
            archive_entries(*archive) == es,
            level_listing(es, prefix@, config@.exts, i as int) is Some,
            listed_views(out@) == base + level_listing(es, prefix@, config@.exts, i as int).unwrap(),
    {
        let m = match entry_info(archive, i) {
            Ok(m) => m,
            Err(e) => {
                proof {
                    assert(level_listing(es, prefix@, config@.exts, i + 1) is None);
                    lemma_level_listing_none_from(es, prefix@, config@.exts, i + 1, n as int);
                }
                return Err(ZiprError::Zip(e));
            },
        };
        if !m.is_dir {
            let item = listed_entry(&m, prefix, config);
            let ghost before = out@;
            out.push(item);
            assert(listed_views(out@) =~= listed_views(before).push(item@));
        }
    }
    Ok(())
}

proof fn lemma_level_listing_none_from(es: Seq<StoredEntry>, prefix: Seq<char>, exts: Set<Seq<char>>, i: int, j: int)
    requires
        0 < i <= j,
        level_listing(es, prefix, exts, i) is None,
    ensures
        level_listing(es, prefix, exts, j) is None,
    decreases j - i,
{
    if i < j {
        lemma_level_listing_none_from(es, prefix, exts, i, j - 1);
    }
}

/// The entries of the archive `bytes`, one level deep, each named by `root`
/// and its name.
pub fn list_top_level(bytes: Vec<u8>, root: &str, config: &Config) -> (r: Result<Vec<ListedEntry>, ZiprError>)
    ensures
        agrees_by(r, spec_list_level(bytes@, root@, config@.exts), |v: Vec<ListedEntry>| listed_views(v@)),
{
    let ghost b = bytes@;
    let mut archive = match open_archive(bytes) {
        Ok(a) => a,
        Err(e) => return Err(ZiprError::Zip(e)),
    };
    let mut out: Vec<ListedEntry> = Vec::new();
    match list_one_level(&mut archive, root, config, &mut out) {
        Ok(()) => {
            assert(listed_views(out@) =~= Seq::<ListedView>::empty() + listed_views(out@));
            Ok(out)
        },
        Err(e) => Err(e),
    }
}

/// Following `segs` down from `bytes`, checking each segment's extension
/// before reading it, and the prefix that names the archive reached.
pub open spec fn spec_segment_descend(bytes: Seq<u8>, prefix: Seq<char>, segs: Seq<Seq<char>>, exts: Set<Seq<char>>) -> Result<(Seq<u8>, Seq<char>), ErrView>
    decreases segs.len(),
{
    if segs.len() == 0 {
        Ok((bytes, prefix))
    } else if !spec_is_archive_name(exts, segs[0]) {
        Err(ErrView::NotArchiveSegment(segs[0]))
    } else {
        match spec_read_entry(bytes, segs[0]) {
            Err(_) => Err(ErrView::SegmentNotFound(segs[0])),
            Ok(inner) => spec_segment_descend(inner, spec_make_expr(prefix, segs[0]), segs.skip(1), exts),
        }
    }
}

/// The meaning of [`list_segment`].
pub open spec fn spec_list_segment(root: Seq<char>, bytes: Seq<u8>, segs: Seq<Seq<char>>, exts: Set<Seq<char>>) -> Result<Seq<ListedView>, ErrView> {
    if segs.len() == 0 {
        spec_list_level(bytes, root, exts)
    } else {
        match spec_segment_descend(bytes, slashes_forward(root), segs, exts) {
            Err(e) => Err(e),
            Ok((b, p)) => spec_list_level(b, p, exts),
        }
    }
}

/// Joining a segment onto a prefix, then the rest, is joining all of them.
proof fn lemma_join_front(p: Seq<char>, s0: Seq<char>, rest: Seq<Seq<char>>)
    ensures
        spec_join_expr(spec_make_expr(p, s0), rest) == spec_join_expr(p, seq![s0] + rest),
    decreases rest.len(),
{
    if rest.len() == 0 {
        assert(seq![s0] + rest =~= seq![s0]);
        assert(seq![s0].drop_last() =~= Seq::<Seq<char>>::empty());
        assert(spec_join_expr(p, seq![s0].drop_last()) == p);
    } else {
        lemma_join_front(p, s0, rest.drop_last());
        assert((seq![s0] + rest).drop_last() =~= seq![s0] + rest.drop_last());
        assert((seq![s0] + rest).last() == rest.last());
    }
}

/// Where reading down `segs` succeeds, descending segment by segment does
/// too, reaching the same archive, named by the prefix joined with the
/// segments.
proof fn lemma_segment_descend_agrees(bytes: Seq<u8>, prefix: Seq<char>, segs: Seq<Seq<char>>, exts: Set<Seq<char>>)
    requires
        spec_descend(bytes, segs, exts) is Ok,
    ensures
        spec_segment_descend(bytes, prefix, segs, exts) == Ok::<(Seq<u8>, Seq<char>), ErrView>(
            (spec_descend(bytes, segs, exts)->Ok_0, spec_join_expr(prefix, segs)),
        ),
    decreases segs.len(),
{
    if segs.len() == 0 {
    } else {
        let inner = spec_read_entry(bytes, segs[0])->Ok_0;
        lemma_segment_descend_agrees(inner, spec_make_expr(prefix, segs[0]), segs.skip(1), exts);
        lemma_join_front(prefix, segs[0], segs.skip(1));
        assert(seq![segs[0]] + segs.skip(1) =~= segs);
    }
}

/// Listing below a path of segments lists the archive that reading down
/// those segments reaches, one level deep, each entry named by the root
/// (with forward slashes) and the segments joined with `!/`, then its own
/// name.
pub proof fn law_list_segment_lists_nested_archive(root: Seq<char>, bytes: Seq<u8>, segs: Seq<Seq<char>>, exts: Set<Seq<char>>)
    requires
        segs.len() > 0,
        spec_descend(bytes, segs, exts) is Ok,
    ensures
        spec_list_segment(root, bytes, segs, exts) == spec_list_level(
            spec_descend(bytes, segs, exts)->Ok_0,
            spec_join_expr(slashes_forward(root), segs),
            exts,
        ),
{
    lemma_segment_descend_agrees(bytes, slashes_forward(root), segs, exts);
}

/// Where reading down `segs` fails, descending segment by segment fails too.
proof fn lemma_segment_descend_fails(bytes: Seq<u8>, prefix: Seq<char>, segs: Seq<Seq<char>>, exts: Set<Seq<char>>)
    requires
        spec_descend(bytes, segs, exts) is Err,
    ensures
        spec_segment_descend(bytes, prefix, segs, exts) is Err,
    decreases segs.len(),
{
    if segs.len() > 0 && spec_is_archive_name(exts, segs[0]) {
        if let Ok(inner) = spec_read_entry(bytes, segs[0]) {
            lemma_segment_descend_fails(inner, spec_make_expr(prefix, segs[0]), segs.skip(1), exts);
        }
    }
}

/// Listing below a path of segments fails when some segment lacks an
/// archive extension or cannot be read from the archive holding it.
pub proof fn law_list_segment_fails_off_the_path(root: Seq<char>, bytes: Seq<u8>, segs: Seq<Seq<char>>, exts: Set<Seq<char>>)
    requires
        segs.len() > 0,
        spec_descend(bytes, segs, exts) is Err,
    ensures
        spec_list_segment(root, bytes, segs, exts) is Err,
{
    lemma_segment_descend_fails(bytes, slashes_forward(root), segs, exts);
}

/// The entries, one level deep, of the archive an expression addresses:
/// the root archive itself when there are no segments, else the nested
/// archive reached through all segments (each must carry an archive
/// extension).
pub fn list_segment(zip_expr: &ZipExpr, root: Vec<u8>, config: &Config) -> (r: Result<Vec<ListedEntry>, ZiprError>)
    ensures
        agrees_by(
            r,
            spec_list_segment(zip_expr.root_archive@, root@, views(zip_expr.segments@), config@.exts),
            |v: Vec<ListedEntry>| listed_views(v@),
        ),
{
    if zip_expr.segments.len() == 0 {
        return list_top_level(root, zip_expr.root_archive.as_str(), config);
    }
    let ghost segs = views(zip_expr.segments@);
    let mut bytes = root;
    let mut prefix = normalize_path_for_zip(zip_expr.root_archive.as_str());
    let n = zip_expr.segments.len();
    assert(segs.skip(0) == segs);
    for k in 0..n
        invariant
            n == zip_expr.segments@.len() == segs.len(),
            segs == views(zip_expr.segments@),
            spec_segment_descend(root@, slashes_forward(zip_expr.root_archive@), segs, config@.exts)
                == spec_segment_descend(bytes@, prefix@, segs.skip(k as int), config@.exts),
    {
        let seg = zip_expr.segments[k].as_str();
        proof {
            assert(segs.skip(k as int)[0] == seg@);
            assert(segs.skip(k as int).skip(1) == segs.skip(k + 1));
        }
        if !config.is_archive_name(seg) {
            return Err(ZiprError::NotArchiveSegment(seg.to_owned()));
        }
        bytes = match read_from_bytes(bytes, seg) {
            Ok(v) => v,
            Err(_) => return Err(ZiprError::SegmentNotFound(seg.to_owned())),
        };
        prefix = make_expr(prefix.as_str(), seg);
    }
    assert(segs.skip(n as int) =~= Seq::<Seq<char>>::empty());
    list_top_level(bytes, prefix.as_str(), config)
}

/// The recursive listing of one archive level, the first `i` entries: every
/// entry that is not a directory, each archive entry followed by the
/// recursive listing of its contents when they read as an archive. Nested
/// archives below `fuel` levels are refused.
pub open spec fn rec_listing(es: Seq<StoredEntry>, prefix: Seq<char>, exts: Set<Seq<char>>, fuel: nat, i: int) -> Result<Seq<ListedView>, ErrView>
    decreases fuel, i,
{
    if i <= 0 {
        Ok(Seq::empty())
    } else {
        match rec_listing(es, prefix, exts, fuel, i - 1) {
            Err(e) => Err(e),
            Ok(acc) => match es[i - 1].info {
                None => Err(ErrView::Zip),
                Some(m) => if m.is_dir {
                    Ok(acc)
                } else {
                    let item = listed_item(m, prefix, exts);
                    if !item.is_archive {
                        Ok(acc.push(item))
                    } else {
                        match es[i - 1].data {
                            None => Err(ErrView::Zip),
                            Some(d) => match zip_directory(d) {
                                None => Ok(acc.push(item)),
                                Some(es2) => if fuel == 0 {
                                    Err(ErrView::NestingTooDeep)
                                } else {
                                    match rec_listing(es2, item.expr, exts, (fuel - 1) as nat, es2.len() as int) {
                                        Err(e) => Err(e),
                                        Ok(sub) => Ok(acc.push(item) + sub),
                                    }
                                },
                            },
                        }
                    }
                },
            },
        }
    }
}

proof fn lemma_rec_listing_err_from(es: Seq<StoredEntry>, prefix: Seq<char>, exts: Set<Seq<char>>, fuel: nat, i: int, j: int)
    requires
        0 < i <= j,
        rec_listing(es, prefix, exts, fuel, i) is Err,
    ensures
        rec_listing(es, prefix, exts, fuel, j) == rec_listing(es, prefix, exts, fuel, i),
    decreases j - i,
{
    if i < j {
        lemma_rec_listing_err_from(es, prefix, exts, fuel, i, j - 1);
    }
}

/// The meaning of [`list_recursive`].
pub open spec fn spec_list_recursive(bytes: Seq<u8>, root: Seq<char>, exts: Set<Seq<char>>) -> Result<Seq<ListedView>, ErrView> {
    match zip_directory(bytes) {
        None => Err(ErrView::Zip),
        Some(es) => rec_listing(es, root, exts, NESTING_LIMIT as nat, es.len() as int),
    }
}

/// Appends the recursive listing of an opened archive to `out`.
fn recurse_list(archive: &mut MemArchive, prefix: &str, config: &Config, out: &mut Vec<ListedEntry>, depth: u64) -> (r: Result<(), ZiprError>)
    ensures
        archive_entries(*final(archive)) == archive_entries(*old(archive)),
        match rec_listing(archive_entries(*old(archive)), prefix@, config@.exts, depth as nat, archive_entries(*old(archive)).len() as int) {
            Ok(l) => r is Ok && listed_views(final(out)@) == listed_views(old(out)@) + l,
            Err(e) => r matches Err(x) && x@ == e,
        },
    decreases depth,
{
    let ghost es = archive_entries(*archive);
    let ghost exts = config@.exts;
    let n = archive_len(archive);
    let ghost base = listed_views(out@);
    assert(listed_views(out@) =~= base + Seq::<ListedView>::empty());
    for i in 0..n
        invariant
            n == es.len(),
            es == archive_entries(*old(archive)),
            exts == config@.exts,
            archive_entries(*archive) == es,
            rec_listing(es, prefix@, exts, depth as nat, i as int) is Ok,
            listed_views(out@) == base + rec_listing(es, prefix@, exts, depth as nat, i as int)->Ok_0,
    {
        let m = match entry_info(archive, i) {
            Ok(m) => m,
            Err(e) => {
                proof {
                    assert(rec_listing(es, prefix@, exts, depth as nat, i + 1) == Err::<Seq<ListedView>, ErrView>(ErrView::Zip));
                    lemma_rec_listing_err_from(es, prefix@, exts, depth as nat, i + 1, n as int);
                }
                return Err(ZiprError::Zip(e));
            },
        };
        if !m.is_dir {
            let item = listed_entry(&m, prefix, config);
            let is_archive = item.is_archive;
            let expr = item.expr.clone();
            let ghost before = out@;
            let ghost acc = rec_listing(es, prefix@, exts, depth as nat, i as int)->Ok_0;
            let ghost item_v = item@;
            out.push(item);
            assert(listed_views(out@) =~= listed_views(before).push(item_v));
            if is_archive {
                let nested = match entry_data(archive, i) {
                    Ok(v) => v,
                    Err(e) => {
                        proof {
                            assert(rec_listing(es, prefix@, exts, depth as nat, i + 1) == Err::<Seq<ListedView>, ErrView>(ErrView::Zip));
                            lemma_rec_listing_err_from(es, prefix@, exts, depth as nat, i + 1, n as int);
                        }
                        return Err(ZiprError::Zip(e));
                    },
                };
                let ghost d = nested@;
                match open_archive(nested) {
                    Ok(mut nested_archive) => {
                        if depth == 0 {
                            proof {
                                assert(rec_listing(es, prefix@, exts, depth as nat, i + 1) == Err::<Seq<ListedView>, ErrView>(ErrView::NestingTooDeep));
                                lemma_rec_listing_err_from(es, prefix@, exts, depth as nat, i + 1, n as int);
                            }
                            return Err(ZiprError::NestingTooDeep);
                        }
                        let ghost es2 = archive_entries(nested_archive);
                        let ghost mid = listed_views(out@);
                        let res = recurse_list(&mut nested_archive, expr.as_str(), config, out, depth - 1);
                        match res {
                            Ok(()) => {
                                let ghost sub = rec_listing(es2, item_v.expr, exts, (depth - 1) as nat, es2.len() as int)->Ok_0;
                                assert(listed_views(out@) =~= base + (acc.push(item_v) + sub));
                            },
                            Err(e) => {
                                proof {
                                    lemma_rec_listing_err_from(es, prefix@, exts, depth as nat, i + 1, n as int);
                                }
                                return Err(e);
                            },
                        }
                    },
                    Err(_) => {},
                }
            }
        }
    }
    Ok(())
}

/// Every entry of the archive `bytes` that is not a directory, in order,
/// each archive entry followed by the entries of the archive it holds (when
/// it holds one), recursively; each named by `root` and the chain of names
/// leading to it.
pub fn list_recursive(bytes: Vec<u8>, root: &str, config: &Config) -> (r: Result<Vec<ListedEntry>, ZiprError>)
    ensures
        agrees_by(r, spec_list_recursive(bytes@, root@, config@.exts), |v: Vec<ListedEntry>| listed_views(v@)),
{
    let mut archive = match open_archive(bytes) {
        Ok(a) => a,
        Err(e) => return Err(ZiprError::Zip(e)),
    };
    let mut out: Vec<ListedEntry> = Vec::new();
    match recurse_list(&mut archive, root, config, &mut out, NESTING_LIMIT) {
        Ok(()) => {
            assert(listed_views(out@) =~= Seq::<ListedView>::empty() + listed_views(out@));
            Ok(out)
        },
        Err(e) => Err(e),
    }
}

/// `m` places each item of `l` at a position of `r` holding it, positions
/// increasing.
pub open spec fn embeds_by(l: Seq<ListedView>, r: Seq<ListedView>, m: spec_fn(int) -> int) -> bool {
    &&& forall|k: int| 0 <= k < l.len() ==> 0 <= #[trigger] m(k) < r.len() && r[m(k)] == l[k]
    &&& forall|a: int, b: int| 0 <= a < b < l.len() ==> #[trigger] m(a) < #[trigger] m(b)
}

/// `l` appears within `r` in order: each item of `l` is an item of `r`, at
/// increasing positions.
pub open spec fn embeds(l: Seq<ListedView>, r: Seq<ListedView>) -> bool {
    exists|m: spec_fn(int) -> int| #[trigger] embeds_by(l, r, m)
}

proof fn lemma_level_in_recursive(es: Seq<StoredEntry>, prefix: Seq<char>, exts: Set<Seq<char>>, fuel: nat, i: int)
    requires
        0 <= i <= es.len(),
        level_listing(es, prefix, exts, i) is Some,
        rec_listing(es, prefix, exts, fuel, i) is Ok,
    ensures
        embeds(level_listing(es, prefix, exts, i).unwrap(), rec_listing(es, prefix, exts, fuel, i)->Ok_0),
    decreases i,
{
    let l = level_listing(es, prefix, exts, i).unwrap();
    let r = rec_listing(es, prefix, exts, fuel, i)->Ok_0;
    if i == 0 {
        let m = |k: int| k;
        assert(embeds_by(l, r, m));
    } else {
        lemma_level_in_recursive(es, prefix, exts, fuel, i - 1);
        let l0 = level_listing(es, prefix, exts, i - 1).unwrap();
        let r0 = rec_listing(es, prefix, exts, fuel, i - 1)->Ok_0;
        let m0 = choose|m: spec_fn(int) -> int| #[trigger] embeds_by(l0, r0, m);
        let info = es[i - 1].info.unwrap();
        if info.is_dir {
            assert(l == l0 && r == r0);
            assert(embeds_by(l, r, m0));
        } else {
            let item = listed_item(info, prefix, exts);
            assert(l == l0.push(item));
            let m = |k: int| if k < l0.len() { m0(k) } else { r0.len() as int };
            assert(r.len() > r0.len());
            assert(r[r0.len() as int] == item);
            assert forall|k: int| 0 <= k < r0.len() implies r[k] == r0[k] by {}
            assert forall|k: int| 0 <= k < l.len() implies 0 <= #[trigger] m(k) < r.len() && r[m(k)] == l[k] by {
                if k < l0.len() {
                    assert(0 <= m0(k) < r0.len() && r0[m0(k)] == l0[k]);
                }
            }
            assert forall|a: int, b: int| 0 <= a < b < l.len() implies #[trigger] m(a) < #[trigger] m(b) by {
                if b < l0.len() {
                    assert(m0(a) < m0(b));
                } else {
                    assert(0 <= m0(a) < r0.len());
                }
            }
            assert(embeds_by(l, r, m));
        }
    }
}

/// Whatever the top-level listing of an archive shows, the recursive
/// listing shows too, in the same order (the recursive listing adds the
/// contents of nested archives after each of them).
pub proof fn law_top_level_within_recursive(bytes: Seq<u8>, root: Seq<char>, exts: Set<Seq<char>>)
    requires
        spec_list_level(bytes, root, exts) is Ok,
        spec_list_recursive(bytes, root, exts) is Ok,
    ensures
        embeds(spec_list_level(bytes, root, exts)->Ok_0, spec_list_recursive(bytes, root, exts)->Ok_0),
{
    let es = zip_directory(bytes).unwrap();
    lemma_level_in_recursive(es, root, exts, NESTING_LIMIT as nat, es.len() as int);
}

/// Whether `item` lists the entry `e` of an archive named by `prefix`: the
/// entry can be opened and is not a directory, the item's expression names
/// it under the prefix, and the item carries the size and compressed size
/// the directory records for it, and whether its name has an archive
/// extension.
pub open spec fn names_entry(e: StoredEntry, prefix: Seq<char>, exts: Set<Seq<char>>, item: ListedView) -> bool {
    &&& e.info is Some
    &&& !e.info.unwrap().is_dir
    &&& item.expr == spec_make_expr(prefix, e.info.unwrap().name)
    &&& item.size == e.info.unwrap().size
    &&& item.compressed_size == e.info.unwrap().compressed_size
    &&& item.is_archive == spec_is_archive_name(exts, e.info.unwrap().name)
}

/// Whether `item` lists one of the first `i` entries of `es`, or (below an
/// archive entry, down to `fuel` levels) an entry of an archive nested in
/// one: the entry is not a directory, the item's expression names it under
/// the archive's prefix, and the item carries the size and compressed size
/// the directory records for it, and whether its name has an archive
/// extension.
pub open spec fn lists_entry(es: Seq<StoredEntry>, prefix: Seq<char>, exts: Set<Seq<char>>, fuel: nat, i: int, item: ListedView) -> bool
    decreases fuel,
{
    exists|j: int|
        0 <= j < i && j < es.len() && (#[trigger] es[j]).info is Some && !es[j].info.unwrap().is_dir && ({
            let m = es[j].info.unwrap();
            ||| (item.expr == spec_make_expr(prefix, m.name) && item.size == m.size && item.compressed_size
                == m.compressed_size && item.is_archive == spec_is_archive_name(exts, m.name))
            ||| (fuel > 0 && es[j].data is Some && zip_directory(es[j].data.unwrap()) is Some && lists_entry(
                zip_directory(es[j].data.unwrap()).unwrap(),
                spec_make_expr(prefix, m.name),
                exts,
                (fuel - 1) as nat,
                zip_directory(es[j].data.unwrap()).unwrap().len() as int,
                item,
            ))
        })
}

proof fn lemma_lists_entry_more(es: Seq<StoredEntry>, prefix: Seq<char>, exts: Set<Seq<char>>, fuel: nat, i: int, item: ListedView)
    requires
        lists_entry(es, prefix, exts, fuel, i, item),
    ensures
        lists_entry(es, prefix, exts, fuel, i + 1, item),
{
    let j = choose|j: int|
        0 <= j < i && j < es.len() && (#[trigger] es[j]).info is Some && !es[j].info.unwrap().is_dir && ({
            let m = es[j].info.unwrap();
            ||| (item.expr == spec_make_expr(prefix, m.name) && item.size == m.size && item.compressed_size
                == m.compressed_size && item.is_archive == spec_is_archive_name(exts, m.name))
            ||| (fuel > 0 && es[j].data is Some && zip_directory(es[j].data.unwrap()) is Some && lists_entry(
                zip_directory(es[j].data.unwrap()).unwrap(),
                spec_make_expr(prefix, m.name),
                exts,
                (fuel - 1) as nat,
                zip_directory(es[j].data.unwrap()).unwrap().len() as int,
                item,
            ))
        });
    assert(0 <= j < i + 1 && j < es.len() && es[j].info is Some);
}

proof fn lemma_rec_listing_lists(es: Seq<StoredEntry>, prefix: Seq<char>, exts: Set<Seq<char>>, fuel: nat, i: int)
    requires
        0 <= i <= es.len(),
    ensures
        rec_listing(es, prefix, exts, fuel, i) matches Ok(l) ==> forall|k: int|
            0 <= k < l.len() ==> lists_entry(es, prefix, exts, fuel, i, #[trigger] l[k]),
    decreases fuel, i,
{
    if i > 0 {
        lemma_rec_listing_lists(es, prefix, exts, fuel, i - 1);
        if let Ok(l) = rec_listing(es, prefix, exts, fuel, i) {
            let acc = rec_listing(es, prefix, exts, fuel, i - 1)->Ok_0;
            let m = es[i - 1].info.unwrap();
            assert forall|k: int| 0 <= k < l.len() implies lists_entry(es, prefix, exts, fuel, i, #[trigger] l[k]) by {
                if k < acc.len() {
                    assert(l[k] == acc[k]);
                    lemma_lists_entry_more(es, prefix, exts, fuel, i - 1, acc[k]);
                } else if k == acc.len() {
                    assert(l[k] == listed_item(m, prefix, exts));
                    assert(es[i - 1].info is Some);
                } else {
                    let d = es[i - 1].data.unwrap();
                    let es2 = zip_directory(d).unwrap();
                    let item = listed_item(m, prefix, exts);
                    let sub = rec_listing(es2, item.expr, exts, (fuel - 1) as nat, es2.len() as int)->Ok_0;
                    assert(l == acc.push(item) + sub);
                    assert(l[k] == sub[k - acc.len() - 1]);
                    lemma_rec_listing_lists(es2, item.expr, exts, (fuel - 1) as nat, es2.len() as int);
                    assert(lists_entry(es2, item.expr, exts, (fuel - 1) as nat, es2.len() as int, l[k]));
                    assert(es[i - 1].info is Some);
                }
            }
        }
    }
}

/// Every item of a recursive listing lists a non-directory entry of the
/// archive or of an archive nested in it, with the sizes the directory
/// records for that entry: `size` its uncompressed size, `compressed_size`
/// its compressed size.
pub proof fn law_recursive_listing_items(bytes: Seq<u8>, root: Seq<char>, exts: Set<Seq<char>>)
    ensures
        spec_list_recursive(bytes, root, exts) matches Ok(l) ==> forall|k: int|
            0 <= k < l.len() ==> lists_entry(
                zip_directory(bytes).unwrap(),
                root,
                exts,
                NESTING_LIMIT as nat,
                zip_directory(bytes).unwrap().len() as int,
                #[trigger] l[k],
            ),
{
    if let Some(es) = zip_directory(bytes) {
        lemma_rec_listing_lists(es, root, exts, NESTING_LIMIT as nat, es.len() as int);
    }
}

/// Every item of a one-level listing is a non-directory entry of the
/// archive, named under the prefix, with the sizes the directory records for
/// it.
pub proof fn law_level_listing_items(bytes: Seq<u8>, prefix: Seq<char>, exts: Set<Seq<char>>, k: int)
    requires
        spec_list_level(bytes, prefix, exts) is Ok,
        0 <= k < spec_list_level(bytes, prefix, exts)->Ok_0.len(),
    ensures
        exists|j: int|
            0 <= j < zip_directory(bytes).unwrap().len() && #[trigger] names_entry(
                zip_directory(bytes).unwrap()[j],
                prefix,
                exts,
                spec_list_level(bytes, prefix, exts)->Ok_0[k],
            ),
{
    let es = zip_directory(bytes).unwrap();
    let j = lemma_level_listing_item(es, prefix, exts, es.len() as int, k);
    assert(names_entry(es[j], prefix, exts, spec_list_level(bytes, prefix, exts)->Ok_0[k]));
}

proof fn lemma_level_listing_item(es: Seq<StoredEntry>, prefix: Seq<char>, exts: Set<Seq<char>>, i: int, k: int) -> (j: int)
    requires
        0 <= i <= es.len(),
        level_listing(es, prefix, exts, i) is Some,
        0 <= k < level_listing(es, prefix, exts, i).unwrap().len(),
    ensures
        0 <= j < es.len(),
        names_entry(es[j], prefix, exts, level_listing(es, prefix, exts, i).unwrap()[k]),
    decreases i,
{
    let l = level_listing(es, prefix, exts, i).unwrap();
    let acc = level_listing(es, prefix, exts, i - 1).unwrap();
    if k < acc.len() {
        assert(l[k] == acc[k]);
        lemma_level_listing_item(es, prefix, exts, i - 1, k)
    } else {
        assert(l[k] == listed_item(es[i - 1].info.unwrap(), prefix, exts));
        i - 1
    }
}

/// How a replaced entry is stored.
#[derive(Debug, Clone, Copy, PartialEq, Eq, Structural)]
pub struct ReplaceOptions {
    pub method: MethodPolicy,
    pub level: LevelPolicy,
    pub mtime: MtimePolicy,
}

/// Inherit method and level, take the source's modification time.
pub open spec fn default_replace_options() -> ReplaceOptions {
    ReplaceOptions {
        method: MethodPolicy::Inherit,
        level: LevelPolicy::Name(LevelName::Inherit),
        mtime: MtimePolicy::Source,
    }
}

impl Default for ReplaceOptions {
    /// Inherit method and level, take the source's modification time.
    fn default() -> (r: Self)
        ensures
            r == default_replace_options(),
    {
        ReplaceOptions {
            method: MethodPolicy::Inherit,
            level: LevelPolicy::Name(LevelName::Inherit),
            mtime: MtimePolicy::Source,
        }
    }
}

/// A change to make at the end of a path of segments.
pub enum Mutation {
    /// Remove the entry.
    Delete,
    /// Store new contents in the entry. `source_mtime` is the source file's
    /// modification time and `now` the current time, both when known.
    Replace { bytes: Vec<u8>, opts: ReplaceOptions, source_mtime: Option<DosTime>, now: Option<DosTime> },
}

/// The abstract content of a [`Mutation`].
pub enum MutationView {
    Delete,
    Replace { data: Seq<u8>, opts: ReplaceOptions, source_mtime: Option<DosTime>, now: Option<DosTime> },
}

impl View for Mutation {
    type V = MutationView;

    open spec fn view(&self) -> MutationView {
        match self {
            Mutation::Delete => MutationView::Delete,
            Mutation::Replace { bytes, opts, source_mtime, now } => MutationView::Replace {
                data: bytes@,
                opts: *opts,
                source_mtime: *source_mtime,
                now: *now,
            },
        }
    }
}

/// A copy of a mutation, to hand down to a nested archive.
fn mutation_for_nested(m: &Mutation) -> (r: Mutation)
    ensures
        r@ == m@,
{
    match m {
        Mutation::Delete => Mutation::Delete,
        Mutation::Replace { bytes, opts, source_mtime, now } => Mutation::Replace {
            bytes: bytes.clone(),
            opts: *opts,
            source_mtime: *source_mtime,
            now: *now,
        },
    }
}

/// The method code a replaced entry gets.
pub open spec fn spec_resolve_method(prior: u16, opts: ReplaceOptions) -> u16 {
    match opts.method {
        MethodPolicy::Inherit => prior,
        MethodPolicy::Stored => METHOD_STORED,
        MethodPolicy::Deflated => METHOD_DEFLATED,
    }
}

/// The compression level a replaced entry gets: none when stored, else the
/// fixed level if one is given.
pub open spec fn spec_resolve_level(method: u16, level: LevelPolicy) -> Option<u8> {
    if method == METHOD_STORED {
        None
    } else {
        match level {
            LevelPolicy::Fixed(v) => Some(v),
            LevelPolicy::Name(_) => None,
        }
    }
}

/// The first of two optional times that is present.
pub open spec fn or_time(a: Option<DosTime>, b: Option<DosTime>) -> Option<DosTime> {
    match a {
        Some(t) => Some(t),
        None => b,
    }
}

/// How a replaced entry is written: method and level as resolved, the
/// replaced entry's Unix mode, and the modification time the policy picks
/// (falling back to the replaced entry's).
pub open spec fn spec_new_entry_options(prior: InfoView, opts: ReplaceOptions, source_time: Option<DosTime>, now: Option<DosTime>) -> NewEntryOptions {
    let method = spec_resolve_method(prior.method, opts);
    NewEntryOptions {
        method,
        level: match spec_resolve_level(method, opts.level) {
            Some(v) => Some(v as i64),
            None => None,
        },
        unix_mode: prior.unix_mode,
        mtime: match opts.mtime {
            MtimePolicy::Keep => prior.mtime,
            MtimePolicy::Source => or_time(source_time, prior.mtime),
            MtimePolicy::Now => or_time(now, prior.mtime),
        },
    }
}

fn resolve_method(prior: &EntryInfo, opts: &ReplaceOptions) -> (r: u16)
    ensures
        r == spec_resolve_method(prior.method, *opts),
{
    match opts.method {
        MethodPolicy::Inherit => prior.method,
        MethodPolicy::Stored => METHOD_STORED,
        MethodPolicy::Deflated => METHOD_DEFLATED,
    }
}

fn resolve_level(method: u16, level_policy: &LevelPolicy) -> (r: Option<u8>)
    ensures
        r == spec_resolve_level(method, *level_policy),
{
    if method == METHOD_STORED {
        return None;
    }
    match level_policy {
        LevelPolicy::Fixed(v) => Some(*v),
        LevelPolicy::Name(LevelName::Default) => None,
        LevelPolicy::Name(LevelName::Inherit) => None,
    }
}

/// Writes a new entry called `name` holding `data`, stored as the options
/// and the replaced entry's metadata dictate.
fn copy_new_entry(
    writer: &mut ArchiveWriter,
    name: &str,
    data: &[u8],
    prior: &EntryInfo,
    opts: &ReplaceOptions,
    source_time: Option<DosTime>,
    now: Option<DosTime>,
) -> (r: Result<(), ZiprError>)
    requires
        utf8_len(name@) <= NAME_LIMIT,
    ensures
        r is Ok ==> {
            &&& !written_names(written_entries(*old(writer))).contains(name@)
            &&& written_entries(*final(writer)) == written_entries(*old(writer)).push(
                WrittenEntry {
                    name: name@,
                    data: Some(data@),
                    open: true,
                    opts: Some(spec_new_entry_options(prior@, *opts, source_time, now)),
                    copied: None,
                },
            )
        },
        r matches Err(e) ==> e@ is Zip,
        !written_names(written_entries(*old(writer))).contains(name@) && all_fit(written_entries(*old(writer)))
            && writer_accepts(spec_new_entry_options(prior@, *opts, source_time, now)) && fits_entry(
            spec_new_entry_options(prior@, *opts, source_time, now),
            data@.len(),
        ) ==> r is Ok,
{
    let options = new_entry_options(prior, opts, source_time, now);
    if let Err(e) = start_entry(writer, name, options) {
        return Err(ZiprError::Zip(e));
    }
    match write_data(writer, data) {
        Ok(()) => Ok(()),
        Err(e) => Err(ZiprError::Zip(e)),
    }
}

/// How a replaced entry is written, from its previous metadata, the
/// options, and the candidate times.
pub fn new_entry_options(prior: &EntryInfo, opts: &ReplaceOptions, source_time: Option<DosTime>, now: Option<DosTime>) -> (r: NewEntryOptions)
    ensures
        r == spec_new_entry_options(prior@, *opts, source_time, now),
{
    let method = resolve_method(prior, opts);
    let level = resolve_level(method, &opts.level);
    let mtime = match opts.mtime {
        MtimePolicy::Keep => prior.mtime,
        MtimePolicy::Source => match source_time {
            Some(t) => Some(t),
            None => prior.mtime,
        },
        MtimePolicy::Now => match now {
            Some(t) => Some(t),
            None => prior.mtime,
        },
    };
    let options = NewEntryOptions {
        method,
        level: match level {
            Some(v) => Some(v as i64),
            None => None,
        },
        unix_mode: prior.unix_mode,
        mtime,
    };
    options
}

/// A rewritten entry, as far as it can be opened, has the method, the Unix
/// mode and (when one was given, as the zip crate keeps it) the
/// modification time it was written with, and no comment.
pub open spec fn started_with(e: StoredEntry, o: NewEntryOptions) -> bool {
    e.info matches Some(m) ==> m.method == o.method && m.unix_mode == written_mode(o.unix_mode) && m.comment.len() == 0
        && (o.mtime matches Some(t) ==> m.mtime == Some(dos_time_kept(t)))
}

/// The same name, the same contents whenever the earlier entry's are readable,
/// and, as far as both can be opened, the metadata a copy keeps (and no
/// comment).
pub open spec fn same_entry(o: StoredEntry, e: StoredEntry) -> bool {
    &&& o.name == e.name
    &&& e.data is Some ==> o.data == e.data
    &&& o.info matches Some(m) ==> (e.info matches Some(x) && kept_meta(m, x) && m.comment.len() == 0)
}

/// How a nested archive that changed is written back in place of the entry
/// `prior`: its method and modification time, the default level.
pub open spec fn nested_entry_options(prior: InfoView) -> NewEntryOptions {
    spec_new_entry_options(prior, default_replace_options(), prior.mtime, None)
}

/// Whether the zip writer can carry out the rewrite of `src` along `segs`
/// with `m`: every archive on the path reads, with every entry openable and
/// every name short enough to store; the path continues only below an
/// archive entry whose contents read; a replacing entry gets options the
/// writer accepts and contents within the limit; and a nested archive in
/// which the path is found is written back with options the writer accepts,
/// and is sure to fit within the limit once rebuilt (by [`rebuilt_bound`]).
pub open spec fn rewrite_feasible(src: Seq<u8>, segs: Seq<Seq<char>>, m: MutationView, exts: Set<Seq<char>>) -> bool
    decreases segs.len(),
{
    if segs.len() == 0 {
        false
    } else {
        match zip_directory(src) {
            None => false,
            Some(es) => (forall|k: int|
                0 <= k < es.len() ==> (#[trigger] es[k]).info is Some && utf8_len(es[k].name) <= NAME_LIMIT)
                && match named_index(es, segs[0]) {
                None => true,
                Some(j) => if segs.len() == 1 {
                    match m {
                        MutationView::Delete => true,
                        MutationView::Replace { data, opts, source_mtime, now } => writer_accepts(
                            spec_new_entry_options(es[j].info.unwrap(), opts, source_mtime, now),
                        ) && fits_entry(spec_new_entry_options(es[j].info.unwrap(), opts, source_mtime, now), data.len()),
                    }
                } else {
                    &&& spec_is_archive_name(exts, segs[0])
                    &&& es[j].data is Some
                    &&& rewrite_feasible(es[j].data.unwrap(), segs.skip(1), m, exts)
                    &&& path_present(es[j].data.unwrap(), segs.skip(1), exts) ==> writer_accepts(
                        nested_entry_options(es[j].info.unwrap()),
                    ) && fits_entry(
                        nested_entry_options(es[j].info.unwrap()),
                        rebuilt_bound(es[j].data.unwrap(), segs.skip(1), m, exts),
                    )
                },
            },
        }
    }
}

/// The sum of the bounds on the bytes the first `k` entries of `es` take up
/// when the archive they belong to is rewritten along `segs` with `m`: a
/// copy for an entry off the path; nothing for a deleted entry; a new entry
/// for a replaced one, and for a nested archive in which the path is found
/// (holding its rebuilt contents, at most their bound); a copy for a nested
/// archive in which it is not.
pub open spec fn level_sum(es: Seq<StoredEntry>, segs: Seq<Seq<char>>, m: MutationView, exts: Set<Seq<char>>, k: nat) -> nat
    decreases segs.len(), k,
{
    if k == 0 || k > es.len() || segs.len() == 0 {
        0
    } else {
        let e = es[k - 1];
        let term: nat = if e.name != segs[0] {
            copy_bound(e.name, e.info.unwrap())
        } else if segs.len() == 1 {
            match m {
                MutationView::Delete => 0,
                MutationView::Replace { data, opts, source_mtime, now } => new_entry_bound(
                    e.name,
                    spec_new_entry_options(e.info.unwrap(), opts, source_mtime, now),
                    data.len(),
                ),
            }
        } else {
            match e.data {
                Some(d) => if path_present(d, segs.skip(1), exts) {
                    match zip_directory(d) {
                        Some(es2) => new_entry_bound(
                            e.name,
                            nested_entry_options(e.info.unwrap()),
                            (ARCHIVE_OVERHEAD + level_sum(es2, segs.skip(1), m, exts, es2.len())) as nat,
                        ),
                        None => 0,
                    }
                } else {
                    copy_bound(e.name, e.info.unwrap())
                },
                None => copy_bound(e.name, e.info.unwrap()),
            }
        };
        level_sum(es, segs, m, exts, (k - 1) as nat) + term
    }
}

/// An upper bound on the length of the archive that rewriting `src` along
/// `segs` with `m` yields.
pub open spec fn rebuilt_bound(src: Seq<u8>, segs: Seq<Seq<char>>, m: MutationView, exts: Set<Seq<char>>) -> nat {
    match zip_directory(src) {
        None => 0,
        Some(es) => (ARCHIVE_OVERHEAD + level_sum(es, segs, m, exts, es.len())) as nat,
    }
}

/// Fitting within the limit holds of fewer bytes too.
proof fn lemma_fits_fewer(o: NewEntryOptions, a: nat, b: nat)
    requires
        fits_entry(o, a),
        b <= a,
    ensures
        fits_entry(o, b),
        stored_size_bound(o, b) <= stored_size_bound(o, a),
{
    assert(b / 4 <= a / 4) by (nonlinear_arith)
        requires
            b <= a,
    ;
}

/// Appending an entry adds its bound to the sum.
proof fn lemma_written_sum_push(ws: Seq<WrittenEntry>, e: WrittenEntry)
    ensures
        written_sum(ws.push(e)) == written_sum(ws) + entry_size_bound(e),
{
    assert(ws.push(e).drop_last() =~= ws);
}

/// Whether every archive on the path `segs` from `src` reads: `src` does,
/// and where the first segment names an entry and the path continues, that
/// entry's contents read along the rest.
pub open spec fn path_readable(src: Seq<u8>, segs: Seq<Seq<char>>) -> bool
    decreases segs.len(),
{
    if segs.len() == 0 {
        false
    } else {
        match zip_directory(src) {
            None => false,
            Some(es) => match named_index(es, segs[0]) {
                None => true,
                Some(j) => segs.len() == 1 || (es[j].data matches Some(d) && path_readable(d, segs.skip(1))),
            },
        }
    }
}

/// `out` is what rewriting the archive `src` along `segs` with `m` yields,
/// and `changed` says whether the path was found: entries off the path are
/// kept in order (same name, same readable contents); the entry the first
/// segment names is removed (a delete at the last segment), holds the new
/// contents (a replace at the last segment), or holds the rewritten nested
/// archive (when the path continues and something changed below).
pub open spec fn rewritten(src: Seq<u8>, segs: Seq<Seq<char>>, m: MutationView, exts: Set<Seq<char>>, out: Seq<u8>, changed: bool) -> bool
    decreases segs.len(),
{
    if segs.len() == 0 {
        false
    } else {
        match (zip_directory(src), zip_directory(out)) {
            (Some(es), Some(os)) => directory_wf(es) && directory_wf(os) && (forall|k: int| 0 <= k < es.len() ==> (#[trigger] es[k]).info is Some) && match named_index(es, segs[0]) {
                None => !changed && os.len() == es.len() && forall|k: int|
                    0 <= k < es.len() ==> same_entry(#[trigger] os[k], es[k]),
                Some(j) => if segs.len() == 1 {
                    changed && match m {
                        MutationView::Delete => os.len() + 1 == es.len() && (forall|k: int|
                            0 <= k < j ==> same_entry(#[trigger] os[k], es[k])) && (forall|k: int|
                            j <= k < os.len() ==> same_entry(#[trigger] os[k], es[k + 1])),
                        MutationView::Replace { data, opts, source_mtime, now } => os.len() == es.len() && (forall|k: int|
                            0 <= k < es.len() && k != j ==> same_entry(#[trigger] os[k], es[k])) && os[j].name
                            == segs[0] && os[j].data == Some(data) && started_with(
                            os[j],
                            spec_new_entry_options(es[j].info.unwrap(), opts, source_mtime, now),
                        ),
                    }
                } else {
                    &&& os.len() == es.len()
                    &&& forall|k: int| 0 <= k < es.len() && k != j ==> same_entry(#[trigger] os[k], es[k])
                    &&& os[j].name == segs[0]
                    &&& spec_is_archive_name(exts, segs[0])
                    &&& es[j].data is Some
                    &&& changed ==> (os[j].data matches Some(n2) && rewritten(es[j].data.unwrap(), segs.skip(1), m, exts, n2, changed)
                        && started_with(os[j], spec_new_entry_options(es[j].info.unwrap(), default_replace_options(), es[j].info.unwrap().mtime, None)))
                    &&& !changed ==> same_entry(os[j], es[j])
                },
            },
            _ => false,
        }
    }
}

/// Whether every segment of `segs` names an entry, from the archive `src`
/// down (each segment before the last naming a readable nested archive with
/// an archive extension).
pub open spec fn path_present(src: Seq<u8>, segs: Seq<Seq<char>>, exts: Set<Seq<char>>) -> bool
    decreases segs.len(),
{
    if segs.len() == 0 {
        false
    } else {
        match zip_directory(src) {
            None => false,
            Some(es) => match named_index(es, segs[0]) {
                None => false,
                Some(j) => segs.len() == 1 || (spec_is_archive_name(exts, segs[0]) && match es[j].data {
                    Some(nd) => path_present(nd, segs.skip(1), exts),
                    None => false,
                }),
            },
        }
    }
}

/// The error the library itself raises when rewriting `src` along `segs`,
/// apart from what the zip reader or writer reports: no path at all, or a
/// path that continues below an entry without an archive extension (at any
/// depth).
pub open spec fn rewrite_refusal(src: Seq<u8>, segs: Seq<Seq<char>>, exts: Set<Seq<char>>) -> Option<ErrView>
    decreases segs.len(),
{
    if segs.len() == 0 {
        Some(ErrView::EmptyPathSegments)
    } else {
        match zip_directory(src) {
            None => None,
            Some(es) => match named_index(es, segs[0]) {
                None => None,
                Some(j) => if segs.len() == 1 {
                    None
                } else if !spec_is_archive_name(exts, segs[0]) {
                    Some(ErrView::NestedNotArchive(segs[0]))
                } else {
                    match es[j].data {
                        None => None,
                        Some(d) => rewrite_refusal(d, segs.skip(1), exts),
                    }
                },
            },
        }
    }
}

/// A refusal is a missing path or a path continuing below a non-archive.
pub proof fn lemma_refusal_kinds(src: Seq<u8>, segs: Seq<Seq<char>>, exts: Set<Seq<char>>)
    ensures
        rewrite_refusal(src, segs, exts) matches Some(x) ==> (x is EmptyPathSegments && segs.len() == 0) || x is NestedNotArchive,
    decreases segs.len(),
{
    if segs.len() > 1 {
        if let Some(es) = zip_directory(src) {
            if let Some(j) = named_index(es, segs[0]) {
                if let Some(d) = es[j].data {
                    lemma_refusal_kinds(d, segs.skip(1), exts);
                }
            }
        }
    }
}

/// The position among the source entries of the `p`-th entry written, when
/// the entry at `ji` is dropped (`del`) and every other is written in turn.
pub open spec fn written_from(del: bool, ji: Option<int>, p: int) -> int {
    if del && ji is Some && ji.unwrap() <= p {
        p + 1
    } else {
        p
    }
}

/// An entry whose name differs from those of the entries written before it
/// (each the name of an earlier source entry) is not yet taken.
proof fn lemma_name_not_written(es: Seq<StoredEntry>, ws: Seq<WrittenEntry>, i: int, del: bool, ji: Option<int>)
    requires
        directory_wf(es),
        0 <= i < es.len(),
        ws.len() == (if del && ji is Some && ji.unwrap() < i { i - 1 } else { i }),
        forall|p: int| 0 <= p < ws.len() ==> #[trigger] ws[p].name == es[written_from(del, ji, p)].name,
    ensures
        !written_names(ws).contains(es[i].name),
{
    if written_names(ws).contains(es[i].name) {
        let p = choose|p: int| 0 <= p < written_names(ws).len() && written_names(ws)[p] == es[i].name;
        assert(written_names(ws)[p] == ws[p].name);
        let k = written_from(del, ji, p);
        assert(0 <= k < i);
        assert(es[k].name == es[i].name);
    }
}

/// Rewrites the archive `source` along `segments`: entries off the path are
/// copied as they are, the entry the first segment names is deleted,
/// replaced, or (when the path continues) rewritten recursively as a nested
/// archive. Returns the new archive and whether the path was found. When the
/// zip writer can carry out the rewrite, it succeeds.
#[verifier::rlimit(60)]
pub fn mutate_archive_bytes(source: Vec<u8>, segments: &[String], mutation: Mutation, config: &Config) -> (r: Result<(Vec<u8>, bool), ZiprError>)
    ensures
        segments@.len() == 0 ==> (r matches Err(e) && e@ == ErrView::EmptyPathSegments),
        r matches Ok((out, changed)) ==> rewritten(source@, views(segments@), mutation@, config@.exts, out@, changed),
        r matches Ok((_, changed)) ==> changed == path_present(source@, views(segments@), config@.exts),
        r is Ok ==> path_readable(source@, views(segments@)),
        r matches Ok((out, _)) ==> out@.len() <= rebuilt_bound(source@, views(segments@), mutation@, config@.exts),
        rewrite_feasible(source@, views(segments@), mutation@, config@.exts) ==> r is Ok,
        rewrite_refusal(source@, views(segments@), config@.exts) matches Some(x) ==> (r matches Err(e) && (e@ is Zip
            || e@ == x || e@ is NameTooLong)),
        r matches Err(e) ==> (e@ is Zip || rewrite_refusal(source@, views(segments@), config@.exts) == Some(e@)
            || e@ is NameTooLong),
        segments@.len() > 0 && zip_directory(source@) is None ==> (r matches Err(e) && e@ is Zip),
    decreases segments@.len(),
{
    if segments.len() == 0 {
        return Err(ZiprError::EmptyPathSegments);
    }
    let ghost src = source@;
    let ghost segs = views(segments@);
    let ghost exts = config@.exts;
    let ghost mv = mutation@;
    let ghost feas = rewrite_feasible(src, segs, mv, exts);
    let mut a = match open_archive(source) {
        Ok(a) => a,
        Err(e) => return Err(ZiprError::Zip(e)),
    };
    let ghost es = archive_entries(a);
    let mut w = new_writer();
    let mut changed = false;
    let target = segments[0].as_str();
    let is_delete = match &mutation {
        Mutation::Delete => true,
        Mutation::Replace { .. } => false,
    };
    let ghost t = target@;
    let ghost ji = named_index(es, t);
    let ghost del = segs.len() == 1 && mv is Delete;
    let ghost mut n2: Seq<u8> = Seq::empty();
    let n = archive_len(&a);
    assert(written_names(written_entries(w)) =~= Seq::<Seq<char>>::empty());
    for i in 0..n
        invariant
            n == es.len(),
            segs == views(segments@),
            segs.len() > 0,
            t == segs[0],
            target@ == t,
            exts == config@.exts,
            mv == mutation@,
            is_delete == (mv is Delete),
            zip_directory(src) == Some(es),
            src == source@,
            directory_wf(es),
            archive_entries(a) == es,
            ji == named_index(es, t),
            del == (segs.len() == 1 && mv is Delete),
            feas == rewrite_feasible(src, segs, mv, exts),
            written_entries(w).len() == (if del && ji is Some && ji.unwrap() < i { i - 1 } else { i as int }),
            forall|p: int|
                0 <= p < written_entries(w).len() ==> #[trigger] written_entries(w)[p].name == es[written_from(
                    del,
                    ji,
                    p,
                )].name,
            feas ==> all_fit(written_entries(w)),
            written_sum(written_entries(w)) <= level_sum(es, segs, mv, exts, i as nat),
            forall|k: int| 0 <= k < i && es[k].name != t ==> written_entries(w)[
                if del && ji is Some && ji.unwrap() < k { k - 1 } else { k }] == (WrittenEntry {
                    name: es[k].name, data: es[k].data, open: false, opts: None, copied: es[k].info,
                }),
            !(ji is Some && ji.unwrap() < i) ==> !changed,
            forall|k: int| 0 <= k < i ==> (#[trigger] es[k]).info is Some,
            ji is Some && ji.unwrap() < i ==> {
                let j = ji.unwrap();
                if segs.len() == 1 {
                    changed && match mv {
                        MutationView::Delete => true,
                        MutationView::Replace { data, opts, source_mtime, now } => written_entries(w)[j].name == t
                            && written_entries(w)[j].data == Some(data) && written_entries(w)[j].opts == Some(
                            spec_new_entry_options(es[j].info.unwrap(), opts, source_mtime, now)),
                    }
                } else {
                    &&& spec_is_archive_name(exts, t)
                    &&& es[j].data is Some
                    &&& path_readable(es[j].data.unwrap(), segs.skip(1))
                    &&& rewritten(es[j].data.unwrap(), segs.skip(1), mv, exts, n2, changed)
                    &&& changed == path_present(es[j].data.unwrap(), segs.skip(1), exts)
                    &&& rewrite_refusal(es[j].data.unwrap(), segs.skip(1), exts) is None
                    &&& changed ==> written_entries(w)[j].name == t && written_entries(w)[j].data == Some(n2)
                        && written_entries(w)[j].opts == Some(spec_new_entry_options(es[j].info.unwrap(), default_replace_options(), es[j].info.unwrap().mtime, None))
                    &&& !changed ==> written_entries(w)[j] == (WrittenEntry { name: es[j].name, data: es[j].data, open: false, opts: None, copied: es[j].info })
                }
            },
    {
        proof {
            if feas {
                assert((#[trigger] es[i as int]).info is Some && utf8_len(es[i as int].name) <= NAME_LIMIT);
            }
        }
        let info = match entry_info(&mut a, i) {
            Ok(m) => m,
            Err(e) => return Err(ZiprError::Zip(e)),
        };
        let ghost ws0 = written_entries(w);
        let ghost pos = |k: int| if del && ji is Some && ji.unwrap() < k { k - 1 } else { k };
        assert(es[i as int].info == Some(info@));
        assert(info@.name == es[i as int].name);
        let name_str = info.name.as_str();
        let is_target = str_eq(name_str, target);
        assert(name_str@ == info.name@);
        assert(target@ == t);
        assert(is_target == (info.name@ == t));
        assert(is_target == (es[i as int].name == t));
        proof {
            if ji is Some {
                assert(es[ji.unwrap()].name == t);
            }
            if is_target {
                lemma_named_index(es, t, i as int);
            } else if ji is Some {
                assert(ji.unwrap() != i);
            }
        }
        let writes = !(is_target && segments.len() == 1 && is_delete);
        if writes && utf8_byte_len(name_str) > NAME_LIMIT {
            return Err(ZiprError::NameTooLong(info.name.clone()));
        }
        proof {
            if writes {
                lemma_name_not_written(es, ws0, i as int, del, ji);
            }
        }
        if !is_target {
            if let Err(e) = copy_entry(&mut w, &mut a, i) {
                return Err(ZiprError::Zip(e));
            }
            proof {
                let ws = written_entries(w);
                lemma_written_sum_push(ws0, ws[ws.len() - 1]);
                assert(ws0.push(ws[ws.len() - 1]) =~= ws);
                assert(written_sum(ws) <= level_sum(es, segs, mv, exts, (i + 1) as nat));
                assert forall|k: int| 0 <= k < i + 1 && es[k].name != t implies ws[pos(k)] == (WrittenEntry {
                    name: es[k].name, data: es[k].data, open: false, opts: None, copied: es[k].info,
                }) by {
                    if k < i {
                        assert(ws[pos(k)] == ws0[pos(k)]);
                    }
                }
                if ji is Some && ji.unwrap() < i && !del {
                    assert(ws[ji.unwrap()] == ws0[ji.unwrap()]);
                }
                assert forall|p: int| 0 <= p < ws.len() implies #[trigger] ws[p].name == es[written_from(del, ji, p)].name by {
                    if p < ws0.len() {
                        assert(ws[p] == ws0[p]);
                    }
                }
                if feas {
                    assert forall|p: int| 0 <= p < ws.len() implies entry_fits(#[trigger] ws[p]) by {
                        if p < ws0.len() {
                            assert(ws[p] == ws0[p]);
                        }
                    }
                }
            }
        } else if segments.len() > 1 {
            if !config.is_archive_name(info.name.as_str()) {
                proof {
                    assert(rewrite_refusal(src, segs, exts) == Some(ErrView::NestedNotArchive(t)));
                }
                return Err(ZiprError::NestedNotArchive(info.name.clone()));
            }
            let nested_bytes = match entry_data(&mut a, i) {
                Ok(v) => v,
                Err(e) => return Err(ZiprError::Zip(e)),
            };
            let ghost nd = nested_bytes@;
            let rest = &segments[1..segments.len()];
            assert(views(rest@) =~= segs.skip(1));
            assert(rewrite_refusal(src, segs, exts) == rewrite_refusal(nd, segs.skip(1), exts));
            assert(feas ==> rewrite_feasible(nd, segs.skip(1), mv, exts));
            let (next_nested, nested_changed) = match mutate_archive_bytes(nested_bytes, rest, mutation_for_nested(&mutation), config) {
                Ok(p) => p,
                Err(e) => return Err(e),
            };
            proof {
                n2 = next_nested@;
            }
            changed = changed || nested_changed;
            if nested_changed {
                let ghost nested_opts = nested_entry_options(info@);
                proof {
                    let es2 = zip_directory(nd).unwrap();
                    assert(rebuilt_bound(nd, segs.skip(1), mv, exts) == ARCHIVE_OVERHEAD + level_sum(
                        es2,
                        segs.skip(1),
                        mv,
                        exts,
                        es2.len(),
                    ));
                    if feas {
                        assert(writer_accepts(nested_opts));
                        lemma_fits_fewer(nested_opts, rebuilt_bound(nd, segs.skip(1), mv, exts), next_nested@.len());
                    }
                    assert(stored_size_bound(nested_opts, next_nested@.len()) <= stored_size_bound(
                        nested_opts,
                        rebuilt_bound(nd, segs.skip(1), mv, exts),
                    )) by {
                        assert(next_nested@.len() / 4 <= rebuilt_bound(nd, segs.skip(1), mv, exts) / 4) by (nonlinear_arith)
                            requires
                                next_nested@.len() <= rebuilt_bound(nd, segs.skip(1), mv, exts),
                        ;
                    }
                }
                let res = copy_new_entry(&mut w, info.name.as_str(), next_nested.as_slice(), &info, &ReplaceOptions::default(), info.mtime, None);
                if let Err(e) = res {
                    return Err(e);
                }
            } else {
                if let Err(e) = copy_entry(&mut w, &mut a, i) {
                    return Err(ZiprError::Zip(e));
                }
            }
            proof {
                let ws = written_entries(w);
                lemma_written_sum_push(ws0, ws[ws.len() - 1]);
                assert(ws0.push(ws[ws.len() - 1]) =~= ws);
                assert(written_sum(ws) <= level_sum(es, segs, mv, exts, (i + 1) as nat));
                assert(!del);
                assert forall|k: int| 0 <= k < i + 1 && es[k].name != t implies ws[pos(k)] == (WrittenEntry {
                    name: es[k].name, data: es[k].data, open: false, opts: None, copied: es[k].info,
                }) by {
                    assert(k != i);
                    assert(ws[pos(k)] == ws0[pos(k)]);
                }
                assert(ws[i as int] == ws.last());
                assert forall|p: int| 0 <= p < ws.len() implies #[trigger] ws[p].name == es[written_from(del, ji, p)].name by {
                    if p < ws0.len() {
                        assert(ws[p] == ws0[p]);
                    }
                }
                if feas {
                    assert forall|p: int| 0 <= p < ws.len() implies entry_fits(#[trigger] ws[p]) by {
                        if p < ws0.len() {
                            assert(ws[p] == ws0[p]);
                        }
                    }
                }
            }
        } else {
            proof {
                lemma_named_index(es, t, i as int);
            }
            match &mutation {
                Mutation::Delete => {
                    changed = true;
                },
                Mutation::Replace { bytes, opts, source_mtime, now } => {
                    changed = true;
                    let res = copy_new_entry(&mut w, info.name.as_str(), bytes.as_slice(), &info, opts, *source_mtime, *now);
                    if let Err(e) = res {
                        return Err(e);
                    }
                },
            }
            proof {
                let ws = written_entries(w);
                if ws.len() > ws0.len() {
                    lemma_written_sum_push(ws0, ws[ws.len() - 1]);
                    assert(ws0.push(ws[ws.len() - 1]) =~= ws);
                } else {
                    assert(ws == ws0);
                }
                assert(written_sum(ws) <= level_sum(es, segs, mv, exts, (i + 1) as nat));
                assert forall|k: int| 0 <= k < i + 1 && es[k].name != t implies ws[pos(k)] == (WrittenEntry {
                    name: es[k].name, data: es[k].data, open: false, opts: None, copied: es[k].info,
                }) by {
                    assert(k != i);
                    assert(pos(k) == k);
                    assert(ws[pos(k)] == ws0[pos(k)]);
                }
                assert forall|p: int| 0 <= p < ws.len() implies #[trigger] ws[p].name == es[written_from(del, ji, p)].name by {
                    if p < ws0.len() {
                        assert(ws[p] == ws0[p]);
                    }
                }
                if feas {
                    assert forall|p: int| 0 <= p < ws.len() implies entry_fits(#[trigger] ws[p]) by {
                        if p < ws0.len() {
                            assert(ws[p] == ws0[p]);
                        }
                    }
                }
            }
        }
    }
    let ghost ws = written_entries(w);
    let out = match finish_writer(w) {
        Ok(b) => b,
        Err(e) => return Err(ZiprError::Zip(e)),
    };
    proof {
        if ji is Some {
            assert(ji.unwrap() < n);
        }
        assert(path_readable(src, segs));
        let os = zip_directory(out@).unwrap();
        let pos = |k: int| if del && ji is Some && ji.unwrap() < k { k - 1 } else { k };
        assert(zip_directory(src) == Some(es));
        assert(zip_directory(out@) == Some(os));
        assert(directory_wf(os));
        assert(named_index(es, segs[0]) == ji);
        assert(segs.len() > 0);
        if ji is None {
            assert forall|k: int| 0 <= k < es.len() implies same_entry(#[trigger] os[k], es[k]) by {
                assert(es[k].name != t);
                assert(os[k].name == ws[k].name);
            }
            assert(rewritten(src, segs, mv, exts, out@, changed));
        } else {
            let j = ji.unwrap();
            if segs.len() == 1 {
                match mv {
                    MutationView::Delete => {
                        assert forall|k: int| 0 <= k < j implies same_entry(#[trigger] os[k], es[k]) by {
                            assert(es[k].name != t);
                            assert(pos(k) == k);
                        }
                        assert forall|k: int| j <= k < os.len() implies same_entry(#[trigger] os[k], es[k + 1]) by {
                            assert(es[k + 1].name != t);
                            assert(pos(k + 1) == k);
                        }
                        assert(rewritten(src, segs, mv, exts, out@, changed));
                    },
                    MutationView::Replace { .. } => {
                        assert forall|k: int| 0 <= k < es.len() && k != j implies same_entry(#[trigger] os[k], es[k]) by {
                            assert(es[k].name != t);
                        }
                        assert(rewritten(src, segs, mv, exts, out@, changed));
                    },
                }
            } else {
                assert forall|k: int| 0 <= k < es.len() && k != j implies same_entry(#[trigger] os[k], es[k]) by {
                    assert(es[k].name != t);
                }
                assert(rewritten(es[j].data.unwrap(), segs.skip(1), mv, exts, n2, changed));
                if !changed {
                    assert(same_entry(os[j], es[j]));
                } else {
                    assert(os[j].data == Some(n2));
                }
                assert(rewritten(src, segs, mv, exts, out@, changed));
            }
        }
    }
    Ok((out, changed))
}

/// Deletes the entry an expression addresses, given the bytes of its root
/// archive, and returns the rewritten root archive; fails when no entry is
/// found at that path. When the zip writer can carry out the rewrite, it
/// succeeds if the path is present, and otherwise reports the target as not
/// found.
pub fn delete(expr: &ZipExpr, root: Vec<u8>, config: &Config) -> (r: Result<Vec<u8>, ZiprError>)
    ensures
        expr.segments@.len() == 0 ==> (r matches Err(e) && e@ == ErrView::EmptyPathSegments),
        r matches Ok(out) ==> path_present(root@, views(expr.segments@), config@.exts) && path_readable(
            root@,
            views(expr.segments@),
        ) && rewritten(root@, views(expr.segments@), MutationView::Delete, config@.exts, out@, true),
        rewrite_refusal(root@, views(expr.segments@), config@.exts) matches Some(x) ==> (r matches Err(e) && (e@ is Zip
            || e@ == x || e@ is NameTooLong)),
        r matches Err(e) ==> (e@ is Zip || rewrite_refusal(root@, views(expr.segments@), config@.exts) == Some(e@)
            || e@ is NameTooLong || (rewrite_refusal(root@, views(expr.segments@), config@.exts)
            is None && !path_present(root@, views(expr.segments@), config@.exts) && e@ == ErrView::TargetNotFound(
            views(expr.segments@).last(),
        ))),
        expr.segments@.len() > 0 && zip_directory(root@) is None ==> (r matches Err(e) && e@ is Zip),
        rewrite_feasible(root@, views(expr.segments@), MutationView::Delete, config@.exts) ==> if path_present(
            root@,
            views(expr.segments@),
            config@.exts,
        ) {
            r is Ok
        } else {
            r matches Err(e) && e@ == ErrView::TargetNotFound(views(expr.segments@).last())
        },
{
    let (next, changed) = match mutate_archive_bytes(root, expr.segments.as_slice(), Mutation::Delete, config) {
        Ok(p) => p,
        Err(e) => return Err(e),
    };
    if !changed {
        let target = match expr.target() {
            Ok(t) => t,
            Err(e) => return Err(e),
        };
        return Err(ZiprError::TargetNotFound(target.to_owned()));
    }
    Ok(next)
}

/// Stores `data` in the entry an expression addresses, given the bytes of
/// its root archive, and returns the rewritten root archive; fails when no
/// entry is found at that path. `source_time` and `now` are the candidate
/// modification times for the new entry (the source file's, and the current
/// time), when known. When the zip writer can carry out the rewrite, it
/// succeeds if the path is present, and otherwise reports the target as not
/// found.
pub fn replace_at_times(
    expr: &ZipExpr,
    root: Vec<u8>,
    data: Vec<u8>,
    source_time: Option<DosTime>,
    now: Option<DosTime>,
    config: &Config,
    opts: ReplaceOptions,
) -> (r: Result<Vec<u8>, ZiprError>)
    ensures
        expr.segments@.len() == 0 ==> (r matches Err(e) && e@ == ErrView::EmptyPathSegments),
        r matches Ok(out) ==> path_present(root@, views(expr.segments@), config@.exts) && path_readable(
            root@,
            views(expr.segments@),
        ) && rewritten(
            root@,
            views(expr.segments@),
            MutationView::Replace { data: data@, opts, source_mtime: source_time, now },
            config@.exts,
            out@,
            true,
        ),
        rewrite_refusal(root@, views(expr.segments@), config@.exts) matches Some(x) ==> (r matches Err(e) && (e@ is Zip
            || e@ == x || e@ is NameTooLong)),
        r matches Err(e) ==> (e@ is Zip || rewrite_refusal(root@, views(expr.segments@), config@.exts) == Some(e@)
            || e@ is NameTooLong || (rewrite_refusal(root@, views(expr.segments@), config@.exts)
            is None && !path_present(root@, views(expr.segments@), config@.exts) && e@ == ErrView::TargetNotFound(
            views(expr.segments@).last(),
        ))),
        expr.segments@.len() > 0 && zip_directory(root@) is None ==> (r matches Err(e) && e@ is Zip),
        rewrite_feasible(
            root@,
            views(expr.segments@),
            MutationView::Replace { data: data@, opts, source_mtime: source_time, now },
            config@.exts,
        ) ==> if path_present(root@, views(expr.segments@), config@.exts) {
            r is Ok
        } else {
            r matches Err(e) && e@ == ErrView::TargetNotFound(views(expr.segments@).last())
        },
{
    let mutation = Mutation::Replace { bytes: data, opts, source_mtime: source_time, now };
    let (next, changed) = match mutate_archive_bytes(root, expr.segments.as_slice(), mutation, config) {
        Ok(p) => p,
        Err(e) => return Err(e),
    };
    if !changed {
        let target = match expr.target() {
            Ok(t) => t,
            Err(e) => return Err(e),
        };
        return Err(ZiprError::TargetNotFound(target.to_owned()));
    }
    Ok(next)
}

/// The zip encoding of an optional Unix time.
pub open spec fn source_dos_time(secs: Option<i64>) -> Option<DosTime> {
    match secs {
        Some(s) => dos_time_of_unix(s),
        None => None,
    }
}

/// `out` is `src` with the entry at `segs` replaced by `data`, stored as
/// `opts` say, at some current time (none unless the options ask for the
/// current time).
pub open spec fn replaced_at_some_time(
    src: Seq<u8>,
    segs: Seq<Seq<char>>,
    data: Seq<u8>,
    opts: ReplaceOptions,
    source_mtime: Option<DosTime>,
    exts: Set<Seq<char>>,
    out: Seq<u8>,
) -> bool {
    exists|now: Option<DosTime>|
        (!(opts.mtime is Now) ==> now is None) && #[trigger] rewritten(
            src,
            segs,
            MutationView::Replace { data, opts, source_mtime, now },
            exts,
            out,
            true,
        )
}

/// Whether the zip writer can carry out replacing the entry at `segs` of
/// `src` with `data` as `opts` say, whatever the source file's and the
/// current modification times are (each, when known, a time the zip crate
/// keeps as it is).
pub open spec fn replace_feasible(
    src: Seq<u8>,
    segs: Seq<Seq<char>>,
    data: Seq<u8>,
    opts: ReplaceOptions,
    exts: Set<Seq<char>>,
) -> bool {
    forall|source_mtime: Option<DosTime>, now: Option<DosTime>|
        (source_mtime matches Some(t) ==> dos_time_normal(t)) && (now matches Some(t) ==> dos_time_normal(t))
            ==> #[trigger] rewrite_feasible(src, segs, MutationView::Replace { data, opts, source_mtime, now }, exts)
}

/// Stores `data` in the entry an expression addresses, given the bytes of
/// its root archive. `source_mtime` is the source file's modification time
/// in seconds since the Unix epoch, when known; the current time is read
/// only when the options ask for it. When the zip writer can carry out the
/// rewrite, it succeeds if the path is present, and otherwise reports the
/// target as not found.
pub fn replace(
    expr: &ZipExpr,
    root: Vec<u8>,
    data: Vec<u8>,
    source_mtime: Option<i64>,
    config: &Config,
    opts: ReplaceOptions,
) -> (r: Result<Vec<u8>, ZiprError>)
    ensures
        expr.segments@.len() == 0 ==> (r matches Err(e) && e@ == ErrView::EmptyPathSegments),
        r matches Ok(out) ==> path_present(root@, views(expr.segments@), config@.exts) && path_readable(
            root@,
            views(expr.segments@),
        ) && replaced_at_some_time(
            root@,
            views(expr.segments@),
            data@,
            opts,
            source_dos_time(source_mtime),
            config@.exts,
            out@,
        ),
        rewrite_refusal(root@, views(expr.segments@), config@.exts) matches Some(x) ==> (r matches Err(e) && (e@ is Zip
            || e@ == x || e@ is NameTooLong)),
        r matches Err(e) ==> (e@ is Zip || rewrite_refusal(root@, views(expr.segments@), config@.exts) == Some(e@)
            || e@ is NameTooLong || (rewrite_refusal(root@, views(expr.segments@), config@.exts)
            is None && !path_present(root@, views(expr.segments@), config@.exts) && e@ == ErrView::TargetNotFound(
            views(expr.segments@).last(),
        ))),
        expr.segments@.len() > 0 && zip_directory(root@) is None ==> (r matches Err(e) && e@ is Zip),
        replace_feasible(root@, views(expr.segments@), data@, opts, config@.exts) ==> if path_present(
            root@,
            views(expr.segments@),
            config@.exts,
        ) {
            r is Ok
        } else {
            r matches Err(e) && e@ == ErrView::TargetNotFound(views(expr.segments@).last())
        },
{
    let source_time = match source_mtime {
        Some(secs) => dos_time_from_unix(secs),
        None => None,
    };
    let now = match opts.mtime {
        MtimePolicy::Now => dos_time_now(),
        _ => None,
    };
    proof {
        if replace_feasible(root@, views(expr.segments@), data@, opts, config@.exts) {
            assert(rewrite_feasible(
                root@,
                views(expr.segments@),
                MutationView::Replace { data: data@, opts, source_mtime: source_time, now },
                config@.exts,
            ));
        }
    }
    replace_at_times(expr, root, data, source_time, now, config, opts)
}

} // verus!
