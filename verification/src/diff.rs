//! Comparing two archives entry by entry, nested archives included.
use vstd::prelude::*;

use crate::archive::NESTING_LIMIT;
use crate::config::{spec_is_archive_name, Config};
use crate::error::{agrees_by, ErrView, ZiprError};
use crate::path_expr::{make_expr, spec_make_expr, views};
use crate::text::{
    concat2, digits, fmt_radix, lemma_lt_irreflexive, lemma_lt_total, lemma_lt_transitive, pad_left, seq_lt, str_eq,
    str_lt,
};
use crate::zipio::{
    archive_entries, archive_len, entry_data, entry_info, method_label, open_archive, spec_method_label,
    zip_directory, DosTime, EntryInfo, InfoView, MemArchive, StoredEntry,
};

verus! {

/// What is compared of one entry.
#[derive(Debug, Clone)]
pub struct EntrySnapshot {
    pub size: u64,
    pub compressed_size: u64,
    pub crc32: u32,
    pub method: u16,
    pub mtime: Option<DosTime>,
    pub unix_mode: Option<u32>,
    pub comment: String,
}

/// The abstract content of an [`EntrySnapshot`].
pub struct SnapView {
    pub size: u64,
    pub compressed_size: u64,
    pub crc32: u32,
    pub method: u16,
    pub mtime: Option<DosTime>,
    pub unix_mode: Option<u32>,
    pub comment: Seq<char>,
}

impl View for EntrySnapshot {
    type V = SnapView;

    open spec fn view(&self) -> SnapView {
        SnapView {
            size: self.size,
            compressed_size: self.compressed_size,
            crc32: self.crc32,
            method: self.method,
            mtime: self.mtime,
            unix_mode: self.unix_mode,
            comment: self.comment@,
        }
    }
}

/// One recorded entry: its path from the top archive and what is compared
/// of it.
#[derive(Debug, Clone)]
pub struct SnapshotItem {
    pub path: String,
    pub snap: EntrySnapshot,
}

/// The abstract content of a [`SnapshotItem`].
pub struct ItemView {
    pub path: Seq<char>,
    pub snap: SnapView,
}

impl View for SnapshotItem {
    type V = ItemView;

    open spec fn view(&self) -> ItemView {
        ItemView { path: self.path@, snap: self.snap@ }
    }
}

/// The views of a sequence of snapshot items.
pub open spec fn item_views(v: Seq<SnapshotItem>) -> Seq<ItemView> {
    v.map_values(|e: SnapshotItem| e@)
}

/// What is compared of an entry with metadata `m`.
pub open spec fn snap_of(m: InfoView) -> SnapView {
    SnapView {
        size: m.size,
        compressed_size: m.compressed_size,
        crc32: m.crc32,
        method: m.method,
        mtime: m.mtime,
        unix_mode: m.unix_mode,
        comment: m.comment,
    }
}

/// The recorded entries of one archive level, the first `i` entries: every
/// entry that is not a directory, in order, each archive entry followed by
/// the entries of the archive it holds when its contents read as one.
/// Nested archives below `fuel` levels are refused.
pub open spec fn rec_snapshot(es: Seq<StoredEntry>, prefix: Seq<char>, exts: Set<Seq<char>>, fuel: nat, i: int) -> Result<Seq<ItemView>, ErrView>
    decreases fuel, i,
{
    if i <= 0 {
        Ok(Seq::empty())
    } else {
        match rec_snapshot(es, prefix, exts, fuel, i - 1) {
            Err(e) => Err(e),
            Ok(acc) => match es[i - 1].info {
                None => Err(ErrView::Zip),
                Some(m) => if m.is_dir {
                    Ok(acc)
                } else {
                    let item = ItemView { path: spec_make_expr(prefix, m.name), snap: snap_of(m) };
                    if !spec_is_archive_name(exts, m.name) {
                        Ok(acc.push(item))
                    } else {
                        match es[i - 1].data {
                            None => Err(ErrView::Zip),
                            Some(d) => match zip_directory(d) {
                                None => Ok(acc.push(item)),
                                Some(es2) => if fuel == 0 {
                                    Err(ErrView::NestingTooDeep)
                                } else {
                                    match rec_snapshot(es2, item.path, exts, (fuel - 1) as nat, es2.len() as int) {
                                        Err(e) => Err(e),
                                        Ok(sub) => Ok(acc.push(item) + sub),
                                    }
                                },
                            },
                        }
                    }
                },
            },
        }
    }
}

proof fn lemma_rec_snapshot_err_from(es: Seq<StoredEntry>, prefix: Seq<char>, exts: Set<Seq<char>>, fuel: nat, i: int, j: int)
    requires
        0 < i <= j,
        rec_snapshot(es, prefix, exts, fuel, i) is Err,
    ensures
        rec_snapshot(es, prefix, exts, fuel, j) == rec_snapshot(es, prefix, exts, fuel, i),
    decreases j - i,
{
    if i < j {
        lemma_rec_snapshot_err_from(es, prefix, exts, fuel, i, j - 1);
    }
}

/// The recorded entries of the archive `bytes`, paths relative to it.
pub open spec fn spec_snapshot(bytes: Seq<u8>, exts: Set<Seq<char>>) -> Result<Seq<ItemView>, ErrView> {
    match zip_directory(bytes) {
        None => Err(ErrView::Zip),
        Some(es) => rec_snapshot(es, Seq::empty(), exts, NESTING_LIMIT as nat, es.len() as int),
    }
}

fn snapshot_of(m: &EntryInfo) -> (r: EntrySnapshot)
    ensures
        r@ == snap_of(m@),
{
    EntrySnapshot {
        size: m.size,
        compressed_size: m.compressed_size,
        crc32: m.crc32,
        method: m.method,
        mtime: m.mtime,
        unix_mode: m.unix_mode,
        comment: m.comment.clone(),
    }
}

/// Appends the recorded entries of an opened archive to `out`.
fn snapshot_recursive(archive: &mut MemArchive, prefix: &str, config: &Config, out: &mut Vec<SnapshotItem>, depth: u64) -> (r: Result<(), ZiprError>)
    ensures
        archive_entries(*final(archive)) == archive_entries(*old(archive)),
        match rec_snapshot(archive_entries(*old(archive)), prefix@, config@.exts, depth as nat, archive_entries(*old(archive)).len() as int) {
            Ok(l) => r is Ok && item_views(final(out)@) == item_views(old(out)@) + l,
            Err(e) => r matches Err(x) && x@ == e,
        },
    decreases depth,
{
    let ghost es = archive_entries(*archive);
    let ghost exts = config@.exts;
    let n = archive_len(archive);
    let ghost base = item_views(out@);
    assert(item_views(out@) =~= base + Seq::<ItemView>::empty());
    for i in 0..n
        invariant
            n == es.len(),
            es == archive_entries(*old(archive)),
            exts == config@.exts,
            archive_entries(*archive) == es,
            rec_snapshot(es, prefix@, exts, depth as nat, i as int) is Ok,
            item_views(out@) == base + rec_snapshot(es, prefix@, exts, depth as nat, i as int)->Ok_0,
    {
        let m = match entry_info(archive, i) {
            Ok(m) => m,
            Err(e) => {
                proof {
                    assert(rec_snapshot(es, prefix@, exts, depth as nat, i + 1) == Err::<Seq<ItemView>, ErrView>(ErrView::Zip));
                    lemma_rec_snapshot_err_from(es, prefix@, exts, depth as nat, i + 1, n as int);
                }
                return Err(ZiprError::Zip(e));
            },
        };
        if !m.is_dir {
            let path = make_expr(prefix, m.name.as_str());
            let is_archive = config.is_archive_name(m.name.as_str());
            let item = SnapshotItem { path: path.clone(), snap: snapshot_of(&m) };
            let ghost before = out@;
            let ghost acc = rec_snapshot(es, prefix@, exts, depth as nat, i as int)->Ok_0;
            let ghost item_v = item@;
            out.push(item);
            assert(item_views(out@) =~= item_views(before).push(item_v));
            if is_archive {
                let nested = match entry_data(archive, i) {
                    Ok(v) => v,
                    Err(e) => {
                        proof {
                            assert(rec_snapshot(es, prefix@, exts, depth as nat, i + 1) == Err::<Seq<ItemView>, ErrView>(ErrView::Zip));
                            lemma_rec_snapshot_err_from(es, prefix@, exts, depth as nat, i + 1, n as int);
                        }
                        return Err(ZiprError::Zip(e));
                    },
                };
                match open_archive(nested) {
                    Ok(mut nested_archive) => {
                        if depth == 0 {
                            proof {
                                assert(rec_snapshot(es, prefix@, exts, depth as nat, i + 1) == Err::<Seq<ItemView>, ErrView>(ErrView::NestingTooDeep));
                                lemma_rec_snapshot_err_from(es, prefix@, exts, depth as nat, i + 1, n as int);
                            }
                            return Err(ZiprError::NestingTooDeep);
                        }
                        let ghost es2 = archive_entries(nested_archive);
                        let res = snapshot_recursive(&mut nested_archive, path.as_str(), config, out, depth - 1);
                        match res {
                            Ok(()) => {
                                let ghost sub = rec_snapshot(es2, item_v.path, exts, (depth - 1) as nat, es2.len() as int)->Ok_0;
                                assert(item_views(out@) =~= base + (acc.push(item_v) + sub));
                            },
                            Err(e) => {
                                proof {
                                    lemma_rec_snapshot_err_from(es, prefix@, exts, depth as nat, i + 1, n as int);
                                }
                                return Err(e);
                            },
                        }
                    },
                    Err(_) => {},
                }
            }
        }
    }
    Ok(())
}

/// The recorded entries of the archive `bytes`, in the order they are met,
/// paths relative to it; a later entry with the same path as an earlier one
/// takes its place when the snapshots are compared.
pub fn snapshot(bytes: Vec<u8>, config: &Config) -> (r: Result<Vec<SnapshotItem>, ZiprError>)
    ensures
        agrees_by(r, spec_snapshot(bytes@, config@.exts), |v: Vec<SnapshotItem>| item_views(v@)),
{
    let mut archive = match open_archive(bytes) {
        Ok(a) => a,
        Err(e) => return Err(ZiprError::Zip(e)),
    };
    let mut out: Vec<SnapshotItem> = Vec::new();
    let top = "";
    proof {
        reveal_strlit("");
        assert(top@ =~= Seq::<char>::empty());
    }
    match snapshot_recursive(&mut archive, top, config, &mut out, NESTING_LIMIT) {
        Ok(()) => {
            assert(item_views(out@) =~= Seq::<ItemView>::empty() + item_views(out@));
            Ok(out)
        },
        Err(e) => Err(e),
    }
}

/// The `Debug` form of a string: quoted, with special characters escaped.
pub uninterp spec fn debug_quoted(s: Seq<char>) -> Seq<char>;

/// A comment as shown in a report (`format!("{:?}", v)`); the result
/// depends on `v` alone.
#[verifier::external_body]
fn quote_comment(v: &str) -> (r: String)
    ensures
        r@ == debug_quoted(v@),
{
    format!("{v:?}")
}

/// `v` in decimal.
pub open spec fn decimal(v: nat) -> Seq<char> {
    digits(v, 10)
}

/// `v` in decimal, padded with zeros to `width` digits.
pub open spec fn padded(v: nat, width: nat) -> Seq<char> {
    pad_left(digits(v, 10), width, '0')
}

/// A Unix mode as shown in a report: octal after `0o`, or `none`.
pub open spec fn mode_label(v: Option<u32>) -> Seq<char> {
    match v {
        Some(x) => "0o"@ + digits(x as nat, 8),
        None => "none"@,
    }
}

/// A modification time as shown in a report (as the zip crate displays
/// it): `YYYY-MM-DD hh:mm:ss` from the fields of the MS-DOS encoding, or
/// `none`.
pub open spec fn time_label(v: Option<DosTime>) -> Seq<char> {
    match v {
        Some(t) => padded((t.date / 512 + 1980) as nat, 4) + "-"@ + padded(((t.date / 32) % 16) as nat, 2) + "-"@
            + padded((t.date % 32) as nat, 2) + " "@ + padded((t.time / 2048) as nat, 2) + ":"@ + padded(
            ((t.time / 32) % 64) as nat,
            2,
        ) + ":"@ + padded(((t.time % 32) * 2) as nat, 2),
        None => "none"@,
    }
}

/// Renders a Unix mode for a report.
fn fmt_mode(v: Option<u32>) -> (r: String)
    ensures
        r@ == mode_label(v),
{
    match v {
        Some(x) => {
            let digits8 = fmt_radix(x as u64, 8, 0, '0');
            concat2("0o", digits8.as_str())
        },
        None => "none".to_string(),
    }
}

/// Renders a modification time for a report.
fn fmt_time(v: Option<DosTime>) -> (r: String)
    ensures
        r@ == time_label(v),
{
    match v {
        Some(t) => {
            let year = fmt_radix((t.date / 512 + 1980) as u64, 10, 4, '0');
            let month = fmt_radix(((t.date / 32) % 16) as u64, 10, 2, '0');
            let day = fmt_radix((t.date % 32) as u64, 10, 2, '0');
            let hour = fmt_radix((t.time / 2048) as u64, 10, 2, '0');
            let minute = fmt_radix(((t.time / 32) % 64) as u64, 10, 2, '0');
            let second = fmt_radix(((t.time % 32) * 2) as u64, 10, 2, '0');
            let mut s = year;
            s.append("-");
            s.append(month.as_str());
            s.append("-");
            s.append(day.as_str());
            s.append(" ");
            s.append(hour.as_str());
            s.append(":");
            s.append(minute.as_str());
            s.append(":");
            s.append(second.as_str());
            s
        },
        None => "none".to_string(),
    }
}

/// One line of a metadata report: `label`, the old value, an arrow, the
/// new value.
pub open spec fn change_line(label: Seq<char>, old_value: Seq<char>, new_value: Seq<char>) -> Seq<char> {
    label + old_value + " -> "@ + new_value
}

/// A line when `differs`, else nothing.
pub open spec fn line_if(differs: bool, line: Seq<char>) -> Seq<Seq<char>> {
    if differs {
        seq![line]
    } else {
        Seq::empty()
    }
}

/// The metadata that changed between two snapshots of an entry, one line
/// per field, in a fixed order: method, compressed size, Unix mode,
/// modification time, comment.
pub open spec fn spec_diff_metadata(l: SnapView, r: SnapView) -> Seq<Seq<char>> {
    line_if(l.method != r.method, change_line("method: "@, spec_method_label(l.method), spec_method_label(r.method)))
        + line_if(
        l.compressed_size != r.compressed_size,
        change_line("compressed_size: "@, decimal(l.compressed_size as nat), decimal(r.compressed_size as nat)),
    ) + line_if(l.unix_mode != r.unix_mode, change_line("unix_mode: "@, mode_label(l.unix_mode), mode_label(r.unix_mode)))
        + line_if(l.mtime != r.mtime, change_line("mtime: "@, time_label(l.mtime), time_label(r.mtime)))
        + line_if(
        l.comment != r.comment,
        change_line("comment: "@, debug_quoted(l.comment), debug_quoted(r.comment)),
    )
}

fn change_text(label: &str, old_value: String, new_value: String) -> (r: String)
    ensures
        r@ == change_line(label@, old_value@, new_value@),
{
    let mut s = concat2(label, old_value.as_str());
    s.append(" -> ");
    s.append(new_value.as_str());
    s
}

/// The lines describing how the metadata of an entry changed.
fn diff_metadata(left: &EntrySnapshot, right: &EntrySnapshot) -> (r: Vec<String>)
    ensures
        views(r@) == spec_diff_metadata(left@, right@),
{
    let mut changes: Vec<String> = Vec::new();
    let ghost l = left@;
    let ghost r = right@;
    if left.method != right.method {
        changes.push(change_text("method: ", method_label(left.method), method_label(right.method)));
    }
    let ghost s1 = views(changes@);
    assert(s1 =~= line_if(l.method != r.method, change_line("method: "@, spec_method_label(l.method), spec_method_label(r.method))));
    if left.compressed_size != right.compressed_size {
        changes.push(change_text("compressed_size: ", fmt_radix(left.compressed_size, 10, 0, '0'), fmt_radix(right.compressed_size, 10, 0, '0')));
    }
    let ghost s2 = views(changes@);
    assert(s2 =~= s1 + line_if(
        l.compressed_size != r.compressed_size,
        change_line("compressed_size: "@, decimal(l.compressed_size as nat), decimal(r.compressed_size as nat)),
    ));
    if left.unix_mode != right.unix_mode {
        changes.push(change_text("unix_mode: ", fmt_mode(left.unix_mode), fmt_mode(right.unix_mode)));
    }
    let ghost s3 = views(changes@);
    assert(s3 =~= s2 + line_if(l.unix_mode != r.unix_mode, change_line("unix_mode: "@, mode_label(l.unix_mode), mode_label(r.unix_mode))));
    if left.mtime != right.mtime {
        changes.push(change_text("mtime: ", fmt_time(left.mtime), fmt_time(right.mtime)));
    }
    let ghost s4 = views(changes@);
    assert(s4 =~= s3 + line_if(l.mtime != r.mtime, change_line("mtime: "@, time_label(l.mtime), time_label(r.mtime))));
    let same_comment = crate::text::str_eq(left.comment.as_str(), right.comment.as_str());
    if !same_comment {
        changes.push(change_text("comment: ", quote_comment(left.comment.as_str()), quote_comment(right.comment.as_str())));
    }
    assert(views(changes@) =~= s4 + line_if(l.comment != r.comment, change_line("comment: "@, debug_quoted(l.comment), debug_quoted(r.comment))));
    changes
}

/// How an entry differs between two archives.
#[derive(Debug, Clone, Copy, PartialEq, Eq, Structural)]
pub enum DiffKind {
    Added,
    Removed,
    Modified,
}

/// One difference between two archives.
#[derive(Debug, Clone)]
pub struct DiffEntry {
    pub path: String,
    pub kind: DiffKind,
    pub content_changed: bool,
    pub metadata_changes: Vec<String>,
}

/// The abstract content of a [`DiffEntry`].
pub struct DiffView {
    pub path: Seq<char>,
    pub kind: DiffKind,
    pub content_changed: bool,
    pub metadata_changes: Seq<Seq<char>>,
}

impl View for DiffEntry {
    type V = DiffView;

    open spec fn view(&self) -> DiffView {
        DiffView {
            path: self.path@,
            kind: self.kind,
            content_changed: self.content_changed,
            metadata_changes: views(self.metadata_changes@),
        }
    }
}

/// The views of a sequence of differences.
pub open spec fn diff_views(v: Seq<DiffEntry>) -> Seq<DiffView> {
    v.map_values(|e: DiffEntry| e@)
}

/// The snapshot recorded last under path `k`, if any.
pub open spec fn last_snap(items: Seq<ItemView>, k: Seq<char>) -> Option<SnapView>
    decreases items.len(),
{
    if items.len() == 0 {
        None
    } else if items.last().path == k {
        Some(items.last().snap)
    } else {
        last_snap(items.drop_last(), k)
    }
}

/// Some item is recorded under path `k`.
pub open spec fn has_path(items: Seq<ItemView>, k: Seq<char>) -> bool {
    exists|i: int| 0 <= i < items.len() && (#[trigger] items[i]).path == k
}

proof fn lemma_last_snap_some(items: Seq<ItemView>, k: Seq<char>)
    ensures
        last_snap(items, k) is Some <==> has_path(items, k),
    decreases items.len(),
{
    if items.len() > 0 {
        let d = items.drop_last();
        lemma_last_snap_some(d, k);
        if has_path(d, k) {
            let i = choose|i: int| 0 <= i < d.len() && (#[trigger] d[i]).path == k;
            assert(items[i].path == k);
        }
        if has_path(items, k) && items.last().path != k {
            let i = choose|i: int| 0 <= i < items.len() && (#[trigger] items[i]).path == k;
            assert(d[i].path == k);
        }
    }
}

/// The difference reported for path `k`, given its snapshots on the left
/// and on the right: added, removed, or modified when the contents (size or
/// checksum) or the metadata differ; nothing otherwise.
pub open spec fn diff_for(k: Seq<char>, l: Option<SnapView>, r: Option<SnapView>) -> Option<DiffView> {
    match (l, r) {
        (None, Some(_)) => Some(DiffView { path: k, kind: DiffKind::Added, content_changed: true, metadata_changes: Seq::empty() }),
        (Some(_), None) => Some(DiffView { path: k, kind: DiffKind::Removed, content_changed: true, metadata_changes: Seq::empty() }),
        (Some(a), Some(b)) => {
            let content_changed = a.size != b.size || a.crc32 != b.crc32;
            let meta = spec_diff_metadata(a, b);
            if content_changed || meta.len() > 0 {
                Some(DiffView { path: k, kind: DiffKind::Modified, content_changed, metadata_changes: meta })
            } else {
                None
            }
        },
        (None, None) => None,
    }
}

/// `out` is the report comparing the recorded entries `l` and `r`: one
/// difference for each path recorded on either side whose snapshots
/// differ, in ascending order of path.
pub open spec fn is_diff(l: Seq<ItemView>, r: Seq<ItemView>, out: Seq<DiffView>) -> bool {
    &&& forall|a: int, b: int| 0 <= a < b < out.len() ==> seq_lt(#[trigger] out[a].path, #[trigger] out[b].path)
    &&& forall|a: int| 0 <= a < out.len() ==> diff_for(#[trigger] out[a].path, last_snap(l, out[a].path), last_snap(r, out[a].path))
        == Some(out[a])
    &&& forall|k: Seq<char>| #[trigger] diff_for(k, last_snap(l, k), last_snap(r, k)) is Some ==> exists|a: int|
        0 <= a < out.len() && (#[trigger] out[a]).path == k
}

/// The position of the item recorded last under `key`.
fn find_last(items: &[SnapshotItem], key: &str) -> (r: Option<usize>)
    ensures
        match r {
            Some(i) => i < items@.len() && last_snap(item_views(items@), key@) == Some(items@[i as int].snap@),
            None => last_snap(item_views(items@), key@) is None,
        },
{
    let ghost all = item_views(items@);
    let mut i = items.len();
    assert(all.take(i as int) =~= all);
    while i > 0
        invariant
            i <= items@.len(),
            all == item_views(items@),
            last_snap(all, key@) == last_snap(all.take(i as int), key@),
        decreases i,
    {
        let ghost t = all.take(i as int);
        assert(t.last() == items@[i - 1]@);
        if str_eq(items[i - 1].path.as_str(), key) {
            return Some(i - 1);
        }
        assert(t.drop_last() =~= all.take(i - 1));
        i = i - 1;
    }
    None
}

/// `keys` holds distinct paths in ascending order.
pub open spec fn strictly_sorted(keys: Seq<Seq<char>>) -> bool {
    forall|a: int, b: int| 0 <= a < b < keys.len() ==> seq_lt(#[trigger] keys[a], #[trigger] keys[b])
}

/// Adds `k` to an ascending list of distinct paths, unless present.
fn insert_sorted(keys: &mut Vec<String>, k: &str)
    requires
        strictly_sorted(views(old(keys)@)),
    ensures
        strictly_sorted(views(final(keys)@)),
        forall|x: Seq<char>| #[trigger] views(final(keys)@).contains(x) <==> (views(old(keys)@).contains(x) || x == k@),
{
    let ghost ks = views(keys@);
    let n = keys.len();
    let mut p: usize = 0;
    loop
        invariant
            p <= n,
            n == keys@.len(),
            ks == views(keys@),
            strictly_sorted(ks),
            forall|q: int| 0 <= q < p ==> seq_lt(#[trigger] ks[q], k@),
        ensures
            p <= n,
            forall|q: int| 0 <= q < p ==> seq_lt(#[trigger] ks[q], k@),
            p < n ==> !seq_lt(ks[p as int], k@),
        decreases n - p,
    {
        if p == n {
            break;
        }
        if !str_lt(keys[p].as_str(), k) {
            break;
        }
        p = p + 1;
    }
    if p < n && str_eq(keys[p].as_str(), k) {
        assert(ks[p as int] == k@);
        return;
    }
    proof {
        if p < n {
            assert(ks[p as int] != k@);
            lemma_lt_total(ks[p as int], k@);
        }
    }
    keys.insert(p, k.to_owned());
    let ghost nk = views(keys@);
    assert(nk =~= ks.insert(p as int, k@));
    assert forall|a: int, b: int| 0 <= a < b < nk.len() implies seq_lt(#[trigger] nk[a], #[trigger] nk[b]) by {
        if b < p {
            assert(nk[a] == ks[a] && nk[b] == ks[b]);
        } else if b == p {
            assert(nk[a] == ks[a] && nk[b] == k@);
        } else if a < p {
            assert(nk[a] == ks[a] && nk[b] == ks[b - 1]);
        } else if a == p {
            assert(nk[a] == k@ && nk[b] == ks[b - 1]);
            if b - 1 > p {
                lemma_lt_transitive(k@, ks[p as int], ks[b - 1]);
            }
        } else {
            assert(nk[a] == ks[a - 1] && nk[b] == ks[b - 1]);
        }
    }
    assert forall|x: Seq<char>| #[trigger] nk.contains(x) <==> (ks.contains(x) || x == k@) by {
        if nk.contains(x) {
            let i = choose|i: int| 0 <= i < nk.len() && nk[i] == x;
            if i < p {
                assert(ks[i] == x);
            } else if i > p {
                assert(ks[i - 1] == x);
            }
        }
        if ks.contains(x) {
            let i = choose|i: int| 0 <= i < ks.len() && ks[i] == x;
            if i < p {
                assert(nk[i] == x);
            } else {
                assert(nk[i + 1] == x);
            }
        }
        if x == k@ {
            assert(nk[p as int] == x);
        }
    }
}

/// The view of an optional snapshot.
pub open spec fn opt_snap(o: Option<&EntrySnapshot>) -> Option<SnapView> {
    match o {
        Some(x) => Some(x@),
        None => None,
    }
}

/// The difference to report for `key`, given its snapshots on either side.
fn diff_entry_for(key: &String, l: Option<&EntrySnapshot>, r: Option<&EntrySnapshot>) -> (d: Option<DiffEntry>)
    ensures
        match d {
            Some(e) => diff_for(key@, opt_snap(l), opt_snap(r)) == Some(e@),
            None => diff_for(key@, opt_snap(l), opt_snap(r)) is None,
        },
{
    match (l, r) {
        (None, Some(_)) => {
            let e = DiffEntry { path: key.clone(), kind: DiffKind::Added, content_changed: true, metadata_changes: Vec::new() };
            assert(views(e.metadata_changes@) =~= Seq::<Seq<char>>::empty());
            Some(e)
        },
        (Some(_), None) => {
            let e = DiffEntry { path: key.clone(), kind: DiffKind::Removed, content_changed: true, metadata_changes: Vec::new() };
            assert(views(e.metadata_changes@) =~= Seq::<Seq<char>>::empty());
            Some(e)
        },
        (Some(a), Some(b)) => {
            let content_changed = a.size != b.size || a.crc32 != b.crc32;
            let metadata_changes = diff_metadata(a, b);
            if content_changed || metadata_changes.len() > 0 {
                Some(DiffEntry { path: key.clone(), kind: DiffKind::Modified, content_changed, metadata_changes })
            } else {
                None
            }
        },
        (None, None) => None,
    }
}

/// `keys` with the paths of `items` added, kept ascending and distinct.
fn add_paths(keys: Vec<String>, items: &[SnapshotItem]) -> (r: Vec<String>)
    requires
        strictly_sorted(views(keys@)),
    ensures
        strictly_sorted(views(r@)),
        forall|x: Seq<char>| #[trigger] views(r@).contains(x) <==> (views(keys@).contains(x) || has_path(item_views(items@), x)),
{
    let ghost start = views(keys@);
    let ghost all = item_views(items@);
    let mut acc = keys;
    let n = items.len();
    assert forall|x: Seq<char>| !has_path(all.take(0), x) by {}
    for i in 0..n
        invariant
            n == items@.len(),
            all == item_views(items@),
            strictly_sorted(views(acc@)),
            forall|x: Seq<char>| #[trigger] views(acc@).contains(x) <==> (start.contains(x) || has_path(all.take(i as int), x)),
    {
        let ghost before = views(acc@);
        insert_sorted(&mut acc, items[i].path.as_str());
        let ghost after = views(acc@);
        let ghost t = all.take(i as int);
        let ghost t1 = all.take(i + 1);
        assert(t1[i as int].path == items@[i as int].path@);
        assert forall|x: Seq<char>| #[trigger] after.contains(x) <==> (start.contains(x) || has_path(t1, x)) by {
            assert(after.contains(x) <==> (before.contains(x) || x == items@[i as int].path@));
            assert(before.contains(x) <==> (start.contains(x) || has_path(t, x)));
            assert(has_path(t1, x) <==> (has_path(t, x) || x == items@[i as int].path@));
            if has_path(t, x) {
                let q = choose|q: int| 0 <= q < t.len() && (#[trigger] t[q]).path == x;
                assert(t1[q].path == x);
            }
            if has_path(t1, x) {
                let q = choose|q: int| 0 <= q < t1.len() && (#[trigger] t1[q]).path == x;
                if q < i {
                    assert(t[q].path == x);
                }
            }
            if x == items@[i as int].path@ {
                assert(t1[i as int].path == x);
            }
        }
    }
    assert(all.take(n as int) =~= all);
    acc
}

/// The report comparing two lists of recorded entries: one difference per
/// path whose snapshots differ (the last recorded under that path on each
/// side), in ascending order of path.
pub fn diff_snapshots(left: &[SnapshotItem], right: &[SnapshotItem]) -> (r: Vec<DiffEntry>)
    ensures
        is_diff(item_views(left@), item_views(right@), diff_views(r@)),
{
    let ghost lv = item_views(left@);
    let ghost rv = item_views(right@);
    let empty: Vec<String> = Vec::new();
    assert(views(empty@) =~= Seq::<Seq<char>>::empty());
    let keys = add_paths(add_paths(empty, left), right);
    let ghost ks = views(keys@);
    let mut out: Vec<DiffEntry> = Vec::new();
    let n = keys.len();
    for i in 0..n
        invariant
            n == keys@.len(),
            ks == views(keys@),
            lv == item_views(left@),
            rv == item_views(right@),
            strictly_sorted(ks),
            forall|x: Seq<char>| #[trigger] ks.contains(x) <==> (has_path(lv, x) || has_path(rv, x)),
            forall|a: int, q: int| 0 <= a < out@.len() && i <= q < n ==> seq_lt(#[trigger] out@[a].path@, #[trigger] ks[q]),
            forall|a: int, b: int| 0 <= a < b < out@.len() ==> seq_lt(#[trigger] out@[a].path@, #[trigger] out@[b].path@),
            forall|a: int| 0 <= a < out@.len() ==> diff_for(#[trigger] out@[a].path@, last_snap(lv, out@[a].path@), last_snap(rv, out@[a].path@))
                == Some(out@[a]@),
            forall|q: int| 0 <= q < i ==> (#[trigger] diff_for(ks[q], last_snap(lv, ks[q]), last_snap(rv, ks[q]))) is Some
                ==> exists|a: int| 0 <= a < out@.len() && (#[trigger] out@[a]).path@ == ks[q],
    {
        let key = &keys[i];
        assert(key@ == ks[i as int]);
        let l = match find_last(left, key.as_str()) {
            Some(x) => Some(&left[x].snap),
            None => None,
        };
        let r = match find_last(right, key.as_str()) {
            Some(x) => Some(&right[x].snap),
            None => None,
        };
        assert(opt_snap(l) == last_snap(lv, key@));
        assert(opt_snap(r) == last_snap(rv, key@));
        match diff_entry_for(key, l, r) {
            Some(e) => {
                let ghost before = out@;
                out.push(e);
                assert forall|a: int, b: int| 0 <= a < b < out@.len() implies seq_lt(#[trigger] out@[a].path@, #[trigger] out@[b].path@) by {
                    if b == before.len() {
                        assert(out@[b].path@ == ks[i as int]);
                    } else {
                        assert(out@[a] == before[a] && out@[b] == before[b]);
                    }
                }
                assert forall|a: int, q: int| 0 <= a < out@.len() && i + 1 <= q < n implies seq_lt(#[trigger] out@[a].path@, #[trigger] ks[q]) by {
                    if a == before.len() {
                        assert(out@[a].path@ == ks[i as int]);
                    } else {
                        assert(out@[a] == before[a]);
                    }
                }
                assert forall|q: int| 0 <= q < i + 1 && (#[trigger] diff_for(ks[q], last_snap(lv, ks[q]), last_snap(rv, ks[q]))) is Some
                    implies exists|a: int| 0 <= a < out@.len() && (#[trigger] out@[a]).path@ == ks[q] by {
                    if q == i {
                        assert(out@[before.len() as int].path@ == ks[q]);
                    } else {
                        let a = choose|a: int| 0 <= a < before.len() && (#[trigger] before[a]).path@ == ks[q];
                        assert(out@[a] == before[a]);
                    }
                }
            },
            None => {},
        }
    }
    proof {
        let ov = diff_views(out@);
        assert forall|k: Seq<char>| #[trigger] diff_for(k, last_snap(lv, k), last_snap(rv, k)) is Some implies exists|a: int|
            0 <= a < ov.len() && (#[trigger] ov[a]).path == k by {
            lemma_last_snap_some(lv, k);
            lemma_last_snap_some(rv, k);
            assert(ks.contains(k));
            let q = choose|q: int| 0 <= q < ks.len() && ks[q] == k;
            assert(diff_for(ks[q], last_snap(lv, ks[q]), last_snap(rv, ks[q])) is Some);
            let a = choose|a: int| 0 <= a < out@.len() && (#[trigger] out@[a]).path@ == ks[q];
            assert(ov[a].path == k);
        }
        assert forall|a: int, b: int| 0 <= a < b < ov.len() implies seq_lt(#[trigger] ov[a].path, #[trigger] ov[b].path) by {
            assert(ov[a].path == out@[a].path@ && ov[b].path == out@[b].path@);
        }
        assert forall|a: int| 0 <= a < ov.len() implies diff_for(#[trigger] ov[a].path, last_snap(lv, ov[a].path), last_snap(rv, ov[a].path))
            == Some(ov[a]) by {
            assert(ov[a] == out@[a]@);
        }
    }
    out
}

/// The differences between two archives, nested archives included: one per
/// entry path whose snapshots differ, in ascending order of path. An entry
/// only on the right is added, only on the left removed, on both sides
/// modified when its size, checksum or metadata differ.
pub fn diff_recursive(left: Vec<u8>, right: Vec<u8>, config: &Config) -> (r: Result<Vec<DiffEntry>, ZiprError>)
    ensures
        match (spec_snapshot(left@, config@.exts), spec_snapshot(right@, config@.exts)) {
            (Err(e), _) => r matches Err(x) && x@ == e,
            (Ok(_), Err(e)) => r matches Err(x) && x@ == e,
            (Ok(l), Ok(rr)) => r matches Ok(v) && is_diff(l, rr, diff_views(v@)),
        },
{
    let left_entries = match snapshot(left, config) {
        Ok(v) => v,
        Err(e) => return Err(e),
    };
    let right_entries = match snapshot(right, config) {
        Ok(v) => v,
        Err(e) => return Err(e),
    };
    Ok(diff_snapshots(left_entries.as_slice(), right_entries.as_slice()))
}

/// Comparing recorded entries with themselves reports no difference.
pub proof fn law_diff_with_itself_is_empty(items: Seq<ItemView>, out: Seq<DiffView>)
    requires
        is_diff(items, items, out),
    ensures
        out.len() == 0,
{
    if out.len() > 0 {
        let k = out[0].path;
        assert(diff_for(k, last_snap(items, k), last_snap(items, k)) == Some(out[0]));
        match last_snap(items, k) {
            Some(a) => {
                assert(spec_diff_metadata(a, a) =~= Seq::<Seq<char>>::empty());
            },
            None => {},
        }
    }
}

/// A path is reported added when comparing one way exactly when it is
/// reported removed comparing the other way.
pub proof fn law_added_mirrors_removed(l: Seq<ItemView>, r: Seq<ItemView>, k: Seq<char>)
    ensures
        (diff_for(k, last_snap(l, k), last_snap(r, k)) matches Some(d) && d.kind == DiffKind::Added) <==> (diff_for(
            k,
            last_snap(r, k),
            last_snap(l, k),
        ) matches Some(e) && e.kind == DiffKind::Removed),
{
}

/// Two ascending lists of distinct paths holding the same paths are equal.
proof fn lemma_sorted_same_elements(a: Seq<Seq<char>>, b: Seq<Seq<char>>)
    requires
        strictly_sorted(a),
        strictly_sorted(b),
        forall|x: Seq<char>| #![trigger a.contains(x)] #![trigger b.contains(x)] a.contains(x) <==> b.contains(x),
    ensures
        a == b,
    decreases a.len() + b.len(),
{
    if a.len() == 0 && b.len() == 0 {
        assert(a =~= b);
    } else if a.len() == 0 {
        assert(b.contains(b[0]));
    } else if b.len() == 0 {
        assert(a.contains(a[0]));
    } else {
        assert(a.contains(a[0]));
        assert(b.contains(b[0]));
        if a[0] != b[0] {
            lemma_lt_total(a[0], b[0]);
            if seq_lt(a[0], b[0]) {
                let i = choose|i: int| 0 <= i < b.len() && b[i] == a[0];
                assert(seq_lt(b[0], b[i]));
                lemma_lt_transitive(a[0], b[0], a[0]);
                lemma_lt_irreflexive(a[0]);
            } else {
                let i = choose|i: int| 0 <= i < a.len() && a[i] == b[0];
                assert(seq_lt(a[0], a[i]));
                lemma_lt_transitive(b[0], a[0], b[0]);
                lemma_lt_irreflexive(b[0]);
            }
        }
        let a1 = a.skip(1);
        let b1 = b.skip(1);
        assert forall|x: Seq<char>| #![trigger a1.contains(x)] #![trigger b1.contains(x)] a1.contains(x) <==> b1.contains(x) by {
            if a1.contains(x) {
                let i = choose|i: int| 0 <= i < a1.len() && a1[i] == x;
                assert(a[i + 1] == x);
                assert(seq_lt(a[0], x));
                lemma_lt_irreflexive(x);
                assert(b.contains(x));
                let q = choose|q: int| 0 <= q < b.len() && b[q] == x;
                assert(q != 0);
                assert(b1[q - 1] == x);
            }
            if b1.contains(x) {
                let i = choose|i: int| 0 <= i < b1.len() && b1[i] == x;
                assert(b[i + 1] == x);
                assert(seq_lt(b[0], x));
                lemma_lt_irreflexive(x);
                assert(a.contains(x));
                let q = choose|q: int| 0 <= q < a.len() && a[q] == x;
                assert(q != 0);
                assert(a1[q - 1] == x);
            }
        }
        lemma_sorted_same_elements(a1, b1);
        assert(a =~= seq![a[0]] + a1);
        assert(b =~= seq![b[0]] + b1);
    }
}

/// The paths of a report.
pub open spec fn report_paths(out: Seq<DiffView>) -> Seq<Seq<char>> {
    out.map_values(|d: DiffView| d.path)
}

proof fn lemma_report_paths(l: Seq<ItemView>, r: Seq<ItemView>, out: Seq<DiffView>)
    requires
        is_diff(l, r, out),
    ensures
        strictly_sorted(report_paths(out)),
        forall|x: Seq<char>| #[trigger] report_paths(out).contains(x) <==> diff_for(x, last_snap(l, x), last_snap(r, x)) is Some,
{
    let ps = report_paths(out);
    assert forall|a: int, b: int| 0 <= a < b < ps.len() implies seq_lt(#[trigger] ps[a], #[trigger] ps[b]) by {
        assert(ps[a] == out[a].path && ps[b] == out[b].path);
    }
    assert forall|x: Seq<char>| #[trigger] ps.contains(x) <==> diff_for(x, last_snap(l, x), last_snap(r, x)) is Some by {
        if ps.contains(x) {
            let i = choose|i: int| 0 <= i < ps.len() && ps[i] == x;
            assert(out[i].path == x);
            assert(diff_for(out[i].path, last_snap(l, out[i].path), last_snap(r, out[i].path)) == Some(out[i]));
        }
        if diff_for(x, last_snap(l, x), last_snap(r, x)) is Some {
            let i = choose|i: int| 0 <= i < out.len() && (#[trigger] out[i]).path == x;
            assert(ps[i] == x);
        }
    }
}

/// Two reports comparing the same recorded entries are the same report:
/// the comparison pins its result down.
pub proof fn law_diff_is_determined(l: Seq<ItemView>, r: Seq<ItemView>, a: Seq<DiffView>, b: Seq<DiffView>)
    requires
        is_diff(l, r, a),
        is_diff(l, r, b),
    ensures
        a == b,
{
    lemma_report_paths(l, r, a);
    lemma_report_paths(l, r, b);
    let pa = report_paths(a);
    let pb = report_paths(b);
    assert forall|x: Seq<char>| #![trigger pa.contains(x)] #![trigger pb.contains(x)] pa.contains(x) <==> pb.contains(x) by {}
    lemma_sorted_same_elements(pa, pb);
    assert(a.len() == pb.len());
    assert forall|i: int| 0 <= i < a.len() implies a[i] == b[i] by {
        assert(pa[i] == pb[i]);
        assert(a[i].path == b[i].path);
        assert(diff_for(a[i].path, last_snap(l, a[i].path), last_snap(r, a[i].path)) == Some(a[i]));
        assert(diff_for(b[i].path, last_snap(l, b[i].path), last_snap(r, b[i].path)) == Some(b[i]));
    }
    assert(a =~= b);
}

/// The kind of difference seen from the other side.
pub open spec fn mirrored_kind(k: DiffKind) -> DiffKind {
    match k {
        DiffKind::Added => DiffKind::Removed,
        DiffKind::Removed => DiffKind::Added,
        DiffKind::Modified => DiffKind::Modified,
    }
}

/// The metadata report of two snapshots has a line for each field that
/// differs, whichever side comes first.
proof fn lemma_metadata_lines_symmetric(a: SnapView, b: SnapView)
    ensures
        spec_diff_metadata(a, b).len() == spec_diff_metadata(b, a).len(),
{
}

/// Comparing the other way round reports the same paths, in the same
/// order, each with the mirrored kind (added for removed and back), the same
/// verdict on the contents, and as many metadata lines.
pub proof fn law_swapped_diff_mirrors(l: Seq<ItemView>, r: Seq<ItemView>, a: Seq<DiffView>, b: Seq<DiffView>)
    requires
        is_diff(l, r, a),
        is_diff(r, l, b),
    ensures
        a.len() == b.len(),
        forall|i: int| 0 <= i < a.len() ==> {
            &&& (#[trigger] b[i]).path == a[i].path
            &&& b[i].kind == mirrored_kind(a[i].kind)
            &&& b[i].content_changed == a[i].content_changed
            &&& b[i].metadata_changes.len() == a[i].metadata_changes.len()
        },
{
    lemma_report_paths(l, r, a);
    lemma_report_paths(r, l, b);
    let pa = report_paths(a);
    let pb = report_paths(b);
    assert forall|x: Seq<char>| #![trigger pa.contains(x)] #![trigger pb.contains(x)] pa.contains(x) <==> pb.contains(x) by {
        match (last_snap(l, x), last_snap(r, x)) {
            (Some(u), Some(v)) => lemma_metadata_lines_symmetric(u, v),
            _ => {},
        }
    }
    lemma_sorted_same_elements(pa, pb);
    assert forall|i: int| 0 <= i < a.len() implies {
        &&& (#[trigger] b[i]).path == a[i].path
        &&& b[i].kind == mirrored_kind(a[i].kind)
        &&& b[i].content_changed == a[i].content_changed
        &&& b[i].metadata_changes.len() == a[i].metadata_changes.len()
    } by {
        assert(pa[i] == pb[i]);
        let k = a[i].path;
        assert(diff_for(k, last_snap(l, k), last_snap(r, k)) == Some(a[i]));
        assert(diff_for(b[i].path, last_snap(r, b[i].path), last_snap(l, b[i].path)) == Some(b[i]));
        match (last_snap(l, k), last_snap(r, k)) {
            (Some(u), Some(v)) => lemma_metadata_lines_symmetric(u, v),
            _ => {},
        }
    }
}

/// Whether `item` records the entry `e` of an archive named by `prefix`:
/// the entry can be opened and is not a directory, the item's path names it
/// under the prefix, and the item carries the entry's sizes, checksum,
/// method, modification time, Unix mode and comment.
pub open spec fn records_entry(e: StoredEntry, prefix: Seq<char>, item: ItemView) -> bool {
    &&& e.info is Some
    &&& !e.info.unwrap().is_dir
    &&& item.path == spec_make_expr(prefix, e.info.unwrap().name)
    &&& item.snap.size == e.info.unwrap().size
    &&& item.snap.compressed_size == e.info.unwrap().compressed_size
    &&& item.snap.crc32 == e.info.unwrap().crc32
    &&& item.snap.method == e.info.unwrap().method
    &&& item.snap.mtime == e.info.unwrap().mtime
    &&& item.snap.unix_mode == e.info.unwrap().unix_mode
    &&& item.snap.comment == e.info.unwrap().comment
}

/// Whether `item` records one of the first `i` entries of `es`, or (below
/// an archive entry, down to `fuel` levels) an entry of an archive nested in
/// one.
pub open spec fn records_below(es: Seq<StoredEntry>, prefix: Seq<char>, fuel: nat, i: int, item: ItemView) -> bool
    decreases fuel,
{
    exists|j: int|
        0 <= j < i && j < es.len() && (#[trigger] es[j]).info is Some && !es[j].info.unwrap().is_dir && (
        records_entry(es[j], prefix, item) || (fuel > 0 && es[j].data is Some && zip_directory(es[j].data.unwrap())
            is Some && records_below(
            zip_directory(es[j].data.unwrap()).unwrap(),
            spec_make_expr(prefix, es[j].info.unwrap().name),
            (fuel - 1) as nat,
            zip_directory(es[j].data.unwrap()).unwrap().len() as int,
            item,
        )))
}

proof fn lemma_records_below_more(es: Seq<StoredEntry>, prefix: Seq<char>, fuel: nat, i: int, item: ItemView)
    requires
        records_below(es, prefix, fuel, i, item),
    ensures
        records_below(es, prefix, fuel, i + 1, item),
{
    let j = choose|j: int|
        0 <= j < i && j < es.len() && (#[trigger] es[j]).info is Some && !es[j].info.unwrap().is_dir && (
        records_entry(es[j], prefix, item) || (fuel > 0 && es[j].data is Some && zip_directory(es[j].data.unwrap())
            is Some && records_below(
            zip_directory(es[j].data.unwrap()).unwrap(),
            spec_make_expr(prefix, es[j].info.unwrap().name),
            (fuel - 1) as nat,
            zip_directory(es[j].data.unwrap()).unwrap().len() as int,
            item,
        )));
    assert(0 <= j < i + 1 && j < es.len() && es[j].info is Some);
}

proof fn lemma_rec_snapshot_records(es: Seq<StoredEntry>, prefix: Seq<char>, exts: Set<Seq<char>>, fuel: nat, i: int)
    requires
        0 <= i <= es.len(),
    ensures
        rec_snapshot(es, prefix, exts, fuel, i) matches Ok(l) ==> forall|k: int|
            0 <= k < l.len() ==> records_below(es, prefix, fuel, i, #[trigger] l[k]),
    decreases fuel, i,
{
    if i > 0 {
        lemma_rec_snapshot_records(es, prefix, exts, fuel, i - 1);
        if let Ok(l) = rec_snapshot(es, prefix, exts, fuel, i) {
            let acc = rec_snapshot(es, prefix, exts, fuel, i - 1)->Ok_0;
            let m = es[i - 1].info.unwrap();
            let item = ItemView { path: spec_make_expr(prefix, m.name), snap: snap_of(m) };
            assert forall|k: int| 0 <= k < l.len() implies records_below(es, prefix, fuel, i, #[trigger] l[k]) by {
                if k < acc.len() {
                    assert(l[k] == acc[k]);
                    lemma_records_below_more(es, prefix, fuel, i - 1, acc[k]);
                } else if k == acc.len() {
                    assert(l[k] == item);
                    assert(records_entry(es[i - 1], prefix, l[k]));
                    assert(es[i - 1].info is Some);
                } else {
                    let d = es[i - 1].data.unwrap();
                    let es2 = zip_directory(d).unwrap();
                    let sub = rec_snapshot(es2, item.path, exts, (fuel - 1) as nat, es2.len() as int)->Ok_0;
                    assert(l == acc.push(item) + sub);
                    assert(l[k] == sub[k - acc.len() - 1]);
                    lemma_rec_snapshot_records(es2, item.path, exts, (fuel - 1) as nat, es2.len() as int);
                    assert(records_below(es2, item.path, (fuel - 1) as nat, es2.len() as int, l[k]));
                    assert(es[i - 1].info is Some);
                }
            }
        }
    }
}

/// Every item of a snapshot records an entry that is not a directory, of
/// the archive or of an archive nested in it, named by its path, with the
/// metadata the directory records for it: directory entries are never
/// recorded.
pub proof fn law_snapshot_items(bytes: Seq<u8>, exts: Set<Seq<char>>, k: int)
    requires
        spec_snapshot(bytes, exts) is Ok,
        0 <= k < spec_snapshot(bytes, exts)->Ok_0.len(),
    ensures
        records_below(
            zip_directory(bytes).unwrap(),
            Seq::empty(),
            NESTING_LIMIT as nat,
            zip_directory(bytes).unwrap().len() as int,
            spec_snapshot(bytes, exts)->Ok_0[k],
        ),
{
    let es = zip_directory(bytes).unwrap();
    lemma_rec_snapshot_records(es, Seq::empty(), exts, NESTING_LIMIT as nat, es.len() as int);
}

/// Every difference a comparison reports is at a path recorded on one side
/// or the other.
pub proof fn law_diff_paths_recorded(l: Seq<ItemView>, r: Seq<ItemView>, out: Seq<DiffView>, a: int)
    requires
        is_diff(l, r, out),
        0 <= a < out.len(),
    ensures
        exists|q: int| 0 <= q < l.len() && (#[trigger] l[q]).path == out[a].path
            || exists|q: int| 0 <= q < r.len() && (#[trigger] r[q]).path == out[a].path,
{
    let k = out[a].path;
    assert(diff_for(k, last_snap(l, k), last_snap(r, k)) == Some(out[a]));
    lemma_last_snap_some(l, k);
    lemma_last_snap_some(r, k);
}

} // verus!
