//! Applying a patch specification to an archive, one entry at a time: the
//! caller reads each source file the step asks for and hands it over.
use vstd::prelude::*;

use crate::archive::{
    delete, lemma_refusal_kinds, path_present, replace, replace_feasible, replaced_at_some_time, rewrite_feasible,
    rewrite_refusal, rewritten, source_dos_time, spec_descend, spec_get, MutationView, ReplaceOptions,
};
use crate::config::Config;
use crate::rewrite_laws::{entry_meta, law_delete_then_get, law_replace_then_get, law_replaced_entry_method};
use crate::draft::{spec_strip_root, strip_root_from_target};
use crate::error::{agrees, ErrView, ZiprError};
use crate::path_expr::{parse_zip_expr, spec_parse_zip_expr, views, ExprView, ZipExpr};
use crate::patch_spec::{Action, PatchEntry};
use crate::text::{concat2, concat3, digits, fmt_radix, pad_left};
use crate::zipio::DosTime;

verus! {

/// The contents of a source file and its modification time in seconds
/// since the Unix epoch, when known.
#[derive(Debug)]
pub struct SourceFile {
    pub bytes: Vec<u8>,
    pub mtime: Option<i64>,
}

/// Where the application of a patch stands: the archive as rewritten so
/// far, and how many entries were replaced and deleted.
#[derive(Debug)]
pub struct PatchProgress {
    pub current: Vec<u8>,
    pub replaced: usize,
    pub deleted: usize,
}

/// What applying a patch did.
#[derive(Debug, Clone)]
pub struct ApplySummary {
    pub replaced: usize,
    pub deleted: usize,
    /// Path to the pre-apply backup of the archive. May be relative if the
    /// input archive path was relative. `None` for dry-run.
    pub backup_path: Option<String>,
}

/// The expression a patch target addresses in the archive `archive_norm`:
/// the target's path below its own root, under that archive.
pub open spec fn spec_entry_expr(archive_norm: Seq<char>, target: Seq<char>) -> Result<ExprView, ErrView> {
    spec_parse_zip_expr(archive_norm + seq!['!', '/'] + spec_strip_root(target))
}

/// The expression a patch entry addresses in the archive `archive_norm`.
pub fn patch_entry_expr(archive_norm: &str, entry: &PatchEntry) -> (r: Result<ZipExpr, ZiprError>)
    ensures
        agrees(r, spec_entry_expr(archive_norm@, entry.target@)),
{
    let tail = strip_root_from_target(entry.target.as_str());
    let sep = "!/";
    proof {
        reveal_strlit("!/");
        assert(sep@ =~= seq!['!', '/']);
    }
    let text = concat3(archive_norm, sep, tail.as_str());
    parse_zip_expr(text.as_str())
}

/// The source file a patch entry needs read before it is applied: none for
/// a delete, the entry's source for a replace (an error when it has none).
/// An entry whose target does not form an expression fails first.
pub fn patch_entry_source(archive_norm: &str, entry: &PatchEntry) -> (r: Result<Option<String>, ZiprError>)
    ensures
        match spec_entry_expr(archive_norm@, entry.target@) {
            Err(e) => r matches Err(x) && x@ == e,
            Ok(_) => match (entry.action, entry.source) {
                (Action::Delete, _) => r matches Ok(None),
                (Action::Replace, Some(s)) => r matches Ok(Some(x)) && x@ == s@,
                (Action::Replace, None) => r matches Err(x) && x@ == ErrView::ReplaceSourceMissing(entry.target@),
            },
        },
{
    if let Err(e) = patch_entry_expr(archive_norm, entry) {
        return Err(e);
    }
    match entry.action {
        Action::Delete => Ok(None),
        Action::Replace => match &entry.source {
            Some(s) => Ok(Some(s.clone())),
            None => Err(ZiprError::ReplaceSourceMissing(entry.target.clone())),
        },
    }
}

/// The options a patch entry asks for its replaced entry.
pub open spec fn entry_options(e: PatchEntry) -> ReplaceOptions {
    ReplaceOptions { method: e.method, level: e.level, mtime: e.mtime }
}

/// The outcome of applying one patch entry to the archive `current`, when
/// its expression has the segments `segs`. When the zip writer can carry out
/// the rewrite, the step succeeds if the target is present, and otherwise
/// reports the target as not found.
pub open spec fn step_outcome(
    current: Seq<u8>,
    segs: Seq<Seq<char>>,
    entry: PatchEntry,
    source: Option<SourceFile>,
    exts: Set<Seq<char>>,
    r: Result<PatchProgress, ZiprError>,
    before: PatchProgress,
) -> bool {
    &&& (entry.action is Delete || source is Some) ==> (rewrite_refusal(current, segs, exts) matches Some(x) ==> (r matches Err(e)
        && (e@ is Zip || e@ == x || e@ is NameTooLong)))
    &&& match entry.action {
        Action::Delete => {
            &&& match r {
                Ok(p) => path_present(current, segs, exts) && rewritten(current, segs, MutationView::Delete, exts, p.current@, true)
                    && p.deleted == before.deleted + 1 && p.replaced == before.replaced,
                Err(e) => e@ is Zip || rewrite_refusal(current, segs, exts) == Some(e@) || e@ is NameTooLong
                    || (rewrite_refusal(current, segs, exts) is None && !path_present(current, segs, exts) && e@
                    == ErrView::DeleteTargetNotFound(entry.target@)),
            }
            &&& rewrite_feasible(current, segs, MutationView::Delete, exts) ==> if path_present(current, segs, exts) {
                r is Ok
            } else {
                r matches Err(e) && e@ == ErrView::DeleteTargetNotFound(entry.target@)
            }
        },
        Action::Replace => match source {
            None => r matches Err(e) && e@ == ErrView::ReplaceSourceMissing(entry.target@),
            Some(f) => {
                &&& match r {
                    Ok(p) => path_present(current, segs, exts) && replaced_at_some_time(
                        current,
                        segs,
                        f.bytes@,
                        entry_options(entry),
                        source_dos_time(f.mtime),
                        exts,
                        p.current@,
                    ) && p.replaced == before.replaced + 1 && p.deleted == before.deleted,
                    Err(e) => e@ is Zip || rewrite_refusal(current, segs, exts) == Some(e@) || e@ is NameTooLong
                        || (rewrite_refusal(current, segs, exts) is None && !path_present(current, segs, exts) && e@
                        == ErrView::ReplaceTargetNotFound(entry.target@)),
                }
                &&& replace_feasible(current, segs, f.bytes@, entry_options(entry), exts) ==> if path_present(current, segs, exts) {
                    r is Ok
                } else {
                    r matches Err(e) && e@ == ErrView::ReplaceTargetNotFound(entry.target@)
                }
            },
        },
    }
}

/// Applies one patch entry to the archive as rewritten so far: deletes its
/// target, or replaces it with the contents of `source` (the entry's source
/// file, read by the caller), with the method, level and modification time
/// the entry asks for. Fails when the target is not found.
pub fn patch_apply_step(
    progress: PatchProgress,
    archive_norm: &str,
    entry: &PatchEntry,
    source: Option<SourceFile>,
    config: &Config,
) -> (r: Result<PatchProgress, ZiprError>)
    requires
        progress.replaced < usize::MAX,
        progress.deleted < usize::MAX,
    ensures
        match spec_entry_expr(archive_norm@, entry.target@) {
            Err(e) => r matches Err(x) && x@ == e,
            Ok(ev) => step_outcome(progress.current@, ev.segments, *entry, source, config@.exts, r, progress),
        },
{
    let ghost before = progress;
    let expr = match patch_entry_expr(archive_norm, entry) {
        Ok(x) => x,
        Err(e) => return Err(e),
    };
    proof {
        let parts = crate::path_expr::split_bang(archive_norm@ + seq!['!', '/'] + spec_strip_root(entry.target@));
        assert(views(expr.segments@).len() == parts.len() - 1);
    }
    proof {
        lemma_refusal_kinds(progress.current@, views(expr.segments@), config@.exts);
    }
    let PatchProgress { current, replaced, deleted } = progress;
    match entry.action {
        Action::Delete => match delete(&expr, current, config) {
            Ok(next) => Ok(PatchProgress { current: next, replaced, deleted: deleted + 1 }),
            Err(ZiprError::TargetNotFound(_)) => Err(ZiprError::DeleteTargetNotFound(entry.target.clone())),
            Err(e) => Err(e),
        },
        Action::Replace => {
            let file = match source {
                Some(f) => f,
                None => return Err(ZiprError::ReplaceSourceMissing(entry.target.clone())),
            };
            let opts = ReplaceOptions { method: entry.method, level: entry.level, mtime: entry.mtime };
            match replace(&expr, current, file.bytes, file.mtime, config, opts) {
                Ok(next) => Ok(PatchProgress { current: next, replaced: replaced + 1, deleted }),
                Err(ZiprError::TargetNotFound(_)) => Err(ZiprError::ReplaceTargetNotFound(entry.target.clone())),
                Err(e) => Err(e),
            }
        },
    }
}

/// The UTC date and time a backup is stamped with.
#[derive(Debug, Clone, Copy, PartialEq, Eq, Structural)]
pub struct BackupStamp {
    pub year: i32,
    pub month: u8,
    pub day: u8,
    pub hour: u8,
    pub minute: u8,
    pub second: u8,
    pub nanosecond: u32,
}

/// The current UTC date and time (`time::OffsetDateTime::now_utc`). Nothing
/// is stated of the result: it depends on the clock.
#[verifier::external_body]
fn backup_stamp_now() -> (r: BackupStamp) {
    let now = time::OffsetDateTime::now_utc();
    BackupStamp {
        year: now.year(),
        month: u8::from(now.month()),
        day: now.day(),
        hour: now.hour(),
        minute: now.minute(),
        second: now.second(),
        nanosecond: now.nanosecond(),
    }
}

/// `v` in decimal, zero-padded to `width` digits.
pub open spec fn zero_padded(v: nat, width: nat) -> Seq<char> {
    pad_left(digits(v, 10), width, '0')
}

/// A year as `{:04}` writes it: zero-padded to four characters, a minus
/// sign counting as one of them.
pub open spec fn year_text(y: i32) -> Seq<char> {
    if y >= 0 {
        zero_padded(y as nat, 4)
    } else {
        "-"@ + zero_padded((-y) as nat, 3)
    }
}

/// A backup stamp: `YYYYMMDDThhmmss.nnnnnnnnnZ`.
pub open spec fn stamp_text(s: BackupStamp) -> Seq<char> {
    year_text(s.year) + zero_padded(s.month as nat, 2) + zero_padded(s.day as nat, 2) + "T"@ + zero_padded(s.hour as nat, 2)
        + zero_padded(s.minute as nat, 2) + zero_padded(s.second as nat, 2) + "."@ + zero_padded(s.nanosecond as nat, 9)
        + "Z"@
}

/// What is appended to an archive's path to name its backup: `.bak-`, the
/// stamp, and from the second attempt on a dash and the attempt number.
pub open spec fn spec_backup_suffix(s: BackupStamp, attempt: u16) -> Seq<char> {
    ".bak-"@ + stamp_text(s) + if attempt == 0 {
        Seq::empty()
    } else {
        "-"@ + digits(attempt as nat, 10)
    }
}

fn year_string(y: i32) -> (r: String)
    ensures
        r@ == year_text(y),
{
    if y >= 0 {
        fmt_radix(y as u64, 10, 4, '0')
    } else {
        let magnitude: u64 = if y == i32::MIN {
            2147483648
        } else {
            (-y) as u64
        };
        let d = fmt_radix(magnitude, 10, 3, '0');
        concat2("-", d.as_str())
    }
}

fn stamp_string(stamp: &BackupStamp) -> (r: String)
    ensures
        r@ == stamp_text(*stamp),
{
    let mut s = year_string(stamp.year);
    s.append(fmt_radix(stamp.month as u64, 10, 2, '0').as_str());
    s.append(fmt_radix(stamp.day as u64, 10, 2, '0').as_str());
    s.append("T");
    s.append(fmt_radix(stamp.hour as u64, 10, 2, '0').as_str());
    s.append(fmt_radix(stamp.minute as u64, 10, 2, '0').as_str());
    s.append(fmt_radix(stamp.second as u64, 10, 2, '0').as_str());
    s.append(".");
    s.append(fmt_radix(stamp.nanosecond as u64, 10, 9, '0').as_str());
    s.append("Z");
    s
}

/// What is appended to an archive's path to name its backup.
pub fn backup_suffix(stamp: &BackupStamp, attempt: u16) -> (r: String)
    ensures
        r@ == spec_backup_suffix(*stamp, attempt),
{
    let mut s = concat2(".bak-", stamp_string(stamp).as_str());
    if attempt != 0 {
        let n = concat2("-", fmt_radix(attempt as u64, 10, 0, '0').as_str());
        s.append(n.as_str());
    } else {
        assert(s@ =~= s@ + Seq::<char>::empty());
    }
    s
}

/// What is appended to an archive's path to name its backup, stamped with
/// the current time.
pub fn backup_suffix_now(attempt: u16) -> (r: String)
    ensures
        exists|stamp: BackupStamp| r@ == #[trigger] spec_backup_suffix(stamp, attempt),
{
    let stamp = backup_stamp_now();
    backup_suffix(&stamp, attempt)
}

/// How many backup paths are tried before giving up.
pub const BACKUP_ATTEMPTS: u16 = 1000;

/// How creating a fresh backup file at one candidate path turned out.
#[derive(Debug, Clone, Copy, PartialEq, Eq, Structural)]
pub enum BackupAttempt {
    /// The file was created.
    Created,
    /// A file of that name is already there.
    AlreadyExists,
    /// Creating it failed otherwise.
    Failed,
}

/// What to do after a backup attempt.
#[derive(Debug, Clone, Copy, PartialEq, Eq, Structural)]
pub enum BackupNext {
    /// Write the backup into the file just created.
    Write,
    /// Try the candidate path of this attempt number.
    Retry(u16),
    /// Report that no unused backup path was found.
    GiveUp,
    /// Report the failure to create the file.
    Fail,
}

/// Decides what follows attempt number `attempt` at creating a backup:
/// write into a created file, report any other failure, and when the name
/// is taken try the next candidate, giving up after the last one.
pub fn backup_next(attempt: u16, outcome: BackupAttempt) -> (r: BackupNext)
    requires
        attempt < BACKUP_ATTEMPTS,
    ensures
        match outcome {
            BackupAttempt::Created => r == BackupNext::Write,
            BackupAttempt::Failed => r == BackupNext::Fail,
            BackupAttempt::AlreadyExists => if attempt + 1 < BACKUP_ATTEMPTS {
                r == BackupNext::Retry((attempt + 1) as u16)
            } else {
                r == BackupNext::GiveUp
            },
        },
{
    match outcome {
        BackupAttempt::Created => BackupNext::Write,
        BackupAttempt::Failed => BackupNext::Fail,
        BackupAttempt::AlreadyExists => if attempt + 1 < BACKUP_ATTEMPTS {
            BackupNext::Retry(attempt + 1)
        } else {
            BackupNext::GiveUp
        },
    }
}

/// A patch entry that was applied leaves its target reading as the source
/// file's contents (a replace) or absent (a delete), at the expression the
/// entry addresses.
pub proof fn law_applied_entry_reads_back(
    current: Seq<u8>,
    segs: Seq<Seq<char>>,
    entry: PatchEntry,
    source: Option<SourceFile>,
    exts: Set<Seq<char>>,
    after: PatchProgress,
    before: PatchProgress,
)
    requires
        step_outcome(current, segs, entry, source, exts, Ok(after), before),
    ensures
        entry.action is Replace ==> (source matches Some(f) && spec_get(after.current@, segs, exts) == Ok::<Seq<u8>, ErrView>(
            f.bytes@,
        )),
        entry.action is Delete ==> spec_get(after.current@, segs, exts) == Err::<Seq<u8>, ErrView>(
            ErrView::TargetEntryNotFound,
        ),
{
    match entry.action {
        Action::Replace => {
            let f = source->0;
            let opts = entry_options(entry);
            let st = source_dos_time(f.mtime);
            let now = choose|now: Option<DosTime>|
                (!(opts.mtime is Now) ==> now is None) && #[trigger] rewritten(
                    current,
                    segs,
                    MutationView::Replace { data: f.bytes@, opts, source_mtime: st, now },
                    exts,
                    after.current@,
                    true,
                );
            law_replace_then_get(current, segs, f.bytes@, opts, st, now, exts, after.current@);
        },
        Action::Delete => {
            law_delete_then_get(current, segs, exts, after.current@);
        },
    }
}

/// A replace entry that was applied leaves its target, at the end of its
/// path, with the method the entry asks for: code 0 (stored) for `Stored`,
/// code 8 (deflated) for `Deflated`, the target's previous method for
/// `Inherit`; and, when it asks to keep the time, with the previous time.
pub proof fn law_applied_entry_method(
    current: Seq<u8>,
    segs: Seq<Seq<char>>,
    entry: PatchEntry,
    source: Option<SourceFile>,
    exts: Set<Seq<char>>,
    after: PatchProgress,
    before: PatchProgress,
)
    requires
        step_outcome(current, segs, entry, source, exts, Ok(after), before),
        entry.action is Replace,
    ensures
        spec_descend(current, segs.drop_last(), exts) matches Ok(si) ==> (spec_descend(after.current@, segs.drop_last(), exts)
            matches Ok(so) ==> (entry_meta(so, segs.last()) matches Some(mo) ==> {
            &&& entry.method is Stored ==> mo.method == 0
            &&& entry.method is Deflated ==> mo.method == 8
            &&& entry.method is Inherit ==> (entry_meta(si, segs.last()) matches Some(mi) && mo.method == mi.method)
            &&& entry.mtime is Keep ==> (entry_meta(si, segs.last()) matches Some(mi) && (mi.mtime is Some ==> mo.mtime
                == mi.mtime))
        })),
{
    let f = source->0;
    let opts = entry_options(entry);
    let st = source_dos_time(f.mtime);
    let now = choose|now: Option<DosTime>|
        (!(opts.mtime is Now) ==> now is None) && #[trigger] rewritten(
            current,
            segs,
            MutationView::Replace { data: f.bytes@, opts, source_mtime: st, now },
            exts,
            after.current@,
            true,
        );
    law_replaced_entry_method(current, segs, f.bytes@, opts, st, now, exts, after.current@);
}

} // verus!
