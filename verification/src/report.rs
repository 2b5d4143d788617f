//! The text the command-line front end prints and reads: listings,
//! differences, summaries of drafts and applications, and answers to its
//! confirmation prompt.
use vstd::prelude::*;

use crate::archive::{listed_views, ListedEntry, ListedView};
use crate::diff::{diff_views, DiffEntry, DiffKind, DiffView};
use crate::draft::DraftSummary;
use crate::config::{trim_white, trim_white_chars};
use crate::text::{chars_of, concat2, digits, fmt_radix, pad_left, pad_left_str, seq_eq};

verus! {

/// `v` in decimal.
pub open spec fn dec(v: nat) -> Seq<char> {
    digits(v, 10)
}

/// The header line of a listing.
pub open spec fn listing_header() -> Seq<char> {
    pad_left("Length"@, 12, ' ') + " "@ + pad_left("Compressed"@, 12, ' ') + "  Name"@
}

/// The line of a listing for one entry: sizes right-aligned, then the
/// entry's expression.
pub open spec fn listing_line(e: ListedView) -> Seq<char> {
    pad_left(dec(e.size as nat), 12, ' ') + " "@ + pad_left(dec(e.compressed_size as nat), 12, ' ') + "  "@ + e.expr
}

/// The lines of a listing: a header, then one line per entry.
pub open spec fn spec_listing(items: Seq<ListedView>) -> Seq<Seq<char>> {
    seq![listing_header()] + items.map_values(|e: ListedView| listing_line(e))
}

/// The lines printing a listing.
pub fn listing_lines(items: &[ListedEntry]) -> (r: Vec<String>)
    ensures
        crate::path_expr::views(r@) == spec_listing(listed_views(items@)),
{
    let mut header = pad_left_str("Length", 12);
    header.append(" ");
    let compressed = pad_left_str("Compressed", 12);
    header.append(compressed.as_str());
    header.append("  Name");
    let mut out: Vec<String> = Vec::new();
    out.push(header);
    let ghost lv = listed_views(items@);
    let n = items.len();
    assert(crate::path_expr::views(out@) =~= seq![listing_header()] + lv.take(0).map_values(|e: ListedView| listing_line(e)));
    for i in 0..n
        invariant
            n == items@.len(),
            lv == listed_views(items@),
            crate::path_expr::views(out@) == seq![listing_header()] + lv.take(i as int).map_values(|e: ListedView| listing_line(e)),
    {
        let item = &items[i];
        let mut line = fmt_radix(item.size, 10, 12, ' ');
        line.append(" ");
        let cs = fmt_radix(item.compressed_size, 10, 12, ' ');
        line.append(cs.as_str());
        line.append("  ");
        line.append(item.expr.as_str());
        let ghost before = crate::path_expr::views(out@);
        out.push(line);
        assert(lv[i as int] == item@);
        assert(crate::path_expr::views(out@) =~= before.push(listing_line(item@)));
        assert(lv.take(i + 1).map_values(|e: ListedView| listing_line(e)) =~= lv.take(i as int).map_values(
            |e: ListedView| listing_line(e),
        ).push(listing_line(item@)));
    }
    assert(lv.take(n as int) =~= lv);
    out
}

/// The lines reporting one difference: a tag and the path, then for a
/// modification whether the contents changed and each metadata change.
pub open spec fn diff_lines(d: DiffView) -> Seq<Seq<char>> {
    match d.kind {
        DiffKind::Added => seq!["A "@ + d.path],
        DiffKind::Removed => seq!["D "@ + d.path],
        DiffKind::Modified => seq!["M "@ + d.path] + (if d.content_changed {
            seq!["  content: changed"@]
        } else {
            Seq::empty()
        }) + d.metadata_changes.map_values(|c: Seq<char>| "  meta: "@ + c),
    }
}

/// How many differences of kind `k` there are.
pub open spec fn count_kind(ds: Seq<DiffView>, k: DiffKind) -> nat
    decreases ds.len(),
{
    if ds.len() == 0 {
        0
    } else {
        count_kind(ds.drop_last(), k) + if ds.last().kind == k {
            1nat
        } else {
            0nat
        }
    }
}

/// The lines of all differences, in order.
pub open spec fn all_diff_lines(ds: Seq<DiffView>) -> Seq<Seq<char>>
    decreases ds.len(),
{
    if ds.len() == 0 {
        Seq::empty()
    } else {
        all_diff_lines(ds.drop_last()) + diff_lines(ds.last())
    }
}

/// The closing line of a difference report.
pub open spec fn diff_summary_line(ds: Seq<DiffView>) -> Seq<char> {
    "Summary: added="@ + dec(count_kind(ds, DiffKind::Added)) + ", removed="@ + dec(count_kind(ds, DiffKind::Removed))
        + ", modified="@ + dec(count_kind(ds, DiffKind::Modified))
}

/// The lines of a difference report: a single line when there is no
/// difference; else each difference's lines and a summary of the counts.
pub open spec fn spec_diff_report(ds: Seq<DiffView>) -> Seq<Seq<char>> {
    if ds.len() == 0 {
        seq!["No differences."@]
    } else {
        all_diff_lines(ds) + seq![diff_summary_line(ds)]
    }
}

proof fn lemma_count_bounded(ds: Seq<DiffView>, k: DiffKind)
    ensures
        count_kind(ds, k) <= ds.len(),
    decreases ds.len(),
{
    if ds.len() > 0 {
        lemma_count_bounded(ds.drop_last(), k);
    }
}

/// The lines printing a difference report.
pub fn diff_report_lines(items: &[DiffEntry]) -> (r: Vec<String>)
    ensures
        crate::path_expr::views(r@) == spec_diff_report(diff_views(items@)),
{
    let mut out: Vec<String> = Vec::new();
    if items.len() == 0 {
        out.push("No differences.".to_string());
        assert(crate::path_expr::views(out@) =~= seq!["No differences."@]);
        return out;
    }
    let ghost dv = diff_views(items@);
    let mut added: usize = 0;
    let mut removed: usize = 0;
    let mut modified: usize = 0;
    let n = items.len();
    assert(dv.take(0) =~= Seq::<DiffView>::empty());
    assert(crate::path_expr::views(out@) =~= Seq::<Seq<char>>::empty());
    for i in 0..n
        invariant
            n == items@.len(),
            dv == diff_views(items@),
            crate::path_expr::views(out@) == all_diff_lines(dv.take(i as int)),
            added == count_kind(dv.take(i as int), DiffKind::Added),
            removed == count_kind(dv.take(i as int), DiffKind::Removed),
            modified == count_kind(dv.take(i as int), DiffKind::Modified),
    {
        let item = &items[i];
        let ghost t1 = dv.take(i + 1);
        assert(t1.drop_last() =~= dv.take(i as int));
        assert(t1.last() == item@);
        proof {
            lemma_count_bounded(dv.take(i as int), DiffKind::Added);
            lemma_count_bounded(dv.take(i as int), DiffKind::Removed);
            lemma_count_bounded(dv.take(i as int), DiffKind::Modified);
        }
        let ghost before = crate::path_expr::views(out@);
        match item.kind {
            DiffKind::Added => {
                added = added + 1;
                out.push(concat2("A ", item.path.as_str()));
                assert(crate::path_expr::views(out@) =~= before + diff_lines(item@));
            },
            DiffKind::Removed => {
                removed = removed + 1;
                out.push(concat2("D ", item.path.as_str()));
                assert(crate::path_expr::views(out@) =~= before + diff_lines(item@));
            },
            DiffKind::Modified => {
                modified = modified + 1;
                out.push(concat2("M ", item.path.as_str()));
                if item.content_changed {
                    out.push("  content: changed".to_string());
                }
                let ghost mid = crate::path_expr::views(out@);
                let m = item.metadata_changes.len();
                let ghost mc = crate::path_expr::views(item.metadata_changes@);
                for j in 0..m
                    invariant
                        m == item.metadata_changes@.len(),
                        mc == crate::path_expr::views(item.metadata_changes@),
                        crate::path_expr::views(out@) == mid + mc.take(j as int).map_values(|c: Seq<char>| "  meta: "@ + c),
                {
                    let ghost b2 = crate::path_expr::views(out@);
                    out.push(concat2("  meta: ", item.metadata_changes[j].as_str()));
                    assert(mc.take(j + 1).map_values(|c: Seq<char>| "  meta: "@ + c) =~= mc.take(j as int).map_values(
                        |c: Seq<char>| "  meta: "@ + c,
                    ).push("  meta: "@ + mc[j as int]));
                    assert(crate::path_expr::views(out@) =~= b2.push("  meta: "@ + mc[j as int]));
                }
                assert(mc.take(m as int) =~= mc);
                assert(crate::path_expr::views(out@) =~= before + diff_lines(item@));
            },
        }
    }
    assert(dv.take(n as int) =~= dv);
    let mut summary = concat2("Summary: added=", fmt_radix(added as u64, 10, 0, '0').as_str());
    summary.append(", removed=");
    summary.append(fmt_radix(removed as u64, 10, 0, '0').as_str());
    summary.append(", modified=");
    summary.append(fmt_radix(modified as u64, 10, 0, '0').as_str());
    let ghost before = crate::path_expr::views(out@);
    out.push(summary);
    assert(crate::path_expr::views(out@) =~= before.push(diff_summary_line(dv)));
    out
}

/// The line announcing a written draft.
pub open spec fn spec_draft_line(output: Seq<char>, s: DraftSummary) -> Seq<char> {
    "draft written: "@ + output + " (matched="@ + dec(s.matched as nat) + ", unresolved="@ + dec(s.unresolved as nat) + ")"@
}

/// The line announcing a written draft, `output` being its path.
pub fn draft_line(output: &str, summary: DraftSummary) -> (r: String)
    ensures
        r@ == spec_draft_line(output@, summary),
{
    let mut s = concat2("draft written: ", output);
    s.append(" (matched=");
    s.append(fmt_radix(summary.matched as u64, 10, 0, '0').as_str());
    s.append(", unresolved=");
    s.append(fmt_radix(summary.unresolved as u64, 10, 0, '0').as_str());
    s.append(")");
    s
}

/// The line announcing an applied (or rehearsed) patch.
pub open spec fn spec_apply_line(dry_run: bool, replaced: nat, deleted: nat) -> Seq<char> {
    "patch "@ + (if dry_run {
        "dry-run"@
    } else {
        "applied"@
    }) + ": replaced="@ + dec(replaced) + ", deleted="@ + dec(deleted)
}

/// The line announcing an applied (or rehearsed) patch.
pub fn apply_line(dry_run: bool, replaced: usize, deleted: usize) -> (r: String)
    ensures
        r@ == spec_apply_line(dry_run, replaced as nat, deleted as nat),
{
    let mut s = if dry_run {
        concat2("patch ", "dry-run")
    } else {
        concat2("patch ", "applied")
    };
    s.append(": replaced=");
    s.append(fmt_radix(replaced as u64, 10, 0, '0').as_str());
    s.append(", deleted=");
    s.append(fmt_radix(deleted as u64, 10, 0, '0').as_str());
    s
}

/// The line announcing a fuzzy replacement that was applied.
pub open spec fn spec_applied_line(replaced: nat) -> Seq<char> {
    "applied: replaced="@ + dec(replaced)
}

/// The line announcing a fuzzy replacement that was applied.
pub fn applied_line(replaced: usize) -> (r: String)
    ensures
        r@ == spec_applied_line(replaced as nat),
{
    concat2("applied: replaced=", fmt_radix(replaced as u64, 10, 0, '0').as_str())
}

/// Whether an answer to a `[y/N]` prompt accepts: `y` or `yes`, white
/// space around it ignored.
pub open spec fn spec_confirms(answer: Seq<char>) -> bool {
    trim_white(answer) == seq!['y'] || trim_white(answer) == seq!['y', 'e', 's']
}

/// Whether an answer to a `[y/N]` prompt accepts.
pub fn confirms(answer: &str) -> (r: bool)
    ensures
        r == spec_confirms(answer@),
{
    let v = chars_of(answer);
    let t = trim_white_chars(v.as_slice());
    let y = vec!['y'];
    let yes = vec!['y', 'e', 's'];
    assert(y@ =~= seq!['y']);
    assert(yes@ =~= seq!['y', 'e', 's']);
    seq_eq(t.as_slice(), y.as_slice()) || seq_eq(t.as_slice(), yes.as_slice())
}

} // verus!
