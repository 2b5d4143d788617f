//! What rewriting an archive promises, stated over the abstract content of
//! the archives before and after.
use vstd::prelude::*;

use crate::archive::{
    lemma_named_index, named_index, rewritten, same_entry, spec_descend, spec_get, spec_new_entry_options,
    spec_read_entry, spec_resolve_method, MutationView, ReplaceOptions,
};
use crate::config::spec_is_archive_name;
use crate::error::ErrView;
use crate::patch_spec::{MethodPolicy, MtimePolicy};
use crate::zipio::{directory_wf, dos_time_kept, dos_time_normal, kept_meta, zip_directory, DosTime, InfoView, StoredEntry};

verus! {

/// Reading along more than one segment goes through the archive the first
/// segment names.
proof fn lemma_get_through(b: Seq<u8>, segs: Seq<Seq<char>>, exts: Set<Seq<char>>, inner: Seq<u8>)
    requires
        segs.len() > 1,
        spec_read_entry(b, segs[0]) == Ok::<Seq<u8>, ErrView>(inner),
        spec_is_archive_name(exts, segs[0]),
    ensures
        spec_get(b, segs, exts) == spec_get(inner, segs.skip(1), exts),
{
    let dl = segs.drop_last();
    assert(dl[0] == segs[0]);
    assert(dl.skip(1) =~= segs.skip(1).drop_last());
    assert(segs.skip(1).last() == segs.last());
}

/// No entry of `es` is called `n`.
proof fn lemma_no_entry_named(es: Seq<StoredEntry>, n: Seq<char>)
    requires
        forall|k: int| 0 <= k < es.len() ==> (#[trigger] es[k]).name != n,
    ensures
        named_index(es, n) is None,
{
}

/// Replacing, when the target was found, makes the addressed entry read
/// back as the new contents.
pub proof fn law_replace_then_get(
    src: Seq<u8>,
    segs: Seq<Seq<char>>,
    data: Seq<u8>,
    opts: ReplaceOptions,
    source_mtime: Option<DosTime>,
    now: Option<DosTime>,
    exts: Set<Seq<char>>,
    out: Seq<u8>,
)
    requires
        rewritten(src, segs, MutationView::Replace { data, opts, source_mtime, now }, exts, out, true),
    ensures
        spec_get(out, segs, exts) == Ok::<Seq<u8>, ErrView>(data),
    decreases segs.len(),
{
    let es = zip_directory(src).unwrap();
    let os = zip_directory(out).unwrap();
    let j = named_index(es, segs[0]).unwrap();
    lemma_named_index(os, segs[0], j);
    if segs.len() == 1 {
        assert(segs.drop_last() =~= Seq::<Seq<char>>::empty());
    } else {
        let n2 = os[j].data.unwrap();
        law_replace_then_get(es[j].data.unwrap(), segs.skip(1), data, opts, source_mtime, now, exts, n2);
        lemma_get_through(out, segs, exts, n2);
    }
}

/// Deleting, when the target was found, leaves nothing to read at the
/// addressed path.
pub proof fn law_delete_then_get(src: Seq<u8>, segs: Seq<Seq<char>>, exts: Set<Seq<char>>, out: Seq<u8>)
    requires
        rewritten(src, segs, MutationView::Delete, exts, out, true),
    ensures
        spec_get(out, segs, exts) == Err::<Seq<u8>, ErrView>(ErrView::TargetEntryNotFound),
    decreases segs.len(),
{
    let es = zip_directory(src).unwrap();
    let os = zip_directory(out).unwrap();
    let j = named_index(es, segs[0]).unwrap();
    if segs.len() == 1 {
        assert(segs.drop_last() =~= Seq::<Seq<char>>::empty());
        assert(segs.last() == segs[0]);
        assert forall|k: int| 0 <= k < os.len() implies (#[trigger] os[k]).name != segs[0] by {
            if k < j {
                assert(same_entry(os[k], es[k]));
            } else {
                assert(same_entry(os[k], es[k + 1]));
            }
        }
        lemma_no_entry_named(os, segs[0]);
    } else {
        lemma_named_index(os, segs[0], j);
        let n2 = os[j].data.unwrap();
        law_delete_then_get(es[j].data.unwrap(), segs.skip(1), exts, n2);
        lemma_get_through(out, segs, exts, n2);
    }
}

/// The metadata of the entry called `n` in the archive `bytes`, when there
/// is one and it can be opened.
pub open spec fn entry_meta(bytes: Seq<u8>, n: Seq<char>) -> Option<InfoView> {
    match zip_directory(bytes) {
        None => None,
        Some(es) => match named_index(es, n) {
            None => None,
            Some(i) => es[i].info,
        },
    }
}

/// Rewriting leaves every other entry of the top archive as it was: an
/// entry whose name is not the first segment reads the same afterwards
/// (when it could be read before), a name absent before stays absent, and
/// the entry keeps its method, sizes, checksum and modification time.
pub proof fn law_rewrite_keeps_other_entries(
    src: Seq<u8>,
    segs: Seq<Seq<char>>,
    m: MutationView,
    exts: Set<Seq<char>>,
    out: Seq<u8>,
    changed: bool,
    n: Seq<char>,
)
    requires
        rewritten(src, segs, m, exts, out, changed),
        n != segs[0],
        spec_read_entry(src, n) != Err::<Seq<u8>, ErrView>(ErrView::Zip),
    ensures
        spec_read_entry(out, n) == spec_read_entry(src, n),
        entry_meta(out, n) matches Some(m) ==> (entry_meta(src, n) matches Some(x) && kept_meta(m, x)),
{
    let es = zip_directory(src).unwrap();
    let os = zip_directory(out).unwrap();
    let ji = named_index(es, segs[0]);
    let del = segs.len() == 1 && m is Delete && ji is Some;
    // The entry of `os` at position `p` comes from the entry of `es` at `from(p)`.
    let from = |p: int| if del && ji.unwrap() <= p { p + 1 } else { p };
    assert forall|p: int| 0 <= p < os.len() && !(ji is Some && !del && p == ji.unwrap()) implies same_entry(
        #[trigger] os[p],
        es[from(p)],
    ) by {}
    assert forall|p: int| 0 <= p < os.len() && ji is Some && !del && p == ji.unwrap() implies (#[trigger] os[p]).name
        == segs[0] by {}
    match named_index(es, n) {
        Some(k) => {
            assert(es[k].name == n);
            assert(es[k].data is Some);
            let p = if del && ji.unwrap() < k { k - 1 } else { k };
            if ji is Some {
                assert(es[ji.unwrap()].name == segs[0]);
                assert(k != ji.unwrap());
            }
            assert(from(p) == k);
            assert(same_entry(os[p], es[k]));
            lemma_named_index(os, n, p);
        },
        None => {
            assert forall|p: int| 0 <= p < os.len() implies (#[trigger] os[p]).name != n by {
                if !(ji is Some && !del && p == ji.unwrap()) {
                    assert(same_entry(os[p], es[from(p)]));
                    assert(es[from(p)].name != n);
                }
            }
            lemma_no_entry_named(os, n);
        },
    }
}

/// A rewrite that found nothing to change leaves every entry of the top
/// archive reading as it did (when it could be read before).
pub proof fn law_unchanged_when_not_found(
    src: Seq<u8>,
    segs: Seq<Seq<char>>,
    m: MutationView,
    exts: Set<Seq<char>>,
    out: Seq<u8>,
    n: Seq<char>,
)
    requires
        rewritten(src, segs, m, exts, out, false),
        spec_read_entry(src, n) != Err::<Seq<u8>, ErrView>(ErrView::Zip),
    ensures
        spec_read_entry(out, n) == spec_read_entry(src, n),
{
    let es = zip_directory(src).unwrap();
    let os = zip_directory(out).unwrap();
    assert forall|p: int| 0 <= p < os.len() implies same_entry(#[trigger] os[p], es[p]) by {}
    match named_index(es, n) {
        Some(k) => {
            assert(same_entry(os[k], es[k]));
            lemma_named_index(os, n, k);
        },
        None => {
            assert forall|p: int| 0 <= p < os.len() implies (#[trigger] os[p]).name != n by {
                assert(same_entry(os[p], es[p]));
            }
            lemma_no_entry_named(os, n);
        },
    }
}

/// Replacing with the method inherited (and rewriting a nested archive,
/// which always inherits) keeps the compression method of the rewritten
/// top-level entry, as far as it can be opened.
pub proof fn law_inherit_keeps_method(
    src: Seq<u8>,
    segs: Seq<Seq<char>>,
    m: MutationView,
    exts: Set<Seq<char>>,
    out: Seq<u8>,
)
    requires
        rewritten(src, segs, m, exts, out, true),
        segs.len() > 1 || (m matches MutationView::Replace { opts, .. } && opts.method == MethodPolicy::Inherit),
    ensures
        entry_meta(out, segs[0]) matches Some(mo) ==> (entry_meta(src, segs[0]) matches Some(mi) && mo.method == mi.method),
{
    let es = zip_directory(src).unwrap();
    let os = zip_directory(out).unwrap();
    let j = named_index(es, segs[0]).unwrap();
    lemma_named_index(os, segs[0], j);
}

/// Rewriting along a path keeps, at every level of it, the compression
/// method of the entry the path goes through: each nested archive is
/// written back with its own method, and a replaced entry whose options
/// inherit the method keeps it as well.
pub proof fn law_inherit_keeps_method_along_path(
    src: Seq<u8>,
    segs: Seq<Seq<char>>,
    m: MutationView,
    exts: Set<Seq<char>>,
    out: Seq<u8>,
    k: int,
)
    requires
        rewritten(src, segs, m, exts, out, true),
        0 <= k < segs.len(),
        k == segs.len() - 1 ==> (m matches MutationView::Replace { opts, .. } && opts.method == MethodPolicy::Inherit),
    ensures
        spec_descend(src, segs.take(k), exts) matches Ok(si) ==> (spec_descend(out, segs.take(k), exts) matches Ok(so)
            ==> (entry_meta(so, segs[k]) matches Some(mo) ==> (entry_meta(si, segs[k]) matches Some(mi) && mo.method
            == mi.method))),
    decreases k,
{
    if k == 0 {
        assert(segs.take(0) =~= Seq::<Seq<char>>::empty());
        law_inherit_keeps_method(src, segs, m, exts, out);
    } else {
        let es = zip_directory(src).unwrap();
        let os = zip_directory(out).unwrap();
        let j = named_index(es, segs[0]).unwrap();
        lemma_named_index(os, segs[0], j);
        let d = es[j].data.unwrap();
        let n2 = os[j].data.unwrap();
        assert(spec_read_entry(src, segs[0]) == Ok::<Seq<u8>, ErrView>(d));
        assert(spec_read_entry(out, segs[0]) == Ok::<Seq<u8>, ErrView>(n2));
        let t = segs.take(k);
        assert(t[0] == segs[0]);
        assert(t.skip(1) =~= segs.skip(1).take(k - 1));
        assert(segs.skip(1)[k - 1] == segs[k]);
        law_inherit_keeps_method_along_path(d, segs.skip(1), m, exts, n2, k - 1);
    }
}

/// The entry a replace wrote, at the end of its path, reads back with the
/// method its options resolve to from the replaced entry's, and with the
/// time they pick as the zip crate keeps it.
proof fn lemma_replaced_target(
    src: Seq<u8>,
    segs: Seq<Seq<char>>,
    data: Seq<u8>,
    opts: ReplaceOptions,
    source_mtime: Option<DosTime>,
    now: Option<DosTime>,
    exts: Set<Seq<char>>,
    out: Seq<u8>,
)
    requires
        rewritten(src, segs, MutationView::Replace { data, opts, source_mtime, now }, exts, out, true),
    ensures
        segs.len() > 0,
        spec_descend(src, segs.drop_last(), exts) matches Ok(si) ==> (spec_descend(out, segs.drop_last(), exts) matches Ok(so)
            ==> (entry_meta(so, segs.last()) matches Some(mo) ==> (entry_meta(si, segs.last()) matches Some(mi) && mo.method
            == spec_resolve_method(mi.method, opts) && (mi.mtime matches Some(t) ==> dos_time_normal(t))
            && (spec_new_entry_options(mi, opts, source_mtime, now).mtime matches Some(t) ==> mo.mtime == Some(
            dos_time_kept(t),
        ))))),
    decreases segs.len(),
{
    let es = zip_directory(src).unwrap();
    let os = zip_directory(out).unwrap();
    let j = named_index(es, segs[0]).unwrap();
    lemma_named_index(os, segs[0], j);
    if segs.len() == 1 {
        assert(segs.drop_last() =~= Seq::<Seq<char>>::empty());
        assert(segs.last() == segs[0]);
    } else {
        let d = es[j].data.unwrap();
        let n2 = os[j].data.unwrap();
        assert(spec_read_entry(src, segs[0]) == Ok::<Seq<u8>, ErrView>(d));
        assert(spec_read_entry(out, segs[0]) == Ok::<Seq<u8>, ErrView>(n2));
        let t = segs.drop_last();
        assert(t[0] == segs[0]);
        assert(t.skip(1) =~= segs.skip(1).drop_last());
        assert(segs.skip(1).last() == segs.last());
        lemma_replaced_target(d, segs.skip(1), data, opts, source_mtime, now, exts, n2);
    }
}

/// A replaced entry reads back, at the end of its path, with the method its
/// options ask for: code 0 (stored) for `Stored`, code 8 (deflated) for
/// `Deflated`, the replaced entry's own method for `Inherit`; and, when
/// they ask to keep the time, with the replaced entry's time.
pub proof fn law_replaced_entry_method(
    src: Seq<u8>,
    segs: Seq<Seq<char>>,
    data: Seq<u8>,
    opts: ReplaceOptions,
    source_mtime: Option<DosTime>,
    now: Option<DosTime>,
    exts: Set<Seq<char>>,
    out: Seq<u8>,
)
    requires
        rewritten(src, segs, MutationView::Replace { data, opts, source_mtime, now }, exts, out, true),
    ensures
        spec_descend(src, segs.drop_last(), exts) matches Ok(si) ==> (spec_descend(out, segs.drop_last(), exts) matches Ok(so)
            ==> (entry_meta(so, segs.last()) matches Some(mo) ==> {
            &&& opts.method is Stored ==> mo.method == 0
            &&& opts.method is Deflated ==> mo.method == 8
            &&& opts.method is Inherit ==> (entry_meta(si, segs.last()) matches Some(mi) && mo.method == mi.method)
            &&& opts.mtime is Keep ==> (entry_meta(si, segs.last()) matches Some(mi) && (mi.mtime is Some ==> mo.mtime
                == mi.mtime))
        })),
{
    lemma_replaced_target(src, segs, data, opts, source_mtime, now, exts, out);
}

} // verus!
