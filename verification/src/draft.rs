//! Drafting patch specifications: matching candidate source files to the
//! entries of an archive, and extending an existing specification.
use vstd::prelude::*;

use crate::archive::{list_recursive, listed_views, spec_list_recursive, ListedEntry, ListedView};
use crate::config::Config;
use crate::error::{ErrView, ZiprError};
use crate::path_expr::{normalize_path_for_zip, views};
use crate::patch_spec::{
    entry_problem, entry_views, first_problem, spec_validate, unresolved_views, Action, CommentPolicy, EntryView,
    LevelName, LevelPolicy, MethodPolicy, MtimePolicy, PatchEntry, PatchSpec, SpecView, Unresolved, UnresolvedView,
};
use crate::text::{chars_of, slashes_forward, str_eq, string_of};

verus! {

/// A candidate source file: its path, its path relative to the directory
/// it was found in, and its file name, all with forward slashes.
#[derive(Debug, Clone)]
pub struct DraftInput {
    pub source_norm: String,
    pub rel_norm: String,
    pub base: String,
}

/// The abstract content of a [`DraftInput`].
pub struct InputView {
    pub source: Seq<char>,
    pub rel: Seq<char>,
    pub base: Seq<char>,
}

impl View for DraftInput {
    type V = InputView;

    open spec fn view(&self) -> InputView {
        InputView { source: self.source_norm@, rel: self.rel_norm@, base: self.base@ }
    }
}

/// The views of a sequence of inputs.
pub open spec fn input_views(v: Seq<DraftInput>) -> Seq<InputView> {
    v.map_values(|i: DraftInput| i@)
}

/// How many entries and unresolved sources a drafted specification holds.
#[derive(Debug, Clone, Copy, PartialEq, Eq, Structural)]
pub struct DraftSummary {
    pub matched: usize,
    pub unresolved: usize,
}

/// What follows the first `!/` of `s`, if it holds one.
pub open spec fn after_first_bang(s: Seq<char>) -> Option<Seq<char>>
    decreases s.len(),
{
    if s.len() < 2 {
        None
    } else if s[0] == '!' && s[1] == '/' {
        Some(s.skip(2))
    } else {
        after_first_bang(s.skip(1))
    }
}

/// A target without its root archive: what follows its first `!/`, or the
/// whole target when it has none.
pub open spec fn spec_strip_root(t: Seq<char>) -> Seq<char> {
    match after_first_bang(t) {
        Some(r) => r,
        None => t,
    }
}

/// The path of a listed entry below its root archive: what follows the
/// first `!/` of its expression, empty when there is none.
pub open spec fn rel_of(expr: Seq<char>) -> Seq<char> {
    match after_first_bang(expr) {
        Some(r) => r,
        None => Seq::empty(),
    }
}

/// What follows the last `/` of `s` (all of `s` when it has none).
pub open spec fn base_of(s: Seq<char>) -> Seq<char>
    decreases s.len(),
{
    if s.len() == 0 {
        s
    } else if s.last() == '/' {
        Seq::empty()
    } else {
        base_of(s.drop_last()).push(s.last())
    }
}

/// The characters after the first `!/` of `v`, if any.
fn after_bang_chars(v: &Vec<char>) -> (r: Option<Vec<char>>)
    ensures
        match after_first_bang(v@) {
            Some(t) => r matches Some(x) && x@ == t,
            None => r is None,
        },
{
    let n = v.len();
    let mut i: usize = 0;
    assert(v@.skip(0) =~= v@);
    while i < n && i + 1 < n
        invariant
            n == v@.len(),
            i <= n,
            after_first_bang(v@) == after_first_bang(v@.skip(i as int)),
        decreases n - i,
    {
        if v[i] == '!' && v[i + 1] == '/' {
            let mut out: Vec<char> = Vec::new();
            let mut k = i + 2;
            while k < n
                invariant
                    n == v@.len(),
                    i + 2 <= k <= n,
                    out@ == v@.subrange(i + 2, k as int),
                decreases n - k,
            {
                out.push(v[k]);
                k = k + 1;
            }
            assert(v@.skip(i as int).skip(2) =~= v@.subrange(i + 2, n as int));
            return Some(out);
        }
        assert(v@.skip(i as int).skip(1) =~= v@.skip(i + 1));
        i = i + 1;
    }
    None
}

/// A target without its root archive: what follows its first `!/`, or the
/// whole target when it has none.
pub fn strip_root_from_target(target: &str) -> (r: String)
    ensures
        r@ == spec_strip_root(target@),
{
    let v = chars_of(target);
    match after_bang_chars(&v) {
        Some(t) => string_of(&t),
        None => target.to_owned(),
    }
}

/// What follows the last `/` of a character vector.
fn base_chars(v: &Vec<char>) -> (r: Vec<char>)
    ensures
        r@ == base_of(v@),
{
    let n = v.len();
    let mut j = n;
    assert(v@.take(n as int) =~= v@);
    assert(v@.subrange(n as int, n as int) =~= Seq::<char>::empty());
    while j > 0 && v[j - 1] != '/'
        invariant
            n == v@.len(),
            j <= n,
            base_of(v@) == base_of(v@.take(j as int)) + v@.subrange(j as int, n as int),
        decreases j,
    {
        proof {
            let t = v@.take(j as int);
            assert(t.drop_last() =~= v@.take(j - 1));
            assert(t.last() == v@[j - 1]);
            assert(base_of(t) == base_of(v@.take(j - 1)).push(v@[j - 1]));
            assert(base_of(v@.take(j - 1)).push(v@[j - 1]) + v@.subrange(j as int, n as int) =~= base_of(v@.take(j - 1))
                + v@.subrange(j - 1, n as int));
        }
        j = j - 1;
    }
    proof {
        if j > 0 {
            assert(v@.take(j as int).last() == v@[j - 1]);
        }
        assert(base_of(v@.take(j as int)) =~= Seq::<char>::empty());
    }
    let mut out: Vec<char> = Vec::new();
    let mut k = j;
    while k < n
        invariant
            n == v@.len(),
            j <= k <= n,
            out@ == v@.subrange(j as int, k as int),
        decreases n - k,
    {
        out.push(v[k]);
        k = k + 1;
    }
    assert(base_of(v@) =~= out@);
    out
}

/// The expression of the last of the first `i` listed entries whose path
/// below the root is `rel` (never empty).
pub open spec fn last_full(listed: Seq<ListedView>, rel: Seq<char>, i: int) -> Option<Seq<char>>
    decreases i,
{
    if i <= 0 {
        None
    } else if rel.len() > 0 && rel_of(listed[i - 1].expr) == rel {
        Some(listed[i - 1].expr)
    } else {
        last_full(listed, rel, i - 1)
    }
}

/// The expressions, in order, of the first `i` listed entries whose path
/// below the root is not empty and ends in the file name `base`.
pub open spec fn name_candidates(listed: Seq<ListedView>, base: Seq<char>, i: int) -> Seq<Seq<char>>
    decreases i,
{
    if i <= 0 {
        Seq::empty()
    } else {
        let prev = name_candidates(listed, base, i - 1);
        let rel = rel_of(listed[i - 1].expr);
        if rel.len() > 0 && base_of(rel) == base {
            prev.push(listed[i - 1].expr)
        } else {
            prev
        }
    }
}

/// The entry a draft writes for a matched source.
pub open spec fn draft_entry(target: Seq<char>, source: Seq<char>) -> EntryView {
    EntryView {
        target,
        source: Some(source),
        action: Action::Replace,
        method: MethodPolicy::Inherit,
        level: LevelPolicy::Name(LevelName::Inherit),
        mtime: MtimePolicy::Source,
        comment: CommentPolicy::Inherit,
    }
}

/// The entries and unresolved sources a draft makes of `inputs`, in order:
/// an input whose relative path is that of a listed entry (the last such)
/// targets it; otherwise one whose file name is that of exactly one listed
/// entry targets that entry; otherwise it is unresolved, with every entry
/// of that file name as candidates, or none.
pub open spec fn spec_draft(listed: Seq<ListedView>, inputs: Seq<InputView>) -> (Seq<EntryView>, Seq<UnresolvedView>)
    decreases inputs.len(),
{
    if inputs.len() == 0 {
        (Seq::empty(), Seq::empty())
    } else {
        let (es, us) = spec_draft(listed, inputs.drop_last());
        let inp = inputs.last();
        match last_full(listed, inp.rel, listed.len() as int) {
            Some(t) => (es.push(draft_entry(t, inp.source)), us),
            None => {
                let c = name_candidates(listed, inp.base, listed.len() as int);
                if c.len() == 1 {
                    (es.push(draft_entry(c[0], inp.source)), us)
                } else if c.len() > 1 {
                    (es, us.push(UnresolvedView { source: inp.source, reason: "multiple targets"@, candidates: c }))
                } else {
                    (es, us.push(UnresolvedView { source: inp.source, reason: "no target matched"@, candidates: Seq::empty() }))
                }
            },
        }
    }
}

/// The specification a draft writes.
pub open spec fn drafted_spec(archive: Seq<char>, generated_at: Seq<char>, listed: Seq<ListedView>, inputs: Seq<InputView>) -> SpecView {
    SpecView {
        version: 1,
        archive: Some(archive),
        generated_at: Some(generated_at),
        entry: spec_draft(listed, inputs).0,
        unresolved: spec_draft(listed, inputs).1,
    }
}

/// Where a listed entry sits below its root: its path (empty when it has
/// none) and that path's file name.
struct ListedKey {
    rel: String,
    base: String,
}

fn listed_key(expr: &str) -> (r: ListedKey)
    ensures
        r.rel@ == rel_of(expr@),
        r.base@ == base_of(rel_of(expr@)),
{
    let v = chars_of(expr);
    match after_bang_chars(&v) {
        Some(t) => {
            let b = base_chars(&t);
            ListedKey { rel: string_of(&t), base: string_of(&b) }
        },
        None => {
            let e: Vec<char> = Vec::new();
            assert(e@ =~= Seq::<char>::empty());
            assert(base_of(e@) == e@);
            ListedKey { rel: string_of(&e), base: string_of(&e) }
        },
    }
}

fn drafted_entry(target: &String, source: &String) -> (r: PatchEntry)
    ensures
        r@ == draft_entry(target@, source@),
{
    PatchEntry {
        target: target.clone(),
        source: Some(source.clone()),
        action: Action::Replace,
        method: MethodPolicy::Inherit,
        level: LevelPolicy::Name(LevelName::Inherit),
        mtime: MtimePolicy::Source,
        comment: CommentPolicy::Inherit,
    }
}

/// Matches each input to the listing, as [`spec_draft`] describes.
fn match_inputs(listed: &[ListedEntry], inputs: &[DraftInput]) -> (r: (Vec<PatchEntry>, Vec<Unresolved>))
    ensures
        (entry_views(r.0@), unresolved_views(r.1@)) == spec_draft(listed_views(listed@), input_views(inputs@)),
{
    let ghost lv = listed_views(listed@);
    let ghost iv = input_views(inputs@);
    let m = listed.len();
    let mut keys: Vec<ListedKey> = Vec::new();
    for q in 0..m
        invariant
            m == listed@.len(),
            keys@.len() == q,
            forall|x: int| 0 <= x < q ==> (#[trigger] keys@[x]).rel@ == rel_of(listed@[x].expr@) && keys@[x].base@ == base_of(
                rel_of(listed@[x].expr@),
            ),
    {
        keys.push(listed_key(listed[q].expr.as_str()));
    }
    let mut entries: Vec<PatchEntry> = Vec::new();
    let mut unresolved: Vec<Unresolved> = Vec::new();
    let n = inputs.len();
    assert(iv.take(0) =~= Seq::<InputView>::empty());
    assert(entry_views(entries@) =~= Seq::<EntryView>::empty());
    assert(unresolved_views(unresolved@) =~= Seq::<UnresolvedView>::empty());
    for i in 0..n
        invariant
            m == listed@.len(),
            n == inputs@.len(),
            lv == listed_views(listed@),
            iv == input_views(inputs@),
            keys@.len() == m,
            forall|x: int| 0 <= x < m ==> (#[trigger] keys@[x]).rel@ == rel_of(listed@[x].expr@) && keys@[x].base@ == base_of(
                rel_of(listed@[x].expr@),
            ),
            (entry_views(entries@), unresolved_views(unresolved@)) == spec_draft(lv, iv.take(i as int)),
    {
        let inp = &inputs[i];
        let ghost iv_i = iv.take(i + 1);
        assert(iv_i.drop_last() =~= iv.take(i as int));
        assert(iv_i.last() == inp@);
        let rel_empty = inp.rel_norm.as_str().is_empty();
        let mut found: Option<usize> = None;
        for q in 0..m
            invariant
                m == listed@.len(),
                lv == listed_views(listed@),
                keys@.len() == m,
                forall|x: int| 0 <= x < m ==> (#[trigger] keys@[x]).rel@ == rel_of(listed@[x].expr@),
                rel_empty == (inp.rel_norm@.len() == 0),
                match found {
                    Some(x) => x < q && last_full(lv, inp.rel_norm@, q as int) == Some(listed@[x as int].expr@),
                    None => last_full(lv, inp.rel_norm@, q as int) is None,
                },
        {
            assert(lv[q as int].expr == listed@[q as int].expr@);
            if !rel_empty && str_eq(keys[q].rel.as_str(), inp.rel_norm.as_str()) {
                found = Some(q);
            }
        }
        let ghost before_e = entry_views(entries@);
        let ghost before_u = unresolved_views(unresolved@);
        match found {
            Some(x) => {
                entries.push(drafted_entry(&listed[x].expr, &inp.source_norm));
                assert(entry_views(entries@) =~= before_e.push(draft_entry(listed@[x as int].expr@, inp@.source)));
            },
            None => {
                let mut cands: Vec<String> = Vec::new();
                for q in 0..m
                    invariant
                        m == listed@.len(),
                        lv == listed_views(listed@),
                        keys@.len() == m,
                        forall|x: int| 0 <= x < m ==> (#[trigger] keys@[x]).rel@ == rel_of(listed@[x].expr@) && keys@[x].base@
                            == base_of(rel_of(listed@[x].expr@)),
                        views(cands@) == name_candidates(lv, inp.base@, q as int),
                {
                    assert(lv[q as int].expr == listed@[q as int].expr@);
                    let ghost before = views(cands@);
                    if !keys[q].rel.as_str().is_empty() && str_eq(keys[q].base.as_str(), inp.base.as_str()) {
                        cands.push(listed[q].expr.clone());
                        assert(views(cands@) =~= before.push(listed@[q as int].expr@));
                    }
                }
                if cands.len() == 1 {
                    entries.push(drafted_entry(&cands[0], &inp.source_norm));
                    assert(entry_views(entries@) =~= before_e.push(draft_entry(views(cands@)[0], inp@.source)));
                } else if cands.len() > 1 {
                    let u = Unresolved { source: inp.source_norm.clone(), reason: "multiple targets".to_string(), candidates: cands };
                    unresolved.push(u);
                    assert(unresolved_views(unresolved@) =~= before_u.push(u@));
                } else {
                    let none: Vec<String> = Vec::new();
                    assert(views(none@) =~= Seq::<Seq<char>>::empty());
                    let u = Unresolved { source: inp.source_norm.clone(), reason: "no target matched".to_string(), candidates: none };
                    unresolved.push(u);
                    assert(unresolved_views(unresolved@) =~= before_u.push(u@));
                }
            },
        }
    }
    assert(iv.take(n as int) =~= iv);
    (entries, unresolved)
}

/// The specification a draft of `inputs` against the listing `listed`
/// writes, and its counts.
pub fn build_patch_spec(archive_norm: String, listed: &[ListedEntry], inputs: &[DraftInput], generated_at: String) -> (r: (
    PatchSpec,
    DraftSummary,
))
    ensures
        r.0@ == drafted_spec(archive_norm@, generated_at@, listed_views(listed@), input_views(inputs@)),
        r.1 == (DraftSummary { matched: r.0.entry@.len() as usize, unresolved: r.0.unresolved@.len() as usize }),
{
    let (entry, unresolved) = match_inputs(listed, inputs);
    let spec = PatchSpec { version: 1, archive: Some(archive_norm), generated_at: Some(generated_at), entry, unresolved };
    let summary = DraftSummary { matched: spec.entry.len(), unresolved: spec.unresolved.len() };
    (spec, summary)
}

/// When a draft is made (the `Debug` form of `SystemTime::now()`). Nothing
/// is stated of the result: it depends on the clock.
#[verifier::external_body]
fn generated_at_now() -> (r: String) {
    format!("{:?}", std::time::SystemTime::now())
}

/// Drafts a patch specification for the archive at `archive_path` (whose
/// bytes are `archive_bytes`) from candidate source files: the archive is
/// listed recursively, each input matched as [`spec_draft`] describes, and
/// the time of the draft recorded.
pub fn draft_from_path(archive_path: &str, archive_bytes: Vec<u8>, inputs: &[DraftInput], config: &Config) -> (r: Result<
    (PatchSpec, DraftSummary),
    ZiprError,
>)
    ensures
        match spec_list_recursive(archive_bytes@, archive_path@, config@.exts) {
            Err(e) => r matches Err(x) && x@ == e,
            Ok(l) => r matches Ok((spec, summary)) && spec@.generated_at matches Some(g) && spec@ == drafted_spec(
                slashes_forward(archive_path@),
                g,
                l,
                input_views(inputs@),
            ) && summary == (DraftSummary { matched: spec.entry@.len() as usize, unresolved: spec.unresolved@.len() as usize }),
        },
{
    let listed = match list_recursive(archive_bytes, archive_path, config) {
        Ok(l) => l,
        Err(e) => return Err(e),
    };
    let generated_at = generated_at_now();
    Ok(build_patch_spec(normalize_path_for_zip(archive_path), listed.as_slice(), inputs, generated_at))
}

/// The sources an existing specification already mentions: those of its
/// entries and of its unresolved items.
pub open spec fn known_sources(s: SpecView) -> Set<Seq<char>> {
    Set::new(
        |x: Seq<char>|
            (exists|i: int| 0 <= i < s.entry.len() && (#[trigger] s.entry[i]).source == Some(x)) || (exists|i: int|
                0 <= i < s.unresolved.len() && (#[trigger] s.unresolved[i]).source == x),
    )
}

/// The inputs whose source is not yet `seen`, in order, each source kept
/// once (the first time it comes).
pub open spec fn fresh_inputs(seen: Set<Seq<char>>, inputs: Seq<InputView>) -> Seq<InputView>
    decreases inputs.len(),
{
    if inputs.len() == 0 {
        Seq::empty()
    } else if seen.contains(inputs[0].source) {
        fresh_inputs(seen, inputs.skip(1))
    } else {
        seq![inputs[0]] + fresh_inputs(seen.insert(inputs[0].source), inputs.skip(1))
    }
}

/// The entries whose target is not yet `taken`, in order, each target kept
/// once (the first time it comes).
pub open spec fn fresh_entries(taken: Set<Seq<char>>, es: Seq<EntryView>) -> Seq<EntryView>
    decreases es.len(),
{
    if es.len() == 0 {
        Seq::empty()
    } else if taken.contains(es[0].target) {
        fresh_entries(taken, es.skip(1))
    } else {
        seq![es[0]] + fresh_entries(taken.insert(es[0].target), es.skip(1))
    }
}

/// The targets of a sequence of entries.
pub open spec fn target_set(es: Seq<EntryView>) -> Set<Seq<char>> {
    Set::new(|x: Seq<char>| exists|i: int| 0 <= i < es.len() && (#[trigger] es[i]).target == x)
}

/// `old` extended with a draft of the inputs it does not already mention:
/// its own entries and unresolved items first, as they were; then the
/// drafted entries whose target it does not already have; then the drafted
/// unresolved items.
pub open spec fn extended_spec(old: SpecView, listed: Seq<ListedView>, inputs: Seq<InputView>) -> SpecView {
    let drafted = spec_draft(listed, fresh_inputs(known_sources(old), inputs));
    SpecView {
        version: old.version,
        archive: old.archive,
        generated_at: old.generated_at,
        entry: old.entry + fresh_entries(target_set(old.entry), drafted.0),
        unresolved: old.unresolved + drafted.1,
    }
}

/// Whether `x` is among the strings of `v`.
fn contains_str(v: &Vec<String>, x: &str) -> (r: bool)
    ensures
        r == views(v@).contains(x@),
{
    let n = v.len();
    for i in 0..n
        invariant
            n == v@.len(),
            forall|j: int| 0 <= j < i ==> v@[j]@ != x@,
    {
        if str_eq(v[i].as_str(), x) {
            assert(views(v@)[i as int] == x@);
            return true;
        }
    }
    assert forall|j: int| 0 <= j < views(v@).len() implies views(v@)[j] != x@ by {
        assert(views(v@)[j] == v@[j]@);
    }
    false
}

/// The sources `s` already mentions, as a list.
fn sources_of(s: &PatchSpec) -> (r: Vec<String>)
    ensures
        forall|x: Seq<char>| #[trigger] views(r@).contains(x) <==> known_sources(s@).contains(x),
{
    let ghost sv = s@;
    let mut out: Vec<String> = Vec::new();
    let n = s.entry.len();
    for i in 0..n
        invariant
            n == s.entry@.len(),
            sv == s@,
            forall|x: Seq<char>| #[trigger] views(out@).contains(x) <==> (exists|j: int|
                0 <= j < i && (#[trigger] sv.entry[j]).source == Some(x)),
    {
        let ghost before = views(out@);
        assert(sv.entry[i as int].source == crate::patch_spec::opt_view(s.entry@[i as int].source));
        match &s.entry[i].source {
            Some(src) => {
                out.push(src.clone());
                assert(views(out@) =~= before.push(src@));
            },
            None => {},
        }
        assert forall|x: Seq<char>| #[trigger] views(out@).contains(x) <==> (exists|j: int|
            0 <= j < i + 1 && (#[trigger] sv.entry[j]).source == Some(x)) by {
            if views(out@).contains(x) && !before.contains(x) {
                assert(sv.entry[i as int].source == Some(x));
            }
            if exists|j: int| 0 <= j < i + 1 && (#[trigger] sv.entry[j]).source == Some(x) {
                let j = choose|j: int| 0 <= j < i + 1 && (#[trigger] sv.entry[j]).source == Some(x);
                if j < i {
                    assert(before.contains(x));
                    let k = choose|k: int| 0 <= k < before.len() && before[k] == x;
                    assert(views(out@)[k] == x);
                } else {
                    assert(views(out@)[before.len() as int] == x);
                }
            }
        }
    }
    let m = s.unresolved.len();
    for i in 0..m
        invariant
            n == s.entry@.len(),
            m == s.unresolved@.len(),
            sv == s@,
            forall|x: Seq<char>| #[trigger] views(out@).contains(x) <==> ((exists|j: int|
                0 <= j < n && (#[trigger] sv.entry[j]).source == Some(x)) || (exists|j: int|
                0 <= j < i && (#[trigger] sv.unresolved[j]).source == x)),
    {
        let ghost before = views(out@);
        out.push(s.unresolved[i].source.clone());
        assert(views(out@) =~= before.push(sv.unresolved[i as int].source));
        assert forall|x: Seq<char>| #[trigger] views(out@).contains(x) <==> ((exists|j: int|
            0 <= j < n && (#[trigger] sv.entry[j]).source == Some(x)) || (exists|j: int|
            0 <= j < i + 1 && (#[trigger] sv.unresolved[j]).source == x)) by {
            if views(out@).contains(x) && !before.contains(x) {
                assert(sv.unresolved[i as int].source == x);
            }
            if exists|j: int| 0 <= j < i + 1 && (#[trigger] sv.unresolved[j]).source == x {
                let j = choose|j: int| 0 <= j < i + 1 && (#[trigger] sv.unresolved[j]).source == x;
                if j < i {
                    assert(before.contains(x));
                    let k = choose|k: int| 0 <= k < before.len() && before[k] == x;
                    assert(views(out@)[k] == x);
                } else {
                    assert(views(out@)[before.len() as int] == x);
                }
            }
            if before.contains(x) {
                let k = choose|k: int| 0 <= k < before.len() && before[k] == x;
                assert(views(out@)[k] == x);
            }
        }
    }
    assert forall|x: Seq<char>| #[trigger] views(out@).contains(x) <==> known_sources(s@).contains(x) by {}
    out
}

fn copy_input(i: &DraftInput) -> (r: DraftInput)
    ensures
        r@ == i@,
{
    DraftInput { source_norm: i.source_norm.clone(), rel_norm: i.rel_norm.clone(), base: i.base.clone() }
}

fn copy_patch_entry(e: &PatchEntry) -> (r: PatchEntry)
    ensures
        r@ == e@,
{
    let source = match &e.source {
        Some(s) => Some(s.clone()),
        None => None,
    };
    PatchEntry {
        target: e.target.clone(),
        source,
        action: e.action,
        method: e.method,
        level: e.level,
        mtime: e.mtime,
        comment: e.comment,
    }
}

/// The inputs whose source is not among `seen` (nor came before), in order.
fn filter_fresh(seen: Vec<String>, inputs: &[DraftInput], Ghost(known): Ghost<Set<Seq<char>>>) -> (r: Vec<DraftInput>)
    requires
        forall|x: Seq<char>| #[trigger] views(seen@).contains(x) <==> known.contains(x),
    ensures
        input_views(r@) == fresh_inputs(known, input_views(inputs@)),
{
    let ghost iv = input_views(inputs@);
    let mut taken = seen;
    let ghost mut cur = known;
    let mut out: Vec<DraftInput> = Vec::new();
    let n = inputs.len();
    assert(iv.skip(0) =~= iv);
    assert(input_views(out@) + fresh_inputs(cur, iv.skip(0)) =~= fresh_inputs(known, iv));
    for i in 0..n
        invariant
            n == inputs@.len(),
            iv == input_views(inputs@),
            forall|x: Seq<char>| #[trigger] views(taken@).contains(x) <==> cur.contains(x),
            input_views(out@) + fresh_inputs(cur, iv.skip(i as int)) == fresh_inputs(known, iv),
    {
        let ghost rest = iv.skip(i as int);
        assert(rest[0] == inputs@[i as int]@);
        assert(rest.skip(1) =~= iv.skip(i + 1));
        let ghost before = input_views(out@);
        if !contains_str(&taken, inputs[i].source_norm.as_str()) {
            out.push(copy_input(&inputs[i]));
            let ghost src = inputs@[i as int].source_norm@;
            let ghost t0 = views(taken@);
            taken.push(inputs[i].source_norm.clone());
            proof {
                assert(views(taken@) =~= t0.push(src));
                assert forall|x: Seq<char>| #[trigger] views(taken@).contains(x) <==> cur.insert(src).contains(x) by {
                    if t0.contains(x) {
                        let k = choose|k: int| 0 <= k < t0.len() && t0[k] == x;
                        assert(views(taken@)[k] == x);
                    }
                    if x == src {
                        assert(views(taken@)[t0.len() as int] == x);
                    }
                    if views(taken@).contains(x) {
                        let k = choose|k: int| 0 <= k < views(taken@).len() && views(taken@)[k] == x;
                        if k < t0.len() {
                            assert(t0[k] == x);
                        }
                    }
                }
                assert(input_views(out@) =~= before.push(rest[0]));
                assert(input_views(out@) + fresh_inputs(cur.insert(src), iv.skip(i + 1)) =~= before + fresh_inputs(cur, rest));
                cur = cur.insert(src);
            }
        }
    }
    assert(iv.skip(n as int) =~= Seq::<InputView>::empty());
    assert(input_views(out@) =~= input_views(out@) + fresh_inputs(cur, iv.skip(n as int)));
    out
}

/// `existing` followed by the entries of `added` whose target is not yet
/// among them, each target kept once.
fn merge_entries(existing: Vec<PatchEntry>, added: &[PatchEntry]) -> (r: Vec<PatchEntry>)
    ensures
        entry_views(r@) == entry_views(existing@) + fresh_entries(target_set(entry_views(existing@)), entry_views(added@)),
{
    let ghost ev = entry_views(existing@);
    let ghost av = entry_views(added@);
    let ghost t0 = target_set(ev);
    let mut taken: Vec<String> = Vec::new();
    let k = existing.len();
    for i in 0..k
        invariant
            k == existing@.len(),
            ev == entry_views(existing@),
            forall|x: Seq<char>| #[trigger] views(taken@).contains(x) <==> (exists|j: int| 0 <= j < i && (#[trigger] ev[j]).target == x),
    {
        let ghost before = views(taken@);
        taken.push(existing[i].target.clone());
        proof {
            assert(views(taken@) =~= before.push(ev[i as int].target));
            assert forall|x: Seq<char>| #[trigger] views(taken@).contains(x) <==> (exists|j: int| 0 <= j < i + 1 && (#[trigger] ev[j]).target == x) by {
                if before.contains(x) {
                    let q = choose|q: int| 0 <= q < before.len() && before[q] == x;
                    assert(views(taken@)[q] == x);
                }
                if views(taken@).contains(x) {
                    let q = choose|q: int| 0 <= q < views(taken@).len() && views(taken@)[q] == x;
                    if q < before.len() {
                        assert(before[q] == x);
                    } else {
                        assert(ev[i as int].target == x);
                    }
                }
                if exists|j: int| 0 <= j < i + 1 && (#[trigger] ev[j]).target == x {
                    let j = choose|j: int| 0 <= j < i + 1 && (#[trigger] ev[j]).target == x;
                    if j == i {
                        assert(views(taken@)[before.len() as int] == x);
                    }
                }
            }
        }
    }
    let ghost mut cur = t0;
    assert forall|x: Seq<char>| #[trigger] views(taken@).contains(x) <==> cur.contains(x) by {}
    let mut out = existing;
    let n = added.len();
    assert(av.skip(0) =~= av);
    assert(entry_views(out@) + fresh_entries(cur, av.skip(0)) =~= ev + fresh_entries(t0, av));
    for i in 0..n
        invariant
            n == added@.len(),
            av == entry_views(added@),
            forall|x: Seq<char>| #[trigger] views(taken@).contains(x) <==> cur.contains(x),
            entry_views(out@) + fresh_entries(cur, av.skip(i as int)) == ev + fresh_entries(t0, av),
    {
        let ghost rest = av.skip(i as int);
        assert(rest[0] == added@[i as int]@);
        assert(rest.skip(1) =~= av.skip(i + 1));
        let ghost before = entry_views(out@);
        if !contains_str(&taken, added[i].target.as_str()) {
            out.push(copy_patch_entry(&added[i]));
            let ghost tg = added@[i as int].target@;
            let ghost tk = views(taken@);
            taken.push(added[i].target.clone());
            proof {
                assert(views(taken@) =~= tk.push(tg));
                assert forall|x: Seq<char>| #[trigger] views(taken@).contains(x) <==> cur.insert(tg).contains(x) by {
                    if tk.contains(x) {
                        let q = choose|q: int| 0 <= q < tk.len() && tk[q] == x;
                        assert(views(taken@)[q] == x);
                    }
                    if x == tg {
                        assert(views(taken@)[tk.len() as int] == x);
                    }
                    if views(taken@).contains(x) {
                        let q = choose|q: int| 0 <= q < views(taken@).len() && views(taken@)[q] == x;
                        if q < tk.len() {
                            assert(tk[q] == x);
                        }
                    }
                }
                assert(entry_views(out@) =~= before.push(rest[0]));
                assert(entry_views(out@) + fresh_entries(cur.insert(tg), av.skip(i + 1)) =~= before + fresh_entries(cur, rest));
                cur = cur.insert(tg);
            }
        }
    }
    assert(av.skip(n as int) =~= Seq::<EntryView>::empty());
    assert(entry_views(out@) =~= entry_views(out@) + fresh_entries(cur, av.skip(n as int)));
    out
}

/// Extends an existing patch specification with a draft of more candidate
/// source files, against the archive at `archive_path` (whose bytes are
/// `archive_bytes`). The existing entries and unresolved items stay as they
/// are, first; inputs whose source the specification already mentions (or
/// that came before) are skipped; drafted entries whose target is already
/// taken are dropped; drafted unresolved items follow.
pub fn patch_draft_extend(
    archive_path: &str,
    archive_bytes: Vec<u8>,
    existing: PatchSpec,
    new_inputs: &[DraftInput],
    config: &Config,
) -> (r: Result<(PatchSpec, DraftSummary), ZiprError>)
    ensures
        match spec_list_recursive(archive_bytes@, archive_path@, config@.exts) {
            Err(e) => r matches Err(x) && x@ == e,
            Ok(l) => r matches Ok((spec, summary)) && spec@ == extended_spec(existing@, l, input_views(new_inputs@))
                && summary == (DraftSummary { matched: spec.entry@.len() as usize, unresolved: spec.unresolved@.len() as usize }),
        },
{
    let ghost old_spec = existing@;
    let seen = sources_of(&existing);
    let fresh = filter_fresh(seen, new_inputs, Ghost(known_sources(old_spec)));
    let listed = match list_recursive(archive_bytes, archive_path, config) {
        Ok(l) => l,
        Err(e) => return Err(e),
    };
    let (drafted_entries, mut drafted_unresolved) = match_inputs(listed.as_slice(), fresh.as_slice());
    let PatchSpec { version, archive, generated_at, entry, unresolved } = existing;
    let entry = merge_entries(entry, drafted_entries.as_slice());
    let mut unresolved = unresolved;
    let ghost u0 = unresolved@;
    unresolved.append(&mut drafted_unresolved);
    let ghost u1 = unresolved@;
    assert(unresolved_views(u1) =~= old_spec.unresolved + spec_draft(listed_views(listed@), input_views(fresh@)).1);
    let spec = PatchSpec { version, archive, generated_at, entry, unresolved };
    let summary = DraftSummary { matched: spec.entry.len(), unresolved: spec.unresolved.len() };
    Ok((spec, summary))
}

/// Extending a specification keeps it as it was, in front: its version,
/// archive, time, entries and unresolved items.
pub proof fn law_extension_keeps_existing(old: SpecView, listed: Seq<ListedView>, inputs: Seq<InputView>)
    ensures
        ({
            let ext = extended_spec(old, listed, inputs);
            &&& ext.version == old.version
            &&& ext.archive == old.archive
            &&& ext.generated_at == old.generated_at
            &&& ext.entry.take(old.entry.len() as int) == old.entry
            &&& ext.unresolved.take(old.unresolved.len() as int) == old.unresolved
        }),
{
    let ext = extended_spec(old, listed, inputs);
    assert(ext.entry.take(old.entry.len() as int) =~= old.entry);
    assert(ext.unresolved.take(old.unresolved.len() as int) =~= old.unresolved);
}

/// The targets of `es` are pairwise distinct.
pub open spec fn distinct_targets(es: Seq<EntryView>) -> bool {
    forall|i: int, j: int| 0 <= i < j < es.len() ==> (#[trigger] es[i]).target != (#[trigger] es[j]).target
}

proof fn lemma_fresh_entries(taken: Set<Seq<char>>, es: Seq<EntryView>)
    ensures
        distinct_targets(fresh_entries(taken, es)),
        forall|i: int| 0 <= i < fresh_entries(taken, es).len() ==> !taken.contains(
            (#[trigger] fresh_entries(taken, es)[i]).target,
        ),
    decreases es.len(),
{
    if es.len() > 0 {
        if taken.contains(es[0].target) {
            lemma_fresh_entries(taken, es.skip(1));
        } else {
            let t2 = taken.insert(es[0].target);
            lemma_fresh_entries(t2, es.skip(1));
            let rest = fresh_entries(t2, es.skip(1));
            let f = fresh_entries(taken, es);
            assert(f == seq![es[0]] + rest);
            assert forall|i: int| 0 <= i < f.len() implies !taken.contains((#[trigger] f[i]).target) by {
                if i > 0 {
                    assert(f[i] == rest[i - 1]);
                }
            }
            assert forall|i: int, j: int| 0 <= i < j < f.len() implies (#[trigger] f[i]).target != (#[trigger] f[j]).target by {
                assert(f[j] == rest[j - 1]);
                if i > 0 {
                    assert(f[i] == rest[i - 1]);
                }
            }
        }
    }
}

/// Extending a specification whose targets are distinct keeps them
/// distinct: a drafted entry is only added for a target not yet present.
pub proof fn law_extension_keeps_targets_distinct(old: SpecView, listed: Seq<ListedView>, inputs: Seq<InputView>)
    requires
        distinct_targets(old.entry),
    ensures
        distinct_targets(extended_spec(old, listed, inputs).entry),
{
    let drafted = spec_draft(listed, fresh_inputs(known_sources(old), inputs));
    let taken = target_set(old.entry);
    let added = fresh_entries(taken, drafted.0);
    lemma_fresh_entries(taken, drafted.0);
    let all = old.entry + added;
    assert forall|i: int, j: int| 0 <= i < j < all.len() implies (#[trigger] all[i]).target != (#[trigger] all[j]).target by {
        if j >= old.entry.len() {
            assert(all[j] == added[j - old.entry.len()]);
            if i < old.entry.len() {
                assert(all[i] == old.entry[i]);
                assert(taken.contains(old.entry[i].target));
            } else {
                assert(all[i] == added[i - old.entry.len()]);
            }
        } else {
            assert(all[i] == old.entry[i] && all[j] == old.entry[j]);
        }
    }
}

/// The sources of a sequence of inputs.
pub open spec fn input_sources(inputs: Seq<InputView>) -> Set<Seq<char>> {
    Set::new(|x: Seq<char>| exists|i: int| 0 <= i < inputs.len() && (#[trigger] inputs[i]).source == x)
}

proof fn lemma_draft_sources(listed: Seq<ListedView>, inputs: Seq<InputView>)
    ensures
        forall|i: int| 0 <= i < spec_draft(listed, inputs).0.len() ==> ((#[trigger] spec_draft(listed, inputs).0[i]).source matches Some(x)
            && input_sources(inputs).contains(x)),
        forall|i: int| 0 <= i < spec_draft(listed, inputs).1.len() ==> input_sources(inputs).contains(
            (#[trigger] spec_draft(listed, inputs).1[i]).source,
        ),
    decreases inputs.len(),
{
    if inputs.len() > 0 {
        let d = inputs.drop_last();
        lemma_draft_sources(listed, d);
        let (es, us) = spec_draft(listed, inputs);
        let (es0, us0) = spec_draft(listed, d);
        let last = inputs.last();
        assert(input_sources(inputs).contains(last.source)) by {
            assert(inputs[inputs.len() - 1] == last);
        }
        assert forall|x: Seq<char>| input_sources(d).contains(x) implies input_sources(inputs).contains(x) by {
            let i = choose|i: int| 0 <= i < d.len() && (#[trigger] d[i]).source == x;
            assert(inputs[i] == d[i]);
        }
        assert forall|i: int| 0 <= i < es.len() implies (#[trigger] es[i]).source matches Some(x) && input_sources(inputs).contains(x) by {
            if i < es0.len() {
                assert(es[i] == es0[i]);
            }
        }
        assert forall|i: int| 0 <= i < us.len() implies input_sources(inputs).contains((#[trigger] us[i]).source) by {
            if i < us0.len() {
                assert(us[i] == us0[i]);
            }
        }
    }
}

proof fn lemma_fresh_inputs(seen: Set<Seq<char>>, inputs: Seq<InputView>)
    ensures
        forall|x: Seq<char>| #[trigger] input_sources(fresh_inputs(seen, inputs)).contains(x) ==> !seen.contains(x),
    decreases inputs.len(),
{
    if inputs.len() == 0 {
        let f = fresh_inputs(seen, inputs);
        assert(f.len() == 0);
        assert forall|x: Seq<char>| #[trigger] input_sources(f).contains(x) implies !seen.contains(x) by {}
    } else {
        let f = fresh_inputs(seen, inputs);
        if seen.contains(inputs[0].source) {
            lemma_fresh_inputs(seen, inputs.skip(1));
            let rest = fresh_inputs(seen, inputs.skip(1));
            assert(f == rest);
            assert forall|x: Seq<char>| #[trigger] input_sources(f).contains(x) implies !seen.contains(x) by {
                assert(input_sources(rest).contains(x));
            }
        } else {
            let s2 = seen.insert(inputs[0].source);
            lemma_fresh_inputs(s2, inputs.skip(1));
            let rest = fresh_inputs(s2, inputs.skip(1));
            assert forall|x: Seq<char>| #[trigger] input_sources(f).contains(x) implies !seen.contains(x) by {
                let i = choose|i: int| 0 <= i < f.len() && (#[trigger] f[i]).source == x;
                if i > 0 {
                    assert(f[i] == rest[i - 1]);
                    assert(input_sources(rest).contains(x));
                }
            }
        }
    }
}

/// Extending a specification only adds entries and unresolved items for
/// sources it did not already mention.
pub proof fn law_extension_skips_known_sources(old: SpecView, listed: Seq<ListedView>, inputs: Seq<InputView>)
    ensures
        ({
            let ext = extended_spec(old, listed, inputs);
            &&& forall|i: int| old.entry.len() <= i < ext.entry.len() ==> ((#[trigger] ext.entry[i]).source matches Some(x)
                && !known_sources(old).contains(x))
            &&& forall|i: int| old.unresolved.len() <= i < ext.unresolved.len() ==> !known_sources(old).contains(
                (#[trigger] ext.unresolved[i]).source,
            )
        }),
{
    let fresh = fresh_inputs(known_sources(old), inputs);
    let drafted = spec_draft(listed, fresh);
    lemma_draft_sources(listed, fresh);
    lemma_fresh_inputs(known_sources(old), inputs);
    let taken = target_set(old.entry);
    let added = fresh_entries(taken, drafted.0);
    lemma_fresh_subsequence(taken, drafted.0);
    let ext = extended_spec(old, listed, inputs);
    assert forall|i: int| old.entry.len() <= i < ext.entry.len() implies (#[trigger] ext.entry[i]).source matches Some(x)
        && !known_sources(old).contains(x) by {
        let k = i - old.entry.len();
        assert(ext.entry[i] == added[k]);
        let q = choose|q: int| 0 <= q < drafted.0.len() && drafted.0[q] == added[k];
        assert(drafted.0[q].source matches Some(x) && input_sources(fresh).contains(x));
    }
    assert forall|i: int| old.unresolved.len() <= i < ext.unresolved.len() implies !known_sources(old).contains(
        (#[trigger] ext.unresolved[i]).source,
    ) by {
        assert(ext.unresolved[i] == drafted.1[i - old.unresolved.len()]);
    }
}

proof fn lemma_fresh_subsequence(taken: Set<Seq<char>>, es: Seq<EntryView>)
    ensures
        forall|k: int| 0 <= k < fresh_entries(taken, es).len() ==> exists|q: int|
            0 <= q < es.len() && es[q] == #[trigger] fresh_entries(taken, es)[k],
    decreases es.len(),
{
    if es.len() > 0 {
        let f = fresh_entries(taken, es);
        if taken.contains(es[0].target) {
            lemma_fresh_subsequence(taken, es.skip(1));
            let rest = fresh_entries(taken, es.skip(1));
            assert(f == rest);
            assert forall|k: int| 0 <= k < f.len() implies exists|q: int| 0 <= q < es.len() && es[q] == #[trigger] f[k] by {
                assert(f[k] == rest[k]);
                let q = choose|q: int| 0 <= q < es.skip(1).len() && es.skip(1)[q] == rest[k];
                assert(es[q + 1] == f[k]);
            }
        } else {
            let t2 = taken.insert(es[0].target);
            lemma_fresh_subsequence(t2, es.skip(1));
            let rest = fresh_entries(t2, es.skip(1));
            assert forall|k: int| 0 <= k < f.len() implies exists|q: int| 0 <= q < es.len() && es[q] == #[trigger] f[k] by {
                if k == 0 {
                    assert(es[0] == f[0]);
                } else {
                    assert(f[k] == rest[k - 1]);
                    let q = choose|q: int| 0 <= q < es.skip(1).len() && es.skip(1)[q] == rest[k - 1];
                    assert(es[q + 1] == f[k]);
                }
            }
        }
    }
}

/// Whether a file name is one a draft is written under
/// (`patch.draft.toml`, `patch.draft.orig.toml`): such a file in a
/// directory of patches is not a patch itself.
pub fn is_generated_patch_file(file_name: Option<&str>) -> (r: bool)
    ensures
        r == (file_name matches Some(n) && (n@ == "patch.draft.toml"@ || n@ == "patch.draft.orig.toml"@)),
{
    match file_name {
        Some(n) => str_eq(n, "patch.draft.toml") || str_eq(n, "patch.draft.orig.toml"),
        None => false,
    }
}

/// An entry as a draft writes it: a replace from a source, everything
/// else inherited.
pub open spec fn drafted_form(e: EntryView) -> bool {
    &&& e.action == Action::Replace
    &&& e.source is Some
    &&& e.method == MethodPolicy::Inherit
    &&& e.level == LevelPolicy::Name(LevelName::Inherit)
    &&& e.comment == CommentPolicy::Inherit
}

proof fn lemma_draft_form(listed: Seq<ListedView>, inputs: Seq<InputView>)
    ensures
        forall|i: int| 0 <= i < spec_draft(listed, inputs).0.len() ==> drafted_form(#[trigger] spec_draft(listed, inputs).0[i]),
    decreases inputs.len(),
{
    if inputs.len() > 0 {
        lemma_draft_form(listed, inputs.drop_last());
        let es0 = spec_draft(listed, inputs.drop_last()).0;
        let es = spec_draft(listed, inputs).0;
        assert forall|i: int| 0 <= i < es.len() implies drafted_form(#[trigger] es[i]) by {
            if i < es0.len() {
                assert(es[i] == es0[i]);
            }
        }
    }
}

proof fn lemma_no_problem_in_drafted(es: Seq<EntryView>, seen: Set<Seq<char>>)
    requires
        forall|i: int| 0 <= i < es.len() ==> drafted_form(#[trigger] es[i]),
        distinct_targets(es),
        forall|i: int| 0 <= i < es.len() ==> !seen.contains(#[trigger] es[i].target),
    ensures
        first_problem(es, seen) is None,
    decreases es.len(),
{
    if es.len() > 0 {
        let rest = es.skip(1);
        assert(drafted_form(es[0]));
        assert(entry_problem(es[0], seen) is None);
        assert forall|i: int| 0 <= i < rest.len() implies drafted_form(#[trigger] rest[i]) by {
            assert(rest[i] == es[i + 1]);
        }
        assert forall|i: int, j: int| 0 <= i < j < rest.len() implies (#[trigger] rest[i]).target != (#[trigger] rest[j]).target by {
            assert(rest[i] == es[i + 1] && rest[j] == es[j + 1]);
        }
        assert forall|i: int| 0 <= i < rest.len() implies !seen.insert(es[0].target).contains(#[trigger] rest[i].target) by {
            assert(rest[i] == es[i + 1]);
            assert(es[0].target != es[i + 1].target);
        }
        lemma_no_problem_in_drafted(rest, seen.insert(es[0].target));
    }
}

/// A draft in which every source found exactly one target, each a
/// different one, can be applied as it is: it passes validation.
pub proof fn law_resolved_draft_validates(
    archive: Seq<char>,
    generated_at: Seq<char>,
    listed: Seq<ListedView>,
    inputs: Seq<InputView>,
)
    requires
        spec_draft(listed, inputs).1.len() == 0,
        distinct_targets(spec_draft(listed, inputs).0),
    ensures
        spec_validate(drafted_spec(archive, generated_at, listed, inputs)) is Ok,
{
    lemma_draft_form(listed, inputs);
    lemma_no_problem_in_drafted(spec_draft(listed, inputs).0, Set::empty());
}

/// The target a draft gives an input: the last listed entry with its
/// relative path, else the one listed entry with its file name; none when
/// there is no such entry, or more than one by name.
pub open spec fn input_target(listed: Seq<ListedView>, inp: InputView) -> Option<Seq<char>> {
    match last_full(listed, inp.rel, listed.len() as int) {
        Some(t) => Some(t),
        None => {
            let c = name_candidates(listed, inp.base, listed.len() as int);
            if c.len() == 1 {
                Some(c[0])
            } else {
                None
            }
        },
    }
}

/// Each input of a draft shows up in it: as an entry for its target, or as
/// an unresolved item for its source.
proof fn lemma_draft_outcome(listed: Seq<ListedView>, inputs: Seq<InputView>, q: int)
    requires
        0 <= q < inputs.len(),
    ensures
        match input_target(listed, inputs[q]) {
            Some(t) => spec_draft(listed, inputs).0.contains(draft_entry(t, inputs[q].source)),
            None => exists|u: int|
                0 <= u < spec_draft(listed, inputs).1.len() && (#[trigger] spec_draft(listed, inputs).1[u]).source
                    == inputs[q].source,
        },
    decreases inputs.len(),
{
    let d = inputs.drop_last();
    let (es, us) = spec_draft(listed, inputs);
    let (es0, us0) = spec_draft(listed, d);
    if q == inputs.len() - 1 {
        match input_target(listed, inputs[q]) {
            Some(t) => {
                assert(es[es.len() - 1] == draft_entry(t, inputs[q].source));
            },
            None => {
                assert(us[us.len() - 1].source == inputs[q].source);
            },
        }
    } else {
        lemma_draft_outcome(listed, d, q);
        assert(d[q] == inputs[q]);
        match input_target(listed, inputs[q]) {
            Some(t) => {
                let k = choose|k: int| 0 <= k < es0.len() && es0[k] == draft_entry(t, inputs[q].source);
                assert(es[k] == es0[k]);
            },
            None => {
                let u = choose|u: int| 0 <= u < us0.len() && (#[trigger] us0[u]).source == inputs[q].source;
                assert(us[u] == us0[u]);
            },
        }
    }
}

/// A draft of inputs that all have targets among `ts` has no unresolved
/// item, and every entry it makes targets one of `ts`.
proof fn lemma_draft_all_targeted(listed: Seq<ListedView>, inputs: Seq<InputView>, ts: Set<Seq<char>>)
    requires
        forall|q: int| 0 <= q < inputs.len() ==> (input_target(listed, #[trigger] inputs[q]) matches Some(t) && ts.contains(t)),
    ensures
        spec_draft(listed, inputs).1.len() == 0,
        forall|k: int| 0 <= k < spec_draft(listed, inputs).0.len() ==> ts.contains((#[trigger] spec_draft(listed, inputs).0[k]).target),
    decreases inputs.len(),
{
    if inputs.len() > 0 {
        let d = inputs.drop_last();
        assert forall|q: int| 0 <= q < d.len() implies (input_target(listed, #[trigger] d[q]) matches Some(t) && ts.contains(t)) by {
            assert(d[q] == inputs[q]);
        }
        lemma_draft_all_targeted(listed, d, ts);
        let es = spec_draft(listed, inputs).0;
        let es0 = spec_draft(listed, d).0;
        assert(input_target(listed, inputs[inputs.len() - 1]) is Some);
        assert forall|k: int| 0 <= k < es.len() implies ts.contains((#[trigger] es[k]).target) by {
            if k < es0.len() {
                assert(es[k] == es0[k]);
            }
        }
    }
}

/// An entry left out when keeping fresh targets had its target taken: before,
/// or by an entry kept.
proof fn lemma_fresh_entries_cover(taken: Set<Seq<char>>, es: Seq<EntryView>, k: int)
    requires
        0 <= k < es.len(),
    ensures
        taken.contains(es[k].target) || target_set(fresh_entries(taken, es)).contains(es[k].target),
    decreases es.len(),
{
    let f = fresh_entries(taken, es);
    if k == 0 {
        if !taken.contains(es[0].target) {
            assert(f[0] == es[0]);
        }
    } else {
        let tail = es.skip(1);
        assert(tail[k - 1] == es[k]);
        if taken.contains(es[0].target) {
            lemma_fresh_entries_cover(taken, tail, k - 1);
        } else {
            let t2 = taken.insert(es[0].target);
            lemma_fresh_entries_cover(t2, tail, k - 1);
            let f2 = fresh_entries(t2, tail);
            assert(f == seq![es[0]] + f2);
            if es[k].target == es[0].target {
                assert(f[0] == es[0]);
            } else if target_set(f2).contains(es[k].target) {
                let p = choose|p: int| 0 <= p < f2.len() && (#[trigger] f2[p]).target == es[k].target;
                assert(f[p + 1] == f2[p]);
            }
        }
    }
}

/// Keeping the entries whose target is not yet taken keeps none when every
/// target is taken.
proof fn lemma_fresh_entries_none(taken: Set<Seq<char>>, es: Seq<EntryView>)
    requires
        forall|k: int| 0 <= k < es.len() ==> taken.contains((#[trigger] es[k]).target),
    ensures
        fresh_entries(taken, es).len() == 0,
    decreases es.len(),
{
    if es.len() > 0 {
        let tail = es.skip(1);
        assert forall|k: int| 0 <= k < tail.len() implies taken.contains((#[trigger] tail[k]).target) by {
            assert(tail[k] == es[k + 1]);
        }
        lemma_fresh_entries_none(taken, tail);
    }
}

/// With more sources seen, the fresh inputs are among those with fewer seen.
proof fn lemma_fresh_inputs_among(k0: Set<Seq<char>>, k1: Set<Seq<char>>, inputs: Seq<InputView>)
    requires
        k0.subset_of(k1),
    ensures
        forall|q: int| 0 <= q < fresh_inputs(k1, inputs).len() ==> fresh_inputs(k0, inputs).contains(
            #[trigger] fresh_inputs(k1, inputs)[q],
        ),
    decreases inputs.len(),
{
    if inputs.len() > 0 {
        let s0 = inputs[0].source;
        let tail = inputs.skip(1);
        let f0 = fresh_inputs(k0, inputs);
        let f1 = fresh_inputs(k1, inputs);
        if k1.contains(s0) {
            if k0.contains(s0) {
                lemma_fresh_inputs_among(k0, k1, tail);
                assert(f0 == fresh_inputs(k0, tail));
                assert(f1 == fresh_inputs(k1, tail));
            } else {
                lemma_fresh_inputs_among(k0.insert(s0), k1, tail);
                let g = fresh_inputs(k0.insert(s0), tail);
                assert(f1 == fresh_inputs(k1, tail));
                assert(f0 == seq![inputs[0]] + g);
                assert forall|q: int| 0 <= q < f1.len() implies f0.contains(#[trigger] f1[q]) by {
                    assert(g.contains(f1[q]));
                    let p = choose|p: int| 0 <= p < g.len() && g[p] == f1[q];
                    assert(f0[p + 1] == g[p]);
                }
            }
        } else {
            lemma_fresh_inputs_among(k0.insert(s0), k1.insert(s0), tail);
            let g0 = fresh_inputs(k0.insert(s0), tail);
            let g1 = fresh_inputs(k1.insert(s0), tail);
            assert(f0 == seq![inputs[0]] + g0);
            assert(f1 == seq![inputs[0]] + g1);
            assert forall|q: int| 0 <= q < f1.len() implies f0.contains(#[trigger] f1[q]) by {
                if q == 0 {
                    assert(f0[0] == f1[0]);
                } else {
                    assert(f1[q] == g1[q - 1]);
                    assert(g0.contains(g1[q - 1]));
                    let p = choose|p: int| 0 <= p < g0.len() && g0[p] == g1[q - 1];
                    assert(f0[p + 1] == g0[p]);
                }
            }
        }
    }
}

/// Extending a specification a second time with the same listing and
/// inputs changes nothing: every input is then either mentioned by it, or
/// drafted to a target it already has.
pub proof fn law_extending_twice_changes_nothing(old: SpecView, listed: Seq<ListedView>, inputs: Seq<InputView>)
    ensures
        extended_spec(extended_spec(old, listed, inputs), listed, inputs) == extended_spec(old, listed, inputs),
{
    let ext = extended_spec(old, listed, inputs);
    let k0 = known_sources(old);
    let k1 = known_sources(ext);
    let f1 = fresh_inputs(k0, inputs);
    let f2 = fresh_inputs(k1, inputs);
    let drafted1 = spec_draft(listed, f1);
    let ts = target_set(ext.entry);
    assert forall|x: Seq<char>| k0.contains(x) implies k1.contains(x) by {
        if exists|i: int| 0 <= i < old.entry.len() && (#[trigger] old.entry[i]).source == Some(x) {
            let i = choose|i: int| 0 <= i < old.entry.len() && (#[trigger] old.entry[i]).source == Some(x);
            assert(ext.entry[i] == old.entry[i]);
        } else {
            let i = choose|i: int| 0 <= i < old.unresolved.len() && (#[trigger] old.unresolved[i]).source == x;
            assert(ext.unresolved[i] == old.unresolved[i]);
        }
    }
    lemma_fresh_inputs_among(k0, k1, inputs);
    lemma_fresh_inputs(k1, inputs);
    assert forall|q: int| 0 <= q < f2.len() implies (input_target(listed, #[trigger] f2[q]) matches Some(t) && ts.contains(t)) by {
        let y = f2[q];
        assert(input_sources(f2).contains(y.source));
        assert(!k1.contains(y.source));
        assert(f1.contains(y));
        let p = choose|p: int| 0 <= p < f1.len() && f1[p] == y;
        lemma_draft_outcome(listed, f1, p);
        match input_target(listed, y) {
            Some(t) => {
                let k = choose|k: int| 0 <= k < drafted1.0.len() && drafted1.0[k] == draft_entry(t, y.source);
                lemma_fresh_entries_cover(target_set(old.entry), drafted1.0, k);
                let fe = fresh_entries(target_set(old.entry), drafted1.0);
                if target_set(old.entry).contains(t) {
                    let i = choose|i: int| 0 <= i < old.entry.len() && (#[trigger] old.entry[i]).target == t;
                    assert(ext.entry[i] == old.entry[i]);
                } else {
                    let i = choose|i: int| 0 <= i < fe.len() && (#[trigger] fe[i]).target == t;
                    assert(ext.entry[old.entry.len() + i] == fe[i]);
                }
            },
            None => {
                let u = choose|u: int| 0 <= u < drafted1.1.len() && (#[trigger] drafted1.1[u]).source == y.source;
                assert(ext.unresolved[old.unresolved.len() + u] == drafted1.1[u]);
                assert(k1.contains(y.source));
            },
        }
    }
    lemma_draft_all_targeted(listed, f2, ts);
    lemma_fresh_entries_none(ts, spec_draft(listed, f2).0);
    let ext2 = extended_spec(ext, listed, inputs);
    assert(ext2.entry =~= ext.entry);
    assert(ext2.unresolved =~= ext.unresolved);
}

/// The file name of a path is what follows its last `/`: for a path made
/// of a directory part, a `/` and a name free of `/`, it is that name; for a
/// path free of `/`, it is the whole path.
pub proof fn law_base_is_last_component(dir: Seq<char>, name: Seq<char>)
    requires
        forall|q: int| 0 <= q < name.len() ==> name[q] != '/',
    ensures
        base_of(dir + seq!['/'] + name) == name,
        base_of(name) == name,
    decreases name.len(),
{
    let s = dir + seq!['/'] + name;
    if name.len() == 0 {
        assert(s.last() == '/');
        assert(name =~= Seq::<char>::empty());
    } else {
        let init = name.drop_last();
        assert forall|q: int| 0 <= q < init.len() implies init[q] != '/' by {
            assert(init[q] == name[q]);
        }
        law_base_is_last_component(dir, init);
        assert(s.drop_last() =~= dir + seq!['/'] + init);
        assert(s.last() == name.last());
        assert(name.last() != '/');
        assert(init.push(name.last()) =~= name);
    }
}

proof fn lemma_candidates_grow(listed: Seq<ListedView>, base: Seq<char>, k: int, i: int)
    requires
        0 <= k < i <= listed.len(),
        ({
            let rel = rel_of(listed[k].expr);
            rel.len() > 0 && base_of(rel) == base
        }),
    ensures
        name_candidates(listed, base, i).contains(listed[k].expr),
    decreases i,
{
    let prev = name_candidates(listed, base, i - 1);
    if i - 1 == k {
        assert(name_candidates(listed, base, i) == prev.push(listed[k].expr));
        assert(name_candidates(listed, base, i)[prev.len() as int] == listed[k].expr);
    } else {
        lemma_candidates_grow(listed, base, k, i - 1);
        let q = choose|q: int| 0 <= q < prev.len() && prev[q] == listed[k].expr;
        assert(name_candidates(listed, base, i)[q] == prev[q]);
    }
}

/// An input whose file name is the last component of a listed entry's path
/// below its root (a path of some directories and that name, or that name
/// alone) finds that entry among the candidates by name.
pub proof fn law_name_match_finds_entry(listed: Seq<ListedView>, k: int, dir: Seq<char>, name: Seq<char>)
    requires
        0 <= k < listed.len(),
        name.len() > 0,
        forall|q: int| 0 <= q < name.len() ==> name[q] != '/',
        rel_of(listed[k].expr) == dir + seq!['/'] + name || rel_of(listed[k].expr) == name,
    ensures
        name_candidates(listed, name, listed.len() as int).contains(listed[k].expr),
{
    law_base_is_last_component(dir, name);
    lemma_candidates_grow(listed, name, k, listed.len() as int);
}

} // verus!
