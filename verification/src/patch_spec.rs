//! Patch specifications: a list of targets inside an archive, each replaced
//! from a source file or deleted, plus the sources a draft could not place.
use vstd::prelude::*;

use crate::error::{ErrView, ZiprError};
use crate::path_expr::views;

verus! {

/// A whole patch specification.
#[derive(Debug, Clone)]
pub struct PatchSpec {
    pub version: u32,
    pub archive: Option<String>,
    pub generated_at: Option<String>,
    pub entry: Vec<PatchEntry>,
    pub unresolved: Vec<Unresolved>,
}

/// One target to change.
#[derive(Debug, Clone)]
pub struct PatchEntry {
    pub target: String,
    pub source: Option<String>,
    pub action: Action,
    pub method: MethodPolicy,
    pub level: LevelPolicy,
    pub mtime: MtimePolicy,
    pub comment: CommentPolicy,
}

/// A source file a draft could not match to exactly one target.
#[derive(Debug, Clone)]
pub struct Unresolved {
    pub source: String,
    pub reason: String,
    pub candidates: Vec<String>,
}

/// What to do with a target.
#[derive(Debug, Clone, Copy, PartialEq, Eq, Structural)]
pub enum Action {
    Replace,
    Delete,
}

/// Which compression method a replaced entry gets.
#[derive(Debug, Clone, Copy, PartialEq, Eq, Structural)]
pub enum MethodPolicy {
    Inherit,
    Stored,
    Deflated,
}

/// Which compression level a replaced entry gets.
#[derive(Debug, Clone, Copy, PartialEq, Eq, Structural)]
pub enum LevelPolicy {
    Name(LevelName),
    Fixed(u8),
}

/// The named compression levels.
#[derive(Debug, Clone, Copy, PartialEq, Eq, Structural)]
pub enum LevelName {
    Inherit,
    Default,
}

/// Which modification time a replaced entry gets.
#[derive(Debug, Clone, Copy, PartialEq, Eq, Structural)]
pub enum MtimePolicy {
    Source,
    Now,
    Keep,
}

/// Which comment a replaced entry gets.
#[derive(Debug, Clone, Copy, PartialEq, Eq, Structural)]
pub enum CommentPolicy {
    Inherit,
}

/// The abstract content of a [`PatchEntry`].
pub struct EntryView {
    pub target: Seq<char>,
    pub source: Option<Seq<char>>,
    pub action: Action,
    pub method: MethodPolicy,
    pub level: LevelPolicy,
    pub mtime: MtimePolicy,
    pub comment: CommentPolicy,
}

/// The view of an optional string.
pub open spec fn opt_view(o: Option<String>) -> Option<Seq<char>> {
    match o {
        Some(s) => Some(s@),
        None => None,
    }
}

impl View for PatchEntry {
    type V = EntryView;

    open spec fn view(&self) -> EntryView {
        EntryView {
            target: self.target@,
            source: opt_view(self.source),
            action: self.action,
            method: self.method,
            level: self.level,
            mtime: self.mtime,
            comment: self.comment,
        }
    }
}

/// The abstract content of an [`Unresolved`] item.
pub struct UnresolvedView {
    pub source: Seq<char>,
    pub reason: Seq<char>,
    pub candidates: Seq<Seq<char>>,
}

impl View for Unresolved {
    type V = UnresolvedView;

    open spec fn view(&self) -> UnresolvedView {
        UnresolvedView { source: self.source@, reason: self.reason@, candidates: views(self.candidates@) }
    }
}

/// The views of a sequence of patch entries.
pub open spec fn entry_views(v: Seq<PatchEntry>) -> Seq<EntryView> {
    v.map_values(|e: PatchEntry| e@)
}

/// The views of a sequence of unresolved items.
pub open spec fn unresolved_views(v: Seq<Unresolved>) -> Seq<UnresolvedView> {
    v.map_values(|u: Unresolved| u@)
}

/// The abstract content of a [`PatchSpec`].
pub struct SpecView {
    pub version: u32,
    pub archive: Option<Seq<char>>,
    pub generated_at: Option<Seq<char>>,
    pub entry: Seq<EntryView>,
    pub unresolved: Seq<UnresolvedView>,
}

impl View for PatchSpec {
    type V = SpecView;

    open spec fn view(&self) -> SpecView {
        SpecView {
            version: self.version,
            archive: opt_view(self.archive),
            generated_at: opt_view(self.generated_at),
            entry: entry_views(self.entry@),
            unresolved: unresolved_views(self.unresolved@),
        }
    }
}

/// What is wrong with one entry on its own, given the targets seen before it.
pub open spec fn entry_problem(e: EntryView, seen: Set<Seq<char>>) -> Option<ErrView> {
    if seen.contains(e.target) {
        Some(ErrView::DuplicateTarget(e.target))
    } else if e.action == Action::Replace && e.source is None {
        Some(ErrView::MissingSource(e.target))
    } else if e.comment != CommentPolicy::Inherit {
        Some(ErrView::UnsupportedComment)
    } else {
        match (e.method, e.level) {
            (MethodPolicy::Stored, LevelPolicy::Fixed(_)) => Some(ErrView::StoredWithFixedLevel),
            (_, LevelPolicy::Fixed(v)) => if v > 9 {
                Some(ErrView::LevelOutOfRange)
            } else {
                None
            },
            _ => None,
        }
    }
}

/// The first problem among `es`, given the targets seen before them.
pub open spec fn first_problem(es: Seq<EntryView>, seen: Set<Seq<char>>) -> Option<ErrView>
    decreases es.len(),
{
    if es.len() == 0 {
        None
    } else {
        match entry_problem(es[0], seen) {
            Some(p) => Some(p),
            None => first_problem(es.skip(1), seen.insert(es[0].target)),
        }
    }
}

/// The meaning of [`PatchSpec::validate`].
pub open spec fn spec_validate(s: SpecView) -> Result<(), ErrView> {
    if s.version != 1 {
        Err(ErrView::UnsupportedVersion(s.version))
    } else if s.unresolved.len() != 0 {
        Err(ErrView::UnresolvedEntries)
    } else {
        match first_problem(s.entry, Set::empty()) {
            Some(p) => Err(p),
            None => Ok(()),
        }
    }
}

/// The default action of an entry: replace.
pub fn default_action() -> (r: Action)
    ensures
        r == Action::Replace,
{
    Action::Replace
}

/// The default method policy of an entry: inherit.
pub fn default_inherit() -> (r: MethodPolicy)
    ensures
        r == MethodPolicy::Inherit,
{
    MethodPolicy::Inherit
}

/// The default level policy of an entry: inherit.
pub fn default_level_policy() -> (r: LevelPolicy)
    ensures
        r == LevelPolicy::Name(LevelName::Inherit),
{
    LevelPolicy::Name(LevelName::Inherit)
}

/// The default mtime policy of an entry: the source file's.
pub fn default_mtime() -> (r: MtimePolicy)
    ensures
        r == MtimePolicy::Source,
{
    MtimePolicy::Source
}

/// The default comment policy of an entry: inherit.
pub fn default_comment() -> (r: CommentPolicy)
    ensures
        r == CommentPolicy::Inherit,
{
    CommentPolicy::Inherit
}

/// Whether `t` is among the first `n` targets of `es`.
fn seen_before(es: &Vec<PatchEntry>, n: usize, t: &String) -> (r: bool)
    requires
        n <= es@.len(),
    ensures
        r == entry_views(es@).take(n as int).map_values(|e: EntryView| e.target).to_set().contains(t@),
{
    let ghost ts = entry_views(es@).take(n as int).map_values(|e: EntryView| e.target);
    for i in 0..n
        invariant
            n <= es@.len(),
            ts == entry_views(es@).take(n as int).map_values(|e: EntryView| e.target),
            forall|j: int| 0 <= j < i ==> es@[j].target@ != t@,
    {
        if es[i].target == *t {
            assert(ts[i as int] == t@);
            return true;
        }
    }
    assert forall|x: Seq<char>| ts.contains(x) implies x != t@ by {
        let j = choose|j: int| 0 <= j < ts.len() && ts[j] == x;
        assert(ts[j] == es@[j].target@);
    }
    false
}

impl PatchSpec {
    /// Checks that the spec can be applied: version 1, nothing unresolved,
    /// and every entry well formed (distinct targets, a source for each
    /// replace, comment inherited, a fixed level only for compressed entries
    /// and never above 9). The first problem found is reported.
    pub fn validate(&self) -> (r: Result<(), ZiprError>)
        ensures
            match (r, spec_validate(self@)) {
                (Ok(()), Ok(())) => true,
                (Err(e), Err(f)) => e@ == f,
                _ => false,
            },
    {
        if self.version != 1 {
            return Err(ZiprError::UnsupportedVersion(self.version));
        }
        if self.unresolved.len() != 0 {
            return Err(ZiprError::UnresolvedEntries);
        }
        let ghost es = entry_views(self.entry@);
        let n = self.entry.len();
        assert(es.skip(0) == es);
        assert(es.take(0).map_values(|e: EntryView| e.target).to_set() =~= Set::<Seq<char>>::empty());
        for i in 0..n
            invariant
                n == self.entry@.len() == es.len(),
                es == entry_views(self.entry@),
                self.version == 1,
                self.unresolved@.len() == 0,
                first_problem(es, Set::empty()) == first_problem(
                    es.skip(i as int),
                    es.take(i as int).map_values(|e: EntryView| e.target).to_set(),
                ),
        {
            let e = &self.entry[i];
            let ghost seen = es.take(i as int).map_values(|e: EntryView| e.target).to_set();
            let ghost rest = es.skip(i as int);
            assert(rest[0] == e@);
            if seen_before(&self.entry, i, &e.target) {
                return Err(ZiprError::DuplicateTarget(e.target.clone()));
            }
            match e.action {
                Action::Replace => {
                    if e.source.is_none() {
                        return Err(ZiprError::MissingSource(e.target.clone()));
                    }
                },
                Action::Delete => {},
            }
            if e.comment != CommentPolicy::Inherit {
                return Err(ZiprError::UnsupportedComment);
            }
            match (e.method, e.level) {
                (MethodPolicy::Stored, LevelPolicy::Fixed(_)) => {
                    return Err(ZiprError::StoredWithFixedLevel);
                },
                (_, LevelPolicy::Fixed(v)) => {
                    if v > 9 {
                        return Err(ZiprError::LevelOutOfRange);
                    }
                },
                _ => {},
            }
            proof {
                assert(rest.skip(1) == es.skip(i + 1));
                assert(es.take(i + 1).map_values(|e: EntryView| e.target) == es.take(i as int).map_values(
                    |e: EntryView| e.target,
                ).push(es[i as int].target));
                es.take(i as int).map_values(|e: EntryView| e.target).lemma_push_to_set_commute(es[i as int].target);
                assert(es.take(i + 1).map_values(|e: EntryView| e.target).to_set() =~= seen.insert(
                    es[i as int].target,
                ));
            }
        }
        assert(es.skip(n as int) =~= Seq::<EntryView>::empty());
        Ok(())
    }
}

/// What a valid patch spec guarantees about its entries: version 1, nothing
/// unresolved, targets pairwise distinct, a source for every replace, and any
/// fixed level between 0 and 9 on an entry that is not stored.
pub proof fn valid_spec_entries_are_well_formed(s: SpecView)
    requires
        spec_validate(s) is Ok,
    ensures
        s.version == 1,
        s.unresolved.len() == 0,
        forall|i: int, j: int| 0 <= i < j < s.entry.len() ==> s.entry[i].target != s.entry[j].target,
        forall|i: int|
            0 <= i < s.entry.len() && s.entry[i].action == Action::Replace ==> (#[trigger] s.entry[i]).source
                is Some,
        forall|i: int|
            0 <= i < s.entry.len() ==> match (#[trigger] s.entry[i]).level {
                LevelPolicy::Fixed(v) => v <= 9 && s.entry[i].method != MethodPolicy::Stored,
                _ => true,
            },
{
    lemma_no_problem(s.entry, Set::empty());
}

proof fn lemma_no_problem(es: Seq<EntryView>, seen: Set<Seq<char>>)
    requires
        first_problem(es, seen) is None,
    ensures
        forall|i: int| 0 <= i < es.len() ==> !seen.contains(#[trigger] es[i].target),
        forall|i: int, j: int| 0 <= i < j < es.len() ==> es[i].target != es[j].target,
        forall|i: int|
            0 <= i < es.len() && es[i].action == Action::Replace ==> (#[trigger] es[i]).source is Some,
        forall|i: int|
            0 <= i < es.len() ==> match (#[trigger] es[i]).level {
                LevelPolicy::Fixed(v) => v <= 9 && es[i].method != MethodPolicy::Stored,
                _ => true,
            },
    decreases es.len(),
{
    if es.len() > 0 {
        let rest = es.skip(1);
        let seen2 = seen.insert(es[0].target);
        lemma_no_problem(rest, seen2);
        assert forall|i: int| 0 <= i < es.len() implies !seen.contains(#[trigger] es[i].target) by {
            if i > 0 {
                assert(es[i] == rest[i - 1]);
            }
        }
        assert forall|i: int, j: int| 0 <= i < j < es.len() implies es[i].target != es[j].target by {
            assert(es[j] == rest[j - 1]);
            if i > 0 {
                assert(es[i] == rest[i - 1]);
            }
        }
        assert forall|i: int|
            0 <= i < es.len() && es[i].action == Action::Replace implies (#[trigger] es[i]).source is Some by {
            if i > 0 {
                assert(es[i] == rest[i - 1]);
            }
        }
        assert forall|i: int|
            0 <= i < es.len() implies match (#[trigger] es[i]).level {
                LevelPolicy::Fixed(v) => v <= 9 && es[i].method != MethodPolicy::Stored,
                _ => true,
            } by {
            if i > 0 {
                assert(es[i] == rest[i - 1]);
            }
        }
    }
}

} // verus!
