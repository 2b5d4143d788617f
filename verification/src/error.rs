//! The library's error type, and its abstract view used in contracts.
use vstd::prelude::*;
use zip::result::ZipError;

use crate::text::{concat2, concat3, digits, fmt_radix};

verus! {

#[verifier::external_type_specification]
#[verifier::external_body]
pub struct ExZipError(ZipError);

/// Every failure the library reports.
#[derive(Debug)]
pub enum ZiprError {
    /// A zip expression without any `!/` separator.
    MissingArchiveSeparator,
    /// A zip expression whose root archive path is empty.
    EmptyRootArchive,
    /// A zip expression with an empty segment after trimming slashes.
    EmptySegment,
    /// A zip expression with no segments at all.
    NoTarget,
    /// The zip reader or writer failed.
    Zip(ZipError),
    /// An entry looked up by name does not exist.
    EntryNotFound(String),
    /// An archive segment of a nested chain could not be read.
    SegmentNotFound(String),
    /// The final entry of an expression could not be read.
    TargetEntryNotFound,
    /// A segment that must be a nested archive lacks an archive extension.
    NotArchiveSegment(String),
    /// A path continues below an entry that is not an archive.
    NestedNotArchive(String),
    /// A rewrite was asked for with no segments.
    EmptyPathSegments,
    /// A delete or replace found no entry at the given path.
    TargetNotFound(String),
    /// Nested archives go deeper than the traversal allows.
    NestingTooDeep,
    /// A patch spec has a version other than 1.
    UnsupportedVersion(u32),
    /// A patch spec still lists unresolved sources.
    UnresolvedEntries,
    /// Two patch entries name the same target.
    DuplicateTarget(String),
    /// A replace entry has no source.
    MissingSource(String),
    /// A patch entry asks for a comment policy other than `inherit`.
    UnsupportedComment,
    /// A stored entry is given a fixed compression level.
    StoredWithFixedLevel,
    /// A fixed compression level above 9.
    LevelOutOfRange,
    /// A delete entry of a patch found no target.
    DeleteTargetNotFound(String),
    /// A replace entry of a patch found no target.
    ReplaceTargetNotFound(String),
    /// A replace entry of a patch was applied without source bytes.
    ReplaceSourceMissing(String),
    /// An entry to be written has a name longer than the zip writer can store.
    NameTooLong(String),
}

/// What a [`ZiprError`] says, with names as character sequences and the
/// zip reader's own error left abstract.
pub enum ErrView {
    MissingArchiveSeparator,
    EmptyRootArchive,
    EmptySegment,
    NoTarget,
    Zip,
    EntryNotFound(Seq<char>),
    SegmentNotFound(Seq<char>),
    TargetEntryNotFound,
    NotArchiveSegment(Seq<char>),
    NestedNotArchive(Seq<char>),
    EmptyPathSegments,
    TargetNotFound(Seq<char>),
    NestingTooDeep,
    UnsupportedVersion(u32),
    UnresolvedEntries,
    DuplicateTarget(Seq<char>),
    MissingSource(Seq<char>),
    UnsupportedComment,
    StoredWithFixedLevel,
    LevelOutOfRange,
    DeleteTargetNotFound(Seq<char>),
    ReplaceTargetNotFound(Seq<char>),
    ReplaceSourceMissing(Seq<char>),
    NameTooLong(Seq<char>),
}

impl View for ZiprError {
    type V = ErrView;

    open spec fn view(&self) -> ErrView {
        match self {
            ZiprError::MissingArchiveSeparator => ErrView::MissingArchiveSeparator,
            ZiprError::EmptyRootArchive => ErrView::EmptyRootArchive,
            ZiprError::EmptySegment => ErrView::EmptySegment,
            ZiprError::NoTarget => ErrView::NoTarget,
            ZiprError::Zip(_) => ErrView::Zip,
            ZiprError::EntryNotFound(n) => ErrView::EntryNotFound(n@),
            ZiprError::SegmentNotFound(n) => ErrView::SegmentNotFound(n@),
            ZiprError::TargetEntryNotFound => ErrView::TargetEntryNotFound,
            ZiprError::NotArchiveSegment(n) => ErrView::NotArchiveSegment(n@),
            ZiprError::NestedNotArchive(n) => ErrView::NestedNotArchive(n@),
            ZiprError::EmptyPathSegments => ErrView::EmptyPathSegments,
            ZiprError::TargetNotFound(n) => ErrView::TargetNotFound(n@),
            ZiprError::NestingTooDeep => ErrView::NestingTooDeep,
            ZiprError::UnsupportedVersion(v) => ErrView::UnsupportedVersion(*v),
            ZiprError::UnresolvedEntries => ErrView::UnresolvedEntries,
            ZiprError::DuplicateTarget(n) => ErrView::DuplicateTarget(n@),
            ZiprError::MissingSource(n) => ErrView::MissingSource(n@),
            ZiprError::UnsupportedComment => ErrView::UnsupportedComment,
            ZiprError::StoredWithFixedLevel => ErrView::StoredWithFixedLevel,
            ZiprError::LevelOutOfRange => ErrView::LevelOutOfRange,
            ZiprError::DeleteTargetNotFound(n) => ErrView::DeleteTargetNotFound(n@),
            ZiprError::ReplaceTargetNotFound(n) => ErrView::ReplaceTargetNotFound(n@),
            ZiprError::ReplaceSourceMissing(n) => ErrView::ReplaceSourceMissing(n@),
            ZiprError::NameTooLong(n) => ErrView::NameTooLong(n@),
        }
    }
}

/// An executable result agrees with its abstract counterpart: the same
/// success value (by view) or the same error (by view).
pub open spec fn agrees<T: View>(r: Result<T, ZiprError>, s: Result<T::V, ErrView>) -> bool {
    match (r, s) {
        (Ok(v), Ok(w)) => v@ == w,
        (Err(e), Err(f)) => e@ == f,
        _ => false,
    }
}

/// An executable result agrees with its abstract counterpart, the success
/// value being abstracted by `f`.
pub open spec fn agrees_by<T, U>(r: Result<T, ZiprError>, s: Result<U, ErrView>, f: spec_fn(T) -> U) -> bool {
    match (r, s) {
        (Ok(v), Ok(w)) => f(v) == w,
        (Err(e), Err(g)) => e@ == g,
        _ => false,
    }
}

/// The text of an error, for every error but the zip reader's own.
pub open spec fn error_text(e: ErrView) -> Seq<char> {
    match e {
        ErrView::MissingArchiveSeparator => "invalid zip expression: expected `outer.zip!/path/in/archive`"@,
        ErrView::EmptyRootArchive => "invalid zip expression: empty root archive"@,
        ErrView::EmptySegment => "invalid zip expression: empty segment"@,
        ErrView::NoTarget => "zip expression has no entry target"@,
        ErrView::Zip => Seq::empty(),
        ErrView::EntryNotFound(n) => "entry `"@ + n + "` not found"@,
        ErrView::SegmentNotFound(n) => "archive segment `"@ + n + "` not found in nested chain"@,
        ErrView::TargetEntryNotFound => "target entry not found"@,
        ErrView::NotArchiveSegment(n) => "segment `"@ + n + "` is not recognized as an archive extension"@,
        ErrView::NestedNotArchive(n) => "segment `"@ + n + "` is not an archive but nested path continues"@,
        ErrView::EmptyPathSegments => "empty path segments"@,
        ErrView::TargetNotFound(n) => "target entry not found: "@ + n,
        ErrView::NestingTooDeep => "nested archives go deeper than can be followed"@,
        ErrView::UnsupportedVersion(v) => "unsupported patch spec version "@ + digits(v as nat, 10) + ", expected 1"@,
        ErrView::UnresolvedEntries => "patch spec contains unresolved entries; fix or remove them before apply"@,
        ErrView::DuplicateTarget(n) => "duplicate target in patch spec: "@ + n,
        ErrView::MissingSource(n) => "replace entry missing source for target "@ + n,
        ErrView::UnsupportedComment => "only comment=inherit is supported"@,
        ErrView::StoredWithFixedLevel => "stored method cannot use a fixed compression level"@,
        ErrView::LevelOutOfRange => "compression level must be between 0 and 9"@,
        ErrView::DeleteTargetNotFound(n) => "target not found during delete: "@ + n,
        ErrView::ReplaceTargetNotFound(n) => "target not found during replace: "@ + n,
        ErrView::ReplaceSourceMissing(n) => "replace entry missing source: "@ + n,
        ErrView::NameTooLong(n) => "entry name too long to be written: "@ + n,
    }
}

/// The text of a zip reader or writer error (its `Display` form).
#[verifier::external_body]
fn zip_error_text(e: &ZipError) -> String {
    format!("{e}")
}

impl ZiprError {
    /// What went wrong, in words. For an error of the zip crate this is that
    /// crate's own text, of which nothing is stated here.
    pub fn message(&self) -> (r: String)
        ensures
            !(self@ is Zip) ==> r@ == error_text(self@),
    {
        match self {
            ZiprError::MissingArchiveSeparator => "invalid zip expression: expected `outer.zip!/path/in/archive`".to_string(),
            ZiprError::EmptyRootArchive => "invalid zip expression: empty root archive".to_string(),
            ZiprError::EmptySegment => "invalid zip expression: empty segment".to_string(),
            ZiprError::NoTarget => "zip expression has no entry target".to_string(),
            ZiprError::Zip(e) => zip_error_text(e),
            ZiprError::EntryNotFound(n) => concat3("entry `", n.as_str(), "` not found"),
            ZiprError::SegmentNotFound(n) => concat3("archive segment `", n.as_str(), "` not found in nested chain"),
            ZiprError::TargetEntryNotFound => "target entry not found".to_string(),
            ZiprError::NotArchiveSegment(n) => concat3("segment `", n.as_str(), "` is not recognized as an archive extension"),
            ZiprError::NestedNotArchive(n) => concat3("segment `", n.as_str(), "` is not an archive but nested path continues"),
            ZiprError::EmptyPathSegments => "empty path segments".to_string(),
            ZiprError::TargetNotFound(n) => concat2("target entry not found: ", n.as_str()),
            ZiprError::NestingTooDeep => "nested archives go deeper than can be followed".to_string(),
            ZiprError::UnsupportedVersion(v) => {
                let digits10 = fmt_radix(*v as u64, 10, 0, '0');
                concat3("unsupported patch spec version ", digits10.as_str(), ", expected 1")
            },
            ZiprError::UnresolvedEntries => "patch spec contains unresolved entries; fix or remove them before apply".to_string(),
            ZiprError::DuplicateTarget(n) => concat2("duplicate target in patch spec: ", n.as_str()),
            ZiprError::MissingSource(n) => concat2("replace entry missing source for target ", n.as_str()),
            ZiprError::UnsupportedComment => "only comment=inherit is supported".to_string(),
            ZiprError::StoredWithFixedLevel => "stored method cannot use a fixed compression level".to_string(),
            ZiprError::LevelOutOfRange => "compression level must be between 0 and 9".to_string(),
            ZiprError::DeleteTargetNotFound(n) => concat2("target not found during delete: ", n.as_str()),
            ZiprError::ReplaceTargetNotFound(n) => concat2("target not found during replace: ", n.as_str()),
            ZiprError::ReplaceSourceMissing(n) => concat2("replace entry missing source: ", n.as_str()),
            ZiprError::NameTooLong(n) => concat2("entry name too long to be written: ", n.as_str()),
        }
    }
}

} // verus!
