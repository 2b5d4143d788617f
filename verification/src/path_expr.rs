//! Zip expressions: `outer.zip!/inner.jar!/path/in/inner` names an entry
//! inside (possibly nested) archives.
use vstd::prelude::*;

use crate::error::{agrees, ErrView, ZiprError};
use crate::text::{chars_of, forward_slashes, slashes_forward, string_of, concat3};

verus! {

/// A parsed zip expression: the archive on disk, then one segment per
/// nesting level, the last of which is the entry addressed.
#[derive(Debug, Clone)]
pub struct ZipExpr {
    pub root_archive: String,
    pub segments: Vec<String>,
}

/// The abstract content of a [`ZipExpr`].
pub struct ExprView {
    pub root: Seq<char>,
    pub segments: Seq<Seq<char>>,
}

/// The views of a sequence of strings.
pub open spec fn views(v: Seq<String>) -> Seq<Seq<char>> {
    v.map_values(|s: String| s@)
}

impl View for ZipExpr {
    type V = ExprView;

    open spec fn view(&self) -> ExprView {
        ExprView { root: self.root_archive@, segments: views(self.segments@) }
    }
}

/// `s` split at every `!/`, scanning left to right (as `str::split("!/")`).
pub open spec fn split_bang(s: Seq<char>) -> Seq<Seq<char>>
    decreases s.len(),
{
    if s.len() == 0 {
        seq![Seq::<char>::empty()]
    } else if s.len() >= 2 && s[0] == '!' && s[1] == '/' {
        seq![Seq::<char>::empty()] + split_bang(s.skip(2))
    } else {
        let r = split_bang(s.skip(1));
        r.update(0, seq![s[0]] + r[0])
    }
}

/// `s` without its leading slashes.
pub open spec fn trim_leading(s: Seq<char>) -> Seq<char>
    decreases s.len(),
{
    if s.len() > 0 && s[0] == '/' {
        trim_leading(s.skip(1))
    } else {
        s
    }
}

/// `s` without its trailing slashes.
pub open spec fn trim_trailing(s: Seq<char>) -> Seq<char>
    decreases s.len(),
{
    if s.len() > 0 && s.last() == '/' {
        trim_trailing(s.drop_last())
    } else {
        s
    }
}

/// `s` without leading or trailing slashes (as `trim_matches('/')`).
pub open spec fn trim_slashes(s: Seq<char>) -> Seq<char> {
    trim_trailing(trim_leading(s))
}

/// A segment as stored in a [`ZipExpr`]: trimmed of slashes, backslashes
/// turned into slashes.
pub open spec fn normalize_segment(p: Seq<char>) -> Seq<char> {
    slashes_forward(trim_slashes(p))
}

/// The meaning of [`parse_zip_expr`].
pub open spec fn spec_parse_zip_expr(input: Seq<char>) -> Result<ExprView, ErrView> {
    let parts = split_bang(input);
    if parts.len() < 2 {
        Err(ErrView::MissingArchiveSeparator)
    } else if parts[0].len() == 0 {
        Err(ErrView::EmptyRootArchive)
    } else if exists|k: int| 1 <= k < parts.len() && #[trigger] trim_slashes(parts[k]).len() == 0 {
        Err(ErrView::EmptySegment)
    } else {
        Ok(
            ExprView {
                root: parts[0],
                segments: parts.skip(1).map_values(|p: Seq<char>| normalize_segment(p)),
            },
        )
    }
}

/// `prefix!/entry`, or `entry` alone when the prefix is empty.
pub open spec fn spec_make_expr(prefix: Seq<char>, entry: Seq<char>) -> Seq<char> {
    if prefix.len() == 0 {
        entry
    } else {
        prefix + seq!['!', '/'] + entry
    }
}

/// `root` followed by each of `segs`, joined with `!/`, as listings name
/// the entries of nested archives.
pub open spec fn spec_join_expr(root: Seq<char>, segs: Seq<Seq<char>>) -> Seq<char>
    decreases segs.len(),
{
    if segs.len() == 0 {
        root
    } else {
        spec_make_expr(spec_join_expr(root, segs.drop_last()), segs.last())
    }
}

/// Splitting at `!/` splits the two sides of an inserted `!/` on their own:
/// no occurrence can straddle it, since it begins with `!`.
proof fn lemma_split_concat(a: Seq<char>, b: Seq<char>)
    ensures
        split_bang(a + seq!['!', '/'] + b) == split_bang(a) + split_bang(b),
    decreases a.len(),
{
    let s = a + seq!['!', '/'] + b;
    if a.len() == 0 {
        assert(s =~= seq!['!', '/'] + b);
        assert(s.skip(2) =~= b);
    } else if a.len() >= 2 && a[0] == '!' && a[1] == '/' {
        assert(s.skip(2) =~= a.skip(2) + seq!['!', '/'] + b);
        lemma_split_concat(a.skip(2), b);
    } else {
        assert(s.skip(1) =~= a.skip(1) + seq!['!', '/'] + b);
        lemma_split_concat(a.skip(1), b);
        lemma_split_nonempty(a.skip(1));
        let r = split_bang(a.skip(1));
        assert(split_bang(s) == (r + split_bang(b)).update(0, seq![a[0]] + r[0]));
        assert((r + split_bang(b)).update(0, seq![a[0]] + r[0]) =~= r.update(0, seq![a[0]] + r[0]) + split_bang(b));
    }
}

/// A joined expression splits back into its root and segments.
proof fn lemma_split_joined(root: Seq<char>, segs: Seq<Seq<char>>)
    requires
        root.len() > 0,
        split_bang(root) == seq![root],
        forall|k: int| 0 <= k < segs.len() ==> split_bang(#[trigger] segs[k]) == seq![segs[k]],
    ensures
        split_bang(spec_join_expr(root, segs)) == seq![root] + segs,
        spec_join_expr(root, segs).len() > 0,
    decreases segs.len(),
{
    if segs.len() == 0 {
        assert(seq![root] + segs =~= seq![root]);
    } else {
        let init = segs.drop_last();
        lemma_split_joined(root, init);
        let p = spec_join_expr(root, init);
        assert(split_bang(segs.last()) == seq![segs.last()]);
        lemma_split_concat(p, segs.last());
        assert(seq![root] + init + seq![segs.last()] =~= seq![root] + segs);
    }
}

/// Joining is folding [`make_expr`] over the segments, from the root.
pub proof fn lemma_join_is_fold(root: Seq<char>, segs: Seq<Seq<char>>)
    ensures
        spec_join_expr(root, segs) == segs.fold_left(root, |p: Seq<char>, x: Seq<char>| spec_make_expr(p, x)),
    decreases segs.len(),
{
    if segs.len() > 0 {
        lemma_join_is_fold(root, segs.drop_last());
    }
}

/// Joining a root archive and segments with `!/`, and parsing the result,
/// gives them back, when none of them contains `!/`, the root is not empty,
/// and each segment is already in the form parsing gives segments (not
/// empty once trimmed of slashes, no surrounding slashes, no backslashes).
/// The joined expression is the fold of [`make_expr`] over the segments
/// ([`lemma_join_is_fold`]).
pub proof fn law_parse_joined_expr(root: Seq<char>, segs: Seq<Seq<char>>)
    requires
        root.len() > 0,
        segs.len() > 0,
        split_bang(root) == seq![root],
        forall|k: int|
            0 <= k < segs.len() ==> split_bang(#[trigger] segs[k]) == seq![segs[k]] && trim_slashes(segs[k]).len() > 0
                && normalize_segment(segs[k]) == segs[k],
    ensures
        spec_parse_zip_expr(spec_join_expr(root, segs)) == Ok::<ExprView, ErrView>(ExprView { root, segments: segs }),
        spec_parse_zip_expr(segs.fold_left(root, |p: Seq<char>, x: Seq<char>| spec_make_expr(p, x))) == Ok::<
            ExprView,
            ErrView,
        >(ExprView { root, segments: segs }),
{
    lemma_join_is_fold(root, segs);
    lemma_split_joined(root, segs);
    let parts = split_bang(spec_join_expr(root, segs));
    assert(parts.skip(1) =~= segs);
    assert forall|k: int| 1 <= k < parts.len() implies #[trigger] trim_slashes(parts[k]).len() != 0 by {
        assert(parts[k] == segs[k - 1]);
    }
    assert(parts.skip(1).map_values(|p: Seq<char>| normalize_segment(p)) =~= segs);
}

/// The number of `!/` in `s`, found left to right without overlap (as
/// `str::matches("!/").count()`).
pub open spec fn count_separators(s: Seq<char>) -> nat
    decreases s.len(),
{
    if s.len() == 0 {
        0
    } else if s.len() >= 2 && s[0] == '!' && s[1] == '/' {
        1 + count_separators(s.skip(2))
    } else {
        count_separators(s.skip(1))
    }
}

proof fn lemma_split_count(s: Seq<char>)
    ensures
        split_bang(s).len() == count_separators(s) + 1,
    decreases s.len(),
{
    if s.len() == 0 {
    } else if s.len() >= 2 && s[0] == '!' && s[1] == '/' {
        lemma_split_count(s.skip(2));
    } else {
        lemma_split_count(s.skip(1));
    }
}

/// A parsed expression has one segment for each `!/` of its text, and each
/// segment is not empty and holds no backslash.
pub proof fn law_parsed_segments(input: Seq<char>)
    ensures
        spec_parse_zip_expr(input) matches Ok(e) ==> {
            &&& e.segments.len() == count_separators(input)
            &&& forall|k: int| 0 <= k < e.segments.len() ==> (#[trigger] e.segments[k]).len() > 0 && !e.segments[k].contains('\\')
        },
{
    lemma_split_count(input);
    if let Ok(e) = spec_parse_zip_expr(input) {
        let parts = split_bang(input);
        assert forall|k: int| 0 <= k < e.segments.len() implies (#[trigger] e.segments[k]).len() > 0 && !e.segments[k].contains('\\') by {
            assert(e.segments[k] == normalize_segment(parts[k + 1]));
            assert(trim_slashes(parts[k + 1]).len() != 0);
            let t = trim_slashes(parts[k + 1]);
            assert(e.segments[k] == slashes_forward(t));
            if e.segments[k].contains('\\') {
                let q = choose|q: int| 0 <= q < e.segments[k].len() && e.segments[k][q] == '\\';
                assert(slashes_forward(t)[q] == (if t[q] == '\\' { '/' } else { t[q] }));
            }
        }
    }
}

proof fn lemma_split_nonempty(s: Seq<char>)
    ensures
        split_bang(s).len() >= 1,
    decreases s.len(),
{
    if s.len() == 0 {
    } else if s.len() >= 2 && s[0] == '!' && s[1] == '/' {
        lemma_split_nonempty(s.skip(2));
    } else {
        lemma_split_nonempty(s.skip(1));
    }
}

/// The parts of `v` between occurrences of `!/`.
fn split_parts(v: &Vec<char>) -> (r: Vec<Vec<char>>)
    ensures
        r@.len() == split_bang(v@).len(),
        forall|k: int| 0 <= k < r@.len() ==> #[trigger] r@[k]@ == split_bang(v@)[k],
{
    let n = v.len();
    let mut parts: Vec<Vec<char>> = Vec::new();
    let mut cur: Vec<char> = Vec::new();
    let mut i: usize = 0;
    let ghost mut pv: Seq<Seq<char>> = Seq::empty();
    proof {
        assert(v@.skip(0) == v@);
        lemma_split_nonempty(v@);
        let sb = split_bang(v@);
        assert(cur@ + sb[0] =~= sb[0]);
        assert(pv + seq![sb[0]] + sb.skip(1) =~= sb);
    }
    while i < n
        invariant
            n == v@.len(),
            i <= n,
            pv.len() == parts@.len(),
            forall|k: int| 0 <= k < pv.len() ==> #[trigger] parts@[k]@ == pv[k],
            split_bang(v@.skip(i as int)).len() >= 1,
            pv + seq![cur@ + split_bang(v@.skip(i as int))[0]] + split_bang(v@.skip(i as int)).skip(1)
                == split_bang(v@),
        decreases n - i,
    {
        let ghost s = v@.skip(i as int);
        if i + 1 < n && v[i] == '!' && v[i + 1] == '/' {
            proof {
                assert(s.skip(2) == v@.skip(i + 2));
                lemma_split_nonempty(s.skip(2));
                let rest = split_bang(s.skip(2));
                assert(split_bang(s) == seq![Seq::<char>::empty()] + rest);
                assert(split_bang(s)[0] == Seq::<char>::empty());
                assert(split_bang(s).skip(1) =~= rest);
                assert(cur@ + Seq::<char>::empty() =~= cur@);
                assert(pv.push(cur@) + seq![Seq::<char>::empty() + rest[0]] + rest.skip(1) =~= pv
                    + seq![cur@] + rest) by {
                    assert(Seq::<char>::empty() + rest[0] =~= rest[0]);
                    assert(seq![rest[0]] + rest.skip(1) =~= rest);
                }
                assert(pv + seq![cur@ + split_bang(s)[0]] + split_bang(s).skip(1) =~= pv + seq![
                    cur@,
                ] + rest);
                pv = pv.push(cur@);
            }
            parts.push(cur);
            cur = Vec::new();
            i = i + 2;
            proof {
                assert(cur@ + split_bang(v@.skip(i as int))[0] =~= split_bang(v@.skip(i as int))[0]);
                assert(seq![split_bang(v@.skip(i as int))[0]] + split_bang(v@.skip(i as int)).skip(1)
                    =~= split_bang(v@.skip(i as int)));
            }
        } else {
            let c = v[i];
            proof {
                assert(s.skip(1) == v@.skip(i + 1));
                lemma_split_nonempty(s.skip(1));
                let r = split_bang(s.skip(1));
                assert(split_bang(s) == r.update(0, seq![c] + r[0]));
                assert(split_bang(s)[0] == seq![c] + r[0]);
                assert(split_bang(s).skip(1) =~= r.skip(1));
                assert(cur@ + (seq![c] + r[0]) =~= cur@.push(c) + r[0]);
            }
            cur.push(c);
            i = i + 1;
        }
    }
    proof {
        assert(v@.skip(n as int) =~= Seq::<char>::empty());
        assert(split_bang(v@.skip(n as int)) == seq![Seq::<char>::empty()]);
        assert(cur@ + Seq::<char>::empty() =~= cur@);
        assert(split_bang(v@.skip(n as int)).skip(1) =~= Seq::<Seq<char>>::empty());
        assert(pv + seq![cur@] =~= split_bang(v@));
        pv = pv.push(cur@);
    }
    parts.push(cur);
    parts
}

/// `v` without leading or trailing slashes.
fn trim_slash_chars(v: &Vec<char>) -> (r: Vec<char>)
    ensures
        r@ == trim_slashes(v@),
{
    let n = v.len();
    let mut a: usize = 0;
    assert(v@.skip(0) == v@);
    while a < n && v[a] == '/'
        invariant
            a <= n == v@.len(),
            trim_leading(v@.skip(a as int)) == trim_leading(v@),
        decreases n - a,
    {
        assert(v@.skip(a as int).skip(1) == v@.skip(a + 1));
        a = a + 1;
    }
    let ghost lead = v@.skip(a as int);
    assert(trim_leading(lead) == lead);
    let mut b: usize = n;
    assert(lead.take(lead.len() as int) == lead);
    while b > a && v[b - 1] == '/'
        invariant
            a <= b <= n == v@.len(),
            lead == v@.skip(a as int),
            trim_trailing(lead.take(b - a)) == trim_trailing(lead),
        decreases b,
    {
        assert(lead.take(b - a).drop_last() == lead.take(b - 1 - a));
        b = b - 1;
    }
    assert(trim_trailing(lead.take(b - a)) == lead.take(b - a));
    let mut out: Vec<char> = Vec::new();
    let mut k = a;
    while k < b
        invariant
            a <= k <= b <= n == v@.len(),
            out@ == v@.subrange(a as int, k as int),
        decreases b - k,
    {
        out.push(v[k]);
        assert(v@.subrange(a as int, k + 1) == v@.subrange(a as int, k as int).push(v@[k as int]));
        k = k + 1;
    }
    assert(out@ =~= lead.take(b - a));
    out
}

/// Parses `outer.zip!/seg1!/seg2`: the text before the first `!/` is the
/// root archive, every later part is a segment with its surrounding slashes
/// removed and its backslashes turned into slashes.
pub fn parse_zip_expr(input: &str) -> (r: Result<ZipExpr, ZiprError>)
    ensures
        agrees(r, spec_parse_zip_expr(input@)),
{
    let v = chars_of(input);
    let parts = split_parts(&v);
    let ghost sp = split_bang(input@);
    if parts.len() < 2 {
        return Err(ZiprError::MissingArchiveSeparator);
    }
    if parts[0].len() == 0 {
        assert(sp[0].len() == 0);
        return Err(ZiprError::EmptyRootArchive);
    }
    assert(sp[0].len() != 0);
    let root = string_of(&parts[0]);
    let mut segments: Vec<String> = Vec::new();
    let n = parts.len();
    let mut k: usize = 1;
    while k < n
        invariant
            1 <= k <= n == parts@.len() == sp.len(),
            sp == split_bang(input@),
            sp[0].len() != 0,
            n >= 2,
            forall|j: int| 0 <= j < n ==> #[trigger] parts@[j]@ == sp[j],
            forall|j: int| 1 <= j < k ==> #[trigger] trim_slashes(sp[j]).len() > 0,
            segments@.len() == k - 1,
            forall|j: int|
                0 <= j < k - 1 ==> #[trigger] segments@[j]@ == normalize_segment(sp[j + 1]),
        decreases n - k,
    {
        let t = trim_slash_chars(&parts[k]);
        if t.len() == 0 {
            assert(parts@[k as int]@ == sp[k as int]);
            assert(trim_slashes(sp[k as int]).len() == 0);
            return Err(ZiprError::EmptySegment);
        }
        let ts = string_of(&t);
        segments.push(forward_slashes(ts.as_str()));
        k = k + 1;
    }
    let r = ZipExpr { root_archive: root, segments };
    proof {
        assert(!(exists|k: int| 1 <= k < sp.len() && #[trigger] trim_slashes(sp[k]).len() == 0));
        assert(views(r.segments@) =~= sp.skip(1).map_values(|p: Seq<char>| normalize_segment(p)));
    }
    Ok(r)
}

/// Joins a prefix and an entry name with `!/`; an empty prefix yields the
/// entry name alone.
pub fn make_expr(prefix: &str, entry_name: &str) -> (r: String)
    ensures
        r@ == spec_make_expr(prefix@, entry_name@),
{
    if prefix.is_empty() {
        entry_name.to_owned()
    } else {
        let r = concat3(prefix, "!/", entry_name);
        proof {
            reveal_strlit("!/");
        }
        r
    }
}

/// A path as written inside an archive: backslashes become slashes.
pub fn normalize_path_for_zip(path: &str) -> (r: String)
    ensures
        r@ == slashes_forward(path@),
{
    forward_slashes(path)
}

impl ZipExpr {
    /// The entry the expression finally addresses: its last segment.
    pub fn target(&self) -> (r: Result<&str, ZiprError>)
        ensures
            self.segments@.len() == 0 ==> (r matches Err(e) && e@ == ErrView::NoTarget),
            self.segments@.len() > 0 ==> (r matches Ok(t) && t@ == self.segments@.last()@),
    {
        let n = self.segments.len();
        if n == 0 {
            Err(ZiprError::NoTarget)
        } else {
            Ok(self.segments[n - 1].as_str())
        }
    }

    /// The nested archives to open before the target: every segment but the last.
    pub fn archive_chain(&self) -> (r: &[String])
        ensures
            self.segments@.len() == 0 ==> r@.len() == 0,
            self.segments@.len() > 0 ==> r@ == self.segments@.drop_last(),
    {
        let n = self.segments.len();
        if n == 0 {
            &self.segments.as_slice()[0..0]
        } else {
            let s = self.segments.as_slice();
            &s[0..n - 1]
        }
    }
}

} // verus!
