//! Which entry names count as nested archives, and the default compression
//! level, from built-in defaults, the `zipr.toml` settings and the command line.
use vstd::prelude::*;

use crate::path_expr::views;
use crate::text::{chars_of, string_of};

verus! {

/// The archive extensions (lower case, without a leading dot) and the
/// default compression level.
#[derive(Debug, Clone)]
pub struct Config {
    pub archive_exts: Vec<String>,
    pub default_level: i64,
}

/// The abstract content of a [`Config`].
pub struct ConfigView {
    pub exts: Set<Seq<char>>,
    pub default_level: int,
}

impl View for Config {
    type V = ConfigView;

    open spec fn view(&self) -> ConfigView {
        ConfigView {
            exts: views(self.archive_exts@).to_set(),
            default_level: self.default_level as int,
        }
    }
}

/// The settings read from the optional `zipr.toml` file.
#[derive(Debug, Clone)]
pub struct FileSettings {
    /// `[archive] extensions`, when present.
    pub extensions: Option<Vec<String>>,
    /// `[compression] default_level`, when present.
    pub default_level: Option<i64>,
}

/// Unicode white space, as `char::is_whitespace` defines it.
pub open spec fn is_white(c: char) -> bool {
    ||| c == '\t' || c == '\n' || c == '\u{0B}' || c == '\u{0C}' || c == '\r' || c == ' '
    ||| c == '\u{85}' || c == '\u{A0}' || c == '\u{1680}'
    ||| ('\u{2000}' <= c && c <= '\u{200A}')
    ||| c == '\u{2028}' || c == '\u{2029}' || c == '\u{202F}' || c == '\u{205F}' || c == '\u{3000}'
}

/// `s` without leading characters satisfying `p`.
pub open spec fn strip_front(s: Seq<char>, p: spec_fn(char) -> bool) -> Seq<char>
    decreases s.len(),
{
    if s.len() > 0 && p(s[0]) {
        strip_front(s.skip(1), p)
    } else {
        s
    }
}

/// `s` without trailing characters satisfying `p`.
pub open spec fn strip_back(s: Seq<char>, p: spec_fn(char) -> bool) -> Seq<char>
    decreases s.len(),
{
    if s.len() > 0 && p(s.last()) {
        strip_back(s.drop_last(), p)
    } else {
        s
    }
}

/// `s` trimmed of white space at both ends (as `str::trim`).
pub open spec fn trim_white(s: Seq<char>) -> Seq<char> {
    strip_back(strip_front(s, |c: char| is_white(c)), |c: char| is_white(c))
}

/// ASCII upper-case letters turned to lower case.
pub open spec fn ascii_lower(s: Seq<char>) -> Seq<char> {
    s.map_values(|c: char| if 'A' <= c && c <= 'Z' { ((c as int) + 32) as char } else { c })
}

/// An extension as compared: trimmed, leading dots removed, ASCII lower case.
pub open spec fn spec_normalize_ext(s: Seq<char>) -> Seq<char> {
    ascii_lower(strip_front(trim_white(s), |c: char| c == '.'))
}

/// The text after the last `.` of `s`, or all of `s` when it has none.
pub open spec fn last_dot_part(s: Seq<char>) -> Seq<char>
    decreases s.len(),
{
    if s.len() == 0 {
        s
    } else if s.last() == '.' {
        Seq::empty()
    } else {
        last_dot_part(s.drop_last()).push(s.last())
    }
}

/// Whether `name` ends in one of the configured archive extensions.
pub open spec fn spec_is_archive_name(exts: Set<Seq<char>>, name: Seq<char>) -> bool {
    exts.contains(spec_normalize_ext(last_dot_part(name)))
}

/// `s` split at every occurrence of `sep` (as `str::split(char)`).
pub open spec fn split_on(s: Seq<char>, sep: char) -> Seq<Seq<char>>
    decreases s.len(),
{
    if s.len() == 0 {
        seq![Seq::<char>::empty()]
    } else if s.last() == sep {
        split_on(s.drop_last(), sep).push(Seq::empty())
    } else {
        let r = split_on(s.drop_last(), sep);
        r.update(r.len() - 1, r.last().push(s.last()))
    }
}

/// The extensions named on the command line: comma separated, each trimmed,
/// empty ones dropped, the rest normalized.
pub open spec fn cli_exts(s: Seq<char>) -> Set<Seq<char>> {
    Set::new(
        |e: Seq<char>|
            exists|k: int|
                0 <= k < split_on(s, ',').len() && trim_white(#[trigger] split_on(s, ',')[k]).len() > 0
                    && e == spec_normalize_ext(trim_white(split_on(s, ',')[k])),
    )
}

/// The built-in archive extensions.
pub open spec fn default_exts() -> Set<Seq<char>> {
    set![seq!['z', 'i', 'p'], seq!['j', 'a', 'r'], seq!['w', 'a', 'r']]
}

/// `v` limited to the range 0 to 9.
pub open spec fn clamp_level(v: int) -> int {
    if v < 0 {
        0
    } else if v > 9 {
        9
    } else {
        v
    }
}

/// The meaning of [`Config::load`].
pub open spec fn spec_load(file: Option<(Option<Seq<Seq<char>>>, Option<int>)>, cli: Option<Seq<char>>) -> ConfigView {
    let (file_exts, file_level) = match file {
        Some((e, l)) => (e, l),
        None => (None, None),
    };
    let exts0 = match file_exts {
        Some(v) => v.map_values(|e: Seq<char>| spec_normalize_ext(e)).to_set(),
        None => default_exts(),
    };
    let level = match file_level {
        Some(l) => clamp_level(l),
        None => 6,
    };
    let exts = match cli {
        Some(s) => if cli_exts(s) != Set::<Seq<char>>::empty() {
            cli_exts(s)
        } else {
            exts0
        },
        None => exts0,
    };
    ConfigView { exts, default_level: level }
}

fn is_white_char(c: char) -> (r: bool)
    ensures
        r == is_white(c),
{
    c == '\t' || c == '\n' || c == '\u{0B}' || c == '\u{0C}' || c == '\r' || c == ' ' || c == '\u{85}'
        || c == '\u{A0}' || c == '\u{1680}' || ('\u{2000}' <= c && c <= '\u{200A}') || c == '\u{2028}'
        || c == '\u{2029}' || c == '\u{202F}' || c == '\u{205F}' || c == '\u{3000}'
}

/// The characters of `v` trimmed of white space at both ends.
pub fn trim_white_chars(v: &[char]) -> (r: Vec<char>)
    ensures
        r@ == trim_white(v@),
{
    let ghost pw = |c: char| is_white(c);
    let n = v.len();
    let mut a: usize = 0;
    assert(v@.skip(0) == v@);
    while a < n && is_white_char(v[a])
        invariant
            a <= n == v@.len(),
            pw == (|c: char| is_white(c)),
            strip_front(v@.skip(a as int), pw) == strip_front(v@, pw),
        decreases n - a,
    {
        assert(v@.skip(a as int).skip(1) == v@.skip(a + 1));
        a = a + 1;
    }
    let ghost lead = v@.skip(a as int);
    assert(strip_front(lead, pw) == lead);
    let mut b: usize = n;
    assert(lead.take(lead.len() as int) == lead);
    while b > a && is_white_char(v[b - 1])
        invariant
            a <= b <= n == v@.len(),
            pw == (|c: char| is_white(c)),
            lead == v@.skip(a as int),
            strip_back(lead.take(b - a), pw) == strip_back(lead, pw),
        decreases b,
    {
        assert(lead.take(b - a).drop_last() == lead.take(b - 1 - a));
        b = b - 1;
    }
    assert(strip_back(lead.take(b - a), pw) == lead.take(b - a));
    let mut out: Vec<char> = Vec::new();
    let mut k = a;
    while k < b
        invariant
            a <= k <= b <= n == v@.len(),
            out@ == v@.subrange(a as int, k as int),
        decreases b - k,
    {
        out.push(v[k]);
        assert(v@.subrange(a as int, k + 1) == v@.subrange(a as int, k as int).push(v@[k as int]));
        k = k + 1;
    }
    assert(out@ =~= lead.take(b - a));
    out
}

/// The normalized form of an extension given as characters.
fn normalize_ext_chars(v: &[char]) -> (r: String)
    ensures
        r@ == spec_normalize_ext(v@),
{
    let t = trim_white_chars(v);
    let ghost pd = |c: char| c == '.';
    let n = t.len();
    let mut a: usize = 0;
    assert(t@.skip(0) == t@);
    while a < n && t[a] == '.'
        invariant
            a <= n == t@.len(),
            pd == (|c: char| c == '.'),
            strip_front(t@.skip(a as int), pd) == strip_front(t@, pd),
        decreases n - a,
    {
        assert(t@.skip(a as int).skip(1) == t@.skip(a + 1));
        a = a + 1;
    }
    let ghost rest = t@.skip(a as int);
    assert(strip_front(rest, pd) == rest);
    let mut out: Vec<char> = Vec::new();
    let mut k = a;
    while k < n
        invariant
            a <= k <= n == t@.len(),
            rest == t@.skip(a as int),
            out@ == ascii_lower(t@.subrange(a as int, k as int)),
        decreases n - k,
    {
        let c = t[k];
        let lc = if 'A' <= c && c <= 'Z' {
            ((c as u32) + 32) as u8 as char
        } else {
            c
        };
        proof {
            if 'A' <= c && c <= 'Z' {
                assert(lc == ((c as int) + 32) as char);
            }
        }
        out.push(lc);
        assert(ascii_lower(t@.subrange(a as int, k + 1)) =~= ascii_lower(t@.subrange(a as int, k as int)).push(
            lc,
        ));
        k = k + 1;
    }
    assert(t@.subrange(a as int, n as int) =~= rest);
    string_of(&out)
}

/// The normalized form of an extension: trimmed, leading dots removed,
/// ASCII lower case.
pub fn normalize_ext(s: &str) -> (r: String)
    ensures
        r@ == spec_normalize_ext(s@),
{
    let v = chars_of(s);
    normalize_ext_chars(&v)
}

/// The normalized forms of a list of extensions.
pub fn normalize_exts(v: Vec<String>) -> (r: Vec<String>)
    ensures
        views(r@) == views(v@).map_values(|e: Seq<char>| spec_normalize_ext(e)),
{
    let mut out: Vec<String> = Vec::new();
    let n = v.len();
    for i in 0..n
        invariant
            n == v@.len(),
            out@.len() == i,
            forall|j: int| 0 <= j < i ==> #[trigger] out@[j]@ == spec_normalize_ext(v@[j]@),
    {
        out.push(normalize_ext(v[i].as_str()));
    }
    assert(views(out@) =~= views(v@).map_values(|e: Seq<char>| spec_normalize_ext(e)));
    out
}

/// The parts of `v` between commas.
fn split_commas(v: &Vec<char>) -> (r: Vec<Vec<char>>)
    ensures
        r@.len() == split_on(v@, ',').len(),
        forall|k: int| 0 <= k < r@.len() ==> #[trigger] r@[k]@ == split_on(v@, ',')[k],
{
    let n = v.len();
    let mut parts: Vec<Vec<char>> = Vec::new();
    let mut cur: Vec<char> = Vec::new();
    assert(v@.take(0) =~= Seq::<char>::empty());
    for i in 0..n
        invariant
            n == v@.len(),
            split_on(v@.take(i as int), ',').len() == parts@.len() + 1,
            forall|k: int| 0 <= k < parts@.len() ==> #[trigger] parts@[k]@ == split_on(v@.take(i as int), ',')[k],
            cur@ == split_on(v@.take(i as int), ',').last(),
    {
        let c = v[i];
        proof {
            let t = v@.take(i + 1);
            assert(t.drop_last() == v@.take(i as int));
            assert(t.last() == c);
        }
        if c == ',' {
            parts.push(cur);
            cur = Vec::new();
        } else {
            cur.push(c);
        }
    }
    assert(v@.take(n as int) == v@);
    parts.push(cur);
    parts
}

/// The normalized extensions among `parts`, in order, skipping parts that
/// are empty after trimming.
pub open spec fn kept_exts(parts: Seq<Seq<char>>) -> Seq<Seq<char>>
    decreases parts.len(),
{
    if parts.len() == 0 {
        Seq::empty()
    } else if trim_white(parts.last()).len() > 0 {
        kept_exts(parts.drop_last()).push(spec_normalize_ext(trim_white(parts.last())))
    } else {
        kept_exts(parts.drop_last())
    }
}

proof fn lemma_kept_exts_contains(parts: Seq<Seq<char>>, e: Seq<char>)
    ensures
        kept_exts(parts).contains(e) <==> exists|k: int|
            0 <= k < parts.len() && trim_white(#[trigger] parts[k]).len() > 0 && e == spec_normalize_ext(
                trim_white(parts[k]),
            ),
    decreases parts.len(),
{
    if parts.len() > 0 {
        let init = parts.drop_last();
        lemma_kept_exts_contains(init, e);
        let kept = kept_exts(parts);
        if kept.contains(e) {
            let j = choose|j: int| 0 <= j < kept.len() && kept[j] == e;
            if j < kept_exts(init).len() {
                assert(kept_exts(init)[j] == e);
                let k = choose|k: int|
                    0 <= k < init.len() && trim_white(#[trigger] init[k]).len() > 0 && e == spec_normalize_ext(
                        trim_white(init[k]),
                    );
                assert(parts[k] == init[k]);
            } else {
                assert(parts[parts.len() - 1] == parts.last());
            }
        }
        if exists|k: int|
            0 <= k < parts.len() && trim_white(#[trigger] parts[k]).len() > 0 && e == spec_normalize_ext(
                trim_white(parts[k]),
            ) {
            let k = choose|k: int|
                0 <= k < parts.len() && trim_white(#[trigger] parts[k]).len() > 0 && e == spec_normalize_ext(
                    trim_white(parts[k]),
                );
            if k < parts.len() - 1 {
                assert(init[k] == parts[k]);
                let j = choose|j: int| 0 <= j < kept_exts(init).len() && kept_exts(init)[j] == e;
                assert(kept[j] == e);
            } else {
                assert(kept[kept.len() - 1] == e);
            }
        }
    }
}

/// The normalized extensions named in a comma separated list, in order,
/// skipping parts that are empty after trimming.
fn parse_cli_exts(s: &str) -> (r: Vec<String>)
    ensures
        views(r@).to_set() == cli_exts(s@),
{
    let v = chars_of(s);
    let parts = split_commas(&v);
    let ghost sp = split_on(s@, ',');
    let mut out: Vec<String> = Vec::new();
    let n = parts.len();
    assert(sp.take(0) =~= Seq::<Seq<char>>::empty());
    for i in 0..n
        invariant
            n == parts@.len() == sp.len(),
            sp == split_on(s@, ','),
            forall|k: int| 0 <= k < n ==> #[trigger] parts@[k]@ == sp[k],
            views(out@) == kept_exts(sp.take(i as int)),
    {
        let t = trim_white_chars(&parts[i]);
        proof {
            assert(sp.take(i + 1).drop_last() == sp.take(i as int));
            assert(sp.take(i + 1).last() == sp[i as int]);
        }
        if t.len() > 0 {
            let e = normalize_ext_chars(&t);
            out.push(e);
            assert(views(out@) =~= kept_exts(sp.take(i as int)).push(e@));
        }
    }
    proof {
        assert(sp.take(n as int) == sp);
        assert forall|e: Seq<char>| views(out@).to_set().contains(e) <==> cli_exts(s@).contains(e) by {
            lemma_kept_exts_contains(sp, e);
        }
        assert(views(out@).to_set() =~= cli_exts(s@));
    }
    out
}

impl Default for Config {
    /// Archive extensions `zip`, `jar`, `war`; default compression level 6.
    fn default() -> (r: Self)
        ensures
            r@ == (ConfigView { exts: default_exts(), default_level: 6 }),
    {
        let mut exts: Vec<String> = Vec::new();
        exts.push(string_of(&['z', 'i', 'p']));
        exts.push(string_of(&['j', 'a', 'r']));
        exts.push(string_of(&['w', 'a', 'r']));
        proof {
            let vs = views(exts@);
            assert(vs =~= seq![seq!['z', 'i', 'p'], seq!['j', 'a', 'r'], seq!['w', 'a', 'r']]);
            assert forall|e: Seq<char>| vs.to_set().contains(e) <==> default_exts().contains(e) by {
                if default_exts().contains(e) {
                    if e == seq!['z', 'i', 'p'] {
                        assert(vs[0] == e);
                    } else if e == seq!['j', 'a', 'r'] {
                        assert(vs[1] == e);
                    } else {
                        assert(vs[2] == e);
                    }
                }
            }
            assert(vs.to_set() =~= default_exts());
        }
        Config { archive_exts: exts, default_level: 6 }
    }
}

impl Config {
    /// The configuration in force: the defaults, overridden by the settings
    /// file when one was read (its extensions normalized, its level clamped
    /// to 0..=9), then by the command-line extension list when that names at
    /// least one extension.
    pub fn load(file: Option<FileSettings>, cli_archive_exts: Option<&str>) -> (r: Config)
        ensures
            r@ == spec_load(
                match file {
                    Some(f) => Some((
                        match f.extensions {
                            Some(v) => Some(views(v@)),
                            None => None,
                        },
                        match f.default_level {
                            Some(l) => Some(l as int),
                            None => None,
                        },
                    )),
                    None => None,
                },
                match cli_archive_exts {
                    Some(s) => Some(s@),
                    None => None,
                },
            ),
    {
        let mut cfg = Config::default();
        match file {
            Some(f) => {
                match f.extensions {
                    Some(v) => {
                        let exts = normalize_exts(v);
                        assert(views(exts@).to_set() == views(v@).map_values(|e: Seq<char>| spec_normalize_ext(e)).to_set());
                        cfg.archive_exts = exts;
                    }
                    None => {}
                }
                match f.default_level {
                    Some(level) => {
                        cfg.default_level = if level < 0 { 0 } else if level > 9 { 9 } else { level };
                    }
                    None => {}
                }
            }
            None => {}
        }
        match cli_archive_exts {
            Some(s) => {
                let parsed = parse_cli_exts(s);
                if parsed.len() > 0 {
                    proof {
                        assert(views(parsed@)[0] == parsed@[0]@);
                        assert(views(parsed@).to_set().contains(parsed@[0]@));
                    }
                    cfg.archive_exts = parsed;
                } else {
                    proof {
                        assert(views(parsed@).to_set() =~= Set::<Seq<char>>::empty());
                    }
                }
            }
            None => {}
        }
        cfg
    }

    /// Whether `name` ends in one of the configured archive extensions: the
    /// text after its last dot, normalized, is one of them.
    pub fn is_archive_name(&self, name: &str) -> (r: bool)
        ensures
            r == spec_is_archive_name(self@.exts, name@),
    {
        let v = chars_of(name);
        let n = v.len();
        let mut start: usize = n;
        assert(v@.take(n as int) =~= v@);
        assert(v@.subrange(n as int, n as int) =~= Seq::<char>::empty());
        while start > 0 && v[start - 1] != '.'
            invariant
                start <= n == v@.len(),
                last_dot_part(v@) == last_dot_part(v@.take(start as int)) + v@.subrange(start as int, n as int),
            decreases start,
        {
            proof {
                let t = v@.take(start as int);
                assert(t.drop_last() == v@.take(start - 1));
                assert(t.last() == v@[start - 1]);
                assert(last_dot_part(t) == last_dot_part(t.drop_last()).push(t.last()));
                assert(last_dot_part(v@.take(start - 1)).push(v@[start - 1]) + v@.subrange(
                    start as int,
                    n as int,
                ) =~= last_dot_part(v@.take(start - 1)) + v@.subrange(start - 1, n as int));
            }
            start = start - 1;
        }
        proof {
            let t = v@.take(start as int);
            if start > 0 {
                assert(t.last() == '.');
            }
            assert(last_dot_part(t) == Seq::<char>::empty());
        }
        let mut tail: Vec<char> = Vec::new();
        let mut k = start;
        while k < n
            invariant
                start <= k <= n == v@.len(),
                tail@ == v@.subrange(start as int, k as int),
            decreases n - k,
        {
            tail.push(v[k]);
            assert(v@.subrange(start as int, k + 1) == v@.subrange(start as int, k as int).push(v@[k as int]));
            k = k + 1;
        }
        assert(tail@ =~= last_dot_part(v@));
        let ext = normalize_ext_chars(&tail);
        self.has_ext(&ext)
    }

    /// Whether `ext` is one of the configured extensions.
    fn has_ext(&self, ext: &String) -> (r: bool)
        ensures
            r == self@.exts.contains(ext@),
    {
        let n = self.archive_exts.len();
        for i in 0..n
            invariant
                n == self.archive_exts@.len(),
                forall|j: int| 0 <= j < i ==> self.archive_exts@[j]@ != ext@,
        {
            if self.archive_exts[i] == *ext {
                assert(views(self.archive_exts@)[i as int] == ext@);
                return true;
            }
        }
        assert forall|e: Seq<char>| views(self.archive_exts@).contains(e) implies e != ext@ by {
            let j = choose|j: int| 0 <= j < views(self.archive_exts@).len() && views(self.archive_exts@)[j] == e;
            assert(self.archive_exts@[j]@ == e);
        }
        false
    }
}

} // verus!
