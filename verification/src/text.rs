//! Character-level helpers shared by the path, configuration and report code:
//! conversions between strings and character vectors, simple transformations,
//! and fixed-radix number rendering.
use vstd::prelude::*;

verus! {

/// The characters of a string slice, as a vector.
pub fn chars_of(s: &str) -> (r: Vec<char>)
    ensures
        r@ == s@,
{
    let mut out: Vec<char> = Vec::new();
    for c in it: s.chars()
        invariant
            out@ == it.seq().take(it.index() as int),
            it.seq() == s@,
    {
        out.push(c);
    }
    out
}

/// Appends one character to a string (`String::push`).
#[verifier::external_body]
fn push_char(s: &mut String, c: char)
    ensures
        final(s)@ == old(s)@.push(c),
{
    s.push(c);
}

/// A string holding exactly the given characters.
pub fn string_of(v: &[char]) -> (r: String)
    ensures
        r@ == v@,
{
    let mut out = String::new();
    let n = v.len();
    for i in 0..n
        invariant
            n == v@.len(),
            out@ == v@.take(i as int),
    {
        push_char(&mut out, v[i]);
        assert(v@.take(i + 1) == v@.take(i as int).push(v@[i as int]));
    }
    assert(v@.take(n as int) == v@);
    out
}

/// Concatenation of two strings into a fresh one.
pub fn concat2(a: &str, b: &str) -> (r: String)
    ensures
        r@ == a@ + b@,
{
    let mut s = a.to_owned();
    s.append(b);
    s
}

/// Concatenation of three strings into a fresh one.
pub fn concat3(a: &str, b: &str, c: &str) -> (r: String)
    ensures
        r@ == a@ + b@ + c@,
{
    let mut s = a.to_owned();
    s.append(b);
    s.append(c);
    s
}

/// Equality of two string slices, character by character.
pub fn str_eq(a: &str, b: &str) -> (r: bool)
    ensures
        r == (a@ == b@),
{
    let x = chars_of(a);
    let y = chars_of(b);
    seq_eq(&x, &y)
}

/// Equality of two character slices.
pub fn seq_eq(x: &[char], y: &[char]) -> (r: bool)
    ensures
        r == (x@ == y@),
{
    if x.len() != y.len() {
        return false;
    }
    let n = x.len();
    for i in 0..n
        invariant
            n == x@.len(),
            n == y@.len(),
            forall|j: int| 0 <= j < i ==> x@[j] == y@[j],
    {
        if x[i] != y[i] {
            return false;
        }
    }
    assert(x@ =~= y@);
    true
}

/// `s` with every backslash replaced by a forward slash.
pub open spec fn slashes_forward(s: Seq<char>) -> Seq<char> {
    s.map_values(|c: char| if c == '\\' { '/' } else { c })
}

/// Replaces every backslash by a forward slash.
pub fn forward_slashes(s: &str) -> (r: String)
    ensures
        r@ == slashes_forward(s@),
{
    let v = chars_of(s);
    let mut out: Vec<char> = Vec::new();
    let n = v.len();
    for i in 0..n
        invariant
            n == v@.len(),
            out@ == slashes_forward(v@.take(i as int)),
    {
        let c = v[i];
        out.push(if c == '\\' { '/' } else { c });
        assert(slashes_forward(v@.take(i + 1)) =~= slashes_forward(v@.take(i as int)).push(
            if c == '\\' { '/' } else { c },
        ));
    }
    assert(v@.take(n as int) == v@);
    string_of(&out)
}

/// The character for a digit below ten.
pub open spec fn digit_char(d: nat) -> char {
    if d == 0 { '0' }
    else if d == 1 { '1' }
    else if d == 2 { '2' }
    else if d == 3 { '3' }
    else if d == 4 { '4' }
    else if d == 5 { '5' }
    else if d == 6 { '6' }
    else if d == 7 { '7' }
    else if d == 8 { '8' }
    else { '9' }
}

/// The digits of `v` written in base `radix` (2 to 10), most significant first,
/// without leading zeros.
pub open spec fn digits(v: nat, radix: nat) -> Seq<char>
    decreases v,
{
    if radix < 2 || v < radix {
        seq![digit_char(v)]
    } else {
        proof {
            vstd::arithmetic::div_mod::lemma_div_decreases(v as int, radix as int);
        }
        digits(v / radix, radix).push(digit_char(v % radix))
    }
}

/// `s` preceded by enough copies of `pad` to make it at least `width` long.
pub open spec fn pad_left(s: Seq<char>, width: nat, pad: char) -> Seq<char> {
    if s.len() >= width {
        s
    } else {
        Seq::new((width - s.len()) as nat, |i: int| pad) + s
    }
}

fn digit(d: u64) -> (c: char)
    requires
        d < 10,
    ensures
        c == digit_char(d as nat),
{
    match d {
        0 => '0',
        1 => '1',
        2 => '2',
        3 => '3',
        4 => '4',
        5 => '5',
        6 => '6',
        7 => '7',
        8 => '8',
        _ => '9',
    }
}

/// Renders `v` in base `radix`, left-padded with `pad` to `width` characters.
pub fn fmt_radix(v: u64, radix: u64, width: usize, pad: char) -> (r: String)
    requires
        2 <= radix <= 10,
    ensures
        r@ == pad_left(digits(v as nat, radix as nat), width as nat, pad),
{
    let mut acc: Vec<char> = Vec::new();
    let mut cur = v;
    while cur >= radix
        invariant
            2 <= radix <= 10,
            digits(v as nat, radix as nat) == digits(cur as nat, radix as nat) + acc@,
        decreases cur,
    {
        let d = cur % radix;
        let ghost old_acc = acc@;
        acc.insert(0, digit(d));
        proof {
            assert(digits(cur as nat, radix as nat) == digits((cur / radix) as nat, radix as nat).push(
                digit_char(d as nat),
            ));
            assert(digits((cur / radix) as nat, radix as nat).push(digit_char(d as nat)) + old_acc
                =~= digits((cur / radix) as nat, radix as nat) + acc@);
        }
        cur = cur / radix;
    }
    acc.insert(0, digit(cur));
    assert(digits(v as nat, radix as nat) =~= acc@);
    let n = acc.len();
    if n < width {
        let mut out: Vec<char> = Vec::new();
        let fill = width - n;
        for i in 0..fill
            invariant
                out@ == Seq::new(i as nat, |k: int| pad),
        {
            out.push(pad);
            assert(out@ =~= Seq::new((i + 1) as nat, |k: int| pad));
        }
        out.append(&mut acc);
        string_of(&out)
    } else {
        string_of(&acc)
    }
}

/// `a` sorts strictly before `b`: character by character, by code point,
/// a proper prefix first. (This is the order of `str`, whose bytes are
/// UTF-8 and compare in the same order as the code points they encode.)
pub open spec fn seq_lt(a: Seq<char>, b: Seq<char>) -> bool
    decreases a.len(),
{
    if a.len() == 0 {
        b.len() > 0
    } else if b.len() == 0 {
        false
    } else if (a[0] as u32) < (b[0] as u32) {
        true
    } else if a[0] == b[0] {
        seq_lt(a.skip(1), b.skip(1))
    } else {
        false
    }
}

/// Nothing sorts before itself.
pub proof fn lemma_lt_irreflexive(a: Seq<char>)
    ensures
        !seq_lt(a, a),
    decreases a.len(),
{
    if a.len() > 0 {
        lemma_lt_irreflexive(a.skip(1));
    }
}

/// The order is transitive.
pub proof fn lemma_lt_transitive(a: Seq<char>, b: Seq<char>, c: Seq<char>)
    requires
        seq_lt(a, b),
        seq_lt(b, c),
    ensures
        seq_lt(a, c),
    decreases a.len(),
{
    if a.len() > 0 && b.len() > 0 && c.len() > 0 && a[0] == b[0] && b[0] == c[0] {
        lemma_lt_transitive(a.skip(1), b.skip(1), c.skip(1));
    }
}

/// Of two different sequences, one sorts before the other.
pub proof fn lemma_lt_total(a: Seq<char>, b: Seq<char>)
    requires
        a != b,
    ensures
        seq_lt(a, b) || seq_lt(b, a),
    decreases a.len(),
{
    if a.len() > 0 && b.len() > 0 {
        if a[0] == b[0] {
            if a.skip(1) == b.skip(1) {
                assert(a =~= seq![a[0]] + a.skip(1));
                assert(b =~= seq![b[0]] + b.skip(1));
            } else {
                lemma_lt_total(a.skip(1), b.skip(1));
            }
        } else {
            vstd::utf8::char_u32_cast(a[0], a[0] as u32);
            vstd::utf8::char_u32_cast(b[0], b[0] as u32);
            assert((a[0] as u32) != (b[0] as u32));
        }
    } else if a.len() == 0 && b.len() == 0 {
        assert(a =~= b);
    }
}

/// Whether `a` sorts strictly before `b` (as `a < b` on `str`).
pub fn str_lt(a: &str, b: &str) -> (r: bool)
    ensures
        r == seq_lt(a@, b@),
{
    let x = chars_of(a);
    let y = chars_of(b);
    let mut i: usize = 0;
    assert(x@.skip(0) =~= x@);
    assert(y@.skip(0) =~= y@);
    while i < x.len() && i < y.len()
        invariant
            x@ == a@,
            y@ == b@,
            i <= x@.len(),
            i <= y@.len(),
            seq_lt(a@, b@) == seq_lt(x@.skip(i as int), y@.skip(i as int)),
        decreases x@.len() - i,
    {
        let c = x[i];
        let d = y[i];
        assert(x@.skip(i as int)[0] == c);
        assert(y@.skip(i as int)[0] == d);
        if (c as u32) < (d as u32) {
            return true;
        }
        if c != d {
            return false;
        }
        assert(x@.skip(i as int).skip(1) =~= x@.skip(i + 1));
        assert(y@.skip(i as int).skip(1) =~= y@.skip(i + 1));
        i = i + 1;
    }
    i == x.len() && i < y.len()
}

/// `s` right-aligned in a field of `width` characters (as `{:>width$}`).
pub fn pad_left_str(s: &str, width: usize) -> (r: String)
    ensures
        r@ == pad_left(s@, width as nat, ' '),
{
    let v = chars_of(s);
    let n = v.len();
    if n >= width {
        return s.to_owned();
    }
    let mut out: Vec<char> = Vec::new();
    let fill = width - n;
    for i in 0..fill
        invariant
            out@ == Seq::new(i as nat, |k: int| ' '),
    {
        out.push(' ');
        assert(out@ =~= Seq::new((i + 1) as nat, |k: int| ' '));
    }
    let mut rest = v;
    out.append(&mut rest);
    string_of(&out)
}

} // verus!
