use vstd::prelude::*;
use vstd::string::*;

verus! {

/// The one-character string made of `c`.
/// Calls `ToString::to_string` of `char`, which std documents as the string
/// holding that one character.
#[verifier::external_body]
pub(crate) fn char_to_string(c: char) -> (r: String)
    ensures
        r@ == seq![c],
{
    c.to_string()
}

/// Whether two strings hold the same characters.
pub fn str_eq(a: &str, b: &str) -> (r: bool)
    ensures
        r == (a@ == b@),
{
    broadcast use vstd::utf8::encode_utf8_decode_utf8;

    let x = a.as_bytes();
    let y = b.as_bytes();
    if x.len() != y.len() {
        return false;
    }
    let mut i: usize = 0;
    while i < x.len()
        invariant
            x@.len() == y@.len(),
            x@ == a.spec_bytes(),
            y@ == b.spec_bytes(),
            i <= x@.len(),
            forall|j: int| 0 <= j < i ==> x@[j] == y@[j],
        decreases x@.len() - i,
    {
        if x[i] != y[i] {
            return false;
        }
        i = i + 1;
    }
    proof {
        assert(x@ =~= y@);
        assert(vstd::utf8::decode_utf8(vstd::utf8::encode_utf8(a@)) == a@);
        assert(vstd::utf8::decode_utf8(vstd::utf8::encode_utf8(b@)) == b@);
    }
    true
}

/// Concatenation of three strings.
pub fn concat3(a: &str, b: &str, c: &str) -> (r: String)
    ensures
        r@ == a@ + b@ + c@,
{
    let mut r = String::from_str(a);
    r.append(b);
    r.append(c);
    r
}

/// The characters of a string.
pub fn chars_of(s: &str) -> (r: Vec<char>)
    ensures
        r@ == s@,
{
    let mut r: Vec<char> = Vec::new();
    for c in it: s.chars()
        invariant
            r@ == it.seq().take(it.index() as int),
            it.seq() == s@,
    {
        r.push(c);
    }
    r
}

/// The string of the characters `v[a..b]`.
pub fn string_of(v: &Vec<char>, a: usize, b: usize) -> (r: String)
    requires
        a <= b <= v@.len(),
    ensures
        r@ == v@.subrange(a as int, b as int),
{
    let mut r = String::new();
    let mut i = a;
    while i < b
        invariant
            a <= i <= b <= v@.len(),
            r@ == v@.subrange(a as int, i as int),
        decreases b - i,
    {
        let c = char_to_string(v[i]);
        r.append(c.as_str());
        assert(r@ =~= v@.subrange(a as int, i + 1));
        i = i + 1;
    }
    r
}

/// Whether `s` starts with `prefix`.
pub open spec fn has_prefix(s: Seq<char>, prefix: Seq<char>) -> bool {
    prefix.len() <= s.len() && s.take(prefix.len() as int) == prefix
}

/// Whether `s` starts with `prefix`.
pub fn starts_with(s: &str, prefix: &str) -> (r: bool)
    ensures
        r == has_prefix(s@, prefix@),
{
    let x = chars_of(s);
    let y = chars_of(prefix);
    if y.len() > x.len() {
        return false;
    }
    let mut i: usize = 0;
    while i < y.len()
        invariant
            x@ == s@,
            y@ == prefix@,
            y@.len() <= x@.len(),
            i <= y@.len(),
            forall|j: int| 0 <= j < i ==> x@[j] == y@[j],
        decreases y@.len() - i,
    {
        if x[i] != y[i] {
            assert(s@.take(prefix@.len() as int)[i as int] != prefix@[i as int]);
            return false;
        }
        i = i + 1;
    }
    assert(s@.take(prefix@.len() as int) =~= prefix@);
    true
}

/// How many times `c` repeats at the start of `s`.
pub open spec fn leading(s: Seq<char>, c: char) -> nat
    decreases s.len(),
{
    if s.len() > 0 && s[0] == c {
        1 + leading(s.drop_first(), c)
    } else {
        0
    }
}

/// How many times `c` repeats at the end of `s`.
pub open spec fn trailing(s: Seq<char>, c: char) -> nat
    decreases s.len(),
{
    if s.len() > 0 && s.last() == c {
        1 + trailing(s.drop_last(), c)
    } else {
        0
    }
}

pub proof fn lemma_leading_len(s: Seq<char>, c: char)
    ensures
        leading(s, c) <= s.len(),
    decreases s.len(),
{
    if s.len() > 0 && s[0] == c {
        lemma_leading_len(s.drop_first(), c);
    }
}

pub proof fn lemma_trailing_len(s: Seq<char>, c: char)
    ensures
        trailing(s, c) <= s.len(),
    decreases s.len(),
{
    if s.len() > 0 && s.last() == c {
        lemma_trailing_len(s.drop_last(), c);
    }
}

/// `s` without the `c` characters at its start.
pub open spec fn trim_start(s: Seq<char>, c: char) -> Seq<char> {
    s.skip(leading(s, c) as int)
}

/// `s` without the `c` characters at its start and at its end.
pub open spec fn trim_both(s: Seq<char>, c: char) -> Seq<char> {
    let t = trim_start(s, c);
    t.take(t.len() - trailing(t, c))
}

/// The position in `v` after the `c` characters that start at `a`.
fn skip_leading(v: &Vec<char>, a: usize, c: char) -> (r: usize)
    requires
        a <= v@.len(),
    ensures
        a <= r <= v@.len(),
        r == a + leading(v@.skip(a as int), c),
{
    let mut i = a;
    while i < v.len() && v[i] == c
        invariant
            a <= i <= v@.len(),
            leading(v@.skip(a as int), c) == (i - a) + leading(v@.skip(i as int), c),
        decreases v@.len() - i,
    {
        assert(v@.skip(i as int).drop_first() =~= v@.skip(i + 1));
        i = i + 1;
    }
    proof {
        lemma_no_leading(v@, i, c);
    }
    i
}

proof fn lemma_no_leading(s: Seq<char>, i: usize, c: char)
    requires
        i <= s.len(),
        i == s.len() || s[i as int] != c,
    ensures
        leading(s.skip(i as int), c) == 0,
{
}

/// `s` without the `c` characters at its start and at its end.
pub fn trim_matches(s: &str, c: char) -> (r: String)
    ensures
        r@ == trim_both(s@, c),
{
    let v = chars_of(s);
    let a = skip_leading(&v, 0, c);
    assert(v@.skip(0) =~= v@);
    let ghost t = v@.skip(a as int);
    let mut b = v.len();
    assert(t =~= v@.subrange(a as int, b as int));
    while b > a && v[b - 1] == c
        invariant
            a <= b <= v@.len(),
            t == v@.skip(a as int),
            trailing(t, c) == (v@.len() - b) + trailing(v@.subrange(a as int, b as int), c),
        decreases b,
    {
        assert(v@.subrange(a as int, b as int).drop_last() =~= v@.subrange(a as int, b - 1));
        b = b - 1;
    }
    assert(trailing(v@.subrange(a as int, b as int), c) == 0);
    assert(t.take(t.len() - trailing(t, c)) =~= v@.subrange(a as int, b as int));
    string_of(&v, a, b)
}

/// `s` without the `c` characters at its start.
pub fn trim_start_matches(s: &str, c: char) -> (r: String)
    ensures
        r@ == trim_start(s@, c),
{
    let v = chars_of(s);
    let a = skip_leading(&v, 0, c);
    assert(v@.skip(0) =~= v@);
    assert(v@.skip(a as int) =~= v@.subrange(a as int, v@.len() as int));
    string_of(&v, a, v.len())
}

} // verus!
