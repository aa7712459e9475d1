use vstd::prelude::*;
use vstd::string::*;

use crate::lexer::is_space;
use crate::text::char_to_string;

verus! {

/// A decimal digit.
pub open spec fn is_digit(c: char) -> bool {
    '0' <= c && c <= '9'
}

/// The value of a decimal digit.
pub open spec fn digit_value(c: char) -> nat {
    (c as int - '0' as int) as nat
}

/// The value of a sequence of decimal digits, most significant first.
pub open spec fn digits_value(d: Seq<char>) -> nat
    decreases d.len(),
{
    if d.len() == 0 {
        0
    } else {
        digits_value(d.drop_last()) * 10 + digit_value(d.last())
    }
}

/// The digits of an unsigned number as text: after one optional `+`.
pub open spec fn unsigned_digits(w: Seq<char>) -> Seq<char> {
    if w.len() > 0 && w[0] == '+' {
        w.drop_first()
    } else {
        w
    }
}

/// The `usize` that `w` denotes, as `str::parse::<usize>` reads it: an
/// optional `+`, then one or more decimal digits, of a value that fits.
pub open spec fn parse_usize(w: Seq<char>) -> Option<usize> {
    let d = unsigned_digits(w);
    if d.len() == 0 || !(forall|i: int| 0 <= i < d.len() ==> is_digit(#[trigger] d[i])) || digits_value(d)
        > usize::MAX {
        None
    } else {
        Some(digits_value(d) as usize)
    }
}

/// The decimal character of a digit value.
pub open spec fn digit_char(d: nat) -> char {
    (d + '0' as nat) as char
}

/// The decimal text of `n`.
pub open spec fn decimal(n: nat) -> Seq<char>
    decreases n,
{
    if n < 10 {
        seq![digit_char(n)]
    } else {
        decimal(n / 10) + seq![digit_char(n % 10)]
    }
}

proof fn lemma_digits_value_grows(d: Seq<char>, k: int)
    requires
        0 <= k <= d.len(),
    ensures
        digits_value(d.take(k)) <= digits_value(d),
    decreases d.len() - k,
{
    if k < d.len() {
        lemma_digits_value_grows(d, k + 1);
        assert(d.take(k + 1).drop_last() =~= d.take(k));
    } else {
        assert(d.take(k) =~= d);
    }
}

/// Reads `v[a..b]` as `str::parse::<usize>` does.
pub fn parse_usize_chars(v: &Vec<char>, a: usize, b: usize) -> (r: Option<usize>)
    requires
        a <= b <= v@.len(),
    ensures
        r == parse_usize(v@.subrange(a as int, b as int)),
{
    let ghost w = v@.subrange(a as int, b as int);
    let mut start = a;
    if a < b && v[a] == '+' {
        start = a + 1;
    }
    let ghost d = v@.subrange(start as int, b as int);
    assert(unsigned_digits(w) =~= d);
    if start == b {
        return None;
    }
    let mut value: usize = 0;
    let mut i = start;
    while i < b
        invariant
            a <= start <= i <= b <= v@.len(),
            d == v@.subrange(start as int, b as int),
            w == v@.subrange(a as int, b as int),
            unsigned_digits(w) == d,
            forall|j: int| 0 <= j < i - start ==> is_digit(#[trigger] d[j]),
            value == digits_value(d.take(i - start)),
        decreases b - i,
    {
        let c = v[i];
        if !('0' <= c && c <= '9') {
            assert(!is_digit(d[i - start]));
            return None;
        }
        let digit = (c as u32 - '0' as u32) as usize;
        assert(d.take(i - start + 1).drop_last() =~= d.take(i - start));
        if value > (usize::MAX - digit) / 10 {
            proof {
                lemma_digits_value_grows(d, i - start + 1);
                assert(value * 10 + digit > usize::MAX) by (nonlinear_arith)
                    requires
                        value > (usize::MAX - digit) / 10,
                        digit <= 9,
                ;
            }
            return None;
        }
        assert(value * 10 + digit <= usize::MAX) by (nonlinear_arith)
            requires
                value <= (usize::MAX - digit) / 10,
                digit <= 9,
        ;
        value = value * 10 + digit;
        i = i + 1;
    }
    assert(d.take(d.len() as int) =~= d);
    Some(value)
}

proof fn lemma_decimal_len(n: nat)
    ensures
        decimal(n).len() >= 1,
    decreases n,
{
    if n >= 10 {
        lemma_decimal_len(n / 10);
    }
}

/// The decimal text of `n`.
pub fn usize_to_string(n: usize) -> (r: String)
    ensures
        r@ == decimal(n as nat),
{
    let mut digits: Vec<char> = Vec::new();
    let mut m = n;
    let ghost mut rest: Seq<char> = Seq::empty();
    loop
        invariant_except_break
            decimal(n as nat) == decimal(m as nat) + rest,
        invariant
            digits@ == rest.reverse(),
        ensures
            decimal(n as nat) == rest,
        decreases m,
    {
        let d = (m % 10) as u8;
        let c = (48u8 + d) as char;
        assert(c == digit_char((m % 10) as nat));
        let ghost old_rest = rest;
        digits.push(c);
        proof {
            rest = seq![c] + old_rest;
            assert(digits@ =~= rest.reverse());
        }
        if m < 10 {
            assert(decimal(m as nat) == seq![c]);
            assert(decimal(n as nat) =~= rest);
            break ;
        }
        assert(decimal(m as nat) == decimal((m / 10) as nat) + seq![c]);
        assert(decimal(n as nat) =~= decimal((m / 10) as nat) + rest);
        m = m / 10;
    }
    let mut r = String::new();
    let mut i = digits.len();
    while i > 0
        invariant
            i <= digits@.len(),
            digits@ == rest.reverse(),
            decimal(n as nat) == rest,
            r@ == rest.subrange(0, (digits@.len() - i) as int),
        decreases i,
    {
        let s = char_to_string(digits[i - 1]);
        r.append(s.as_str());
        assert(r@ =~= rest.subrange(0, (digits@.len() - i + 1) as int));
        i = i - 1;
    }
    assert(r@ =~= rest);
    r
}

/// How many characters of `s` come before its first space.
pub open spec fn word_len(s: Seq<char>) -> nat
    decreases s.len(),
{
    if s.len() > 0 && s[0] != ' ' {
        1 + word_len(s.drop_first())
    } else {
        0
    }
}

pub proof fn lemma_word_len(s: Seq<char>)
    ensures
        word_len(s) <= s.len(),
        s.len() > 0 && s[0] != ' ' ==> word_len(s) >= 1,
    decreases s.len(),
{
    if s.len() > 0 && s[0] != ' ' {
        lemma_word_len(s.drop_first());
    }
}

/// The pieces of `s` between spaces that are not empty, in order: what
/// `str::split(' ')` yields, without the empty pieces.
pub open spec fn words(s: Seq<char>) -> Seq<Seq<char>>
    decreases s.len(),
{
    if s.len() == 0 {
        Seq::empty()
    } else if s[0] == ' ' {
        words(s.drop_first())
    } else {
        let n = word_len(s);
        proof {
            lemma_word_len(s);
        }
        seq![s.take(n as int)] + words(s.skip(n as int))
    }
}

/// Where the words of `v` start and end, in order.
pub fn split_words(v: &Vec<char>) -> (r: Vec<(usize, usize)>)
    ensures
        r@.len() == words(v@).len(),
        forall|k: int|
            #![trigger r@[k]]
            0 <= k < r@.len() ==> r@[k].0 <= r@[k].1 <= v@.len() && v@.subrange(
                r@[k].0 as int,
                r@[k].1 as int,
            ) == words(v@)[k],
{
    let ghost s = v@;
    let mut r: Vec<(usize, usize)> = Vec::new();
    let ghost mut found: Seq<Seq<char>> = Seq::empty();
    let mut i: usize = 0;
    assert(s.skip(0) =~= s);
    while i < v.len()
        invariant
            s == v@,
            i <= s.len(),
            words(s) == found + words(s.skip(i as int)),
            r@.len() == found.len(),
            forall|k: int|
                #![trigger r@[k]]
                0 <= k < r@.len() ==> r@[k].0 <= r@[k].1 <= s.len() && s.subrange(
                    r@[k].0 as int,
                    r@[k].1 as int,
                ) == found[k],
        decreases s.len() - i,
    {
        if v[i] == ' ' {
            assert(s.skip(i as int).drop_first() =~= s.skip(i + 1));
            i = i + 1;
        } else {
            let start = i;
            while i < v.len() && v[i] != ' '
                invariant
                    s == v@,
                    start <= i <= s.len(),
                    word_len(s.skip(start as int)) == (i - start) + word_len(s.skip(i as int)),
                decreases s.len() - i,
            {
                assert(s.skip(i as int).drop_first() =~= s.skip(i + 1));
                i = i + 1;
            }
            let ghost t = s.skip(start as int);
            assert(word_len(s.skip(i as int)) == 0);
            assert(t.take(i - start) =~= s.subrange(start as int, i as int));
            assert(t.skip(i - start) =~= s.skip(i as int));
            let ghost old_found = found;
            r.push((start, i));
            proof {
                found = found.push(s.subrange(start as int, i as int));
                assert(words(s) =~= found + words(s.skip(i as int)));
                assert forall|k: int|
                    #![trigger r@[k]]
                    0 <= k < r@.len() implies r@[k].0 <= r@[k].1 <= s.len() && s.subrange(
                        r@[k].0 as int,
                        r@[k].1 as int,
                    ) == found[k] by {
                    if k < r@.len() - 1 {
                        assert(found[k] == old_found[k]);
                    }
                }
            }
        }
    }
    assert(s.skip(i as int) =~= Seq::<char>::empty());
    assert(found + Seq::<Seq<char>>::empty() =~= found);
    assert(words(s) =~= found);
    r
}

fn is_space_char(c: char) -> (r: bool)
    ensures
        r == is_space(c),
{
    c == ' ' || c == '\t' || c == '\n' || c == '\r'
}

/// The digits of a signed number as text: after one optional `+` or `-`.
pub open spec fn signed_digits(w: Seq<char>) -> Seq<char> {
    if w.len() > 0 && (w[0] == '-' || w[0] == '+') {
        w.drop_first()
    } else {
        w
    }
}

/// The `i32` that `w` denotes, as `str::parse::<i32>` reads it: one optional
/// `+` or `-`, then one or more decimal digits, of a value that fits.
pub open spec fn parse_i32(w: Seq<char>) -> Option<i32> {
    let neg = w.len() > 0 && w[0] == '-';
    let d = signed_digits(w);
    if d.len() == 0 || !(forall|i: int| 0 <= i < d.len() ==> is_digit(#[trigger] d[i])) {
        None
    } else if neg {
        if digits_value(d) <= 0x8000_0000 {
            Some((0 - digits_value(d)) as i32)
        } else {
            None
        }
    } else if digits_value(d) <= 0x7fff_ffff {
        Some(digits_value(d) as i32)
    } else {
        None
    }
}

/// Reads `v[a..b]` as `str::parse::<i32>` does.
pub fn parse_i32_chars(v: &Vec<char>, a: usize, b: usize) -> (r: Option<i32>)
    requires
        a <= b <= v@.len(),
    ensures
        r == parse_i32(v@.subrange(a as int, b as int)),
{
    let ghost w = v@.subrange(a as int, b as int);
    let neg = a < b && v[a] == '-';
    let start = if a < b && (v[a] == '-' || v[a] == '+') {
        a + 1
    } else {
        a
    };
    let ghost d = v@.subrange(start as int, b as int);
    proof {
        if a < b && (v@[a as int] == '-' || v@[a as int] == '+') {
            assert(w.len() > 0 && (w[0] == '-' || w[0] == '+'));
            assert(d =~= w.drop_first());
        } else {
            assert(!(w.len() > 0 && (w[0] == '-' || w[0] == '+')));
            assert(d =~= w);
        }
        assert(neg == (w.len() > 0 && w[0] == '-'));
        assert(signed_digits(w) == d);
    }
    if start == b {
        return None;
    }
    if !('0' <= v[start] && v[start] <= '9') {
        assert(!is_digit(d[0]));
        return None;
    }
    assert(d[0] != '+');
    assert(unsigned_digits(d) =~= d);
    match parse_usize_chars(v, start, b) {
        None => {
            proof {
                if forall|i: int| 0 <= i < d.len() ==> is_digit(#[trigger] d[i]) {
                    assert(digits_value(d) > usize::MAX);
                }
            }
            None
        },
        Some(x) => {
            if neg {
                if x <= 0x8000_0000 {
                    Some((0 - (x as i64)) as i32)
                } else {
                    None
                }
            } else if x <= 0x7fff_ffff {
                Some(x as i32)
            } else {
                None
            }
        },
    }
}

/// How many characters of `s` come before its first white space.
pub open spec fn field_len(s: Seq<char>) -> nat
    decreases s.len(),
{
    if s.len() > 0 && !is_space(s[0]) {
        1 + field_len(s.drop_first())
    } else {
        0
    }
}

pub proof fn lemma_field_len(s: Seq<char>)
    ensures
        field_len(s) <= s.len(),
        s.len() > 0 && !is_space(s[0]) ==> field_len(s) >= 1,
    decreases s.len(),
{
    if s.len() > 0 && !is_space(s[0]) {
        lemma_field_len(s.drop_first());
    }
}

/// The pieces of `s` between white space (space, tab, line feed, carriage
/// return) that are not empty, in order.
pub open spec fn fields(s: Seq<char>) -> Seq<Seq<char>>
    decreases s.len(),
{
    if s.len() == 0 {
        Seq::empty()
    } else if is_space(s[0]) {
        fields(s.drop_first())
    } else {
        let n = field_len(s);
        proof {
            lemma_field_len(s);
        }
        seq![s.take(n as int)] + fields(s.skip(n as int))
    }
}

/// Where the pieces between white space of `v` start and end, in order.
pub fn split_fields(v: &Vec<char>) -> (r: Vec<(usize, usize)>)
    ensures
        r@.len() == fields(v@).len(),
        forall|k: int|
            #![trigger r@[k]]
            0 <= k < r@.len() ==> r@[k].0 <= r@[k].1 <= v@.len() && v@.subrange(
                r@[k].0 as int,
                r@[k].1 as int,
            ) == fields(v@)[k],
{
    let ghost s = v@;
    let mut r: Vec<(usize, usize)> = Vec::new();
    let ghost mut found: Seq<Seq<char>> = Seq::empty();
    let mut i: usize = 0;
    assert(s.skip(0) =~= s);
    while i < v.len()
        invariant
            s == v@,
            i <= s.len(),
            fields(s) == found + fields(s.skip(i as int)),
            r@.len() == found.len(),
            forall|k: int|
                #![trigger r@[k]]
                0 <= k < r@.len() ==> r@[k].0 <= r@[k].1 <= s.len() && s.subrange(
                    r@[k].0 as int,
                    r@[k].1 as int,
                ) == found[k],
        decreases s.len() - i,
    {
        if is_space_char(v[i]) {
            assert(s.skip(i as int).drop_first() =~= s.skip(i + 1));
            i = i + 1;
        } else {
            let start = i;
            while i < v.len() && !is_space_char(v[i])
                invariant
                    s == v@,
                    start <= i <= s.len(),
                    field_len(s.skip(start as int)) == (i - start) + field_len(s.skip(i as int)),
                decreases s.len() - i,
            {
                assert(s.skip(i as int).drop_first() =~= s.skip(i + 1));
                i = i + 1;
            }
            let ghost t = s.skip(start as int);
            assert(field_len(s.skip(i as int)) == 0);
            assert(t.take(i - start) =~= s.subrange(start as int, i as int));
            assert(t.skip(i - start) =~= s.skip(i as int));
            let ghost old_found = found;
            r.push((start, i));
            proof {
                found = found.push(s.subrange(start as int, i as int));
                assert(fields(s) =~= found + fields(s.skip(i as int)));
                assert forall|k: int|
                    #![trigger r@[k]]
                    0 <= k < r@.len() implies r@[k].0 <= r@[k].1 <= s.len() && s.subrange(
                        r@[k].0 as int,
                        r@[k].1 as int,
                    ) == found[k] by {
                    if k < r@.len() - 1 {
                        assert(found[k] == old_found[k]);
                    }
                }
            }
        }
    }
    assert(s.skip(i as int) =~= Seq::<char>::empty());
    assert(found + Seq::<Seq<char>>::empty() =~= found);
    assert(fields(s) =~= found);
    r
}

} // verus!
