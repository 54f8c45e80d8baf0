//! Text: decimal numerals, comparison, and templates with placeholders.

use vstd::prelude::*;

verus! {

/// The character of the decimal digit `d`.
pub open spec fn digit(d: int) -> char {
    if d == 0 {
        '0'
    } else if d == 1 {
        '1'
    } else if d == 2 {
        '2'
    } else if d == 3 {
        '3'
    } else if d == 4 {
        '4'
    } else if d == 5 {
        '5'
    } else if d == 6 {
        '6'
    } else if d == 7 {
        '7'
    } else if d == 8 {
        '8'
    } else {
        '9'
    }
}

/// The decimal numeral of `n`, without leading zeros.
pub open spec fn decimal(n: nat) -> Seq<char>
    decreases n,
{
    if n < 10 {
        seq![digit(n as int)]
    } else {
        decimal(n / 10).push(digit((n % 10) as int))
    }
}

/// `template` with every occurrence of `placeholder` replaced by `value`.
/// Occurrences are looked for from left to right and do not overlap; what
/// was put in is not searched again. An empty placeholder occurs nowhere.
pub open spec fn fill(template: Seq<char>, placeholder: Seq<char>, value: Seq<char>) -> Seq<char>
    decreases template.len(),
{
    if placeholder.len() == 0 || template.len() < placeholder.len() {
        template
    } else if template.subrange(0, placeholder.len() as int) == placeholder {
        value + fill(
            template.subrange(placeholder.len() as int, template.len() as int),
            placeholder,
            value,
        )
    } else {
        seq![template[0]] + fill(template.subrange(1, template.len() as int), placeholder, value)
    }
}

/// The one-character text of the decimal digit `d`.
fn digit_str(d: u64) -> (s: &'static str)
    requires
        d < 10,
    ensures
        s@ == seq![digit(d as int)],
{
    proof {
        reveal_strlit("0");
        reveal_strlit("1");
        reveal_strlit("2");
        reveal_strlit("3");
        reveal_strlit("4");
        reveal_strlit("5");
        reveal_strlit("6");
        reveal_strlit("7");
        reveal_strlit("8");
        reveal_strlit("9");
    }
    let s = if d == 0 {
        "0"
    } else if d == 1 {
        "1"
    } else if d == 2 {
        "2"
    } else if d == 3 {
        "3"
    } else if d == 4 {
        "4"
    } else if d == 5 {
        "5"
    } else if d == 6 {
        "6"
    } else if d == 7 {
        "7"
    } else if d == 8 {
        "8"
    } else {
        "9"
    };
    assert(s@ =~= seq![digit(d as int)]);
    s
}

/// The decimal numeral of `n`.
pub fn decimal_string(n: u64) -> (s: String)
    ensures
        s@ == decimal(n as nat),
    decreases n,
{
    if n < 10 {
        String::from_str(digit_str(n))
    } else {
        let mut s = decimal_string(n / 10);
        s.append(digit_str(n % 10));
        assert(s@ =~= decimal((n / 10) as nat).push(digit((n % 10) as int)));
        s
    }
}

/// Whether two texts hold the same characters.
pub fn same_text(a: &str, b: &str) -> (same: bool)
    ensures
        same == (a@ == b@),
{
    let n = a.unicode_len();
    if n != b.unicode_len() {
        return false;
    }
    let mut i: usize = 0;
    while i < n
        invariant
            i <= n,
            n == a@.len(),
            n == b@.len(),
            forall|j: int| 0 <= j < i ==> a@[j] == b@[j],
        decreases n - i,
    {
        if a.get_char(i) != b.get_char(i) {
            return false;
        }
        i += 1;
    }
    assert(a@ =~= b@);
    true
}

/// Whether `placeholder` stands in `template` at place `at`.
fn stands_at(template: &str, n: usize, at: usize, placeholder: &str, len: usize) -> (yes: bool)
    requires
        n == template@.len(),
        len == placeholder@.len(),
        at + len <= n,
    ensures
        yes == (template@.subrange(at as int, at + len) == placeholder@),
{
    let mut i: usize = 0;
    while i < len
        invariant
            i <= len,
            n == template@.len(),
            len == placeholder@.len(),
            at + len <= n,
            forall|j: int| 0 <= j < i ==> template@[at + j] == placeholder@[j],
        decreases len - i,
    {
        if template.get_char(at + i) != placeholder.get_char(i) {
            assert(template@.subrange(at as int, at + len)[i as int] != placeholder@[i as int]);
            return false;
        }
        i += 1;
    }
    assert(template@.subrange(at as int, at + len) =~= placeholder@);
    true
}

/// `template` with every occurrence of `placeholder` replaced by `value`.
pub fn fill_in(template: &str, placeholder: &str, value: &str) -> (out: String)
    ensures
        out@ == fill(template@, placeholder@, value@),
{
    let n = template.unicode_len();
    let len = placeholder.unicode_len();
    if len == 0 || n < len {
        return String::from_str(template);
    }
    let mut out = String::new();
    let mut i: usize = 0;
    proof {
        assert(template@.subrange(0, n as int) =~= template@);
        assert(out@ + fill(template@, placeholder@, value@) =~= fill(
            template@,
            placeholder@,
            value@,
        ));
    }
    while n - i >= len
        invariant
            i <= n,
            n == template@.len(),
            len == placeholder@.len(),
            0 < len <= n,
            out@ + fill(template@.subrange(i as int, n as int), placeholder@, value@) == fill(
                template@,
                placeholder@,
                value@,
            ),
        decreases n - i,
    {
        let ghost rest = template@.subrange(i as int, n as int);
        if stands_at(template, n, i, placeholder, len) {
            proof {
                assert(rest.subrange(0, len as int) =~= template@.subrange(i as int, i + len));
                assert(rest.subrange(len as int, rest.len() as int) =~= template@.subrange(
                    i + len,
                    n as int,
                ));
                assert(out@ + (value@ + fill(
                    template@.subrange(i + len, n as int),
                    placeholder@,
                    value@,
                )) =~= (out@ + value@) + fill(
                    template@.subrange(i + len, n as int),
                    placeholder@,
                    value@,
                ));
            }
            out.append(value);
            i += len;
        } else {
            proof {
                assert(rest.subrange(0, len as int) =~= template@.subrange(i as int, i + len));
                assert(rest.subrange(1, rest.len() as int) =~= template@.subrange(
                    i + 1,
                    n as int,
                ));
                assert(template@.subrange(i as int, i + 1) =~= seq![rest[0]]);
                assert(out@ + (seq![rest[0]] + fill(
                    template@.subrange(i + 1, n as int),
                    placeholder@,
                    value@,
                )) =~= (out@ + seq![rest[0]]) + fill(
                    template@.subrange(i + 1, n as int),
                    placeholder@,
                    value@,
                ));
            }
            out.append(template.substring_char(i, i + 1));
            i += 1;
        }
    }
    out.append(template.substring_char(i, n));
    out
}

/// Whether `c` is a decimal digit.
pub open spec fn is_digit(c: char) -> bool {
    c == '0' || c == '1' || c == '2' || c == '3' || c == '4' || c == '5' || c == '6' || c
        == '7' || c == '8' || c == '9'
}

/// A decimal numeral is made of digits, and of one at least.
pub proof fn lemma_decimal_digits(n: nat)
    ensures
        decimal(n).len() >= 1,
        forall|i: int| 0 <= i < decimal(n).len() ==> is_digit(#[trigger] decimal(n)[i]),
    decreases n,
{
    if n >= 10 {
        lemma_decimal_digits(n / 10);
    }
}

/// Filling in passes over a stretch that lacks the first character of the
/// placeholder.
pub proof fn lemma_fill_skip(a: Seq<char>, b: Seq<char>, p: Seq<char>, v: Seq<char>)
    requires
        p.len() > 0,
        forall|i: int| 0 <= i < a.len() ==> a[i] != p[0],
    ensures
        fill(a + b, p, v) == a + fill(b, p, v),
    decreases a.len(),
{
    if a.len() == 0 {
        assert(a + b =~= b);
        assert(a + fill(b, p, v) =~= fill(b, p, v));
    } else {
        let s = a + b;
        let a1 = a.subrange(1, a.len() as int);
        assert(s.subrange(1, s.len() as int) =~= a1 + b);
        lemma_fill_skip(a1, b, p, v);
        if s.len() >= p.len() {
            assert(s.subrange(0, p.len() as int)[0] == a[0]);
            assert(seq![s[0]] + (a1 + fill(b, p, v)) =~= a + fill(b, p, v));
        }
    }
}

/// Where the placeholder stands at the front, the value is put in its place.
pub proof fn lemma_fill_here(p: Seq<char>, rest: Seq<char>, v: Seq<char>)
    requires
        p.len() > 0,
    ensures
        fill(p + rest, p, v) == v + fill(rest, p, v),
{
    let s = p + rest;
    assert(s.subrange(0, p.len() as int) =~= p);
    assert(s.subrange(p.len() as int, s.len() as int) =~= rest);
}

/// A text that lacks one of the characters of the placeholder stays as it
/// is.
pub proof fn lemma_fill_absent(s: Seq<char>, p: Seq<char>, v: Seq<char>, k: int)
    requires
        0 <= k < p.len(),
        forall|i: int| 0 <= i < s.len() ==> s[i] != p[k],
    ensures
        fill(s, p, v) == s,
    decreases s.len(),
{
    if s.len() >= p.len() {
        let rest = s.subrange(1, s.len() as int);
        assert(s.subrange(0, p.len() as int)[k] == s[k]);
        lemma_fill_absent(rest, p, v, k);
        assert(seq![s[0]] + rest =~= s);
    }
}

} // verus!
