//! Character-level helpers shared by the decoder and the redactor.

use vstd::prelude::*;
use vstd::std_specs::iter::IteratorSpec;

verus! {

/// The `White_Space` property of the Unicode Character Database, which is
/// what `char::is_whitespace` and `str::trim` go by.
pub open spec fn spec_is_whitespace(c: char) -> bool {
    let u = c as u32;
    ||| 0x09 <= u <= 0x0d
    ||| u == 0x20
    ||| u == 0x85
    ||| u == 0xa0
    ||| u == 0x1680
    ||| 0x2000 <= u <= 0x200a
    ||| u == 0x2028
    ||| u == 0x2029
    ||| u == 0x202f
    ||| u == 0x205f
    ||| u == 0x3000
}

/// Whether `c` is Unicode white space.
pub fn is_whitespace(c: char) -> (r: bool)
    ensures
        r == spec_is_whitespace(c),
{
    let u = c as u32;
    (0x09 <= u && u <= 0x0d) || u == 0x20 || u == 0x85 || u == 0xa0 || u == 0x1680 || (0x2000
        <= u && u <= 0x200a) || u == 0x2028 || u == 0x2029 || u == 0x202f || u == 0x205f || u
        == 0x3000
}

/// Every character of `s` is white space (so `s.trim()` is empty).
pub open spec fn all_whitespace(s: Seq<char>) -> bool {
    forall|i: int| 0 <= i < s.len() ==> spec_is_whitespace(#[trigger] s[i])
}

/// The characters of a string, in order.
pub fn to_chars(s: &str) -> (r: Vec<char>)
    ensures
        r@ == s@,
{
    broadcast use vstd::string::group_string_axioms;

    let mut out: Vec<char> = Vec::new();
    for c in it: s.chars()
        invariant
            it.seq() == s@,
            out@ == s@.take(it.index() as int),
    {
        out.push(c);
        assert(out@ =~= s@.take(it.index() + 1));
    }
    assert(out@ =~= s@);
    out
}

/// `String::from_iter` over the characters of `chars`; by its
/// documentation the new string holds exactly those characters, in order.
#[verifier::external_body]
pub(crate) fn string_from_chars(chars: &[char]) -> (s: String)
    ensures
        s@ == chars@,
{
    String::from_iter(chars.iter())
}

/// An ASCII decimal digit.
pub open spec fn is_digit(c: char) -> bool {
    0x30 <= c as u32 <= 0x39
}

/// The number written by a run of decimal digits (most significant first).
pub open spec fn decimal_value(d: Seq<char>) -> int
    decreases d.len(),
{
    if d.len() == 0 {
        0
    } else {
        decimal_value(d.drop_last()) * 10 + (d.last() as u32 - 0x30)
    }
}

/// The digits that `usize::from_str` reads: an optional leading `+` is
/// dropped.
pub open spec fn unsigned_digits(s: Seq<char>) -> Seq<char> {
    if s.len() > 0 && s[0] == '+' {
        s.drop_first()
    } else {
        s
    }
}

/// What `s.parse::<usize>().ok()` gives: the value of a non-empty run of
/// decimal digits after an optional `+`, when it fits in a `usize`.
pub open spec fn spec_parse_usize(s: Seq<char>) -> Option<usize> {
    let d = unsigned_digits(s);
    if d.len() > 0 && (forall|i: int| 0 <= i < d.len() ==> is_digit(#[trigger] d[i]))
        && decimal_value(d) <= usize::MAX {
        Some(decimal_value(d) as usize)
    } else {
        None
    }
}

proof fn lemma_decimal_grows(d: Seq<char>, j: int, k: int)
    requires
        0 <= j <= k <= d.len(),
        forall|i: int| 0 <= i < d.len() ==> is_digit(#[trigger] d[i]),
    ensures
        0 <= decimal_value(d.take(j)) <= decimal_value(d.take(k)),
    decreases k - j,
{
    if j < k {
        lemma_decimal_grows(d, j, k - 1);
        assert(d.take(k).drop_last() =~= d.take(k - 1));
        assert(is_digit(d[k - 1]));
    } else {
        lemma_decimal_nonneg(d.take(j));
    }
}

proof fn lemma_decimal_nonneg(d: Seq<char>)
    requires
        forall|i: int| 0 <= i < d.len() ==> is_digit(#[trigger] d[i]),
    ensures
        decimal_value(d) >= 0,
    decreases d.len(),
{
    if d.len() > 0 {
        assert(is_digit(d[d.len() - 1]));
        lemma_decimal_nonneg(d.drop_last());
    }
}

/// Parses a decimal `usize` as `str::parse` does; `None` where it fails.
pub fn parse_usize(s: &str) -> (r: Option<usize>)
    ensures
        r == spec_parse_usize(s@),
{
    let chars = to_chars(s);
    let ghost d = unsigned_digits(s@);
    let mut i: usize = 0;
    if chars.len() > 0 && chars[0] == '+' {
        i = 1;
    }
    if i == chars.len() {
        return None;
    }
    let start = i;
    assert(d =~= chars@.skip(start as int));
    let mut acc: usize = 0;
    while i < chars.len()
        invariant
            start <= i <= chars.len(),
            chars@ == s@,
            d == chars@.skip(start as int),
            d == unsigned_digits(s@),
            d.len() > 0,
            forall|k: int| 0 <= k < i - start ==> is_digit(#[trigger] d[k]),
            acc == decimal_value(d.take(i - start)),
        decreases chars.len() - i,
    {
        let c = chars[i];
        let k: Ghost<int> = Ghost(i - start);
        assert(d[k@] == c);
        let code = c as u32;
        if !(0x30 <= code && code <= 0x39) {
            assert(!is_digit(d[k@]));
            assert(!(forall|q: int| 0 <= q < d.len() ==> is_digit(#[trigger] d[q])));
            assert(spec_parse_usize(s@) is None);
            return None;
        }
        let digit = (code - 0x30) as usize;
        assert(d.take(k@ + 1).drop_last() =~= d.take(k@));
        assert(d.take(k@ + 1).last() == c);
        assert(decimal_value(d.take(k@ + 1)) == acc * 10 + digit);
        match acc.checked_mul(10) {
            Some(m) => match m.checked_add(digit) {
                Some(n) => {
                    acc = n;
                },
                None => {
                    proof {
                        if forall|q: int| 0 <= q < d.len() ==> is_digit(#[trigger] d[q]) {
                            lemma_decimal_grows(d, k@ + 1, d.len() as int);
                            assert(d.take(d.len() as int) =~= d);
                        }
                    }
                    assert(spec_parse_usize(s@) is None);
                    return None;
                },
            },
            None => {
                proof {
                    if forall|q: int| 0 <= q < d.len() ==> is_digit(#[trigger] d[q]) {
                        lemma_decimal_grows(d, k@ + 1, d.len() as int);
                        assert(d.take(d.len() as int) =~= d);
                    }
                }
                return None;
            },
        }
        i += 1;
    }
    assert(d.take(d.len() as int) =~= d);
    Some(acc)
}

/// Index of the first `c` in `s` at or after `i`, or `s.len()` if none.
pub open spec fn find_char(s: Seq<char>, c: char, i: int) -> int
    decreases s.len() - i,
{
    if i < 0 || i >= s.len() {
        s.len() as int
    } else if s[i] == c {
        i
    } else {
        find_char(s, c, i + 1)
    }
}

/// Index of the first `c` in `s`, or `s.len()` if there is none.
pub fn find_first(s: &Vec<char>, c: char) -> (r: usize)
    ensures
        r == find_char(s@, c, 0),
        r <= s.len(),
{
    let mut i: usize = 0;
    while i < s.len()
        invariant
            i <= s.len(),
            find_char(s@, c, 0) == find_char(s@, c, i as int),
        decreases s.len() - i,
    {
        if s[i] == c {
            return i;
        }
        i += 1;
    }
    i
}

/// The Unicode upper-case mapping of a string, as `str::to_uppercase`
/// computes it (full case mapping, which may change the length).
pub uninterp spec fn upper_case(s: Seq<char>) -> Seq<char>;

/// `str::to_uppercase`; the contract only names its result.
#[verifier::external_body]
pub(crate) fn to_upper(s: &str) -> (r: String)
    ensures
        r@ == upper_case(s@),
{
    s.to_uppercase()
}

/// The characters of `v` from `a` up to (not including) `b`.
pub fn sub_chars(v: &Vec<char>, a: usize, b: usize) -> (r: Vec<char>)
    requires
        a <= b <= v.len(),
    ensures
        r@ == v@.subrange(a as int, b as int),
{
    let mut out: Vec<char> = Vec::new();
    let mut i = a;
    while i < b
        invariant
            a <= i <= b <= v.len(),
            out@ == v@.subrange(a as int, i as int),
        decreases b - i,
    {
        out.push(v[i]);
        i += 1;
        assert(out@ =~= v@.subrange(a as int, i as int));
    }
    out
}

/// Appends the characters of `src` from `a` up to (not including) `b`.
pub fn push_range(out: &mut Vec<char>, src: &Vec<char>, a: usize, b: usize)
    requires
        a <= b <= src.len(),
    ensures
        final(out)@ == old(out)@ + src@.subrange(a as int, b as int),
{
    let ghost start = out@;
    let mut i = a;
    while i < b
        invariant
            a <= i <= b <= src.len(),
            out@ == start + src@.subrange(a as int, i as int),
        decreases b - i,
    {
        out.push(src[i]);
        i += 1;
        assert(out@ =~= start + src@.subrange(a as int, i as int));
    }
}

/// Whether `s.trim()` is empty, i.e. `s` holds nothing but white space.
pub fn is_blank(s: &str) -> (r: bool)
    ensures
        r == all_whitespace(s@),
{
    let chars = to_chars(s);
    let mut i: usize = 0;
    while i < chars.len()
        invariant
            i <= chars.len(),
            chars@ == s@,
            forall|k: int| 0 <= k < i ==> spec_is_whitespace(#[trigger] chars@[k]),
        decreases chars.len() - i,
    {
        if !is_whitespace(chars[i]) {
            return false;
        }
        i += 1;
    }
    true
}

} // verus!
