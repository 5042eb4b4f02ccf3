//! Text helpers shared by the wire parsers: decimal numbers and regular
//! expression captures.

use vstd::prelude::*;

verus! {

pub open spec fn is_digit(c: char) -> bool {
    '0' <= c <= '9'
}

/// `s` without a leading `+`.
pub open spec fn strip_plus(s: Seq<char>) -> Seq<char> {
    if s.len() > 0 && s[0] == '+' {
        s.drop_first()
    } else {
        s
    }
}

pub open spec fn all_digits(d: Seq<char>) -> bool {
    forall|i: int| 0 <= i < d.len() ==> is_digit(#[trigger] d[i])
}

/// The value of a string of decimal digits.
pub open spec fn digits_value(s: Seq<char>) -> nat
    decreases s.len(),
{
    if s.len() == 0 {
        0
    } else {
        digits_value(s.drop_last()) * 10 + (s.last() as nat - '0' as nat) as nat
    }
}

/// What `u64::from_str` gives: an optional `+` and at least one decimal
/// digit, whose value fits in a `u64`.
pub open spec fn decimal_u64(s: Seq<char>) -> Option<u64> {
    let d = strip_plus(s);
    if d.len() > 0 && all_digits(d) && digits_value(d) <= u64::MAX {
        Some(digits_value(d) as u64)
    } else {
        None
    }
}

/// Relies on `u64::from_str` (`str::parse::<u64>`): an optional `+` and
/// decimal digits, rejected on overflow.
#[verifier::external_body]
pub fn parse_u64(s: &str) -> (r: Option<u64>)
    ensures
        r == decimal_u64(s@),
{
    s.parse::<u64>().ok()
}

/// The capture groups (group 0 being the whole match) of the first match
/// of regular expression `pattern` in `haystack`; `None` where there is no
/// match or `pattern` does not compile.
pub uninterp spec fn captures_of(pattern: Seq<char>, haystack: Seq<char>) -> Option<Seq<Option<Seq<char>>>>;

pub open spec fn groups_view(v: Seq<Option<String>>) -> Seq<Option<Seq<char>>> {
    v.map_values(|o: Option<String>| match o {
        Some(s) => Some(s@),
        None => None,
    })
}

/// Relies on `regex::Regex::new` and `regex::Regex::captures`: the capture
/// groups of the first match, each `None` where the group took no part.
#[verifier::external_body]
pub fn regex_captures(pattern: &str, haystack: &str) -> (r: Option<Vec<Option<String>>>)
    ensures
        r.is_none() == captures_of(pattern@, haystack@).is_none(),
        r.is_some() ==> captures_of(pattern@, haystack@) == Some(groups_view(r.unwrap()@)),
{
    match regex::Regex::new(pattern) {
        Err(_) => None,
        Ok(rx) => rx.captures(haystack).map(
            |c| c.iter().map(|g| g.map(|m| m.as_str().to_owned())).collect(),
        ),
    }
}

/// The capture groups of the first match of byte regular expression
/// `pattern` in `haystack`; `None` where there is no match or `pattern` does
/// not compile.
pub uninterp spec fn byte_captures_of(pattern: Seq<char>, haystack: Seq<u8>) -> Option<Seq<Option<Seq<u8>>>>;

pub open spec fn byte_groups_view(v: Seq<Option<Vec<u8>>>) -> Seq<Option<Seq<u8>>> {
    v.map_values(|o: Option<Vec<u8>>| match o {
        Some(s) => Some(s@),
        None => None,
    })
}

/// Relies on `regex::bytes::Regex::new` and `regex::bytes::Regex::captures`:
/// the capture groups of the first match, each `None` where the group took
/// no part.
#[verifier::external_body]
pub fn regex_byte_captures(pattern: &str, haystack: &[u8]) -> (r: Option<Vec<Option<Vec<u8>>>>)
    ensures
        r.is_none() == byte_captures_of(pattern@, haystack@).is_none(),
        r.is_some() ==> byte_captures_of(pattern@, haystack@) == Some(byte_groups_view(r.unwrap()@)),
{
    match regex::bytes::Regex::new(pattern) {
        Err(_) => None,
        Ok(rx) => rx.captures(haystack).map(
            |c| c.iter().map(|g| g.map(|m| m.as_bytes().to_vec())).collect(),
        ),
    }
}

/// The value of a string of ASCII decimal digits.
pub open spec fn digit_bytes_value(s: Seq<u8>) -> nat
    decreases s.len(),
{
    if s.len() == 0 {
        0
    } else {
        digit_bytes_value(s.drop_last()) * 10 + (s.last() - 48) as nat
    }
}

pub open spec fn is_digit_byte(b: u8) -> bool {
    48 <= b <= 57
}

/// `s` without a leading `+`.
pub open spec fn strip_plus_byte(s: Seq<u8>) -> Seq<u8> {
    if s.len() > 0 && s[0] == 43 {
        s.drop_first()
    } else {
        s
    }
}

pub open spec fn all_digit_bytes(d: Seq<u8>) -> bool {
    forall|i: int| 0 <= i < d.len() ==> is_digit_byte(#[trigger] d[i])
}

/// What `u32::from_str` gives on ASCII text: an optional `+` and at least
/// one decimal digit, whose value fits in a `u32`.
pub open spec fn decimal_u32_bytes(s: Seq<u8>) -> Option<u32> {
    let d = strip_plus_byte(s);
    if d.len() > 0 && all_digit_bytes(d) && digit_bytes_value(d) <= u32::MAX {
        Some(digit_bytes_value(d) as u32)
    } else {
        None
    }
}

/// Parses ASCII decimal text as a `u32`, as `u32::from_str` does.
pub fn parse_u32_bytes(s: &[u8]) -> (r: Option<u32>)
    ensures
        r == decimal_u32_bytes(s@),
{
    let start: usize = if s.len() > 0 && s[0] == 43 {
        1
    } else {
        0
    };
    let ghost d = strip_plus_byte(s@);
    assert(d == s@.subrange(start as int, s@.len() as int));
    if start >= s.len() {
        return None;
    }
    let mut value: u64 = 0;
    let mut i: usize = start;
    while i < s.len()
        invariant
            start <= i <= s@.len(),
            d == s@.subrange(start as int, s@.len() as int),
            d == strip_plus_byte(s@),
            forall|j: int| start <= j < i ==> is_digit_byte(#[trigger] s@[j]),
            value == digit_bytes_value(s@.subrange(start as int, i as int)),
            value <= u32::MAX,
        decreases s@.len() - i,
    {
        let b = s[i];
        if b < 48 || b > 57 {
            proof {
                assert(d[i - start] == b);
                assert(!is_digit_byte(d[i - start]));
                assert(!(forall|j: int| 0 <= j < d.len() ==> is_digit_byte(#[trigger] d[j])));
                assert(decimal_u32_bytes(s@).is_none());
            }
            return None;
        }
        assert(s@.subrange(start as int, i + 1).drop_last() == s@.subrange(start as int, i as int));
        let next: u64 = value * 10 + (b - 48) as u64;
        if next > 0xFFFF_FFFF {
            proof {
                let k = (i + 1 - start) as int;
                assert(d.subrange(0, k) == s@.subrange(start as int, i + 1));
                assert(digit_bytes_value(s@.subrange(start as int, i + 1)) == next);
                if forall|j: int| 0 <= j < d.len() ==> is_digit_byte(#[trigger] d[j]) {
                    lemma_digits_grow(d, k);
                    assert(digit_bytes_value(d) > u32::MAX);
                }
                assert(decimal_u32_bytes(s@).is_none());
            }
            return None;
        }
        value = next;
        i = i + 1;
    }
    proof {
        assert forall|j: int| 0 <= j < d.len() implies is_digit_byte(#[trigger] d[j]) by {
            assert(d[j] == s@[start + j]);
        }
    }
    Some(value as u32)
}

/// The value of a digit string is at least that of each of its prefixes.
proof fn lemma_digits_grow(d: Seq<u8>, k: int)
    requires
        0 <= k <= d.len(),
        forall|i: int| 0 <= i < d.len() ==> is_digit_byte(#[trigger] d[i]),
    ensures
        digit_bytes_value(d.subrange(0, k)) <= digit_bytes_value(d),
    decreases d.len(),
{
    if k < d.len() {
        let p = d.drop_last();
        assert forall|i: int| 0 <= i < p.len() implies is_digit_byte(#[trigger] p[i]) by {
            assert(p[i] == d[i]);
        }
        lemma_digits_grow(p, k);
        assert(p.subrange(0, k) == d.subrange(0, k));
    } else {
        assert(d.subrange(0, k) == d);
    }
}

/// The decimal digits of `n`, most significant first.
pub open spec fn decimal_digits(n: nat) -> Seq<u8>
    decreases n,
{
    if n < 10 {
        seq![(48 + n) as u8]
    } else {
        decimal_digits(n / 10).push((48 + n % 10) as u8)
    }
}

/// Appends the decimal digits of `n` to `out`.
pub fn push_decimal(out: &mut Vec<u8>, n: u64)
    ensures
        final(out)@ == old(out)@ + decimal_digits(n as nat),
    decreases n,
{
    if n < 10 {
        out.push((48 + n) as u8);
        assert(decimal_digits(n as nat) == seq![(48 + n) as u8]);
    } else {
        push_decimal(out, n / 10);
        out.push((48 + n % 10) as u8);
    }
}

/// Group `i` of `c`, or `None` where it is missing.
pub open spec fn group(c: Seq<Option<Seq<char>>>, i: int) -> Option<Seq<char>> {
    if 0 <= i < c.len() {
        c[i]
    } else {
        None
    }
}

/// A copy of group `i` of `c`.
pub fn group_text(c: &Vec<Option<String>>, i: usize) -> (r: Option<String>)
    ensures
        r.is_some() == group(groups_view(c@), i as int).is_some(),
        r.is_some() ==> group(groups_view(c@), i as int) == Some(r.unwrap()@),
{
    if i < c.len() {
        match &c[i] {
            Some(s) => Some(s.clone()),
            None => None,
        }
    } else {
        None
    }
}

} // verus!
