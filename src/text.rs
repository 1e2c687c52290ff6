//! Character-level helpers: decimal fields, separators, and ASCII case.
use vstd::prelude::*;
use vstd::std_specs::iter::IteratorSpec;

verus! {

pub open spec fn is_digit(c: char) -> bool {
    '0' <= c && c <= '9'
}

pub open spec fn all_digits(s: Seq<char>) -> bool {
    forall|i: int| 0 <= i < s.len() ==> is_digit(#[trigger] s[i])
}

/// The number written by a string of decimal digits.
pub open spec fn digits_value(s: Seq<char>) -> int
    decreases s.len(),
{
    if s.len() == 0 {
        0
    } else {
        digits_value(s.drop_last()) * 10 + (s.last() as int - '0' as int)
    }
}

/// The digits of an unsigned decimal field, after an optional leading `+`.
pub open spec fn unsigned_digits(s: Seq<char>) -> Seq<char> {
    if s.len() > 0 && s[0] == '+' {
        s.drop_first()
    } else {
        s
    }
}

/// The value of an unsigned decimal field whose type holds at most `max`,
/// or `None` where the text is no such field.
pub open spec fn parse_unsigned(s: Seq<char>, max: int) -> Option<int> {
    let d = unsigned_digits(s);
    if d.len() > 0 && all_digits(d) && digits_value(d) <= max {
        Some(digits_value(d))
    } else {
        None
    }
}

/// The first position at or after `from` that holds `c`, or the length.
pub open spec fn next_index_of(s: Seq<char>, c: char, from: int) -> int
    decreases s.len() - from,
{
    if from >= s.len() {
        s.len() as int
    } else if s[from] == c {
        from
    } else {
        next_index_of(s, c, from + 1)
    }
}

pub open spec fn ascii_lower(c: char) -> char {
    if 'A' <= c && c <= 'Z' {
        ((c as u8) + 32) as u8 as char
    } else {
        c
    }
}

pub open spec fn is_ascii_whitespace(c: char) -> bool {
    c == ' ' || c == '\t' || c == '\n' || c == '\x0C' || c == '\r'
}

proof fn lemma_digits_prefix_le(t: Seq<char>, k: int)
    requires
        all_digits(t),
        0 <= k <= t.len(),
    ensures
        digits_value(t.subrange(0, k)) <= digits_value(t),
        0 <= digits_value(t.subrange(0, k)),
    decreases t.len(),
{
    if t.len() > 0 {
        let p = t.drop_last();
        assert(all_digits(p));
        if k < t.len() {
            lemma_digits_prefix_le(p, k);
            assert(p.subrange(0, k) =~= t.subrange(0, k));
        } else {
            assert(t.subrange(0, k) =~= t);
            lemma_digits_prefix_le(p, p.len() as int);
            assert(p.subrange(0, p.len() as int) =~= p);
        }
    } else {
        assert(t.subrange(0, k) =~= t);
    }
}

/// Reads the unsigned decimal field `s[lo..hi]` into a type whose largest
/// value is `max`.
pub fn parse_decimal(s: &Vec<char>, lo: usize, hi: usize, max: u64) -> (r: Option<u64>)
    requires
        lo <= hi <= s@.len(),
    ensures
        r matches Some(v) ==> parse_unsigned(s@.subrange(lo as int, hi as int), max as int) == Some(
            v as int,
        ),
        r is None ==> parse_unsigned(s@.subrange(lo as int, hi as int), max as int) is None,
{
    let ghost field = s@.subrange(lo as int, hi as int);
    let mut i: usize = lo;
    if i < hi && s[i] == '+' {
        i = i + 1;
    }
    let start = i;
    let ghost d = s@.subrange(start as int, hi as int);
    assert(d =~= unsigned_digits(field));
    if i == hi {
        return None;
    }
    let mut v: u64 = 0;
    while i < hi
        invariant
            lo <= start <= i <= hi <= s@.len(),
            d == s@.subrange(start as int, hi as int),
            field == s@.subrange(lo as int, hi as int),
            d == unsigned_digits(field),
            v as int == digits_value(s@.subrange(start as int, i as int)),
            v <= max,
            all_digits(s@.subrange(start as int, i as int)),
        decreases hi - i,
    {
        let c = s[i];
        let ghost prefix = s@.subrange(start as int, i as int + 1);
        assert(prefix.drop_last() =~= s@.subrange(start as int, i as int));
        if !('0' <= c && c <= '9') {
            assert(d[i - start] == c);
            assert(!is_digit(d[i - start]));
            return None;
        }
        let digit = (c as u32 - '0' as u32) as u64;
        if digit > max || v > (max - digit) / 10 {
            proof {
                assert(digits_value(prefix) == v * 10 + digit);
                if all_digits(d) {
                    lemma_digits_prefix_le(d, i - start + 1);
                    assert(d.subrange(0, i - start + 1) =~= prefix);
                }
            }
            return None;
        }
        v = v * 10 + digit;
        i = i + 1;
        proof {
            assert forall|j: int| 0 <= j < prefix.len() implies is_digit(#[trigger] prefix[j]) by {
                if j < prefix.len() - 1 {
                    assert(prefix[j] == s@.subrange(start as int, i as int - 1)[j]);
                }
            }
        }
    }
    assert(s@.subrange(start as int, i as int) =~= d);
    Some(v)
}

/// The first position at or after `from` where `s` holds `c`, or its length.
pub fn find_char(s: &Vec<char>, c: char, from: usize) -> (r: usize)
    requires
        from <= s@.len(),
    ensures
        r == next_index_of(s@, c, from as int),
{
    let mut i = from;
    while i < s.len()
        invariant
            from <= i <= s@.len(),
            next_index_of(s@, c, from as int) == next_index_of(s@, c, i as int),
        decreases s@.len() - i,
    {
        if s[i] == c {
            return i;
        }
        i = i + 1;
    }
    i
}

/// The characters of a string, in order.
pub fn chars_of(s: &str) -> (r: Vec<char>)
    ensures
        r@ == s@,
{
    broadcast use vstd::string::axiom_spec_iter, vstd::string::next_postcondition;

    let mut it = s.chars();
    let mut out: Vec<char> = Vec::new();
    loop
        invariant
            out@ + it.remaining() == s@,
            it.obeys_prophetic_iter_laws(),
        ensures
            out@ == s@,
        decreases s@.len() - out@.len(),
    {
        let ghost before = it.remaining();
        match it.next() {
            Some(c) => {
                out.push(c);
                assert(out@ + it.remaining() =~= s@) by {
                    assert(before == seq![c] + it.remaining());
                }
            },
            None => {
                assert(out@ =~= s@);
                break ;
            },
        }
    }
    out
}

/// Relies on `String::from_iter` over `&char`: the string of these
/// characters, in order.
#[verifier::external_body]
pub(crate) fn string_from_chars(v: &Vec<char>) -> (r: String)
    ensures
        r@ == v@,
{
    String::from_iter(v.iter())
}

/// Lowercases the ASCII letters of `s[lo..hi]`, leaving every other character.
pub fn ascii_lowercase_range(s: &Vec<char>, lo: usize, hi: usize) -> (r: Vec<char>)
    requires
        lo <= hi <= s@.len(),
    ensures
        r@ == s@.subrange(lo as int, hi as int).map_values(|c: char| ascii_lower(c)),
{
    let mut out: Vec<char> = Vec::new();
    let mut i = lo;
    while i < hi
        invariant
            lo <= i <= hi <= s@.len(),
            out@ == s@.subrange(lo as int, i as int).map_values(|c: char| ascii_lower(c)),
        decreases hi - i,
    {
        let c = s[i];
        let l = if 'A' <= c && c <= 'Z' {
            ((c as u8) + 32) as char
        } else {
            c
        };
        out.push(l);
        i = i + 1;
        assert(out@ =~= s@.subrange(lo as int, i as int).map_values(|c: char| ascii_lower(c)));
    }
    out
}

/// Whether two character strings are equal.
pub fn same_chars(a: &Vec<char>, b: &Vec<char>) -> (r: bool)
    ensures
        r == (a@ == b@),
{
    if a.len() != b.len() {
        return false;
    }
    let mut i: usize = 0;
    while i < a.len()
        invariant
            i <= a@.len(),
            a@.len() == b@.len(),
            forall|k: int| 0 <= k < i ==> a@[k] == b@[k],
        decreases a@.len() - i,
    {
        if a[i] != b[i] {
            return false;
        }
        i = i + 1;
    }
    assert(a@ =~= b@);
    true
}

pub open spec fn hex_digit_value(c: char) -> int {
    if '0' <= c && c <= '9' {
        c as int - '0' as int
    } else if 'a' <= c && c <= 'f' {
        c as int - 'a' as int + 10
    } else if 'A' <= c && c <= 'F' {
        c as int - 'A' as int + 10
    } else {
        -1
    }
}

pub open spec fn all_hex(s: Seq<char>) -> bool {
    forall|i: int| 0 <= i < s.len() ==> hex_digit_value(#[trigger] s[i]) >= 0
}

/// The number written by a string of hexadecimal digits.
pub open spec fn hex_value(s: Seq<char>) -> int
    decreases s.len(),
{
    if s.len() == 0 {
        0
    } else {
        hex_value(s.drop_last()) * 16 + hex_digit_value(s.last())
    }
}

/// The value of an unsigned hexadecimal field (optional leading `+`) whose
/// type holds at most `max`.
pub open spec fn parse_unsigned_hex(s: Seq<char>, max: int) -> Option<int> {
    let d = unsigned_digits(s);
    if d.len() > 0 && all_hex(d) && hex_value(d) <= max {
        Some(hex_value(d))
    } else {
        None
    }
}

proof fn lemma_hex_prefix_le(t: Seq<char>, k: int)
    requires
        all_hex(t),
        0 <= k <= t.len(),
    ensures
        hex_value(t.subrange(0, k)) <= hex_value(t),
        0 <= hex_value(t.subrange(0, k)),
    decreases t.len(),
{
    if t.len() > 0 {
        let p = t.drop_last();
        assert(all_hex(p));
        assert(hex_digit_value(t[t.len() - 1]) >= 0);
        if k < t.len() {
            lemma_hex_prefix_le(p, k);
            assert(p.subrange(0, k) =~= t.subrange(0, k));
        } else {
            assert(t.subrange(0, k) =~= t);
            lemma_hex_prefix_le(p, p.len() as int);
            assert(p.subrange(0, p.len() as int) =~= p);
        }
    } else {
        assert(t.subrange(0, k) =~= t);
    }
}

/// Reads the unsigned hexadecimal field `s[lo..hi]` into a type whose
/// largest value is `max`.
pub fn parse_hex(s: &Vec<char>, lo: usize, hi: usize, max: u64) -> (r: Option<u64>)
    requires
        lo <= hi <= s@.len(),
    ensures
        r matches Some(v) ==> parse_unsigned_hex(s@.subrange(lo as int, hi as int), max as int) == Some(
            v as int,
        ),
        r is None ==> parse_unsigned_hex(s@.subrange(lo as int, hi as int), max as int) is None,
{
    let ghost field = s@.subrange(lo as int, hi as int);
    let mut i: usize = lo;
    if i < hi && s[i] == '+' {
        i = i + 1;
    }
    let start = i;
    let ghost d = s@.subrange(start as int, hi as int);
    assert(d =~= unsigned_digits(field));
    if i == hi {
        return None;
    }
    let mut v: u64 = 0;
    while i < hi
        invariant
            lo <= start <= i <= hi <= s@.len(),
            d == s@.subrange(start as int, hi as int),
            field == s@.subrange(lo as int, hi as int),
            d == unsigned_digits(field),
            v as int == hex_value(s@.subrange(start as int, i as int)),
            v <= max,
            all_hex(s@.subrange(start as int, i as int)),
        decreases hi - i,
    {
        let c = s[i];
        let ghost prefix = s@.subrange(start as int, i as int + 1);
        assert(prefix.drop_last() =~= s@.subrange(start as int, i as int));
        let digit: u64 = if '0' <= c && c <= '9' {
            (c as u32 - '0' as u32) as u64
        } else if 'a' <= c && c <= 'f' {
            (c as u32 - 'a' as u32 + 10) as u64
        } else if 'A' <= c && c <= 'F' {
            (c as u32 - 'A' as u32 + 10) as u64
        } else {
            assert(d[i - start] == c);
            assert(hex_digit_value(d[i - start]) < 0);
            return None;
        };
        assert(digit == hex_digit_value(c));
        if digit > max || v > (max - digit) / 16 {
            proof {
                assert(hex_value(prefix) == v * 16 + digit);
                if all_hex(d) {
                    lemma_hex_prefix_le(d, i - start + 1);
                    assert(d.subrange(0, i - start + 1) =~= prefix);
                }
            }
            return None;
        }
        v = v * 16 + digit;
        i = i + 1;
        proof {
            assert forall|j: int| 0 <= j < prefix.len() implies hex_digit_value(#[trigger] prefix[j]) >= 0 by {
                if j < prefix.len() - 1 {
                    assert(prefix[j] == s@.subrange(start as int, i as int - 1)[j]);
                }
            }
        }
    }
    assert(s@.subrange(start as int, i as int) =~= d);
    Some(v)
}

/// An integer field as CSV records are read: `0x` then hexadecimal digits,
/// else decimal digits.
pub open spec fn parse_field_uint(s: Seq<char>, max: int) -> Option<int> {
    if s.len() >= 2 && s[0] == '0' && s[1] == 'x' {
        parse_unsigned_hex(s.skip(2), max)
    } else {
        parse_unsigned(s, max)
    }
}

/// Reads an integer field of a CSV record (see `parse_field_uint`).
pub fn parse_field(s: &Vec<char>, max: u64) -> (r: Option<u64>)
    ensures
        match r {
            Some(v) => parse_field_uint(s@, max as int) == Some(v as int),
            None => parse_field_uint(s@, max as int) is None,
        },
{
    if s.len() >= 2 && s[0] == '0' && s[1] == 'x' {
        assert(s@.subrange(2, s@.len() as int) =~= s@.skip(2));
        parse_hex(s, 2, s.len(), max)
    } else {
        assert(s@.subrange(0, s@.len() as int) =~= s@);
        parse_decimal(s, 0, s.len(), max)
    }
}

/// The value of a field of decimal digits only (no sign) whose type holds
/// at most `max`.
pub open spec fn parse_digits(s: Seq<char>, max: int) -> Option<int> {
    if s.len() > 0 && all_digits(s) && digits_value(s) <= max {
        Some(digits_value(s))
    } else {
        None
    }
}

/// Reads the field `s[lo..hi]` of decimal digits only.
pub fn parse_digit_field(s: &Vec<char>, lo: usize, hi: usize, max: u64) -> (r: Option<u64>)
    requires
        lo <= hi <= s@.len(),
    ensures
        match r {
            Some(v) => parse_digits(s@.subrange(lo as int, hi as int), max as int) == Some(v as int),
            None => parse_digits(s@.subrange(lo as int, hi as int), max as int) is None,
        },
{
    let ghost f = s@.subrange(lo as int, hi as int);
    if lo < hi && s[lo] == '+' {
        assert(!is_digit(f[0]));
        return None;
    }
    assert(unsigned_digits(f) == f);
    parse_decimal(s, lo, hi, max)
}

} // verus!
