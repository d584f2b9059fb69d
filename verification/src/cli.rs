//! Parsers for the command line's textual options.
use vstd::prelude::*;

use crate::artwork::{ThresholdMode, chars_of, eq_ignore_ascii_case, matches_ignore_case};
use crate::qr::EcLevel;

verus! {

/// Why an option could not be parsed.
#[derive(Debug, Clone, Copy, PartialEq, Eq, Structural)]
pub enum ParseError {
    /// A threshold that is neither `otsu`, `alpha` nor a number 0-255.
    InvalidThreshold,
    /// A layer specification without a `/`.
    MissingSlash,
    /// A layer number that is not an `i16`.
    InvalidLayer,
    /// A datatype that is not an `i16`.
    InvalidDatatype,
}

/// Whether `c` is an ASCII decimal digit.
pub open spec fn is_digit(c: char) -> bool {
    '0' <= c && c <= '9'
}

/// The number written by the decimal digits `s`.
pub open spec fn digits_value(s: Seq<char>) -> int
    decreases s.len(),
{
    if s.len() == 0 {
        0
    } else {
        digits_value(s.drop_last()) * 10 + ((s.last() as u32) - 48)
    }
}

/// Whether `s` is one or more decimal digits.
pub open spec fn all_digits(s: Seq<char>) -> bool {
    s.len() > 0 && forall|i: int| 0 <= i < s.len() ==> is_digit(#[trigger] s[i])
}

/// `s` read as a `u8` the way `str::parse::<u8>` reads it: an optional `+`
/// and decimal digits, at most 255.
pub open spec fn parse_u8_spec(s: Seq<char>) -> Option<u8> {
    let body = if s.len() > 0 && s[0] == '+' {
        s.drop_first()
    } else {
        s
    };
    if all_digits(body) && digits_value(body) <= 255 {
        Some(digits_value(body) as u8)
    } else {
        None
    }
}

/// `s` read as an `i16` the way `str::parse::<i16>` reads it: an optional
/// `+` or `-` and decimal digits, within `i16`'s range.
pub open spec fn parse_i16_spec(s: Seq<char>) -> Option<i16> {
    let neg = s.len() > 0 && s[0] == '-';
    let body = if s.len() > 0 && (s[0] == '+' || s[0] == '-') {
        s.drop_first()
    } else {
        s
    };
    let v = if neg {
        -digits_value(body)
    } else {
        digits_value(body)
    };
    if all_digits(body) && i16::MIN <= v <= i16::MAX {
        Some(v as i16)
    } else {
        None
    }
}

proof fn lemma_digits_value_prefix(s: Seq<char>, i: int)
    requires
        0 <= i <= s.len(),
        forall|j: int| 0 <= j < s.len() ==> is_digit(#[trigger] s[j]),
    ensures
        0 <= digits_value(s.take(i)) <= digits_value(s),
    decreases s.len(),
{
    if i < s.len() {
        let d = s.drop_last();
        assert forall|j: int| 0 <= j < d.len() implies is_digit(#[trigger] d[j]) by {
            assert(d[j] == s[j]);
        }
        lemma_digits_value_prefix(d, i);
        assert(d.take(i) =~= s.take(i));
        assert(is_digit(s[s.len() - 1]));
    } else {
        assert(s.take(i) =~= s);
        if s.len() > 0 {
            let d = s.drop_last();
            assert forall|j: int| 0 <= j < d.len() implies is_digit(#[trigger] d[j]) by {
                assert(d[j] == s[j]);
            }
            lemma_digits_value_prefix(d, d.len() as int);
            assert(d.take(d.len() as int) =~= d);
            assert(is_digit(s[s.len() - 1]));
        }
    }
}

/// Reads `s[start..end]` as decimal digits whose value is at most `limit`;
/// `None` when a character is not a digit, there is none, or the value is
/// larger.
fn read_digits(s: &Vec<char>, start: usize, end: usize, limit: u32) -> (r: Option<u32>)
    requires
        start <= end <= s@.len(),
        limit <= 100_000,
    ensures
        r is Some <==> (all_digits(s@.subrange(start as int, end as int)) && digits_value(
            s@.subrange(start as int, end as int),
        ) <= limit),
        r matches Some(v) ==> v == digits_value(s@.subrange(start as int, end as int)),
{
    let ghost body = s@.subrange(start as int, end as int);
    if start == end {
        return None;
    }
    let mut acc: u32 = 0;
    let mut i = start;
    while i < end
        invariant
            start <= i <= end <= s@.len(),
            body == s@.subrange(start as int, end as int),
            limit <= 100_000,
            acc <= limit,
            forall|j: int| 0 <= j < i - start ==> is_digit(#[trigger] body[j]),
            acc == digits_value(body.take(i - start)),
        decreases end - i,
    {
        let c = s[i];
        proof {
            assert(body[i - start] == c);
        }
        if !('0' <= c && c <= '9') {
            assert(!all_digits(body));
            return None;
        }
        let d = (c as u32) - 48;
        proof {
            assert(body.take(i - start + 1).drop_last() =~= body.take(i - start));
            assert(body.take(i - start + 1).last() == c);
        }
        if acc * 10 + d > limit {
            proof {
                if all_digits(body) {
                    lemma_digits_value_prefix(body, i - start + 1);
                }
            }
            return None;
        }
        acc = acc * 10 + d;
        i = i + 1;
    }
    proof {
        assert(body.take(end - start) =~= body);
    }
    Some(acc)
}

/// Parse a `u8` as `str::parse::<u8>` does.
pub fn parse_u8(s: &Vec<char>) -> (r: Option<u8>)
    ensures
        r == parse_u8_spec(s@),
{
    let start: usize = if s.len() > 0 && s[0] == '+' {
        1
    } else {
        0
    };
    proof {
        if s@.len() > 0 && s@[0] == '+' {
            assert(s@.subrange(1, s@.len() as int) =~= s@.drop_first());
        } else {
            assert(s@.subrange(0, s@.len() as int) =~= s@);
        }
    }
    match read_digits(s, start, s.len(), 255) {
        Some(v) => Some(v as u8),
        None => None,
    }
}

/// Parse an `i16` as `str::parse::<i16>` does.
pub fn parse_i16(s: &Vec<char>) -> (r: Option<i16>)
    ensures
        r == parse_i16_spec(s@),
{
    let neg = s.len() > 0 && s[0] == '-';
    let start: usize = if s.len() > 0 && (s[0] == '+' || s[0] == '-') {
        1
    } else {
        0
    };
    proof {
        if start == 1 {
            assert(s@.subrange(1, s@.len() as int) =~= s@.drop_first());
        } else {
            assert(s@.subrange(0, s@.len() as int) =~= s@);
        }
    }
    let limit: u32 = if neg {
        32768
    } else {
        32767
    };
    match read_digits(s, start, s.len(), limit) {
        Some(v) => {
            if neg {
                Some((0 - (v as i32)) as i16)
            } else {
                Some(v as i16)
            }
        },
        None => None,
    }
}

/// The characters `s[a..b]` as a vector.
fn slice_chars(s: &Vec<char>, a: usize, b: usize) -> (r: Vec<char>)
    requires
        a <= b <= s@.len(),
    ensures
        r@ == s@.subrange(a as int, b as int),
{
    let mut v: Vec<char> = Vec::new();
    let mut i = a;
    while i < b
        invariant
            a <= i <= b <= s@.len(),
            v@ == s@.subrange(a as int, i as int),
        decreases b - i,
    {
        v.push(s[i]);
        i = i + 1;
        proof {
            assert(v@ =~= s@.subrange(a as int, i as int));
        }
    }
    v
}

/// The threshold mode a command line value selects: `otsu` and `alpha`
/// in any ASCII case, or a luminance level 0-255.
pub open spec fn threshold_spec(s: Seq<char>) -> Result<ThresholdMode, ParseError> {
    if eq_ignore_ascii_case(s, seq!['o', 't', 's', 'u']) {
        Ok(ThresholdMode::Otsu)
    } else if eq_ignore_ascii_case(s, seq!['a', 'l', 'p', 'h', 'a']) {
        Ok(ThresholdMode::Alpha(128))
    } else {
        match parse_u8_spec(s) {
            Some(v) => Ok(ThresholdMode::Luminance(v)),
            None => Err(ParseError::InvalidThreshold),
        }
    }
}

/// Parse a threshold option: `otsu`, `alpha` (opaque at 128) or a
/// luminance level 0-255.
pub fn parse_threshold(s: &str) -> (r: Result<ThresholdMode, ParseError>)
    ensures
        r == threshold_spec(s@),
{
    let cs = chars_of(s);
    let otsu = vec!['o', 't', 's', 'u'];
    let alpha = vec!['a', 'l', 'p', 'h', 'a'];
    assert(otsu@ =~= seq!['o', 't', 's', 'u']);
    assert(alpha@ =~= seq!['a', 'l', 'p', 'h', 'a']);
    if matches_ignore_case(&cs, &otsu) {
        Ok(ThresholdMode::Otsu)
    } else if matches_ignore_case(&cs, &alpha) {
        Ok(ThresholdMode::Alpha(128))
    } else {
        match parse_u8(&cs) {
            Some(v) => Ok(ThresholdMode::Luminance(v)),
            None => Err(ParseError::InvalidThreshold),
        }
    }
}

/// Index of the first `'/'` in `s`, if any.
pub open spec fn first_slash(s: Seq<char>) -> Option<int> {
    if exists|i: int| 0 <= i < s.len() && s[i] == '/' {
        Some(choose|i: int| 0 <= i < s.len() && s[i] == '/' && forall|j: int| 0 <= j < i ==> s[j] != '/')
    } else {
        None
    }
}

/// The `(layer, datatype)` pair written `LAYER/DATATYPE`, split at the
/// first `/`.
pub open spec fn layer_spec(s: Seq<char>) -> Result<(i16, i16), ParseError> {
    match first_slash(s) {
        None => Err(ParseError::MissingSlash),
        Some(k) => match parse_i16_spec(s.take(k)) {
            None => Err(ParseError::InvalidLayer),
            Some(layer) => match parse_i16_spec(s.skip(k + 1)) {
                None => Err(ParseError::InvalidDatatype),
                Some(datatype) => Ok((layer, datatype)),
            },
        },
    }
}

/// Parse a `LAYER/DATATYPE` string such as `81/0`.
pub fn parse_layer_spec(s: &str) -> (r: Result<(i16, i16), ParseError>)
    ensures
        r == layer_spec(s@),
{
    let cs = chars_of(s);
    let mut k: usize = 0;
    while k < cs.len() && cs[k] != '/'
        invariant
            k <= cs@.len(),
            cs@ == s@,
            forall|j: int| 0 <= j < k ==> cs@[j] != '/',
        decreases cs.len() - k,
    {
        k = k + 1;
    }
    if k == cs.len() {
        assert(!(exists|i: int| 0 <= i < s@.len() && s@[i] == '/'));
        return Err(ParseError::MissingSlash);
    }
    proof {
        assert(exists|i: int| 0 <= i < s@.len() && s@[i] == '/');
        let c = choose|i: int| 0 <= i < s@.len() && s@[i] == '/' && forall|j: int| 0 <= j < i ==> s@[j] != '/';
        assert(0 <= k < s@.len() && s@[k as int] == '/' && forall|j: int| 0 <= j < k ==> s@[j] != '/');
        if c < k {
        } else if c > k {
        }
        assert(c == k);
        assert(first_slash(s@) == Some(k as int));
    }
    let head = slice_chars(&cs, 0, k);
    let tail = slice_chars(&cs, k + 1, cs.len());
    assert(head@ =~= s@.take(k as int));
    assert(tail@ =~= s@.skip(k + 1));
    match parse_i16(&head) {
        None => Err(ParseError::InvalidLayer),
        Some(layer) => match parse_i16(&tail) {
            None => Err(ParseError::InvalidDatatype),
            Some(datatype) => Ok((layer, datatype)),
        },
    }
}

/// The error correction level named by one letter `l`, `m`, `q` or `h`,
/// in any case.
pub open spec fn ec_level_spec(s: Seq<char>) -> Option<EcLevel> {
    if s.len() != 1 {
        None
    } else if s[0] == 'L' || s[0] == 'l' {
        Some(EcLevel::L)
    } else if s[0] == 'M' || s[0] == 'm' {
        Some(EcLevel::M)
    } else if s[0] == 'Q' || s[0] == 'q' {
        Some(EcLevel::Q)
    } else if s[0] == 'H' || s[0] == 'h' {
        Some(EcLevel::H)
    } else {
        None
    }
}

/// Parse a QR error correction level letter.
pub fn parse_ec_level(s: &str) -> (r: Option<EcLevel>)
    ensures
        r == ec_level_spec(s@),
{
    let cs = chars_of(s);
    if cs.len() != 1 {
        return None;
    }
    let c = cs[0];
    if c == 'L' || c == 'l' {
        Some(EcLevel::L)
    } else if c == 'M' || c == 'm' {
        Some(EcLevel::M)
    } else if c == 'Q' || c == 'q' {
        Some(EcLevel::Q)
    } else if c == 'H' || c == 'h' {
        Some(EcLevel::H)
    } else {
        None
    }
}

}
