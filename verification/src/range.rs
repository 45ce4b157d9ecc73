//! Parsing of HTTP `Range` headers of the form `bytes=<start>-<end?>`
//! against a known total size, yielding a validated byte interval.

use vstd::prelude::*;

verus! {

/// A decimal digit character.
pub open spec fn is_digit_char(c: char) -> bool {
    48 <= c as u32 <= 57
}

/// Numeric value of a digit character.
pub open spec fn digit_value(c: char) -> nat
    recommends
        is_digit_char(c),
{
    (c as u32 - 48) as nat
}

pub open spec fn all_digits(s: Seq<char>) -> bool {
    forall|i: int| 0 <= i < s.len() ==> is_digit_char(#[trigger] s[i])
}

/// Numeric value of a digit string, most significant digit first.
pub open spec fn digits_value(s: Seq<char>) -> nat
    decreases s.len(),
{
    if s.len() == 0 {
        0
    } else {
        digits_value(s.drop_last()) * 10 + digit_value(s.last())
    }
}

/// What `<num>` accepts: one or more decimal digits whose value fits in u64.
pub open spec fn spec_parse_u64(s: Seq<char>) -> Option<u64> {
    if s.len() > 0 && all_digits(s) && digits_value(s) <= u64::MAX {
        Some(digits_value(s) as u64)
    } else {
        None
    }
}

/// The value of a digit string never falls when more digits are appended.
proof fn lemma_digits_value_take_le(s: Seq<char>, i: int)
    requires
        0 <= i <= s.len(),
    ensures
        digits_value(s.take(i)) <= digits_value(s),
    decreases s.len(),
{
    if i < s.len() {
        assert(s.take(i) =~= s.drop_last().take(i));
        lemma_digits_value_take_le(s.drop_last(), i);
    } else {
        assert(s.take(i) =~= s);
    }
}

/// Parses the characters of `s` in `[from, to)` as a decimal u64.
pub fn parse_decimal_u64(s: &str, from: usize, to: usize) -> (r: Option<u64>)
    requires
        from <= to <= s@.len(),
    ensures
        r == spec_parse_u64(s@.subrange(from as int, to as int)),
{
    let ghost digits = s@.subrange(from as int, to as int);
    if from == to {
        assert(digits.len() == 0);
        return None;
    }
    let mut acc: u64 = 0;
    let mut i: usize = from;
    while i < to
        invariant
            from <= i <= to <= s@.len(),
            digits == s@.subrange(from as int, to as int),
            all_digits(digits.take(i - from)),
            acc == digits_value(digits.take(i - from)),
        decreases to - i,
    {
        let c = s.get_char(i);
        let u = c as u32;
        assert(c == digits[i - from]);
        if !(48 <= u && u <= 57) {
            assert(!is_digit_char(digits[i - from]));
            assert(!all_digits(digits));
            return None;
        }
        let d: u64 = (u - 48) as u64;
        assert(d == digit_value(digits[i - from]));
        assert(digits.take(i - from + 1).drop_last() =~= digits.take(i - from));
        assert(digits.take(i - from + 1).last() == digits[i - from]);
        if acc > (u64::MAX - d) / 10 {
            proof {
                // acc * 10 + d exceeds u64::MAX, so the whole string does too.
                assert(acc * 10 + d > u64::MAX) by (nonlinear_arith)
                    requires
                        acc > (u64::MAX - d) / 10,
                        d <= u64::MAX,
                ;
                assert(digits_value(digits.take(i - from + 1)) > u64::MAX);
                lemma_digits_value_take_le(digits, i - from + 1);
                assert(digits_value(digits) > u64::MAX);
            }
            return None;
        }
        proof {
            assert(acc * 10 + d <= u64::MAX) by (nonlinear_arith)
                requires
                    acc <= (u64::MAX - d) / 10,
                    d <= u64::MAX,
            ;
        }
        acc = acc * 10 + d;
        i = i + 1;
    }
    assert(digits.take(to - from) =~= digits);
    Some(acc)
}

/// The header starts with the six characters `bytes=`.
pub open spec fn has_bytes_prefix(s: Seq<char>) -> bool {
    s.len() >= 6 && s[0] == 'b' && s[1] == 'y' && s[2] == 't' && s[3] == 'e' && s[4] == 's'
        && s[5] == '='
}

/// Splits `s` around its dash when it holds exactly one `-`.
pub open spec fn single_dash_split(s: Seq<char>) -> Option<(Seq<char>, Seq<char>)> {
    if exists|k: int|
        0 <= k < s.len() && s[k] == '-' && (forall|j: int|
            0 <= j < s.len() && j != k ==> s[j] != '-') {
        let k = choose|k: int|
            0 <= k < s.len() && s[k] == '-' && (forall|j: int|
                0 <= j < s.len() && j != k ==> s[j] != '-');
        Some((s.take(k), s.skip(k + 1)))
    } else {
        None
    }
}

/// The requested end position: an omitted end means the last byte of the file,
/// which exists only when the file is not empty.
pub open spec fn spec_range_end(end_part: Seq<char>, total_size: u64) -> Option<u64> {
    if end_part.len() == 0 {
        if total_size == 0 {
            None
        } else {
            Some((total_size - 1) as u64)
        }
    } else {
        spec_parse_u64(end_part)
    }
}

/// The validated byte interval a `Range` header denotes against `total_size`,
/// or `None` when the header is malformed, `start > end`, or `end` is past
/// the end of the file.
pub open spec fn spec_parse_range(header: Seq<char>, total_size: u64) -> Option<(u64, u64)> {
    if !has_bytes_prefix(header) {
        None
    } else {
        match single_dash_split(header.skip(6)) {
            Some(parts) => match (spec_parse_u64(parts.0), spec_range_end(parts.1, total_size)) {
                (Some(start), Some(end)) => if start <= end && end < total_size {
                    Some((start, end))
                } else {
                    None
                },
                _ => None,
            },
            None => None,
        }
    }
}

/// Parses a `Range` header value against a total file size.
///
/// Accepts exactly `bytes=<start>-<end?>` where the interval is well formed
/// and lies inside the file; everything else is `None`, which callers treat
/// as "serve the full file".
pub fn parse_range(range_str: &str, total_size: u64) -> (r: Option<(u64, u64)>)
    ensures
        r == spec_parse_range(range_str@, total_size),
{
    let ghost h = range_str@;
    let n = range_str.unicode_len();
    if n < 6 {
        return None;
    }
    if !(range_str.get_char(0) == 'b' && range_str.get_char(1) == 'y' && range_str.get_char(2)
        == 't' && range_str.get_char(3) == 'e' && range_str.get_char(4) == 's'
        && range_str.get_char(5) == '=') {
        return None;
    }
    assert(has_bytes_prefix(h));
    let ghost rest = h.skip(6);

    // Find the single dash separating start from end; two dashes or none
    // make the header malformed.
    let mut dash: Option<usize> = None;
    let mut i: usize = 6;
    while i < n
        invariant
            6 <= i <= n,
            h == range_str@,
            n == h.len(),
            rest == h.skip(6),
            match dash {
                Some(k) => 6 <= k < i && h[k as int] == '-' && (forall|j: int|
                    6 <= j < i && j != k ==> h[j] != '-'),
                None => forall|j: int| 6 <= j < i ==> h[j] != '-',
            },
        decreases n - i,
    {
        if range_str.get_char(i) == '-' {
            if dash.is_some() {
                proof {
                    // Two dashes: no single-dash split exists.
                    let k0 = dash->Some_0 as int;
                    assert forall|k: int|
                        !(0 <= k < rest.len() && rest[k] == '-' && (forall|j: int|
                            0 <= j < rest.len() && j != k ==> rest[j] != '-')) by {
                        if 0 <= k < rest.len() && rest[k] == '-' {
                            if k + 6 == k0 {
                                assert(rest[i - 6] == '-');
                            } else {
                                assert(rest[k0 - 6] == '-');
                            }
                        }
                    }
                    assert(single_dash_split(rest) is None);
                }
                return None;
            }
            dash = Some(i);
        }
        i = i + 1;
    }
    let k = match dash {
        Some(k) => k,
        None => {
            proof {
                assert forall|k: int|
                    !(0 <= k < rest.len() && rest[k] == '-' && (forall|j: int|
                        0 <= j < rest.len() && j != k ==> rest[j] != '-')) by {
                    if 0 <= k < rest.len() {
                        assert(rest[k] == h[k + 6]);
                    }
                }
                assert(single_dash_split(rest) is None);
            }
            return None;
        },
    };
    proof {
        // The dash found is the unique one, so the spec split picks it.
        let kk = (k - 6) as int;
        assert(rest[kk] == '-');
        assert forall|j: int| 0 <= j < rest.len() && j != kk implies rest[j] != '-' by {
            assert(rest[j] == h[j + 6]);
        }
        let kc = choose|kc: int|
            0 <= kc < rest.len() && rest[kc] == '-' && (forall|j: int|
                0 <= j < rest.len() && j != kc ==> rest[j] != '-');
        assert(kc == kk);
        assert(single_dash_split(rest) == Some((rest.take(kk), rest.skip(kk + 1))));
        assert(rest.take(kk) =~= h.subrange(6, k as int));
        assert(rest.skip(kk + 1) =~= h.subrange(k + 1, n as int));
    }

    let start = match parse_decimal_u64(range_str, 6, k) {
        Some(v) => v,
        None => {
            return None;
        },
    };

    let end: u64 = if k + 1 == n {
        if total_size == 0 {
            return None;
        }
        total_size - 1
    } else {
        match parse_decimal_u64(range_str, k + 1, n) {
            Some(v) => v,
            None => {
                return None;
            },
        }
    };

    if start <= end && end < total_size {
        Some((start, end))
    } else {
        None
    }
}

} // verus!
