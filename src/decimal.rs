//! Decimal integers as typed by a user: an optional `+` or `-`, then one or
//! more ASCII digits.
use vstd::prelude::*;
use vstd::string::StringSliceAdditionalSpecFns;

verus! {

pub open spec fn is_digit(b: u8) -> bool {
    48 <= b <= 57
}

pub open spec fn all_digits(s: Seq<u8>) -> bool {
    forall|i: int| 0 <= i < s.len() ==> is_digit(#[trigger] s[i])
}

/// The value of a sequence of ASCII digits, most significant first.
pub open spec fn digits_value(s: Seq<u8>) -> int
    decreases s.len(),
{
    if s.len() == 0 {
        0
    } else {
        digits_value(s.drop_last()) * 10 + (s.last() - 48)
    }
}

/// The integer that `s` spells, if it is a decimal integer.
pub open spec fn decimal_value(s: Seq<u8>) -> Option<int> {
    let signed = s.len() > 0 && (s[0] == 45 || s[0] == 43);
    let body = if signed {
        s.skip(1)
    } else {
        s
    };
    if body.len() > 0 && all_digits(body) {
        Some(if s[0] == 45 { -digits_value(body) } else { digits_value(body) })
    } else {
        None
    }
}

/// The `i64` that `s` spells; `None` if it spells no decimal integer or one
/// out of range.
pub open spec fn decimal_i64(s: Seq<u8>) -> Option<i64> {
    match decimal_value(s) {
        Some(v) => if i64::MIN <= v <= i64::MAX {
            Some(v as i64)
        } else {
            None
        },
        None => None,
    }
}

/// Digits have a value of at least zero.
pub proof fn lemma_digits_nonneg(s: Seq<u8>, j: int)
    requires
        0 <= j <= s.len(),
        all_digits(s),
    ensures
        0 <= digits_value(s.take(j)),
    decreases j,
{
    if j > 0 {
        lemma_digits_nonneg(s, j - 1);
        assert(s.take(j).drop_last() == s.take(j - 1));
        assert(is_digit(s[j - 1]));
    }
}

/// Whether three bytes encode one of the three-byte Unicode white-space
/// characters: U+1680, U+2000 to U+200A, U+2028, U+2029, U+202F, U+205F and
/// U+3000.
pub open spec fn is_white3(a: u8, b: u8, c: u8) -> bool {
    ||| a == 0xE1 && b == 0x9A && c == 0x80
    ||| a == 0xE2 && b == 0x80 && (0x80 <= c <= 0x8A || c == 0xA8 || c == 0xA9 || c == 0xAF)
    ||| a == 0xE2 && b == 0x81 && c == 0x9F
    ||| a == 0xE3 && b == 0x80 && c == 0x80
}

/// The length of the UTF-8 encoding of a white-space character (Unicode's
/// White_Space property) that ends `s`, or 0 if `s` does not end with one.
pub open spec fn white_suffix(s: Seq<u8>) -> int {
    let n = s.len();
    if n >= 1 && (s[n - 1] == 32 || 9 <= s[n - 1] <= 13) {
        1
    } else if n >= 2 && s[n - 2] == 0xC2 && (s[n - 1] == 0x85 || s[n - 1] == 0xA0) {
        2
    } else if n >= 3 && is_white3(s[n - 3], s[n - 2], s[n - 1]) {
        3
    } else {
        0
    }
}

/// The length of `s` without its trailing white space (line terminators
/// included).
pub open spec fn trim_end_len(s: Seq<u8>) -> int
    decreases s.len(),
{
    let k = white_suffix(s);
    if k == 0 {
        s.len() as int
    } else {
        trim_end_len(s.take(s.len() - k))
    }
}

/// `s` without its trailing white space.
pub open spec fn trim_end(s: Seq<u8>) -> Seq<u8> {
    s.take(trim_end_len(s))
}

/// Computes `white_suffix` of the first `end` bytes.
fn white_suffix_at(bytes: &[u8], end: usize) -> (r: usize)
    requires
        end <= bytes@.len(),
    ensures
        r == white_suffix(bytes@.take(end as int)),
{
    let ghost s = bytes@.take(end as int);
    if end >= 1 && (bytes[end - 1] == 32 || (9 <= bytes[end - 1] && bytes[end - 1] <= 13)) {
        1
    } else if end >= 2 && bytes[end - 2] == 0xC2 && (bytes[end - 1] == 0x85 || bytes[end - 1] == 0xA0) {
        2
    } else if end >= 3 {
        let (a, b, c) = (bytes[end - 3], bytes[end - 2], bytes[end - 1]);
        if (a == 0xE1 && b == 0x9A && c == 0x80) || (a == 0xE2 && b == 0x80 && ((0x80 <= c && c
            <= 0x8A) || c == 0xA8 || c == 0xA9 || c == 0xAF)) || (a == 0xE2 && b == 0x81 && c
            == 0x9F) || (a == 0xE3 && b == 0x80 && c == 0x80) {
            3
        } else {
            0
        }
    } else {
        0
    }
}

/// The length of `text` without its trailing white space, as `str::trim_end`
/// removes it.
pub fn trimmed_len(text: &str) -> (r: usize)
    ensures
        r == trim_end_len(text.spec_bytes()),
        r <= text.spec_bytes().len(),
{
    let bytes = text.as_bytes();
    let mut end = bytes.len();
    proof {
        assert(bytes@.take(end as int) == bytes@);
    }
    loop
        invariant
            end <= bytes@.len(),
            bytes@ == text.spec_bytes(),
            trim_end_len(bytes@.take(end as int)) == trim_end_len(bytes@),
        decreases end,
    {
        let k = white_suffix_at(bytes, end);
        if k == 0 {
            return end;
        }
        proof {
            assert(bytes@.take(end as int).take(end - k) == bytes@.take(end - k));
        }
        end = end - k;
    }
}

/// More digits never make a smaller value.
pub proof fn lemma_digits_grow(s: Seq<u8>, i: int, j: int)
    requires
        0 <= i <= j <= s.len(),
        all_digits(s),
    ensures
        0 <= digits_value(s.take(i)) <= digits_value(s.take(j)),
    decreases j - i,
{
    lemma_digits_nonneg(s, i);
    if i < j {
        lemma_digits_grow(s, i, j - 1);
        lemma_digits_nonneg(s, j - 1);
        assert(s.take(j).drop_last() == s.take(j - 1));
        assert(is_digit(s[j - 1]));
    }
}

/// Parses `text` as a decimal `i64`, as `str::parse::<i64>` does.
pub fn parse_decimal(text: &str) -> (r: Option<i64>)
    ensures
        r == decimal_i64(text.spec_bytes()),
{
    let bytes = text.as_bytes();
    proof {
        assert(bytes@.take(bytes@.len() as int) == bytes@);
    }
    parse_decimal_prefix(bytes, bytes.len())
}

/// Parses the first `n` bytes of `bytes` as a decimal `i64`.
pub fn parse_decimal_prefix(bytes: &[u8], n: usize) -> (r: Option<i64>)
    requires
        n <= bytes@.len(),
    ensures
        r == decimal_i64(bytes@.take(n as int)),
{
    let ghost s = bytes@.take(n as int);
    let negative = n > 0 && bytes[0] == 45;
    let start: usize = if n > 0 && (bytes[0] == 45 || bytes[0] == 43) {
        1
    } else {
        0
    };
    let ghost body = s.skip(start as int);
    proof {
        if start == 0 {
            assert(s.skip(0) =~= s);
        }
    }
    if start >= n {
        return None;
    }
    let mut acc: i64 = 0;
    let mut i: usize = start;
    while i < n
        invariant
            start <= i <= n,
            n == s.len(),
            s == bytes@.take(n as int),
            n <= bytes@.len(),
            negative == (s.len() > 0 && s[0] == 45),
            start == (if s.len() > 0 && (s[0] == 45 || s[0] == 43) {
                1usize
            } else {
                0usize
            }),
            start < n,
            body == s.skip(start as int),
            body == (if start == 1 {
                s.skip(1)
            } else {
                s
            }),
            all_digits(body.take(i - start)),
            acc == if negative {
                -digits_value(body.take(i - start))
            } else {
                digits_value(body.take(i - start))
            },
        decreases n - i,
    {
        let b = bytes[i];
        let ghost k = i - start;
        proof {
            assert(body.take(k + 1).drop_last() == body.take(k));
            assert(body[k] == b);
        }
        if b < 48 || b > 57 {
            proof {
                assert(!is_digit(body[k]));
            }
            return None;
        }
        let d = (b - 48) as i64;
        let next = match acc.checked_mul(10) {
            Some(m) => if negative {
                m.checked_sub(d)
            } else {
                m.checked_add(d)
            },
            None => None,
        };
        match next {
            Some(v) => acc = v,
            None => {
                proof {
                    if all_digits(body) {
                        lemma_digits_grow(body, k + 1, body.len() as int);
                        assert(body.take(body.len() as int) == body);
                    }
                }
                return None;
            },
        }
        i = i + 1;
        proof {
            assert forall|j: int| 0 <= j < body.take(i - start).len() implies is_digit(
                #[trigger] body.take(i - start)[j],
            ) by {
                if j < k {
                    assert(body.take(i - start)[j] == body.take(k)[j]);
                }
            }
        }
    }
    proof {
        assert(body.take(n - start) == body);
    }
    Some(acc)
}

} // verus!
