//! Decimal integers as `str::parse` reads them for the signed types.

use vstd::prelude::*;

verus! {

/// An ASCII decimal digit.
pub open spec fn is_digit(c: char) -> bool {
    '0' <= c && c <= '9'
}

pub open spec fn digit_val(c: char) -> int {
    c as int - '0' as int
}

pub open spec fn all_digits(s: Seq<char>) -> bool {
    forall|k: int| 0 <= k < s.len() ==> is_digit(#[trigger] s[k])
}

/// The number that the decimal digits `s` denote.
pub open spec fn digits_value(s: Seq<char>) -> int
    decreases s.len(),
{
    if s.len() == 0 {
        0
    } else {
        digits_value(s.drop_last()) * 10 + digit_val(s.last())
    }
}

/// The value of an optional sign (`+` or `-`) followed by at least one
/// decimal digit, and nothing else; `None` for any other text.
pub open spec fn parse_signed(s: Seq<char>) -> Option<int> {
    let neg = s.len() > 0 && s[0] == '-';
    let signed = s.len() > 0 && (s[0] == '-' || s[0] == '+');
    let d = if signed {
        s.drop_first()
    } else {
        s
    };
    if d.len() == 0 || !all_digits(d) {
        None
    } else if neg {
        Some(-digits_value(d))
    } else {
        Some(digits_value(d))
    }
}

/// `str::parse::<i32>`: the value when the text is a signed decimal in range.
pub open spec fn parse_i32(s: Seq<char>) -> Option<i32> {
    match parse_signed(s) {
        Some(v) => if i32::MIN <= v <= i32::MAX {
            Some(v as i32)
        } else {
            None
        },
        None => None,
    }
}

/// `str::parse::<i64>`: the value when the text is a signed decimal in range.
pub open spec fn parse_i64(s: Seq<char>) -> Option<i64> {
    match parse_signed(s) {
        Some(v) => if i64::MIN <= v <= i64::MAX {
            Some(v as i64)
        } else {
            None
        },
        None => None,
    }
}

pub proof fn lemma_digits_value_nonneg(s: Seq<char>)
    requires
        all_digits(s),
    ensures
        digits_value(s) >= 0,
    decreases s.len(),
{
    if s.len() > 0 {
        lemma_digits_value_nonneg(s.drop_last());
    }
}

pub proof fn lemma_digits_value_mono(s: Seq<char>, j: int, k: int)
    requires
        all_digits(s),
        0 <= j <= k <= s.len(),
    ensures
        digits_value(s.subrange(0, j)) <= digits_value(s.subrange(0, k)),
    decreases k - j,
{
    if j < k {
        lemma_digits_value_mono(s, j, k - 1);
        let t = s.subrange(0, k);
        assert(t.drop_last() =~= s.subrange(0, k - 1));
        lemma_digits_value_nonneg(s.subrange(0, k - 1));
        assert(is_digit(s[k - 1]));
    }
}

/// The value of the decimal text `s` when it lies in `[lo, hi]`.
fn parse_in_range(s: &[char], lo: i128, hi: i128) -> (r: Option<i128>)
    requires
        -0x8000_0000_0000_0000 <= lo <= hi <= 0x7fff_ffff_ffff_ffff,
    ensures
        r == (match parse_signed(s@) {
            Some(v) => if lo <= v <= hi {
                Some(v as i128)
            } else {
                None
            },
            None => None,
        }),
{
    let n = s.len();
    let neg = n > 0 && s[0] == '-';
    let signed = n > 0 && (s[0] == '-' || s[0] == '+');
    let start: usize = if signed {
        1
    } else {
        0
    };
    let ghost d = if signed {
        s@.drop_first()
    } else {
        s@
    };
    assert(d =~= s@.subrange(start as int, n as int));
    if start == n {
        return None;
    }
    let cap: i128 = 0x8000_0000_0000_0000;
    let mut acc: i128 = 0;
    let mut k = start;
    while k < n
        invariant
            n == s@.len(),
            start <= k <= n,
            d =~= s@.subrange(start as int, n as int),
            d == (if signed {
                s@.drop_first()
            } else {
                s@
            }),
            signed == (n > 0 && (s@[0] == '-' || s@[0] == '+')),
            -0x8000_0000_0000_0000 <= lo <= hi <= 0x7fff_ffff_ffff_ffff,
            0 <= acc <= cap,
            cap == 0x8000_0000_0000_0000,
            acc == digits_value(d.subrange(0, k - start)),
            forall|m: int| 0 <= m < k - start ==> is_digit(#[trigger] d[m]),
        decreases n - k,
    {
        let c = s[k];
        if !('0' <= c && c <= '9') {
            assert(d[k - start] == c);
            assert(!is_digit(d[k - start]));
            assert(!all_digits(d));
            return None;
        }
        let dig = (c as u32 - '0' as u32) as i128;
        proof {
            let t = d.subrange(0, k - start + 1);
            assert(t.drop_last() =~= d.subrange(0, k - start));
            assert(t.last() == c);
            assert(dig == digit_val(c));
            assert(digits_value(t) == acc * 10 + dig);
        }
        let next = acc * 10 + dig;
        if next > cap {
            proof {
                if all_digits(d) {
                    assert(digits_value(d.subrange(0, k - start + 1)) == next);
                    lemma_digits_value_mono(d, k - start + 1, d.len() as int);
                    assert(d.subrange(0, d.len() as int) =~= d);
                }
            }
            return None;
        }
        acc = next;
        k = k + 1;
    }
    assert(d.subrange(0, n - start) =~= d);
    assert(all_digits(d));
    if neg {
        if -acc >= lo && -acc <= hi {
            Some(-acc)
        } else {
            None
        }
    } else {
        if acc >= lo && acc <= hi {
            Some(acc)
        } else {
            None
        }
    }
}


/// `str::parse::<i32>` on the characters `s`.
pub fn parse_i32_chars(s: &[char]) -> (r: Option<i32>)
    ensures
        r == parse_i32(s@),
{
    match parse_in_range(s, i32::MIN as i128, i32::MAX as i128) {
        Some(v) => Some(v as i32),
        None => None,
    }
}

/// `str::parse::<i64>` on the characters `s`.
pub fn parse_i64_chars(s: &[char]) -> (r: Option<i64>)
    ensures
        r == parse_i64(s@),
{
    match parse_in_range(s, i64::MIN as i128, i64::MAX as i128) {
        Some(v) => Some(v as i64),
        None => None,
    }
}

} // verus!
