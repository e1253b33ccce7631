//! Decimal text: parsing a signed integer from a line of bytes, and
//! rendering a signed integer as decimal digits.

use vstd::prelude::*;

verus! {

/// The plus sign.
pub const PLUS: u8 = 0x2b;

/// The minus sign.
pub const MINUS: u8 = 0x2d;

/// The digit `0`.
pub const DIGIT_ZERO: u8 = 0x30;

/// The digit `9`.
pub const DIGIT_NINE: u8 = 0x39;

/// A decimal digit byte.
pub open spec fn is_digit(b: u8) -> bool {
    0x30 <= b <= 0x39
}

/// An ASCII whitespace byte, as trimming removes it: space, horizontal tab,
/// line feed, vertical tab, form feed or carriage return.
pub open spec fn is_space_byte(b: u8) -> bool {
    b == 0x20 || 0x09 <= b <= 0x0d
}

/// `s` without its leading whitespace bytes.
pub open spec fn trim_start(s: Seq<u8>) -> Seq<u8>
    decreases s.len(),
{
    if s.len() > 0 && is_space_byte(s.first()) {
        trim_start(s.drop_first())
    } else {
        s
    }
}

/// `s` without its trailing whitespace bytes.
pub open spec fn trim_end(s: Seq<u8>) -> Seq<u8>
    decreases s.len(),
{
    if s.len() > 0 && is_space_byte(s.last()) {
        trim_end(s.drop_last())
    } else {
        s
    }
}

/// `s` without leading and trailing whitespace bytes.
pub open spec fn trim_ws(s: Seq<u8>) -> Seq<u8> {
    trim_end(trim_start(s))
}

/// All bytes of `s` are decimal digits.
pub open spec fn all_digits(s: Seq<u8>) -> bool {
    forall|i: int| 0 <= i < s.len() ==> is_digit(s[i])
}

/// The value of a sequence of decimal digits, most significant first.
pub open spec fn digits_value(s: Seq<u8>) -> int
    decreases s.len(),
{
    if s.len() == 0 {
        0
    } else {
        digits_value(s.drop_last()) * 10 + (s.last() - DIGIT_ZERO)
    }
}

/// A signed decimal integer literal: an optional sign followed by at least
/// one digit, and nothing else.
pub open spec fn is_int_literal(s: Seq<u8>) -> bool {
    if s.len() == 0 {
        false
    } else if s[0] == PLUS || s[0] == MINUS {
        s.len() >= 2 && all_digits(s.drop_first())
    } else {
        all_digits(s)
    }
}

/// The mathematical value of an integer literal.
pub open spec fn int_literal_value(s: Seq<u8>) -> int {
    if s.len() > 0 && s[0] == MINUS {
        -digits_value(s.drop_first())
    } else if s.len() > 0 && s[0] == PLUS {
        digits_value(s.drop_first())
    } else {
        digits_value(s)
    }
}

/// What parsing a trimmed line yields: the literal's value where the line is
/// an integer literal whose value fits a 64-bit signed integer, and `0` on
/// any failure.
pub open spec fn parsed_int(s: Seq<u8>) -> i64 {
    if is_int_literal(s) && i64::MIN <= int_literal_value(s) <= i64::MAX {
        int_literal_value(s) as i64
    } else {
        0
    }
}

/// The decimal digit bytes of `n`, most significant first.
pub open spec fn dec_digits(n: nat) -> Seq<u8>
    decreases n,
{
    if n < 10 {
        seq![(DIGIT_ZERO + n) as u8]
    } else {
        dec_digits(n / 10) + seq![(DIGIT_ZERO + n % 10) as u8]
    }
}

/// The decimal text of `v`: a minus sign for negative values, then the
/// digits of the magnitude.
pub open spec fn int_text(v: int) -> Seq<u8> {
    if v < 0 {
        seq![MINUS] + dec_digits((-v) as nat)
    } else {
        dec_digits(v as nat)
    }
}

/// The value of a digit sequence is never negative.
proof fn lemma_digits_value_nonneg(s: Seq<u8>)
    requires
        all_digits(s),
    ensures
        digits_value(s) >= 0,
    decreases s.len(),
{
    if s.len() > 0 {
        assert(all_digits(s.drop_last()));
        lemma_digits_value_nonneg(s.drop_last());
    }
}

/// Extending a digit sequence by one digit multiplies its value by ten and
/// adds the digit.
proof fn lemma_digits_value_take_step(s: Seq<u8>, i: int)
    requires
        0 <= i < s.len(),
    ensures
        digits_value(s.take(i + 1)) == digits_value(s.take(i)) * 10 + (s[i] - DIGIT_ZERO),
{
    assert(s.take(i + 1).drop_last() =~= s.take(i));
    assert(s.take(i + 1).last() == s[i]);
}

/// A digit sequence is worth at least any of its prefixes.
proof fn lemma_digits_value_prefix_le(s: Seq<u8>, i: int)
    requires
        all_digits(s),
        0 <= i <= s.len(),
    ensures
        digits_value(s.take(i)) <= digits_value(s),
    decreases s.len() - i,
{
    if i < s.len() {
        lemma_digits_value_take_step(s, i);
        assert(all_digits(s.take(i)));
        lemma_digits_value_nonneg(s.take(i));
        assert(digits_value(s.take(i)) * 10 >= digits_value(s.take(i))) by (nonlinear_arith)
            requires digits_value(s.take(i)) >= 0;
        lemma_digits_value_prefix_le(s, i + 1);
        assert(s.take(s.len() as int) =~= s);
    } else {
        assert(s.take(s.len() as int) =~= s);
    }
}

/// Whitespace removed from the front is exactly the suffix that starts at
/// the first non-whitespace byte.
proof fn lemma_trim_start_skip(s: Seq<u8>, m: int)
    requires
        0 <= m <= s.len(),
        forall|k: int| 0 <= k < m ==> is_space_byte(s[k]),
        m == s.len() || !is_space_byte(s[m]),
    ensures
        trim_start(s) == s.skip(m),
    decreases m,
{
    if m == 0 {
        assert(s.skip(0) =~= s);
    } else {
        assert(is_space_byte(s.first()));
        lemma_trim_start_skip(s.drop_first(), m - 1);
        assert(s.drop_first().skip(m - 1) =~= s.skip(m));
    }
}

/// Whitespace removed from the back is exactly the prefix that ends after
/// the last non-whitespace byte.
proof fn lemma_trim_end_take(s: Seq<u8>, m: int)
    requires
        0 <= m <= s.len(),
        forall|k: int| m <= k < s.len() ==> is_space_byte(s[k]),
        m == 0 || !is_space_byte(s[m - 1]),
    ensures
        trim_end(s) == s.take(m),
    decreases s.len() - m,
{
    if m == s.len() {
        assert(s.take(m) =~= s);
    } else {
        assert(is_space_byte(s.last()));
        lemma_trim_end_take(s.drop_last(), m);
        assert(s.drop_last().take(m) =~= s.take(m));
    }
}

/// Parse a line of bytes as a signed decimal integer.
///
/// The line is trimmed of whitespace on both ends and then read as an
/// optional sign followed by digits. Any failure — an empty line, a stray
/// byte, a value that does not fit a 64-bit signed integer — yields `0`.
#[verifier::loop_isolation(false)]
#[verifier::rlimit(50)]
pub fn parse_int(line: &[u8]) -> (r: i64)
    ensures
        r == parsed_int(trim_ws(line@)),
{
    let n = line.len();
    let mut lo: usize = 0;
    while lo < n && is_space(line[lo])
        invariant
            lo <= n == line@.len(),
            forall|k: int| 0 <= k < lo ==> is_space_byte(line@[k]),
        decreases n - lo,
    {
        lo += 1;
    }
    let mut hi: usize = n;
    while hi > lo && is_space(line[hi - 1])
        invariant
            lo <= hi <= n == line@.len(),
            forall|k: int| hi <= k < n ==> is_space_byte(line@[k]),
        decreases hi,
    {
        hi -= 1;
    }
    proof {
        lemma_trim_start_skip(line@, lo as int);
        if hi == lo {
            lemma_trim_end_take(line@.skip(lo as int), 0);
        } else {
            lemma_trim_end_take(line@.skip(lo as int), hi - lo);
        }
        assert(line@.skip(lo as int).take(hi - lo) =~= line@.subrange(lo as int, hi as int));
    }
    let ghost trimmed = trim_ws(line@);
    assert(trimmed == line@.subrange(lo as int, hi as int));

    if hi == lo {
        return 0;
    }
    let first = line[lo];
    let negative = first == MINUS;
    let start: usize = if first == MINUS || first == PLUS {
        lo + 1
    } else {
        lo
    };
    if start == hi {
        // a bare sign has no digits
        return 0;
    }
    let ghost digits = if negative || first == PLUS {
        trimmed.drop_first()
    } else {
        trimmed
    };
    proof {
        assert(digits =~= line@.subrange(start as int, hi as int));
    }

    // The magnitude is accumulated as a negative number, so that the most
    // negative value can be parsed without overflow.
    let mut acc: i64 = 0;
    let mut i: usize = start;
    while i < hi
        invariant
            start <= i <= hi <= line@.len(),
            digits == line@.subrange(start as int, hi as int),
            all_digits(digits.take(i - start)),
            acc == -digits_value(digits.take(i - start)),
            acc <= 0,
        decreases hi - i,
    {
        let c = line[i];
        if c < DIGIT_ZERO || c > DIGIT_NINE {
            proof {
                assert(0 <= i - start < digits.len());
                assert(digits[i - start] == c);
                assert(!is_digit(digits[i - start]));
                assert(!all_digits(digits));
                assert(trimmed[0] == first);
                assert(!is_int_literal(trimmed));
            }
            return 0;
        }
        let d = c - DIGIT_ZERO;
        proof {
            lemma_digits_value_take_step(digits, i - start);
            assert(digits[i - start] == c);
            assert forall|k: int| 0 <= k < i - start + 1 implies is_digit(
                #[trigger] digits.take(i - start + 1)[k],
            ) by {
                if k < i - start {
                    assert(is_digit(digits.take(i - start)[k]));
                }
            }
            assert(all_digits(digits.take(i - start + 1)));
        }
        let scaled = match acc.checked_mul(10) {
            Some(s) => s,
            None => {
                proof {
                    lemma_out_of_range(trimmed, digits, i - start + 1, negative);
                }
                return 0;
            },
        };
        acc = match scaled.checked_sub(d as i64) {
            Some(s) => s,
            None => {
                proof {
                    lemma_out_of_range(trimmed, digits, i - start + 1, negative);
                }
                return 0;
            },
        };
        i += 1;
    }
    proof {
        assert(digits.take(hi - start) =~= digits);
        assert(is_int_literal(trimmed));
        lemma_digits_value_nonneg(digits);
    }
    if negative {
        acc
    } else {
        if acc == i64::MIN {
            // the magnitude exceeds the largest positive value
            0
        } else {
            -acc
        }
    }
}

/// A prefix of the digits already exceeds the representable range, so the
/// whole literal does.
proof fn lemma_out_of_range(trimmed: Seq<u8>, digits: Seq<u8>, j: int, negative: bool)
    requires
        0 <= j <= digits.len(),
        all_digits(digits.take(j)),
        digits_value(digits.take(j)) > -(i64::MIN as int),
        trimmed.len() > 0,
        digits == (if trimmed[0] == MINUS || trimmed[0] == PLUS {
            trimmed.drop_first()
        } else {
            trimmed
        }),
        negative == (trimmed[0] == MINUS),
    ensures
        parsed_int(trimmed) == 0,
{
    if is_int_literal(trimmed) {
        assert(all_digits(digits));
        lemma_digits_value_prefix_le(digits, j);
        assert(digits_value(digits) > -(i64::MIN as int));
        if negative {
            assert(int_literal_value(trimmed) == -digits_value(digits));
            assert(int_literal_value(trimmed) < i64::MIN);
        } else {
            assert(int_literal_value(trimmed) == digits_value(digits));
            assert(int_literal_value(trimmed) > i64::MAX);
        }
    }
}

/// Whether a byte is ASCII whitespace; mirrors [`is_space_byte`].
fn is_space(b: u8) -> (r: bool)
    ensures
        r == is_space_byte(b),
{
    b == 0x20 || (0x09 <= b && b <= 0x0d)
}

/// Render `v` as decimal text: a minus sign for negative values, then the
/// digits of the magnitude.
#[verifier::loop_isolation(false)]
pub fn format_int(v: i64) -> (r: Vec<u8>)
    ensures
        r@ == int_text(v as int),
{
    let mut out: Vec<u8> = Vec::new();
    let magnitude: u64 = if v >= 0 {
        v as u64
    } else {
        out.push(MINUS);
        if v == i64::MIN {
            0x8000000000000000u64
        } else {
            (-v) as u64
        }
    };
    let ghost sign = out@;

    let mut rev: Vec<u8> = Vec::new();
    let mut m: u64 = magnitude;
    if m == 0 {
        rev.push(DIGIT_ZERO);
        proof {
            assert(rev@.reverse() =~= dec_digits(0));
        }
    } else {
        proof {
            assert(dec_digits(m as nat) + rev@.reverse() =~= dec_digits(magnitude as nat));
        }
    }
    while m > 0
        invariant
            m >= 0,
            m > 0 ==> dec_digits(magnitude as nat) == dec_digits(m as nat) + rev@.reverse(),
            m == 0 ==> dec_digits(magnitude as nat) == rev@.reverse(),
        decreases m,
    {
        let ghost m0 = m as nat;
        let d = (m % 10) as u8 + DIGIT_ZERO;
        let ghost old_rev = rev@;
        rev.push(d);
        m = m / 10;
        proof {
            assert(rev@.reverse() =~= seq![d] + old_rev.reverse());
            if m > 0 {
                assert(dec_digits(m0) == dec_digits(m as nat) + seq![d]);
                assert(dec_digits(m as nat) + rev@.reverse() =~= dec_digits(m as nat) + seq![d]
                    + old_rev.reverse());
                assert(dec_digits(magnitude as nat) =~= dec_digits(m as nat) + rev@.reverse());
            } else {
                assert(dec_digits(m0) == seq![d]);
                assert(dec_digits(magnitude as nat) =~= rev@.reverse());
            }
        }
    }

    let mut k: usize = rev.len();
    proof {
        assert(out@ =~= sign + rev@.reverse().take(0));
    }
    while k > 0
        invariant
            k <= rev@.len(),
            out@ == sign + rev@.reverse().take(rev@.len() - k),
        decreases k,
    {
        k -= 1;
        let c = rev[k];
        out.push(c);
        proof {
            assert(rev@.reverse()[rev@.len() - k - 1] == rev@[k as int]);
            assert(out@ =~= sign + rev@.reverse().take(rev@.len() - k));
        }
    }
    proof {
        assert(rev@.reverse().take(rev@.len() as int) =~= rev@.reverse());
        assert(out@ =~= int_text(v as int));
    }
    out
}

} // verus!
