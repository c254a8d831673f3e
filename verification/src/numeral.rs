//! Decimal integer literals: what they denote, how they are parsed from a
//! cell, and how a cell is rendered from a value.

use vstd::prelude::*;

verus! {

/// Whether `c` is a decimal digit.
pub open spec fn is_digit(c: char) -> bool {
    48 <= c as int <= 57
}

/// The value of a digit character.
pub open spec fn digit_val(c: char) -> int {
    c as int - 48
}

/// Whether every character of `s` is a decimal digit.
pub open spec fn all_digits(s: Seq<char>) -> bool {
    forall|k: int| 0 <= k < s.len() ==> is_digit(#[trigger] s[k])
}

/// The number denoted by a digit string (most significant digit first).
pub open spec fn digits_val(s: Seq<char>) -> int
    decreases s.len(),
{
    if s.len() == 0 {
        0
    } else {
        digits_val(s.drop_last()) * 10 + digit_val(s.last())
    }
}

/// Whether `s` is a decimal literal denoting a value that fits in an `i64`:
/// an optional leading minus sign, then at least one digit.
pub open spec fn is_int_literal(s: Seq<char>) -> bool {
    if s.len() >= 1 && s[0] == '-' {
        let m = s.skip(1);
        m.len() >= 1 && all_digits(m) && -digits_val(m) >= i64::MIN as int
    } else {
        s.len() >= 1 && all_digits(s) && digits_val(s) <= i64::MAX as int
    }
}

/// The value denoted by an integer literal.
pub open spec fn int_literal_val(s: Seq<char>) -> int {
    if s.len() >= 1 && s[0] == '-' {
        -digits_val(s.skip(1))
    } else {
        digits_val(s)
    }
}

/// A digit string denotes a nonnegative number.
pub proof fn lemma_digits_val_nonneg(s: Seq<char>)
    requires
        all_digits(s),
    ensures
        digits_val(s) >= 0,
    decreases s.len(),
{
    if s.len() > 0 {
        assert(all_digits(s.drop_last()));
        lemma_digits_val_nonneg(s.drop_last());
    }
}

/// A digit string denotes at least what any of its prefixes denotes.
pub proof fn lemma_digits_val_prefix(s: Seq<char>, i: int)
    requires
        all_digits(s),
        0 <= i <= s.len(),
    ensures
        digits_val(s) >= digits_val(s.take(i)),
    decreases s.len() - i,
{
    if i == s.len() {
        assert(s.take(i) =~= s);
    } else {
        assert(s.take(i + 1).drop_last() =~= s.take(i));
        assert(all_digits(s.take(i + 1)));
        lemma_digits_val_nonneg(s.take(i));
        lemma_digits_val_prefix(s, i + 1);
    }
}

/// Parse a decimal integer cell. Returns the denoted value exactly when the
/// cell is a decimal literal whose value fits in an `i64`, and nothing
/// otherwise.
pub fn parse_int(s: &str) -> (r: Option<i64>)
    ensures
        r matches Some(v) ==> is_int_literal(s@) && v as int == int_literal_val(s@),
        r is None ==> !is_int_literal(s@),
{
    let n = s.unicode_len();
    if n == 0 {
        return None;
    }
    let neg = s.get_char(0) == '-';
    let start: usize = if neg { 1 } else { 0 };
    if n == start {
        return None;
    }
    let limit: u64 = if neg {
        9223372036854775808u64
    } else {
        9223372036854775807u64
    };
    let ghost mag: Seq<char> = if neg {
        s@.skip(1)
    } else {
        s@
    };
    proof {
        if neg {
            assert(s@.subrange(1, n as int) =~= mag);
        } else {
            assert(s@.subrange(0, n as int) =~= mag);
        }
    }
    let mut acc: u64 = 0;
    let mut i: usize = start;
    proof {
        assert(mag.take(0) =~= Seq::<char>::empty());
    }
    while i < n
        invariant
            n == s@.len(),
            start <= i <= n,
            start <= 1,
            n > start,
            neg == (s@[0] == '-'),
            neg ==> start == 1 && mag == s@.skip(1),
            !neg ==> start == 0 && mag == s@,
            mag.len() == n - start,
            forall|k: int| 0 <= k < i - start ==> is_digit(#[trigger] mag[k]),
            acc == digits_val(mag.take(i - start)),
            acc <= limit,
            limit == (if neg {
                9223372036854775808u64
            } else {
                9223372036854775807u64
            }),
        decreases n - i,
    {
        let c = s.get_char(i);
        let u = c as u32;
        if u < 48 || u > 57 {
            proof {
                assert(mag[i - start] == s@[i as int]);
                assert(!is_digit(mag[i - start]));
            }
            return None;
        }
        let d = (u - 48) as u64;
        proof {
            assert(mag[i - start] == s@[i as int]);
            assert(is_digit(mag[i - start]));
            assert(mag.take(i - start + 1).drop_last() =~= mag.take(i - start));
            assert(mag.take(i - start + 1).last() == mag[i - start]);
            assert(d == digit_val(mag[i - start]));
        }
        if acc > (limit - d) / 10 {
            proof {
                assert(acc * 10 + d > limit) by {
                    assert(acc >= (limit - d) / 10 + 1);
                    assert(((limit - d) / 10 + 1) * 10 == ((limit - d) / 10) * 10 + 10) by (nonlinear_arith);
                    assert(acc * 10 >= ((limit - d) / 10 + 1) * 10) by (nonlinear_arith)
                        requires acc >= (limit - d) / 10 + 1;
                    vstd::arithmetic::div_mod::lemma_fundamental_div_mod((limit - d) as int, 10);
                    assert(((limit - d) / 10) * 10 + 10 > limit - d);
                }
                assert(digits_val(mag.take(i - start + 1)) > limit);
                if is_int_literal(s@) {
                    assert(all_digits(mag));
                    lemma_digits_val_prefix(mag, i - start + 1);
                    assert(digits_val(mag) > limit);
                    assert(false);
                }
            }
            return None;
        }
        proof {
            assert(acc <= (limit - d) / 10);
            assert(acc * 10 <= ((limit - d) / 10) * 10) by (nonlinear_arith)
                requires acc <= (limit - d) / 10;
            vstd::arithmetic::div_mod::lemma_fundamental_div_mod((limit - d) as int, 10);
            assert(((limit - d) / 10) * 10 <= limit - d);
        }
        acc = acc * 10 + d;
        i += 1;
    }
    proof {
        assert(mag.take(n - start) =~= mag);
        assert(all_digits(mag));
        lemma_digits_val_nonneg(mag);
    }
    if neg {
        if acc == 9223372036854775808u64 {
            Some(i64::MIN)
        } else {
            Some(-(acc as i64))
        }
    } else {
        Some(acc as i64)
    }
}

/// The character for one digit.
pub open spec fn dec_digit(d: int) -> char {
    if d == 0 {
        '0'
    } else if d == 1 {
        '1'
    } else if d == 2 {
        '2'
    } else if d == 3 {
        '3'
    } else if d == 4 {
        '4'
    } else if d == 5 {
        '5'
    } else if d == 6 {
        '6'
    } else if d == 7 {
        '7'
    } else if d == 8 {
        '8'
    } else {
        '9'
    }
}

/// The decimal rendering of a nonnegative number.
pub open spec fn dec_nat(n: int) -> Seq<char>
    recommends
        n >= 0,
    decreases n,
{
    if n <= 9 {
        seq![dec_digit(n)]
    } else {
        dec_nat(n / 10).push(dec_digit(n % 10))
    }
}

/// The decimal rendering of an `i64` value: a minus sign for negatives, no
/// leading zeros.
pub open spec fn dec_i64(v: i64) -> Seq<char> {
    if v < 0 {
        seq!['-'] + dec_nat(-(v as int))
    } else {
        dec_nat(v as int)
    }
}

/// Append the character of one digit.
fn push_digit(out: &mut String, d: u64)
    requires
        d < 10,
    ensures
        final(out)@ == old(out)@ + seq![dec_digit(d as int)],
{
    let lit: &str = if d == 0 {
        "0"
    } else if d == 1 {
        "1"
    } else if d == 2 {
        "2"
    } else if d == 3 {
        "3"
    } else if d == 4 {
        "4"
    } else if d == 5 {
        "5"
    } else if d == 6 {
        "6"
    } else if d == 7 {
        "7"
    } else if d == 8 {
        "8"
    } else {
        "9"
    };
    proof {
        reveal_strlit("0");
        reveal_strlit("1");
        reveal_strlit("2");
        reveal_strlit("3");
        reveal_strlit("4");
        reveal_strlit("5");
        reveal_strlit("6");
        reveal_strlit("7");
        reveal_strlit("8");
        reveal_strlit("9");
        assert(lit@ =~= seq![dec_digit(d as int)]);
    }
    out.append(lit);
}

/// Append the decimal rendering of a nonnegative number.
fn push_dec_u64(out: &mut String, n: u64)
    ensures
        final(out)@ == old(out)@ + dec_nat(n as int),
    decreases n,
{
    if n >= 10 {
        push_dec_u64(out, n / 10);
        push_digit(out, n % 10);
        proof {
            assert(final(out)@ =~= old(out)@ + dec_nat(n as int));
        }
    } else {
        push_digit(out, n);
    }
}

/// Append the decimal rendering of an `i64` value.
pub fn push_dec_i64(out: &mut String, v: i64)
    ensures
        final(out)@ == old(out)@ + dec_i64(v),
{
    if v < 0 {
        proof {
            reveal_strlit("-");
        }
        out.append("-");
        let mag: u64 = if v == i64::MIN {
            9223372036854775808u64
        } else {
            (-v) as u64
        };
        push_dec_u64(out, mag);
        proof {
            assert("-"@ =~= seq!['-']);
            assert(final(out)@ =~= old(out)@ + dec_i64(v));
        }
    } else {
        push_dec_u64(out, v as u64);
    }
}

} // verus!
