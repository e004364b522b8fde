//! Decimal parsing and rendering of integers.
use vstd::prelude::*;
use vstd::string::*;

verus! {

pub open spec fn spec_is_digit(c: char) -> bool {
    '0' as int <= c as int <= '9' as int
}

/// Numeric value of one decimal digit character.
pub open spec fn digit_val(c: char) -> int {
    c as int - '0' as int
}

pub open spec fn all_digits(s: Seq<char>) -> bool {
    forall|i: int| 0 <= i < s.len() ==> spec_is_digit(#[trigger] s[i])
}

/// The integer value of a sequence of decimal digits, most significant
/// digit first.
pub open spec fn digits_val(s: Seq<char>) -> int
    decreases s.len(),
{
    if s.len() == 0 {
        0
    } else {
        digits_val(s.drop_last()) * 10 + digit_val(s.last())
    }
}

proof fn lemma_digits_val_nonneg(s: Seq<char>)
    requires
        all_digits(s),
    ensures
        digits_val(s) >= 0,
    decreases s.len(),
{
    if s.len() > 0 {
        assert(all_digits(s.drop_last()));
        lemma_digits_val_nonneg(s.drop_last());
    }
}

/// Appending further digits never shrinks the value.
proof fn lemma_digits_val_prefix(s: Seq<char>, t: Seq<char>)
    requires
        all_digits(t),
        s.len() <= t.len(),
        s == t.take(s.len() as int),
    ensures
        digits_val(t) >= digits_val(s),
    decreases t.len(),
{
    if s.len() < t.len() {
        assert(all_digits(t.drop_last()));
        assert(s == t.drop_last().take(s.len() as int));
        lemma_digits_val_prefix(s, t.drop_last());
        lemma_digits_val_nonneg(t.drop_last());
    } else {
        assert(s =~= t);
    }
}

/// The digits of `s`, after an optional leading sign.
pub open spec fn spec_unsigned_part(s: Seq<char>) -> Seq<char> {
    if s.len() > 0 && (s[0] == '-' || s[0] == '+') {
        s.drop_first()
    } else {
        s
    }
}

pub open spec fn spec_is_negative(s: Seq<char>) -> bool {
    s.len() > 0 && s[0] == '-'
}

/// What `str::parse::<i32>` accepts: an optional `+` or `-` sign
/// followed by at least one decimal digit, the value within range.
pub open spec fn spec_parse_i32(s: Seq<char>) -> Option<i32> {
    let digits = spec_unsigned_part(s);
    if digits.len() > 0 && all_digits(digits) {
        let v = if spec_is_negative(s) {
            -digits_val(digits)
        } else {
            digits_val(digits)
        };
        if i32::MIN <= v <= i32::MAX {
            Some(v as i32)
        } else {
            None
        }
    } else {
        None
    }
}

/// Parses a decimal integer exactly as `str::parse::<i32>` does.
pub fn parse_i32(s: &str) -> (r: Option<i32>)
    ensures
        r == spec_parse_i32(s@),
{
    let n = s.unicode_len();
    let ghost digits = spec_unsigned_part(s@);
    let (neg, start): (bool, usize) = if n > 0 {
        let c0 = s.get_char(0);
        if c0 == '-' {
            (true, 1)
        } else if c0 == '+' {
            (false, 1)
        } else {
            (false, 0)
        }
    } else {
        (false, 0)
    };
    proof {
        assert(digits =~= s@.subrange(start as int, n as int));
    }
    if start == n {
        return None;
    }
    let mut i: usize = start;
    let mut mag: i64 = 0;
    while i < n
        invariant
            start <= i <= n,
            start < n,
            n == s@.len(),
            digits == spec_unsigned_part(s@),
            digits == s@.subrange(start as int, n as int),
            all_digits(s@.subrange(start as int, i as int)),
            mag == digits_val(s@.subrange(start as int, i as int)),
            0 <= mag <= 0x8000_0000,
        decreases n - i,
    {
        let c = s.get_char(i);
        let u = c as u32;
        let ghost prefix = s@.subrange(start as int, i as int);
        let ghost prefix2 = s@.subrange(start as int, i as int + 1);
        proof {
            assert(prefix2.drop_last() =~= prefix);
            assert(prefix2.last() == s@[i as int]);
        }
        if u < 48 || u > 57 {
            assert(!spec_is_digit(s@[i as int]));
            assert(!all_digits(digits)) by {
                assert(digits[i - start] == s@[i as int]);
            }
            return None;
        }
        let d = (u - 48) as i64;
        assert(spec_is_digit(s@[i as int]));
        let new_mag = mag * 10 + d;
        assert(new_mag == digits_val(prefix2));
        if new_mag > 0x8000_0000 {
            // every continuation of these digits is out of the i32 range
            proof {
                if all_digits(digits) {
                    assert(prefix2 == digits.take(prefix2.len() as int)) by {
                        assert(prefix2 =~= digits.take(prefix2.len() as int));
                    }
                    lemma_digits_val_prefix(prefix2, digits);
                }
            }
            return None;
        }
        mag = new_mag;
        i = i + 1;
    }
    proof {
        assert(s@.subrange(start as int, n as int) =~= digits);
        assert(all_digits(digits));
        assert(mag == digits_val(digits));
    }
    if neg {
        assert(spec_is_negative(s@));
        Some((-mag) as i32)
    } else {
        if mag > 0x7fff_ffff {
            None
        } else {
            Some(mag as i32)
        }
    }
}

/// One decimal digit as a character.
pub open spec fn char_of_digit(d: int) -> char {
    if d == 0 {
        '0'
    } else if d == 1 {
        '1'
    } else if d == 2 {
        '2'
    } else if d == 3 {
        '3'
    } else if d == 4 {
        '4'
    } else if d == 5 {
        '5'
    } else if d == 6 {
        '6'
    } else if d == 7 {
        '7'
    } else if d == 8 {
        '8'
    } else {
        '9'
    }
}

/// The decimal rendering of a nonnegative integer, no padding.
pub open spec fn spec_dec_nat(n: nat) -> Seq<char>
    decreases n,
{
    if n < 10 {
        seq![char_of_digit(n as int)]
    } else {
        spec_dec_nat(n / 10).push(char_of_digit((n % 10) as int))
    }
}

/// The decimal rendering of an integer, with a sign when negative.
pub open spec fn spec_dec_int(n: int) -> Seq<char> {
    if n < 0 {
        seq!['-'] + spec_dec_nat((-n) as nat)
    } else {
        spec_dec_nat(n as nat)
    }
}

/// One digit as a string slice.
fn digit_str(d: u128) -> (r: &'static str)
    requires
        d < 10,
    ensures
        r@ == seq![char_of_digit(d as int)],
{
    proof {
        reveal_strlit("0");
        reveal_strlit("1");
        reveal_strlit("2");
        reveal_strlit("3");
        reveal_strlit("4");
        reveal_strlit("5");
        reveal_strlit("6");
        reveal_strlit("7");
        reveal_strlit("8");
        reveal_strlit("9");
    }
    if d == 0 {
        "0"
    } else if d == 1 {
        "1"
    } else if d == 2 {
        "2"
    } else if d == 3 {
        "3"
    } else if d == 4 {
        "4"
    } else if d == 5 {
        "5"
    } else if d == 6 {
        "6"
    } else if d == 7 {
        "7"
    } else if d == 8 {
        "8"
    } else {
        "9"
    }
}

/// Appends the decimal rendering of `n` to `s`.
pub fn push_dec_u128(s: &mut String, n: u128)
    ensures
        final(s)@ == old(s)@ + spec_dec_nat(n as nat),
    decreases n,
{
    if n < 10 {
        s.append(digit_str(n));
    } else {
        push_dec_u128(s, n / 10);
        s.append(digit_str(n % 10));
        proof {
            assert(old(s)@ + spec_dec_nat((n / 10) as nat) + seq![
                char_of_digit((n % 10) as int),
            ] =~= old(s)@ + spec_dec_nat(n as nat));
        }
    }
}

/// Appends the decimal rendering of a signed value to `s`.
pub fn push_dec_i128(s: &mut String, n: i128)
    ensures
        final(s)@ == old(s)@ + spec_dec_int(n as int),
{
    if n >= 0 {
        push_dec_u128(s, n as u128);
    } else {
        proof {
            reveal_strlit("-");
        }
        s.append("-");
        let mag: u128 = ((-(n + 1)) as u128) + 1;
        assert(mag == -(n as int));
        push_dec_u128(s, mag);
        proof {
            assert(old(s)@ + "-"@ + spec_dec_nat(mag as nat) =~= old(s)@ + spec_dec_int(n as int));
        }
    }
}

/// The decimal rendering of `n` padded with zeros to two places.
pub open spec fn spec_pad2(n: nat) -> Seq<char> {
    if n < 10 {
        seq!['0'] + spec_dec_nat(n)
    } else {
        spec_dec_nat(n)
    }
}

/// The decimal rendering of `n` padded with zeros to four places.
pub open spec fn spec_pad4(n: nat) -> Seq<char> {
    if n < 10 {
        seq!['0', '0', '0'] + spec_dec_nat(n)
    } else if n < 100 {
        seq!['0', '0'] + spec_dec_nat(n)
    } else if n < 1000 {
        seq!['0'] + spec_dec_nat(n)
    } else {
        spec_dec_nat(n)
    }
}

/// Appends `n` zero-padded to two places.
pub fn push_pad2(s: &mut String, n: u32)
    ensures
        final(s)@ == old(s)@ + spec_pad2(n as nat),
{
    proof {
        reveal_strlit("0");
    }
    if n < 10 {
        s.append("0");
    }
    push_dec_u128(s, n as u128);
    proof {
        if n < 10 {
            assert(old(s)@ + "0"@ + spec_dec_nat(n as nat) =~= old(s)@ + spec_pad2(n as nat));
        }
    }
}

/// Appends `n` zero-padded to four places.
pub fn push_pad4(s: &mut String, n: u32)
    ensures
        final(s)@ == old(s)@ + spec_pad4(n as nat),
{
    proof {
        reveal_strlit("0");
        reveal_strlit("00");
        reveal_strlit("000");
    }
    if n < 10 {
        s.append("000");
    } else if n < 100 {
        s.append("00");
    } else if n < 1000 {
        s.append("0");
    }
    push_dec_u128(s, n as u128);
    proof {
        if n < 10 {
            assert(old(s)@ + "000"@ + spec_dec_nat(n as nat) =~= old(s)@ + spec_pad4(n as nat));
        } else if n < 100 {
            assert(old(s)@ + "00"@ + spec_dec_nat(n as nat) =~= old(s)@ + spec_pad4(n as nat));
        } else if n < 1000 {
            assert(old(s)@ + "0"@ + spec_dec_nat(n as nat) =~= old(s)@ + spec_pad4(n as nat));
        }
    }
}

} // verus!
