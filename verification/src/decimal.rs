//! Decimal text of integers: the digits that `Display` writes for an
//! integer, and the values that `str::parse` accepts for an integer type.
use vstd::prelude::*;

verus! {

/// ASCII code of the digit `d` (for `d < 10`).
pub open spec fn digit_byte(d: nat) -> u8 {
    (48 + d) as u8
}

/// Is `b` one of the ASCII digits `0`..`9`?
pub open spec fn is_digit(b: u8) -> bool {
    48 <= b <= 57
}

/// The decimal digits of `n`, most significant first, without leading zeros.
pub open spec fn dec_digits(n: nat) -> Seq<u8>
    decreases n,
{
    if n < 10 {
        seq![digit_byte(n)]
    } else {
        dec_digits(n / 10).push(digit_byte(n % 10))
    }
}

/// The text that `Display` writes for the integer `i`: a `-` for negative
/// values, then the digits of its magnitude.
pub open spec fn int_text(i: int) -> Seq<u8> {
    if i < 0 {
        seq![45u8] + dec_digits((-i) as nat)
    } else {
        dec_digits(i as nat)
    }
}

/// The value of a run of digits, read in base ten.
pub open spec fn digits_value(s: Seq<u8>) -> nat
    decreases s.len(),
{
    if s.len() == 0 {
        0
    } else {
        digits_value(s.drop_last()) * 10 + (s.last() - 48) as nat
    }
}

/// Does every byte of `s` hold a digit?
pub open spec fn all_digits(s: Seq<u8>) -> bool {
    forall|i: int| 0 <= i < s.len() ==> is_digit(#[trigger] s[i])
}

/// Does `s` start with a minus sign that a type with values from `min` takes?
pub open spec fn sign_is_minus(s: Seq<u8>, min: int) -> bool {
    s.len() > 0 && s[0] == 45u8 && min < 0
}

/// `s` without its leading sign, where it has one that counts.
pub open spec fn digits_part(s: Seq<u8>, min: int) -> Seq<u8> {
    if s.len() > 0 && (s[0] == 43u8 || sign_is_minus(s, min)) {
        s.drop_first()
    } else {
        s
    }
}

/// What `str::parse` gives for an integer type whose values are
/// `min..=max`: an optional `+` (or `-` where `min` is negative), then at
/// least one digit and nothing else, with a value in range.
pub open spec fn parse_integer(s: Seq<u8>, min: int, max: int) -> Option<int> {
    let neg = sign_is_minus(s, min);
    let body = digits_part(s, min);
    if body.len() == 0 || !all_digits(body) {
        None
    } else {
        let v: int = if neg {
            -(digits_value(body) as int)
        } else {
            digits_value(body) as int
        };
        if min <= v <= max {
            Some(v)
        } else {
            None
        }
    }
}

/// The digits of a number are digits, and there is at least one.
pub proof fn lemma_dec_digits_shape(n: nat)
    ensures
        dec_digits(n).len() > 0,
        all_digits(dec_digits(n)),
        dec_digits(n)[0] != 45u8,
        dec_digits(n)[0] != 43u8,
    decreases n,
{
    if n >= 10 {
        lemma_dec_digits_shape(n / 10);
    }
}

/// Reading back the digits of `n` gives `n`.
pub proof fn lemma_dec_digits_value(n: nat)
    ensures
        digits_value(dec_digits(n)) == n,
    decreases n,
{
    if n < 10 {
        assert(dec_digits(n).drop_last() =~= Seq::<u8>::empty());
        assert(digit_byte(n) == 48 + n);
        assert(digits_value(dec_digits(n)) == digits_value(dec_digits(n).drop_last()) * 10 + (dec_digits(n).last() - 48) as nat);
    } else {
        lemma_dec_digits_value(n / 10);
        assert(dec_digits(n).drop_last() =~= dec_digits(n / 10));
        assert(dec_digits(n).last() == digit_byte(n % 10));
        assert(n == (n / 10) * 10 + n % 10);
    }
}

/// Appending digits never makes the value smaller.
proof fn lemma_digits_value_prefix(s: Seq<u8>, i: int, j: int)
    requires
        0 <= i <= j <= s.len(),
        all_digits(s),
    ensures
        digits_value(s.take(i)) <= digits_value(s.take(j)),
    decreases j - i,
{
    if i < j {
        lemma_digits_value_prefix(s, i, j - 1);
        assert(s.take(j).drop_last() =~= s.take(j - 1));
    }
}

/// Parsing the text of an integer in range gives it back.
pub proof fn lemma_parse_int_text(i: int, min: int, max: int)
    requires
        min <= i <= max,
        min <= 0,
    ensures
        parse_integer(int_text(i), min, max) == Some(i),
{
    if i < 0 {
        let n = (-i) as nat;
        lemma_dec_digits_shape(n);
        lemma_dec_digits_value(n);
        assert((seq![45u8] + dec_digits(n)).drop_first() =~= dec_digits(n));
    } else {
        lemma_dec_digits_shape(i as nat);
        lemma_dec_digits_value(i as nat);
    }
}

/// Appends the decimal digits of `n` to `out`.
pub fn push_decimal(out: &mut Vec<u8>, n: u128)
    ensures
        final(out)@ == old(out)@ + dec_digits(n as nat),
    decreases n,
{
    if n >= 10 {
        push_decimal(out, n / 10);
    }
    let d: u8 = (n % 10) as u8;
    out.push(48 + d);
    proof {
        if n >= 10 {
            assert(old(out)@ + dec_digits(n as nat) =~= old(out)@ + dec_digits((n / 10) as nat)
                + seq![digit_byte((n % 10) as nat)]);
        }
    }
}

/// Appends the text of the signed integer `v` to `out`.
pub fn push_signed(out: &mut Vec<u8>, v: i64)
    ensures
        final(out)@ == old(out)@ + int_text(v as int),
{
    if v < 0 {
        out.push(45u8);
        let magnitude: u128 = ((-(v + 1)) as u128) + 1;
        push_decimal(out, magnitude);
        assert(final(out)@ =~= old(out)@ + int_text(v as int));
    } else {
        push_decimal(out, v as u128);
    }
}

/// Parses `s` as `str::parse` does for an integer type whose values are
/// `min..=max`; `None` where it reports an error.
pub fn parse_integer_bytes(s: &[u8], min: i128, max: i128) -> (r: Option<i128>)
    requires
        -0x1_0000_0000_0000_0000 <= min <= 0 <= max <= 0x1_0000_0000_0000_0000,
    ensures
        r matches Some(v) ==> parse_integer(s@, min as int, max as int) == Some(v as int),
        r is None ==> parse_integer(s@, min as int, max as int) is None,
{
    let len = s.len();
    let neg = len > 0 && s[0] == 45u8 && min < 0;
    let start: usize = if len > 0 && (s[0] == 43u8 || neg) {
        1
    } else {
        0
    };
    let ghost body = digits_part(s@, min as int);
    assert(neg == sign_is_minus(s@, min as int));
    assert(start == 1 ==> body =~= s@.subrange(1, len as int));
    assert(start == 0 ==> body =~= s@.subrange(0, len as int));
    if start == len {
        assert(body.len() == 0);
        return None;
    }
    let bound: i128 = if neg {
        -min
    } else {
        max
    };
    let mut acc: i128 = 0;
    let mut i: usize = start;
    while i < len
        invariant
            start <= i <= len,
            len == s@.len(),
            start == 0 || start == 1,
            body == s@.subrange(start as int, len as int),
            body == digits_part(s@, min as int),
            neg == sign_is_minus(s@, min as int),
            bound == (if neg { -(min as int) } else { max as int }),
            -0x1_0000_0000_0000_0000 <= min <= 0 <= max <= 0x1_0000_0000_0000_0000,
            0 <= acc <= bound,
            bound <= 0x1_0000_0000_0000_0000,
            acc == digits_value(body.take(i - start)),
            forall|k: int| 0 <= k < i - start ==> is_digit(#[trigger] body[k]),
        decreases len - i,
    {
        let b = s[i];
        if b < 48 || b > 57 {
            assert(!is_digit(body[i - start]));
            assert(!all_digits(body));
            return None;
        }
        assert(body.take(i - start + 1).drop_last() =~= body.take(i - start));
        acc = acc * 10 + ((b - 48) as i128);
        i = i + 1;
        if acc > bound {
            proof {
                if all_digits(body) {
                    lemma_digits_value_prefix(body, i - start, body.len() as int);
                    assert(body.take(body.len() as int) =~= body);
                }
            }
            return None;
        }
    }
    assert(body.take(body.len() as int) =~= body);
    if neg {
        Some(-acc)
    } else {
        Some(acc)
    }
}

} // verus!
