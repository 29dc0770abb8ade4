//! Numbers and identifiers as the text that a stored row holds.
//!
//! A number is written in decimal without sign or padding. It is read back
//! from an optional `+` followed by at least one decimal digit, as long as
//! the value fits in 64 bits. An address is written as `0x` followed by two
//! lower-case hexadecimal digits for each of its bytes.
use vstd::prelude::*;

verus! {

/// The byte is an ASCII decimal digit.
pub open spec fn is_digit(c: u8) -> bool {
    48 <= c <= 57
}

/// The number that a run of decimal digits denotes, most significant digit
/// first, or `None` if some byte is no digit. The empty run denotes zero.
pub open spec fn digits_value(s: Seq<u8>) -> Option<int>
    decreases s.len(),
{
    if s.len() == 0 {
        Some(0)
    } else {
        match digits_value(s.drop_last()) {
            Some(v) => if is_digit(s.last()) {
                Some(10 * v + (s.last() - 48))
            } else {
                None
            },
            None => None,
        }
    }
}

/// The text without one leading `+`, if it has one.
pub open spec fn unsigned_part(s: Seq<u8>) -> Seq<u8> {
    if s.len() > 0 && s[0] == 43 {
        s.subrange(1, s.len() as int)
    } else {
        s
    }
}

/// The number that a field denotes: an optional `+`, then one or more decimal
/// digits whose value fits in 64 bits. Anything else denotes no number.
pub open spec fn decimal_value(s: Seq<u8>) -> Option<u64> {
    let digits = unsigned_part(s);
    if digits.len() == 0 {
        None
    } else {
        match digits_value(digits) {
            Some(v) => if v <= u64::MAX {
                Some(v as u64)
            } else {
                None
            },
            None => None,
        }
    }
}

/// The decimal digits of `n`, most significant first, without padding.
pub open spec fn decimal_of(n: nat) -> Seq<u8>
    decreases n,
{
    if n < 10 {
        seq![(48 + n) as u8]
    } else {
        decimal_of(n / 10).push((48 + n % 10) as u8)
    }
}

/// The lower-case hexadecimal digit for a value below sixteen.
pub open spec fn hex_digit(n: int) -> u8 {
    if n < 10 {
        (48 + n) as u8
    } else {
        (87 + n) as u8
    }
}

/// Two lower-case hexadecimal digits for each byte, in order.
pub open spec fn hex_of(bytes: Seq<u8>) -> Seq<u8>
    decreases bytes.len(),
{
    if bytes.len() == 0 {
        Seq::empty()
    } else {
        hex_of(bytes.drop_last()).push(hex_digit(bytes.last() as int / 16)).push(
            hex_digit(bytes.last() as int % 16),
        )
    }
}

/// The text of an identifier: `0x`, then its bytes in hexadecimal.
pub open spec fn hex_text(bytes: Seq<u8>) -> Seq<u8> {
    seq![48u8, 120u8] + hex_of(bytes)
}

/// A run of digits denotes a number that is not negative, and each of its
/// prefixes is a run of digits that denotes no larger a number.
pub proof fn lemma_digits_value_prefix(s: Seq<u8>, k: int)
    requires
        0 <= k <= s.len(),
        digits_value(s) is Some,
    ensures
        digits_value(s.take(k)) is Some,
        0 <= digits_value(s.take(k)).unwrap() <= digits_value(s).unwrap(),
    decreases s.len(),
{
    if k == s.len() {
        assert(s.take(k) =~= s);
        if s.len() > 0 {
            lemma_digits_value_prefix(s.drop_last(), k - 1);
            assert(s.drop_last().take(k - 1) =~= s.drop_last());
        }
    } else {
        lemma_digits_value_prefix(s.drop_last(), k);
        assert(s.drop_last().take(k) =~= s.take(k));
        lemma_digits_value_prefix(s.drop_last(), s.len() - 1);
        assert(s.drop_last().take(s.len() - 1) =~= s.drop_last());
    }
}

/// The decimal digits of a number are digits, at least one, and denote it.
pub proof fn lemma_decimal_of_digits(n: nat)
    ensures
        decimal_of(n).len() > 0,
        forall|i: int| 0 <= i < decimal_of(n).len() ==> is_digit(#[trigger] decimal_of(n)[i]),
        digits_value(decimal_of(n)) == Some(n as int),
    decreases n,
{
    if n < 10 {
        let s = decimal_of(n);
        assert(s.drop_last() =~= Seq::<u8>::empty());
        assert(digits_value(s.drop_last()) == Some(0int));
    } else {
        lemma_decimal_of_digits(n / 10);
        let s = decimal_of(n);
        assert(s.drop_last() =~= decimal_of(n / 10));
    }
}

/// Reading back what was written gives the number that was written.
pub proof fn lemma_decimal_round_trip(n: u64)
    ensures
        decimal_value(decimal_of(n as nat)) == Some(n),
{
    lemma_decimal_of_digits(n as nat);
    assert(is_digit(decimal_of(n as nat)[0]));
}

/// Reads a number from a field.
pub fn parse_decimal(field: &[u8]) -> (value: Option<u64>)
    ensures
        value == decimal_value(field@),
{
    let len: usize = field.len();
    let start: usize = if len > 0 && field[0] == 43 {
        1
    } else {
        0
    };
    if start == len {
        return None;
    }
    let ghost digits = unsigned_part(field@);
    let mut value: u64 = 0;
    let mut i: usize = start;
    while i < len
        invariant
            start <= i <= len,
            len == field@.len(),
            digits == unsigned_part(field@),
            digits == field@.subrange(start as int, len as int),
            digits_value(digits.take(i - start)) == Some(value as int),
        decreases len - i,
    {
        let c: u8 = field[i];
        proof {
            assert(digits.take(i - start + 1).drop_last() =~= digits.take(i - start));
            assert(digits.take(i - start + 1).last() == c);
        }
        if c < 48 || c > 57 {
            proof {
                if digits_value(digits) is Some {
                    lemma_digits_value_prefix(digits, i - start + 1);
                }
            }
            return None;
        }
        let d: u64 = (c - 48) as u64;
        if value > (u64::MAX - d) / 10 {
            proof {
                if digits_value(digits) is Some {
                    lemma_digits_value_prefix(digits, i - start + 1);
                }
            }
            return None;
        }
        value = value * 10 + d;
        i = i + 1;
    }
    proof {
        assert(digits.take(len - start) =~= digits);
    }
    Some(value)
}

/// Appends the decimal digits of `n` to `out`.
pub fn push_decimal(out: &mut Vec<u8>, n: u64)
    ensures
        final(out)@ == old(out)@ + decimal_of(n as nat),
    decreases n,
{
    if n >= 10 {
        push_decimal(out, n / 10);
    }
    out.push(48 + (n % 10) as u8);
    proof {
        assert(final(out)@ =~= old(out)@ + decimal_of(n as nat));
    }
}

/// The decimal digits of `n`.
pub fn decimal_text(n: u64) -> (text: Vec<u8>)
    ensures
        text@ == decimal_of(n as nat),
{
    let mut text: Vec<u8> = Vec::new();
    push_decimal(&mut text, n);
    proof {
        assert(Seq::<u8>::empty() + decimal_of(n as nat) =~= decimal_of(n as nat));
    }
    text
}

/// The hexadecimal digit for the low four bits of `n`.
fn hex_digit_of(n: u8) -> (c: u8)
    requires
        n < 16,
    ensures
        c == hex_digit(n as int),
{
    if n < 10 {
        48 + n
    } else {
        87 + n
    }
}

/// The text of a 20-byte identifier.
pub fn hex_text_of(bytes: &[u8; 20]) -> (text: Vec<u8>)
    ensures
        text@ == hex_text(bytes@),
{
    let mut text: Vec<u8> = Vec::new();
    text.push(48);
    text.push(120);
    let mut i: usize = 0;
    while i < 20
        invariant
            i <= 20,
            bytes@.len() == 20,
            text@ == seq![48u8, 120u8] + hex_of(bytes@.take(i as int)),
        decreases 20 - i,
    {
        let b: u8 = bytes[i];
        proof {
            assert(bytes@.take(i + 1).drop_last() =~= bytes@.take(i as int));
            assert(bytes@.take(i + 1).last() == b);
        }
        text.push(hex_digit_of(b / 16));
        text.push(hex_digit_of(b % 16));
        proof {
            assert(text@ =~= seq![48u8, 120u8] + hex_of(bytes@.take(i + 1)));
        }
        i = i + 1;
    }
    proof {
        assert(bytes@.take(20) =~= bytes@);
    }
    text
}

} // verus!
