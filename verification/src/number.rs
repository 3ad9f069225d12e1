//! Unsigned numbers in decimal and hexadecimal notation.

use vstd::prelude::*;
use vstd::slice::slice_subrange;

verus! {

/// The value of `c` as a digit of the given radix, which is 10 or 16.
pub open spec fn digit_value(c: char, radix: nat) -> Option<nat> {
    let n = c as int;
    if '0' as int <= n <= '9' as int {
        Some((n - '0' as int) as nat)
    } else if radix == 16 && 'a' as int <= n <= 'f' as int {
        Some((n - 'a' as int + 10) as nat)
    } else if radix == 16 && 'A' as int <= n <= 'F' as int {
        Some((n - 'A' as int + 10) as nat)
    } else {
        None
    }
}

/// The number that a sequence of digits denotes; `None` where one of the
/// characters is no digit. The empty sequence denotes 0.
pub open spec fn digits_value(s: Seq<char>, radix: nat) -> Option<nat>
    decreases s.len(),
{
    if s.len() == 0 {
        Some(0)
    } else {
        match (digits_value(s.drop_last(), radix), digit_value(s.last(), radix)) {
            (Some(v), Some(d)) => Some(v * radix + d),
            _ => None,
        }
    }
}

/// The number that `s` denotes: an optional `+`, then at least one digit.
pub open spec fn unsigned_value(s: Seq<char>, radix: nat) -> Option<nat> {
    let body = if s.len() > 0 && s[0] == '+' {
        s.skip(1)
    } else {
        s
    };
    if body.len() == 0 {
        None
    } else {
        digits_value(body, radix)
    }
}

/// The number that `s` denotes, where it denotes one that is at most `max`.
pub open spec fn bounded_value(s: Seq<char>, radix: nat, max: nat) -> Option<nat> {
    match unsigned_value(s, radix) {
        Some(v) => if v <= max {
            Some(v)
        } else {
            None
        },
        None => None,
    }
}

/// The value of `c` as a digit.
pub fn digit_of(c: char, hex: bool) -> (r: Option<u8>)
    ensures
        match r {
            Some(d) => digit_value(c, if hex { 16nat } else { 10nat }) == Some(d as nat) && d < 16
                && (!hex ==> d < 10),
            None => digit_value(c, if hex { 16nat } else { 10nat }) is None,
        },
{
    let n: u32 = c as u32;
    if 0x30 <= n && n <= 0x39 {
        Some((n - 0x30) as u8)
    } else if hex && 0x61 <= n && n <= 0x66 {
        Some((n - 0x61 + 10) as u8)
    } else if hex && 0x41 <= n && n <= 0x46 {
        Some((n - 0x41 + 10) as u8)
    } else {
        None
    }
}

/// Reads an unsigned number of radix 10, or of radix 16 where `hex` is set,
/// that is at most `max`.
pub fn parse_unsigned(s: &[char], hex: bool, max: usize) -> (r: Option<usize>)
    ensures
        match r {
            Some(v) => bounded_value(s@, if hex { 16nat } else { 10nat }, max as nat) == Some(
                v as nat,
            ),
            None => bounded_value(s@, if hex { 16nat } else { 10nat }, max as nat) is None,
        },
{
    let ghost radix: nat = if hex { 16 } else { 10 };
    let r: u128 = if hex { 16 } else { 10 };
    let body = if s.len() > 0 && s[0] == '+' {
        slice_subrange(s, 1, s.len())
    } else {
        s
    };
    assert(body@ == if s@.len() > 0 && s@[0] == '+' {
        s@.skip(1)
    } else {
        s@
    });
    if body.len() == 0 {
        return None;
    }
    assert(unsigned_value(s@, radix) == digits_value(body@, radix));
    let mut acc: usize = 0;
    let mut over: bool = false;
    let mut i: usize = 0;
    while i < body.len()
        invariant
            i <= body.len(),
            radix == (if hex { 16nat } else { 10nat }),
            r == radix,
            unsigned_value(s@, radix) == digits_value(body@, radix),
            digits_value(body@.take(i as int), radix) is Some,
            !over ==> digits_value(body@.take(i as int), radix) == Some(acc as nat) && acc <= max,
            over ==> digits_value(body@.take(i as int), radix).unwrap() > max,
        decreases body.len() - i,
    {
        assert(body@.take(i + 1).drop_last() =~= body@.take(i as int));
        assert(body@.take(i + 1).last() == body@[i as int]);
        let ghost before = digits_value(body@.take(i as int), radix).unwrap();
        match digit_of(body[i], hex) {
            Some(d) => {
                assert(before * radix + d >= before) by (nonlinear_arith)
                    requires
                        radix >= 1,
                        before >= 0,
                        d >= 0,
                ;
                if !over {
                    let next: u128 = (acc as u128) * r + (d as u128);
                    if next > max as u128 {
                        over = true;
                    } else {
                        acc = next as usize;
                    }
                }
            },
            None => {
                assert(digits_value(body@.take(i + 1), radix) is None);
                proof {
                    lemma_bad_digit(body@, radix, i + 1);
                }
                return None;
            },
        }
        i += 1;
    }
    assert(body@.take(body.len() as int) =~= body@);
    if over {
        None
    } else {
        Some(acc)
    }
}

/// Once a prefix holds a character that is no digit, so does the whole.
pub proof fn lemma_bad_digit(s: Seq<char>, radix: nat, n: int)
    requires
        0 <= n <= s.len(),
        digits_value(s.take(n), radix) is None,
    ensures
        digits_value(s, radix) is None,
    decreases s.len() - n,
{
    if n < s.len() {
        assert(s.take(n + 1).drop_last() =~= s.take(n));
        lemma_bad_digit(s, radix, n + 1);
    } else {
        assert(s.take(n) =~= s);
    }
}

} // verus!
