//! Whole numbers written out in decimal, as the ledger's address seeds hold them.

use vstd::prelude::*;

verus! {

/// The character of the digit `d`, which is below ten.
pub open spec fn digit_byte(d: nat) -> u8 {
    (48 + d) as u8
}

/// The digits of `n` in base ten, the most significant first, without leading zeros.
pub open spec fn decimal_digits(n: nat) -> Seq<u8>
    decreases n,
{
    if n < 10 {
        seq![digit_byte(n)]
    } else {
        decimal_digits(n / 10).push(digit_byte(n % 10))
    }
}

/// `value` written out in decimal, with a minus sign in front where it is negative.
pub open spec fn decimal_text(value: int) -> Seq<u8> {
    if value < 0 {
        seq![45u8] + decimal_digits((-value) as nat)
    } else {
        decimal_digits(value as nat)
    }
}

/// The items of `items` from the last to the first.
pub open spec fn backwards(items: Seq<u8>) -> Seq<u8> {
    Seq::new(items.len(), |i: int| items[items.len() - 1 - i])
}

/// `value` written out in decimal.
pub fn decimal_bytes(value: i32) -> (text: Vec<u8>)
    ensures
        text@ == decimal_text(value as int),
{
    let negative = value < 0;
    let wide: i64 = value as i64;
    let magnitude: u64 = if negative { (-wide) as u64 } else { wide as u64 };
    // The digits from the least significant on.
    let mut low_first: Vec<u8> = Vec::new();
    let mut rest: u64 = magnitude;
    loop
        invariant_except_break
            decimal_digits(magnitude as nat) == decimal_digits(rest as nat) + backwards(low_first@),
        ensures
            decimal_digits(magnitude as nat) == backwards(low_first@),
        decreases rest,
    {
        let digit: u8 = (rest % 10) as u8;
        let ghost before = low_first@;
        low_first.push(48 + digit);
        proof {
            assert(backwards(low_first@) =~= seq![digit_byte(digit as nat)] + backwards(before));
            if rest >= 10 {
                assert(decimal_digits(rest as nat) == decimal_digits((rest / 10) as nat).push(
                    digit_byte(digit as nat),
                ));
                assert(decimal_digits(rest as nat) + backwards(before) =~= decimal_digits(
                    (rest / 10) as nat,
                ) + backwards(low_first@));
            } else {
                assert(decimal_digits(rest as nat) + backwards(before) =~= backwards(low_first@));
            }
        }
        if rest < 10 {
            break ;
        }
        rest = rest / 10;
    }
    let mut text: Vec<u8> = Vec::new();
    if negative {
        text.push(45);
    }
    let ghost sign = text@;
    let mut left: usize = low_first.len();
    while left > 0
        invariant
            left <= low_first@.len(),
            text@ == sign + backwards(low_first@).take(low_first@.len() - left),
        decreases left,
    {
        left -= 1;
        text.push(low_first[left]);
        proof {
            let turned = backwards(low_first@);
            let done = low_first@.len() - left;
            assert(turned.take(done) =~= turned.take(done - 1).push(low_first@[left as int]));
            assert(text@ =~= sign + turned.take(done));
        }
    }
    proof {
        assert(backwards(low_first@).take(low_first@.len() as int) =~= backwards(low_first@));
        assert(sign + backwards(low_first@) =~= decimal_text(value as int));
    }
    text
}

} // verus!
