//! Reading and writing fixed-point amounts.
//!
//! An amount field of the input is an unsigned decimal number, `digits` or
//! `digits.digits` (either side of the dot may be empty, not both). It is
//! converted to 1/10_000 units, rounding to the nearest unit and half a unit
//! away from zero, exactly as the fifth fractional digit decides. Balances
//! are written back as minimal decimals: no trailing fractional zeros, but
//! always at least one fractional digit.

use vstd::prelude::*;

verus! {

use crate::clients::{MAX_BALANCE, UNITS_PER_WHOLE};

/// The integer part of an accepted amount has at most this many digits; that
/// keeps every accepted amount well inside `u64` units.
pub const MAX_INT_DIGITS: usize = 15;

pub open spec fn is_ascii_digit(b: u8) -> bool {
    48 <= b <= 57
}

pub open spec fn digit_val(b: u8) -> int {
    b - 48
}

pub open spec fn all_digits(s: Seq<u8>) -> bool {
    forall|i: int| 0 <= i < s.len() ==> is_ascii_digit(#[trigger] s[i])
}

/// The number a string of decimal digits denotes.
pub open spec fn digits_val(s: Seq<u8>) -> int
    decreases s.len(),
{
    if s.len() == 0 {
        0
    } else {
        digits_val(s.drop_last()) * 10 + digit_val(s.last())
    }
}

pub open spec fn pow10(n: nat) -> int
    decreases n,
{
    if n == 0 {
        1
    } else {
        10 * pow10((n - 1) as nat)
    }
}

pub proof fn lemma_pow10_positive(n: nat)
    ensures
        pow10(n) >= 1,
    decreases n,
{
    if n > 0 {
        lemma_pow10_positive((n - 1) as nat);
    }
}

pub proof fn lemma_pow10_increases(m: nat, n: nat)
    requires
        m <= n,
    ensures
        pow10(m) <= pow10(n),
    decreases n,
{
    if m < n {
        lemma_pow10_increases(m, (n - 1) as nat);
        lemma_pow10_positive((n - 1) as nat);
    }
}

/// A digit string's value is bounded by the power of ten of its length.
pub proof fn lemma_digits_val_bounds(s: Seq<u8>)
    requires
        all_digits(s),
    ensures
        0 <= digits_val(s) < pow10(s.len()),
    decreases s.len(),
{
    if s.len() > 0 {
        assert(all_digits(s.drop_last()));
        lemma_digits_val_bounds(s.drop_last());
        assert(is_ascii_digit(s.last()));
    }
}

/// True when some byte of `s` is the dot.
pub open spec fn has_dot(s: Seq<u8>) -> bool {
    exists|i: int| 0 <= i < s.len() && s[i] == 46u8
}

/// A position of the dot (unique in every well-formed amount, where all
/// other bytes are digits).
pub open spec fn dot_pos(s: Seq<u8>) -> int {
    choose|i: int| 0 <= i < s.len() && s[i] == 46u8
}

/// The digits before the dot, or the whole string without one.
pub open spec fn int_digits(s: Seq<u8>) -> Seq<u8> {
    if has_dot(s) {
        s.take(dot_pos(s))
    } else {
        s
    }
}

/// The digits after the dot, or nothing without one.
pub open spec fn frac_digits(s: Seq<u8>) -> Seq<u8> {
    if has_dot(s) {
        s.skip(dot_pos(s) + 1)
    } else {
        Seq::empty()
    }
}

/// The shape an amount field must have: digits around at most one dot, at
/// least one digit in all, at most `MAX_INT_DIGITS` of them before the dot.
pub open spec fn wellformed_amount(s: Seq<u8>) -> bool {
    &&& all_digits(int_digits(s))
    &&& all_digits(frac_digits(s))
    &&& int_digits(s).len() + frac_digits(s).len() >= 1
    &&& int_digits(s).len() <= MAX_INT_DIGITS
}

/// What the fractional digits contribute, in 1/10_000 units: the first four
/// digits, zero-padded on the right, plus one unit when the fifth digit says
/// the rest is at least half a unit.
pub open spec fn frac_units(frac: Seq<u8>) -> int {
    if frac.len() >= 4 {
        digits_val(frac.take(4)) + (if frac.len() >= 5 && frac[4] >= 53u8 {
            1int
        } else {
            0int
        })
    } else {
        digits_val(frac) * pow10((4 - frac.len()) as nat)
    }
}

/// The value of a well-formed amount field, in 1/10_000 units.
pub open spec fn amount_units(s: Seq<u8>) -> int {
    digits_val(int_digits(s)) * UNITS_PER_WHOLE + frac_units(frac_digits(s))
}

/// What [`parse_amount`] returns: the rounded fixed-point value of a
/// well-formed amount field, nothing otherwise.
pub open spec fn spec_parse_amount(s: Seq<u8>) -> Option<u64> {
    if wellformed_amount(s) {
        Some(amount_units(s) as u64)
    } else {
        None
    }
}

/// The value of a well-formed amount fits in `u64` units.
pub proof fn lemma_amount_units_fits(s: Seq<u8>)
    requires
        wellformed_amount(s),
    ensures
        0 <= amount_units(s) <= u64::MAX,
{
    lemma_digits_val_bounds(int_digits(s));
    lemma_pow10_increases(int_digits(s).len(), 15);
    assert(pow10(15) == 1_000_000_000_000_000) by {
        reveal_with_fuel(pow10, 16);
    }
    let frac = frac_digits(s);
    if frac.len() >= 4 {
        assert(all_digits(frac.take(4)));
        lemma_digits_val_bounds(frac.take(4));
        assert(pow10(4) == 10000) by {
            reveal_with_fuel(pow10, 5);
        }
    } else {
        lemma_digits_val_bounds(frac);
        lemma_pow10_increases(frac.len(), 4);
        lemma_pow10_positive((4 - frac.len()) as nat);
        assert(pow10(4) == 10000) by {
            reveal_with_fuel(pow10, 5);
        }
        assert(digits_val(frac) * pow10((4 - frac.len()) as nat) < pow10(frac.len()) * pow10(
            (4 - frac.len()) as nat,
        )) by {
            lemma_pow10_positive((4 - frac.len()) as nat);
            vstd::arithmetic::mul::lemma_mul_strict_inequality(
                digits_val(frac),
                pow10(frac.len()),
                pow10((4 - frac.len()) as nat),
            );
        }
        assert(pow10(frac.len()) * pow10((4 - frac.len()) as nat) == pow10(4)) by {
            lemma_pow10_mul_split(frac.len(), (4 - frac.len()) as nat);
        }
        assert(digits_val(frac) * pow10((4 - frac.len()) as nat) >= 0) by {
            vstd::arithmetic::mul::lemma_mul_nonnegative(
                digits_val(frac),
                pow10((4 - frac.len()) as nat),
            );
        }
    }
}

pub proof fn lemma_pow10_mul_split(m: nat, n: nat)
    ensures
        pow10(m) * pow10(n) == pow10((m + n) as nat),
    decreases m,
{
    if m > 0 {
        let a = pow10((m - 1) as nat);
        let b = pow10(n);
        lemma_pow10_mul_split((m - 1) as nat, n);
        assert(pow10(m) == 10 * a);
        assert(pow10((m + n) as nat) == 10 * pow10((m - 1 + n) as nat));
        assert((10 * a) * b == 10 * (a * b)) by (nonlinear_arith);
    }
}

/// Nothing decomposed around a dot at `first_dot` (the first one, or the
/// length when there is none) with a non-digit somewhere else is well formed.
proof fn lemma_nondigit_not_wellformed(s: Seq<u8>, first_dot: int, bad: int)
    requires
        0 <= first_dot <= s.len(),
        first_dot < s.len() ==> s[first_dot] == 46u8,
        forall|j: int| 0 <= j < first_dot ==> s[j] != 46u8,
        0 <= bad < s.len(),
        bad != first_dot,
        !is_ascii_digit(s[bad]),
    ensures
        !wellformed_amount(s),
{
    if !has_dot(s) {
        assert(!is_ascii_digit(int_digits(s)[bad]));
    } else {
        let j = dot_pos(s);
        assert(0 <= j < s.len() && s[j] == 46u8);
        assert(j >= first_dot);
        assert(first_dot < s.len());
        if bad == j {
            // the chosen dot is the "bad" byte, so the first dot is a second
            // dot sitting among the integer digits
            assert(first_dot < j);
            assert(!is_ascii_digit(int_digits(s)[first_dot]));
        } else if bad < j {
            assert(!is_ascii_digit(int_digits(s)[bad]));
        } else {
            assert(!is_ascii_digit(frac_digits(s)[bad - j - 1]));
        }
    }
}

/// Reads an amount field. Returns its value in 1/10_000 units, rounded at
/// the fourth fractional digit, half away from zero; returns nothing for a
/// malformed field or one with more than `MAX_INT_DIGITS` integer digits.
pub fn parse_amount(s: &[u8]) -> (r: Option<u64>)
    ensures
        r == spec_parse_amount(s@),
{
    let n = s.len();
    // find the first dot
    let mut dot: usize = n;
    let mut i: usize = 0;
    while i < n
        invariant
            i <= n,
            n == s@.len(),
            dot == n || (dot < i && s@[dot as int] == 46u8),
            forall|j: int| 0 <= j < i && j < dot ==> s@[j] != 46u8,
        decreases n - i,
    {
        if s[i] == 46 && dot == n {
            dot = i;
        }
        i = i + 1;
    }
    proof {
        if dot < n {
            assert(has_dot(s@));
        } else {
            assert(!has_dot(s@));
        }
    }
    if dot > MAX_INT_DIGITS {
        // more integer digits than accepted, or a dotless string that long
        proof {
            if has_dot(s@) {
                let j = dot_pos(s@);
                assert(j >= dot as int);
                assert(int_digits(s@).len() == j);
            }
        }
        return None;
    }
    if n == 0 || (dot == 0 && n == 1) {
        // nothing but at most a dot
        return None;
    }
    // integer digits
    let mut int_acc: u64 = 0;
    let mut k: usize = 0;
    while k < dot
        invariant
            k <= dot <= MAX_INT_DIGITS,
            dot <= n == s@.len(),
            dot == n || s@[dot as int] == 46u8,
            forall|j: int| 0 <= j < dot ==> s@[j] != 46u8,
            all_digits(s@.take(k as int)),
            int_acc == digits_val(s@.take(k as int)),
            0 <= int_acc < pow10(k as nat),
        decreases dot - k,
    {
        let b = s[k];
        if b < 48 || b > 57 {
            proof {
                lemma_nondigit_not_wellformed(s@, dot as int, k as int);
            }
            return None;
        }
        proof {
            assert(s@.take(k + 1).drop_last() =~= s@.take(k as int));
            assert(s@.take(k + 1).last() == s@[k as int]);
            assert(all_digits(s@.take(k + 1)));
            lemma_pow10_increases((k + 1) as nat, 15);
            assert(pow10(15) == 1_000_000_000_000_000) by {
                reveal_with_fuel(pow10, 16);
            }
        }
        int_acc = int_acc * 10 + (b - 48) as u64;
        k = k + 1;
    }
    // fractional digits: the first four accumulate, the fifth rounds
    let frac_start = if dot == n {
        n
    } else {
        dot + 1
    };
    let mut frac_acc: u64 = 0;
    let mut taken: usize = 0;
    let mut round_up: bool = false;
    let mut k2: usize = frac_start;
    while k2 < n
        invariant
            frac_start <= k2 <= n == s@.len(),
            frac_start == if dot == n {
                n as int
            } else {
                dot + 1
            },
            dot <= n,
            dot == n || s@[dot as int] == 46u8,
            forall|j: int| 0 <= j < dot ==> s@[j] != 46u8,
            taken == if k2 - frac_start <= 4 {
                k2 - frac_start
            } else {
                4int
            },
            all_digits(s@.subrange(frac_start as int, k2 as int)),
            frac_acc == digits_val(s@.subrange(frac_start as int, frac_start + taken)),
            0 <= frac_acc < pow10(taken as nat),
            round_up == (k2 - frac_start >= 5 && s@[frac_start + 4] >= 53u8),
        decreases n - k2,
    {
        let b = s[k2];
        if b < 48 || b > 57 {
            proof {
                lemma_nondigit_not_wellformed(s@, dot as int, k2 as int);
            }
            return None;
        }
        proof {
            assert(s@.subrange(frac_start as int, k2 + 1).drop_last() =~= s@.subrange(
                frac_start as int,
                k2 as int,
            ));
            assert(all_digits(s@.subrange(frac_start as int, k2 + 1)));
        }
        if taken < 4 {
            proof {
                assert(s@.subrange(frac_start as int, frac_start + taken + 1).drop_last()
                    =~= s@.subrange(frac_start as int, frac_start + taken as int));
                assert(pow10(4) == 10000) by {
                    reveal_with_fuel(pow10, 5);
                }
                lemma_pow10_increases((taken + 1) as nat, 4);
            }
            frac_acc = frac_acc * 10 + (b - 48) as u64;
            taken = taken + 1;
        } else if k2 == frac_start + 4 {
            round_up = b >= 53;
        }
        k2 = k2 + 1;
    }
    // the string is well formed; its regions agree with the specification's
    proof {
        if has_dot(s@) {
            let j = dot_pos(s@);
            assert(j >= dot as int);
            if j != dot as int {
                assert(is_ascii_digit(s@.subrange(frac_start as int, n as int)[j - frac_start]));
                assert(false);
            }
            assert(int_digits(s@) =~= s@.take(dot as int));
            assert(frac_digits(s@) =~= s@.subrange(frac_start as int, n as int));
        } else {
            assert(int_digits(s@) =~= s@.take(dot as int));
            assert(frac_digits(s@) =~= s@.subrange(frac_start as int, n as int));
        }
        assert(wellformed_amount(s@));
        lemma_amount_units_fits(s@);
        // the scanned digits are exactly the specification's regions
        let frac = frac_digits(s@);
        assert(int_digits(s@) =~= s@.take(dot as int));
        if frac.len() >= 4 {
            assert(taken == 4);
            assert(frac.take(4) =~= s@.subrange(frac_start as int, frac_start + 4));
            assert(frac_acc == digits_val(frac.take(4)));
            assert(round_up == (frac.len() >= 5 && frac[4] >= 53u8));
            assert(frac_acc * pow10((4 - taken) as nat) == frac_acc) by {
                assert(pow10((4 - taken) as nat) == 1);
                vstd::arithmetic::mul::lemma_mul_basics(frac_acc as int);
            }
        } else {
            assert(taken == frac.len());
            assert(s@.subrange(frac_start as int, frac_start + taken) =~= frac);
            assert(frac_acc == digits_val(frac));
            assert(!round_up);
        }
    }
    // zero-pad the fraction to four digits
    while taken < 4
        invariant
            taken <= 4,
            0 <= frac_acc < pow10(taken as nat),
            frac_acc * pow10((4 - taken) as nat) == frac_units(frac_digits(s@)) - (if round_up {
                1int
            } else {
                0int
            }),
        decreases 4 - taken,
    {
        proof {
            assert(pow10(4) == 10000) by {
                reveal_with_fuel(pow10, 5);
            }
            lemma_pow10_increases(taken as nat, 4);
            lemma_pow10_positive((4 - taken) as nat);
            let rem = (4 - (taken + 1)) as nat;
            assert(pow10((4 - taken) as nat) == 10 * pow10(rem));
            assert((frac_acc * 10) * pow10(rem) == frac_acc * (10 * pow10(rem)))
                by (nonlinear_arith);
            assert(frac_acc * 10 < pow10((taken + 1) as nat)) by {
                assert(pow10((taken + 1) as nat) == 10 * pow10(taken as nat));
            }
            assert(frac_acc * 10 <= 10000) by {
                lemma_pow10_increases((taken + 1) as nat, 4);
            }
        }
        frac_acc = frac_acc * 10;
        taken = taken + 1;
    }
    proof {
        assert(frac_acc * pow10((4 - taken) as nat) == frac_acc) by {
            assert(pow10((4 - taken) as nat) == 1);
            vstd::arithmetic::mul::lemma_mul_basics(frac_acc as int);
        }
        assert(frac_acc == frac_units(frac_digits(s@)) - (if round_up {
            1int
        } else {
            0int
        }));
        lemma_digits_val_bounds(int_digits(s@));
        lemma_pow10_increases(int_digits(s@).len(), 15);
        assert(pow10(15) == 1_000_000_000_000_000) by {
            reveal_with_fuel(pow10, 16);
        }
    }
    let units = int_acc * UNITS_PER_WHOLE + frac_acc + (if round_up {
        1u64
    } else {
        0u64
    });
    Some(units)
}

/// The decimal digits of `n`, most significant first.
pub open spec fn dec_digits(n: nat) -> Seq<u8>
    decreases n,
{
    if n < 10 {
        seq![(48 + n) as u8]
    } else {
        dec_digits(n / 10).push((48 + n % 10) as u8)
    }
}

/// `s` without its trailing zero digits, but never shorter than one digit.
pub open spec fn trim_trailing_zeros(s: Seq<u8>) -> Seq<u8>
    decreases s.len(),
{
    if s.len() <= 1 || s.last() != 48u8 {
        s
    } else {
        trim_trailing_zeros(s.drop_last())
    }
}

/// Exactly four fractional digits, zero padded.
pub open spec fn frac4_digits(f: nat) -> Seq<u8> {
    seq![
        (48 + (f / 1000) % 10) as u8,
        (48 + (f / 100) % 10) as u8,
        (48 + (f / 10) % 10) as u8,
        (48 + f % 10) as u8,
    ]
}

/// How a balance of `v` units reads in the report: a sign when negative, the
/// whole units, a dot, and the fractional digits with trailing zeros
/// trimmed, one digit at least.
pub open spec fn rendered_amount(v: int) -> Seq<u8> {
    let m = if v < 0 {
        -v
    } else {
        v
    };
    let sign: Seq<u8> = if v < 0 {
        seq![45u8]
    } else {
        Seq::empty()
    };
    sign + dec_digits((m / (UNITS_PER_WHOLE as int)) as nat) + seq![46u8]
        + trim_trailing_zeros(frac4_digits((m % (UNITS_PER_WHOLE as int)) as nat),
    )
}

/// Writes a balance as the report shows it: four exact fractional digits
/// with trailing zeros trimmed, so `20000` units read `2.0` and `22342`
/// units read `2.2342`.
pub fn render_amount(units: i128) -> (r: Vec<u8>)
    requires
        -MAX_BALANCE <= units <= MAX_BALANCE,
    ensures
        r@ == rendered_amount(units as int),
{
    let mut out: Vec<u8> = Vec::new();
    let m: i128 = if units < 0 {
        out.push(45);
        -units
    } else {
        units
    };
    let ghost sign_part = out@;
    let whole: i128 = m / (UNITS_PER_WHOLE as i128);
    let frac: i128 = m % (UNITS_PER_WHOLE as i128);
    // digits of the whole part, least significant first
    let mut rev: Vec<u8> = Vec::new();
    let mut w: i128 = whole;
    rev.push(48 + (w % 10) as u8);
    w = w / 10;
    proof {
        if whole < 10 {
            assert(dec_digits(whole as nat) =~= rev@.reverse());
        } else {
            assert(rev@.reverse() =~= seq![(48 + (whole as nat) % 10) as u8]);
        }
    }
    while w > 0
        invariant
            0 <= w <= whole,
            dec_digits(whole as nat) == (if w > 0 {
                dec_digits(w as nat)
            } else {
                Seq::<u8>::empty()
            }) + rev@.reverse(),
        decreases w,
    {
        let ghost prev = rev@;
        rev.push(48 + (w % 10) as u8);
        proof {
            assert(rev@.reverse() =~= seq![(48 + (w as nat) % 10) as u8] + prev.reverse());
            if w >= 10 {
                assert(dec_digits(w as nat) == dec_digits((w as nat) / 10).push(
                    (48 + (w as nat) % 10) as u8,
                ));
                assert(dec_digits((w as nat) / 10) + rev@.reverse() =~= dec_digits(w as nat)
                    + prev.reverse());
            } else {
                assert(dec_digits(w as nat) =~= seq![(48 + (w as nat) % 10) as u8]);
                assert(rev@.reverse() =~= dec_digits(w as nat) + prev.reverse());
            }
        }
        w = w / 10;
    }
    // emit them most significant first
    let digits_len = rev.len();
    let mut idx: usize = 0;
    proof {
        assert(dec_digits(whole as nat) == rev@.reverse());
        assert(rev@.reverse().len() == digits_len);
    }
    while idx < digits_len
        invariant
            idx <= digits_len == rev@.len(),
            dec_digits(whole as nat) == rev@.reverse(),
            out@ == sign_part + rev@.reverse().take(idx as int),
        decreases digits_len - idx,
    {
        out.push(rev[digits_len - 1 - idx]);
        proof {
            assert(rev@.reverse()[idx as int] == rev@[digits_len - 1 - idx]);
            assert(rev@.reverse().take(idx + 1) =~= rev@.reverse().take(idx as int).push(
                rev@[digits_len - 1 - idx],
            ));
            assert(out@ =~= sign_part + rev@.reverse().take(idx + 1));
        }
        idx = idx + 1;
    }
    proof {
        assert(rev@.reverse().take(digits_len as int) =~= rev@.reverse());
    }
    out.push(46);
    let ghost head = out@;
    proof {
        assert(head =~= sign_part + dec_digits(whole as nat) + seq![46u8]);
    }
    // the four fractional digits, then trim trailing zeros
    out.push(48 + ((frac / 1000) % 10) as u8);
    out.push(48 + ((frac / 100) % 10) as u8);
    out.push(48 + ((frac / 10) % 10) as u8);
    out.push(48 + (frac % 10) as u8);
    let ghost mut cur = frac4_digits(frac as nat);
    proof {
        assert(out@ =~= head + cur);
    }
    let min_len = out.len() - 3;
    while out.len() > min_len && *out.last().unwrap() == 48
        invariant
            min_len == head.len() + 1,
            out@ == head + cur,
            1 <= cur.len() <= 4,
            out@.len() == head.len() + cur.len(),
            trim_trailing_zeros(cur) == trim_trailing_zeros(frac4_digits(frac as nat)),
        decreases out@.len(),
    {
        proof {
            assert(cur.last() == out@.last());
            assert(trim_trailing_zeros(cur) == trim_trailing_zeros(cur.drop_last()));
        }
        out.pop();
        proof {
            cur = cur.drop_last();
            assert(out@ =~= head + cur);
        }
    }
    proof {
        assert(cur.len() == 1 || cur.last() != 48u8);
        assert(trim_trailing_zeros(cur) == cur);
        assert(out@ =~= rendered_amount(units as int));
    }
    out
}

} // verus!
