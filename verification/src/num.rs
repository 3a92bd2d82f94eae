//! Decimal digit strings: their integer value, a verified `u8` parser,
//! and the exact scaling of a decimal fraction by 255.
use vstd::prelude::*;

use vstd::arithmetic::div_mod::lemma_fundamental_div_mod;
use vstd::arithmetic::div_mod::lemma_fundamental_div_mod_converse;
use vstd::arithmetic::div_mod::lemma_mod_bound;
use vstd::arithmetic::div_mod::lemma_multiply_divide_lt;

use crate::color::NumError;

verus! {

/// The character is one of `0` through `9`.
pub open spec fn is_dec_digit(c: char) -> bool {
    48 <= c as int <= 57
}

/// The numeric value of a decimal digit character.
pub open spec fn digit_val(c: char) -> int {
    c as int - 48
}

pub open spec fn all_dec_digits(s: Seq<char>) -> bool {
    forall|i: int| 0 <= i < s.len() ==> is_dec_digit(#[trigger] s[i])
}

/// The value of a digit string read as a decimal numeral.
pub open spec fn dec_val(s: Seq<char>) -> int
    decreases s.len(),
{
    if s.len() == 0 {
        0
    } else {
        10 * dec_val(s.drop_last()) + digit_val(s.last())
    }
}

pub open spec fn pow10(k: nat) -> int
    decreases k,
{
    if k == 0 {
        1
    } else {
        10 * pow10((k - 1) as nat)
    }
}

/// The digits of a field after at most one leading plus sign.
pub open spec fn digits_after_sign(s: Seq<char>) -> Seq<char> {
    if s.len() > 0 && s[0] == '+' {
        s.drop_first()
    } else {
        s
    }
}

/// What parsing a field as a decimal 8-bit integer yields: after an
/// optional leading plus sign, the value of the digits when every
/// character is a digit and the value fits, the reason otherwise.
pub open spec fn spec_dec_byte(s: Seq<char>) -> Result<u8, NumError> {
    let d = digits_after_sign(s);
    if s.len() == 0 {
        Err(NumError::Empty)
    } else if d.len() == 0 || !all_dec_digits(d) {
        Err(NumError::InvalidDigit)
    } else if dec_val(d) > 255 {
        Err(NumError::Overflow)
    } else {
        Ok(dec_val(d) as u8)
    }
}

pub proof fn lemma_pow10_pos(k: nat)
    ensures
        pow10(k) >= 1,
    decreases k,
{
    if k > 0 {
        lemma_pow10_pos((k - 1) as nat);
    }
}

pub proof fn lemma_pow10_add(a: nat, b: nat)
    ensures
        pow10(a + b) == pow10(a) * pow10(b),
    decreases b,
{
    if b == 0 {
    } else {
        lemma_pow10_add(a, (b - 1) as nat);
        assert(10 * (pow10(a) * pow10((b - 1) as nat)) == pow10(a) * (10 * pow10(
            (b - 1) as nat,
        ))) by (nonlinear_arith);
    }
}

pub proof fn lemma_pow10_mono(a: nat, b: nat)
    requires
        a <= b,
    ensures
        pow10(a) <= pow10(b),
{
    lemma_pow10_add(a, (b - a) as nat);
    lemma_pow10_pos(a);
    lemma_pow10_pos((b - a) as nat);
    assert(pow10(a) * 1 <= pow10(a) * pow10((b - a) as nat)) by (nonlinear_arith)
        requires
            pow10(a) >= 1,
            pow10((b - a) as nat) >= 1,
    ;
}

pub proof fn lemma_all_dec_digits_drop_last(s: Seq<char>)
    requires
        all_dec_digits(s),
        s.len() > 0,
    ensures
        all_dec_digits(s.drop_last()),
{
    assert forall|i: int| 0 <= i < s.drop_last().len() implies is_dec_digit(
        #[trigger] s.drop_last()[i],
    ) by {
        assert(s.drop_last()[i] == s[i]);
    }
}

/// A string of k digits has a value below 10^k.
pub proof fn lemma_dec_val_bounds(s: Seq<char>)
    requires
        all_dec_digits(s),
    ensures
        0 <= dec_val(s) < pow10(s.len()),
    decreases s.len(),
{
    if s.len() > 0 {
        lemma_all_dec_digits_drop_last(s);
        lemma_dec_val_bounds(s.drop_last());
        assert(is_dec_digit(s[s.len() - 1]));
        assert(pow10(s.len()) == 10 * pow10((s.len() - 1) as nat));
    }
}

/// Cutting a digit string at position i splits its value positionally.
pub proof fn lemma_dec_val_split(s: Seq<char>, i: int)
    requires
        0 <= i <= s.len(),
    ensures
        dec_val(s) == dec_val(s.take(i)) * pow10((s.len() - i) as nat) + dec_val(s.skip(i)),
    decreases s.len() - i,
{
    if i == s.len() {
        assert(s.take(i) =~= s);
        assert(s.skip(i) =~= Seq::<char>::empty());
        assert(pow10((s.len() - i) as nat) == 1);
        assert(dec_val(s.skip(i)) == 0);
    } else {
        lemma_dec_val_split(s.drop_last(), i);
        assert(s.drop_last().take(i) =~= s.take(i));
        assert(s.drop_last().skip(i) =~= s.skip(i).drop_last());
        assert(s.skip(i).last() == s.last());
        let t = dec_val(s.take(i));
        let p1 = pow10((s.len() - i - 1) as nat);
        assert(pow10((s.len() - i) as nat) == 10 * p1);
        assert(10 * (t * p1) == t * (10 * p1)) by (nonlinear_arith);
        assert(dec_val(s.skip(i)) == 10 * dec_val(s.skip(i).drop_last()) + digit_val(s.last()));
        assert(dec_val(s) == 10 * dec_val(s.drop_last()) + digit_val(s.last()));
        assert(dec_val(s.drop_last()) == t * p1 + dec_val(s.skip(i).drop_last()));
        assert(dec_val(s) == t * (10 * p1) + dec_val(s.skip(i)));
    }
}

/// A digit string has value zero exactly when every digit is zero.
pub proof fn lemma_dec_val_zero(s: Seq<char>)
    requires
        all_dec_digits(s),
    ensures
        (dec_val(s) == 0) <==> (forall|i: int|
            0 <= i < s.len() ==> digit_val(#[trigger] s[i]) == 0),
    decreases s.len(),
{
    if s.len() > 0 {
        lemma_all_dec_digits_drop_last(s);
        lemma_dec_val_zero(s.drop_last());
        lemma_dec_val_bounds(s.drop_last());
        assert(is_dec_digit(s[s.len() - 1]));
        if dec_val(s) == 0 {
            assert forall|i: int| 0 <= i < s.len() implies digit_val(#[trigger] s[i]) == 0 by {
                if i < s.len() - 1 {
                    assert(s.drop_last()[i] == s[i]);
                    assert(digit_val(s.drop_last()[i]) == 0);
                }
            }
        }
        if forall|i: int| 0 <= i < s.len() ==> digit_val(#[trigger] s[i]) == 0 {
            assert forall|i: int| 0 <= i < s.drop_last().len() implies digit_val(
                #[trigger] s.drop_last()[i],
            ) == 0 by {
                assert(s.drop_last()[i] == s[i]);
            }
            assert(digit_val(s.last()) == 0);
        }
    }
}

/// One step of scaling a fraction: pulling the leading digit out of the
/// quotient `255 * value / 10^k`.
proof fn lemma_scale_step(d: int, r: int, p: int)
    requires
        0 <= d <= 9,
        0 <= r < p,
        1 <= p,
    ensures
        255 * (d * p + r) / (10 * p) == (255 * d + 255 * r / p) / 10,
{
    let q = 255 * r / p;
    let rem = 255 * r % p;
    lemma_fundamental_div_mod(255 * r, p);
    lemma_mod_bound(255 * r, p);
    let t = (255 * d + q) / 10;
    let u = (255 * d + q) % 10;
    lemma_fundamental_div_mod(255 * d + q, 10);
    lemma_mod_bound(255 * d + q, 10);
    assert(q >= 0) by {
        vstd::arithmetic::div_mod::lemma_div_pos_is_pos(255 * r, p);
    }
    assert(255 * (d * p + r) == t * (10 * p) + (u * p + rem)) by (nonlinear_arith)
        requires
            255 * r == p * q + rem,
            255 * d + q == 10 * t + u,
    ;
    assert(0 <= u * p + rem < 10 * p) by (nonlinear_arith)
        requires
            0 <= u <= 9,
            0 <= rem < p,
            p >= 1,
    ;
    lemma_fundamental_div_mod_converse(255 * (d * p + r), 10 * p, t, u * p + rem);
}

/// The integer part of a fraction of k decimal digits, scaled by 255:
/// `floor(255 * 0.(digits))`, computed exactly with a right-to-left carry.
pub(crate) fn scaled_frac_value(s: &str) -> (v: u8)
    requires
        all_dec_digits(s@),
    ensures
        v as int == 255 * dec_val(s@) / pow10(s@.len()),
{
    let n = s.unicode_len();
    let mut i: usize = n;
    let mut c: u32 = 0;
    proof {
        assert(s@.skip(n as int) =~= Seq::<char>::empty());
    }
    while i > 0
        invariant
            n == s@.len(),
            i <= n,
            all_dec_digits(s@),
            c as int == 255 * dec_val(s@.skip(i as int)) / pow10((n - i) as nat),
            c < 255,
        decreases i,
    {
        let ch = s.get_char(i - 1);
        let d: u32 = (ch as u32) - 48;
        proof {
            assert(is_dec_digit(s@[i - 1]));
        }
        let newc: u32 = (255 * d + c) / 10;
        proof {
            let suf = s@.skip(i as int);
            let suf1 = s@.skip(i - 1);
            assert(suf1.take(1) =~= seq![s@[i - 1]]);
            assert(suf1.skip(1) =~= suf);
            lemma_dec_val_split(suf1, 1);
            assert(dec_val(seq![s@[i - 1]]) == digit_val(s@[i - 1])) by {
                assert(seq![s@[i - 1]].drop_last() =~= Seq::<char>::empty());
                assert(dec_val(Seq::<char>::empty()) == 0);
                assert(seq![s@[i - 1]].last() == s@[i - 1]);
            }
            assert forall|j: int| 0 <= j < suf.len() implies is_dec_digit(#[trigger] suf[j]) by {
                assert(suf[j] == s@[i + j]);
            }
            lemma_dec_val_bounds(suf);
            let p = pow10((n - i) as nat);
            lemma_pow10_pos((n - i) as nat);
            lemma_scale_step(digit_val(s@[i - 1]), dec_val(suf), p);
            assert(pow10((n - (i - 1)) as nat) == 10 * p);
            assert(dec_val(suf1) == digit_val(s@[i - 1]) * p + dec_val(suf));
            assert forall|j: int| 0 <= j < suf1.len() implies is_dec_digit(
                #[trigger] suf1[j],
            ) by {
                assert(suf1[j] == s@[i - 1 + j]);
            }
            lemma_dec_val_bounds(suf1);
            assert(255 * dec_val(suf1) < (10 * p) * 255) by (nonlinear_arith)
                requires
                    dec_val(suf1) < 10 * p,
            ;
            lemma_multiply_divide_lt(255 * dec_val(suf1), 10 * p, 255);
        }
        c = newc;
        i -= 1;
    }
    proof {
        assert(s@.skip(0) =~= s@);
    }
    c as u8
}

/// Checks that every character of the string is a decimal digit.
pub(crate) fn check_digits(s: &str) -> (b: bool)
    ensures
        b == all_dec_digits(s@),
{
    let n = s.unicode_len();
    let mut i: usize = 0;
    while i < n
        invariant
            n == s@.len(),
            i <= n,
            forall|j: int| 0 <= j < i ==> is_dec_digit(#[trigger] s@[j]),
        decreases n - i,
    {
        let u = s.get_char(i) as u32;
        if u < 48 || u > 57 {
            assert(!is_dec_digit(s@[i as int]));
            return false;
        }
        i += 1;
    }
    true
}

/// Whether a digit string denotes a value of at least one.
pub(crate) fn has_nonzero_digit(s: &str) -> (b: bool)
    requires
        all_dec_digits(s@),
    ensures
        b == (dec_val(s@) >= 1),
{
    proof {
        lemma_dec_val_zero(s@);
        lemma_dec_val_bounds(s@);
    }
    let n = s.unicode_len();
    let mut i: usize = 0;
    while i < n
        invariant
            n == s@.len(),
            i <= n,
            all_dec_digits(s@),
            forall|j: int| 0 <= j < i ==> digit_val(#[trigger] s@[j]) == 0,
        decreases n - i,
    {
        let u = s.get_char(i) as u32;
        if u != 48 {
            proof {
                assert(is_dec_digit(s@[i as int]));
                lemma_dec_val_zero(s@);
                lemma_dec_val_bounds(s@);
            }
            return true;
        }
        i += 1;
    }
    proof {
        lemma_dec_val_zero(s@);
    }
    false
}

/// Parses a field as a decimal `u8`: after an optional leading plus
/// sign, the value of the digit string if every character is a digit and
/// the value is at most 255.
pub(crate) fn dec_byte_value(full: &str) -> (r: Result<u8, NumError>)
    ensures
        r == spec_dec_byte(full@),
{
    let ln = full.unicode_len();
    if ln == 0 {
        return Err(NumError::Empty);
    }
    let s: &str = if full.get_char(0) == '+' {
        full.substring_char(1, ln)
    } else {
        full
    };
    proof {
        if full@[0] == '+' {
            assert(full@.subrange(1, ln as int) =~= full@.drop_first());
        }
        assert(s@ == digits_after_sign(full@));
    }
    let n = s.unicode_len();
    if n == 0 {
        return Err(NumError::InvalidDigit);
    }
    let mut i: usize = 0;
    while i < n
        invariant
            s@ == digits_after_sign(full@),
            full@.len() > 0,
            1 <= n == s@.len(),
            i <= n,
            forall|j: int| 0 <= j < i ==> is_dec_digit(#[trigger] s@[j]),
        decreases n - i,
    {
        let ch = s.get_char(i);
        let u = ch as u32;
        if u < 48 || u > 57 {
            assert(!is_dec_digit(s@[i as int]));
            return Err(NumError::InvalidDigit);
        }
        i += 1;
    }
    assert(all_dec_digits(s@));
    let mut acc: u32 = 0;
    let mut j: usize = 0;
    proof {
        assert(s@.take(0) =~= Seq::<char>::empty());
    }
    while j < n
        invariant
            s@ == digits_after_sign(full@),
            full@.len() > 0,
            1 <= n == s@.len(),
            j <= n,
            all_dec_digits(s@),
            acc as int == dec_val(s@.take(j as int)),
            acc <= 255,
        decreases n - j,
    {
        let ch = s.get_char(j);
        let d = (ch as u32) - 48;
        proof {
            assert(is_dec_digit(s@[j as int]));
            assert(s@.take(j + 1).drop_last() =~= s@.take(j as int));
            assert(s@.take(j + 1).last() == s@[j as int]);
        }
        let newacc: u32 = acc * 10 + d;
        if newacc > 255 {
            proof {
                lemma_dec_val_split(s@, j + 1);
                assert forall|k: int| 0 <= k < s@.skip(j + 1).len() implies is_dec_digit(
                    #[trigger] s@.skip(j + 1)[k],
                ) by {
                    assert(s@.skip(j + 1)[k] == s@[j + 1 + k]);
                }
                lemma_dec_val_bounds(s@.skip(j + 1));
                lemma_pow10_pos((n - j - 1) as nat);
                assert(dec_val(s@.take(j + 1)) * pow10((n - j - 1) as nat) >= dec_val(
                    s@.take(j + 1),
                )) by (nonlinear_arith)
                    requires
                        pow10((n - j - 1) as nat) >= 1,
                        dec_val(s@.take(j + 1)) > 255,
                ;
            }
            return Err(NumError::Overflow);
        }
        acc = newacc;
        j += 1;
    }
    proof {
        assert(s@.take(n as int) =~= s@);
    }
    Ok(acc as u8)
}

} // verus!
