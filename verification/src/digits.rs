//! Specification-level theory of decimal digit strings.
//!
//! The byte codec renders the numeric domains (signed 64-bit integers,
//! arbitrary-precision integers and decimals) as decimal character strings.
//! This module defines what such strings denote and proves the arithmetic
//! facts the codec and the write operators need.

use vstd::prelude::*;

verus! {

/// True when `c` is an ASCII decimal digit.
pub open spec fn is_digit(c: char) -> bool {
    '0' <= c && c <= '9'
}

/// Numeric value of a single decimal digit.
pub open spec fn digit_val(c: char) -> int
    recommends
        is_digit(c),
{
    (c as u32) as int - ('0' as u32) as int
}

/// True when every character of `s` is a decimal digit.
pub open spec fn all_digits(s: Seq<char>) -> bool {
    forall|i: int| 0 <= i < s.len() ==> is_digit(#[trigger] s[i])
}

/// Value of an unsigned decimal digit string (most significant digit first).
pub open spec fn digits_val(s: Seq<char>) -> int
    recommends
        all_digits(s),
    decreases s.len(),
{
    if s.len() == 0 {
        0
    } else {
        10 * digits_val(s.drop_last()) + digit_val(s.last())
    }
}

/// True when `s` is a decimal integer literal: an optional leading minus
/// sign followed by at least one digit.
pub open spec fn is_int_chars(s: Seq<char>) -> bool {
    if s.len() == 0 {
        false
    } else if s[0] == '-' {
        s.len() >= 2 && all_digits(s.subrange(1, s.len() as int))
    } else {
        all_digits(s)
    }
}

/// Signed value denoted by a decimal integer literal.
pub open spec fn int_of(s: Seq<char>) -> int
    recommends
        is_int_chars(s),
{
    if s.len() > 0 && s[0] == '-' {
        -digits_val(s.subrange(1, s.len() as int))
    } else {
        digits_val(s)
    }
}

/// Ten to the power `n`.
pub open spec fn pow10(n: nat) -> int
    decreases n,
{
    if n == 0 {
        1
    } else {
        10 * pow10((n - 1) as nat)
    }
}

/// The digit character for a value below ten.
pub open spec fn digit_char(d: int) -> char
    recommends
        0 <= d <= 9,
{
    if d == 0 {
        '0'
    } else if d == 1 {
        '1'
    } else if d == 2 {
        '2'
    } else if d == 3 {
        '3'
    } else if d == 4 {
        '4'
    } else if d == 5 {
        '5'
    } else if d == 6 {
        '6'
    } else if d == 7 {
        '7'
    } else if d == 8 {
        '8'
    } else {
        '9'
    }
}

/// Canonical digit string of a non-negative integer: no leading zeros
/// except for the single digit `0` itself.
pub open spec fn digits_of(n: int) -> Seq<char>
    recommends
        n >= 0,
    decreases n,
{
    if n < 10 {
        seq![digit_char(n)]
    } else {
        digits_of(n / 10).push(digit_char(n % 10))
    }
}

/// Index of the first occurrence of `c` in `s`, or `-1` when absent.
pub open spec fn first_occurrence(s: Seq<char>, c: char) -> int
    decreases s.len(),
{
    if s.len() == 0 {
        -1
    } else if s[0] == c {
        0
    } else {
        let r = first_occurrence(s.drop_first(), c);
        if r < 0 {
            -1
        } else {
            r + 1
        }
    }
}


/// A digit string that starts with a nonzero digit denotes at least
/// `pow10(len - 1)`.
pub proof fn lemma_digits_val_lower(s: Seq<char>)
    requires
        all_digits(s),
        s.len() > 0,
        s[0] != '0',
    ensures
        digits_val(s) >= pow10((s.len() - 1) as nat),
    decreases s.len(),
{
    if s.len() == 1 {
        assert(digits_val(s.drop_last()) == 0);
    } else {
        assert(all_digits(s.drop_last()));
        assert(s.drop_last()[0] == s[0]);
        lemma_digits_val_lower(s.drop_last());
        lemma_digit_val_bounds(s.last());
    }
}

pub proof fn lemma_digit_val_bounds(c: char)
    requires
        is_digit(c),
    ensures
        0 <= digit_val(c) <= 9,
{
}

/// Concatenating digit strings multiplies the prefix by a power of ten.
pub proof fn lemma_digits_val_concat(s: Seq<char>, t: Seq<char>)
    requires
        all_digits(s),
        all_digits(t),
    ensures
        digits_val(s + t) == digits_val(s) * pow10(t.len()) + digits_val(t),
    decreases t.len(),
{
    if t.len() == 0 {
        assert(s + t =~= s);
    } else {
        assert(all_digits(t.drop_last()));
        lemma_digits_val_concat(s, t.drop_last());
        assert((s + t).drop_last() =~= s + t.drop_last());
        assert((s + t).last() == t.last());
        assert(digits_val(s + t) == 10 * digits_val(s + t.drop_last()) + digit_val(t.last()));
        let ds = digits_val(s);
        let dp = digits_val(t.drop_last());
        let p = pow10(t.drop_last().len());
        assert(pow10(t.len()) == 10 * p);
        assert(10 * (ds * p + dp) == ds * (10 * p) + 10 * dp) by (nonlinear_arith);
    }
}

/// Leading zeros do not change the value of a digit string.
pub proof fn lemma_digits_val_leading_zeros(s: Seq<char>, k: int)
    requires
        all_digits(s),
        0 <= k <= s.len(),
        forall|i: int| 0 <= i < k ==> s[i] == '0',
    ensures
        digits_val(s) == digits_val(s.subrange(k, s.len() as int)),
{
    let z = s.subrange(0, k);
    let t = s.subrange(k, s.len() as int);
    assert(s =~= z + t);
    assert(all_digits(z));
    assert(all_digits(t));
    lemma_digits_val_concat(z, t);
    lemma_zero_digits_val(z);
}

pub proof fn lemma_zero_digits_val(s: Seq<char>)
    requires
        forall|i: int| 0 <= i < s.len() ==> s[i] == '0',
    ensures
        digits_val(s) == 0,
    decreases s.len(),
{
    if s.len() > 0 {
        lemma_zero_digits_val(s.drop_last());
    }
}

pub proof fn lemma_pow10_pos(n: nat)
    ensures
        pow10(n) >= 1,
    decreases n,
{
    if n > 0 {
        lemma_pow10_pos((n - 1) as nat);
    }
}

pub proof fn lemma_pow10_mono(a: nat, b: nat)
    requires
        a <= b,
    ensures
        pow10(a) <= pow10(b),
    decreases b,
{
    if a < b {
        lemma_pow10_mono(a, (b - 1) as nat);
        lemma_pow10_pos((b - 1) as nat);
    }
}

/// `digits_of` produces digits that denote the original value, without
/// leading zeros (except for zero itself).
pub proof fn lemma_digits_of_val(n: int)
    requires
        n >= 0,
    ensures
        all_digits(digits_of(n)),
        digits_val(digits_of(n)) == n,
        digits_of(n).len() >= 1,
        n > 0 ==> digits_of(n)[0] != '0',
        n == 0 ==> digits_of(n) =~= seq!['0'],
    decreases n,
{
    if n < 10 {
        let s = digits_of(n);
        assert(s =~= seq![digit_char(n)]);
        assert(s.drop_last() =~= Seq::<char>::empty());
        assert(digits_val(s) == 10 * digits_val(s.drop_last()) + digit_val(digit_char(n)));
    } else {
        lemma_digits_of_val(n / 10);
        let p = digits_of(n / 10);
        let s = digits_of(n);
        assert(s =~= p.push(digit_char(n % 10)));
        assert(s.drop_last() =~= p);
        assert(s.last() == digit_char(n % 10));
        assert(digit_val(digit_char(n % 10)) == n % 10);
        assert(digits_val(s) == 10 * (n / 10) + n % 10);
        assert(s[0] == p[0]);
    }
}

/// Characterisation of `first_occurrence`: when non-negative it is the
/// position of the first `c`; when negative, `c` does not occur.
pub proof fn lemma_first_occurrence(s: Seq<char>, c: char)
    ensures
        first_occurrence(s, c) >= 0 ==> {
            &&& first_occurrence(s, c) < s.len()
            &&& s[first_occurrence(s, c)] == c
            &&& forall|i: int| 0 <= i < first_occurrence(s, c) ==> s[i] != c
        },
        first_occurrence(s, c) < 0 ==> forall|i: int| 0 <= i < s.len() ==> s[i] != c,
    decreases s.len(),
{
    if s.len() > 0 && s[0] != c {
        let t = s.drop_first();
        lemma_first_occurrence(t, c);
        assert(forall|i: int| 0 <= i < t.len() ==> t[i] == s[i + 1]);
        let rt = first_occurrence(t, c);
        if rt >= 0 {
            assert(s[rt + 1] == t[rt]);
            assert(forall|i: int| 1 <= i < rt + 1 ==> s[i] == t[i - 1] && t[i - 1] != c);
        } else {
            assert(forall|i: int| 1 <= i < s.len() ==> s[i] == t[i - 1] && t[i - 1] != c);
        }
    }
}

/// `first_occurrence` finds exactly the first position that holds `c`.
pub proof fn lemma_first_occurrence_at(s: Seq<char>, c: char, p: int)
    requires
        0 <= p < s.len(),
        s[p] == c,
        forall|i: int| 0 <= i < p ==> s[i] != c,
    ensures
        first_occurrence(s, c) == p,
    decreases s.len(),
{
    if p > 0 {
        assert(s[0] != c);
        assert(s.drop_first()[p - 1] == c);
        assert(forall|i: int| 0 <= i < p - 1 ==> s.drop_first()[i] != c);
        lemma_first_occurrence_at(s.drop_first(), c, p - 1);
    }
}

/// When `c` does not occur in `s`, `first_occurrence` reports `-1`.
pub proof fn lemma_first_occurrence_none(s: Seq<char>, c: char)
    requires
        forall|i: int| 0 <= i < s.len() ==> s[i] != c,
    ensures
        first_occurrence(s, c) == -1,
    decreases s.len(),
{
    if s.len() > 0 {
        lemma_first_occurrence_none(s.drop_first(), c);
    }
}

} // verus!
