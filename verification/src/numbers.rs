//! Decimal rendering and parsing of unsigned values, used by the record
//! file format for lengths, counts and identifiers.
use vstd::prelude::*;

verus! {

/// The digit character for a value below ten.
pub open spec fn digit_char(d: nat) -> char {
    if d == 0 {
        '0'
    } else if d == 1 {
        '1'
    } else if d == 2 {
        '2'
    } else if d == 3 {
        '3'
    } else if d == 4 {
        '4'
    } else if d == 5 {
        '5'
    } else if d == 6 {
        '6'
    } else if d == 7 {
        '7'
    } else if d == 8 {
        '8'
    } else {
        '9'
    }
}

pub open spec fn is_digit(c: char) -> bool {
    48 <= c as u32 && c as u32 <= 57
}

pub open spec fn digit_val(c: char) -> nat {
    (c as u32 - 48) as nat
}

pub proof fn lemma_digit_char_val(d: nat)
    requires
        d < 10,
    ensures
        is_digit(digit_char(d)),
        digit_val(digit_char(d)) == d,
{
}

/// The decimal rendering of `n`, most significant digit first, no sign,
/// no leading zero (except for `n == 0` itself).
pub open spec fn dec_spec(n: nat) -> Seq<char>
    decreases n,
{
    if n < 10 {
        seq![digit_char(n)]
    } else {
        dec_spec(n / 10).push(digit_char(n % 10))
    }
}

proof fn lemma_dec_spec_digits(n: nat)
    ensures
        dec_spec(n).len() >= 1,
        forall|k: int| 0 <= k < dec_spec(n).len() ==> is_digit(#[trigger] dec_spec(n)[k]),
    decreases n,
{
    if n < 10 {
        lemma_digit_char_val(n);
    } else {
        lemma_dec_spec_digits(n / 10);
        lemma_digit_char_val(n % 10);
    }
}

pub open spec fn pow10(k: nat) -> nat
    decreases k,
{
    if k == 0 {
        1
    } else {
        10 * pow10((k - 1) as nat)
    }
}

/// Greedy digit accumulation from position `i`: consumes digits while the
/// accumulated value stays within `max`, and reports where it stopped.
pub open spec fn parse_dec_rec(s: Seq<char>, i: int, acc: nat, max: nat) -> (nat, int)
    decreases s.len() - i,
{
    if 0 <= i < s.len() && is_digit(s[i]) && acc * 10 + digit_val(s[i]) <= max {
        parse_dec_rec(s, i + 1, acc * 10 + digit_val(s[i]), max)
    } else {
        (acc, i)
    }
}

/// A decimal number at position `i` of `s`, of value at most `max`:
/// at least one digit, taken greedily. A value that would pass `max`
/// stops the number early, so the surrounding format fails on the
/// digit that follows.
pub open spec fn parse_dec(s: Seq<char>, i: int, max: nat) -> Option<(nat, int)> {
    if 0 <= i < s.len() && is_digit(s[i]) {
        Some(parse_dec_rec(s, i, 0, max))
    } else {
        None
    }
}

proof fn lemma_parse_dec_rec_of(s: Seq<char>, i: int, acc: nat, n: nat, max: nat)
    requires
        0 <= i,
        i + dec_spec(n).len() <= s.len(),
        s.subrange(i, i + dec_spec(n).len() as int) == dec_spec(n),
        acc * pow10(dec_spec(n).len()) + n <= max,
    ensures
        parse_dec_rec(s, i, acc, max) == parse_dec_rec(
            s,
            i + dec_spec(n).len() as int,
            acc * pow10(dec_spec(n).len()) + n,
            max,
        ),
    decreases n,
{
    lemma_digit_char_val(n % 10);
    if n < 10 {
        assert(s[i] == dec_spec(n)[0]);
        lemma_digit_char_val(n);
        assert(acc * pow10(1) == acc * 10) by {
            assert(pow10(0) == 1);
            assert(pow10(1) == 10);
        }
        assert(parse_dec_rec(s, i, acc, max) == parse_dec_rec(s, i + 1, acc * 10 + n, max));
    } else {
        let l = dec_spec(n / 10).len() as int;
        assert(dec_spec(n) == dec_spec(n / 10).push(digit_char(n % 10)));
        assert(s.subrange(i, i + l) == dec_spec(n / 10)) by {
            assert(s.subrange(i, i + l) =~= s.subrange(i, i + l + 1).subrange(0, l));
        }
        let mid = acc * pow10(l as nat) + n / 10;
        assert(10 * mid + n % 10 == acc * pow10((l + 1) as nat) + n) by {
            assert(pow10((l + 1) as nat) == 10 * pow10(l as nat));
            assert(10 * (acc * pow10(l as nat)) == acc * (10 * pow10(l as nat)))
                by (nonlinear_arith);
            assert(10 * (n / 10) + n % 10 == n);
        }
        assert(mid <= max) by {
            assert(mid <= 10 * mid + n % 10) by (nonlinear_arith);
        }
        lemma_parse_dec_rec_of(s, i, acc, n / 10, max);
        assert(s[i + l] == dec_spec(n)[l]);
        assert(parse_dec_rec(s, i + l, mid, max) == parse_dec_rec(
            s,
            i + l + 1,
            mid * 10 + n % 10,
            max,
        ));
        assert(mid * 10 + n % 10 == 10 * mid + n % 10) by (nonlinear_arith);
    }
}

/// Parsing reads back exactly what `dec_spec` wrote, when the character
/// after it (if any) is not a digit.
pub proof fn lemma_parse_dec_of(s: Seq<char>, i: int, n: nat, max: nat)
    requires
        0 <= i,
        i + dec_spec(n).len() <= s.len(),
        s.subrange(i, i + dec_spec(n).len() as int) == dec_spec(n),
        i + dec_spec(n).len() == s.len() || !is_digit(s[i + dec_spec(n).len()]),
        n <= max,
    ensures
        parse_dec(s, i, max) == Some((n, i + dec_spec(n).len() as int)),
{
    lemma_dec_spec_digits(n);
    assert(s[i] == dec_spec(n)[0]);
    assert(0 * pow10(dec_spec(n).len()) + n <= max) by (nonlinear_arith)
        requires
            n <= max,
    ;
    lemma_parse_dec_rec_of(s, i, 0, n, max);
    assert(0 * pow10(dec_spec(n).len()) + n == n) by (nonlinear_arith);
}

fn digit_of(d: u128) -> (c: char)
    requires
        d < 10,
    ensures
        c == digit_char(d as nat),
{
    if d == 0 {
        '0'
    } else if d == 1 {
        '1'
    } else if d == 2 {
        '2'
    } else if d == 3 {
        '3'
    } else if d == 4 {
        '4'
    } else if d == 5 {
        '5'
    } else if d == 6 {
        '6'
    } else if d == 7 {
        '7'
    } else if d == 8 {
        '8'
    } else {
        '9'
    }
}

/// The decimal digits of `n`.
pub fn dec_of(n: u128) -> (r: Vec<char>)
    ensures
        r@ == dec_spec(n as nat),
    decreases n,
{
    if n < 10 {
        let mut v: Vec<char> = Vec::new();
        v.push(digit_of(n));
        proof {
            assert(v@ =~= dec_spec(n as nat));
        }
        v
    } else {
        let mut v = dec_of(n / 10);
        v.push(digit_of(n % 10));
        v
    }
}

/// Reads a decimal number at position `i`, greedily, stopping before the
/// accumulated value would pass `max`; `None` when no digit stands at `i`.
pub fn parse_dec_at(v: &Vec<char>, i: usize, max: u128) -> (r: Option<(u128, usize)>)
    requires
        i <= v@.len(),
        max >= 9,
    ensures
        match r {
            Some((val, j)) => parse_dec(v@, i as int, max as nat) == Some((val as nat, j as int))
                && i <= j <= v@.len() && val <= max,
            None => parse_dec(v@, i as int, max as nat) is None,
        },
{
    if i == v.len() {
        return None;
    }
    let c0 = v[i];
    let u0 = c0 as u32;
    if !(48 <= u0 && u0 <= 57) {
        return None;
    }
    let mut acc: u128 = 0;
    let mut j: usize = i;
    loop
        invariant
            i <= j <= v@.len(),
            acc <= max,
            max >= 9,
            parse_dec_rec(v@, i as int, 0, max as nat) == parse_dec_rec(
                v@,
                j as int,
                acc as nat,
                max as nat,
            ),
        ensures
            i <= j <= v@.len(),
            acc <= max,
            parse_dec_rec(v@, i as int, 0, max as nat) == (acc as nat, j as int),
        decreases v@.len() - j,
    {
        if j == v.len() {
            break;
        }
        let c = v[j];
        let u = c as u32;
        if !(48 <= u && u <= 57) {
            break;
        }
        let d = (u - 48) as u128;
        // acc * 10 + d <= max, tested without overflow
        if !(acc <= (max - d) / 10) {
            proof {
                assert(!(acc as nat * 10 + d as nat <= max as nat)) by (nonlinear_arith)
                    requires
                        d <= max,
                        acc > (max - d) / 10,
                ;
            }
            break;
        }
        proof {
            assert(acc as nat * 10 + d as nat <= max as nat) by (nonlinear_arith)
                requires
                    d <= max,
                    acc <= (max - d) / 10,
            ;
        }
        acc = acc * 10 + d;
        j = j + 1;
    }
    Some((acc, j))
}

} // verus!
