//! Writing integers as decimal text and reading them back, as `format!` and
//! `str::parse` / `from_str_radix` do for the integer types the editor uses.

use vstd::prelude::*;
use crate::strings::push_char;

verus! {

/// The character for a digit below 16, lower case (`0`..`9`, `a`..`f`).
pub open spec fn digit_char(d: nat) -> char {
    if d < 10 {
        (('0' as u32) + d) as char
    } else {
        (('a' as u32) + (d - 10)) as char
    }
}

/// The decimal representation of `n`, without sign or padding.
pub open spec fn decimal(n: nat) -> Seq<char>
    decreases n,
{
    if n < 10 {
        seq![digit_char(n)]
    } else {
        decimal(n / 10).push(digit_char(n % 10))
    }
}

/// How `{}` writes a signed integer.
pub open spec fn signed_decimal(n: int) -> Seq<char> {
    if n < 0 {
        seq!['-'] + decimal((-n) as nat)
    } else {
        decimal(n as nat)
    }
}

/// How `{:0w}` writes a non-negative integer: zeros on the left up to width `w`.
pub open spec fn zero_padded(n: nat, w: nat) -> Seq<char> {
    let d = decimal(n);
    if d.len() < w {
        Seq::new((w - d.len()) as nat, |_i: int| '0') + d
    } else {
        d
    }
}

fn digit(d: u64) -> (c: char)
    requires
        d < 10,
    ensures
        c == digit_char(d as nat),
{
    let b: u8 = (d as u8) + 48;
    b as char
}

/// Appends the decimal digits of `n`.
pub fn push_decimal(out: &mut String, n: u64)
    ensures
        final(out)@ == old(out)@ + decimal(n as nat),
    decreases n,
{
    if n >= 10 {
        push_decimal(out, n / 10);
    }
    push_char(out, digit(n % 10));
    proof {
        if n < 10 {
            assert(n % 10 == n);
        }
    }
}

fn digit_u128(d: u128) -> (c: char)
    requires
        d < 10,
    ensures
        c == digit_char(d as nat),
{
    let b: u8 = (d as u8) + 48;
    b as char
}

/// Appends the decimal digits of a `u128`.
pub fn push_decimal_u128(out: &mut String, n: u128)
    ensures
        final(out)@ == old(out)@ + decimal(n as nat),
    decreases n,
{
    if n >= 10 {
        push_decimal_u128(out, n / 10);
    }
    push_char(out, digit_u128(n % 10));
    proof {
        if n < 10 {
            assert(n % 10 == n);
        }
    }
}

/// `n.to_string()`.
pub fn decimal_string(n: u64) -> (r: String)
    ensures
        r@ == decimal(n as nat),
{
    let mut s = String::new();
    push_decimal(&mut s, n);
    s
}

/// Appends `n` as `{}` writes an `i32`.
pub fn push_i32(out: &mut String, n: i32)
    ensures
        final(out)@ == old(out)@ + signed_decimal(n as int),
{
    if n < 0 {
        push_char(out, '-');
        let m: u64 = (0i64 - (n as i64)) as u64;
        push_decimal(out, m);
        assert(old(out)@.push('-') + decimal(m as nat) == old(out)@ + (seq!['-'] + decimal(m as nat)));
    } else {
        push_decimal(out, n as u64);
    }
}

pub proof fn lemma_decimal_len(n: nat)
    ensures
        decimal(n).len() >= 1,
        n < 10 ==> decimal(n).len() == 1,
        n < 100 ==> decimal(n).len() <= 2,
    decreases n,
{
    if n >= 10 {
        lemma_decimal_len(n / 10);
    }
}

/// Appends `n` as `{:0w}` writes it.
pub fn push_zero_padded(out: &mut String, n: u64, w: usize)
    ensures
        final(out)@ == old(out)@ + zero_padded(n as nat, w as nat),
{
    let mut digits = String::new();
    push_decimal(&mut digits, n);
    let d = crate::strings::chars_of(digits.as_str());
    if d.len() < w {
        let pad = w - d.len();
        let mut i: usize = 0;
        while i < pad
            invariant
                i <= pad,
                out@ == old(out)@ + Seq::new(i as nat, |_j: int| '0'),
            decreases pad - i,
        {
            push_char(out, '0');
            assert(Seq::new(i as nat, |_j: int| '0').push('0') == Seq::new((i + 1) as nat, |_j: int| '0'));
            i += 1;
        }
    }
    crate::strings::push_seq(out, d.as_slice());
    assert(final(out)@ == old(out)@ + zero_padded(n as nat, w as nat));
}

/// The value of a digit character in the given radix (at most 16), or `None`.
pub open spec fn digit_value(c: char, radix: nat) -> Option<nat> {
    let v: int = if '0' <= c <= '9' {
        (c as u32) - ('0' as u32)
    } else if 'a' <= c <= 'z' {
        (c as u32) - ('a' as u32) + 10
    } else if 'A' <= c <= 'Z' {
        (c as u32) - ('A' as u32) + 10
    } else {
        -1
    };
    if 0 <= v < radix {
        Some(v as nat)
    } else {
        None
    }
}

pub open spec fn all_digits(s: Seq<char>, radix: nat) -> bool {
    forall|i: int| 0 <= i < s.len() ==> (#[trigger] digit_value(s[i], radix)) is Some
}

/// The number a run of digits spells.
pub open spec fn digits_value(s: Seq<char>, radix: nat) -> nat
    decreases s.len(),
{
    if s.len() == 0 {
        0
    } else {
        digits_value(s.drop_last(), radix) * radix + digit_value(s.last(), radix).unwrap_or(0)
    }
}

/// What `from_str_radix` (and, for radix 10, `str::parse`) gives for an
/// unsigned type whose largest value is `max`: an optional `+`, then at least
/// one digit, and a value that fits.
pub open spec fn parse_unsigned(s: Seq<char>, radix: nat, max: nat) -> Option<nat> {
    let body = if s.len() > 0 && s[0] == '+' { s.drop_first() } else { s };
    if body.len() > 0 && all_digits(body, radix) && digits_value(body, radix) <= max {
        Some(digits_value(body, radix))
    } else {
        None
    }
}

/// The same for a signed type: an optional `+` or `-`, at least one digit, and
/// a value within `min..=max`.
pub open spec fn parse_signed(s: Seq<char>, radix: nat, min: int, max: int) -> Option<int> {
    let neg = s.len() > 0 && s[0] == '-';
    let body = if s.len() > 0 && (s[0] == '+' || s[0] == '-') { s.drop_first() } else { s };
    let v: int = if neg { -digits_value(body, radix) } else { digits_value(body, radix) as int };
    if body.len() > 0 && all_digits(body, radix) && min <= v <= max {
        Some(v)
    } else {
        None
    }
}

proof fn lemma_digits_prefix(s: Seq<char>, radix: nat, i: int)
    requires
        0 <= i < s.len(),
    ensures
        digits_value(s.take(i + 1), radix) == digits_value(s.take(i), radix) * radix
            + digit_value(s[i], radix).unwrap_or(0),
{
    assert(s.take(i + 1).drop_last() == s.take(i));
}

/// A longer run of digits is worth at least as much as its prefix.
proof fn lemma_digits_monotone(s: Seq<char>, radix: nat, i: int)
    requires
        0 <= i <= s.len(),
        radix >= 1,
    ensures
        digits_value(s.take(i), radix) <= digits_value(s, radix),
    decreases s.len() - i,
{
    if i < s.len() {
        lemma_digits_prefix(s, radix, i);
        let a = digits_value(s.take(i), radix);
        assert(a * radix >= a) by (nonlinear_arith)
            requires
                radix >= 1,
        ;
        lemma_digits_monotone(s, radix, i + 1);
    } else {
        assert(s.take(i) == s);
    }
}

/// The digits of `s[lo..]` read in `radix`, if they all are digits and the
/// value stays at most `max`. `None` otherwise.
fn read_digits(s: &[char], lo: usize, radix: u32, max: u64) -> (r: Option<u64>)
    requires
        lo <= s@.len(),
        2 <= radix <= 16,
    ensures
        ({
            let body = s@.skip(lo as int);
            match r {
                Some(v) => all_digits(body, radix as nat) && v == digits_value(body, radix as nat)
                    && v <= max,
                None => !(all_digits(body, radix as nat) && digits_value(body, radix as nat) <= max),
            }
        }),
{
    let ghost body = s@.skip(lo as int);
    let n = s.len();
    let mut i = lo;
    let mut acc: u64 = 0;
    while i < n
        invariant
            n == s@.len(),
            lo <= i <= n,
            2 <= radix <= 16,
            body == s@.skip(lo as int),
            all_digits(body.take(i - lo), radix as nat),
            acc == digits_value(body.take(i - lo), radix as nat),
            acc <= max,
        decreases n - i,
    {
        let c = s[i];
        let d: u32 = if '0' <= c && c <= '9' {
            (c as u32) - 48
        } else if 'a' <= c && c <= 'z' {
            (c as u32) - 97 + 10
        } else if 'A' <= c && c <= 'Z' {
            (c as u32) - 65 + 10
        } else {
            99
        };
        assert(body[i - lo] == c);
        if d >= radix {
            assert(digit_value(body[i - lo], radix as nat) is None);
            return None;
        }
        assert(digit_value(c, radix as nat) == Some(d as nat));
        proof {
            lemma_digits_prefix(body, radix as nat, i - lo);
        }
        assert((acc as u128) * (radix as u128) <= 0xFFFF_FFFF_FFFF_FFFFu128 * 16) by (nonlinear_arith)
            requires
                acc <= 0xFFFF_FFFF_FFFF_FFFFu64,
                radix <= 16,
        ;
        let big: u128 = (acc as u128) * (radix as u128) + (d as u128);
        if big > max as u128 {
            proof {
                lemma_digits_monotone(body, radix as nat, i - lo + 1);
            }
            return None;
        }
        acc = big as u64;
        proof {
            assert forall|j: int| 0 <= j < i - lo + 1 implies
                (#[trigger] digit_value(body.take(i - lo + 1)[j], radix as nat)) is Some by {
                if j < i - lo {
                    assert(body.take(i - lo + 1)[j] == body.take(i - lo)[j]);
                }
            }
        }
        i += 1;
    }
    assert(body.take(n - lo) == body);
    Some(acc)
}

/// `u64::from_str_radix(s, radix)` (and `str::parse::<u64>` for radix 10),
/// with the largest accepted value given by `max` so that narrower unsigned
/// types can share it.
pub fn parse_unsigned_chars(s: &[char], radix: u32, max: u64) -> (r: Option<u64>)
    requires
        2 <= radix <= 16,
    ensures
        r matches Some(v) ==> parse_unsigned(s@, radix as nat, max as nat) == Some(v as nat),
        r is None ==> parse_unsigned(s@, radix as nat, max as nat) is None,
{
    let lo: usize = if s.len() > 0 && s[0] == '+' { 1 } else { 0 };
    if lo >= s.len() {
        return None;
    }
    proof {
        if lo == 1 {
            assert(s@.skip(1) == s@.drop_first());
        } else {
            assert(s@.skip(0) == s@);
        }
    }
    read_digits(s, lo, radix, max)
}

/// `i32::from_str` (`str::parse::<i32>`).
pub fn parse_i32_chars(s: &[char]) -> (r: Option<i32>)
    ensures
        r matches Some(v) ==> parse_signed(s@, 10, i32::MIN as int, i32::MAX as int) == Some(v as int),
        r is None ==> parse_signed(s@, 10, i32::MIN as int, i32::MAX as int) is None,
{
    let neg = s.len() > 0 && s[0] == '-';
    let lo: usize = if s.len() > 0 && (s[0] == '+' || s[0] == '-') { 1 } else { 0 };
    if lo >= s.len() {
        return None;
    }
    proof {
        if lo == 1 {
            assert(s@.skip(1) == s@.drop_first());
        } else {
            assert(s@.skip(0) == s@);
        }
    }
    let limit: u64 = if neg { 2147483648 } else { 2147483647 };
    match read_digits(s, lo, 10, limit) {
        Some(v) => {
            if neg {
                Some((0i64 - (v as i64)) as i32)
            } else {
                Some(v as i32)
            }
        },
        None => None,
    }
}

/// `2^k`.
pub open spec fn pow2(k: nat) -> nat
    decreases k,
{
    if k == 0 {
        1
    } else {
        2 * pow2((k - 1) as nat)
    }
}

/// How many binary digits `n` has.
pub open spec fn bit_len(n: nat) -> nat
    decreases n,
{
    if n == 0 {
        0
    } else {
        1 + bit_len(n / 2)
    }
}

/// `a / d` rounded to the nearest integer, a tie going to the even one: how
/// a float is rounded when it is written with a fixed number of decimals.
pub open spec fn round_div_even(a: nat, d: nat) -> nat
    recommends
        d > 0,
{
    let q = a / d;
    let r = a % d;
    if 2 * r > d {
        q + 1
    } else if 2 * r < d {
        q
    } else if q % 2 == 0 {
        q
    } else {
        q + 1
    }
}

/// The value of `n as f64`: `n` kept to 53 significant bits, rounded to the
/// nearest such value, a tie going to the one with an even last bit.
pub open spec fn f64_value(n: nat) -> nat {
    if bit_len(n) <= 53 {
        n
    } else {
        let unit = pow2((bit_len(n) - 53) as nat);
        round_div_even(n, unit) * unit
    }
}

proof fn lemma_pow2_positive(k: nat)
    ensures
        pow2(k) >= 1,
    decreases k,
{
    if k > 0 {
        lemma_pow2_positive((k - 1) as nat);
    }
}

proof fn lemma_bit_len_bound(n: nat)
    ensures
        n < pow2(bit_len(n)),
        n > 0 ==> pow2((bit_len(n) - 1) as nat) <= n,
    decreases n,
{
    if n > 0 {
        lemma_bit_len_bound(n / 2);
    }
}

/// `a / d` rounded to the nearest integer, ties to even.
pub fn round_div_even_u128(a: u128, d: u128) -> (r: u128)
    requires
        d > 0,
        a / d < u128::MAX,
    ensures
        r == round_div_even(a as nat, d as nat),
{
    let q = a / d;
    let rem = a % d;
    if rem > d - rem {
        q + 1
    } else if rem < d - rem {
        q
    } else if q % 2 == 0 {
        q
    } else {
        q + 1
    }
}

/// The value `n as f64` holds, exactly.
pub fn f64_value_of(n: u64) -> (r: u128)
    ensures
        r == f64_value(n as nat),
        r <= 0x1_0000_0000_0000_0000,
{
    let mut bits: u32 = 0;
    let mut m: u64 = n;
    proof {
        lemma_bit_len_u64(n);
    }
    while m > 0
        invariant
            bit_len(n as nat) == bits + bit_len(m as nat),
            bit_len(n as nat) <= 64,
        decreases m,
    {
        m = m / 2;
        bits = bits + 1;
    }
    proof {
        lemma_bit_len_bound(n as nat);
    }
    if bits <= 53 {
        proof {
            lemma_pow2_64();
        }
        return n as u128;
    }
    let shift = bits - 53;
    let mut unit: u128 = 1;
    let mut k: u32 = 0;
    while k < shift
        invariant
            k <= shift <= 11,
            unit == pow2(k as nat),
            unit <= 2048,
        decreases shift - k,
    {
        unit = unit * 2;
        k = k + 1;
        proof {
            lemma_pow2_small(k as nat);
        }
    }
    proof {
        lemma_pow2_positive(shift as nat);
        lemma_rounded_bound(n as nat, shift as nat);
        lemma_pow2_64();
    }
    let rounded = round_div_even_u128(n as u128, unit);
    rounded * unit
}

proof fn lemma_bit_len_u64(n: u64)
    ensures
        bit_len(n as nat) <= 64,
{
    lemma_bit_len_bound(n as nat);
    lemma_pow2_64();
    if bit_len(n as nat) > 64 {
        lemma_pow2_mono(64, (bit_len(n as nat) - 1) as nat);
    }
}

proof fn lemma_pow2_small(k: nat)
    requires
        k <= 11,
    ensures
        pow2(k) <= 2048,
{
    reveal_with_fuel(pow2, 12);
}

proof fn lemma_pow2_64()
    ensures
        pow2(64) == 0x1_0000_0000_0000_0000,
{
    reveal_with_fuel(pow2, 65);
}

/// Rounding to 53 significant bits stays within 64 bits' range.
#[verifier::spinoff_prover]
proof fn lemma_rounded_bound(n: nat, shift: nat)
    requires
        bit_len(n) == 53 + shift,
        bit_len(n) <= 64,
    ensures
        n / pow2(shift) < u128::MAX,
        round_div_even(n, pow2(shift)) * pow2(shift) <= pow2(64),
{
    let u = pow2(shift);
    let p = pow2(53);
    lemma_pow2_positive(shift);
    lemma_bit_len_bound(n);
    lemma_pow2_mul(53, shift);
    lemma_pow2_mono(53 + shift, 64);
    lemma_pow2_mono(53, 64);
    lemma_pow2_64();
    let q = n / u;
    assert(q < p) by (nonlinear_arith)
        requires
            n < p * u,
            q == n / u,
            u >= 1,
    ;
    let r = round_div_even(n, u);
    assert(r <= q + 1);
    assert(r * u <= p * u) by (nonlinear_arith)
        requires
            r <= p,
            u >= 1,
    ;
}

proof fn lemma_pow2_mul(a: nat, b: nat)
    ensures
        pow2(a + b) == pow2(a) * pow2(b),
    decreases a,
{
    if a > 0 {
        lemma_pow2_mul((a - 1) as nat, b);
        assert(pow2(a + b) == 2 * pow2((a + b - 1) as nat));
        assert((a + b - 1) as nat == ((a - 1) as nat + b) as nat);
        let x = pow2((a - 1) as nat);
        let y = pow2(b);
        assert(pow2(a) == 2 * x);
        assert(2 * (x * y) == (2 * x) * y) by (nonlinear_arith);
    } else {
        assert(pow2(0) == 1);
        assert(a + b == b);
    }
}

proof fn lemma_pow2_mono(a: nat, b: nat)
    requires
        a <= b,
    ensures
        pow2(a) <= pow2(b),
    decreases b - a,
{
    if a < b {
        lemma_pow2_mono(a, (b - 1) as nat);
        lemma_pow2_positive((b - 1) as nat);
    }
}

} // verus!

