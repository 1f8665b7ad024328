//! Decimal digit strings: their value, and the lemmas that the parsers of
//! this crate rest on.
use vstd::prelude::*;
use vstd::arithmetic::div_mod::*;
use vstd::arithmetic::mul::*;
use crate::text::push_char;

verus! {

/// An ASCII decimal digit.
pub open spec fn is_digit(c: char) -> bool {
    '0' <= c && c <= '9'
}

/// The value of an ASCII decimal digit.
pub open spec fn digit_value(c: char) -> nat {
    (c as int - '0' as int) as nat
}

/// Every character of `s` is an ASCII decimal digit.
pub open spec fn all_digits(s: Seq<char>) -> bool {
    forall|i: int| 0 <= i < s.len() ==> is_digit(#[trigger] s[i])
}

/// The value of a string of decimal digits, most significant first.
pub open spec fn digits_value(s: Seq<char>) -> nat
    decreases s.len(),
{
    if s.len() == 0 {
        0
    } else {
        digits_value(s.drop_last()) * 10 + digit_value(s.last())
    }
}

/// Ten to the power `n`.
pub open spec fn pow10(n: nat) -> nat
    decreases n,
{
    if n == 0 {
        1
    } else {
        10 * pow10((n - 1) as nat)
    }
}

pub proof fn lemma_pow10_positive(n: nat)
    ensures
        pow10(n) >= 1,
    decreases n,
{
    if n > 0 {
        lemma_pow10_positive((n - 1) as nat);
    }
}

pub proof fn lemma_pow10_add(a: nat, b: nat)
    ensures
        pow10(a + b) == pow10(a) * pow10(b),
    decreases b,
{
    if b > 0 {
        lemma_pow10_add(a, (b - 1) as nat);
        assert(pow10(a + b) == 10 * pow10((a + b - 1) as nat));
        assert((a + b - 1) as nat == a + (b - 1) as nat);
        let x = pow10(a) as int;
        let y = pow10((b - 1) as nat) as int;
        assert(10 * (x * y) == x * (10 * y)) by (nonlinear_arith);
        assert(pow10(b) == 10 * y);
    } else {
        assert(pow10(b) == 1);
        assert(a + b == a);
    }
}

/// Appending a digit multiplies the value by ten and adds the digit.
pub proof fn lemma_digits_value_push(s: Seq<char>, c: char)
    ensures
        digits_value(s.push(c)) == digits_value(s) * 10 + digit_value(c),
{
    assert(s.push(c).drop_last() =~= s);
}

/// The value of a concatenation of digit strings.
pub proof fn lemma_digits_value_concat(a: Seq<char>, b: Seq<char>)
    ensures
        digits_value(a + b) == digits_value(a) * pow10(b.len()) + digits_value(b),
    decreases b.len(),
{
    if b.len() == 0 {
        assert(a + b =~= a);
        assert(pow10(b.len()) == 1);
    } else {
        let b0 = b.drop_last();
        lemma_digits_value_concat(a, b0);
        assert((a + b).drop_last() =~= a + b0);
        assert((a + b).last() == b.last());
        let va = digits_value(a) as int;
        let p = pow10(b0.len()) as int;
        let vb = digits_value(b0) as int;
        assert((va * p + vb) * 10 + digit_value(b.last()) == va * (10 * p) + (vb * 10
            + digit_value(b.last()))) by (nonlinear_arith);
        assert(pow10(b.len()) == 10 * p);
        assert(digits_value(b) == vb * 10 + digit_value(b.last()));
    }
}

/// A string of `n` digits has a value below ten to the `n`.
pub proof fn lemma_digits_value_bound(s: Seq<char>)
    requires
        all_digits(s),
    ensures
        digits_value(s) < pow10(s.len()),
    decreases s.len(),
{
    if s.len() > 0 {
        let s0 = s.drop_last();
        assert(all_digits(s0)) by {
            assert forall|i: int| 0 <= i < s0.len() implies is_digit(#[trigger] s0[i]) by {
                assert(s0[i] == s[i]);
            }
        }
        lemma_digits_value_bound(s0);
        assert(is_digit(s[s.len() - 1]));
        assert(digit_value(s.last()) <= 9);
        assert(pow10(s.len()) == 10 * pow10(s0.len()));
    }
}

} // verus!

verus! {

/// The value of an ASCII decimal digit character.
pub fn digit_of(c: char) -> (d: u8)
    requires
        is_digit(c),
    ensures
        d == digit_value(c),
        d <= 9,
{
    ((c as u32) - ('0' as u32)) as u8
}

/// Whether `c` is an ASCII decimal digit.
pub fn char_is_digit(c: char) -> (b: bool)
    ensures
        b == is_digit(c),
{
    '0' <= c && c <= '9'
}

} // verus!

verus! {

pub proof fn lemma_pow10_monotone(a: nat, b: nat)
    requires
        a <= b,
    ensures
        pow10(a) <= pow10(b),
    decreases b - a,
{
    if a < b {
        lemma_pow10_monotone(a, (b - 1) as nat);
        lemma_pow10_positive((b - 1) as nat);
    }
}

/// The value of a one-digit string.
pub proof fn lemma_digits_value_single(c: char)
    ensures
        digits_value(seq![c]) == digit_value(c),
{
    let s = seq![c];
    assert(s.len() == 1);
    assert(s.drop_last() =~= Seq::<char>::empty());
    assert(s.last() == c);
    assert(digits_value(s) == digits_value(s.drop_last()) * 10 + digit_value(c));
}

/// `x / p` rounded to the nearest whole number, a tie going to the even one.
pub open spec fn round_half_even(x: nat, p: nat) -> nat {
    let q = x / p;
    let r = x % p;
    if 2 * r > p || (2 * r == p && q % 2 == 1) {
        q + 1
    } else {
        q
    }
}

/// The quotient and remainder of `x` by `p`, from any `q` and `r` with
/// `x == q * p + r` and `r < p`.
proof fn lemma_div_mod_of(x: nat, p: nat, q: nat, r: nat)
    requires
        p > 0,
        r < p,
        x == q * p + r,
    ensures
        x / p == q,
        x % p == r,
{
    lemma_fundamental_div_mod_converse(x as int, p as int, q as int, r as int);
}

/// Rounding `y / z` is unchanged when both are scaled by `s`.
pub proof fn lemma_round_scaled(y: nat, z: nat, s: nat)
    requires
        z > 0,
        s > 0,
    ensures
        round_half_even(y * s, z * s) == round_half_even(y, z),
{
    let q = y / z;
    let r = y % z;
    lemma_fundamental_div_mod(y as int, z as int);
    lemma_mod_bound(y as int, z as int);
    assert(y * s == q * (z * s) + r * s && r * s < z * s && z * s > 0) by (nonlinear_arith)
        requires
            y == z * q + r,
            r < z,
            s > 0,
            z > 0,
    ;
    lemma_div_mod_of(y * s, z * s, q, r * s);
    assert((2 * (r * s) > z * s) == (2 * r > z)) by (nonlinear_arith)
        requires
            s > 0,
    ;
    assert((2 * (r * s) == z * s) == (2 * r == z)) by (nonlinear_arith)
        requires
            s > 0,
    ;
}

/// Scaling a decimal number `v / 10^k` by `m * 10^a`, where `v` is split
/// at `e` digits from its end into a high part `h` and a low part `lo`:
/// either `e` is zero and `k <= a`, and the result is whole; or `e` is the
/// count of digits past the `a`-th after the point, and the rounding is
/// that of `h * m` and the low part over ten to the `e`.
pub proof fn lemma_scaled_value(v: nat, h: nat, lo: nat, e: nat, m: nat, a: nat, k: nat)
    requires
        v == h * pow10(e) + lo,
        lo < pow10(e),
        m > 0,
        (e == 0 && k <= a) || (e > 0 && a + e == k),
    ensures
        (e == 0 ==> round_half_even(v * (m * pow10(a)), pow10(k)) == h * (m * pow10(
            (a - k) as nat,
        ))),
        (e > 0 ==> round_half_even(v * (m * pow10(a)), pow10(k)) == round_half_even(
            (h * m) * pow10(e) + lo * m,
            pow10(e),
        )),
{
    lemma_pow10_positive(k);
    lemma_pow10_positive(e);
    lemma_pow10_positive(a);
    if e == 0 {
        let t = (a - k) as nat;
        lemma_pow10_add(k, t);
        assert(k + t == a);
        assert(pow10(e) == 1);
        let pk = pow10(k);
        let pt = pow10(t);
        assert(v == h);
        let x = h * (m * pt);
        assert(v * (m * pow10(a)) == x * pk) by (nonlinear_arith)
            requires
                pow10(a) == pk * pt,
                v == h,
                x == h * (m * pt),
        ;
        lemma_div_mod_of(x * pk, pk, x, 0);
    } else {
        lemma_pow10_add(a, e);
        let pa = pow10(a);
        let pe = pow10(e);
        let y = v * m;
        assert(v * (m * pow10(a)) == y * pa) by (nonlinear_arith)
            requires
                y == v * m,
                pa == pow10(a),
        ;
        assert(pow10(k) == pe * pa) by (nonlinear_arith)
            requires
                pow10(k) == pa * pe,
        ;
        lemma_round_scaled(y, pe, pa);
        assert(y == (h * m) * pe + lo * m) by (nonlinear_arith)
            requires
                y == v * m,
                v == h * pe + lo,
        ;
    }
}

/// Rounding `a * p + b` over `p`, told from the quotient `c2` and the
/// remainder `r2` of `2 * b` by `p`: the whole part is `a + c2 / 2`; an odd
/// `c2` means a half or more is left over, a half exactly when `r2` is zero.
pub proof fn lemma_round_split(a: nat, b: nat, p: nat, c2: nat, r2: nat)
    requires
        p > 0,
        c2 == (2 * b) / p,
        r2 == (2 * b) % p,
    ensures
        round_half_even(a * p + b, p) == a + c2 / 2 + (if c2 % 2 == 1 && (r2 != 0 || (a + c2 / 2)
            % 2 == 1) {
            1nat
        } else {
            0nat
        }),
{
    let q = b / p;
    let r = b % p;
    lemma_fundamental_div_mod(b as int, p as int);
    lemma_mod_bound(b as int, p as int);
    assert(a * p + b == (a + q) * p + r) by (nonlinear_arith)
        requires
            b == p * q + r,
    ;
    lemma_div_mod_of(a * p + b, p, a + q, r);
    if 2 * r < p {
        assert(2 * b == (2 * q) * p + 2 * r) by (nonlinear_arith)
            requires
                b == p * q + r,
        ;
        lemma_div_mod_of(2 * b, p, 2 * q, 2 * r);
    } else {
        assert(2 * b == (2 * q + 1) * p + (2 * r - p)) by (nonlinear_arith)
            requires
                b == p * q + r,
        ;
        lemma_div_mod_of(2 * b, p, 2 * q + 1, (2 * r - p) as nat);
    }
}

/// One step of multiplying a digit string by `m` from its last digit to
/// its first: putting the digit `d` in front of `v`, whose product with `m`
/// has the carry `c` and the remainder `rem` below ten to the `len`.
pub proof fn lemma_carry_digit_step(d: nat, v: nat, len: nat, m: nat, c: nat, rem: nat)
    requires
        d <= 9,
        c == (v * m) / pow10(len),
        rem == (v * m) % pow10(len),
    ensures
        ((d * pow10(len) + v) * m) / pow10(len + 1) == (d * m + c) / 10,
        ((d * pow10(len) + v) * m) % pow10(len + 1) == ((d * m + c) % 10) * pow10(len) + rem,
{
    lemma_pow10_positive(len);
    let p = pow10(len);
    assert(pow10(len + 1) == 10 * p);
    lemma_fundamental_div_mod((v * m) as int, p as int);
    lemma_mod_bound((v * m) as int, p as int);
    let t = d * m + c;
    let c1 = t / 10;
    let dig = t % 10;
    lemma_fundamental_div_mod(t as int, 10);
    assert((d * p + v) * m == c1 * (10 * p) + (dig * p + rem)) by (nonlinear_arith)
        requires
            v * m == p * c + rem,
            t == d * m + c,
            t == 10 * c1 + dig,
    ;
    assert(dig * p + rem < 10 * p) by (nonlinear_arith)
        requires
            dig < 10,
            rem < p,
    ;
    lemma_div_mod_of((d * p + v) * m, 10 * p, c1, dig * p + rem);
}

} // verus!

verus! {

/// The integer that `s` writes, as `i32::from_str` reads it: an optional
/// `+` or `-`, then one or more ASCII digits, within the range of `i32`.
pub open spec fn i32_value(s: Seq<char>) -> Option<i32> {
    let signed = s.len() > 0 && (s[0] == '-' || s[0] == '+');
    let digits = if signed { s.drop_first() } else { s };
    if digits.len() == 0 || !all_digits(digits) {
        None
    } else {
        let v: int = if signed && s[0] == '-' {
            -(digits_value(digits) as int)
        } else {
            digits_value(digits) as int
        };
        if i32::MIN <= v <= i32::MAX {
            Some(v as i32)
        } else {
            None
        }
    }
}

/// Reads the integer that `v` writes.
pub fn parse_i32(v: &Vec<char>) -> (r: Option<i32>)
    ensures
        r == i32_value(v@),
{
    let signed = v.len() > 0 && (v[0] == '-' || v[0] == '+');
    let negative = signed && v[0] == '-';
    let start: usize = if signed { 1 } else { 0 };
    let ghost digits = if signed { v@.drop_first() } else { v@ };
    assert(digits =~= v@.skip(start as int));
    if v.len() == start {
        return None;
    }
    let cap: u64 = 2_147_483_649;
    let mut value: u64 = 0;
    let mut i = start;
    assert(v@.subrange(start as int, start as int) =~= Seq::<char>::empty());
    while i < v.len()
        invariant
            start <= i <= v.len(),
            digits == v@.skip(start as int),
            digits == (if v@.len() > 0 && (v@[0] == '-' || v@[0] == '+') {
                v@.drop_first()
            } else {
                v@
            }),
            cap == 2_147_483_649,
            all_digits(v@.subrange(start as int, i as int)),
            value <= cap,
            value < cap ==> value == digits_value(v@.subrange(start as int, i as int)),
            value == cap ==> digits_value(v@.subrange(start as int, i as int)) >= cap,
        decreases v.len() - i,
    {
        let c = v[i];
        if !char_is_digit(c) {
            assert(digits[i - start] == c);
            assert(!is_digit(digits[i - start]));
            assert(!all_digits(digits));
            return None;
        }
        let d = digit_of(c);
        let ghost prefix = v@.subrange(start as int, i as int);
        assert(v@.subrange(start as int, i + 1) =~= prefix.push(c));
        proof {
            lemma_digits_value_push(prefix, c);
        }
        if value < cap {
            let next = value * 10 + d as u64;
            value = if next >= cap { cap } else { next };
        }
        i += 1;
    }
    assert(v@.subrange(start as int, v.len() as int) =~= digits);
    if value == cap {
        return None;
    }
    if negative {
        Some((0 - value as i64) as i32)
    } else if value <= 2_147_483_647 {
        Some(value as i32)
    } else {
        None
    }
}

/// The decimal digits of `n`, most significant first, without leading zeros.
pub open spec fn decimal_digits(n: nat) -> Seq<char>
    decreases n,
{
    if n < 10 {
        seq![digit_char(n)]
    } else {
        decimal_digits(n / 10).push(digit_char(n % 10))
    }
}

/// The ASCII digit for `d` below ten.
pub open spec fn digit_char(d: nat) -> char {
    seq!['0', '1', '2', '3', '4', '5', '6', '7', '8', '9'][d as int]
}

/// How `i32`'s `to_string` writes `n`: a `-` for a negative number, then
/// the decimal digits of its magnitude.
pub open spec fn i32_text(n: i32) -> Seq<char> {
    if n < 0 {
        seq!['-'] + decimal_digits((-(n as int)) as nat)
    } else {
        decimal_digits(n as nat)
    }
}

/// Appends the decimal digits of `n` to `out`.
fn push_decimal(out: &mut String, n: u64)
    ensures
        final(out)@ == old(out)@ + decimal_digits(n as nat),
    decreases n,
{
    if n >= 10 {
        push_decimal(out, n / 10);
    }
    let digits = ['0', '1', '2', '3', '4', '5', '6', '7', '8', '9'];
    assert(digits@ =~= seq!['0', '1', '2', '3', '4', '5', '6', '7', '8', '9']);
    push_char(out, digits[(n % 10) as usize]);
    proof {
        if n >= 10 {
            assert(old(out)@ + decimal_digits(n as nat) =~= old(out)@ + decimal_digits((n / 10) as nat) + seq![digit_char((n % 10) as nat)]);
        } else {
            assert(n % 10 == n);
        }
    }
}

/// `n` written in decimal.
pub fn format_i32(n: i32) -> (s: String)
    ensures
        s@ == i32_text(n),
{
    let mut s = String::new();
    if n < 0 {
        push_char(&mut s, '-');
        let magnitude = (0 - n as i64) as u64;
        push_decimal(&mut s, magnitude);
    } else {
        push_decimal(&mut s, n as u64);
    }
    s
}

/// The decimal digits of `n` are digits and read back as `n`.
pub proof fn lemma_decimal_digits(n: nat)
    ensures
        all_digits(decimal_digits(n)),
        decimal_digits(n).len() >= 1,
        digits_value(decimal_digits(n)) == n,
    decreases n,
{
    let ds = seq!['0', '1', '2', '3', '4', '5', '6', '7', '8', '9'];
    assert forall|d: nat| d < 10 implies is_digit(#[trigger] ds[d as int]) && digit_value(ds[d as int]) == d by {
        assert(ds[d as int] as int == '0' as int + d);
    }
    if n < 10 {
        let s = seq![digit_char(n)];
        assert(s.len() == 1);
        assert(s.drop_last() =~= Seq::<char>::empty());
        assert(s.last() == digit_char(n));
        assert(digit_char(n) == ds[n as int]);
        assert(digit_value(digit_char(n)) == n);
        assert(digits_value(s) == digits_value(s.drop_last()) * 10 + digit_value(s.last()));
    } else {
        assert(digit_char(n % 10) == ds[(n % 10) as int]);
        lemma_decimal_digits(n / 10);
        let s = decimal_digits(n / 10);
        let c = digit_char(n % 10);
        lemma_digits_value_push(s, c);
        assert forall|i: int| 0 <= i < s.push(c).len() implies is_digit(#[trigger] s.push(c)[i]) by {
            if i < s.len() {
                assert(s.push(c)[i] == s[i]);
            }
        }
    }
}

/// Law of the decimal form of an `i32`: reading back what `format_i32`
/// writes gives the same number.
pub proof fn lemma_i32_text_round_trip(n: i32)
    ensures
        i32_value(i32_text(n)) == Some(n),
{
    let m: nat = if n < 0 { (-(n as int)) as nat } else { n as nat };
    lemma_decimal_digits(m);
    let d = decimal_digits(m);
    assert(is_digit(d[0]));
    if n < 0 {
        let t = seq!['-'] + d;
        assert(t[0] == '-');
        assert(t.drop_first() =~= d);
    } else {
        assert(i32_text(n)[0] == d[0]);
    }
}

} // verus!
