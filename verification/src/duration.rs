//! A span of time with nanosecond resolution.
use vstd::prelude::*;
use vstd::arithmetic::div_mod::*;
use crate::decimal::{
    all_digits, char_is_digit, digit_of, digit_value, digits_value, is_digit, lemma_carry_digit_step,
    lemma_digits_value_bound, lemma_digits_value_concat, lemma_digits_value_push,
    lemma_digits_value_single, lemma_pow10_monotone, lemma_pow10_positive, lemma_round_split, lemma_scaled_value, round_half_even,
    pow10,
};

verus! {

/// One more than the largest span, in nanoseconds, that a `Duration` holds:
/// the whole seconds must fit in a `u64`.
pub open spec fn duration_nanos_bound() -> nat {
    (u64::MAX as nat + 1) * 1_000_000_000
}

/// A span of time, held as whole seconds and the nanoseconds beyond them.
#[derive(Clone, Copy, Debug, PartialEq, Eq, Structural)]
pub struct Duration {
    secs: u64,
    nanos: u32,
}

impl View for Duration {
    type V = nat;

    /// The whole span in nanoseconds.
    closed spec fn view(&self) -> nat {
        (self.secs * 1_000_000_000 + self.nanos) as nat
    }
}

impl Duration {
    #[verifier::type_invariant]
    spec fn inv(self) -> bool {
        self.nanos < 1_000_000_000
    }

    /// The span of `nanos` nanoseconds.
    pub fn from_nanos(nanos: u128) -> (d: Duration)
        requires
            nanos < duration_nanos_bound(),
        ensures
            d@ == nanos,
    {
        let secs = nanos / 1_000_000_000;
        let sub = nanos % 1_000_000_000;
        assert(secs <= u64::MAX) by (nonlinear_arith)
            requires
                secs == nanos / 1_000_000_000,
                nanos < (u64::MAX as nat + 1) * 1_000_000_000,
        ;
        Duration { secs: secs as u64, nanos: sub as u32 }
    }

    /// A span of `secs` whole seconds.
    pub fn from_secs(secs: u64) -> (d: Duration)
        ensures
            d@ == secs * 1_000_000_000,
    {
        Duration { secs, nanos: 0 }
    }

    /// A span of `millis` milliseconds.
    pub fn from_millis(millis: u64) -> (d: Duration)
        ensures
            d@ == millis * 1_000_000,
    {
        let secs = millis / 1000;
        let rest = millis % 1000;
        assert(secs * 1_000_000_000 + rest * 1_000_000 == millis * 1_000_000) by (nonlinear_arith)
            requires
                secs == millis / 1000,
                rest == millis % 1000,
        ;
        Duration { secs, nanos: (rest * 1_000_000) as u32 }
    }

    /// Whether this span is at least as long as `other`.
    pub fn at_least(&self, other: &Duration) -> (r: bool)
        ensures
            r == (self@ >= other@),
    {
        proof {
            use_type_invariant(self);
            use_type_invariant(other);
        }
        let r = self.secs > other.secs || (self.secs == other.secs && self.nanos >= other.nanos);
        assert(r == (self@ >= other@)) by (nonlinear_arith)
            requires
                r == (self.secs > other.secs || (self.secs == other.secs && self.nanos >= other.nanos)),
                self@ == self.secs * 1_000_000_000 + self.nanos,
                other@ == other.secs * 1_000_000_000 + other.nanos,
                self.nanos < 1_000_000_000,
                other.nanos < 1_000_000_000,
        ;
        r
    }

    /// The whole seconds of the span.
    pub fn as_secs(&self) -> (s: u64)
        ensures
            s == self@ / 1_000_000_000,
    {
        proof {
            use_type_invariant(self);
            vstd::arithmetic::div_mod::lemma_fundamental_div_mod_converse(
                self@ as int,
                1_000_000_000,
                self.secs as int,
                self.nanos as int,
            );
        }
        self.secs
    }

    /// The nanoseconds of the span beyond its whole seconds.
    pub fn subsec_nanos(&self) -> (n: u32)
        ensures
            n == self@ % 1_000_000_000,
    {
        proof {
            use_type_invariant(self);
            vstd::arithmetic::div_mod::lemma_fundamental_div_mod_converse(
                self@ as int,
                1_000_000_000,
                self.secs as int,
                self.nanos as int,
            );
        }
        self.nanos
    }
}


/// A character of the numeric part of a duration: a digit or a point.
pub open spec fn is_amount_char(c: char) -> bool {
    is_digit(c) || c == '.'
}

/// `n` is where the numeric part of `s` ends: every character before it is
/// a digit or a point, and the one at `n`, if any, is neither.
pub open spec fn is_amount_end(s: Seq<char>, n: int) -> bool {
    &&& 0 <= n <= s.len()
    &&& forall|j: int| 0 <= j < n ==> is_amount_char(#[trigger] s[j])
    &&& (n == s.len() || !is_amount_char(s[n]))
}

/// Where the numeric part of `s` ends.
pub open spec fn amount_end(s: Seq<char>) -> int {
    choose|n: int| is_amount_end(s, n)
}

/// `a` holds its decimal point at `i`, with digits on both sides and at
/// least one digit in all.
pub open spec fn is_point_at(a: Seq<char>, i: int) -> bool {
    &&& 0 <= i < a.len()
    &&& a[i] == '.'
    &&& all_digits(a.take(i))
    &&& all_digits(a.skip(i + 1))
    &&& a.len() >= 2
}

/// The decimal number written as `a` (digits, with at most one point and at
/// least one digit): the value of all its digits read as one integer, and
/// how many of them follow the point. `None` when `a` is no such number.
pub open spec fn amount_value(a: Seq<char>) -> Option<(nat, nat)> {
    if all_digits(a) {
        if a.len() > 0 {
            Some((digits_value(a), 0nat))
        } else {
            None
        }
    } else if exists|i: int| is_point_at(a, i) {
        let i = choose|i: int| is_point_at(a, i);
        Some((digits_value(a.take(i) + a.skip(i + 1)), (a.len() - i - 1) as nat))
    } else {
        None
    }
}

/// Nanoseconds in one unit: `ms`, `s` (or no unit), `m`, `h`.
pub open spec fn unit_nanos(u: Seq<char>) -> Option<nat> {
    if u == seq!['m', 's'] {
        Some(1_000_000nat)
    } else if u == seq!['s'] || u.len() == 0 {
        Some(1_000_000_000nat)
    } else if u == seq!['m'] {
        Some(60_000_000_000nat)
    } else if u == seq!['h'] {
        Some(3_600_000_000_000nat)
    } else {
        None
    }
}

/// The span, in whole nanoseconds, that the text `s` writes: a decimal
/// number followed by a unit, rounded to the nearest nanosecond, a tie
/// going to the even one.
///
/// The rounding is of the exact decimal value, not of a binary
/// floating-point reading of it, and the two can differ: `1.0000000005s` is
/// 1 000 000 000 ns here and 1 000 000 001 ns through an `f64`; and
/// `18446744073709551615s` is read exactly, where an `f64` rounds it up to
/// 2^64 seconds.
pub open spec fn duration_text_nanos(s: Seq<char>) -> Option<nat> {
    let n = amount_end(s);
    match (amount_value(s.take(n)), unit_nanos(s.skip(n))) {
        (Some((v, k)), Some(u)) => Some(round_half_even(v * u, pow10(k))),
        _ => None,
    }
}

/// The text `s` writes a span too long for a `Duration`.
pub open spec fn duration_text_too_long(s: Seq<char>) -> bool {
    duration_text_nanos(s) matches Some(ns) && ns >= duration_nanos_bound()
}

/// What the text of a duration gives.
pub enum DurationScan {
    /// The text is no duration.
    Invalid,
    /// The text writes a span too long to hold.
    TooLong,
    /// The text writes this many nanoseconds.
    Nanos(u128),
}

proof fn lemma_amount_end_unique(s: Seq<char>, n: int)
    requires
        is_amount_end(s, n),
    ensures
        amount_end(s) == n,
{
    let m = amount_end(s);
    assert(is_amount_end(s, m));
    if m < n {
        assert(is_amount_char(s[m]));
    } else if n < m {
        assert(is_amount_char(s[n]));
    }
}

proof fn lemma_point_unique(a: Seq<char>, i: int, j: int)
    requires
        is_point_at(a, i),
        is_point_at(a, j),
    ensures
        i == j,
{
    if i < j {
        assert(a.take(j)[i] == a[i]);
    } else if j < i {
        assert(a.take(i)[j] == a[j]);
    }
}

/// Nanoseconds of one unit, written `m` times ten to the `a`.
fn unit_scale(u: &Vec<char>, start: usize) -> (r: Option<(u128, usize)>)
    requires
        start <= u.len(),
    ensures
        match unit_nanos(u@.skip(start as int)) {
            None => r is None,
            Some(n) => r matches Some((m, a)) && n == m * pow10(a as nat) && 1 <= m <= 36 && a <= 11,
        },
{
    let len = u.len() - start;
    let ghost tail = u@.skip(start as int);
    proof {
        reveal_with_fuel(pow10, 12);
    }
    assert(seq!['m', 's'].len() == 2);
    assert(seq!['s'].len() == 1);
    if len == 0 {
        assert(tail.len() == 0);
        assert(tail != seq!['m', 's']);
        assert(1 * pow10(9) == 1_000_000_000);
        return Some((1, 9));
    }
    let c0 = u[start];
    assert(tail[0] == c0);
    if len == 1 {
        assert(tail != seq!['m', 's']);
        if c0 == 's' {
            assert(tail =~= seq!['s']);
            assert(1 * pow10(9) == 1_000_000_000);
            return Some((1, 9));
        } else if c0 == 'm' {
            assert(tail =~= seq!['m']);
            assert(tail != seq!['s']);
            assert(6 * pow10(10) == 60_000_000_000);
            return Some((6, 10));
        } else if c0 == 'h' {
            assert(tail =~= seq!['h']);
            assert(tail != seq!['s']);
            assert(tail != seq!['m']);
            assert(36 * pow10(11) == 3_600_000_000_000);
            return Some((36, 11));
        }
        assert(tail != seq!['m', 's']);
        assert(tail != seq!['s']);
        assert(tail != seq!['m']);
        assert(tail != seq!['h']);
        return None;
    }
    if len == 2 && c0 == 'm' && u[start + 1] == 's' {
        assert(tail =~= seq!['m', 's']);
        assert(1 * pow10(6) == 1_000_000);
        return Some((1, 6));
    }
    assert(tail.len() != 2 || tail[0] != 'm' || tail[1] != 's');
    assert(tail != seq!['m', 's']);
    assert(tail != seq!['s']);
    assert(tail != seq!['m']);
    assert(tail != seq!['h']);
    None
}


/// `a` as a decimal number, when it has no point at all.
proof fn lemma_amount_without_point(a: Seq<char>)
    requires
        all_digits(a),
        a.len() > 0,
    ensures
        amount_value(a) == Some((digits_value(a), 0nat)),
{
}

/// `a` as a decimal number, when its only point is at `p`.
proof fn lemma_amount_with_point(a: Seq<char>, p: int)
    requires
        is_point_at(a, p),
    ensures
        amount_value(a) == Some((digits_value(a.take(p) + a.skip(p + 1)), (a.len() - p - 1) as nat)),
{
    assert(!all_digits(a)) by {
        assert(!is_digit(a[p]));
    }
    let i = choose|i: int| is_point_at(a, i);
    lemma_point_unique(a, i, p);
}

/// Where the numeric part of `v` ends.
pub(crate) fn find_amount_end(v: &Vec<char>) -> (n: usize)
    ensures
        n == amount_end(v@),
        is_amount_end(v@, n as int),
        n <= v.len(),
{
    let mut n: usize = 0;
    while n < v.len() && (char_is_digit(v[n]) || v[n] == '.')
        invariant
            n <= v.len(),
            forall|j: int| 0 <= j < n ==> is_amount_char(#[trigger] v@[j]),
        decreases v.len() - n,
    {
        n += 1;
    }
    proof {
        lemma_amount_end_unique(v@, n as int);
    }
    n
}

/// The first `n` characters of `v` read as a decimal number: its digits
/// without the point, and how many of them follow the point.
pub(crate) fn amount_digits(v: &Vec<char>, n: usize) -> (r: Option<(Vec<char>, usize)>)
    requires
        n <= v.len(),
        forall|j: int| 0 <= j < n ==> is_amount_char(#[trigger] v@[j]),
    ensures
        match amount_value(v@.take(n as int)) {
            None => r is None,
            Some((value, k)) => r matches Some((d, kk)) && digits_value(d@) == value && kk == k
                && all_digits(d@) && k <= d@.len(),
        },
{
    let ghost a = v@.take(n as int);
    let mut point: Option<usize> = None;
    let mut two_points = false;
    let mut j: usize = 0;
    while j < n
        invariant
            j <= n <= v.len(),
            a == v@.take(n as int),
            forall|i: int| 0 <= i < n ==> is_amount_char(#[trigger] v@[i]),
            point matches Some(p) ==> p < j && a[p as int] == '.' && all_digits(a.take(p as int)),
            point is None ==> all_digits(a.take(j as int)) && !two_points,
            (point is Some && !two_points) ==> forall|q: int|
                point->0 < q < j ==> is_digit(#[trigger] a[q]),
            two_points ==> exists|q: int| point->0 < q < j && a[q] == '.',
        decreases n - j,
    {
        assert(a[j as int] == v@[j as int]);
        if v[j] == '.' {
            if point.is_some() {
                two_points = true;
            } else {
                point = Some(j);
            }
        } else {
            assert(is_amount_char(v@[j as int]));
            if point.is_none() {
                assert forall|i: int| 0 <= i < j + 1 implies is_digit(#[trigger] a.take(j + 1)[i]) by {
                    if i < j {
                        assert(a.take(j + 1)[i] == a.take(j as int)[i]);
                    }
                }
            }
        }
        j += 1;
    }
    proof {
        assert(a.take(n as int) =~= a);
    }
    match point {
        None => {
            if n == 0 {
                assert(all_digits(a));
                return None;
            }
            proof {
                lemma_amount_without_point(a);
            }
            let mut d: Vec<char> = Vec::new();
            let mut i: usize = 0;
            while i < n
                invariant
                    i <= n <= v.len(),
                    a == v@.take(n as int),
                    d@ == a.take(i as int),
                decreases n - i,
            {
                d.push(v[i]);
                assert(d@ =~= a.take(i + 1));
                i += 1;
            }
            assert(d@ =~= a);
            Some((d, 0))
        },
        Some(p) => {
            assert(!all_digits(a)) by {
                assert(!is_digit(a[p as int]));
            }
            if two_points {
                let ghost q = choose|q: int| p < q < j && a[q] == '.';
                assert forall|i: int| !is_point_at(a, i) by {
                    if is_point_at(a, i) {
                        if i != p as int {
                            if p < i {
                                assert(a.take(i)[p as int] == a[p as int]);
                            } else {
                                assert(a.skip(i + 1)[p - i - 1] == a[p as int]);
                            }
                        } else {
                            assert(a.skip(i + 1)[q - i - 1] == a[q]);
                        }
                    }
                }
                return None;
            }
            assert(all_digits(a.skip(p + 1))) by {
                assert forall|i: int| 0 <= i < a.skip(p + 1).len() implies is_digit(
                    #[trigger] a.skip(p + 1)[i],
                ) by {
                    assert(a.skip(p + 1)[i] == a[p + 1 + i]);
                }
            }
            if n < 2 {
                assert forall|i: int| !is_point_at(a, i) by {}
                return None;
            }
            assert(is_point_at(a, p as int));
            proof {
                lemma_amount_with_point(a, p as int);
            }
            let ghost want = a.take(p as int) + a.skip(p + 1);
            let mut d: Vec<char> = Vec::new();
            let mut i: usize = 0;
            while i < n
                invariant
                    i <= n <= v.len(),
                    p < n,
                    a == v@.take(n as int),
                    i <= p ==> d@ == a.take(i as int),
                    i > p ==> d@ == a.take(p as int) + a.subrange(p + 1, i as int),
                decreases n - i,
            {
                if i != p {
                    d.push(v[i]);
                }
                proof {
                    if i < p {
                        assert(d@ =~= a.take(i + 1));
                    } else if i == p {
                        assert(a.take(p as int) + a.subrange(p + 1, i + 1) =~= a.take(p as int));
                    } else {
                        assert(d@ =~= a.take(p as int) + a.subrange(p + 1, i + 1));
                    }
                }
                i += 1;
            }
            assert(a.skip(p + 1) =~= a.subrange(p + 1, n as int));
            assert(d@ =~= want);
            assert forall|q: int| 0 <= q < d@.len() implies is_digit(#[trigger] d@[q]) by {
                if q < p {
                    assert(d@[q] == a.take(p as int)[q]);
                } else {
                    assert(d@[q] == a.skip(p + 1)[q - p]);
                }
            }
            Some((d, n - p - 1))
        },
    }
}

/// The value of the first `hlen` digits of `d`, or `None` once it passes `bound`.
fn high_value(d: &Vec<char>, hlen: usize, bound: u128) -> (r: Option<u128>)
    requires
        hlen <= d.len(),
        all_digits(d@),
        bound <= duration_nanos_bound(),
    ensures
        match r {
            Some(h) => h == digits_value(d@.take(hlen as int)) && h <= bound,
            None => digits_value(d@.take(hlen as int)) > bound,
        },
{
    let mut h: u128 = 0;
    let mut saturated = false;
    let mut i: usize = 0;
    assert(d@.take(0) =~= Seq::<char>::empty());
    while i < hlen
        invariant
            hlen <= d.len(),
            all_digits(d@),
            bound <= duration_nanos_bound(),
            !saturated ==> h == digits_value(d@.take(i as int)) && h <= bound,
            saturated ==> digits_value(d@.take(i as int)) > bound,
            i <= hlen,
        decreases hlen - i,
    {
        let c = d[i];
        assert(is_digit(d@[i as int]));
        let dv = digit_of(c);
        proof {
            assert(d@.take(i + 1) =~= d@.take(i as int).push(c));
            lemma_digits_value_push(d@.take(i as int), c);
        }
        if !saturated {
            h = h * 10 + dv as u128;
            if h > bound {
                saturated = true;
            }
        }
        i += 1;
    }
    if saturated {
        None
    } else {
        Some(h)
    }
}

/// The product of the digits of `d` from `hlen` on with `m`, over ten to
/// their count: its whole part, and whether nothing is left over.
fn low_carry(d: &Vec<char>, hlen: usize, m: u128) -> (r: (u128, bool))
    requires
        hlen <= d.len(),
        all_digits(d@),
        1 <= m <= 72,
    ensures
        r.0 == (digits_value(d@.skip(hlen as int)) * m) as nat / pow10((d.len() - hlen) as nat),
        r.1 == ((digits_value(d@.skip(hlen as int)) * m) as nat % pow10((d.len() - hlen) as nat) == 0),
        r.0 < m,
{
    let len = d.len();
    let mut carry: u128 = 0;
    let mut exact = true;
    let mut j: usize = len;
    proof {
        assert(d@.subrange(len as int, len as int) =~= Seq::<char>::empty());
        assert(digits_value(d@.subrange(len as int, len as int)) == 0);
        assert(pow10((len - len) as nat) == 1);
        assert((digits_value(d@.subrange(len as int, len as int)) * m) as nat == 0nat) by (nonlinear_arith)
            requires
                digits_value(d@.subrange(len as int, len as int)) == 0,
        ;
    }
    while j > hlen
        invariant
            hlen <= j <= len == d.len(),
            all_digits(d@),
            1 <= m <= 72,
            carry == (digits_value(d@.subrange(j as int, len as int)) * m) as nat / pow10((len - j) as nat),
            exact == ((digits_value(d@.subrange(j as int, len as int)) * m) as nat % pow10(
                (len - j) as nat,
            ) == 0),
            carry < m,
        decreases j,
    {
        let c = d[j - 1];
        assert(is_digit(d@[j - 1]));
        let dv = digit_of(c);
        let ghost rest = d@.subrange(j as int, len as int);
        let ghost rem = (digits_value(rest) * m) as nat % pow10(rest.len());
        proof {
            assert(d@.subrange(j - 1, len as int) =~= seq![c] + rest);
            lemma_digits_value_concat(seq![c], rest);
            lemma_digits_value_single(c);
            assert((len - j) as nat == rest.len());
            lemma_carry_digit_step(dv as nat, digits_value(rest), rest.len(), m as nat, carry as nat, rem);
            assert((len - (j - 1)) as nat == rest.len() + 1);
            lemma_pow10_positive(rest.len());
        }
        assert(dv as u128 * m <= 648) by (nonlinear_arith)
            requires
                dv <= 9,
                m <= 72,
        ;
        let t = dv as u128 * m + carry;
        let next = t / 10;
        assert(next < m) by (nonlinear_arith)
            requires
                next == (dv * m + carry) / 10,
                dv <= 9,
                carry < m,
                m >= 1,
        ;
        proof {
            let p = pow10(rest.len());
            assert((((t % 10) as nat) * p + rem == 0) == (t % 10 == 0 && rem == 0)) by (nonlinear_arith)
                requires
                    p >= 1,
                    rem >= 0,
            ;
        }
        exact = exact && t % 10 == 0;
        carry = next;
        j -= 1;
    }
    assert(d@.subrange(hlen as int, len as int) =~= d@.skip(hlen as int));
    (carry, exact)
}

/// `m` times ten to the `t`.
fn scale(m: u128, t: usize) -> (r: u128)
    requires
        1 <= m <= 36,
        t <= 11,
    ensures
        r == m * pow10(t as nat),
        r >= 1,
{
    let mut mult: u128 = m;
    let mut i: usize = 0;
    proof {
        reveal_with_fuel(pow10, 12);
        lemma_pow10_monotone(t as nat, 11);
        assert(pow10(0) == 1);
        assert(mult == m * pow10(0)) by (nonlinear_arith)
            requires
                pow10(0) == 1,
                mult == m,
        ;
    }
    while i < t
        invariant
            i <= t <= 11,
            1 <= m <= 36,
            mult == m * pow10(i as nat),
            pow10(t as nat) <= 100_000_000_000,
        decreases t - i,
    {
        proof {
            lemma_pow10_monotone((i + 1) as nat, t as nat);
        }
        assert(m * pow10((i + 1) as nat) == 10 * (m * pow10(i as nat))) by (nonlinear_arith)
            requires
                pow10((i + 1) as nat) == 10 * pow10(i as nat),
        ;
        assert(m * pow10((i + 1) as nat) <= 36 * 100_000_000_000) by (nonlinear_arith)
            requires
                pow10((i + 1) as nat) <= 100_000_000_000,
                m <= 36,
        ;
        mult = mult * 10;
        i += 1;
    }
    proof {
        lemma_pow10_positive(t as nat);
    }
    assert(mult >= 1) by (nonlinear_arith)
        requires
            mult == m * pow10(t as nat),
            m >= 1,
            pow10(t as nat) >= 1,
    ;
    mult
}

/// Reads the text of a duration: a decimal number, then a unit.
pub fn scan_duration(v: &Vec<char>) -> (r: DurationScan)
    ensures
        match duration_text_nanos(v@) {
            None => r is Invalid,
            Some(ns) => if ns >= duration_nanos_bound() {
                r is TooLong
            } else {
                r matches DurationScan::Nanos(x) && x == ns
            },
        },
{
    let n = find_amount_end(v);
    assert(is_amount_end(v@, n as int));
    let amount = amount_digits(v, n);
    let (d, k) = match amount {
        None => {
            return DurationScan::Invalid;
        },
        Some(dk) => dk,
    };
    let (m, a_exp) = match unit_scale(v, n) {
        None => {
            return DurationScan::Invalid;
        },
        Some(ma) => ma,
    };
    let len = d.len();
    // Digits beyond the unit's resolution only carry into the last place
    // and decide how it is rounded.
    let e: usize = if k > a_exp { k - a_exp } else { 0 };
    let t: usize = if k > a_exp { 0 } else { a_exp - k };
    let hlen = len - e;
    let ghost hi = d@.take(hlen as int);
    let ghost lo = d@.skip(hlen as int);
    let bound: u128 = 18_446_744_073_709_551_616_000_000_000;
    assert(bound == duration_nanos_bound());
    let high = high_value(&d, hlen, bound);
    let (c2, exact) = low_carry(&d, hlen, 2 * m);
    let mult = scale(m, t);
    let ghost total = duration_text_nanos(v@)->0;
    let ghost hv = digits_value(hi);
    let ghost up: nat = if c2 % 2 == 1 && (!exact || (hv * mult + c2 / 2) % 2 == 1) {
        1
    } else {
        0
    };
    proof {
        assert(d@ =~= hi + lo);
        lemma_digits_value_concat(hi, lo);
        assert(all_digits(lo)) by {
            assert forall|q: int| 0 <= q < lo.len() implies is_digit(#[trigger] lo[q]) by {
                assert(lo[q] == d@[hlen + q]);
            }
        }
        lemma_digits_value_bound(lo);
        lemma_scaled_value(
            digits_value(d@),
            hv,
            digits_value(lo),
            e as nat,
            m as nat,
            a_exp as nat,
            k as nat,
        );
        let u = unit_nanos(v@.skip(n as int))->0;
        assert(u == m * pow10(a_exp as nat));
        assert(total == round_half_even(digits_value(d@) * u, pow10(k as nat)));
        assert((len - hlen) as nat == e as nat);
        if e == 0 {
            assert(lo.len() == 0);
            assert(lo =~= Seq::<char>::empty());
            assert(digits_value(lo) == 0);
            assert(pow10(0) == 1);
            assert(digits_value(lo) * (2 * m) == 0) by (nonlinear_arith)
                requires
                    digits_value(lo) == 0,
            ;
            assert(c2 == 0);
            assert(t == a_exp - k);
            assert(up == 0);
        } else {
            assert(t == 0);
            assert(pow10(t as nat) == 1);
            assert(mult == m * 1);
            assert(2 * (digits_value(lo) * m) == digits_value(lo) * (2 * m)) by (nonlinear_arith);
            lemma_pow10_positive(e as nat);
            lemma_round_split(
                (hv * m) as nat,
                (digits_value(lo) * m) as nat,
                pow10(e as nat),
                c2 as nat,
                (digits_value(lo) * (2 * m)) as nat % pow10(e as nat),
            );
        }
        assert(total == hv * mult + c2 / 2 + up);
        assert(total >= hv) by (nonlinear_arith)
            requires
                total == hv * mult + c2 / 2 + up,
                mult >= 1,
        ;
    }
    let h = match high {
        None => {
            return DurationScan::TooLong;
        },
        Some(h) => h,
    };
    let limit = (bound - 1) / mult;
    if h > limit {
        assert(h * mult >= bound) by (nonlinear_arith)
            requires
                h >= limit + 1,
                limit == (bound - 1) as int / mult as int,
                mult >= 1,
        ;
        return DurationScan::TooLong;
    }
    assert(h * mult <= bound - 1) by (nonlinear_arith)
        requires
            h <= limit,
            limit == (bound - 1) as int / mult as int,
            mult >= 1,
    ;
    let q = h * mult + c2 / 2;
    let ns = if c2 % 2 == 1 && (!exact || q % 2 == 1) {
        q + 1
    } else {
        q
    };
    if ns >= bound {
        DurationScan::TooLong
    } else {
        DurationScan::Nanos(ns)
    }
}

/// Law of durations: a whole number followed by a unit writes that number
/// of the unit's nanoseconds.
pub proof fn lemma_whole_number_duration(a: Seq<char>, u: Seq<char>)
    requires
        a.len() > 0,
        all_digits(a),
        unit_nanos(u) is Some,
    ensures
        duration_text_nanos(a + u) == Some(digits_value(a) * unit_nanos(u)->0),
{
    let s = a + u;
    assert(u.len() > 0 ==> u[0] == 'm' || u[0] == 's' || u[0] == 'h') by {
        if u == seq!['m', 's'] {
            assert(u[0] == 'm');
        } else if u == seq!['s'] {
            assert(u[0] == 's');
        } else if u == seq!['m'] {
            assert(u[0] == 'm');
        } else if u == seq!['h'] {
            assert(u[0] == 'h');
        }
    }
    assert forall|j: int| 0 <= j < a.len() implies is_amount_char(#[trigger] s[j]) by {
        assert(s[j] == a[j]);
        assert(is_digit(a[j]));
    }
    if u.len() > 0 {
        assert(s[a.len() as int] == u[0]);
    }
    lemma_amount_end_unique(s, a.len() as int);
    assert(s.take(a.len() as int) =~= a);
    assert(s.skip(a.len() as int) =~= u);
    lemma_amount_without_point(a);
    assert(pow10(0) == 1);
    let x = digits_value(a) * unit_nanos(u)->0;
    assert(x / 1 == x);
    assert(amount_end(s) == a.len());
    assert(amount_value(s.take(amount_end(s))) == Some((digits_value(a), 0nat)));
    assert(unit_nanos(s.skip(amount_end(s))) == unit_nanos(u));
}

} // verus!
