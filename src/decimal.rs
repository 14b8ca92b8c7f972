//! Exact decimal numbers, the numeric model of grades, weights and averages.
//!
//! A number is written as an optional sign, then digits with at most one point
//! among them (at least one digit in all), then optionally `e` or `E` and an
//! exponent: an optional sign and digits. Without an exponent its value is
//! `mantissa / 10^scale`, where the mantissa is the integer that its digits
//! spell and the scale is the number of digits after the point; an exponent
//! moves the point, and a zero with an exponent is plain zero.
use vstd::arithmetic::div_mod::{
    lemma_fundamental_div_mod, lemma_mod_breakdown, lemma_mod_pos_bound, lemma_small_mod,
};
use vstd::prelude::*;
use crate::text::views;

verus! {

/// Ten to the power `k`.
pub open spec fn pow10(k: nat) -> nat
    decreases k,
{
    if k == 0 {
        1
    } else {
        10 * pow10((k - 1) as nat)
    }
}

pub open spec fn is_digit(c: char) -> bool {
    '0' <= c && c <= '9'
}

pub open spec fn all_digits(d: Seq<char>) -> bool {
    forall|i: int| 0 <= i < d.len() ==> is_digit(#[trigger] d[i])
}

pub open spec fn digit_value(c: char) -> nat {
    ((c as u32) - 48) as nat
}

/// The natural number that a run of decimal digits spells.
pub open spec fn digits_value(d: Seq<char>) -> nat
    decreases d.len(),
{
    if d.len() == 0 {
        0
    } else {
        digits_value(d.drop_last()) * 10 + digit_value(d.last())
    }
}

/// `s` is digits with a point at position `p` among them, and at least one digit.
pub open spec fn point_at(s: Seq<char>, p: int) -> bool {
    &&& 0 <= p < s.len()
    &&& s.len() >= 2
    &&& s[p] == '.'
    &&& all_digits(s.subrange(0, p))
    &&& all_digits(s.subrange(p + 1, s.len() as int))
}

/// The digits of a number before its exponent: its mantissa and scale.
pub open spec fn parse_significand(s: Seq<char>) -> Option<(nat, nat)> {
    if s.len() > 0 && all_digits(s) {
        Some((digits_value(s), 0nat))
    } else if exists|p: int| point_at(s, p) {
        let p = choose|p: int| point_at(s, p);
        Some((digits_value(s.subrange(0, p) + s.subrange(p + 1, s.len() as int)), (s.len() - p - 1) as nat))
    } else {
        None
    }
}

pub open spec fn is_exponent_mark(c: char) -> bool {
    c == 'e' || c == 'E'
}

/// `q` is the position of the first exponent mark of `s`.
pub open spec fn exponent_at(s: Seq<char>, q: int) -> bool {
    &&& 0 <= q < s.len()
    &&& is_exponent_mark(s[q])
    &&& forall|j: int| 0 <= j < q ==> !is_exponent_mark(#[trigger] s[j])
}

/// An exponent: an optional sign and at least one digit.
pub open spec fn parse_exponent(s: Seq<char>) -> Option<int> {
    let signed = s.len() > 0 && (s[0] == '-' || s[0] == '+');
    let d = if signed {
        s.drop_first()
    } else {
        s
    };
    if d.len() > 0 && all_digits(d) {
        Some(
            if signed && s[0] == '-' {
                -digits_value(d)
            } else {
                digits_value(d) as int
            },
        )
    } else {
        None
    }
}

/// The mantissa and scale of `m / 10^k * 10^e`; zero is plain zero.
pub open spec fn scaled(m: nat, k: nat, e: int) -> (nat, nat) {
    if m == 0 {
        (0, 0)
    } else if e >= k {
        (m * pow10((e - k) as nat), 0)
    } else {
        (m, (k - e) as nat)
    }
}

/// An unsigned number: its mantissa and scale, or `None` when `s` is not one.
pub open spec fn parse_unsigned(s: Seq<char>) -> Option<(nat, nat)> {
    if exists|q: int| exponent_at(s, q) {
        let q = choose|q: int| exponent_at(s, q);
        match (parse_significand(s.subrange(0, q)), parse_exponent(s.subrange(q + 1, s.len() as int))) {
            (Some((m, k)), Some(e)) => Some(scaled(m, k, e)),
            _ => None,
        }
    } else {
        parse_significand(s)
    }
}

/// A signed number: its mantissa and scale, or `None` when `s` is not one.
pub open spec fn parse_number(s: Seq<char>) -> Option<(int, nat)> {
    if s.len() > 0 && s[0] == '-' {
        match parse_unsigned(s.drop_first()) {
            Some((n, k)) => Some((-n, k)),
            None => None,
        }
    } else if s.len() > 0 && s[0] == '+' {
        match parse_unsigned(s.drop_first()) {
            Some((n, k)) => Some((n as int, k)),
            None => None,
        }
    } else {
        match parse_unsigned(s) {
            Some((n, k)) => Some((n as int, k)),
            None => None,
        }
    }
}

pub open spec fn abs(m: int) -> nat {
    if m < 0 {
        (-m) as nat
    } else {
        m as nat
    }
}

/// A parsed number kept only when its mantissa is below `limit` in magnitude
/// and it has at most `max_scale` digits after the point.
pub open spec fn bounded(p: Option<(int, nat)>, limit: nat, max_scale: nat) -> Option<(int, nat)> {
    match p {
        Some((m, k)) => if abs(m) < limit && k <= max_scale {
            Some((m, k))
        } else {
            None
        },
        None => None,
    }
}

/// A decimal number `mantissa / 10^scale`.
#[derive(Clone, Copy, Debug, PartialEq, Eq, Structural)]
pub struct Decimal {
    pub mantissa: i128,
    pub scale: u32,
}

impl Decimal {
    pub open spec fn model(self) -> (int, nat) {
        (self.mantissa as int, self.scale as nat)
    }
}

pub open spec fn model_of(d: Option<Decimal>) -> Option<(int, nat)> {
    match d {
        Some(x) => Some(x.model()),
        None => None,
    }
}

pub proof fn lemma_pow10_36()
    ensures
        pow10(36) == 1_000_000_000_000_000_000_000_000_000_000_000_000nat,
{
    reveal_with_fuel(pow10, 37);
}

/// The digit that `c` stands for, when it is one.
fn digit_of(c: char) -> (r: Option<u32>)
    ensures
        r == (if is_digit(c) {
            Some(digit_value(c) as u32)
        } else {
            None::<u32>
        }),
{
    if '0' <= c && c <= '9' {
        Some((c as u32) - 48)
    } else {
        None
    }
}

/// The significand in `c[from..to]`: its digits' value, whether that value
/// reaches `limit` (the value is then not kept), and its scale.
fn significand(c: &Vec<char>, from: usize, to: usize, limit: u128) -> (r: Option<(u128, bool, usize)>)
    requires
        from <= to <= c@.len(),
        0 < limit <= pow10(36),
    ensures
        r is None <==> parse_significand(c@.subrange(from as int, to as int)) is None,
        r matches Some((a, over, k)) ==> ({
            let (m, kk) = parse_significand(c@.subrange(from as int, to as int))->Some_0;
            &&& k == kk
            &&& (over <==> m >= limit)
            &&& (!over ==> a == m)
        }),
{
    proof {
        lemma_pow10_36();
    }
    let ghost u = c@.subrange(from as int, to as int);
    let mut acc: u128 = 0;
    let mut over = false;
    let mut point: usize = to;
    let ghost mut digs: Seq<char> = Seq::empty();
    let mut i: usize = from;
    while i < to
        invariant
            from <= i <= to <= c@.len(),
            u == c@.subrange(from as int, to as int),
            0 < limit <= pow10(36),
            pow10(36) == 1_000_000_000_000_000_000_000_000_000_000_000_000nat,
            point == to || (from <= point < i && c@[point as int] == '.'),
            forall|j: int| from <= j < i && j != point ==> is_digit(#[trigger] c@[j]),
            digs == (if point == to {
                c@.subrange(from as int, i as int)
            } else {
                c@.subrange(from as int, point as int) + c@.subrange(point + 1, i as int)
            }),
            over ==> digits_value(digs) >= limit,
            !over ==> acc == digits_value(digs) && acc < limit,
        decreases to - i,
    {
        let ch = c[i];
        match digit_of(ch) {
            Some(d) => {
                let ghost next_digs = digs.push(ch);
                assert(next_digs.drop_last() == digs);
                if !over {
                    let next = acc * 10 + d as u128;
                    if next >= limit {
                        over = true;
                    } else {
                        acc = next;
                    }
                }
                proof {
                    if point == to {
                        assert(c@.subrange(from as int, i + 1) =~= next_digs);
                    } else {
                        assert(c@.subrange(from as int, point as int) + c@.subrange(point + 1, i + 1) =~= next_digs);
                    }
                    digs = next_digs;
                }
            },
            None => {
                if ch == '.' && point == to {
                    point = i;
                    assert(c@.subrange(point + 1, i + 1) =~= Seq::<char>::empty());
                    assert(digs =~= c@.subrange(from as int, point as int) + c@.subrange(point + 1, i + 1));
                } else {
                    proof {
                        assert(!all_digits(u)) by {
                            assert(u[i - from] == ch);
                        }
                        assert forall|p: int| !point_at(u, p) by {
                            if point_at(u, p) {
                                if p != i - from {
                                    if i - from < p {
                                        assert(u.subrange(0, p)[i - from] == ch);
                                    } else {
                                        assert(u.subrange(p + 1, u.len() as int)[i - from - p - 1] == ch);
                                    }
                                } else if point != to {
                                    if point - from < p {
                                        assert(u.subrange(0, p)[point - from] == '.');
                                    }
                                }
                            }
                        }
                    }
                    return None;
                }
            },
        }
        i = i + 1;
    }
    if to == from || (point != to && to - from == 1) {
        proof {
            assert forall|p: int| !point_at(u, p) by {}
            if to != from {
                assert(u[0] == '.');
            }
        }
        return None;
    }
    let k: usize = if point == to {
        0
    } else {
        to - point - 1
    };
    proof {
        if point == to {
            assert(digs =~= u);
            assert(all_digits(u)) by {
                assert forall|j: int| 0 <= j < u.len() implies is_digit(#[trigger] u[j]) by {
                    assert(u[j] == c@[from + j]);
                }
            }
        } else {
            let q = point - from;
            assert(!all_digits(u)) by {
                assert(u[q] == '.');
            }
            assert(point_at(u, q as int)) by {
                assert forall|j: int| 0 <= j < q implies is_digit(#[trigger] u.subrange(0, q as int)[j]) by {
                    assert(u.subrange(0, q as int)[j] == c@[from + j]);
                }
                assert forall|j: int| 0 <= j < u.len() - q - 1 implies is_digit(
                    #[trigger] u.subrange(q + 1, u.len() as int)[j],
                ) by {
                    assert(u.subrange(q + 1, u.len() as int)[j] == c@[point + 1 + j]);
                }
            }
            let p = choose|p: int| point_at(u, p);
            assert(p == q) by {
                if p < q {
                    assert(u.subrange(p + 1, u.len() as int)[q - p - 1] == '.');
                } else if p > q {
                    assert(u.subrange(0, p)[q as int] == '.');
                }
            }
            assert(u.subrange(0, p) + u.subrange(p + 1, u.len() as int) =~= digs);
        }
    }
    Some((acc, over, k))
}

/// The magnitude above which an exponent is not kept.
pub const EXPONENT_CAP: u128 = 1_267_650_600_228_229_401_496_703_205_376;

/// The exponent in `c[from..to]`: whether it is negative, its magnitude, and
/// whether that magnitude exceeds `EXPONENT_CAP` (it is then not kept).
fn exponent(c: &Vec<char>, from: usize, to: usize) -> (r: Option<(bool, u128, bool)>)
    requires
        from <= to <= c@.len(),
    ensures
        r is None <==> parse_exponent(c@.subrange(from as int, to as int)) is None,
        r matches Some((neg, a, over)) ==> ({
            let e = parse_exponent(c@.subrange(from as int, to as int))->Some_0;
            &&& (neg ==> e <= 0)
            &&& (!neg ==> e >= 0)
            &&& (over <==> abs(e) > EXPONENT_CAP)
            &&& (!over ==> a == abs(e))
        }),
{
    let ghost u = c@.subrange(from as int, to as int);
    let mut start = from;
    let mut neg = false;
    if from < to && (c[from] == '-' || c[from] == '+') {
        neg = c[from] == '-';
        start = from + 1;
    }
    let ghost d = c@.subrange(start as int, to as int);
    proof {
        if start == from + 1 {
            assert(d =~= u.drop_first());
            assert(u[0] == c@[from as int]);
        } else {
            assert(d =~= u);
            if u.len() > 0 {
                assert(u[0] == c@[from as int]);
            }
        }
    }
    if start == to {
        return None;
    }
    let mut a: u128 = 0;
    let mut over = false;
    let mut i: usize = start;
    while i < to
        invariant
            start <= i <= to <= c@.len(),
            u == c@.subrange(from as int, to as int),
            d == c@.subrange(start as int, to as int),
            d == (if u.len() > 0 && (u[0] == '-' || u[0] == '+') {
                u.drop_first()
            } else {
                u
            }),
            neg <==> (u.len() > 0 && u[0] == '-'),
            all_digits(c@.subrange(start as int, i as int)),
            over ==> digits_value(c@.subrange(start as int, i as int)) > EXPONENT_CAP,
            !over ==> a == digits_value(c@.subrange(start as int, i as int)) && a <= EXPONENT_CAP,
        decreases to - i,
    {
        let ghost prev = c@.subrange(start as int, i as int);
        let ghost next = c@.subrange(start as int, i + 1);
        assert(next.drop_last() =~= prev);
        match digit_of(c[i]) {
            Some(v) => {
                if !over {
                    let x = a * 10 + v as u128;
                    if x > EXPONENT_CAP {
                        over = true;
                    } else {
                        a = x;
                    }
                }
                assert forall|j: int| 0 <= j < next.len() implies is_digit(#[trigger] next[j]) by {
                    if j < prev.len() {
                        assert(next[j] == prev[j]);
                    }
                }
            },
            None => {
                assert(!all_digits(d)) by {
                    assert(d[i - start] == c@[i as int]);
                }
                return None;
            },
        }
        i = i + 1;
    }
    assert(c@.subrange(start as int, to as int) == d);
    Some((neg, a, over))
}

/// Parses `s` as a number whose mantissa is below `limit` in magnitude and
/// that has at most `max_scale` digits after the point.
pub fn parse_decimal(s: &str, limit: u128, max_scale: u32) -> (r: Option<Decimal>)
    requires
        0 < limit <= pow10(36),
    ensures
        model_of(r) == bounded(parse_number(s@), limit as nat, max_scale as nat),
{
    proof {
        lemma_pow10_36();
    }
    let c = crate::text::chars_of(s);
    let n = c.len();
    let mut start: usize = 0;
    let mut neg = false;
    if n > 0 && c[0] == '-' {
        neg = true;
        start = 1;
    } else if n > 0 && c[0] == '+' {
        start = 1;
    }
    let ghost u = c@.subrange(start as int, n as int);
    proof {
        if start == 1 {
            assert(u == s@.drop_first());
        } else {
            assert(u =~= s@);
        }
    }
    let mut q: usize = start;
    while q < n && !(c[q] == 'e' || c[q] == 'E')
        invariant
            start <= q <= n,
            n == c@.len(),
            forall|j: int| start <= j < q ==> !is_exponent_mark(#[trigger] c@[j]),
        decreases n - q,
    {
        q = q + 1;
    }
    if q == n {
        proof {
            assert forall|x: int| !exponent_at(u, x) by {
                if 0 <= x < u.len() {
                    assert(u[x] == c@[start + x]);
                }
            }
            assert(u =~= c@.subrange(start as int, n as int));
        }
        return match significand(&c, start, n, limit) {
            None => None,
            Some((a, over, k)) => {
                if over || k > max_scale as usize {
                    None
                } else {
                    let m: i128 = if neg {
                        -(a as i128)
                    } else {
                        a as i128
                    };
                    Some(Decimal { mantissa: m, scale: k as u32 })
                }
            },
        };
    }
    let ghost qq = q - start;
    proof {
        assert(exponent_at(u, qq)) by {
            assert forall|j: int| 0 <= j < qq implies !is_exponent_mark(#[trigger] u[j]) by {
                assert(u[j] == c@[start + j]);
            }
        }
        let x = choose|x: int| exponent_at(u, x);
        if x < qq {
            assert(u[x] == c@[start + x]);
        } else if x > qq {
            assert(!is_exponent_mark(u[qq]));
        }
        assert(u.subrange(0, qq) =~= c@.subrange(start as int, q as int));
        assert(u.subrange(qq + 1, u.len() as int) =~= c@.subrange(q + 1, n as int));
    }
    let sig = significand(&c, start, q, limit);
    let ex = exponent(&c, q + 1, n);
    match (sig, ex) {
        (Some((a, over, k)), Some((eneg, e_abs, e_over))) => {
            let ghost m = parse_significand(c@.subrange(start as int, q as int))->Some_0.0;
            let ghost e = parse_exponent(c@.subrange(q + 1, n as int))->Some_0;
            combine(neg, a, over, k, eneg, e_abs, e_over, limit, max_scale, Ghost(m), Ghost(e))
        },
        _ => None,
    }
}

/// A number with the given sign whose magnitude is `(m, k)` moved by `e` places.
pub open spec fn with_sign(neg: bool, p: (nat, nat)) -> (int, nat) {
    (if neg {
        -p.0
    } else {
        p.0 as int
    }, p.1)
}

/// The number with significand `m` of scale `k`, given as `a` unless it reaches
/// `limit`, and exponent `e`, given as `e_abs` unless it exceeds the cap.
fn combine(
    neg: bool,
    a: u128,
    over: bool,
    k: usize,
    eneg: bool,
    e_abs: u128,
    e_over: bool,
    limit: u128,
    max_scale: u32,
    Ghost(m): Ghost<nat>,
    Ghost(e): Ghost<int>,
) -> (r: Option<Decimal>)
    requires
        0 < limit <= pow10(36),
        over <==> m >= limit,
        !over ==> a == m,
        eneg ==> e <= 0,
        !eneg ==> e >= 0,
        e_over <==> abs(e) > EXPONENT_CAP,
        !e_over ==> e_abs == abs(e),
    ensures
        model_of(r) == bounded(Some(with_sign(neg, scaled(m, k as nat, e))), limit as nat, max_scale as nat),
{
    proof {
        lemma_pow10_36();
    }
    if !over && a == 0 {
        return Some(Decimal { mantissa: 0, scale: 0 });
    }
    if over {
        proof {
            if e >= k {
                lemma_pow10_positive((e - k) as nat);
                assert(m * pow10((e - k) as nat) >= m) by (nonlinear_arith)
                    requires pow10((e - k) as nat) >= 1;
            }
        }
        return None;
    }
    if e_over {
        proof {
            if e >= k {
                assert(k <= 18_446_744_073_709_551_615nat);
                lemma_pow10_monotone(37, (e - k) as nat);
                assert(pow10(37) == 10 * pow10(36));
                assert(m * pow10((e - k) as nat) >= pow10((e - k) as nat)) by (nonlinear_arith)
                    requires m >= 1;
            }
        }
        return None;
    }
    if eneg || e_abs < k as u128 {
        let sc: u128 = if eneg {
            k as u128 + e_abs
        } else {
            k as u128 - e_abs
        };
        proof {
            if e >= k {
                assert(e == k && e == 0);
                assert(pow10(0) == 1);
                assert(m * pow10(0) == m);
            }
            assert(sc == (if e >= k { 0 } else { k - e }));
        }
        if sc > max_scale as u128 {
            return None;
        }
        let mm: i128 = if neg {
            -(a as i128)
        } else {
            a as i128
        };
        return Some(Decimal { mantissa: mm, scale: sc as u32 });
    }
    let d: u128 = e_abs - k as u128;
    let mut v: u128 = a;
    let mut j: u128 = 0;
    assert(pow10(0) == 1);
    assert(m * pow10(0) == m);
    while j < d
        invariant
            j <= d,
            d == e - k,
            v == m * pow10(j as nat),
            v < limit,
            m >= 1,
            0 < limit <= pow10(36),
            pow10(36) == 1_000_000_000_000_000_000_000_000_000_000_000_000nat,
        decreases d - j,
    {
        let x = v * 10;
        assert(x == m * pow10((j + 1) as nat)) by (nonlinear_arith)
            requires x == v * 10, v == m * pow10(j as nat), pow10((j + 1) as nat) == 10 * pow10(j as nat);
        if x >= limit {
            proof {
                lemma_pow10_monotone((j + 1) as nat, d as nat);
                assert(m * pow10(d as nat) >= m * pow10((j + 1) as nat)) by (nonlinear_arith)
                    requires pow10(d as nat) >= pow10((j + 1) as nat), m >= 1;
            }
            return None;
        }
        v = x;
        j = j + 1;
    }
    let mm: i128 = if neg {
        -(v as i128)
    } else {
        v as i128
    };
    Some(Decimal { mantissa: mm, scale: 0 })
}

/// The character of the digit `d % 10`.
pub open spec fn digit_char(d: nat) -> char {
    (((d % 10) + 48) as u32) as char
}

/// The decimal digits of `n`, without leading zeros (`0` for zero).
pub open spec fn nat_digits(n: nat) -> Seq<char>
    decreases n,
{
    if n < 10 {
        seq![digit_char(n)]
    } else {
        nat_digits(n / 10).push(digit_char(n % 10))
    }
}

/// The last `w` decimal digits of `n`, with leading zeros.
pub open spec fn padded_digits(n: nat, w: nat) -> Seq<char>
    decreases w,
{
    if w == 0 {
        Seq::empty()
    } else {
        padded_digits(n / 10, (w - 1) as nat).push(digit_char(n % 10))
    }
}

/// `n / 10^k` written with exactly `k` digits after the point (no point when `k` is zero).
pub open spec fn unsigned_text(n: nat, k: nat) -> Seq<char> {
    if k == 0 {
        nat_digits(n)
    } else {
        nat_digits(n / pow10(k)) + seq!['.'] + padded_digits(n % pow10(k), k)
    }
}

/// The text of the number `m / 10^k`, with exactly `k` digits after the point.
pub open spec fn decimal_text(m: int, k: nat) -> Seq<char> {
    if m < 0 {
        seq!['-'] + unsigned_text(abs(m), k)
    } else {
        unsigned_text(abs(m), k)
    }
}

proof fn lemma_digit_char(d: nat)
    requires
        d < 10,
    ensures
        is_digit(digit_char(d)),
        digit_value(digit_char(d)) == d,
{
}

pub proof fn lemma_pow10_positive(k: nat)
    ensures
        pow10(k) >= 1,
    decreases k,
{
    if k > 0 {
        lemma_pow10_positive((k - 1) as nat);
    }
}

pub proof fn lemma_pow10_monotone(a: nat, b: nat)
    requires
        a <= b,
    ensures
        pow10(a) <= pow10(b),
    decreases b,
{
    if a < b {
        lemma_pow10_monotone(a, (b - 1) as nat);
        lemma_pow10_positive((b - 1) as nat);
    }
}

proof fn lemma_nat_digits(n: nat)
    ensures
        nat_digits(n).len() > 0,
        all_digits(nat_digits(n)),
        digits_value(nat_digits(n)) == n,
    decreases n,
{
    lemma_digit_char(n % 10);
    if n < 10 {
        assert(nat_digits(n).drop_last() =~= Seq::<char>::empty());
        assert(digits_value(nat_digits(n)) == digits_value(Seq::<char>::empty()) * 10 + n % 10);
    } else {
        lemma_nat_digits(n / 10);
        let d = nat_digits(n);
        assert(d.drop_last() == nat_digits(n / 10));
        lemma_fundamental_div_mod(n as int, 10);
        assert(digits_value(d) == (n / 10) * 10 + n % 10);
        assert forall|i: int| 0 <= i < d.len() implies is_digit(#[trigger] d[i]) by {
            if i < d.len() - 1 {
                assert(d[i] == nat_digits(n / 10)[i]);
            }
        }
    }
}

proof fn lemma_padded_digits(n: nat, w: nat)
    ensures
        padded_digits(n, w).len() == w,
        all_digits(padded_digits(n, w)),
        digits_value(padded_digits(n, w)) == n % pow10(w),
    decreases w,
{
    if w > 0 {
        let w1 = (w - 1) as nat;
        lemma_padded_digits(n / 10, w1);
        lemma_digit_char(n % 10);
        let d = padded_digits(n, w);
        assert(d.drop_last() == padded_digits(n / 10, w1));
        assert forall|i: int| 0 <= i < d.len() implies is_digit(#[trigger] d[i]) by {
            if i < d.len() - 1 {
                assert(d[i] == padded_digits(n / 10, w1)[i]);
            }
        }
        lemma_pow10_positive(w1);
        lemma_mod_breakdown(n as int, 10, pow10(w1) as int);
        assert(digits_value(d) == ((n / 10) % pow10(w1)) * 10 + n % 10);
        assert(((n / 10) % pow10(w1)) * 10 == 10 * ((n / 10) % pow10(w1))) by (nonlinear_arith);
    }
}

proof fn lemma_concat_value(a: Seq<char>, b: Seq<char>)
    ensures
        digits_value(a + b) == digits_value(a) * pow10(b.len()) + digits_value(b),
    decreases b.len(),
{
    if b.len() == 0 {
        assert(a + b =~= a);
        assert(digits_value(b) == 0);
        assert(pow10(0) == 1);
    } else {
        let b1 = b.drop_last();
        lemma_concat_value(a, b1);
        assert((a + b).drop_last() =~= a + b1);
        assert((a + b).last() == b.last());
        let x = digits_value(a);
        let p = pow10(b1.len());
        assert(pow10(b.len()) == 10 * p);
        assert(digits_value(a + b) == digits_value(a + b1) * 10 + digit_value(b.last()));
        assert(digits_value(b) == digits_value(b1) * 10 + digit_value(b.last()));
        let y = digits_value(b1);
        let z = digit_value(b.last());
        assert((x * p + y) * 10 + z == x * (10 * p) + (y * 10 + z)) by (nonlinear_arith);
    }
}

/// Reading back the text of a number gives that number, mantissa and scale alike.
pub proof fn lemma_text_round_trip(m: int, k: nat)
    ensures
        parse_number(decimal_text(m, k)) == Some((m, k)),
{
    let n = abs(m);
    let u = unsigned_text(n, k);
    if k == 0 {
        lemma_nat_digits(n);
        assert(parse_significand(u) == Some((n, 0nat)));
        assert forall|q: int| !exponent_at(u, q) by {
            if 0 <= q < u.len() {
                assert(is_digit(u[q]));
            }
        }
    } else {
        let p = pow10(k);
        lemma_pow10_positive(k);
        let a = nat_digits(n / p);
        let b = padded_digits(n % p, k);
        lemma_nat_digits(n / p);
        lemma_padded_digits(n % p, k);
        let q = a.len() as int;
        assert(u.subrange(0, q) =~= a);
        assert(u.subrange(q + 1, u.len() as int) =~= b);
        assert(u[q] == '.');
        assert(point_at(u, q));
        assert(!all_digits(u));
        assert(u.len() >= 2);
        let c = choose|c: int| point_at(u, c);
        assert(c == q) by {
            if c < q {
                assert(u.subrange(c + 1, u.len() as int)[q - c - 1] == '.');
            } else if c > q {
                assert(u.subrange(0, c)[q] == '.');
            }
        }
        lemma_concat_value(a, b);
        lemma_fundamental_div_mod(n as int, p as int);
        assert((n / p) * p == p * (n / p)) by (nonlinear_arith);
        assert(u.subrange(0, c) + u.subrange(c + 1, u.len() as int) == a + b);
        lemma_mod_pos_bound(n as int, p as int);
        lemma_small_mod(n % p, p);
        assert(digits_value(a + b) == n);
        assert(u.len() - c - 1 == k);
        assert(parse_significand(u) == Some((n, k)));
        assert forall|x: int| !exponent_at(u, x) by {
            if 0 <= x < u.len() {
                if x < q {
                    assert(u.subrange(0, q)[x] == u[x]);
                } else if x > q {
                    assert(u.subrange(q + 1, u.len() as int)[x - q - 1] == u[x]);
                }
            }
        }
    }
    lemma_nat_digits(if k == 0 { n } else { n / pow10(k) });
    assert(is_digit(u[0]));
    if m < 0 {
        assert((seq!['-'] + u).drop_first() =~= u);
    }
}

/// Appends the decimal digits of `n`.
fn push_nat_digits(n: u128, out: &mut String)
    ensures
        final(out)@ == old(out)@ + nat_digits(n as nat),
    decreases n,
{
    if n >= 10 {
        push_nat_digits(n / 10, out);
    }
    crate::text::push_char(out, (((n % 10) as u8) + 48) as char);
    proof {
        if n < 10 {
            assert(old(out)@ + nat_digits(n as nat) =~= old(out)@.push(digit_char(n as nat)));
        } else {
            assert(old(out)@ + nat_digits(n as nat) =~= (old(out)@ + nat_digits((n / 10) as nat)).push(
                digit_char(n as nat),
            ));
        }
    }
}

/// Appends the last `w` decimal digits of `n`, with leading zeros.
fn push_padded_digits(n: u128, w: u32, out: &mut String)
    ensures
        final(out)@ == old(out)@ + padded_digits(n as nat, w as nat),
    decreases w,
{
    if w > 0 {
        push_padded_digits(n / 10, w - 1, out);
        crate::text::push_char(out, (((n % 10) as u8) + 48) as char);
        assert(old(out)@ + padded_digits(n as nat, w as nat) =~= (old(out)@ + padded_digits(
            (n / 10) as nat,
            (w - 1) as nat,
        )).push(digit_char(n as nat)));
    } else {
        assert(old(out)@ + padded_digits(n as nat, w as nat) =~= old(out)@);
    }
}

/// Ten to the power `k`.
pub fn pow10_u128(k: u32) -> (r: u128)
    requires
        k <= 36,
    ensures
        r == pow10(k as nat),
{
    proof {
        lemma_pow10_36();
    }
    let mut r: u128 = 1;
    let mut i: u32 = 0;
    while i < k
        invariant
            i <= k <= 36,
            r == pow10(i as nat),
            pow10(36) == 1_000_000_000_000_000_000_000_000_000_000_000_000nat,
        decreases k - i,
    {
        proof {
            lemma_pow10_monotone((i + 1) as nat, 36);
        }
        r = r * 10;
        i = i + 1;
    }
    r
}

/// Appends the text of `n / 10^k` with exactly `k` digits after the point.
fn push_unsigned_text(n: u128, k: u32, out: &mut String)
    requires
        k <= 36,
    ensures
        final(out)@ == old(out)@ + unsigned_text(n as nat, k as nat),
{
    if k == 0 {
        push_nat_digits(n, out);
    } else {
        let p = pow10_u128(k);
        proof {
            lemma_pow10_positive(k as nat);
        }
        push_nat_digits(n / p, out);
        out.append(".");
        push_padded_digits(n % p, k, out);
        proof {
            reveal_strlit(".");
            assert(old(out)@ + unsigned_text(n as nat, k as nat) =~= old(out)@ + nat_digits(
                (n / p) as nat,
            ) + seq!['.'] + padded_digits((n % p) as nat, k as nat));
        }
    }
}

/// The text of a number, with exactly as many digits after the point as its scale.
pub fn decimal_string(d: Decimal) -> (r: String)
    requires
        abs(d.mantissa as int) < pow10(36),
        d.scale <= 36,
    ensures
        r@ == decimal_text(d.mantissa as int, d.scale as nat),
{
    proof {
        lemma_pow10_36();
    }
    let mut out = String::new();
    let n: u128 = if d.mantissa < 0 {
        out.append("-");
        proof {
            reveal_strlit("-");
        }
        (-d.mantissa) as u128
    } else {
        d.mantissa as u128
    };
    push_unsigned_text(n, d.scale, &mut out);
    proof {
        if d.mantissa < 0 {
            assert(out@ =~= seq!['-'] + unsigned_text(abs(d.mantissa as int), d.scale as nat));
        } else {
            assert(out@ =~= unsigned_text(abs(d.mantissa as int), d.scale as nat));
        }
    }
    out
}

/// The largest magnitude (exclusive) of a grade or a weight's mantissa.
pub const INPUT_LIMIT: u128 = 1_000_000_000_000_000_000;

/// The most digits after the point that a grade or a weight may have.
pub const INPUT_SCALE: u32 = 9;

pub proof fn lemma_pow10_18()
    ensures
        pow10(18) == 1_000_000_000_000_000_000nat,
{
    reveal_with_fuel(pow10, 19);
}

/// The product of two numbers, exact.
pub fn product(a: Decimal, b: Decimal) -> (r: Decimal)
    requires
        abs(a.mantissa as int) < INPUT_LIMIT,
        abs(b.mantissa as int) < INPUT_LIMIT,
        a.scale <= INPUT_SCALE,
        b.scale <= INPUT_SCALE,
    ensures
        r.mantissa == a.mantissa * b.mantissa,
        r.scale == a.scale + b.scale,
        abs(r.mantissa as int) < pow10(36),
{
    proof {
        lemma_pow10_36();
        let x = a.mantissa as int;
        let y = b.mantissa as int;
        assert(abs(x * y) == abs(x) * abs(y)) by (nonlinear_arith);
        assert(abs(x) * abs(y) < 1_000_000_000_000_000_000_000_000_000_000_000_000) by (nonlinear_arith)
            requires
                abs(x) < 1_000_000_000_000_000_000,
                abs(y) < 1_000_000_000_000_000_000,
        ;
    }
    Decimal { mantissa: a.mantissa * b.mantissa, scale: a.scale + b.scale }
}

/// The largest magnitude (exclusive) of the mantissa of an accumulated value.
pub const VALUE_LIMIT: u128 = 1_000_000_000_000_000_000_000_000_000_000_000_000;

/// The most digits after the point that an accumulated value may have.
pub const VALUE_SCALE: u32 = 18;

/// The digits after the point to which an average is rounded: the scale of
/// accumulated values, so a mean that ends within it is exact.
pub const AVERAGE_SCALE: u32 = 18;

/// An accumulated value: a number with a mantissa below `10^36` in magnitude
/// and at most 18 digits after the point.
pub open spec fn value_of(v: Seq<char>) -> Option<(int, nat)> {
    bounded(parse_number(v), pow10(36), 18)
}

/// An accumulated value in units of `10^-18` (zero when `v` is not one).
pub open spec fn aligned(v: Seq<char>) -> int {
    match value_of(v) {
        Some((m, k)) => m * pow10((18 - k) as nat),
        None => 0,
    }
}

/// The sum of `f` over the values, in order.
pub open spec fn sum_of(vals: Seq<Seq<char>>, f: spec_fn(Seq<char>) -> int) -> int
    decreases vals.len(),
{
    if vals.len() == 0 {
        0
    } else {
        sum_of(vals.drop_last(), f) + f(vals.last())
    }
}

/// The exact sum of the values, in units of `10^-18`.
pub open spec fn aligned_sum(vals: Seq<Seq<char>>) -> int {
    sum_of(vals, |v: Seq<char>| aligned(v))
}

/// The sum of the magnitudes of the values, in units of `10^-18`.
pub open spec fn magnitude_sum(vals: Seq<Seq<char>>) -> int {
    sum_of(vals, |v: Seq<char>| abs(aligned(v)) as int)
}

/// `a / b` rounded to the nearest integer, halves upwards.
pub open spec fn round_div(a: nat, b: nat) -> nat {
    (2 * a + b) / (2 * b)
}

/// The mean of non-empty values, `sum / count`, in units of `10^-18`, rounded
/// half away from zero.
pub open spec fn average_units(vals: Seq<Seq<char>>) -> int {
    let s = aligned_sum(vals);
    let q = round_div(abs(s), vals.len()) as int;
    if s < 0 {
        -q
    } else {
        q
    }
}

/// Digits with the zeros at their end taken off, keeping at least one.
pub open spec fn trim_zeros(d: Seq<char>) -> Seq<char>
    decreases d.len(),
{
    if d.len() > 1 && d.last() == '0' {
        trim_zeros(d.drop_last())
    } else {
        d
    }
}

/// The text of `q / 10^18` with at least one and at most 18 digits after the
/// point, the zeros at the end taken off.
pub open spec fn average_text(q: int) -> Seq<char> {
    let n = abs(q);
    let body = nat_digits(n / pow10(18)) + seq!['.'] + trim_zeros(padded_digits(n % pow10(18), 18));
    if q < 0 {
        seq!['-'] + body
    } else {
        body
    }
}

/// The mean of the values as text, or `None` when there are none, when one is not
/// a number within bounds, or when their magnitudes add up to more than `10^18`.
pub open spec fn average_of(vals: Seq<Seq<char>>) -> Option<Seq<char>> {
    if vals.len() > 0 && (forall|i: int| 0 <= i < vals.len() ==> (#[trigger] value_of(vals[i])) is Some)
        && magnitude_sum(vals) <= pow10(36) {
        Some(average_text(average_units(vals)))
    } else {
        None
    }
}

pub open spec fn text_of(r: Option<String>) -> Option<Seq<char>> {
    match r {
        Some(s) => Some(s@),
        None => None,
    }
}

proof fn lemma_magnitude_prefix(vals: Seq<Seq<char>>, j: int)
    requires
        0 <= j <= vals.len(),
    ensures
        magnitude_sum(vals.take(j)) <= magnitude_sum(vals),
    decreases vals.len(),
{
    if j < vals.len() {
        lemma_magnitude_prefix(vals.drop_last(), j);
        assert(vals.drop_last().take(j) =~= vals.take(j));
    } else {
        assert(vals.take(j) =~= vals);
    }
}

/// Appends the fraction digits of an average, without the zeros at their end.
fn push_trimmed_fraction(frac: u128, out: &mut String)
    requires
        frac < pow10(18),
    ensures
        final(out)@ == old(out)@ + trim_zeros(padded_digits(frac as nat, 18)),
{
    let mut f = frac;
    let mut w: u32 = 18;
    while w > 1 && f % 10 == 0
        invariant
            1 <= w <= 18,
            trim_zeros(padded_digits(f as nat, w as nat)) == trim_zeros(padded_digits(frac as nat, 18)),
        decreases w,
    {
        proof {
            let d = padded_digits(f as nat, w as nat);
            lemma_padded_digits((f / 10) as nat, (w - 1) as nat);
            assert(d.last() == '0');
            assert(d.drop_last() == padded_digits((f / 10) as nat, (w - 1) as nat));
        }
        f = f / 10;
        w = w - 1;
    }
    proof {
        lemma_padded_digits(f as nat, w as nat);
        let d = padded_digits(f as nat, w as nat);
        if w > 1 {
            assert(d.last() == digit_char((f % 10) as nat));
            assert(d.last() != '0');
        }
        assert(trim_zeros(d) == d);
    }
    push_padded_digits(f, w, out);
}

/// The text of an average given in units of `10^-18`.
fn average_string(q: i128) -> (r: String)
    requires
        abs(q as int) <= pow10(36),
    ensures
        r@ == average_text(q as int),
{
    proof {
        lemma_pow10_36();
        lemma_pow10_18();
    }
    let unit: u128 = 1_000_000_000_000_000_000;
    let mut out = String::new();
    let n: u128 = if q < 0 {
        out.append("-");
        proof {
            reveal_strlit("-");
        }
        (-q) as u128
    } else {
        q as u128
    };
    push_nat_digits(n / unit, &mut out);
    out.append(".");
    proof {
        reveal_strlit(".");
    }
    push_trimmed_fraction(n % unit, &mut out);
    proof {
        let body = nat_digits(n as nat / pow10(18)) + seq!['.'] + trim_zeros(
            padded_digits(n as nat % pow10(18), 18),
        );
        if q < 0 {
            assert(out@ =~= seq!['-'] + body);
        } else {
            assert(out@ =~= body);
        }
    }
    out
}

/// The mean of the values, `sum / count` rounded to 18 digits after the point, as text.
pub fn average(vals: &[String]) -> (r: Option<String>)
    ensures
        text_of(r) == average_of(views(vals@)),
{
    proof {
        lemma_pow10_36();
        lemma_pow10_18();
    }
    let ghost all = views(vals@);
    let len = vals.len();
    if len == 0 {
        return None;
    }
    let mut sum: i128 = 0;
    let mut mag: u128 = 0;
    let mut i: usize = 0;
    while i < len
        invariant
            len == vals@.len(),
            all == views(vals@),
            i <= len,
            pow10(36) == 1_000_000_000_000_000_000_000_000_000_000_000_000nat,
            pow10(18) == 1_000_000_000_000_000_000nat,
            forall|j: int| 0 <= j < i ==> (#[trigger] value_of(all[j])) is Some,
            sum == aligned_sum(all.take(i as int)),
            mag == magnitude_sum(all.take(i as int)),
            mag <= pow10(36),
            abs(sum as int) <= mag,
        decreases len - i,
    {
        let ghost prefix = all.take(i as int);
        let ghost next = all.take(i + 1);
        assert(next.drop_last() =~= prefix);
        assert(next.last() == all[i as int]);
        assert(all[i as int] == vals@[i as int]@);
        match parse_decimal(vals[i].as_str(), VALUE_LIMIT, VALUE_SCALE) {
            None => {
                assert(value_of(all[i as int]) is None);
                return None;
            },
            Some(d) => {
                let p = pow10_u128(VALUE_SCALE - d.scale);
                let a: u128 = if d.mantissa < 0 {
                    (-d.mantissa) as u128
                } else {
                    d.mantissa as u128
                };
                proof {
                    lemma_pow10_positive((18 - d.scale) as nat);
                    let m = d.mantissa as int;
                    assert(abs(m * p) == abs(m) * p) by (nonlinear_arith)
                        requires p >= 1;
                    assert(value_of(all[i as int]) == Some((m, d.scale as nat)));
                    assert(m * p == (if m < 0 { -(abs(m) * p) } else { abs(m) * p })) by (nonlinear_arith);
                    assert(aligned(all[i as int]) == m * p);
                    assert(aligned_sum(next) == aligned_sum(prefix) + aligned(all[i as int]));
                    assert(magnitude_sum(next) == magnitude_sum(prefix) + abs(aligned(all[i as int])));
                }
                match a.checked_mul(p) {
                    None => {
                        proof {
                            lemma_magnitude_prefix(all, i + 1);
                        }
                        return None;
                    },
                    Some(t) => {
                        if t > VALUE_LIMIT - mag {
                            proof {
                                lemma_magnitude_prefix(all, i + 1);
                            }
                            return None;
                        }
                        mag = mag + t;
                        if d.mantissa < 0 {
                            sum = sum - t as i128;
                        } else {
                            sum = sum + t as i128;
                        }
                    },
                }
            },
        }
        i = i + 1;
    }
    assert(all.take(len as int) =~= all);
    let c = len as u128;
    let s_abs: u128 = if sum < 0 {
        (-sum) as u128
    } else {
        sum as u128
    };
    proof {
        assert(c <= 18_446_744_073_709_551_615u128);
    }
    let qa = (2 * s_abs + c) / (2 * c);
    proof {
        assert(qa <= s_abs) by (nonlinear_arith)
            requires qa == (2 * s_abs + c) / (2 * c), c >= 1;
    }
    let q: i128 = if sum < 0 {
        -(qa as i128)
    } else {
        qa as i128
    };
    assert(q == average_units(all));
    Some(average_string(q))
}

/// The mean does not depend on the order in which the values were collected.
pub proof fn lemma_average_permutation(a: Seq<Seq<char>>, b: Seq<Seq<char>>)
    requires
        a.to_multiset() == b.to_multiset(),
    ensures
        average_of(a) == average_of(b),
{
    a.to_multiset_ensures();
    b.to_multiset_ensures();
    assert(a.len() == b.len());
    lemma_sum_permutation(a, b, |v: Seq<char>| aligned(v));
    lemma_sum_permutation(a, b, |v: Seq<char>| abs(aligned(v)) as int);
    if forall|i: int| 0 <= i < a.len() ==> (#[trigger] value_of(a[i])) is Some {
        lemma_all_values_permutation(a, b);
    }
    if forall|i: int| 0 <= i < b.len() ==> (#[trigger] value_of(b[i])) is Some {
        lemma_all_values_permutation(b, a);
    }
}

proof fn lemma_all_values_permutation(a: Seq<Seq<char>>, b: Seq<Seq<char>>)
    requires
        a.to_multiset() == b.to_multiset(),
        forall|i: int| 0 <= i < a.len() ==> (#[trigger] value_of(a[i])) is Some,
    ensures
        forall|i: int| 0 <= i < b.len() ==> (#[trigger] value_of(b[i])) is Some,
{
    a.to_multiset_ensures();
    b.to_multiset_ensures();
    assert forall|i: int| 0 <= i < b.len() implies (#[trigger] value_of(b[i])) is Some by {
        assert(b.contains(b[i]));
        assert(b.to_multiset().count(b[i]) > 0);
        assert(a.to_multiset().count(b[i]) > 0);
        assert(a.contains(b[i]));
    }
}

proof fn lemma_sum_remove(s: Seq<Seq<char>>, j: int, f: spec_fn(Seq<char>) -> int)
    requires
        0 <= j < s.len(),
    ensures
        sum_of(s, f) == sum_of(s.remove(j), f) + f(s[j]),
    decreases s.len(),
{
    if j == s.len() - 1 {
        assert(s.remove(j) =~= s.drop_last());
    } else {
        lemma_sum_remove(s.drop_last(), j, f);
        assert(s.drop_last().remove(j) =~= s.remove(j).drop_last());
        assert(s.remove(j).last() == s.last());
    }
}

proof fn lemma_sum_permutation(a: Seq<Seq<char>>, b: Seq<Seq<char>>, f: spec_fn(Seq<char>) -> int)
    requires
        a.to_multiset() == b.to_multiset(),
    ensures
        sum_of(a, f) == sum_of(b, f),
    decreases a.len(),
{
    a.to_multiset_ensures();
    b.to_multiset_ensures();
    if a.len() == 0 {
        assert(b.len() == 0);
    } else {
        let x = a.last();
        assert(a.contains(x)) by {
            assert(a[a.len() - 1] == x);
        }
        assert(a.to_multiset().count(x) > 0);
        assert(b.to_multiset().count(x) > 0);
        assert(b.contains(x));
        let j = choose|j: int| 0 <= j < b.len() && b[j] == x;
        let a1 = a.drop_last();
        let b1 = b.remove(j);
        assert(a.remove(a.len() - 1) =~= a1);
        assert(a1.to_multiset() =~= a.to_multiset().remove(x));
        assert(b1.to_multiset() =~= b.to_multiset().remove(x));
        lemma_sum_permutation(a1, b1, f);
        lemma_sum_remove(b, j, f);
    }
}

} // verus!
