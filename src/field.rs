//! Reading a field token as a number, in the forms that `f64` parsing
//! accepts: a decimal mantissa (`5`, `5.`, `.5`, `5.25`) with an optional
//! exponent (`e` or `E`, then an optionally signed integer), or `inf`,
//! `infinity` or `nan` in any case, each with an optional sign.
use vstd::prelude::*;
use crate::decimal::{
    digits_in, digits_value, fraction_len, is_digit, is_number, lemma_pow10_monotone,
    lemma_text_round_trip, lemma_pow10_positive,
    lemma_trim_fraction, pow10, sign_len, significant_end, trim_fraction, unsigned_part, Decimal,
    NumberScan, DIGIT_NINE, DIGIT_ZERO, MAX_SCALE, MINUS, PLUS, POINT, UNITS_LIMIT,
};

verus! {

pub const LOWER_E: u8 = 101;

pub const UPPER_E: u8 = 69;

pub open spec fn is_exp_mark(c: u8) -> bool {
    c == LOWER_E || c == UPPER_E
}

pub open spec fn to_lower(c: u8) -> u8 {
    if 65 <= c <= 90 {
        (c + 32) as u8
    } else {
        c
    }
}

pub open spec fn lowered(b: Seq<u8>) -> Seq<u8> {
    b.map_values(|c: u8| to_lower(c))
}

/// `inf`, `infinity` and `nan`.
pub open spec fn special_words() -> Seq<Seq<u8>> {
    seq![
        seq![105u8, 110u8, 102u8],
        seq![105u8, 110u8, 102u8, 105u8, 110u8, 105u8, 116u8, 121u8],
        seq![110u8, 97u8, 110u8],
    ]
}

/// An infinity or a NaN, in any case.
pub open spec fn is_special_float(b: Seq<u8>) -> bool {
    special_words().contains(lowered(b))
}

pub open spec fn has_exp_mark(b: Seq<u8>) -> bool {
    exists|i: int| 0 <= i < b.len() && is_exp_mark(b[i])
}

/// Where the exponent mark stands (the length when there is none).
pub open spec fn exp_pos(b: Seq<u8>) -> int {
    if has_exp_mark(b) {
        choose|i: int| 0 <= i < b.len() && is_exp_mark(b[i])
    } else {
        b.len() as int
    }
}

pub open spec fn mantissa(b: Seq<u8>) -> Seq<u8> {
    b.take(exp_pos(b))
}

pub open spec fn exponent_part(b: Seq<u8>) -> Seq<u8> {
    b.skip(exp_pos(b) + 1)
}

/// Digits with at most one point, at least one digit.
pub open spec fn is_mantissa(m: Seq<u8>) -> bool {
    &&& exists|i: int| 0 <= i < m.len() && is_digit(m[i])
    &&& forall|i: int| 0 <= i < m.len() ==> is_digit(#[trigger] m[i]) || m[i] == POINT
    &&& forall|i: int, j: int|
        #![trigger m[i], m[j]]
        0 <= i < j < m.len() && m[i] == POINT ==> m[j] != POINT
}

/// An optionally signed integer.
pub open spec fn is_exponent(x: Seq<u8>) -> bool {
    let u = unsigned_part(x);
    u.len() > 0 && forall|i: int| 0 <= i < u.len() ==> is_digit(#[trigger] u[i])
}

/// `t` is a number as `f64` parsing reads one.
pub open spec fn is_float_token(t: Seq<u8>) -> bool {
    let b = unsigned_part(t);
    is_special_float(b) || (is_mantissa(mantissa(b)) && (has_exp_mark(b) ==> is_exponent(
        exponent_part(b),
    )))
}

/// The power of ten that the exponent applies (0 without one).
pub open spec fn exp_value(b: Seq<u8>) -> int {
    if has_exp_mark(b) {
        let x = exponent_part(b);
        if sign_len(x) == 1 && x[0] == MINUS {
            -digits_value(unsigned_part(x))
        } else {
            digits_value(unsigned_part(x)) as int
        }
    } else {
        0
    }
}

/// `u / 10^s` with the zeros that end its fraction dropped.
pub open spec fn reduce(u: nat, s: nat) -> (nat, nat)
    decreases s,
{
    if s > 0 && u % 10 == 0 {
        reduce(u / 10, (s - 1) as nat)
    } else {
        (u, s)
    }
}

/// What reading a field token gives: `NotNumber` when `f64` parsing would
/// reject it; `TooLarge` when a `Decimal` cannot hold its value exactly
/// (an infinity, a NaN, too many digits or too far from the point);
/// otherwise its value, reduced.
pub open spec fn field_scan_spec(t: Seq<u8>) -> NumberScan {
    let b = unsigned_part(t);
    let negative = sign_len(t) == 1 && t[0] == MINUS;
    let m = trim_fraction(mantissa(b));
    let u = digits_value(m);
    let f = fraction_len(m) as int;
    let e = exp_value(b);
    if !is_float_token(t) {
        NumberScan::NotNumber
    } else if is_special_float(b) {
        NumberScan::TooLarge
    } else {
        field_value(negative, u, f, e)
    }
}

/// The reading of a finite number: sign, significant digits `u`, `f` of them
/// after the point, times ten to the power `e`.
pub open spec fn field_value(negative: bool, u: nat, f: int, e: int) -> NumberScan {
    if u == 0 {
        NumberScan::Value(Decimal { negative: false, units: 0, scale: 0 })
    } else if u >= UNITS_LIMIT {
        NumberScan::TooLarge
    } else if e >= f {
        if u * pow10((e - f) as nat) < UNITS_LIMIT {
            NumberScan::Value(Decimal { negative, units: (u * pow10((e - f) as nat)) as u64, scale: 0 })
        } else {
            NumberScan::TooLarge
        }
    } else if f - e <= MAX_SCALE {
        NumberScan::Value(
            Decimal {
                negative,
                units: reduce(u, (f - e) as nat).0 as u64,
                scale: reduce(u, (f - e) as nat).1 as u8,
            },
        )
    } else {
        NumberScan::TooLarge
    }
}

/// Position of the first exponent mark in `line[a..b]` (`b` without one),
/// and whether there is a second.
fn find_marks(line: &[u8], a: usize, b: usize) -> (r: (usize, bool))
    requires
        a <= b <= line@.len(),
    ensures
        a <= r.0 <= b,
        r.0 < b ==> is_exp_mark(line@[r.0 as int]),
        forall|i: int| a <= i < r.0 ==> !is_exp_mark(#[trigger] line@[i]),
        r.1 <==> exists|i: int| r.0 < i < b && is_exp_mark(#[trigger] line@[i]),
{
    let mut i = a;
    while i < b && line[i] != LOWER_E && line[i] != UPPER_E
        invariant
            a <= i <= b <= line@.len(),
            forall|k: int| a <= k < i ==> !is_exp_mark(#[trigger] line@[k]),
        decreases b - i,
    {
        i = i + 1;
    }
    if i == b {
        return (b, false);
    }
    let mut j = i + 1;
    while j < b && line[j] != LOWER_E && line[j] != UPPER_E
        invariant
            i < j <= b <= line@.len(),
            forall|k: int| i < k < j ==> !is_exp_mark(#[trigger] line@[k]),
        decreases b - j,
    {
        j = j + 1;
    }
    if j < b {
        assert(is_exp_mark(line@[j as int]));
    }
    (i, j < b)
}

/// Checks that `line[a..p]` is a mantissa; gives the position of its point.
fn check_mantissa(line: &[u8], a: usize, p: usize) -> (r: Option<Option<usize>>)
    requires
        a <= p <= line@.len(),
    ensures
        r is Some <==> is_mantissa(line@.subrange(a as int, p as int)),
        r matches Some(None) ==> !line@.subrange(a as int, p as int).contains(POINT),
        r matches Some(Some(x)) ==> a <= x < p && line@[x as int] == POINT,
{
    let ghost m = line@.subrange(a as int, p as int);
    let mut point: Option<usize> = None;
    let mut digit = false;
    let mut i = a;
    while i < p
        invariant
            a <= i <= p <= line@.len(),
            m == line@.subrange(a as int, p as int),
            forall|k: int| 0 <= k < i - a ==> is_digit(#[trigger] m[k]) || m[k] == POINT,
            digit <==> exists|k: int| 0 <= k < i - a && is_digit(m[k]),
            match point {
                None => forall|k: int| 0 <= k < i - a ==> #[trigger] m[k] != POINT,
                Some(x) => {
                    &&& a <= x < i
                    &&& m[x - a] == POINT
                    &&& forall|k: int| 0 <= k < i - a && k != x - a ==> #[trigger] m[k] != POINT
                },
            },
        decreases p - i,
    {
        let c = line[i];
        assert(m[i - a] == c);
        if c == POINT {
            if let Some(x) = point {
                assert(!is_mantissa(m)) by {
                    assert(m[x - a] == POINT && m[i - a] == POINT);
                }
                return None;
            }
            point = Some(i);
        } else if DIGIT_ZERO <= c && c <= DIGIT_NINE {
            digit = true;
        } else {
            assert(!is_mantissa(m)) by {
                assert(!is_digit(m[i - a]) && m[i - a] != POINT);
            }
            return None;
        }
        i = i + 1;
    }
    if !digit {
        return None;
    }
    if let None = point {
        assert(!m.contains(POINT));
    }
    Some(point)
}

/// Bound above which an exponent is only known to be large.
pub const EXPONENT_CAP: u128 = 1_000_000_000_000_000_000_000;

/// Checks that `line[a..b]` is an optionally signed integer; gives its sign,
/// and its magnitude or `true` when that reaches `EXPONENT_CAP`.
fn check_exponent(line: &[u8], a: usize, b: usize) -> (r: Option<(bool, u128, bool)>)
    requires
        a <= b <= line@.len(),
    ensures
        ({
            let x = line@.subrange(a as int, b as int);
            match r {
                None => !is_exponent(x),
                Some((neg, mag, huge)) => {
                    &&& is_exponent(x)
                    &&& neg == (sign_len(x) == 1 && x[0] == MINUS)
                    &&& mag < EXPONENT_CAP
                    &&& !huge ==> mag as nat == digits_value(unsigned_part(x))
                    &&& huge ==> digits_value(unsigned_part(x)) >= EXPONENT_CAP
                },
            }
        }),
{
    let ghost x = line@.subrange(a as int, b as int);
    let mut i = a;
    let mut neg = false;
    if i < b && (line[i] == PLUS || line[i] == MINUS) {
        neg = line[i] == MINUS;
        i = i + 1;
    }
    let s = i;
    let ghost u = unsigned_part(x);
    assert(u =~= line@.subrange(s as int, b as int));
    if s == b {
        return None;
    }
    let mut mag: u128 = 0;
    let mut huge = false;
    while i < b
        invariant
            a <= s <= i <= b <= line@.len(),
            u == line@.subrange(s as int, b as int),
            x == line@.subrange(a as int, b as int),
            u == unsigned_part(x),
            forall|k: int| 0 <= k < i - s ==> is_digit(#[trigger] u[k]),
            !huge ==> mag as nat == digits_value(u.subrange(0, i - s)),
            huge ==> digits_value(u.subrange(0, i - s)) >= EXPONENT_CAP,
            mag < EXPONENT_CAP,
        decreases b - i,
    {
        let c = line[i];
        assert(u[i - s] == c);
        if !(DIGIT_ZERO <= c && c <= DIGIT_NINE) {
            assert(!is_exponent(x)) by {
                assert(!is_digit(u[i - s]));
            }
            return None;
        }
        let ghost prev = u.subrange(0, i - s);
        assert(u.subrange(0, i + 1 - s) =~= prev.push(c));
        proof {
            crate::decimal::lemma_digits_value_push(prev, c);
        }
        if !huge {
            if mag < EXPONENT_CAP / 10 {
                mag = mag * 10 + (c - DIGIT_ZERO) as u128;
            } else {
                huge = true;
            }
        }
        i = i + 1;
    }
    assert(u.subrange(0, u.len() as int) =~= u);
    Some((neg, mag, huge))
}

/// `reduce` on machine integers.
fn reduce_exec(u: u64, s: u32) -> (r: (u64, u32))
    ensures
        r.0 as nat == reduce(u as nat, s as nat).0,
        r.1 as nat == reduce(u as nat, s as nat).1,
        r.0 <= u,
        r.1 <= s,
{
    let mut v = u;
    let mut k = s;
    while k > 0 && v % 10 == 0
        invariant
            reduce(v as nat, k as nat) == reduce(u as nat, s as nat),
            v <= u,
            k <= s,
        decreases k,
    {
        v = v / 10;
        k = k - 1;
    }
    (v, k)
}

/// `u * 10^d`, when that is below `UNITS_LIMIT`.
fn times_pow10(u: u64, d: u32) -> (r: Option<u64>)
    requires
        u < UNITS_LIMIT,
    ensures
        match r {
            Some(v) => v as nat == u * pow10(d as nat) && v < UNITS_LIMIT,
            None => u * pow10(d as nat) >= UNITS_LIMIT,
        },
{
    let mut v = u;
    let mut i: u32 = 0;
    assert(pow10(0) == 1);
    assert(u * pow10(0) == u) by (nonlinear_arith)
        requires
            pow10(0) == 1,
    ;
    while i < d
        invariant
            i <= d,
            v as nat == u * pow10(i as nat),
            v < UNITS_LIMIT,
        decreases d - i,
    {
        if v >= UNITS_LIMIT / 10 {
            proof {
                lemma_pow10_monotone((i + 1) as nat, d as nat);
                assert(u * pow10(d as nat) >= u * pow10((i + 1) as nat)) by (nonlinear_arith)
                    requires
                        pow10(d as nat) >= pow10((i + 1) as nat),
                ;
                assert(pow10((i + 1) as nat) == 10 * pow10(i as nat));
                assert(u * pow10((i + 1) as nat) == v * 10) by (nonlinear_arith)
                    requires
                        pow10((i + 1) as nat) == 10 * pow10(i as nat),
                        v == u * pow10(i as nat),
                ;
            }
            return None;
        }
        proof {
            assert(pow10((i + 1) as nat) == 10 * pow10(i as nat));
            assert(u * pow10((i + 1) as nat) == v * 10) by (nonlinear_arith)
                requires
                    pow10((i + 1) as nat) == 10 * pow10(i as nat),
                    v == u * pow10(i as nat),
            ;
        }
        v = v * 10;
        i = i + 1;
    }
    Some(v)
}

fn special_word(k: usize) -> (r: Vec<u8>)
    requires
        k < 3,
    ensures
        r@ == special_words()[k as int],
{
    let mut w: Vec<u8> = Vec::new();
    if k == 2 {
        w.push(110);
        w.push(97);
        w.push(110);
    } else {
        w.push(105);
        w.push(110);
        w.push(102);
        if k == 1 {
            w.push(105);
            w.push(110);
            w.push(105);
            w.push(116);
            w.push(121);
        }
    }
    assert(w@ =~= special_words()[k as int]);
    w
}

/// `line[a..b]`, put in lower case, is `word`.
fn lower_matches(line: &[u8], a: usize, b: usize, word: &Vec<u8>) -> (r: bool)
    requires
        a <= b <= line@.len(),
    ensures
        r == (lowered(line@.subrange(a as int, b as int)) == word@),
{
    let ghost l = lowered(line@.subrange(a as int, b as int));
    if b - a != word.len() {
        assert(l.len() != word@.len());
        return false;
    }
    let mut i: usize = 0;
    while i < word.len()
        invariant
            a <= b <= line@.len(),
            b - a == word@.len(),
            i <= word@.len(),
            l == lowered(line@.subrange(a as int, b as int)),
            forall|k: int| 0 <= k < i ==> #[trigger] l[k] == word@[k],
        decreases word@.len() - i,
    {
        let c = line[a + i];
        let lc = if 65 <= c && c <= 90 {
            c + 32
        } else {
            c
        };
        assert(l[i as int] == to_lower(c));
        if lc != word[i] {
            return false;
        }
        i = i + 1;
    }
    assert(l =~= word@);
    true
}

/// `line[a..b]` is an infinity or a NaN.
fn is_special(line: &[u8], a: usize, b: usize) -> (r: bool)
    requires
        a <= b <= line@.len(),
    ensures
        r == is_special_float(line@.subrange(a as int, b as int)),
{
    let ghost l = lowered(line@.subrange(a as int, b as int));
    let mut k: usize = 0;
    while k < 3
        invariant
            k <= 3,
            a <= b <= line@.len(),
            l == lowered(line@.subrange(a as int, b as int)),
            forall|j: int| 0 <= j < k ==> special_words()[j] != l,
        decreases 3 - k,
    {
        let w = special_word(k);
        if lower_matches(line, a, b, &w) {
            assert(special_words()[k as int] == l);
            return true;
        }
        k = k + 1;
    }
    false
}

proof fn lemma_at_least_limit(u: nat, d: nat)
    requires
        u >= 1,
        d >= 19,
    ensures
        u * pow10(d) >= UNITS_LIMIT,
{
    reveal_with_fuel(pow10, 20);
    assert(pow10(19) == UNITS_LIMIT);
    lemma_pow10_monotone(19, d);
    assert(u * pow10(d) >= pow10(d)) by (nonlinear_arith)
        requires
            u >= 1,
    ;
}

/// The parts of a finite number body `line[bs..end]`: where its exponent
/// mark stands, where its point stands, and the exponent's sign and
/// magnitude (or `true` when that reaches `EXPONENT_CAP`).
fn float_structure(line: &[u8], bs: usize, end: usize) -> (r: Option<
    (usize, Option<usize>, bool, u128, bool),
>)
    requires
        bs <= end <= line@.len(),
    ensures
        ({
            let b = line@.subrange(bs as int, end as int);
            match r {
                None => !(is_mantissa(mantissa(b)) && (has_exp_mark(b) ==> is_exponent(
                    exponent_part(b),
                ))),
                Some((p, point, e_neg, mag, huge)) => {
                    &&& is_mantissa(mantissa(b))
                    &&& has_exp_mark(b) ==> is_exponent(exponent_part(b))
                    &&& bs < p <= end
                    &&& mantissa(b) == line@.subrange(bs as int, p as int)
                    &&& match point {
                        None => !mantissa(b).contains(POINT),
                        Some(x) => bs <= x < p && line@[x as int] == POINT,
                    }
                    &&& mag < EXPONENT_CAP
                    &&& huge && e_neg ==> exp_value(b) <= -EXPONENT_CAP
                    &&& huge && !e_neg ==> exp_value(b) >= EXPONENT_CAP
                    &&& !huge ==> exp_value(b) == (if e_neg {
                        -mag
                    } else {
                        mag as int
                    })
                },
            }
        }),
{
    let ghost b = line@.subrange(bs as int, end as int);
    let (p, two) = find_marks(line, bs, end);
    if two {
        proof {
            let j = choose|i: int| p < i < end && is_exp_mark(#[trigger] line@[i]);
            assert(is_exp_mark(b[j - bs]) && is_exp_mark(b[p - bs]));
            assert(has_exp_mark(b));
            let c = exp_pos(b);
            if c < j - bs {
                assert(exponent_part(b)[j - bs - c - 1] == b[j - bs]);
                if sign_len(exponent_part(b)) == 1 {
                    assert(unsigned_part(exponent_part(b))[j - bs - c - 2] == b[j - bs]);
                } else {
                    assert(unsigned_part(exponent_part(b))[j - bs - c - 1] == b[j - bs]);
                }
            } else {
                assert(mantissa(b)[p - bs] == b[p - bs]);
            }
        }
        return None;
    }
    if p < end {
        assert(is_exp_mark(b[p - bs]));
        assert(has_exp_mark(b));
        assert(exp_pos(b) == p - bs);
    } else {
        assert(!has_exp_mark(b));
    }
    assert(mantissa(b) =~= line@.subrange(bs as int, p as int));
    let point = match check_mantissa(line, bs, p) {
        None => {
            return None;
        },
        Some(x) => x,
    };
    let mut e_neg = false;
    let mut mag: u128 = 0;
    let mut huge = false;
    if p < end {
        assert(exponent_part(b) =~= line@.subrange(p + 1, end as int));
        match check_exponent(line, p + 1, end) {
            None => {
                return None;
            },
            Some((n, m, h)) => {
                e_neg = n;
                mag = m;
                huge = h;
            },
        }
    }
    let ghost mm = mantissa(b);
    assert(bs < p) by {
        let w = choose|i: int| 0 <= i < mm.len() && is_digit(mm[i]);
    }
    Some((p, point, e_neg, mag, huge))
}

/// Number of digits after the point that trimming `line[bs..p]` leaves.
fn fraction_digits(line: &[u8], bs: usize, p: usize, q: usize, point: Option<usize>) -> (r: usize)
    requires
        bs <= q <= p <= line@.len(),
        is_mantissa(line@.subrange(bs as int, p as int)),
        line@.subrange(bs as int, q as int) == trim_fraction(line@.subrange(bs as int, p as int)),
        match point {
            None => !line@.subrange(bs as int, p as int).contains(POINT),
            Some(x) => bs <= x < p && line@[x as int] == POINT,
        },
    ensures
        r == fraction_len(trim_fraction(line@.subrange(bs as int, p as int))),
{
    let ghost mm = line@.subrange(bs as int, p as int);
    let ghost tm = trim_fraction(mm);
    proof {
        lemma_trim_fraction(mm);
    }
    match point {
        Some(x) => if q > x {
            assert(tm[x - bs] == POINT);
            assert(tm.contains(POINT));
            assert forall|y: int| 0 <= y < tm.len() && tm[y] == POINT implies y == x - bs by {
                assert(tm[y] == mm[y]);
                assert(mm[x - bs] == POINT);
            }
            assert(tm.index_of(POINT) == x - bs);
            q - 1 - x
        } else {
            assert forall|y: int| 0 <= y < tm.len() implies tm[y] != POINT by {
                assert(tm[y] == mm[y]);
                assert(mm[x - bs] == POINT);
            }
            assert(!tm.contains(POINT));
            0
        },
        None => {
            assert forall|y: int| 0 <= y < tm.len() implies tm[y] != POINT by {
                assert(tm[y] == mm[y]);
            }
            assert(!tm.contains(POINT));
            0
        },
    }
}

/// Reads the field token `line[start..end]` as a number.
pub fn scan_field(line: &[u8], start: usize, end: usize) -> (r: NumberScan)
    requires
        start <= end <= line@.len(),
    ensures
        r == field_scan_spec(line@.subrange(start as int, end as int)),
{
    let ghost t = line@.subrange(start as int, end as int);
    let mut bs = start;
    let mut negative = false;
    if bs < end && (line[bs] == PLUS || line[bs] == MINUS) {
        negative = line[bs] == MINUS;
        bs = bs + 1;
    }
    let ghost b = unsigned_part(t);
    assert(b =~= line@.subrange(bs as int, end as int));
    if is_special(line, bs, end) {
        return NumberScan::TooLarge;
    }
    let (p, point, e_neg, mag, huge) = match float_structure(line, bs, end) {
        None => {
            return NumberScan::NotNumber;
        },
        Some(parts) => parts,
    };
    let ghost mm = mantissa(b);
    let q = significant_end(line, bs, p, point);
    let (u, large) = digits_in(line, bs, q);
    let f = fraction_digits(line, bs, p, q, point);
    decide(
        negative,
        u,
        large,
        f,
        e_neg,
        mag,
        huge,
        Ghost(digits_value(trim_fraction(mm))),
        Ghost(exp_value(b)),
    )
}

/// The reading of a finite number from what scanning it gave.
fn decide(
    negative: bool,
    u: u64,
    large: bool,
    f: usize,
    e_neg: bool,
    mag: u128,
    huge: bool,
    digits: Ghost<nat>,
    exp: Ghost<int>,
) -> (r: NumberScan)
    requires
        u < UNITS_LIMIT,
        large ==> digits@ >= UNITS_LIMIT,
        !large ==> digits@ == u,
        mag < EXPONENT_CAP,
        huge && e_neg ==> exp@ <= -EXPONENT_CAP,
        huge && !e_neg ==> exp@ >= EXPONENT_CAP,
        !huge ==> exp@ == (if e_neg {
            -mag
        } else {
            mag as int
        }),
    ensures
        r == field_value(negative, digits@, f as int, exp@),
{
    if large {
        return NumberScan::TooLarge;
    }
    if u == 0 {
        return NumberScan::Value(Decimal { negative: false, units: 0, scale: 0 });
    }
    if huge {
        proof {
            if !e_neg {
                lemma_at_least_limit(u as nat, (exp@ - f) as nat);
            }
        }
        return NumberScan::TooLarge;
    }
    let e: i128 = if e_neg {
        -(mag as i128)
    } else {
        mag as i128
    };
    let fi = f as i128;
    if e >= fi {
        let d = e - fi;
        if d >= 19 {
            proof {
                lemma_at_least_limit(u as nat, d as nat);
            }
            return NumberScan::TooLarge;
        }
        match times_pow10(u, d as u32) {
            Some(v) => NumberScan::Value(Decimal { negative, units: v, scale: 0 }),
            None => NumberScan::TooLarge,
        }
    } else {
        let sc = fi - e;
        if sc > MAX_SCALE as i128 {
            return NumberScan::TooLarge;
        }
        let (ru, rs) = reduce_exec(u, sc as u32);
        NumberScan::Value(Decimal { negative, units: ru, scale: rs as u8 })
    }
}

proof fn lemma_reduce(u: nat, s: nat)
    ensures
        reduce(u, s).0 <= u,
        reduce(u, s).1 <= s,
        reduce(u, s).1 == 0 || reduce(u, s).0 % 10 != 0,
        u != 0 ==> reduce(u, s).0 != 0,
    decreases s,
{
    if s > 0 && u % 10 == 0 {
        lemma_reduce(u / 10, (s - 1) as nat);
    }
}

/// A field piece that fits gives a well-formed decimal.
pub proof fn lemma_field_reading_wf(t: Seq<u8>)
    requires
        field_scan_spec(t) is Value,
    ensures
        (field_scan_spec(t)->Value_0).wf(),
{
    let b = unsigned_part(t);
    let m = trim_fraction(mantissa(b));
    let u = digits_value(m);
    let f = fraction_len(m) as int;
    let e = exp_value(b);
    if u != 0 && e < f {
        lemma_reduce(u, (f - e) as nat);
    }
    if u != 0 && e >= f {
        lemma_pow10_positive((e - f) as nat);
        assert(u * pow10((e - f) as nat) >= 1) by (nonlinear_arith)
            requires
                u >= 1,
                pow10((e - f) as nat) >= 1,
        ;
    }
}

/// The text of a well-formed decimal reads back, as a field, as that decimal.
pub proof fn lemma_text_reads_back(d: Decimal)
    requires
        d.wf(),
    ensures
        field_scan_spec(d.text()) == NumberScan::Value(d),
{
    let t = d.text();
    lemma_text_round_trip(d);
    let b = unsigned_part(t);
    assert(is_number(t));
    assert(!has_exp_mark(b)) by {
        if has_exp_mark(b) {
            let i = choose|i: int| 0 <= i < b.len() && is_exp_mark(b[i]);
            assert(is_digit(b[i]) || b[i] == POINT);
        }
    }
    assert(mantissa(b) =~= b);
    assert(is_digit(b[b.len() - 1]));
    assert(!is_special_float(b)) by {
        let l = lowered(b);
        assert(l[l.len() - 1] == to_lower(b[b.len() - 1]));
        if special_words().contains(l) {
            let k = choose|k: int| 0 <= k < special_words().len() && special_words()[k] == l;
            let w = special_words()[k];
            assert(w[w.len() - 1] == l[l.len() - 1]);
        }
    }
    assert(is_float_token(t));
    let m = trim_fraction(b);
    assert(digits_value(m) == d.units);
    assert(fraction_len(m) == d.scale);
    assert(exp_value(b) == 0);
    let negative = sign_len(t) == 1 && t[0] == MINUS;
    assert(d.units != 0 ==> negative == d.negative);
    if d.units == 0 {
        assert(d.scale == 0);
    } else if d.scale == 0 {
        assert(pow10(0) == 1);
        assert(d.units as nat * pow10(0) == d.units) by (nonlinear_arith)
            requires
                pow10(0) == 1,
        ;
    } else {
        assert(reduce(d.units as nat, d.scale as nat) == (d.units as nat, d.scale as nat));
    }
    assert(field_scan_spec(t) == field_value(negative, d.units as nat, d.scale as int, 0));
}

} // verus!
