//! Exact decimal numbers, as they appear on the wire.
use vstd::prelude::*;
use crate::text::{ascii_chars, ascii_string};

verus! {

/// ASCII codes of the bytes that numbers are written with.
pub const DIGIT_ZERO: u8 = 48;
pub const DIGIT_NINE: u8 = 57;
pub const PLUS: u8 = 43;
pub const MINUS: u8 = 45;
pub const POINT: u8 = 46;

/// Exclusive bound on the digits of a decimal's unscaled value (10^19).
pub const UNITS_LIMIT: u64 = 10_000_000_000_000_000_000;

/// Largest number of digits after the decimal point.
pub const MAX_SCALE: u8 = 19;

/// A decimal number: `(-1)^negative * units / 10^scale`.
#[derive(Clone, Copy, Debug, PartialEq, Eq, Structural)]
pub struct Decimal {
    pub negative: bool,
    pub units: u64,
    pub scale: u8,
}

pub open spec fn pow10(n: nat) -> nat
    decreases n,
{
    if n == 0 {
        1
    } else {
        10 * pow10((n - 1) as nat)
    }
}

pub open spec fn is_digit(c: u8) -> bool {
    DIGIT_ZERO <= c <= DIGIT_NINE
}

/// Value of the decimal digits of `s`, read in order; other bytes are ignored.
pub open spec fn digits_value(s: Seq<u8>) -> nat
    decreases s.len(),
{
    if s.len() == 0 {
        0
    } else if is_digit(s.last()) {
        digits_value(s.drop_last()) * 10 + (s.last() - DIGIT_ZERO) as nat
    } else {
        digits_value(s.drop_last())
    }
}

/// Length of an optional leading sign.
pub open spec fn sign_len(t: Seq<u8>) -> int {
    if t.len() > 0 && (t[0] == PLUS || t[0] == MINUS) {
        1
    } else {
        0
    }
}

/// The token without its sign.
pub open spec fn unsigned_part(t: Seq<u8>) -> Seq<u8> {
    t.subrange(sign_len(t), t.len() as int)
}

/// `t` is a decimal number: `[+-]?(digits '.')? digits`, that is an optional
/// sign, then digits with at most one point, ending in a digit.
pub open spec fn is_number(t: Seq<u8>) -> bool {
    let b = unsigned_part(t);
    &&& b.len() > 0
    &&& is_digit(b.last())
    &&& forall|i: int| 0 <= i < b.len() ==> is_digit(#[trigger] b[i]) || b[i] == POINT
    &&& forall|i: int, j: int|
        #![trigger b[i], b[j]]
        0 <= i < j < b.len() && b[i] == POINT ==> b[j] != POINT
}

/// Number of bytes after the decimal point (0 without a point).
pub open spec fn fraction_len(b: Seq<u8>) -> nat {
    if b.contains(POINT) {
        (b.len() - 1 - b.index_of(POINT)) as nat
    } else {
        0
    }
}

/// `b` without the zeros that end its fraction, and without the point when
/// no fraction digit is left: `12.60` gives `12.6`, `1.0` gives `1`.
pub open spec fn trim_fraction(b: Seq<u8>) -> Seq<u8>
    decreases b.len(),
{
    if b.contains(POINT) && b.len() > 0 && b.last() == DIGIT_ZERO {
        trim_fraction(b.drop_last())
    } else if b.len() > 0 && b.last() == POINT {
        b.drop_last()
    } else {
        b
    }
}

/// The digits of a number token that count: its unsigned part, trimmed.
pub open spec fn significant_part(t: Seq<u8>) -> Seq<u8> {
    trim_fraction(unsigned_part(t))
}

/// A number token whose value a `Decimal` can hold.
pub open spec fn number_fits(t: Seq<u8>) -> bool {
    digits_value(significant_part(t)) < UNITS_LIMIT && fraction_len(significant_part(t))
        <= MAX_SCALE
}

/// The decimal that a number token that fits denotes, in lowest form: no
/// zeros ending its fraction, and no sign on zero.
pub open spec fn number_value(t: Seq<u8>) -> Decimal {
    Decimal {
        negative: sign_len(t) == 1 && t[0] == MINUS && digits_value(significant_part(t)) != 0,
        units: digits_value(significant_part(t)) as u64,
        scale: fraction_len(significant_part(t)) as u8,
    }
}

/// Number of decimal digits of `n` (at least one).
pub open spec fn num_digits(n: nat) -> nat
    decreases n,
{
    if n < 10 {
        1
    } else {
        1 + num_digits(n / 10)
    }
}

/// The last `w` decimal digits of `n`, most significant first.
pub open spec fn fixed_digits(n: nat, w: nat) -> Seq<u8> {
    Seq::new(w, |i: int| (DIGIT_ZERO + (n / pow10((w - 1 - i) as nat)) % 10) as u8)
}

impl Decimal {
    /// The value fits the bounds that wire numbers are held to, and is in
    /// lowest form: no zero ends the fraction and zero has no sign, so equal
    /// values are equal decimals.
    pub open spec fn wf(&self) -> bool {
        &&& self.units < UNITS_LIMIT
        &&& self.scale <= MAX_SCALE
        &&& (self.scale == 0 || self.units % 10 != 0)
        &&& (self.units == 0 ==> !self.negative)
    }

    /// Tests `wf`.
    pub fn is_wf(&self) -> (r: bool)
        ensures
            r == self.wf(),
    {
        self.units < UNITS_LIMIT && self.scale <= MAX_SCALE && (self.scale == 0 || self.units
            % 10 != 0) && (self.units != 0 || !self.negative)
    }

    /// Number of digits written: all of `units`, and at least one before the point.
    pub open spec fn text_width(&self) -> nat {
        let n = num_digits(self.units as nat);
        if n > self.scale + 1 {
            n
        } else {
            (self.scale + 1) as nat
        }
    }

    /// The text of the number: `-` when negative, the integer digits, then a
    /// point and exactly `scale` fraction digits when `scale > 0`.
    pub open spec fn text(&self) -> Seq<u8> {
        let w = self.text_width();
        let s = fixed_digits(self.units as nat, w);
        let k = w - self.scale;
        let sign = if self.negative {
            seq![MINUS]
        } else {
            Seq::<u8>::empty()
        };
        if self.scale == 0 {
            sign + s
        } else {
            sign + s.subrange(0, k) + seq![POINT] + s.subrange(k, w as int)
        }
    }
}

/// Number of decimal digits of `n`.
fn digit_count(n: u64) -> (r: usize)
    ensures
        r == num_digits(n as nat),
        r <= 20,
{
    proof {
        reveal_with_fuel(pow10, 21);
        lemma_num_digits_bounds(n as nat, 20);
    }
    let mut nd: usize = 1;
    let mut m: u64 = n;
    while m >= 10
        invariant
            nd + num_digits(m as nat) == num_digits(n as nat) + 1,
            num_digits(n as nat) <= 20,
            nd >= 1,
        decreases m,
    {
        m = m / 10;
        nd = nd + 1;
    }
    nd
}

/// The last `w` digits of `n`, least significant first.
fn reversed_digits(n: u64, w: usize) -> (r: Vec<u8>)
    ensures
        r@.len() == w,
        forall|i: int| 0 <= i < w ==> #[trigger] fixed_digits(n as nat, w as nat)[i] == r@[w - 1 - i],
{
    let mut rev: Vec<u8> = Vec::new();
    let mut m: u64 = n;
    let mut j: usize = 0;
    assert(n as nat / pow10(0) == n) by (nonlinear_arith)
        requires
            pow10(0) == 1,
    ;
    while j < w
        invariant
            j <= w,
            rev@.len() == j,
            m as nat == n as nat / pow10(j as nat),
            forall|i: int|
                0 <= i < j ==> #[trigger] rev@[i] == (DIGIT_ZERO + (n as nat / pow10(i as nat))
                    % 10) as u8,
        decreases w - j,
    {
        proof {
            lemma_pow10_positive(j as nat);
            vstd::arithmetic::div_mod::lemma_div_denominator(n as int, pow10(j as nat) as int, 10);
        }
        rev.push(DIGIT_ZERO + (m % 10) as u8);
        m = m / 10;
        j = j + 1;
    }
    rev
}

impl Decimal {
    /// Writes the number as text (see `text`).
    pub fn text_bytes(&self) -> (r: Vec<u8>)
        requires
            self.wf(),
        ensures
            r@ == self.text(),
    {
        let nd = digit_count(self.units);
        let scale = self.scale as usize;
        let w: usize = if nd > scale + 1 {
            nd
        } else {
            scale + 1
        };
        assert(w == self.text_width());
        let ghost digits = fixed_digits(self.units as nat, w as nat);
        let rev = reversed_digits(self.units, w);
        let mut out: Vec<u8> = Vec::new();
        if self.negative {
            out.push(MINUS);
        }
        let ghost sign = out@;
        let k = w - scale;
        let mut i: usize = 0;
        while i < k
            invariant
                i <= k <= w,
                k == w - scale,
                rev@.len() == w,
                digits.len() == w,
                out@ == sign + digits.subrange(0, i as int),
                forall|x: int| 0 <= x < w ==> #[trigger] digits[x] == rev@[w - 1 - x],
            decreases k - i,
        {
            out.push(rev[w - 1 - i]);
            i = i + 1;
            assert(out@ =~= sign + digits.subrange(0, i as int));
        }
        if scale > 0 {
            out.push(POINT);
            let ghost head = out@;
            while i < w
                invariant
                    k <= i <= w,
                    rev@.len() == w,
                    digits.len() == w,
                    out@ == head + digits.subrange(k as int, i as int),
                    forall|x: int| 0 <= x < w ==> #[trigger] digits[x] == rev@[w - 1 - x],
                decreases w - i,
            {
                out.push(rev[w - 1 - i]);
                i = i + 1;
                assert(out@ =~= head + digits.subrange(k as int, i as int));
            }
        }
        assert(out@ =~= self.text());
        out
    }
}

impl Decimal {
    pub open spec fn spec_zero() -> Decimal {
        Decimal { negative: false, units: 0, scale: 0 }
    }

    /// The number zero.
    pub fn zero() -> (r: Decimal)
        ensures
            r == Decimal::spec_zero(),
    {
        Decimal { negative: false, units: 0, scale: 0 }
    }

    /// The decimal with the value of an integer.
    pub open spec fn spec_from_int(v: i64) -> Decimal {
        Decimal {
            negative: v < 0,
            units: (if v < 0 { -(v as int) } else { v as int }) as u64,
            scale: 0,
        }
    }

    pub fn from_int(v: i64) -> (r: Decimal)
        ensures
            r == Decimal::spec_from_int(v),
            r.wf(),
    {
        let units: u64 = if v < 0 {
            if v == i64::MIN {
                9_223_372_036_854_775_808
            } else {
                (-v) as u64
            }
        } else {
            v as u64
        };
        Decimal { negative: v < 0, units, scale: 0 }
    }

    /// The text of the number as a string (see `text`).
    pub fn to_text(&self) -> (r: String)
        requires
            self.wf(),
        ensures
            r@ == ascii_chars(self.text()),
    {
        proof {
            lemma_text_ascii(*self);
        }
        ascii_string(self.text_bytes())
    }

    /// The value is at least one.
    pub open spec fn spec_at_least_one(&self) -> bool {
        !self.negative && self.units >= pow10(self.scale as nat)
    }

    pub fn at_least_one(&self) -> (r: bool)
        requires
            self.wf(),
        ensures
            r == self.spec_at_least_one(),
    {
        proof {
            reveal_with_fuel(pow10, 20);
        }
        let mut p: u64 = 1;
        let mut i: u8 = 0;
        while i < self.scale
            invariant
                i <= self.scale <= MAX_SCALE,
                p as nat == pow10(i as nat),
            decreases self.scale - i,
        {
            proof {
                lemma_pow10_monotone((i + 1) as nat, 19);
                assert(pow10((i + 1) as nat) == p * 10);
                reveal_with_fuel(pow10, 20);
                assert(pow10(19) == 10_000_000_000_000_000_000);
            }
            p = p * 10;
            i = i + 1;
        }
        !self.negative && self.units >= p
    }
}

/// Every byte of a decimal's text is ASCII.
pub proof fn lemma_text_ascii(d: Decimal)
    requires
        d.wf(),
    ensures
        forall|i: int| 0 <= i < d.text().len() ==> #[trigger] d.text()[i] < 128,
{
    let w = d.text_width();
    let k = w - d.scale;
    lemma_fixed_digits_are_digits(d.units as nat, w);
    let s = fixed_digits(d.units as nat, w);
    let sign = if d.negative {
        seq![MINUS]
    } else {
        Seq::<u8>::empty()
    };
    let t = d.text();
    assert forall|i: int| 0 <= i < t.len() implies #[trigger] t[i] < 128 by {
        if i >= sign.len() {
            if d.scale == 0 {
                assert(t[i] == s[i - sign.len()]);
            } else if i < sign.len() + k {
                assert(t[i] == s[i - sign.len()]);
            } else if i > sign.len() + k {
                assert(t[i] == s[i - sign.len() - 1]);
            }
        }
    }
}

/// What reading a token as a number gives.
#[derive(Clone, Copy, Debug, PartialEq, Eq, Structural)]
pub enum NumberScan {
    NotNumber,
    TooLarge,
    Value(Decimal),
}

pub open spec fn scan_spec(t: Seq<u8>) -> NumberScan {
    if !is_number(t) {
        NumberScan::NotNumber
    } else if !number_fits(t) {
        NumberScan::TooLarge
    } else {
        NumberScan::Value(number_value(t))
    }
}

pub(crate) proof fn lemma_digits_value_push(s: Seq<u8>, c: u8)
    ensures
        digits_value(s.push(c)) == if is_digit(c) {
            digits_value(s) * 10 + (c - DIGIT_ZERO) as nat
        } else {
            digits_value(s)
        },
{
    assert(s.push(c).drop_last() =~= s);
}

pub(crate) proof fn lemma_pow10_positive(n: nat)
    ensures
        pow10(n) >= 1,
    decreases n,
{
    if n > 0 {
        lemma_pow10_positive((n - 1) as nat);
    }
}

pub(crate) proof fn lemma_pow10_monotone(a: nat, b: nat)
    requires
        a <= b,
    ensures
        pow10(a) <= pow10(b),
    decreases b,
{
    if a < b {
        lemma_pow10_monotone(a, (b - 1) as nat);
    }
}

proof fn lemma_num_digits_bounds(n: nat, k: nat)
    ensures
        n < pow10(num_digits(n)),
        1 <= k && n < pow10(k) ==> num_digits(n) <= k,
    decreases n,
{
    reveal_with_fuel(pow10, 2);
    if n >= 10 {
        let m = n / 10;
        if k >= 1 {
            assert(pow10(k) == 10 * pow10((k - 1) as nat));
        }
        lemma_num_digits_bounds(m, (k - 1) as nat);
        assert(pow10(num_digits(n)) == 10 * pow10(num_digits(m)));
        assert(n < 10 * pow10(num_digits(m))) by (nonlinear_arith)
            requires
                m == n / 10,
                m < pow10(num_digits(m)),
        ;
        if 1 <= k && n < pow10(k) {
            assert(m < pow10((k - 1) as nat)) by (nonlinear_arith)
                requires
                    m == n / 10,
                    n < 10 * pow10((k - 1) as nat),
            ;
            reveal_with_fuel(pow10, 2);
            assert(k >= 2) by {
                if k == 1 {
                    assert(pow10(0) == 1);
                }
            }
        }
    }
}

proof fn lemma_digits_value_fixed(n: nat, w: nat)
    requires
        n < pow10(w),
    ensures
        digits_value(fixed_digits(n, w)) == n,
    decreases w,
{
    let s = fixed_digits(n, w);
    if w > 0 {
        let m = n / 10;
        let w1 = (w - 1) as nat;
        assert(m < pow10(w1)) by (nonlinear_arith)
            requires
                m == n / 10,
                n < 10 * pow10(w1),
        ;
        lemma_digits_value_fixed(m, w1);
        assert forall|i: int| 0 <= i < w1 implies #[trigger] s.drop_last()[i] == fixed_digits(
            m,
            w1,
        )[i] by {
            let e = (w1 - 1 - i) as nat;
            assert(pow10((w - 1 - i) as nat) == 10 * pow10(e));
            lemma_pow10_positive(e);
            vstd::arithmetic::div_mod::lemma_div_denominator(n as int, 10, pow10(e) as int);
        }
        assert(s.drop_last() =~= fixed_digits(m, w1));
        assert(pow10(0) == 1);
        assert(n / pow10(0) == n) by (nonlinear_arith)
            requires
                pow10(0) == 1,
        ;
        assert(s.last() == (DIGIT_ZERO + n % 10) as u8);
        assert(n == m * 10 + n % 10) by (nonlinear_arith)
            requires
                m == n / 10,
        ;
    } else {
        assert(s.len() == 0);
    }
}

proof fn lemma_digits_value_concat(a: Seq<u8>, b: Seq<u8>)
    requires
        forall|i: int| 0 <= i < b.len() ==> is_digit(#[trigger] b[i]),
    ensures
        digits_value(a + b) == digits_value(a) * pow10(b.len()) + digits_value(b),
    decreases b.len(),
{
    if b.len() == 0 {
        assert(a + b =~= a);
        assert(pow10(0) == 1);
        assert(digits_value(b) == 0);
    } else {
        let b1 = b.drop_last();
        lemma_digits_value_concat(a, b1);
        assert((a + b).drop_last() =~= a + b1);
        assert((a + b).last() == b.last());
        assert(is_digit(b[b.len() - 1]));
        let c = (b.last() - DIGIT_ZERO) as nat;
        assert(digits_value(b) == digits_value(b1) * 10 + c);
        assert(digits_value(a + b) == digits_value(a + b1) * 10 + c);
        assert(pow10(b.len()) == 10 * pow10(b1.len()));
        let x = digits_value(a);
        let y = digits_value(b1);
        let p = pow10(b1.len());
        assert((x * p + y) * 10 == x * (10 * p) + y * 10) by (nonlinear_arith);
    }
}

proof fn lemma_fixed_digits_are_digits(n: nat, w: nat)
    ensures
        forall|i: int| 0 <= i < w ==> is_digit(#[trigger] fixed_digits(n, w)[i]),
{
    assert forall|i: int| 0 <= i < w implies is_digit(#[trigger] fixed_digits(n, w)[i]) by {
        let q = n as int / pow10((w - 1 - i) as nat) as int;
        vstd::arithmetic::div_mod::lemma_mod_bound(q, 10);
    }
}

/// Digits `s` with a point inserted before the last `f` of them.
proof fn lemma_pointed_digits(s: Seq<u8>, f: int)
    requires
        0 < f < s.len(),
        forall|i: int| 0 <= i < s.len() ==> is_digit(#[trigger] s[i]),
    ensures
        ({
            let k = s.len() - f;
            let body = s.subrange(0, k) + seq![POINT] + s.subrange(k, s.len() as int);
            &&& body.len() > 0
            &&& is_digit(body.last())
            &&& forall|i: int| 0 <= i < body.len() ==> is_digit(#[trigger] body[i]) || body[i] == POINT
            &&& forall|i: int, j: int|
                #![trigger body[i], body[j]]
                0 <= i < j < body.len() && body[i] == POINT ==> body[j] != POINT
            &&& digits_value(body) == digits_value(s)
            &&& fraction_len(body) == f
        }),
{
    let k = s.len() - f;
    let lo = s.subrange(0, k);
    let hi = s.subrange(k, s.len() as int);
    let body = lo + seq![POINT] + hi;
    assert(body[k] == POINT);
    assert forall|i: int| 0 <= i < body.len() && i != k implies #[trigger] body[i] != POINT
        && is_digit(body[i]) by {
        if i < k {
            assert(body[i] == s[i]);
        } else {
            assert(body[i] == s[i - 1]);
        }
    }
    assert(body.last() == body[body.len() - 1]);
    assert(body.contains(POINT));
    assert(body.index_of(POINT) == k);
    assert forall|i: int| 0 <= i < hi.len() implies is_digit(#[trigger] hi[i]) by {
        assert(hi[i] == s[k + i]);
    }
    lemma_digits_value_concat(lo.push(POINT), hi);
    lemma_digits_value_push(lo, POINT);
    lemma_digits_value_concat(lo, hi);
    assert(lo.push(POINT) + hi =~= body);
    assert(lo + hi =~= s);
}

/// Reading the text of a well-formed decimal as a number gives the decimal back.
pub proof fn lemma_text_round_trip(d: Decimal)
    requires
        d.wf(),
    ensures
        scan_spec(d.text()) == NumberScan::Value(d),
{
    let t = d.text();
    let w = d.text_width();
    let n = d.units as nat;
    let s = fixed_digits(n, w);
    let k = w - d.scale;
    lemma_num_digits_bounds(n, 0);
    lemma_pow10_monotone(num_digits(n), w);
    lemma_digits_value_fixed(n, w);
    lemma_fixed_digits_are_digits(n, w);
    let body = if d.scale == 0 {
        s
    } else {
        s.subrange(0, k) + seq![POINT] + s.subrange(k, w as int)
    };
    if d.negative {
        assert(t =~= seq![MINUS] + body);
    } else {
        assert(t =~= body);
        assert(is_digit(body[0]));
    }
    assert(unsigned_part(t) =~= body);
    if d.scale == 0 {
        assert(!body.contains(POINT));
        assert(is_digit(body[body.len() - 1]));
    } else {
        lemma_pointed_digits(s, d.scale as int);
    }
}

/// Trimming a body of digits and at most one point keeps a prefix; what is
/// left after the point, if a point is left, ends in a digit other than zero.
pub(crate) proof fn lemma_trim_fraction(b: Seq<u8>)
    requires
        forall|i: int| 0 <= i < b.len() ==> is_digit(#[trigger] b[i]) || b[i] == POINT,
        forall|i: int, j: int|
            #![trigger b[i], b[j]]
            0 <= i < j < b.len() && b[i] == POINT ==> b[j] != POINT,
    ensures
        trim_fraction(b).len() <= b.len(),
        trim_fraction(b) == b.subrange(0, trim_fraction(b).len() as int),
        trim_fraction(b).contains(POINT) ==> trim_fraction(b).len() > 0 && is_digit(
            trim_fraction(b).last(),
        ) && trim_fraction(b).last() != DIGIT_ZERO,
        !trim_fraction(b).contains(POINT) && b.contains(POINT) ==> trim_fraction(b).len() == 0
            || is_digit(trim_fraction(b).last()),
    decreases b.len(),
{
    let p = b.drop_last();
    if b.contains(POINT) && b.len() > 0 && b.last() == DIGIT_ZERO {
        lemma_trim_fraction(p);
        let w = choose|i: int| 0 <= i < b.len() && b[i] == POINT;
        assert(w < b.len() - 1);
        assert(p[w] == POINT);
        assert forall|i: int| 0 <= i < trim_fraction(b).len() implies trim_fraction(b)[i] == b[i] by {
            assert(trim_fraction(b)[i] == p[i]);
        }
        assert(trim_fraction(b) =~= b.subrange(0, trim_fraction(b).len() as int));
    } else if b.len() > 0 && b.last() == POINT {
        assert(!p.contains(POINT)) by {
            if p.contains(POINT) {
                let w = choose|i: int| 0 <= i < p.len() && p[i] == POINT;
                assert(b[w] == POINT && b[b.len() - 1] == POINT);
            }
        }
        if p.len() > 0 {
            assert(b[p.len() - 1] == p.last());
        }
        assert(p =~= b.subrange(0, p.len() as int));
    } else {
        assert(b =~= b.subrange(0, b.len() as int));
        if b.len() > 0 {
            assert(b[b.len() - 1] == b.last());
        }
    }
}

/// End of the significant part of the number body `line[body_start..end]`,
/// whose point, if any, is at `point`.
pub(crate) fn significant_end(line: &[u8], body_start: usize, end: usize, point: Option<usize>) -> (q: usize)
    requires
        body_start < end <= line@.len(),
        ({
            let b = line@.subrange(body_start as int, end as int);
            &&& forall|i: int| 0 <= i < b.len() ==> is_digit(#[trigger] b[i]) || b[i] == POINT
            &&& forall|i: int, j: int|
                #![trigger b[i], b[j]]
                0 <= i < j < b.len() && b[i] == POINT ==> b[j] != POINT
            &&& match point {
                None => !b.contains(POINT),
                Some(p) => body_start <= p < end && b[p - body_start] == POINT,
            }
        }),
    ensures
        body_start <= q <= end,
        line@.subrange(body_start as int, q as int) == trim_fraction(
            line@.subrange(body_start as int, end as int),
        ),
{
    let ghost b = line@.subrange(body_start as int, end as int);
    let mut q = end;
    if let Some(p) = point {
        assert(b.contains(POINT));
        while q > p + 1 && line[q - 1] == DIGIT_ZERO
            invariant
                body_start <= p < q <= end <= line@.len(),
                b == line@.subrange(body_start as int, end as int),
                b[p - body_start] == POINT,
                trim_fraction(line@.subrange(body_start as int, q as int)) == trim_fraction(b),
            decreases q,
        {
            let ghost cur = line@.subrange(body_start as int, q as int);
            assert(cur[p - body_start] == POINT);
            assert(cur.drop_last() =~= line@.subrange(body_start as int, q - 1));
            q = q - 1;
        }
        let ghost cur = line@.subrange(body_start as int, q as int);
        assert(cur[p - body_start] == POINT);
        assert(cur.contains(POINT));
        if q == p + 1 {
            assert(cur.drop_last() =~= line@.subrange(body_start as int, p as int));
            q = p;
        } else {
            assert(cur.last() == b[q - 1 - body_start]);
            assert(cur.last() != POINT);
        }
    } else {
        assert(!b.contains(POINT));
        assert(b.last() == b[b.len() - 1]);
        assert(line@.subrange(body_start as int, q as int) =~= b);
    }
    q
}

/// The value of the digits of `line[a..q]`, or `true` beside it when that
/// value reaches `UNITS_LIMIT`.
pub(crate) fn digits_in(line: &[u8], a: usize, q: usize) -> (r: (u64, bool))
    requires
        a <= q <= line@.len(),
    ensures
        r.0 < UNITS_LIMIT,
        !r.1 ==> r.0 as nat == digits_value(line@.subrange(a as int, q as int)),
        r.1 ==> digits_value(line@.subrange(a as int, q as int)) >= UNITS_LIMIT,
{
    let ghost tb = line@.subrange(a as int, q as int);
    let body_start = a;
    let mut units: u64 = 0;
    let mut large = false;
    let mut k = body_start;
    while k < q
        invariant
            body_start <= k <= q <= line@.len(),
            tb == line@.subrange(body_start as int, q as int),
            !large ==> units as nat == digits_value(tb.subrange(0, k - body_start)),
            large ==> digits_value(tb.subrange(0, k - body_start)) >= UNITS_LIMIT,
            units < UNITS_LIMIT,
        decreases q - k,
    {
        let c = line[k];
        assert(tb[k - body_start] == c);
        let ghost prev = tb.subrange(0, k - body_start);
        assert(tb.subrange(0, k + 1 - body_start) =~= prev.push(c));
        proof {
            lemma_digits_value_push(prev, c);
        }
        if DIGIT_ZERO <= c && c <= DIGIT_NINE && !large {
            if units < UNITS_LIMIT / 10 {
                units = units * 10 + (c - DIGIT_ZERO) as u64;
            } else {
                large = true;
            }
        }
        k = k + 1;
    }
    assert(tb.subrange(0, tb.len() as int) =~= tb);
    (units, large)
}

/// Reads `line[start..end]` as a number.
pub fn scan_number(line: &[u8], start: usize, end: usize) -> (r: NumberScan)
    requires
        start <= end <= line@.len(),
    ensures
        r == scan_spec(line@.subrange(start as int, end as int)),
{
    let ghost t = line@.subrange(start as int, end as int);
    let mut i = start;
    let mut negative = false;
    if i < end && (line[i] == PLUS || line[i] == MINUS) {
        negative = line[i] == MINUS;
        i = i + 1;
    }
    let body_start = i;
    let ghost b = unsigned_part(t);
    assert(b =~= line@.subrange(body_start as int, end as int));
    if body_start == end || !(DIGIT_ZERO <= line[end - 1] && line[end - 1] <= DIGIT_NINE) {
        return NumberScan::NotNumber;
    }
    let mut point: Option<usize> = None;
    while i < end
        invariant
            body_start <= i <= end <= line@.len(),
            b == line@.subrange(body_start as int, end as int),
            t == line@.subrange(start as int, end as int),
            b == unsigned_part(t),
            forall|k: int|
                0 <= k < i - body_start ==> is_digit(#[trigger] b[k]) || b[k] == POINT,
            match point {
                None => forall|k: int| 0 <= k < i - body_start ==> #[trigger] b[k] != POINT,
                Some(p) => {
                    &&& body_start <= p < i
                    &&& b[p - body_start] == POINT
                    &&& forall|k: int|
                        0 <= k < i - body_start && k != p - body_start ==> #[trigger] b[k]
                            != POINT
                },
            },
        decreases end - i,
    {
        let c = line[i];
        assert(b[i - body_start] == c);
        if c == POINT {
            if let Some(p) = point {
                assert(!is_number(t)) by {
                    let x = p - body_start;
                    let y = i - body_start;
                    assert(b[x] == POINT && b[y] == POINT && 0 <= x < y < b.len());
                }
                return NumberScan::NotNumber;
            }
            point = Some(i);
        } else if !(DIGIT_ZERO <= c && c <= DIGIT_NINE) {
            assert(!is_number(t)) by {
                let y = i - body_start;
                assert(!is_digit(b[y]) && b[y] != POINT && 0 <= y < b.len());
            }
            return NumberScan::NotNumber;
        }
        i = i + 1;
    }
    assert(is_number(t));
    proof {
        lemma_trim_fraction(b);
    }
    let q = significant_end(line, body_start, end, point);
    let ghost tb = trim_fraction(b);
    assert(tb == line@.subrange(body_start as int, q as int));
    let (units, large) = digits_in(line, body_start, q);
    assert(tb.subrange(0, tb.len() as int) =~= tb);
    let scale: usize = match point {
        Some(p) => if q > p {
            assert(tb[p - body_start] == POINT);
            assert(tb.contains(POINT));
            assert forall|x: int| 0 <= x < tb.len() && tb[x] == POINT implies x == p - body_start by {
                assert(tb[x] == b[x]);
                assert(b[p - body_start] == POINT);
            }
            assert(tb.index_of(POINT) == p - body_start);
            q - 1 - p
        } else {
            assert forall|x: int| 0 <= x < tb.len() implies tb[x] != POINT by {
                assert(tb[x] == b[x]);
                assert(b[p - body_start] == POINT);
            }
            assert(!tb.contains(POINT));
            0
        },
        None => {
            assert(!tb.contains(POINT));
            0
        },
    };
    if large || scale > MAX_SCALE as usize {
        NumberScan::TooLarge
    } else {
        NumberScan::Value(Decimal { negative: negative && units != 0, units, scale: scale as u8 })
    }
}

} // verus!
