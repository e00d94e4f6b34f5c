//! Exact numbers: decimals read from text, and rationals for physical quantities.
use vstd::prelude::*;

use crate::text::{digit_value, int_text, is_digit, nat_text};

verus! {

/// The largest number of fraction digits a `Decimal` keeps.
pub const MAX_SCALE: u32 = 18;

pub open spec fn pow10(n: nat) -> int
    decreases n,
{
    if n == 0 {
        1
    } else {
        10 * pow10((n - 1) as nat)
    }
}

pub proof fn lemma_pow10_positive(n: nat)
    ensures
        pow10(n) >= 1,
    decreases n,
{
    if n > 0 {
        lemma_pow10_positive((n - 1) as nat);
    }
}

pub proof fn lemma_pow10_add(a: nat, b: nat)
    ensures
        pow10(a + b) == pow10(a) * pow10(b),
    decreases b,
{
    if b > 0 {
        lemma_pow10_add(a, (b - 1) as nat);
        assert(pow10(a + b) == 10 * pow10((a + b - 1) as nat));
        assert(pow10(a) * pow10(b) == pow10(a) * (10 * pow10((b - 1) as nat)));
        assert(pow10(a) * (10 * pow10((b - 1) as nat)) == 10 * (pow10(a) * pow10((b - 1) as nat)))
            by (nonlinear_arith);
    }
}

pub proof fn lemma_pow10_monotone(a: nat, b: nat)
    requires
        a <= b,
    ensures
        pow10(a) <= pow10(b),
    decreases b,
{
    if a < b {
        lemma_pow10_monotone(a, (b - 1) as nat);
        lemma_pow10_positive((b - 1) as nat);
    }
}

pub proof fn lemma_pow10_18()
    ensures
        pow10(18) == 1_000_000_000_000_000_000,
{
    reveal_with_fuel(pow10, 19);
}

/// 10 to the power `n`, for the exponents a `Decimal` can carry.
pub fn pow10_exec(n: u32) -> (r: i128)
    requires
        n <= MAX_SCALE,
    ensures
        r == pow10(n as nat),
        1 <= r <= 1_000_000_000_000_000_000,
{
    let mut r: i128 = 1;
    let mut i: u32 = 0;
    proof {
        lemma_pow10_18();
    }
    while i < n
        invariant
            i <= n <= MAX_SCALE,
            r == pow10(i as nat),
            pow10(18) == 1_000_000_000_000_000_000,
        decreases n - i,
    {
        proof {
            lemma_pow10_monotone((i + 1) as nat, 18);
            assert(pow10((i + 1) as nat) == 10 * pow10(i as nat));
            lemma_pow10_positive(i as nat);
            assert(r * 10 <= 1_000_000_000_000_000_000);
        }
        r = r * 10;
        i = i + 1;
    }
    proof {
        lemma_pow10_positive(n as nat);
        lemma_pow10_monotone(n as nat, 18);
    }
    r
}

/// The value of a string of decimal digits.
pub open spec fn digits_value(s: Seq<char>) -> nat
    decreases s.len(),
{
    if s.len() == 0 {
        0
    } else {
        (digits_value(s.drop_last()) * 10 + digit_value(s.last())) as nat
    }
}

pub open spec fn all_digits(s: Seq<char>) -> bool {
    forall|i: int| 0 <= i < s.len() ==> is_digit(#[trigger] s[i])
}

/// How many leading characters are a sign (`+` or `-`).
pub open spec fn sign_len(s: Seq<char>) -> int {
    if s.len() > 0 && (s[0] == '-' || s[0] == '+') {
        1
    } else {
        0
    }
}

pub open spec fn is_negative(s: Seq<char>) -> bool {
    s.len() > 0 && s[0] == '-'
}

/// The digits after the optional sign.
pub open spec fn unsigned_part(s: Seq<char>) -> Seq<char> {
    s.subrange(sign_len(s), s.len() as int)
}

/// The integer an optionally signed string of digits denotes, if it fits an `i64`.
pub open spec fn int_of(s: Seq<char>) -> Option<i64> {
    let body = unsigned_part(s);
    let v: int = if is_negative(s) {
        -digits_value(body)
    } else {
        digits_value(body) as int
    };
    if body.len() > 0 && all_digits(body) && i64::MIN <= v <= i64::MAX {
        Some(v as i64)
    } else {
        None
    }
}

const CAP: i128 = 9_223_372_036_854_775_809;

proof fn lemma_digit_range(c: char)
    requires
        is_digit(c),
    ensures
        0 <= digit_value(c) <= 9,
{
}

/// The value of the digits `s[from..to]`, saturated at a bound above every `i64`, or `None`
/// when one of them is not a digit.
fn digits_capped(s: &Vec<char>, from: usize, to: usize) -> (r: Option<i128>)
    requires
        from <= to <= s@.len(),
    ensures
        r is Some <==> all_digits(s@.subrange(from as int, to as int)),
        r matches Some(v) ==> {
            &&& 0 <= v <= CAP
            &&& (v < CAP ==> v == digits_value(s@.subrange(from as int, to as int)))
            &&& (v == CAP ==> digits_value(s@.subrange(from as int, to as int)) >= CAP)
        },
{
    let mut acc: i128 = 0;
    let mut i: usize = from;
    while i < to
        invariant
            from <= i <= to <= s@.len(),
            all_digits(s@.subrange(from as int, i as int)),
            0 <= acc <= CAP,
            acc < CAP ==> acc == digits_value(s@.subrange(from as int, i as int)),
            acc == CAP ==> digits_value(s@.subrange(from as int, i as int)) >= CAP,
        decreases to - i,
    {
        let c = s[i];
        if !('0' <= c && c <= '9') {
            assert(s@.subrange(from as int, to as int)[i - from] == c);
            return None;
        }
        let d = (c as u32 - '0' as u32) as i128;
        let ghost prev = s@.subrange(from as int, i as int);
        let ghost next = s@.subrange(from as int, i + 1);
        assert(next.drop_last() =~= prev);
        assert(next.last() == c);
        assert(digits_value(next) == digits_value(prev) * 10 + digit_value(c));
        assert forall|k: int| 0 <= k < next.len() implies is_digit(#[trigger] next[k]) by {
            if k < prev.len() {
                assert(next[k] == prev[k]);
            }
        }
        if acc > CAP / 10 {
            acc = CAP;
            assert(digits_value(next) >= CAP) by (nonlinear_arith)
                requires
                    digits_value(next) == digits_value(prev) * 10 + digit_value(c),
                    digit_value(c) >= 0,
                    digits_value(prev) >= CAP / 10 + 1,
            ;
        } else {
            acc = acc * 10 + d;
            if acc > CAP {
                acc = CAP;
            }
        }
        i = i + 1;
    }
    Some(acc)
}

/// Reads an optionally signed decimal integer that fits an `i64`.
pub fn parse_int(s: &Vec<char>) -> (r: Option<i64>)
    ensures
        r == int_of(s@),
{
    let n = s.len();
    let start: usize = if n > 0 && (s[0] == '-' || s[0] == '+') {
        1
    } else {
        0
    };
    assert(start == sign_len(s@));
    assert(s@.subrange(start as int, n as int) == unsigned_part(s@));
    if start == n {
        return None;
    }
    let neg = s[0] == '-';
    match digits_capped(s, start, n) {
        None => None,
        Some(v) => {
            if neg {
                if v <= 9_223_372_036_854_775_808 {
                    Some((-v) as i64)
                } else {
                    None
                }
            } else {
                if v <= 9_223_372_036_854_775_807 {
                    Some(v as i64)
                } else {
                    None
                }
            }
        },
    }
}

/// A decimal number: `mantissa / 10^scale`, exactly.
#[derive(Clone, Copy, Debug, PartialEq, Eq, Structural)]
pub struct Decimal {
    pub mantissa: i64,
    pub scale: u32,
}

impl Decimal {
    pub open spec fn wf(self) -> bool {
        self.scale <= MAX_SCALE
    }

    /// The mantissa of this value written with `s` fraction digits.
    pub open spec fn aligned(self, s: nat) -> int {
        self.mantissa * pow10((s - self.scale) as nat)
    }

    /// Whether two decimals denote the same number.
    pub open spec fn same_value(self, other: Decimal) -> bool {
        self.mantissa * pow10(other.scale as nat) == other.mantissa * pow10(self.scale as nat)
    }

    pub open spec fn less_than(self, other: Decimal) -> bool {
        self.mantissa * pow10(other.scale as nat) < other.mantissa * pow10(self.scale as nat)
    }

    pub fn is_zero(&self) -> (r: bool)
        ensures
            r == (self.mantissa == 0),
    {
        self.mantissa == 0
    }

    /// Whether `self` denotes a smaller number than `other`.
    pub fn lt(&self, other: &Decimal) -> (r: bool)
        requires
            self.wf(),
            other.wf(),
        ensures
            r == self.less_than(*other),
    {
        let pa = pow10_exec(other.scale);
        let pb = pow10_exec(self.scale);
        proof {
            lemma_mul_bound(self.mantissa as int, pa as int);
            lemma_mul_bound(other.mantissa as int, pb as int);
        }
        let a = self.mantissa as i128 * pa;
        let b = other.mantissa as i128 * pb;
        a < b
    }

    /// The larger of two decimals; the first on a tie.
    pub fn max(&self, other: &Decimal) -> (r: Decimal)
        requires
            self.wf(),
            other.wf(),
        ensures
            r == (if self.less_than(*other) { *other } else { *self }),
    {
        if self.lt(other) {
            *other
        } else {
            *self
        }
    }
}

pub open spec fn max_nat(a: nat, b: nat) -> nat {
    if a >= b {
        a
    } else {
        b
    }
}

/// The exact sum of two decimals, at the larger of their scales.
pub open spec fn sum_mantissa(a: Decimal, b: Decimal) -> int {
    let s = max_nat(a.scale as nat, b.scale as nat);
    a.aligned(s) + b.aligned(s)
}

pub open spec fn fits_i64(v: int) -> bool {
    i64::MIN <= v <= i64::MAX
}

pub open spec fn spec_add(a: Decimal, b: Decimal) -> Option<Decimal> {
    if fits_i64(sum_mantissa(a, b)) {
        Some(
            Decimal {
                mantissa: sum_mantissa(a, b) as i64,
                scale: max_nat(a.scale as nat, b.scale as nat) as u32,
            },
        )
    } else {
        None
    }
}

proof fn lemma_mul_bound(m: int, p: int)
    requires
        i64::MIN <= m <= i64::MAX,
        1 <= p <= 1_000_000_000_000_000_000,
    ensures
        -10_000_000_000_000_000_000_000_000_000_000_000_000 <= m * p
            <= 10_000_000_000_000_000_000_000_000_000_000_000_000,
{
    assert(-10_000_000_000_000_000_000_000_000_000_000_000_000 <= m * p
        <= 10_000_000_000_000_000_000_000_000_000_000_000_000) by (nonlinear_arith)
        requires
            -9_223_372_036_854_775_808 <= m <= 9_223_372_036_854_775_807,
            1 <= p <= 1_000_000_000_000_000_000,
    ;
}

/// The exact sum, or `None` when its mantissa leaves the `i64` range.
pub fn checked_add(a: Decimal, b: Decimal) -> (r: Option<Decimal>)
    requires
        a.wf(),
        b.wf(),
    ensures
        r == spec_add(a, b),
        r matches Some(d) ==> d.wf(),
{
    let s = if a.scale >= b.scale {
        a.scale
    } else {
        b.scale
    };
    let pa = pow10_exec(s - a.scale);
    let pb = pow10_exec(s - b.scale);
    proof {
        lemma_mul_bound(a.mantissa as int, pa as int);
        lemma_mul_bound(b.mantissa as int, pb as int);
    }
    let v = a.mantissa as i128 * pa + b.mantissa as i128 * pb;
    if v < i64::MIN as i128 || v > i64::MAX as i128 {
        None
    } else {
        Some(Decimal { mantissa: v as i64, scale: s })
    }
}

/// Scans the characters of an unsigned decimal: the value of its digits, the number of
/// dots, the number of digits after the first dot, and the number of digits.
pub open spec fn scan(b: Seq<char>) -> (int, nat, nat, nat)
    decreases b.len(),
{
    if b.len() == 0 {
        (0, 0, 0, 0)
    } else {
        let (v, dots, frac, nd) = scan(b.drop_last());
        let c = b.last();
        if c == '.' {
            (v, dots + 1, frac, nd)
        } else {
            (v * 10 + digit_value(c), dots, if dots > 0 {
                frac + 1
            } else {
                frac
            }, nd + 1)
        }
    }
}

pub open spec fn numeric_chars(b: Seq<char>) -> bool {
    forall|i: int| 0 <= i < b.len() ==> is_digit(#[trigger] b[i]) || b[i] == '.'
}

/// The decimal an optionally signed string of digits with at most one `.` denotes, when
/// its digits fit an `i64` and at most `MAX_SCALE` of them follow the dot.
pub open spec fn decimal_of(s: Seq<char>) -> Option<Decimal> {
    let body = unsigned_part(s);
    let (v, dots, frac, nd) = scan(body);
    if numeric_chars(body) && dots <= 1 && nd >= 1 && v <= i64::MAX && frac <= MAX_SCALE {
        Some(
            Decimal {
                mantissa: (if is_negative(s) {
                    -v
                } else {
                    v
                }) as i64,
                scale: frac as u32,
            },
        )
    } else {
        None
    }
}

proof fn lemma_scan_nonneg(b: Seq<char>)
    requires
        numeric_chars(b),
    ensures
        scan(b).0 >= 0,
        scan(b).3 == 0 ==> scan(b).0 == 0,
    decreases b.len(),
{
    if b.len() > 0 {
        assert(numeric_chars(b.drop_last())) by {
            assert forall|i: int| 0 <= i < b.drop_last().len() implies is_digit(
                #[trigger] b.drop_last()[i],
            ) || b.drop_last()[i] == '.' by {
                assert(b.drop_last()[i] == b[i]);
            }
        }
        lemma_scan_nonneg(b.drop_last());
        assert(is_digit(b[b.len() - 1]) || b[b.len() - 1] == '.');
    }
}

/// Reads an optionally signed decimal number such as `-12.50`, `3` or `.5`.
pub fn parse_decimal(s: &Vec<char>) -> (r: Option<Decimal>)
    ensures
        r == decimal_of(s@),
        r matches Some(d) ==> d.wf(),
{
    let n = s.len();
    let start: usize = if n > 0 && (s[0] == '-' || s[0] == '+') {
        1
    } else {
        0
    };
    assert(start == sign_len(s@));
    let ghost body = unsigned_part(s@);
    assert(body =~= s@.subrange(start as int, n as int));
    let mut acc: i128 = 0;
    let mut dots: u32 = 0;
    let mut frac: u32 = 0;
    let mut nd: usize = 0;
    let mut i: usize = start;
    while i < n
        invariant
            start <= i <= n == s@.len(),
            body == s@.subrange(start as int, n as int),
            body == unsigned_part(s@),
            start == sign_len(s@),
            numeric_chars(s@.subrange(start as int, i as int)),
            0 <= acc <= CAP,
            acc < CAP ==> acc == scan(s@.subrange(start as int, i as int)).0,
            acc == CAP ==> scan(s@.subrange(start as int, i as int)).0 >= CAP,
            dots <= 1,
            dots == scan(s@.subrange(start as int, i as int)).1,
            frac <= MAX_SCALE,
            frac == scan(s@.subrange(start as int, i as int)).2,
            nd <= i,
            nd == scan(s@.subrange(start as int, i as int)).3,
        decreases n - i,
    {
        let c = s[i];
        let ghost prev = s@.subrange(start as int, i as int);
        let ghost next = s@.subrange(start as int, i + 1);
        assert(next.drop_last() =~= prev);
        assert(next.last() == c);
        if c == '.' {
            if dots >= 1 {
                proof {
                    assert(body[i - start] == c);
                    assert(body.subrange(0, i - start) =~= prev);
                    lemma_scan_dots_grow(body, i - start + 1);
                    assert(decimal_of(s@) is None);
                }
                return None;
            }
            dots = dots + 1;
        } else if '0' <= c && c <= '9' {
            let d = (c as u32 - '0' as u32) as i128;
            if dots > 0 {
                if frac >= MAX_SCALE {
                    proof {
                        assert(body[i - start] == c);
                        assert(body.subrange(0, i - start) =~= prev);
                        lemma_scan_frac_grow(body, i - start + 1);
                        assert(decimal_of(s@) is None);
                    }
                    return None;
                }
                frac = frac + 1;
            }
            nd = nd + 1;
            if acc > CAP / 10 {
                acc = CAP;
                assert(scan(next).0 >= CAP) by (nonlinear_arith)
                    requires
                        scan(next).0 == scan(prev).0 * 10 + digit_value(c),
                        digit_value(c) >= 0,
                        scan(prev).0 >= CAP / 10 + 1,
                ;
            } else {
                acc = acc * 10 + d;
                if acc > CAP {
                    acc = CAP;
                }
            }
        } else {
            assert(body[i - start] == c);
            return None;
        }
        assert forall|k: int| 0 <= k < next.len() implies is_digit(#[trigger] next[k])
            || next[k] == '.' by {
            if k < prev.len() {
                assert(next[k] == prev[k]);
            }
        }
        i = i + 1;
    }
    assert(s@.subrange(start as int, n as int) == body);
    proof {
        lemma_scan_nonneg(body);
    }
    if nd == 0 || acc > i64::MAX as i128 {
        return None;
    }
    let m: i64 = if n > 0 && s[0] == '-' {
        -(acc as i64)
    } else {
        acc as i64
    };
    Some(Decimal { mantissa: m, scale: frac })
}

/// Once two dots have been seen, every longer prefix still has more than one.
proof fn lemma_scan_dots_grow(b: Seq<char>, j: int)
    requires
        0 < j <= b.len(),
        b[j - 1] == '.',
        scan(b.subrange(0, j - 1)).1 >= 1,
    ensures
        scan(b).1 >= 2,
    decreases b.len(),
{
    if b.len() > j {
        assert(b.drop_last().subrange(0, j - 1) =~= b.subrange(0, j - 1));
        assert(b.drop_last()[j - 1] == b[j - 1]);
        lemma_scan_dots_grow(b.drop_last(), j);
    } else {
        assert(b.subrange(0, j - 1) =~= b.drop_last());
    }
}

/// Once more than `MAX_SCALE` digits follow a dot, every longer prefix keeps them.
proof fn lemma_scan_frac_grow(b: Seq<char>, j: int)
    requires
        0 < j <= b.len(),
        is_digit(b[j - 1]),
        scan(b.subrange(0, j - 1)).1 >= 1,
        scan(b.subrange(0, j - 1)).2 >= MAX_SCALE,
    ensures
        scan(b).2 > MAX_SCALE || scan(b).1 >= 2,
    decreases b.len(),
{
    if b.len() > j {
        assert(b.drop_last().subrange(0, j - 1) =~= b.subrange(0, j - 1));
        assert(b.drop_last()[j - 1] == b[j - 1]);
        lemma_scan_frac_grow(b.drop_last(), j);
    } else {
        assert(b.subrange(0, j - 1) =~= b.drop_last());
    }
}

/// A rational number `num / den`; well formed when `den` is positive.
#[derive(Clone, Copy, Debug, PartialEq, Eq, Structural)]
pub struct Rational {
    pub num: i128,
    pub den: i128,
}

/// The rational `n / d` with its sign moved to the numerator, when it fits.
pub open spec fn make_ratio(n: int, d: int) -> Option<Rational> {
    let (a, b) = if d < 0 {
        (-n, -d)
    } else {
        (n, d)
    };
    if i128::MIN <= a <= i128::MAX && i128::MIN <= b <= i128::MAX {
        Some(Rational { num: a as i128, den: b as i128 })
    } else {
        None
    }
}

impl Rational {
    pub open spec fn wf(self) -> bool {
        self.den > 0
    }

    /// Whether `lo <= self <= hi` for integers `lo` and `hi`.
    pub open spec fn within(self, lo: int, hi: int) -> bool {
        lo * self.den <= self.num <= hi * self.den
    }
}

/// `n / d` with the sign on the numerator; `None` when it does not fit.
pub fn ratio(n: i128, d: i128) -> (r: Option<Rational>)
    ensures
        r == make_ratio(n as int, d as int),
{
    if d < 0 {
        if n == i128::MIN || d == i128::MIN {
            None
        } else {
            Some(Rational { num: -n, den: -d })
        }
    } else {
        Some(Rational { num: n, den: d })
    }
}

/// `d * 10^k`, exactly: by moving the decimal point where the scale allows, else by
/// multiplying the mantissa; `None` when the result leaves the representable range.
pub open spec fn spec_mul_pow10(d: Decimal, k: int) -> Option<Decimal> {
    if k >= 0 {
        if d.scale >= k {
            Some(Decimal { mantissa: d.mantissa, scale: (d.scale - k) as u32 })
        } else {
            let m = d.mantissa * pow10((k - d.scale) as nat);
            if fits_i64(m) {
                Some(Decimal { mantissa: m as i64, scale: 0 })
            } else {
                None
            }
        }
    } else {
        if d.scale - k <= MAX_SCALE {
            Some(Decimal { mantissa: d.mantissa, scale: (d.scale - k) as u32 })
        } else {
            None
        }
    }
}

/// `d * 10^k` for `-18 <= k <= 18`.
pub fn mul_pow10(d: Decimal, k: i32) -> (r: Option<Decimal>)
    requires
        d.wf(),
        -18 <= k <= 18,
    ensures
        r == spec_mul_pow10(d, k as int),
        r matches Some(x) ==> x.wf(),
{
    if k >= 0 {
        let ku = k as u32;
        if d.scale >= ku {
            Some(Decimal { mantissa: d.mantissa, scale: d.scale - ku })
        } else {
            let p = pow10_exec(ku - d.scale);
            proof {
                lemma_mul_bound(d.mantissa as int, p as int);
            }
            let m = d.mantissa as i128 * p;
            if m < i64::MIN as i128 || m > i64::MAX as i128 {
                None
            } else {
                Some(Decimal { mantissa: m as i64, scale: 0 })
            }
        }
    } else {
        let ku = (-k) as u32;
        if d.scale + ku <= MAX_SCALE {
            Some(Decimal { mantissa: d.mantissa, scale: d.scale + ku })
        } else {
            None
        }
    }
}

proof fn lemma_nat_text_digits(n: nat)
    ensures
        nat_text(n).len() > 0,
        all_digits(nat_text(n)),
        digits_value(nat_text(n)) == n,
    decreases n,
{
    if n >= 10 {
        lemma_nat_text_digits(n / 10);
        let t = nat_text(n);
        let p = nat_text(n / 10);
        assert(t == p.push((('0' as nat) + n % 10) as char));
        assert(t.drop_last() =~= p);
        assert forall|i: int| 0 <= i < t.len() implies is_digit(#[trigger] t[i]) by {
            if i < p.len() {
                assert(t[i] == p[i]);
            }
        }
        assert(digit_value(t.last()) == n % 10);
        vstd::arithmetic::div_mod::lemma_fundamental_div_mod(n as int, 10);
        assert(digits_value(t) == (n / 10) * 10 + n % 10);
        assert((n / 10) * 10 == 10 * (n / 10)) by (nonlinear_arith);
        assert(digits_value(t) == n);
    } else {
        let t = nat_text(n);
        assert(t.drop_last() =~= Seq::<char>::empty());
        assert(digit_value(t.last()) == n);
        assert(digits_value(t.drop_last()) == 0);
        assert(digits_value(t) == n);
    }
}

/// Every `i64` written in decimal reads back as itself.
pub proof fn lemma_int_text_reads_back(v: i64)
    ensures
        int_of(int_text(v as int)) == Some(v),
{
    let t = int_text(v as int);
    if v < 0 {
        let m = (-(v as int)) as nat;
        lemma_nat_text_digits(m);
        assert(sign_len(t) == 1);
        assert(unsigned_part(t) =~= nat_text(m));
    } else {
        lemma_nat_text_digits(v as nat);
        assert(is_digit(nat_text(v as nat)[0]));
        assert(sign_len(t) == 0);
        assert(unsigned_part(t) =~= nat_text(v as nat));
    }
}

/// The position of the first `e` or `E` at or after `i`, or the length when there is none.
pub open spec fn exponent_pos(s: Seq<char>, i: int) -> int
    decreases s.len() - i,
{
    if i < 0 || i >= s.len() {
        s.len() as int
    } else if s[i] == 'e' || s[i] == 'E' {
        i
    } else {
        exponent_pos(s, i + 1)
    }
}

/// The number written by `s`: a decimal, optionally followed by `e` or `E` and a signed
/// power of ten between -18 and 18, when the result is representable.
pub open spec fn number_of(s: Seq<char>) -> Option<Decimal> {
    let k = exponent_pos(s, 0);
    if k >= s.len() {
        decimal_of(s)
    } else {
        match (decimal_of(s.subrange(0, k)), int_of(s.subrange(k + 1, s.len() as int))) {
            (Some(d), Some(e)) => if -18 <= e <= 18 {
                spec_mul_pow10(d, e as int)
            } else {
                None
            },
            _ => None,
        }
    }
}

/// The characters `s[a..b]`.
fn copy_range(s: &Vec<char>, a: usize, b: usize) -> (r: Vec<char>)
    requires
        a <= b <= s@.len(),
    ensures
        r@ == s@.subrange(a as int, b as int),
{
    let mut r: Vec<char> = Vec::new();
    let mut i = a;
    while i < b
        invariant
            a <= i <= b <= s@.len(),
            r@ == s@.subrange(a as int, i as int),
        decreases b - i,
    {
        r.push(s[i]);
        i = i + 1;
        assert(r@ =~= s@.subrange(a as int, i as int));
    }
    r
}

/// Reads a number such as `-12.50`, `.5`, `1e3` or `2.5E-1`.
pub fn parse_number(s: &Vec<char>) -> (r: Option<Decimal>)
    ensures
        r == number_of(s@),
        r matches Some(d) ==> d.wf(),
{
    let n = s.len();
    let mut k: usize = 0;
    while k < n && s[k] != 'e' && s[k] != 'E'
        invariant
            k <= n == s@.len(),
            exponent_pos(s@, k as int) == exponent_pos(s@, 0),
        decreases n - k,
    {
        k = k + 1;
    }
    if k == n {
        return parse_decimal(s);
    }
    let head = copy_range(s, 0, k);
    let tail = copy_range(s, k + 1, n);
    match (parse_decimal(&head), parse_int(&tail)) {
        (Some(d), Some(e)) => {
            if -18 <= e && e <= 18 {
                mul_pow10(d, e as i32)
            } else {
                None
            }
        },
        _ => None,
    }
}

} // verus!
