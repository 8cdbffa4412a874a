//! Exact decimal numbers and calendar dates, as the decoder reads them.
//!
//! A [`Decimal`] keeps the coefficient and scale exactly as written, so no
//! significant digit is lost. Text is turned into one by `fastnum`, and into
//! a [`Date`] by `chrono`; sums are exact and checked.
use chrono::Datelike;
use vstd::prelude::*;

use crate::text::{chars_of, decimal_digits, find_char, lemma_find_char_bound, string_of, u128_text, usize_text};

verus! {

/// `(-1)^negative * digits * 10^(-scale)`.
#[derive(Debug, Clone, Copy, PartialEq, Eq)]
pub struct Decimal {
    pub negative: bool,
    pub digits: u128,
    pub scale: i16,
}

pub open spec fn pow10(n: nat) -> int
    decreases n,
{
    if n == 0 {
        1
    } else {
        10 * pow10((n - 1) as nat)
    }
}

pub open spec fn abs(x: int) -> int {
    if x < 0 {
        -x
    } else {
        x
    }
}

impl Decimal {
    /// The coefficient with its sign.
    pub open spec fn signed(self) -> int {
        if self.negative {
            -(self.digits as int)
        } else {
            self.digits as int
        }
    }

    /// The coefficient this number has when written with `scale` fractional digits.
    pub open spec fn coefficient_at(self, scale: int) -> int {
        self.signed() * pow10((scale - self.scale) as nat)
    }

    /// `num * 10^(-scale)`.
    pub fn new(num: i128, scale: i16) -> (r: Decimal)
        ensures
            r.signed() == num,
            r.scale == scale,
    {
        if num < 0 {
            let magnitude: u128 = if num == i128::MIN {
                170141183460469231731687303715884105728u128
            } else {
                (-num) as u128
            };
            Decimal { negative: true, digits: magnitude, scale }
        } else {
            Decimal { negative: false, digits: num as u128, scale }
        }
    }

    pub fn zero() -> (r: Decimal)
        ensures
            r.signed() == 0,
            r.scale == 0,
            r == (Decimal { negative: false, digits: 0, scale: 0 }),
    {
        Decimal { negative: false, digits: 0, scale: 0 }
    }
}

/// The exact sum of `a` and `b`, written with the larger of their scales;
/// `None` where a coefficient involved does not fit in 128 bits.
pub open spec fn add_spec(a: Decimal, b: Decimal) -> Option<Decimal> {
    let s = if a.scale >= b.scale {
        a.scale as int
    } else {
        b.scale as int
    };
    let x = a.coefficient_at(s);
    let y = b.coefficient_at(s);
    let z = x + y;
    if abs(x) <= u128::MAX && abs(y) <= u128::MAX && abs(z) <= u128::MAX {
        Some(Decimal { negative: z < 0, digits: abs(z) as u128, scale: s as i16 })
    } else {
        None
    }
}

proof fn lemma_pow10_grows(n: nat)
    ensures
        pow10(n) >= 1,
        pow10(n + 1) == 10 * pow10(n),
    decreases n,
{
    if n > 0 {
        lemma_pow10_grows((n - 1) as nat);
    }
}

/// `10^n`, where it fits in 128 bits.
fn checked_pow10(n: u32) -> (r: Option<u128>)
    ensures
        match r {
            Some(p) => p == pow10(n as nat),
            None => pow10(n as nat) > u128::MAX,
        },
{
    let mut p: u128 = 1;
    let mut i: u32 = 0;
    while i < n
        invariant
            i <= n,
            p == pow10(i as nat),
        decreases n - i,
    {
        proof { lemma_pow10_grows(i as nat); }
        match p.checked_mul(10) {
            Some(q) => {
                p = q;
            },
            None => {
                proof { lemma_pow10_monotone((i + 1) as nat, n as nat); }
                return None;
            },
        }
        i = i + 1;
    }
    Some(p)
}

proof fn lemma_pow10_monotone(a: nat, b: nat)
    requires
        a <= b,
    ensures
        pow10(a) <= pow10(b),
    decreases b - a,
{
    if a < b {
        lemma_pow10_monotone(a, (b - 1) as nat);
        lemma_pow10_grows((b - 1) as nat);
    }
}

/// `digits * 10^n`, where it fits in 128 bits.
fn checked_scale_up(digits: u128, n: u32) -> (r: Option<u128>)
    ensures
        match r {
            Some(v) => v == digits * pow10(n as nat),
            None => digits * pow10(n as nat) > u128::MAX,
        },
{
    match checked_pow10(n) {
        Some(p) => {
            let r = digits.checked_mul(p);
            r
        },
        None => {
            if digits == 0 {
                Some(0)
            } else {
                assert(digits * pow10(n as nat) >= pow10(n as nat)) by (nonlinear_arith)
                    requires
                        digits >= 1,
                        pow10(n as nat) >= 1,
                ;
                None
            }
        },
    }
}

impl Decimal {
    /// The exact sum, or `None` where a coefficient involved does not fit
    /// in 128 bits: the sum is never rounded.
    pub fn checked_add(&self, other: &Decimal) -> (r: Option<Decimal>)
        ensures
            r == add_spec(*self, *other),
    {
        let s: i16 = if self.scale >= other.scale {
            self.scale
        } else {
            other.scale
        };
        let ghost si = s as int;
        let da = (s as i32 - self.scale as i32) as u32;
        let db = (s as i32 - other.scale as i32) as u32;
        proof {
            lemma_pow10_grows(da as nat);
            lemma_pow10_grows(db as nat);
        }
        let x = match checked_scale_up(self.digits, da) {
            Some(x) => x,
            None => {
                assert(abs(self.coefficient_at(si)) == self.digits * pow10(da as nat))
                    by (nonlinear_arith)
                    requires
                        self.coefficient_at(si) == self.signed() * pow10(da as nat),
                        abs(self.signed()) == self.digits,
                        pow10(da as nat) >= 1,
                ;
                return None;
            },
        };
        let y = match checked_scale_up(other.digits, db) {
            Some(y) => y,
            None => {
                assert(abs(other.coefficient_at(si)) == other.digits * pow10(db as nat))
                    by (nonlinear_arith)
                    requires
                        other.coefficient_at(si) == other.signed() * pow10(db as nat),
                        abs(other.signed()) == other.digits,
                        pow10(db as nat) >= 1,
                ;
                return None;
            },
        };
        let ghost gx = self.coefficient_at(si);
        let ghost gy = other.coefficient_at(si);
        assert(gx == if self.negative {
            -(x as int)
        } else {
            x as int
        }) by (nonlinear_arith)
            requires
                gx == self.signed() * pow10(da as nat),
                x == self.digits * pow10(da as nat),
                self.signed() == if self.negative {
                    -(self.digits as int)
                } else {
                    self.digits as int
                },
        ;
        assert(gy == if other.negative {
            -(y as int)
        } else {
            y as int
        }) by (nonlinear_arith)
            requires
                gy == other.signed() * pow10(db as nat),
                y == other.digits * pow10(db as nat),
                other.signed() == if other.negative {
                    -(other.digits as int)
                } else {
                    other.digits as int
                },
        ;
        if self.negative == other.negative {
            match x.checked_add(y) {
                Some(z) => {
                    let neg = self.negative && z != 0;
                    Some(Decimal { negative: neg, digits: z, scale: s })
                },
                None => None,
            }
        } else if x >= y {
            let z = x - y;
            Some(Decimal { negative: self.negative && z != 0, digits: z, scale: s })
        } else {
            let z = y - x;
            Some(Decimal { negative: other.negative, digits: z, scale: s })
        }
    }
}

/// The library's own plain notation for a decimal (never exponent form,
/// whatever the scale): a `-` where it is negative and not zero, the
/// coefficient's digits with a point before the last `scale` of them (padded
/// with zeros in front where there are fewer), or followed by `-scale`
/// zeros where the scale is negative.
pub open spec fn decimal_text(d: Decimal) -> Seq<char> {
    let sign = if d.negative && d.digits != 0 {
        seq!['-']
    } else {
        seq![]
    };
    let ds = decimal_digits(d.digits as nat);
    if d.scale <= 0 {
        sign + ds + Seq::new((-d.scale) as nat, |i: int| '0')
    } else {
        let padded = Seq::new(
            if ds.len() <= d.scale {
                (d.scale - ds.len() + 1) as nat
            } else {
                0
            },
            |i: int| '0',
        ) + ds;
        let cut = padded.len() - d.scale;
        sign + padded.take(cut) + seq!['.'] + padded.skip(cut)
    }
}


fn push_zeros(v: &mut Vec<char>, n: usize)
    ensures
        final(v)@ == old(v)@ + Seq::new(n as nat, |i: int| '0'),
{
    let ghost start = v@;
    let mut i: usize = 0;
    while i < n
        invariant
            i <= n,
            v@ == start + Seq::new(i as nat, |k: int| '0'),
        decreases n - i,
    {
        v.push('0');
        i = i + 1;
        assert(v@ =~= start + Seq::new(i as nat, |k: int| '0'));
    }
}

impl Decimal {
    pub open spec fn text_spec(self) -> Seq<char> {
        decimal_text(self)
    }

    /// The number in the library's own plain notation; see [`decimal_text`].
    pub fn to_text(&self) -> (r: String)
        ensures
            r@ == decimal_text(*self),
    {
        let digits_string = u128_text(self.digits);
        let ds = chars_of(digits_string.as_str());
        let mut out: Vec<char> = Vec::new();
        if self.negative && self.digits != 0 {
            out.push('-');
        }
        let ghost sign = out@;
        if self.scale <= 0 {
            let mut body = ds;
            push_zeros(&mut body, (-(self.scale as i32)) as usize);
            out.append(&mut body);
            assert(out@ =~= decimal_text(*self));
        } else {
            let sc = self.scale as usize;
            let mut padded: Vec<char> = Vec::new();
            if ds.len() <= sc {
                push_zeros(&mut padded, sc - ds.len() + 1);
            }
            let mut ds2 = ds;
            padded.append(&mut ds2);
            let cut = padded.len() - sc;
            let mut i: usize = 0;
            while i < cut
                invariant
                    i <= cut <= padded.len(),
                    out@ == sign + padded@.take(i as int),
                decreases cut - i,
            {
                out.push(padded[i]);
                i = i + 1;
                assert(out@ =~= sign + padded@.take(i as int));
            }
            out.push('.');
            let ghost head = out@;
            while i < padded.len()
                invariant
                    cut <= i <= padded.len(),
                    out@ == head + padded@.subrange(cut as int, i as int),
                decreases padded.len() - i,
            {
                out.push(padded[i]);
                i = i + 1;
                assert(out@ =~= head + padded@.subrange(cut as int, i as int));
            }
            assert(out@ =~= decimal_text(*self));
        }
        string_of(&out)
    }
}

/// What `fastnum` reads from a decimal literal: whether the number is
/// finite, its sign, coefficient and scale; or the text of its error.
pub struct ParsedDecimal {
    pub finite: bool,
    pub negative: bool,
    pub digits: u128,
    pub scale: i16,
}

/// The result of `fastnum::D128::from_str` on a text, in the terms of
/// [`ParsedDecimal`]: finiteness, sign, coefficient and scale; or the
/// text of the parse error.
pub uninterp spec fn fastnum_parse(s: Seq<char>) -> Result<(bool, bool, int, int), Seq<char>>;

/// Whether `fastnum` reads `s` without overflowing its own exponent
/// arithmetic: no exponent part (`e`/`E`), and fewer characters than an
/// `i32` counts.
pub open spec fn fastnum_reads(s: Seq<char>) -> bool {
    &&& forall|i: int| 0 <= i < s.len() ==> s[i] != 'e' && s[i] != 'E'
    &&& s.len() <= i32::MAX
}

pub open spec fn is_digit_char(c: char) -> bool {
    '0' <= c && c <= '9'
}

pub open spec fn all_digits(x: Seq<char>) -> bool {
    x.len() > 0 && forall|i: int| 0 <= i < x.len() ==> is_digit_char(x[i])
}

/// The text after a leading `-`, if any.
pub open spec fn unsigned_part(t: Seq<char>) -> Seq<char> {
    if t.len() > 0 && t[0] == '-' {
        t.drop_first()
    } else {
        t
    }
}

/// The number that a run of decimal digits spells.
pub open spec fn digits_value(x: Seq<char>) -> int
    decreases x.len(),
{
    if x.len() == 0 {
        0
    } else {
        10 * digits_value(x.drop_last()) + (x.last() as int - 48)
    }
}

/// A plain decimal literal: an optional `-`, digits, and optionally a point
/// followed by digits; at most 38 characters after the sign.
pub open spec fn plain_number(t: Seq<char>) -> bool {
    let u = unsigned_part(t);
    &&& u.len() <= 38
    &&& match find_char(u, '.') {
        Some(k) => all_digits(u.take(k as int)) && all_digits(u.skip(k + 1 as int)),
        None => all_digits(u),
    }
}

/// The value a plain decimal literal spells, digit for digit: the digits
/// without the point as coefficient, the digits after the point as scale.
pub open spec fn plain_decimal(t: Seq<char>) -> Decimal {
    let u = unsigned_part(t);
    match find_char(u, '.') {
        Some(k) => Decimal {
            negative: t[0] == '-',
            digits: digits_value(u.take(k as int) + u.skip(k + 1 as int)) as u128,
            scale: (u.len() - k - 1) as i16,
        },
        None => Decimal { negative: t[0] == '-', digits: digits_value(u) as u128, scale: 0 },
    }
}

/// Relies on `fastnum::D128::from_str` with the default context, and on its
/// accessors `is_finite`, `is_sign_negative`, `digits` and
/// `fractional_digits_count`; the coefficient of a `D128` has 128 bits.
/// `from_str` adds the exponent part to an `i32` and counts digits in
/// `u32`/`i32`, which can overflow: the text has no exponent part and
/// fewer digits than an `i32` counts. A plain literal of at most 38 digits
/// (`from_str.rs`: digits accumulate exactly into the 128-bit coefficient,
/// the exponent is minus the number of digits after the point, well inside
/// the range that `construct` keeps without rounding) reads exactly, with
/// the sign as written.
#[verifier::external_body]
fn parse_d128(s: &str) -> (r: Result<ParsedDecimal, String>)
    requires
        fastnum_reads(s@),
    ensures
        plain_number(s@) ==> r is Ok && r->Ok_0.finite && r->Ok_0.negative == plain_decimal(
            s@,
        ).negative && r->Ok_0.digits == plain_decimal(s@).digits && r->Ok_0.scale
            == plain_decimal(s@).scale,
        match r {
            Ok(p) => fastnum_parse(s@) == Ok::<(bool, bool, int, int), Seq<char>>(
                (p.finite, p.negative, p.digits as int, p.scale as int),
            ),
            Err(e) => fastnum_parse(s@) == Err::<(bool, bool, int, int), Seq<char>>(e@),
        },
{
    match fastnum::D128::from_str(s, fastnum::decimal::Context::default()) {
        Ok(d) => match d.digits().to_u128() {
            Ok(digits) => Ok(ParsedDecimal {
                finite: d.is_finite(),
                negative: d.is_sign_negative(),
                digits,
                scale: d.fractional_digits_count(),
            }),
            Err(e) => Err(e.to_string()),
        },
        Err(e) => Err(e.to_string()),
    }
}

/// Why a text is not a decimal number.
#[derive(Debug, Clone, PartialEq, Eq)]
pub enum DecimalError {
    /// The text `fastnum` gave for its parse error.
    Syntax(String),
    /// An infinity or a NaN, which no amount can be.
    NotFinite,
    /// The text has an exponent part (`e`/`E`), which amounts never carry.
    Exponent,
    /// The text is longer than `i32::MAX` characters.
    TooLong,
}

/// The decimal that a text without exponent denotes, as `fastnum` reads it.
pub open spec fn decimal_of(s: Seq<char>) -> Option<Decimal> {
    if !fastnum_reads(s) {
        None
    } else {
        match fastnum_parse(s) {
        Ok((finite, negative, digits, scale)) => if finite {
            Some(Decimal { negative, digits: digits as u128, scale: scale as i16 })
        } else {
            None
        },
        Err(_) => None,
        }
    }
}

pub open spec fn has_exponent(s: Seq<char>) -> bool {
    exists|i: int| 0 <= i < s.len() && (s[i] == 'e' || s[i] == 'E')
}

proof fn lemma_plain_has_no_exponent(t: Seq<char>)
    requires
        plain_number(t),
    ensures
        !has_exponent(t),
        t.len() <= 39,
{
    let u = unsigned_part(t);
    lemma_find_char_bound(u, '.');
    assert forall|i: int| 0 <= i < u.len() implies u[i] != 'e' && u[i] != 'E' by {
        match find_char(u, '.') {
            Some(k) => {
                if i < k {
                    assert(u.take(k as int)[i] == u[i]);
                } else if i > k {
                    assert(u.skip(k + 1 as int)[i - k - 1] == u[i]);
                }
            },
            None => {},
        }
    }
    if t.len() > 0 && t[0] == '-' {
        assert forall|i: int| 0 <= i < t.len() implies t[i] != 'e' && t[i] != 'E' by {
            if i > 0 {
                assert(u[i - 1] == t[i]);
            }
        }
    }
}

/// Reads a decimal literal, keeping every digit and the scale as written.
pub fn parse_decimal(s: &str) -> (r: Result<Decimal, DecimalError>)
    ensures
        plain_number(s@) ==> r == Ok::<Decimal, DecimalError>(plain_decimal(s@)),
        match r {
            Ok(d) => decimal_of(s@) == Some(d),
            Err(DecimalError::Exponent) => has_exponent(s@),
            Err(DecimalError::TooLong) => !has_exponent(s@) && s@.len() > i32::MAX,
            Err(DecimalError::NotFinite) => fastnum_reads(s@) && fastnum_parse(s@) is Ok
                && decimal_of(s@) is None,
            Err(DecimalError::Syntax(t)) => fastnum_reads(s@) && fastnum_parse(s@) == Err::<
                (bool, bool, int, int),
                Seq<char>,
            >(t@),
        },
{
    proof {
        if plain_number(s@) {
            lemma_plain_has_no_exponent(s@);
        }
    }
    let chars = chars_of(s);
    let mut i: usize = 0;
    while i < chars.len()
        invariant
            i <= chars.len(),
            chars@ == s@,
            plain_number(s@) ==> !has_exponent(s@) && s@.len() <= 39,
            forall|j: int| 0 <= j < i ==> s@[j] != 'e' && s@[j] != 'E',
        decreases chars.len() - i,
    {
        if chars[i] == 'e' || chars[i] == 'E' {
            return Err(DecimalError::Exponent);
        }
        i = i + 1;
    }
    if chars.len() > 2147483647 {
        return Err(DecimalError::TooLong);
    }
    match parse_d128(s) {
        Ok(p) => if p.finite {
            Ok(Decimal { negative: p.negative, digits: p.digits, scale: p.scale })
        } else {
            Err(DecimalError::NotFinite)
        },
        Err(t) => Err(DecimalError::Syntax(t)),
    }
}

/// A calendar date.
#[derive(Debug, Clone, Copy, PartialEq, Eq)]
pub struct Date {
    pub year: i32,
    pub month: u32,
    pub day: u32,
}

/// The result of `chrono::NaiveDate::parse_from_str(s, format)`, as year,
/// month and day.
pub uninterp spec fn chrono_parse(s: Seq<char>, format: Seq<char>) -> Option<(int, int, int)>;

/// Relies on `chrono::NaiveDate::parse_from_str` and the `Datelike`
/// accessors: the date that `s` denotes in the strftime `format`, if any;
/// a date of `chrono` has a month in 1..=12 and a day in 1..=31.
#[verifier::external_body]
pub(crate) fn chrono_date(s: &str, format: &str) -> (r: Option<Date>)
    ensures
        match r {
            Some(d) => chrono_parse(s@, format@) == Some((d.year as int, d.month as int, d.day as int))
                && 1 <= d.month <= 12 && 1 <= d.day <= 31,
            None => chrono_parse(s@, format@) is None,
        },
{
    chrono::NaiveDate::parse_from_str(s, format).ok().map(
        |d| Date { year: d.year(), month: d.month(), day: d.day() },
    )
}

/// The decimal digits of `n`, with zeros in front up to `width` digits.
pub open spec fn padded(n: nat, width: nat) -> Seq<char> {
    let ds = decimal_digits(n);
    Seq::new(
        if ds.len() < width {
            (width - ds.len()) as nat
        } else {
            0
        },
        |i: int| '0',
    ) + ds
}

fn padded_text(n: usize, width: usize) -> (r: Vec<char>)
    ensures
        r@ == padded(n as nat, width as nat),
{
    let text = usize_text(n);
    let mut ds = chars_of(text.as_str());
    let mut out: Vec<char> = Vec::new();
    if ds.len() < width {
        push_zeros(&mut out, width - ds.len());
    }
    out.append(&mut ds);
    assert(out@ =~= padded(n as nat, width as nat));
    out
}

impl Date {
    /// `YYYY/MM/DD`, as strftime's `%Y/%m/%d` writes it: a year outside
    /// 0..=9999 carries its sign.
    pub open spec fn text_spec(self) -> Seq<char> {
        let y = self.year as int;
        let year = if y < 0 {
            seq!['-'] + padded((-y) as nat, 4)
        } else if y > 9999 {
            seq!['+'] + decimal_digits(y as nat)
        } else {
            padded(y as nat, 4)
        };
        year + seq!['/'] + padded(self.month as nat, 2) + seq!['/'] + padded(self.day as nat, 2)
    }

    pub fn to_text(&self) -> (r: String)
        ensures
            r@ == self.text_spec(),
    {
        let mut out: Vec<char> = Vec::new();
        let mut year = if self.year < 0 {
            out.push('-');
            padded_text((-(self.year as i64)) as usize, 4)
        } else if self.year > 9999 {
            out.push('+');
            padded_text(self.year as usize, 0)
        } else {
            padded_text(self.year as usize, 4)
        };
        proof {
            let ds = decimal_digits(self.year as nat);
            if self.year > 9999 {
                assert(year@ =~= ds);
            }
        }
        out.append(&mut year);
        out.push('/');
        let mut month = padded_text(self.month as usize, 2);
        out.append(&mut month);
        out.push('/');
        let mut day = padded_text(self.day as usize, 2);
        out.append(&mut day);
        assert(out@ =~= self.text_spec());
        string_of(&out)
    }
}

/// The result of `chrono::DateTime::from_timestamp(secs, 0)`, taken as a
/// UTC calendar day: year, month and day.
pub uninterp spec fn chrono_epoch_day(secs: int) -> Option<(int, int, int)>;

/// Relies on `chrono::DateTime::from_timestamp` and `date_naive`: the UTC
/// day on which `secs` seconds after the Unix epoch falls, where chrono can
/// represent it; a date of `chrono` has a month in 1..=12 and a day in 1..=31.
#[verifier::external_body]
pub(crate) fn chrono_epoch_date(secs: i64) -> (r: Option<Date>)
    ensures
        match r {
            Some(d) => chrono_epoch_day(secs as int) == Some(
                (d.year as int, d.month as int, d.day as int),
            ) && 1 <= d.month <= 12 && 1 <= d.day <= 31,
            None => chrono_epoch_day(secs as int) is None,
        },
{
    chrono::DateTime::from_timestamp(secs, 0).map(|t| t.date_naive()).map(
        |d| Date { year: d.year(), month: d.month(), day: d.day() },
    )
}

} // verus!
