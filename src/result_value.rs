//! Typed result values: parsing free text into a measure, and ordering two measures.

use std::cmp::Ordering;

use vstd::prelude::*;

use crate::text::{
    all_digits, digit_value, digits_end, digits_value, is_digit, min_nat, occurs_at,
    occurs_at_index, run_end, value_of,
};

verus! {

/// The largest mantissa of points and the largest distance that a result can hold.
pub const MAX_MAGNITUDE: u64 = 999_999_999_999_999_999;

/// The largest number of fractional digits of points.
pub const MAX_SCALE: u32 = 18;

pub open spec fn pow10(n: nat) -> nat
    decreases n,
{
    if n == 0 {
        1
    } else {
        10 * pow10((n - 1) as nat)
    }
}

pub proof fn lemma_pow10_positive(n: nat)
    ensures
        pow10(n) >= 1,
    decreases n,
{
    if n > 0 {
        lemma_pow10_positive((n - 1) as nat);
    }
}

fn pow10_exec(n: u32) -> (r: u128)
    requires
        n <= MAX_SCALE,
    ensures
        r == pow10(n as nat),
        r <= 1_000_000_000_000_000_000,
{
    let mut r: u128 = 1;
    let mut k: u32 = 0;
    proof {
        reveal_with_fuel(pow10, 19);
        assert(pow10(18) == 1_000_000_000_000_000_000);
    }
    while k < n
        invariant
            k <= n <= MAX_SCALE,
            r == pow10(k as nat),
            r <= pow10(k as nat),
            k <= 18 ==> r * pow10((18 - k) as nat) == 1_000_000_000_000_000_000,
        decreases n - k,
    {
        assert(pow10((18 - k) as nat) == 10 * pow10((18 - k - 1) as nat));
        assert(r * 10 * pow10((18 - k - 1) as nat) == 1_000_000_000_000_000_000) by (nonlinear_arith)
            requires
                r * pow10((18 - k) as nat) == 1_000_000_000_000_000_000,
                pow10((18 - k) as nat) == 10 * pow10((18 - k - 1) as nat),
        ;
        proof {
            lemma_pow10_positive((18 - k - 1) as nat);
        }
        assert(r * 10 <= 1_000_000_000_000_000_000) by (nonlinear_arith)
            requires
                r * 10 * pow10((18 - k - 1) as nat) == 1_000_000_000_000_000_000,
                pow10((18 - k - 1) as nat) >= 1,
                r >= 0,
        ;
        r = r * 10;
        k = k + 1;
    }
    proof {
        lemma_pow10_positive((18 - k) as nat);
    }
    assert(r <= 1_000_000_000_000_000_000) by (nonlinear_arith)
        requires
            r * pow10((18 - k) as nat) == 1_000_000_000_000_000_000,
            pow10((18 - k) as nat) >= 1,
            r >= 0,
    ;
    r
}

/// A non-negative decimal number: `mantissa / 10^scale`.
#[derive(Debug, Clone, Copy, PartialEq, Eq)]
pub struct Decimal {
    mantissa: u64,
    scale: u32,
}

impl Decimal {
    #[verifier::type_invariant]
    spec fn bounded(self) -> bool {
        self.mantissa <= MAX_MAGNITUDE && self.scale <= MAX_SCALE
    }

    pub closed spec fn mantissa_spec(self) -> nat {
        self.mantissa as nat
    }

    pub closed spec fn scale_spec(self) -> nat {
        self.scale as nat
    }

    /// The decimal `mantissa / 10^scale`.
    pub fn new(mantissa: u64, scale: u32) -> (r: Decimal)
        requires
            mantissa <= MAX_MAGNITUDE,
            scale <= MAX_SCALE,
        ensures
            r.mantissa_spec() == mantissa,
            r.scale_spec() == scale,
    {
        Decimal { mantissa, scale }
    }

    pub fn mantissa(&self) -> (r: u64)
        ensures
            r == self.mantissa_spec(),
            r <= MAX_MAGNITUDE,
    {
        proof {
            use_type_invariant(self);
        }
        self.mantissa
    }

    pub fn scale(&self) -> (r: u32)
        ensures
            r == self.scale_spec(),
            r <= MAX_SCALE,
    {
        proof {
            use_type_invariant(self);
        }
        self.scale
    }
}

/// What a result value means: a time in milliseconds, points as a mantissa and a scale, a
/// distance in centimeters, or text that no recognizer took.
pub ghost enum Measure {
    Empty,
    Time(nat),
    Points(nat, nat),
    Distance(nat),
    Custom(Seq<char>),
}

/// A result, as parsed from the text of a result sheet.
#[derive(Debug, Clone, PartialEq)]
pub enum ResultValue {
    Empty,
    /// A duration in milliseconds.
    Time(u64),
    Points(Decimal),
    /// A distance in centimeters.
    Distance(u64),
    Custom(String),
}

impl View for ResultValue {
    type V = Measure;

    open spec fn view(&self) -> Measure {
        match self {
            ResultValue::Empty => Measure::Empty,
            ResultValue::Time(t) => Measure::Time(*t as nat),
            ResultValue::Points(d) => Measure::Points(d.mantissa_spec(), d.scale_spec()),
            ResultValue::Distance(c) => Measure::Distance(*c as nat),
            ResultValue::Custom(s) => Measure::Custom(s@),
        }
    }
}

pub open spec fn two_digits_at(s: Seq<char>, i: int) -> bool {
    0 <= i && i + 2 <= s.len() && is_digit(s[i]) && is_digit(s[i + 1])
}

pub open spec fn two_digits_value(s: Seq<char>, i: int) -> nat {
    digit_value(s[i]) * 10 + digit_value(s[i + 1])
}

/// The milliseconds of a clock reading `SS`, `MM:SS` or `H:MM:SS`.
pub open spec fn clock_millis(h: Seq<char>) -> Option<nat> {
    if h.len() == 2 && two_digits_at(h, 0) {
        Some(two_digits_value(h, 0) * 1000)
    } else if h.len() == 5 && two_digits_at(h, 0) && h[2] == ':' && two_digits_at(h, 3) {
        Some((two_digits_value(h, 0) * 60 + two_digits_value(h, 3)) * 1000)
    } else if h.len() == 7 && is_digit(h[0]) && h[1] == ':' && two_digits_at(h, 2) && h[4] == ':'
        && two_digits_at(h, 5) {
        Some((digit_value(h[0]) * 3600 + two_digits_value(h, 2) * 60 + two_digits_value(h, 5)) * 1000)
    } else {
        None
    }
}

/// The milliseconds of one to three fractional digits of a second.
pub open spec fn fraction_millis(f: Seq<char>) -> Option<nat> {
    if 1 <= f.len() <= 3 && all_digits(f) {
        Some(value_of(f) * pow10((3 - f.len()) as nat))
    } else {
        None
    }
}

/// The milliseconds of `s` where it is a clock reading followed at `k` by `.` and a fraction.
pub open spec fn clock_with_fraction(s: Seq<char>, k: int) -> Option<nat> {
    if 0 <= k < s.len() && s[k] == '.' && clock_millis(s.take(k)) is Some && fraction_millis(
        s.skip(k + 1),
    ) is Some {
        Some(clock_millis(s.take(k))->0 + fraction_millis(s.skip(k + 1))->0)
    } else {
        None
    }
}

/// The milliseconds that `s` writes in the form `[[H:]MM:]SS[.fff]`, if it has that form.
pub open spec fn parsed_time(s: Seq<char>) -> Option<nat> {
    if clock_millis(s) is Some {
        clock_millis(s)
    } else if clock_with_fraction(s, 2) is Some {
        clock_with_fraction(s, 2)
    } else if clock_with_fraction(s, 5) is Some {
        clock_with_fraction(s, 5)
    } else {
        clock_with_fraction(s, 7)
    }
}

/// The points that `s` starts with in the form `<digits>.<digits> pts`, where they fit.
pub open spec fn parsed_points(s: Seq<char>) -> Option<Measure> {
    let a = run_end(s, 0);
    let b = run_end(s, a + 1);
    let m = value_of(s.subrange(0, a) + s.subrange(a + 1, b));
    if 0 < a < s.len() && s[a] == '.' && b > a + 1 && occurs_at(s, seq![' ', 'p', 't', 's'], b)
        && m <= MAX_MAGNITUDE && b - a - 1 <= MAX_SCALE {
        Some(Measure::Points(m, (b - a - 1) as nat))
    } else {
        None
    }
}

/// The centimeters of `s` where it starts with `<digits> cm`, and they fit.
pub open spec fn parsed_distance(s: Seq<char>) -> Option<nat> {
    let a = run_end(s, 0);
    if 0 < a && occurs_at(s, seq![' ', 'c', 'm'], a) && value_of(s.subrange(0, a))
        <= MAX_MAGNITUDE {
        Some(value_of(s.subrange(0, a)))
    } else {
        None
    }
}

/// The measure of a result text: the first recognizer that takes it decides.
pub open spec fn parsed_measure(s: Seq<char>) -> Measure {
    if s.len() == 0 {
        Measure::Empty
    } else if parsed_time(s) is Some {
        Measure::Time(parsed_time(s)->0)
    } else if parsed_points(s) is Some {
        parsed_points(s)->0
    } else if parsed_distance(s) is Some {
        Measure::Distance(parsed_distance(s)->0)
    } else {
        Measure::Custom(s)
    }
}


fn is_digit_char(c: char) -> (r: bool)
    ensures
        r == is_digit(c),
{
    '0' <= c && c <= '9'
}

fn digit_of(c: char) -> (r: u64)
    requires
        is_digit(c),
    ensures
        r == digit_value(c),
        r <= 9,
{
    (c as u32 - '0' as u32) as u64
}

/// The number that the two digits of `s` at `i` write.
fn two_digits(s: &str, i: usize) -> (r: Option<u64>)
    requires
        i + 2 <= s@.len(),
    ensures
        r is Some <==> (is_digit(s@[i as int]) && is_digit(s@[i + 1])),
        r is Some ==> r->0 == two_digits_value(s@, i as int) && r->0 <= 99,
{
    let _n = s.unicode_len();
    let a = s.get_char(i);
    let b = s.get_char(i + 1);
    if is_digit_char(a) && is_digit_char(b) {
        Some(digit_of(a) * 10 + digit_of(b))
    } else {
        None
    }
}

/// The milliseconds of the clock reading that the first `k` characters of `s` form.
fn clock_prefix(s: &str, k: usize) -> (r: Option<u64>)
    requires
        k <= s@.len(),
    ensures
        r is Some <==> clock_millis(s@.take(k as int)) is Some,
        r is Some ==> r->0 == clock_millis(s@.take(k as int))->0 && r->0 <= 50_000_000,
{
    let ghost h = s@.take(k as int);
    if k == 2 {
        match two_digits(s, 0) {
            Some(v) => Some(v * 1000),
            None => None,
        }
    } else if k == 5 {
        if s.get_char(2) != ':' {
            return None;
        }
        match (two_digits(s, 0), two_digits(s, 3)) {
            (Some(m), Some(sec)) => Some((m * 60 + sec) * 1000),
            _ => None,
        }
    } else if k == 7 {
        let hc = s.get_char(0);
        if !is_digit_char(hc) || s.get_char(1) != ':' || s.get_char(4) != ':' {
            return None;
        }
        match (two_digits(s, 2), two_digits(s, 5)) {
            (Some(m), Some(sec)) => Some((digit_of(hc) * 3600 + m * 60 + sec) * 1000),
            _ => None,
        }
    } else {
        None
    }
}

/// The milliseconds of the fraction of a second that `s` holds from `from` on.
fn fraction_from(s: &str, from: usize) -> (r: Option<u64>)
    requires
        from <= s@.len(),
    ensures
        r is Some <==> fraction_millis(s@.skip(from as int)) is Some,
        r is Some ==> r->0 == fraction_millis(s@.skip(from as int))->0 && r->0 <= 999,
{
    let n = s.unicode_len();
    let len = n - from;
    assert(s@.skip(from as int) =~= s@.subrange(from as int, n as int));
    if len < 1 || len > 3 {
        return None;
    }
    let end = digits_end(s, from);
    if end < n {
        assert(s@.skip(from as int)[end - from] == s@[end as int]);
        return None;
    }
    let v = digits_value(s, from, n, 1000);
    let ghost f = s@.subrange(from as int, n as int);
    proof {
        lemma_value_below_pow10(f);
        assert(f =~= s@.skip(from as int));
        assert(f.len() == len);
        assert(pow10(f.len()) <= 1000) by {
            reveal_with_fuel(pow10, 4);
        }
        assert(v == value_of(f));
    }
    if len == 1 {
        assert(pow10(1) == 10 && pow10(2) == 100) by {
            reveal_with_fuel(pow10, 3);
        }
        assert(all_digits(f));
        assert((3 - f.len()) as nat == 2);
        assert(fraction_millis(f) == Some(value_of(f) * 100));
        Some(v * 100)
    } else if len == 2 {
        assert(pow10(1) == 10 && pow10(2) == 100) by {
            reveal_with_fuel(pow10, 3);
        }
        assert((3 - f.len()) as nat == 1);
        assert(fraction_millis(f) == Some(value_of(f) * 10));
        Some(v * 10)
    } else {
        assert(pow10(0) == 1 && pow10(3) == 1000) by {
            reveal_with_fuel(pow10, 4);
        }
        assert((3 - f.len()) as nat == 0);
        assert(fraction_millis(f) == Some(value_of(f) * 1));
        Some(v)
    }
}

proof fn lemma_value_below_pow10(f: Seq<char>)
    requires
        all_digits(f),
    ensures
        value_of(f) < pow10(f.len()),
    decreases f.len(),
{
    if f.len() > 0 {
        let g = f.drop_last();
        assert(all_digits(g)) by {
            assert forall|i: int| 0 <= i < g.len() implies is_digit(#[trigger] g[i]) by {
                assert(g[i] == f[i]);
            }
        }
        lemma_value_below_pow10(g);
        assert(is_digit(f[f.len() - 1]));
        let v = value_of(g);
        let p = pow10(g.len());
        let d = digit_value(f.last());
        assert(v * 10 + d < 10 * p) by (nonlinear_arith)
            requires v < p, d <= 9;
    }
}

/// The milliseconds that `s` writes in the form `[[H:]MM:]SS[.fff]`.
fn parse_time(s: &str) -> (r: Option<u64>)
    ensures
        r is Some <==> parsed_time(s@) is Some,
        r is Some ==> r->0 == parsed_time(s@)->0,
{
    let n = s.unicode_len();
    assert(s@.take(n as int) =~= s@);
    if let Some(v) = clock_prefix(s, n) {
        return Some(v);
    }
    let marks: [usize; 3] = [2, 5, 7];
    let mut j: usize = 0;
    while j < 3
        invariant
            n == s@.len(),
            j <= 3,
            marks@ == seq![2usize, 5usize, 7usize],
            clock_millis(s@) is None,
            forall|q: int| 0 <= q < j ==> clock_with_fraction(s@, #[trigger] marks@[q] as int) is None,
        decreases 3 - j,
    {
        let k = marks[j];
        if k < n && s.get_char(k) == '.' {
            match (clock_prefix(s, k), fraction_from(s, k + 1)) {
                (Some(c), Some(f)) => {
                    assert(marks@[0] == 2 && marks@[1] == 5 && marks@[2] == 7);
                    return Some(c + f);
                },
                _ => {},
            }
        }
        j = j + 1;
    }
    assert(marks@[0] == 2 && marks@[1] == 5 && marks@[2] == 7);
    None
}

proof fn lemma_value_of_concat(x: Seq<char>, y: Seq<char>)
    ensures
        value_of(x + y) == value_of(x) * pow10(y.len()) + value_of(y),
    decreases y.len(),
{
    if y.len() == 0 {
        assert(x + y =~= x);
        assert(pow10(0) == 1);
        assert(value_of(y) == 0);
        assert(value_of(x) * 1 == value_of(x));
    } else {
        let y1 = y.drop_last();
        assert((x + y).drop_last() =~= x + y1);
        assert((x + y).last() == y.last());
        lemma_value_of_concat(x, y1);
        let a = value_of(x);
        let p = pow10(y1.len());
        let b = value_of(y1);
        let d = digit_value(y.last());
        assert(pow10(y.len()) == 10 * p);
        assert(value_of(y) == b * 10 + d);
        assert(value_of(x + y) == value_of(x + y1) * 10 + d);
        assert((a * p + b) * 10 + d == a * (10 * p) + (b * 10 + d)) by (nonlinear_arith);
    }
}

/// The decimal that `s` starts with in the form `<digits>.<digits> pts`.
fn parse_points(s: &str) -> (r: Option<Decimal>)
    ensures
        r is Some <==> parsed_points(s@) is Some,
        r is Some ==> ResultValue::Points(r->0)@ == parsed_points(s@)->0,
{
    let n = s.unicode_len();
    let a = digits_end(s, 0);
    if a == 0 || a >= n || s.get_char(a) != '.' {
        return None;
    }
    let b = digits_end(s, a + 1);
    proof {
        reveal_strlit(" pts");
        assert(" pts"@ =~= seq![' ', 'p', 't', 's']);
    }
    if b == a + 1 || !occurs_at_index(s, " pts", b) {
        return None;
    }
    let ghost x = s@.subrange(0, a as int);
    let ghost y = s@.subrange(a + 1, b as int);
    proof {
        lemma_value_of_concat(x, y);
        lemma_pow10_positive(y.len());
        assert(value_of(x) * pow10(y.len()) >= value_of(x)) by (nonlinear_arith)
            requires pow10(y.len()) >= 1;
    }
    let scale = b - a - 1;
    if scale > 18 {
        return None;
    }
    let whole = digits_value(s, 0, a, 1_000_000_000_000_000_000);
    let frac = digits_value(s, a + 1, b, 1_000_000_000_000_000_000);
    if whole > MAX_MAGNITUDE || frac > MAX_MAGNITUDE {
        return None;
    }
    let p = pow10_exec(scale as u32);
    assert(whole * p <= 999_999_999_999_999_999 * 1_000_000_000_000_000_000) by (nonlinear_arith)
        requires whole <= 999_999_999_999_999_999u64, p <= 1_000_000_000_000_000_000u128;
    let mantissa: u128 = whole as u128 * p + frac as u128;
    if mantissa > MAX_MAGNITUDE as u128 {
        return None;
    }
    Some(Decimal::new(mantissa as u64, scale as u32))
}

/// The centimeters that `s` starts with in the form `<digits> cm`.
fn parse_distance(s: &str) -> (r: Option<u64>)
    ensures
        r is Some <==> parsed_distance(s@) is Some,
        r is Some ==> r->0 == parsed_distance(s@)->0,
{
    let a = digits_end(s, 0);
    proof {
        reveal_strlit(" cm");
        assert(" cm"@ =~= seq![' ', 'c', 'm']);
    }
    if a == 0 || !occurs_at_index(s, " cm", a) {
        return None;
    }
    let v = digits_value(s, 0, a, 1_000_000_000_000_000_000);
    if v > MAX_MAGNITUDE {
        None
    } else {
        Some(v)
    }
}

impl ResultValue {
    /// Parses a result text: empty text, then a time, points, a distance; any other text is
    /// kept as it is.
    pub fn from_string(result: &str) -> (r: ResultValue)
        ensures
            r@ == parsed_measure(result@),
    {
        if result.unicode_len() == 0 {
            return ResultValue::Empty;
        }
        if let Some(t) = parse_time(result) {
            return ResultValue::Time(t);
        }
        if let Some(p) = parse_points(result) {
            return ResultValue::Points(p);
        }
        if let Some(d) = parse_distance(result) {
            return ResultValue::Distance(d);
        }
        ResultValue::Custom(String::from_str(result))
    }
}


pub open spec fn ordering_of(x: int, y: int) -> Ordering {
    if x < y {
        Ordering::Less
    } else if x == y {
        Ordering::Equal
    } else {
        Ordering::Greater
    }
}

pub open spec fn flipped(o: Ordering) -> Ordering {
    match o {
        Ordering::Less => Ordering::Greater,
        Ordering::Equal => Ordering::Equal,
        Ordering::Greater => Ordering::Less,
    }
}

/// How `a` compares with `b`: times, points and distances each among themselves, by magnitude;
/// nothing else is comparable.
pub open spec fn compare_measures(a: Measure, b: Measure) -> Option<Ordering> {
    match (a, b) {
        (Measure::Time(x), Measure::Time(y)) => Some(ordering_of(x as int, y as int)),
        (Measure::Points(m1, s1), Measure::Points(m2, s2)) => Some(
            ordering_of((m1 * pow10(s2)) as int, (m2 * pow10(s1)) as int),
        ),
        (Measure::Distance(x), Measure::Distance(y)) => Some(ordering_of(x as int, y as int)),
        _ => None,
    }
}

pub open spec fn at_most(a: Measure, b: Measure) -> bool {
    compare_measures(a, b) == Some(Ordering::Less) || compare_measures(a, b) == Some(
        Ordering::Equal,
    )
}

pub open spec fn below(a: Measure, b: Measure) -> bool {
    compare_measures(a, b) == Some(Ordering::Less)
}

/// Two result values that cannot be compared.
#[derive(Debug, Clone, PartialEq)]
pub struct ComparisonError {
    pub left: ResultValue,
    pub right: ResultValue,
}

impl ResultValue {
    /// A copy of this value.
    pub fn duplicate(&self) -> (r: ResultValue)
        ensures
            r == *self,
    {
        match self {
            ResultValue::Empty => ResultValue::Empty,
            ResultValue::Time(t) => ResultValue::Time(*t),
            ResultValue::Points(d) => ResultValue::Points(*d),
            ResultValue::Distance(c) => ResultValue::Distance(*c),
            ResultValue::Custom(s) => ResultValue::Custom(s.clone()),
        }
    }

    /// Orders two values of one ordered kind; any other pair is an error that names both.
    pub fn compare(&self, other: &Self) -> (r: Result<Ordering, ComparisonError>)
        ensures
            match r {
                Ok(o) => compare_measures(self@, other@) == Some(o),
                Err(e) => compare_measures(self@, other@) is None && e.left == *self && e.right
                    == *other,
            },
    {
        match (self, other) {
            (ResultValue::Time(x), ResultValue::Time(y)) => Ok(order_u128(*x as u128, *y as u128)),
            (ResultValue::Points(a), ResultValue::Points(b)) => {
                let pa = pow10_exec(a.scale());
                let pb = pow10_exec(b.scale());
                let ma = a.mantissa() as u128;
                let mb = b.mantissa() as u128;
                assert(ma * pb <= 999_999_999_999_999_999 * 1_000_000_000_000_000_000) by (nonlinear_arith)
                    requires ma <= 999_999_999_999_999_999u128, pb <= 1_000_000_000_000_000_000u128;
                assert(mb * pa <= 999_999_999_999_999_999 * 1_000_000_000_000_000_000) by (nonlinear_arith)
                    requires mb <= 999_999_999_999_999_999u128, pa <= 1_000_000_000_000_000_000u128;
                Ok(order_u128(ma * pb, mb * pa))
            },
            (ResultValue::Distance(x), ResultValue::Distance(y)) => Ok(
                order_u128(*x as u128, *y as u128),
            ),
            _ => Err(ComparisonError { left: self.duplicate(), right: other.duplicate() }),
        }
    }
}

fn order_u128(x: u128, y: u128) -> (r: Ordering)
    ensures
        r == ordering_of(x as int, y as int),
{
    if x < y {
        Ordering::Less
    } else if x == y {
        Ordering::Equal
    } else {
        Ordering::Greater
    }
}

/// Comparing two result values the other way round gives the reverse order, and fails exactly
/// when the first way fails.
pub proof fn compare_antisymmetric(a: ResultValue, b: ResultValue)
    ensures
        match compare_measures(a@, b@) {
            Some(o) => compare_measures(b@, a@) == Some(flipped(o)),
            None => compare_measures(b@, a@) is None,
        },
{
}

proof fn lemma_cross_product_order(x1: nat, d1: nat, x2: nat, d2: nat, x3: nat, d3: nat)
    requires
        d1 >= 1,
        d2 >= 1,
        d3 >= 1,
        x1 * d2 <= x2 * d1,
        x2 * d3 <= x3 * d2,
    ensures
        x1 * d3 <= x3 * d1,
        (x1 * d2 < x2 * d1 || x2 * d3 < x3 * d2) ==> x1 * d3 < x3 * d1,
{
    assert(x1 * d2 * d3 <= x2 * d1 * d3) by (nonlinear_arith)
        requires x1 * d2 <= x2 * d1, d3 >= 1;
    assert(x2 * d3 * d1 <= x3 * d2 * d1) by (nonlinear_arith)
        requires x2 * d3 <= x3 * d2, d1 >= 1;
    assert((x1 * d3) * d2 <= (x3 * d1) * d2) by (nonlinear_arith)
        requires x1 * d2 * d3 <= x2 * d1 * d3, x2 * d3 * d1 <= x3 * d2 * d1;
    assert(x1 * d3 <= x3 * d1) by (nonlinear_arith)
        requires (x1 * d3) * d2 <= (x3 * d1) * d2, d2 >= 1;
    if x1 * d2 < x2 * d1 {
        assert(x1 * d2 * d3 < x2 * d1 * d3) by (nonlinear_arith)
            requires x1 * d2 < x2 * d1, d3 >= 1;
        assert((x1 * d3) * d2 < (x3 * d1) * d2) by (nonlinear_arith)
            requires x1 * d2 * d3 < x2 * d1 * d3, x2 * d3 * d1 <= x3 * d2 * d1;
        assert(x1 * d3 < x3 * d1) by (nonlinear_arith)
            requires (x1 * d3) * d2 < (x3 * d1) * d2, d2 >= 1;
    }
    if x2 * d3 < x3 * d2 {
        assert(x2 * d3 * d1 < x3 * d2 * d1) by (nonlinear_arith)
            requires x2 * d3 < x3 * d2, d1 >= 1;
        assert((x1 * d3) * d2 < (x3 * d1) * d2) by (nonlinear_arith)
            requires x1 * d2 * d3 <= x2 * d1 * d3, x2 * d3 * d1 < x3 * d2 * d1;
        assert(x1 * d3 < x3 * d1) by (nonlinear_arith)
            requires (x1 * d3) * d2 < (x3 * d1) * d2, d2 >= 1;
    }
}

/// The order between result values is transitive, for "at most" and for "below".
pub proof fn compare_transitive(a: ResultValue, b: ResultValue, c: ResultValue)
    ensures
        at_most(a@, b@) && at_most(b@, c@) ==> at_most(a@, c@),
        below(a@, b@) && at_most(b@, c@) ==> below(a@, c@),
        at_most(a@, b@) && below(b@, c@) ==> below(a@, c@),
{
    if at_most(a@, b@) && at_most(b@, c@) {
        if let (Measure::Points(m1, s1), Measure::Points(m2, s2), Measure::Points(m3, s3)) = (
            a@,
            b@,
            c@,
        ) {
            lemma_pow10_positive(s1);
            lemma_pow10_positive(s2);
            lemma_pow10_positive(s3);
            lemma_cross_product_order(m1, pow10(s1), m2, pow10(s2), m3, pow10(s3));
        }
    }
}

} // verus!
