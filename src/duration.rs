//! Durations written as hours, minutes and seconds in the notation of
//! floating-point numbers, read exactly in decimal and rounded to whole
//! nanoseconds.
use vstd::prelude::*;

verus! {

/// Largest whole part of a component, in its own unit: 10^34 hours, minutes
/// or seconds, past the largest whole number that `f64` holds exactly by
/// eighteen orders of magnitude.
pub const WHOLE_CAP: i128 = 10_000_000_000_000_000_000_000_000_000_000_000;

/// One unit of a component in its fraction part, which counts 10^-18.
pub const FRAC_ONE: i128 = 1_000_000_000_000_000_000;

/// Bound at which an exponent is held while it is read; any exponent past it
/// gives the same result as the bound.
pub const EXPONENT_CAP: i128 = 1_000_000_000_000_000_000_000_000_000_000;

pub open spec fn pow10(k: nat) -> nat
    decreases k,
{
    if k == 0 {
        1
    } else {
        10 * pow10((k - 1) as nat)
    }
}

pub open spec fn is_digit(b: u8) -> bool {
    48 <= b <= 57
}

pub open spec fn all_digits(s: Seq<u8>) -> bool {
    forall|i: int| 0 <= i < s.len() ==> is_digit(#[trigger] s[i])
}

/// The number that a string of decimal digits spells.
pub open spec fn digits_value(s: Seq<u8>) -> nat
    decreases s.len(),
{
    if s.len() == 0 {
        0
    } else {
        digits_value(s.drop_last()) * 10 + (s.last() - 48) as nat
    }
}

/// How many decimal digits `s` starts with.
pub open spec fn digit_run(s: Seq<u8>) -> nat
    decreases s.len(),
{
    if s.len() > 0 && is_digit(s[0]) {
        1 + digit_run(s.drop_first())
    } else {
        0
    }
}

pub open spec fn has_sign(s: Seq<u8>) -> bool {
    s.len() > 0 && (s[0] == 45 || s[0] == 43)
}

/// The text without its leading sign.
pub open spec fn unsigned_part(s: Seq<u8>) -> Seq<u8> {
    if has_sign(s) {
        s.drop_first()
    } else {
        s
    }
}

/// ASCII letters in lower case.
pub open spec fn lowered(s: Seq<u8>) -> Seq<u8> {
    s.map_values(|b: u8| if 65 <= b <= 90 { (b + 32) as u8 } else { b })
}

/// "inf", "infinity" and "nan", in any case.
pub open spec fn is_infinity_word(b: Seq<u8>) -> bool {
    lowered(b) == seq![105u8, 110, 102] || lowered(b) == seq![105u8, 110, 102, 105, 110, 105, 116, 121]
}

pub open spec fn is_nan_word(b: Seq<u8>) -> bool {
    lowered(b) == seq![110u8, 97, 110]
}

/// What follows the digits before the point.
pub open spec fn after_int(b: Seq<u8>) -> Seq<u8> {
    b.skip(digit_run(b) as int)
}

pub open spec fn has_point(b: Seq<u8>) -> bool {
    after_int(b).len() > 0 && after_int(b)[0] == 46
}

/// The digits after the point (none where there is no point).
pub open spec fn frac_part(b: Seq<u8>) -> Seq<u8> {
    if has_point(b) {
        let r = after_int(b).drop_first();
        r.take(digit_run(r) as int)
    } else {
        Seq::empty()
    }
}

/// What follows the mantissa: the exponent part, if any.
pub open spec fn exp_text(b: Seq<u8>) -> Seq<u8> {
    if has_point(b) {
        let r = after_int(b).drop_first();
        r.skip(digit_run(r) as int)
    } else {
        after_int(b)
    }
}

/// Nothing, or `e` or `E`, an optional sign and at least one digit.
pub open spec fn exp_valid(t: Seq<u8>) -> bool {
    t.len() == 0 || ((t[0] == 101 || t[0] == 69) && unsigned_part(t.drop_first()).len() > 0 && all_digits(
        unsigned_part(t.drop_first()),
    ))
}

pub open spec fn exp_value(t: Seq<u8>) -> int {
    if t.len() == 0 {
        0
    } else if t.drop_first().len() > 0 && t.drop_first()[0] == 45 {
        -digits_value(unsigned_part(t.drop_first()))
    } else {
        digits_value(unsigned_part(t.drop_first())) as int
    }
}

/// All digits of the mantissa, those before the point and those after.
pub open spec fn mantissa(b: Seq<u8>) -> Seq<u8> {
    b.take(digit_run(b) as int) + frac_part(b)
}

/// `b` (without sign) is a decimal number: digits, optionally a point and
/// more digits, at least one digit in all, and optionally an exponent.
pub open spec fn is_number(b: Seq<u8>) -> bool {
    mantissa(b).len() >= 1 && exp_valid(exp_text(b))
}

/// Where the point falls in the mantissa: after this many of its digits.
pub open spec fn point_of(b: Seq<u8>) -> int {
    digit_run(b) + exp_value(exp_text(b))
}

/// The digit of `g` at `i`; zero outside `g`.
pub open spec fn digit_at(g: Seq<u8>, i: int) -> int {
    if 0 <= i < g.len() {
        g[i] - 48
    } else {
        0
    }
}

/// The number spelled by the first `k` digits of `g`, padded with zeros past
/// its end: the whole part where the point falls after `k` digits.
pub open spec fn padded_value(g: Seq<u8>, k: int) -> int
    decreases k,
{
    if k <= 0 {
        0
    } else {
        padded_value(g, k - 1) * 10 + digit_at(g, k - 1)
    }
}

/// The number spelled by the `k` digits of `g` from `p` on, zeros outside
/// `g`.
pub open spec fn window_value(g: Seq<u8>, p: int, k: nat) -> int
    decreases k,
{
    if k == 0 {
        0
    } else {
        window_value(g, p, (k - 1) as nat) * 10 + digit_at(g, p + k - 1)
    }
}

/// The fraction part, where the point falls after `p` digits of `g`, in
/// units of 10^-18 and rounded there, halves away from zero.
pub open spec fn frac_at(g: Seq<u8>, p: int) -> int {
    window_value(g, p, 18) + if digit_at(g, p + 18) >= 5 {
        1int
    } else {
        0
    }
}

/// A component as read: a number, as its whole part in its unit and its
/// fraction in units of 10^-18 of it (both carrying its sign), or an
/// infinity, or not a number.
#[derive(Clone, Copy, PartialEq, Eq, Structural, Debug)]
pub enum Reading {
    Finite(i128, i128),
    PosInf,
    NegInf,
    NaN,
}

pub open spec fn min_int(a: int, b: int) -> int {
    if a < b {
        a
    } else {
        b
    }
}

/// How a component reads: absent or not a number in float notation counts
/// zero; infinities and NaN are kept; a number keeps its whole part, held
/// within the cap, and its fraction rounded to 10^-18 of its unit.
pub open spec fn reading_spec(c: Option<Seq<u8>>) -> Reading {
    match c {
        None => Reading::Finite(0, 0),
        Some(s) => {
            let b = unsigned_part(s);
            let neg = s.len() > 0 && s[0] == 45;
            if is_infinity_word(b) {
                if neg {
                    Reading::NegInf
                } else {
                    Reading::PosInf
                }
            } else if is_nan_word(b) {
                Reading::NaN
            } else if is_number(b) {
                let w = min_int(padded_value(mantissa(b), point_of(b)), WHOLE_CAP as int);
                let f = frac_at(mantissa(b), point_of(b));
                if neg {
                    Reading::Finite((-w) as i128, (-f) as i128)
                } else {
                    Reading::Finite(w as i128, f as i128)
                }
            } else {
                Reading::Finite(0, 0)
            }
        },
    }
}

/// `a / d` rounded to the nearest integer, halves away from zero.
pub open spec fn round_div(a: int, d: int) -> int {
    if a >= 0 {
        (a + d / 2) / d
    } else {
        -((-a + d / 2) / d)
    }
}

/// `x` saturated to the range of `i64`.
pub open spec fn clamp_i64(x: int) -> int {
    if x > i64::MAX {
        i64::MAX as int
    } else if x < i64::MIN {
        i64::MIN as int
    } else {
        x
    }
}

pub open spec fn whole_value(r: Reading) -> int {
    match r {
        Reading::Finite(w, _) => w as int,
        _ => 0,
    }
}

pub open spec fn frac_value(r: Reading) -> int {
    match r {
        Reading::Finite(_, f) => f as int,
        _ => 0,
    }
}

/// `3600 h + 60 m + s`, in units of 10^-18 seconds.
pub open spec fn total_attos(a: Reading, b: Reading, c: Reading) -> int {
    (3600 * whole_value(a) + 60 * whole_value(b) + whole_value(c)) * FRAC_ONE + 3600 * frac_value(a) + 60
        * frac_value(b) + frac_value(c)
}

/// The duration, in nanoseconds, of `h` hours, `m` minutes and `s` seconds:
/// `round((h * 3600 + m * 60 + s) * 1e9)`, rounded once from the exact sum,
/// absent components counting zero, saturated to `i64`. The sum is exact
/// where each component is a multiple of 10^-18 of its unit and below 10^34
/// units; finer digits are rounded at 10^-18 of the unit first, and larger
/// whole parts are held at 10^34. NaN, or infinities of both signs, give
/// zero, and an infinity of one sign saturates.
pub open spec fn duration_spec(h: Option<Seq<u8>>, m: Option<Seq<u8>>, s: Option<Seq<u8>>) -> int {
    let (a, b, c) = (reading_spec(h), reading_spec(m), reading_spec(s));
    let pos = a == Reading::PosInf || b == Reading::PosInf || c == Reading::PosInf;
    let neg = a == Reading::NegInf || b == Reading::NegInf || c == Reading::NegInf;
    if a == Reading::NaN || b == Reading::NaN || c == Reading::NaN || (pos && neg) {
        0
    } else if pos {
        i64::MAX as int
    } else if neg {
        i64::MIN as int
    } else {
        clamp_i64(round_div(total_attos(a, b, c), 1_000_000_000))
    }
}

pub open spec fn opt_view(o: Option<&[u8]>) -> Option<Seq<u8>> {
    match o {
        Some(v) => Some(v@),
        None => None,
    }
}

proof fn lemma_pow10_mono(a: nat, b: nat)
    requires
        a <= b,
    ensures
        pow10(a) <= pow10(b),
    decreases b,
{
    if a < b {
        lemma_pow10_mono(a, (b - 1) as nat);
    }
}

proof fn lemma_digit_run(s: Seq<u8>, k: int)
    requires
        0 <= k <= s.len(),
        forall|i: int| 0 <= i < k ==> is_digit(#[trigger] s[i]),
        k == s.len() || !is_digit(s[k]),
    ensures
        digit_run(s) == k,
    decreases k,
{
    if k > 0 {
        lemma_digit_run(s.drop_first(), k - 1);
    }
}


/// Saturating one more digit onto a saturated value gives the saturated
/// value of the longer number.
proof fn lemma_sat_step(a: int, d: int, cap: int)
    requires
        a >= 0,
        0 <= d <= 9,
        cap >= 0,
    ensures
        min_int(min_int(a, cap) * 10 + d, cap) == min_int(a * 10 + d, cap),
{
}

/// Where the digits of `s` from `start` on run out.
fn digit_end(s: &[u8], start: usize) -> (end: usize)
    requires
        start <= s@.len(),
    ensures
        start <= end <= s@.len(),
        end - start == digit_run(s@.skip(start as int)),
        forall|i: int| start <= i < end ==> is_digit(#[trigger] s@[i]),
        end < s@.len() ==> !is_digit(s@[end as int]),
{
    let mut end = start;
    while end < s.len() && 48u8 <= s[end] && s[end] <= 57u8
        invariant
            start <= end <= s@.len(),
            forall|i: int| start <= i < end ==> is_digit(#[trigger] s@[i]),
        decreases s.len() - end,
    {
        end = end + 1;
    }
    proof {
        let t = s@.skip(start as int);
        assert forall|i: int| 0 <= i < end - start implies is_digit(#[trigger] t[i]) by {
            assert(t[i] == s@[start + i]);
        }
        if end < s@.len() {
            assert(t[end - start] == s@[end as int]);
        }
        lemma_digit_run(t, end - start);
    }
    end
}

/// Whether `s` from `start` on is `w`, letters taken in any case.
fn word_at(s: &[u8], start: usize, w: &Vec<u8>) -> (r: bool)
    requires
        start <= s@.len(),
    ensures
        r == (lowered(s@.skip(start as int)) == w@),
{
    let ghost t = s@.skip(start as int);
    if s.len() - start != w.len() {
        assert(lowered(t).len() != w@.len());
        return false;
    }
    let n = s.len();
    let mut i: usize = 0;
    while i < w.len()
        invariant
            i <= w@.len(),
            n == s@.len(),
            start <= s@.len(),
            w@.len() == s@.len() - start,
            t == s@.skip(start as int),
            forall|j: int| 0 <= j < i ==> #[trigger] lowered(t)[j] == w@[j],
        decreases w.len() - i,
    {
        let b = s[start + i];
        let l = if 65u8 <= b && b <= 90u8 {
            b + 32
        } else {
            b
        };
        assert(lowered(t)[i as int] == l);
        if l != w[i] {
            return false;
        }
        i = i + 1;
    }
    assert(lowered(t) =~= w@);
    true
}

/// Reads the exponent part `s` from `start` on: absent reads as zero; one
/// that is malformed reads as nothing; the value is held within the cap.
fn read_exponent(s: &[u8], start: usize) -> (r: Option<i128>)
    requires
        start <= s@.len(),
    ensures
        r is Some <==> exp_valid(s@.skip(start as int)),
        r matches Some(e) ==> e == if exp_value(s@.skip(start as int)) > EXPONENT_CAP {
            EXPONENT_CAP as int
        } else if exp_value(s@.skip(start as int)) < -EXPONENT_CAP {
            -EXPONENT_CAP as int
        } else {
            exp_value(s@.skip(start as int))
        },
{
    let ghost t = s@.skip(start as int);
    if start == s.len() {
        return Some(0);
    }
    if s[start] != 101u8 && s[start] != 69u8 {
        return None;
    }
    let ghost u = t.drop_first();
    let mut p = start + 1;
    let negative = p < s.len() && s[p] == 45u8;
    if p < s.len() && (s[p] == 45u8 || s[p] == 43u8) {
        p = p + 1;
    }
    let ghost d = unsigned_part(u);
    assert(d =~= s@.skip(p as int));
    if p == s.len() {
        return None;
    }
    let end = digit_end(s, p);
    if end < s.len() {
        assert(d[end - p] == s@[end as int]);
        return None;
    }
    assert(all_digits(d)) by {
        assert forall|i: int| 0 <= i < d.len() implies is_digit(#[trigger] d[i]) by {
            assert(d[i] == s@[p + i]);
        }
    }
    let mut e: i128 = 0;
    let mut i = p;
    assert(d.take(0) =~= Seq::<u8>::empty());
    while i < end
        invariant
            p <= i <= end,
            end == s@.len(),
            d == s@.skip(p as int),
            all_digits(d),
            e == min_int(digits_value(d.take(i - p)) as int, EXPONENT_CAP as int),
        decreases end - i,
    {
        assert(is_digit(d[i - p]));
        assert(d[i - p] == s@[i as int]);
        let v = (s[i] - 48u8) as i128;
        assert(d.take(i - p + 1).drop_last() =~= d.take(i - p));
        proof {
            lemma_sat_step(digits_value(d.take(i - p)) as int, v as int, EXPONENT_CAP as int);
        }
        let next = e * 10 + v;
        e = if next > EXPONENT_CAP {
            EXPONENT_CAP
        } else {
            next
        };
        i = i + 1;
    }
    assert(d.take(end - p) =~= d);
    if negative {
        Some(-e)
    } else {
        Some(e)
    }
}


/// The digits of the mantissa of `s` from `start` on, and where its
/// exponent part begins.
fn read_mantissa(s: &[u8], start: usize) -> (r: (Vec<u8>, usize))
    requires
        start <= s@.len(),
    ensures
        r.0@ == mantissa(s@.skip(start as int)),
        all_digits(r.0@),
        r.1 <= s@.len(),
        exp_text(s@.skip(start as int)) == s@.skip(r.1 as int),
        r.0@.len() <= s@.len(),
{
    let ghost sv = s@;
    let body_start = start;
    let ghost b = sv.skip(start as int);
    let len = s.len();
    let int_end = digit_end(s, start);
    let ghost ni = (int_end - body_start) as int;
    let mut g: Vec<u8> = Vec::new();
    let mut i = body_start;
    assert(b.take(0) =~= Seq::<u8>::empty());
    while i < int_end
        invariant
            body_start <= i <= int_end <= s@.len(),
            sv == s@,
            b == sv.skip(body_start as int),
            g@ == b.take(i - body_start),
            forall|j: int| body_start <= j < int_end ==> is_digit(#[trigger] s@[j]),
        decreases int_end - i,
    {
        g.push(s[i]);
        i = i + 1;
        assert(g@ =~= b.take(i - body_start));
    }
    assert(ni == digit_run(b));
    assert(after_int(b) =~= sv.skip(int_end as int));
    let mut q = int_end;
    if int_end < len && s[int_end] == 46u8 {
        let frac_start = int_end + 1;
        let ghost r = after_int(b).drop_first();
        assert(r =~= sv.skip(frac_start as int));
        let frac_end = digit_end(s, frac_start);
        let ghost head = g@;
        let mut i = frac_start;
        assert(r.take(0) =~= Seq::<u8>::empty());
        assert(head + r.take(0) =~= head);
        while i < frac_end
            invariant
                frac_start <= i <= frac_end <= s@.len(),
                sv == s@,
                r == sv.skip(frac_start as int),
                g@ == head + r.take(i - frac_start),
                forall|j: int| frac_start <= j < frac_end ==> is_digit(#[trigger] s@[j]),
            decreases frac_end - i,
        {
            g.push(s[i]);
            i = i + 1;
            assert(g@ =~= head + r.take(i - frac_start));
        }
        assert(frac_part(b) == r.take(frac_end - frac_start));
        assert(exp_text(b) =~= sv.skip(frac_end as int));
        q = frac_end;
    } else {
        assert(exp_text(b) == sv.skip(int_end as int));
        assert(g@ =~= mantissa(b));
    }
    assert(g@ =~= mantissa(b));
    assert(all_digits(g@)) by {
        assert forall|j: int| 0 <= j < g@.len() implies is_digit(#[trigger] g@[j]) by {
            if j < ni {
                assert(g@[j] == b[j]);
                assert(b[j] == s@[body_start + j]);
            } else {
                assert(g@[j] == frac_part(b)[j - ni]);
                assert(frac_part(b)[j - ni] == s@[int_end + 1 + (j - ni)]);
            }
        }
    }
    (g, q)
}

/// Reads one component of a duration as a floating-point number is written:
/// an optional sign, then "inf", "infinity" or "nan" in any case, or digits
/// with an optional point and an optional exponent. A component that is
/// absent or written otherwise reads as zero.
pub fn read_component(c: Option<&[u8]>) -> (r: Reading)
    ensures
        r == reading_spec(opt_view(c)),
        -WHOLE_CAP <= whole_value(r) <= WHOLE_CAP,
        -FRAC_ONE <= frac_value(r) <= FRAC_ONE,
{
    let s = match c {
        Some(s) => s,
        None => {
            return Reading::Finite(0, 0);
        },
    };
    let ghost sv = s@;
    let len = s.len();
    let negative = len > 0 && s[0] == 45u8;
    let mut p: usize = 0;
    if len > 0 && (s[0] == 45u8 || s[0] == 43u8) {
        p = 1;
    }
    let body_start = p;
    let ghost b = unsigned_part(sv);
    assert(b =~= sv.skip(p as int));
    let inf: Vec<u8> = vec![105u8, 110, 102];
    let infinity: Vec<u8> = vec![105u8, 110, 102, 105, 110, 105, 116, 121];
    let nan: Vec<u8> = vec![110u8, 97, 110];
    assert(inf@ =~= seq![105u8, 110, 102]);
    assert(infinity@ =~= seq![105u8, 110, 102, 105, 110, 105, 116, 121]);
    assert(nan@ =~= seq![110u8, 97, 110]);
    if word_at(s, p, &inf) || word_at(s, p, &infinity) {
        return if negative {
            Reading::NegInf
        } else {
            Reading::PosInf
        };
    }
    if word_at(s, p, &nan) {
        return Reading::NaN;
    }
    let (g, q) = read_mantissa(s, body_start);
    if g.len() == 0 {
        return Reading::Finite(0, 0);
    }
    let e = match read_exponent(s, q) {
        Some(e) => e,
        None => {
            return Reading::Finite(0, 0);
        },
    };
    assert(is_number(b));
    let int_len = digit_end(s, body_start) - body_start;
    let point = int_len as i128 + e;
    let w = whole_of(&g, point);
    let f = frac_of(&g, point);
    proof {
        lemma_point_cap(g@, int_len as int, exp_value(exp_text(b)), e as int);
    }
    if negative {
        Reading::Finite(-w, -f)
    } else {
        Reading::Finite(w, f)
    }
}

/// Holding the exponent at its cap changes neither part of a component.
proof fn lemma_point_cap(g: Seq<u8>, int_len: int, ev: int, e: int)
    requires
        all_digits(g),
        0 <= int_len <= g.len() <= usize::MAX,
        e == if ev > EXPONENT_CAP {
            EXPONENT_CAP as int
        } else if ev < -EXPONENT_CAP {
            -EXPONENT_CAP as int
        } else {
            ev
        },
    ensures
        min_int(padded_value(g, int_len + e), WHOLE_CAP as int) == min_int(
            padded_value(g, int_len + ev),
            WHOLE_CAP as int,
        ),
        frac_at(g, int_len + e) == frac_at(g, int_len + ev),
{
    if ev > EXPONENT_CAP {
        lemma_whole_far(g, int_len + e);
        lemma_whole_far(g, int_len + ev);
        lemma_window_outside(g, int_len + e, 18);
        lemma_window_outside(g, int_len + ev, 18);
    } else if ev < -EXPONENT_CAP {
        lemma_padded_nonpositive(g, int_len + e);
        lemma_padded_nonpositive(g, int_len + ev);
        lemma_window_outside(g, int_len + e, 18);
        lemma_window_outside(g, int_len + ev, 18);
    }
}

proof fn lemma_padded_nonpositive(g: Seq<u8>, k: int)
    requires
        k <= 0,
    ensures
        padded_value(g, k) == 0,
{
}

proof fn lemma_padded_nonneg(g: Seq<u8>, k: int)
    requires
        all_digits(g),
    ensures
        padded_value(g, k) >= 0,
    decreases k,
{
    if k > 0 {
        lemma_padded_nonneg(g, k - 1);
        if 0 <= k - 1 < g.len() {
            assert(is_digit(g[k - 1]));
        }
    }
}

/// Past the end of `g`, each further place multiplies the padded value by
/// ten: a zero stays zero, and anything else grows at least tenfold.
proof fn lemma_padded_grows(g: Seq<u8>, j: int, k: int)
    requires
        all_digits(g),
        0 <= j <= k,
    ensures
        padded_value(g, j) <= padded_value(g, k),
        j >= g.len() && padded_value(g, j) == 0 ==> padded_value(g, k) == 0,
        j >= g.len() && padded_value(g, j) >= 1 ==> padded_value(g, k) >= pow10((k - j) as nat),
    decreases k - j,
{
    lemma_padded_nonneg(g, k);
    if j < k {
        lemma_padded_grows(g, j, k - 1);
        lemma_padded_nonneg(g, k - 1);
        if 0 <= k - 1 < g.len() {
            assert(is_digit(g[k - 1]));
        }
    }
}

proof fn lemma_pow10_34()
    ensures
        pow10(34) == 10_000_000_000_000_000_000_000_000_000_000_000,
        pow10(18) == 1_000_000_000_000_000_000,
{
    reveal_with_fuel(pow10, 35);
}

/// A point 35 or more places past the end of `g` leaves a whole part of zero
/// or one past the cap.
proof fn lemma_whole_far(g: Seq<u8>, p: int)
    requires
        all_digits(g),
        p >= g.len() + 35,
    ensures
        min_int(padded_value(g, p), WHOLE_CAP as int) == if padded_value(g, g.len() as int) == 0 {
            0
        } else {
            WHOLE_CAP as int
        },
{
    lemma_padded_nonneg(g, g.len() as int);
    lemma_padded_grows(g, g.len() as int, p);
    lemma_pow10_34();
    lemma_pow10_mono(35, (p - g.len()) as nat);
    assert(pow10(35) == 10 * pow10(34));
}

/// A window that lies wholly outside `g` reads as zero.
proof fn lemma_window_outside(g: Seq<u8>, p: int, k: nat)
    requires
        p >= g.len() || p + k + 1 <= 0,
    ensures
        window_value(g, p, k) == 0,
        digit_at(g, p + k) == 0,
    decreases k,
{
    if k > 0 {
        lemma_window_outside(g, p, (k - 1) as nat);
    }
}

/// The whole part where the point falls after `p` digits of `g`, held within
/// the cap.
fn whole_of(g: &Vec<u8>, p: i128) -> (r: i128)
    requires
        all_digits(g@),
    ensures
        r == min_int(padded_value(g@, p as int), WHOLE_CAP as int),
        0 <= r <= WHOLE_CAP,
{
    proof {
        lemma_padded_nonneg(g@, p as int);
    }
    if p <= 0 {
        return 0;
    }
    let n = g.len();
    let mut v: i128 = 0;
    let mut j: i128 = 0;
    while j < p
        invariant
            0 <= j <= p,
            n == g@.len(),
            all_digits(g@),
            v == min_int(padded_value(g@, j as int), WHOLE_CAP + 1 as int),
        ensures
            j == p || (j >= n && (v == 0 || v > WHOLE_CAP)),
            v == min_int(padded_value(g@, j as int), WHOLE_CAP + 1 as int),
            0 <= j <= p,
        decreases p - j,
    {
        if j >= n as i128 && (v == 0 || v > WHOLE_CAP) {
            break;
        }
        let d: i128 = if j < n as i128 {
            assert(is_digit(g@[j as int]));
            (g[j as usize] - 48u8) as i128
        } else {
            0
        };
        proof {
            lemma_padded_nonneg(g@, j as int);
            lemma_sat_step(padded_value(g@, j as int), d as int, WHOLE_CAP + 1);
        }
        let next = v * 10 + d;
        v = if next > WHOLE_CAP + 1 {
            WHOLE_CAP + 1
        } else {
            next
        };
        j = j + 1;
    }
    proof {
        lemma_padded_nonneg(g@, j as int);
        lemma_padded_grows(g@, j as int, p as int);
    }
    if v > WHOLE_CAP {
        WHOLE_CAP
    } else {
        v
    }
}

proof fn lemma_window_bound(g: Seq<u8>, p: int, k: nat)
    requires
        all_digits(g),
    ensures
        0 <= window_value(g, p, k) < pow10(k),
    decreases k,
{
    if k > 0 {
        lemma_window_bound(g, p, (k - 1) as nat);
        if 0 <= p + k - 1 < g.len() {
            assert(is_digit(g[p + k - 1]));
        }
    }
}

/// The fraction part where the point falls after `p` digits of `g`.
fn frac_of(g: &Vec<u8>, p: i128) -> (r: i128)
    requires
        all_digits(g@),
        -EXPONENT_CAP - 100 <= p <= EXPONENT_CAP + 100_000_000_000_000_000_000,
    ensures
        r == frac_at(g@, p as int),
        0 <= r <= FRAC_ONE,
{
    let n = g.len();
    let mut f: i128 = 0;
    let mut k: i128 = 0;
    while k < 19
        invariant
            0 <= k <= 19,
            n == g@.len(),
            all_digits(g@),
            -EXPONENT_CAP - 100 <= p <= EXPONENT_CAP + 100_000_000_000_000_000_000,
            k <= 18 ==> f == window_value(g@, p as int, k as nat),
            k <= 18 ==> 0 <= f < pow10(k as nat),
            k == 19 ==> f == frac_at(g@, p as int),
        decreases 19 - k,
    {
        proof {
            lemma_pow10_34();
        }
        let i = p + k;
        let d: i128 = if 0 <= i && i < n as i128 {
            assert(is_digit(g@[i as int]));
            (g[i as usize] - 48u8) as i128
        } else {
            0
        };
        assert(d == digit_at(g@, p + k));
        if k < 18 {
            proof {
                lemma_pow10_34();
                lemma_pow10_mono((k + 1) as nat, 18);
            }
            f = f * 10 + d;
        } else if d >= 5 {
            f = f + 1;
        }
        k = k + 1;
    }
    proof {
        lemma_window_bound(g@, p as int, 18);
        lemma_pow10_34();
    }
    f
}

/// The duration, in whole nanoseconds, of the hours, minutes and seconds that
/// a duration rule captured.
pub fn parse_duration(h: Option<&[u8]>, m: Option<&[u8]>, s: Option<&[u8]>) -> (r: i64)
    ensures
        r == duration_spec(opt_view(h), opt_view(m), opt_view(s)),
{
    let a = read_component(h);
    let b = read_component(m);
    let c = read_component(s);
    let pos = a == Reading::PosInf || b == Reading::PosInf || c == Reading::PosInf;
    let neg = a == Reading::NegInf || b == Reading::NegInf || c == Reading::NegInf;
    if a == Reading::NaN || b == Reading::NaN || c == Reading::NaN || (pos && neg) {
        return 0;
    }
    if pos {
        return i64::MAX;
    }
    if neg {
        return i64::MIN;
    }
    let (wa, fa) = parts(a);
    let (wb, fb) = parts(b);
    let (wc, fc) = parts(c);
    let whole: i128 = 3600 * wa + 60 * wb + wc;
    let frac: i128 = 3600 * fa + 60 * fb + fc;
    if whole >= 100_000_000_000 {
        return i64::MAX;
    }
    if whole <= -100_000_000_000 {
        return i64::MIN;
    }
    let total: i128 = whole * FRAC_ONE + frac;
    let rounded: i128 = if total >= 0 {
        (total + 500_000_000) / 1_000_000_000
    } else {
        -((-total + 500_000_000) / 1_000_000_000)
    };
    if rounded > i64::MAX as i128 {
        i64::MAX
    } else if rounded < i64::MIN as i128 {
        i64::MIN
    } else {
        rounded as i64
    }
}

/// The whole and fraction parts of a finite reading; zero otherwise.
fn parts(r: Reading) -> (v: (i128, i128))
    requires
        -WHOLE_CAP <= whole_value(r) <= WHOLE_CAP,
        -FRAC_ONE <= frac_value(r) <= FRAC_ONE,
    ensures
        v.0 == whole_value(r),
        v.1 == frac_value(r),
{
    match r {
        Reading::Finite(w, f) => (w, f),
        _ => (0, 0),
    }
}

} // verus!
