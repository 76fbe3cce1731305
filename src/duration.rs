//! Durations: a non-negative decimal with an optional unit suffix, read as
//! a whole number of milliseconds.
use vstd::prelude::*;
use vstd::string::*;
use vstd::arithmetic::div_mod::{
    lemma_div_denominator, lemma_hoist_over_denominator, lemma_div_is_ordered,
};
use crate::text::{
    all_digits, chars_of, digit_value, digits_value, is_digit, lemma_digits_value_bound,
    lemma_digits_value_front, lemma_pow10_positive, pow10,
};

verus! {

/// Milliseconds in one second.
pub const MS_PER_SECOND: u64 = 1000;

/// Seconds per unit of a suffix character; zero for a character that is no unit.
pub open spec fn unit_seconds(c: char) -> nat {
    if c == 's' {
        1
    } else if c == 'm' {
        60
    } else if c == 'h' {
        3600
    } else if c == 'd' {
        86400
    } else {
        0
    }
}

/// The text ends with a unit suffix.
pub open spec fn has_unit(s: Seq<char>) -> bool {
    s.len() > 0 && unit_seconds(s.last()) > 0
}

/// The numeric portion: the text without its unit suffix.
pub open spec fn numeral_part(s: Seq<char>) -> Seq<char> {
    if has_unit(s) {
        s.drop_last()
    } else {
        s
    }
}

/// Seconds per unit of the text; seconds when no suffix is given.
pub open spec fn multiplier(s: Seq<char>) -> nat {
    if has_unit(s) {
        unit_seconds(s.last())
    } else {
        1
    }
}

/// Index of the first decimal point, or the length when there is none.
pub open spec fn dot_index(v: Seq<char>) -> nat
    decreases v.len(),
{
    if v.len() == 0 || v[0] == '.' {
        0
    } else {
        1 + dot_index(v.drop_first())
    }
}

/// The digits before the decimal point.
pub open spec fn whole_digits(v: Seq<char>) -> Seq<char> {
    v.subrange(0, dot_index(v) as int)
}

/// The digits after the decimal point (none without a point).
pub open spec fn fraction_digits(v: Seq<char>) -> Seq<char> {
    if dot_index(v) < v.len() {
        v.subrange(dot_index(v) as int + 1, v.len() as int)
    } else {
        Seq::empty()
    }
}

/// Digits with at most one decimal point, and at least one digit.
pub open spec fn is_decimal(v: Seq<char>) -> bool {
    &&& all_digits(whole_digits(v))
    &&& all_digits(fraction_digits(v))
    &&& whole_digits(v).len() + fraction_digits(v).len() > 0
}

/// The decimal's value times `10^k`, where `k` counts its fraction digits.
pub open spec fn decimal_scaled(v: Seq<char>) -> nat {
    digits_value(whole_digits(v)) * pow10(fraction_digits(v).len()) + digits_value(
        fraction_digits(v),
    )
}

/// `n / d` rounded to the nearest integer, halves rounded up.
pub open spec fn round_div(n: nat, d: nat) -> nat {
    ((2 * n + d) / (2 * d)) as nat
}

/// The text is an accepted duration.
pub open spec fn is_duration(s: Seq<char>) -> bool {
    is_decimal(numeral_part(s))
}

/// The exact number of milliseconds that a duration text denotes:
/// its value times the unit's seconds times 1000, rounded.
pub open spec fn duration_ms(s: Seq<char>) -> nat {
    let v = numeral_part(s);
    round_div(
        decimal_scaled(v) * multiplier(s) * 1000,
        pow10(fraction_digits(v).len()),
    )
}

/// `n` where it fits in a `u64`, else `u64::MAX`.
pub open spec fn saturate(n: nat) -> u64 {
    if n > u64::MAX {
        u64::MAX
    } else {
        n as u64
    }
}

/// The diagnostic for a rejected duration text.
pub open spec fn duration_error_text(s: Seq<char>) -> Seq<char> {
    "Invalid duration: "@ + s
}

proof fn lemma_dot_index(v: Seq<char>, i: int)
    requires
        0 <= i <= v.len(),
        forall|j: int| 0 <= j < i ==> v[j] != '.',
        i == v.len() || v[i] == '.',
    ensures
        dot_index(v) == i,
    decreases i,
{
    if i > 0 {
        let w = v.drop_first();
        assert forall|j: int| 0 <= j < i - 1 implies w[j] != '.' by {
            assert(w[j] == v[j + 1]);
        }
        lemma_dot_index(w, i - 1);
    }
}

/// Rounding splits over a whole multiple of the denominator.
proof fn lemma_round_split(w: nat, f: nat, m: nat, d: nat)
    requires
        d > 0,
    ensures
        round_div((w * d + f) * m, d) == w * m + round_div(f * m, d),
{
    let x = 2 * (f * m) + d;
    assert(2 * ((w * d + f) * m) + d == (2 * (f * m) + d) + (w * m) * (2 * d))
        by (nonlinear_arith);
    lemma_hoist_over_denominator(x as int, (w * m) as int, (2 * d) as nat);
}

/// Half-up rounding of `n / d` from the floor of `2n / d`.
proof fn lemma_round_from_double(n: nat, d: nat)
    requires
        d > 0,
    ensures
        round_div(n, d) == ((2 * n) / d + 1) / 2,
{
    lemma_hoist_over_denominator((2 * n) as int, 1, d);
    lemma_div_denominator((2 * n + d) as int, d as int, 2);
    assert(d * 2 == 2 * d);
}

/// One step of the right-to-left scan over the fraction digits.
proof fn lemma_scaled_tail_step(t: Seq<char>, c: nat)
    requires
        t.len() > 0,
    ensures
        (digits_value(t) * c) / pow10(t.len()) == (digit_value(t[0]) * c + (digits_value(
            t.drop_first(),
        ) * c) / pow10((t.len() - 1) as nat)) / 10,
{
    let p = pow10((t.len() - 1) as nat);
    lemma_pow10_positive((t.len() - 1) as nat);
    lemma_digits_value_front(t);
    let d0 = digit_value(t[0]);
    let x = digits_value(t.drop_first());
    assert(digits_value(t) * c == x * c + (d0 * c) * p) by (nonlinear_arith)
        requires
            digits_value(t) == d0 * p + x,
    ;
    lemma_hoist_over_denominator((x * c) as int, (d0 * c) as int, p);
    lemma_div_denominator((digits_value(t) * c) as int, p as int, 10);
    assert(p * 10 == pow10(t.len()));
}

proof fn lemma_saturated_step(acc: nat, v: nat, d: nat, cap: nat)
    requires
        acc == if v >= cap { cap } else { v },
        d < 10,
        cap > 0,
    ensures
        (if v * 10 + d >= cap { cap } else { v * 10 + d }) == (if acc * 10 + d >= cap {
            cap
        } else {
            acc * 10 + d
        }),
{
    if v >= cap {
        assert(v * 10 + d >= cap) by (nonlinear_arith)
            requires
                v >= cap,
        ;
        assert(acc * 10 + d >= cap) by (nonlinear_arith)
            requires
                acc == cap,
        ;
    }
}

fn duration_error(number: &str) -> (e: String)
    ensures
        e@ == duration_error_text(number@),
{
    let mut e = String::from_str("Invalid duration: ");
    e.append(number);
    e
}

/// Saturating bound for the whole part: any larger value exceeds `u64::MAX`
/// milliseconds whatever the unit.
const WHOLE_CAP: u128 = 0x1_0000_0000_0000_0000;

/// `n`, or `cap` where `n` reaches it.
pub open spec fn capped(n: nat, cap: nat) -> nat {
    if n >= cap {
        cap
    } else {
        n
    }
}

/// The value of the digits `cs[0..p]`, capped at `WHOLE_CAP`; `None` where one
/// of them is no digit.
fn scan_whole(cs: &Vec<char>, p: usize) -> (r: Option<u128>)
    requires
        p <= cs.len(),
    ensures
        r.is_some() <==> all_digits(cs@.subrange(0, p as int)),
        r matches Some(w) ==> w as nat == capped(
            digits_value(cs@.subrange(0, p as int)),
            WHOLE_CAP as nat,
        ),
{
    let mut whole: u128 = 0;
    let mut i: usize = 0;
    while i < p
        invariant
            i <= p <= cs.len(),
            all_digits(cs@.subrange(0, i as int)),
            whole as nat == capped(digits_value(cs@.subrange(0, i as int)), WHOLE_CAP as nat),
        decreases p - i,
    {
        let c = cs[i];
        if !('0' <= c && c <= '9') {
            assert(!is_digit(cs@.subrange(0, p as int)[i as int]));
            return None;
        }
        let d = (c as u32 - '0' as u32) as u128;
        let ghost pre = cs@.subrange(0, i as int);
        let ghost post = cs@.subrange(0, i + 1);
        assert(post.drop_last() =~= pre);
        proof {
            lemma_saturated_step(whole as nat, digits_value(pre), d as nat, WHOLE_CAP as nat);
        }
        let t = whole * 10 + d;
        whole = if t >= WHOLE_CAP { WHOLE_CAP } else { t };
        i = i + 1;
    }
    Some(whole)
}

/// For the digits `cs[lo..hi]` with value `f`, the floor of
/// `f * c / 10^(hi - lo)`; `None` where one of them is no digit.
fn scan_fraction(cs: &Vec<char>, lo: usize, hi: usize, c: u64) -> (r: Option<u64>)
    requires
        lo <= hi <= cs.len(),
        0 < c <= 172_800_000,
    ensures
        r.is_some() <==> all_digits(cs@.subrange(lo as int, hi as int)),
        r matches Some(g) ==> g as int == (digits_value(cs@.subrange(lo as int, hi as int))
            * c) as int / pow10((hi - lo) as nat) as int,
{
    let mut g: u64 = 0;
    let mut j: usize = hi;
    assert(digits_value(cs@.subrange(j as int, hi as int)) == 0);
    assert(pow10(0) == 1);
    while j > lo
        invariant
            lo <= j <= hi <= cs.len(),
            0 < c <= 172_800_000,
            all_digits(cs@.subrange(j as int, hi as int)),
            g < c,
            g as int == (digits_value(cs@.subrange(j as int, hi as int)) * c) as int / pow10(
                (hi - j) as nat,
            ) as int,
        decreases j,
    {
        j = j - 1;
        let ch = cs[j];
        if !('0' <= ch && ch <= '9') {
            assert(!is_digit(cs@.subrange(lo as int, hi as int)[j - lo]));
            return None;
        }
        let d = (ch as u32 - '0' as u32) as u64;
        let ghost t = cs@.subrange(j as int, hi as int);
        assert(t.drop_first() =~= cs@.subrange(j + 1, hi as int));
        assert(t[0] == ch);
        proof {
            lemma_scaled_tail_step(t, c as nat);
        }
        assert(d * c <= 9 * c) by (nonlinear_arith)
            requires
                d <= 9,
        ;
        assert((d * c + g) / 10 < c) by {
            lemma_div_is_ordered((d * c + g) as int, (10 * c - 1) as int, 10);
        }
        g = (d * c + g) / 10;
        assert forall|k: int| 0 <= k < t.len() implies is_digit(#[trigger] t[k]) by {
            if k > 0 {
                assert(t[k] == cs@.subrange(j + 1, hi as int)[k - 1]);
            }
        }
    }
    Some(g)
}

/// The rounded milliseconds from the capped whole part and the fraction scan.
proof fn lemma_duration_total(
    w: nat,
    whole: nat,
    f: nat,
    k: nat,
    m: nat,
    g: nat,
)
    requires
        whole == capped(w, WHOLE_CAP as nat),
        1000 <= m <= 86_400_000,
        f < pow10(k),
        g == (f * (2 * m)) / pow10(k),
    ensures
        whole * m + (g + 1) / 2 <= WHOLE_CAP * 86_400_001,
        saturate(round_div((w * pow10(k) + f) * m, pow10(k))) == saturate(
            whole * m + (g + 1) / 2,
        ),
{
    let dk = pow10(k);
    lemma_pow10_positive(k);
    lemma_round_split(w, f, m, dk);
    lemma_round_from_double(f * m, dk);
    assert(2 * (f * m) == f * (2 * m)) by (nonlinear_arith);
    assert(f * (2 * m) < dk * (2 * m)) by (nonlinear_arith)
        requires
            f < dk,
            m > 0,
    ;
    lemma_div_is_ordered((f * (2 * m)) as int, (dk * (2 * m)) as int, dk as int);
    assert((dk * (2 * m)) / dk == 2 * m) by {
        vstd::arithmetic::div_mod::lemma_div_multiples_vanish((2 * m) as int, dk as int);
    }
    assert(whole * m <= WHOLE_CAP * 86_400_000) by (nonlinear_arith)
        requires
            whole <= WHOLE_CAP,
            m <= 86_400_000,
    ;
    if w >= WHOLE_CAP {
        assert(w * m >= WHOLE_CAP * 1000) by (nonlinear_arith)
            requires
                w >= WHOLE_CAP,
                m >= 1000,
        ;
        assert(whole * m >= WHOLE_CAP * 1000) by (nonlinear_arith)
            requires
                whole == WHOLE_CAP,
                m >= 1000,
        ;
    }
}

/// The length of the numeric portion, and the unit's seconds.
fn split_unit(cs: &Vec<char>) -> (r: (usize, u64))
    ensures
        r.0 <= cs.len(),
        numeral_part(cs@) =~= cs@.subrange(0, r.0 as int),
        r.1 == multiplier(cs@),
        1 <= r.1 <= 86400,
{
    let n = cs.len();
    if n > 0 {
        let c = cs[n - 1];
        if c == 's' {
            return (n - 1, 1);
        } else if c == 'm' {
            return (n - 1, 60);
        } else if c == 'h' {
            return (n - 1, 3600);
        } else if c == 'd' {
            return (n - 1, 86400);
        }
    }
    (n, 1)
}

/// Reads a duration: a non-negative decimal followed by an optional unit,
/// `s` (seconds, the default), `m`, `h` or `d`, as milliseconds rounded to
/// the nearest whole number. A value beyond `u64::MAX` milliseconds saturates.
pub fn parse_number_with_suffix(number: &str) -> (r: Result<u64, String>)
    ensures
        match r {
            Ok(ms) => is_duration(number@) && ms == saturate(duration_ms(number@)),
            Err(e) => !is_duration(number@) && e@ == duration_error_text(number@),
        },
{
    let cs = chars_of(number);
    let ghost s = number@;
    let (end, unit) = split_unit(&cs);
    let ghost v = numeral_part(s);
    let n = cs.len();
    let mut p: usize = 0;
    while p < end && cs[p] != '.'
        invariant
            p <= end <= n == cs.len(),
            forall|j: int| 0 <= j < p ==> cs@[j] != '.',
        decreases end - p,
    {
        p = p + 1;
    }
    proof {
        assert forall|j: int| 0 <= j < p implies v[j] != '.' by {
            assert(v[j] == cs@[j]);
        }
        lemma_dot_index(v, p as int);
    }
    let ghost wd = whole_digits(v);
    let ghost fd = fraction_digits(v);
    assert(wd =~= cs@.subrange(0, p as int));
    let fstart: usize = if p < end { p + 1 } else { end };
    assert(fd =~= cs@.subrange(fstart as int, end as int));
    let scale: u64 = unit * MS_PER_SECOND;
    let whole = match scan_whole(&cs, p) {
        Some(w) => w,
        None => {
            return Err(duration_error(number));
        },
    };
    let g = match scan_fraction(&cs, fstart, end, 2 * scale) {
        Some(g) => g,
        None => {
            return Err(duration_error(number));
        },
    };
    if p == 0 && fstart == end {
        return Err(duration_error(number));
    }
    assert(scale == multiplier(s) * 1000);
    proof {
        lemma_digits_value_bound(fd);
        lemma_duration_total(
            digits_value(wd),
            whole as nat,
            digits_value(fd),
            fd.len(),
            scale as nat,
            g as nat,
        );
        assert(decimal_scaled(v) * multiplier(s) * 1000 == (digits_value(wd) * pow10(fd.len())
            + digits_value(fd)) * scale) by (nonlinear_arith)
            requires
                decimal_scaled(v) == digits_value(wd) * pow10(fd.len()) + digits_value(fd),
                scale == multiplier(s) * 1000,
        ;
    }
    let total: u128 = whole * (scale as u128) + ((g as u128 + 1) / 2);
    if total > u64::MAX as u128 {
        Ok(u64::MAX)
    } else {
        Ok(total as u64)
    }
}

/// Seconds per unit of a suffix that is empty or one unit character.
pub open spec fn suffix_seconds(u: Seq<char>) -> nat {
    if u.len() == 0 {
        1
    } else {
        unit_seconds(u[0])
    }
}

proof fn lemma_dot_index_bound(v: Seq<char>)
    ensures
        dot_index(v) <= v.len(),
        dot_index(v) < v.len() ==> v[dot_index(v) as int] == '.',
    decreases v.len(),
{
    if v.len() > 0 && v[0] != '.' {
        lemma_dot_index_bound(v.drop_first());
    }
}

/// Round trip of a duration: for a decimal `v` followed by a suffix `u` that
/// is empty or one of `s`, `m`, `h`, `d`, the text reads as `v` times the
/// suffix's seconds times 1000 milliseconds, rounded to the nearest whole
/// number (halves up).
pub proof fn lemma_duration_round_trip(v: Seq<char>, u: Seq<char>)
    requires
        is_decimal(v),
        u.len() == 0 || (u.len() == 1 && unit_seconds(u[0]) > 0),
    ensures
        is_duration(v + u),
        duration_ms(v + u) == round_div(
            decimal_scaled(v) * suffix_seconds(u) * 1000,
            pow10(fraction_digits(v).len()),
        ),
{
    let s = v + u;
    if u.len() == 1 {
        assert(s.last() == u[0]);
        assert(s.drop_last() =~= v);
    } else {
        assert(s =~= v);
        lemma_dot_index_bound(v);
        let p = dot_index(v);
        let n = v.len();
        if p == n {
            assert(whole_digits(v)[n - 1] == v[n - 1]);
        } else if p < n - 1 {
            assert(fraction_digits(v)[n - p - 2] == v[n - 1]);
        }
        assert(!has_unit(s));
    }
}

} // verus!
