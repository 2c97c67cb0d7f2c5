//! Extracting the temperature from the diagnostic tool's text output.
//!
//! The tool prints a line such as `temp=48.3'C`. The reading is what follows
//! the last `=`, cut at the first `'`, with surrounding whitespace trimmed,
//! read as a number of degrees in the notation of Rust's float parsing (sign,
//! digits, point, exponent, or `inf`/`infinity`). Any output that does not
//! yield a number gives the reading 0 rather than an error, so a reading of 0
//! may mean either 0 °C or output that could not be read.
//!
//! Readings are held in millidegrees: digits past the thousandths are
//! dropped, and magnitudes beyond `MAX_MILLI`, infinity among them, are held
//! at it. `nan` has no such value and reads as 0.
use vstd::prelude::*;
use vstd::string::StrSliceExecFns;
use vstd::utf8::{decode_utf8, valid_utf8};

verus! {

/// The largest magnitude of a reading in millidegrees; larger ones are held at it.
pub const MAX_MILLI: i64 = 0x7fff_ffff_ffff_ffff;

/// Whitespace as Unicode's `White_Space` property defines it, the set that
/// `str::trim` removes.
pub open spec fn is_white(c: char) -> bool {
    let u = c as u32;
    (0x09 <= u <= 0x0d) || u == 0x20 || u == 0x85 || u == 0xa0 || u == 0x1680 || (0x2000 <= u
        <= 0x200a) || u == 0x2028 || u == 0x2029 || u == 0x202f || u == 0x205f || u == 0x3000
}

pub open spec fn is_digit(c: char) -> bool {
    0x30 <= (c as u32) <= 0x39
}

pub open spec fn all_digits(s: Seq<char>) -> bool {
    forall|i: int| 0 <= i < s.len() ==> is_digit(#[trigger] s[i])
}

/// The number that a string of decimal digits spells.
pub open spec fn digits_value(s: Seq<char>) -> int
    decreases s.len(),
{
    if s.len() == 0 {
        0
    } else {
        digits_value(s.drop_last()) * 10 + (s.last() as u32 - 0x30)
    }
}

/// The index of the last `c` in `s`, or -1 where there is none.
pub open spec fn last_pos(s: Seq<char>, c: char) -> int
    decreases s.len(),
{
    if s.len() == 0 {
        -1
    } else if s.last() == c {
        s.len() - 1
    } else {
        last_pos(s.drop_last(), c)
    }
}

/// The index of the first `c` in `s`, or the length of `s` where there is none.
pub open spec fn first_pos(s: Seq<char>, c: char) -> int
    decreases s.len(),
{
    if s.len() == 0 {
        0
    } else if s[0] == c {
        0
    } else {
        1 + first_pos(s.drop_first(), c)
    }
}

/// The last field of `s` split at each `=`: what follows the last `=`, or all
/// of `s` where it holds none.
pub open spec fn last_field(s: Seq<char>) -> Seq<char> {
    s.subrange(last_pos(s, '=') + 1, s.len() as int)
}

/// The first field of `s` split at each `'`: what comes before the first `'`,
/// or all of `s` where it holds none.
pub open spec fn first_field(s: Seq<char>) -> Seq<char> {
    s.subrange(0, first_pos(s, '\''))
}

pub open spec fn trim_start(s: Seq<char>) -> Seq<char>
    decreases s.len(),
{
    if s.len() > 0 && is_white(s[0]) {
        trim_start(s.drop_first())
    } else {
        s
    }
}

pub open spec fn trim_end(s: Seq<char>) -> Seq<char>
    decreases s.len(),
{
    if s.len() > 0 && is_white(s.last()) {
        trim_end(s.drop_last())
    } else {
        s
    }
}

pub open spec fn trim(s: Seq<char>) -> Seq<char> {
    trim_end(trim_start(s))
}

/// The text of the number in the tool's output.
pub open spec fn number_text(text: Seq<char>) -> Seq<char> {
    trim(first_field(last_field(text)))
}

pub open spec fn has_sign(s: Seq<char>) -> bool {
    s.len() > 0 && (s[0] == '+' || s[0] == '-')
}

pub open spec fn unsigned_part(s: Seq<char>) -> Seq<char> {
    if has_sign(s) {
        s.drop_first()
    } else {
        s
    }
}

/// Ten to the power `n`.
pub open spec fn pow10(n: nat) -> int
    decreases n,
{
    if n == 0 {
        1
    } else {
        10 * pow10((n - 1) as nat)
    }
}

/// `m` times ten to the power `s`, rounded toward zero where `s` is negative.
pub open spec fn scaled(m: int, s: int) -> int {
    if s >= 0 {
        m * pow10(s as nat)
    } else {
        m / pow10((-s) as nat)
    }
}

pub open spec fn is_negative(s: Seq<char>) -> bool {
    has_sign(s) && s[0] == '-'
}

/// Whether `c` is the lower-case ASCII letter `lower` or its upper-case form.
pub open spec fn letter_is(c: char, lower: char) -> bool {
    c == lower || (c as u32) + 32 == (lower as u32)
}

/// Whether `u` spells `inf` or `infinity`, in any case.
pub open spec fn is_inf_word(u: Seq<char>) -> bool {
    &&& u.len() == 3 || u.len() == 8
    &&& letter_is(u[0], 'i') && letter_is(u[1], 'n') && letter_is(u[2], 'f')
    &&& u.len() == 8 ==> letter_is(u[3], 'i') && letter_is(u[4], 'n') && letter_is(u[5], 'i')
        && letter_is(u[6], 't') && letter_is(u[7], 'y')
}

/// Where the exponent mark (`e` or `E`) stands, or the length where there is none.
pub open spec fn exp_pos(u: Seq<char>) -> int {
    if first_pos(u, 'e') <= first_pos(u, 'E') {
        first_pos(u, 'e')
    } else {
        first_pos(u, 'E')
    }
}

pub open spec fn has_exp(u: Seq<char>) -> bool {
    exp_pos(u) < u.len()
}

/// The digits and point before the exponent mark.
pub open spec fn mantissa(u: Seq<char>) -> Seq<char> {
    u.subrange(0, exp_pos(u))
}

/// What follows the exponent mark; nothing where there is none.
pub open spec fn exp_text(u: Seq<char>) -> Seq<char> {
    if has_exp(u) {
        u.subrange(exp_pos(u) + 1, u.len() as int)
    } else {
        Seq::empty()
    }
}

/// An exponent: an optional sign and at least one digit.
pub open spec fn exp_ok(x: Seq<char>) -> bool {
    unsigned_part(x).len() > 0 && all_digits(unsigned_part(x))
}

pub open spec fn exp_value(x: Seq<char>) -> int {
    if is_negative(x) {
        -digits_value(unsigned_part(x))
    } else {
        digits_value(unsigned_part(x))
    }
}

/// The digits before the decimal point.
pub open spec fn int_digits(n: Seq<char>) -> Seq<char> {
    n.subrange(0, first_pos(n, '.'))
}

/// The digits after the decimal point; none where there is no point.
pub open spec fn frac_digits(n: Seq<char>) -> Seq<char> {
    if first_pos(n, '.') < n.len() {
        n.subrange(first_pos(n, '.') + 1, n.len() as int)
    } else {
        Seq::empty()
    }
}

/// Whether `u` is a number without its sign: digits and an optional point
/// followed by digits, at least one digit in all, then an optional exponent.
pub open spec fn number_ok(u: Seq<char>) -> bool {
    let n = mantissa(u);
    &&& all_digits(int_digits(n))
    &&& all_digits(frac_digits(n))
    &&& int_digits(n).len() + frac_digits(n).len() > 0
    &&& has_exp(u) ==> exp_ok(exp_text(u))
}

/// The magnitude in millidegrees of a number without its sign: its digits as
/// a whole, times ten to the exponent plus three less the fractional digits,
/// rounded toward zero.
pub open spec fn number_milli(u: Seq<char>) -> int {
    let n = mantissa(u);
    let e = if has_exp(u) {
        exp_value(exp_text(u))
    } else {
        0
    };
    scaled(digits_value(int_digits(n) + frac_digits(n)), e + 3 - frac_digits(n).len())
}

/// The value in millidegrees of a number in the notation of Rust's float
/// parsing: an optional sign, then `inf` or `infinity` in any case (held at
/// `MAX_MILLI`), or digits with an optional point and an optional exponent.
/// Digits past the thousandths are dropped. `None` for any other text,
/// `nan` among it.
pub open spec fn decimal_milli(s: Seq<char>) -> Option<int> {
    let u = unsigned_part(s);
    let m = if is_inf_word(u) {
        MAX_MILLI as int
    } else {
        number_milli(u)
    };
    if is_inf_word(u) || number_ok(u) {
        Some(if is_negative(s) { -m } else { m })
    } else {
        None
    }
}

proof fn lemma_pow10_grows(a: nat, b: nat)
    requires
        a <= b,
    ensures
        1 <= pow10(a) <= pow10(b),
    decreases b,
{
    if b > 0 {
        if a == b {
            lemma_pow10_grows(0, (b - 1) as nat);
        } else {
            lemma_pow10_grows(a, (b - 1) as nat);
        }
    }
}

proof fn lemma_digits_below(d: Seq<char>)
    requires
        all_digits(d),
    ensures
        0 <= digits_value(d) < pow10(d.len()),
    decreases d.len(),
{
    if d.len() > 0 {
        let p = d.drop_last();
        assert(all_digits(p)) by {
            assert forall|i: int| 0 <= i < p.len() implies is_digit(#[trigger] p[i]) by {
                assert(p[i] == d[i]);
            }
        }
        lemma_digits_below(p);
        assert(is_digit(d[d.len() - 1]));
        let x = digits_value(p);
        let y = pow10(p.len());
        assert(x * 10 + 9 < y * 10) by (nonlinear_arith)
            requires
                x < y,
        ;
    }
}

/// Dropping the last `t` digits divides the value by ten to the `t`.
proof fn lemma_digits_drop(d: Seq<char>, t: nat)
    requires
        all_digits(d),
        t <= d.len(),
    ensures
        digits_value(d) / pow10(t) == digits_value(d.subrange(0, d.len() - t)),
    decreases t,
{
    if t == 0 {
        assert(d.subrange(0, d.len() as int) =~= d);
    } else {
        let p = d.drop_last();
        assert(all_digits(p)) by {
            assert forall|i: int| 0 <= i < p.len() implies is_digit(#[trigger] p[i]) by {
                assert(p[i] == d[i]);
            }
        }
        lemma_digits_drop(p, (t - 1) as nat);
        assert(p.subrange(0, p.len() - (t - 1)) =~= d.subrange(0, d.len() - t));
        lemma_digits_below(p);
        assert(is_digit(d[d.len() - 1]));
        let x = digits_value(p);
        let v = digits_value(d);
        assert(v / 10 == x) by (nonlinear_arith)
            requires
                v == x * 10 + (v - x * 10),
                0 <= v - x * 10 <= 9,
        ;
        lemma_pow10_grows(0, (t - 1) as nat);
        vstd::arithmetic::div_mod::lemma_div_denominator(v, 10, pow10((t - 1) as nat));
    }
}

/// Far enough from zero, how far an exponent reaches no longer changes the
/// held value.
proof fn lemma_far_shifts(d: Seq<char>, s1: int, s2: int)
    requires
        all_digits(d),
        d.len() < 0x1_0000_0000_0000_0000,
        (s1 >= 19 && s2 >= 19) || (s1 <= -0x1_0000_0000_0000_0000 && s2
            <= -0x1_0000_0000_0000_0000),
    ensures
        held(scaled(digits_value(d), s1)) == held(scaled(digits_value(d), s2)),
        0 <= scaled(digits_value(d), s1),
{
    let m = digits_value(d);
    lemma_digits_below(d);
    if s1 >= 19 {
        reveal_with_fuel(pow10, 20);
        assert(pow10(19) == 10_000_000_000_000_000_000);
        lemma_pow10_grows(19, s1 as nat);
        lemma_pow10_grows(19, s2 as nat);
        let p1 = pow10(s1 as nat);
        let p2 = pow10(s2 as nat);
        if m == 0 {
            assert(m * p1 == 0 && m * p2 == 0);
        } else {
            assert(m * p1 >= p1 && m * p2 >= p2) by (nonlinear_arith)
                requires
                    m >= 1,
                    p1 >= 1,
                    p2 >= 1,
            ;
        }
    } else {
        lemma_pow10_grows(d.len(), (-s1) as nat);
        lemma_pow10_grows(d.len(), (-s2) as nat);
        let p1 = pow10((-s1) as nat);
        let p2 = pow10((-s2) as nat);
        assert(m / p1 == 0 && m / p2 == 0) by (nonlinear_arith)
            requires
                0 <= m < p1,
                0 <= m < p2,
        ;
    }
}

/// A value in millidegrees, held within `-MAX_MILLI..=MAX_MILLI`.
pub open spec fn held(m: int) -> int {
    if m > MAX_MILLI {
        MAX_MILLI as int
    } else if m < -MAX_MILLI {
        -MAX_MILLI
    } else {
        m
    }
}

/// The reading in millidegrees that the tool's text output gives: the number
/// found in it, or 0 where no number is found.
pub open spec fn reading_of(text: Seq<char>) -> int {
    match decimal_milli(number_text(text)) {
        Some(m) => held(m),
        None => 0,
    }
}

fn is_white_char(c: char) -> (r: bool)
    ensures
        r == is_white(c),
{
    let u = c as u32;
    (0x09 <= u && u <= 0x0d) || u == 0x20 || u == 0x85 || u == 0xa0 || u == 0x1680 || (0x2000 <= u
        && u <= 0x200a) || u == 0x2028 || u == 0x2029 || u == 0x202f || u == 0x205f || u == 0x3000
}

fn is_digit_char(c: char) -> (r: bool)
    ensures
        r == is_digit(c),
{
    let u = c as u32;
    0x30 <= u && u <= 0x39
}

/// The characters of `text`, one by one.
fn chars_of(text: &str) -> (r: Vec<char>)
    ensures
        r@ == text@,
{
    let n = text.unicode_len();
    let mut r: Vec<char> = Vec::new();
    let mut i: usize = 0;
    while i < n
        invariant
            n == text@.len(),
            i <= n,
            r@ == text@.subrange(0, i as int),
        decreases n - i,
    {
        r.push(text.get_char(i));
        i += 1;
        assert(r@ =~= text@.subrange(0, i as int));
    }
    assert(r@ =~= text@);
    r
}

/// Where the last field at `=` starts: one past the last `=`, or 0.
fn last_field_start(v: &Vec<char>) -> (r: usize)
    ensures
        r == last_pos(v@, '=') + 1,
        r <= v@.len(),
{
    let mut i: usize = v.len();
    assert(v@.subrange(0, i as int) =~= v@);
    while i > 0
        invariant
            i <= v@.len(),
            last_pos(v@, '=') == last_pos(v@.subrange(0, i as int), '='),
        decreases i,
    {
        let ghost pre = v@.subrange(0, i as int);
        assert(pre.drop_last() =~= v@.subrange(0, i - 1));
        if v[i - 1] == '=' {
            return i;
        }
        i -= 1;
    }
    i
}

/// The first index at or after `a` and before `b` that holds `c`, or `b`.
fn find_from(v: &Vec<char>, a: usize, b: usize, c: char) -> (r: usize)
    requires
        a <= b <= v@.len(),
    ensures
        r - a == first_pos(v@.subrange(a as int, b as int), c),
        a <= r <= b,
{
    let mut j: usize = a;
    while j < b
        invariant
            a <= j <= b <= v@.len(),
            first_pos(v@.subrange(a as int, b as int), c) == (j - a) + first_pos(
                v@.subrange(j as int, b as int),
                c,
            ),
        decreases b - j,
    {
        if v[j] == c {
            return j;
        }
        assert(v@.subrange(j as int, b as int).drop_first() =~= v@.subrange(j + 1, b as int));
        j += 1;
    }
    j
}

/// Trims whitespace from both ends of `v[a..b]`, giving the bounds left.
fn trim_bounds(v: &Vec<char>, a: usize, b: usize) -> (r: (usize, usize))
    requires
        a <= b <= v@.len(),
    ensures
        a <= r.0 <= r.1 <= b,
        v@.subrange(r.0 as int, r.1 as int) == trim(v@.subrange(a as int, b as int)),
{
    let mut lo: usize = a;
    while lo < b && is_white_char(v[lo])
        invariant
            a <= lo <= b <= v@.len(),
            trim_start(v@.subrange(a as int, b as int)) == trim_start(
                v@.subrange(lo as int, b as int),
            ),
        decreases b - lo,
    {
        assert(v@.subrange(lo as int, b as int).drop_first() =~= v@.subrange(lo + 1, b as int));
        lo += 1;
    }
    let mut hi: usize = b;
    while hi > lo && is_white_char(v[hi - 1])
        invariant
            a <= lo <= hi <= b <= v@.len(),
            trim_start(v@.subrange(a as int, b as int)) == v@.subrange(lo as int, b as int),
            trim_end(v@.subrange(lo as int, b as int)) == trim_end(
                v@.subrange(lo as int, hi as int),
            ),
        decreases hi - lo,
    {
        assert(v@.subrange(lo as int, hi as int).drop_last() =~= v@.subrange(lo as int, hi - 1));
        hi -= 1;
    }
    (lo, hi)
}

/// Whether `v[a..b]` is all decimal digits.
fn digits_only(v: &Vec<char>, a: usize, b: usize) -> (r: bool)
    requires
        a <= b <= v@.len(),
    ensures
        r == all_digits(v@.subrange(a as int, b as int)),
{
    let mut k: usize = a;
    while k < b
        invariant
            a <= k <= b <= v@.len(),
            all_digits(v@.subrange(a as int, k as int)),
        decreases b - k,
    {
        if !is_digit_char(v[k]) {
            assert(v@.subrange(a as int, b as int)[k - a] == v@[k as int]);
            return false;
        }
        assert(forall|i: int|
            0 <= i < k + 1 - a ==> #[trigger] v@.subrange(a as int, k + 1)[i] == v@.subrange(
                a as int,
                k as int,
            )[i] || i == k - a);
        k += 1;
    }
    true
}

/// The value of the digits `v[a..b]`, held at `cap`.
fn held_digits(v: &Vec<char>, a: usize, b: usize, cap: u128) -> (r: u128)
    requires
        a <= b <= v@.len(),
        all_digits(v@.subrange(a as int, b as int)),
        cap >= 9,
    ensures
        0 <= digits_value(v@.subrange(a as int, b as int)),
        r == if digits_value(v@.subrange(a as int, b as int)) > cap {
            cap as int
        } else {
            digits_value(v@.subrange(a as int, b as int))
        },
{
    let mut acc: u128 = 0;
    let mut k: usize = a;
    assert(v@.subrange(a as int, a as int) =~= Seq::<char>::empty());
    while k < b
        invariant
            a <= k <= b <= v@.len(),
            cap >= 9,
            all_digits(v@.subrange(a as int, b as int)),
            0 <= digits_value(v@.subrange(a as int, k as int)),
            acc == if digits_value(v@.subrange(a as int, k as int)) > cap {
                cap as int
            } else {
                digits_value(v@.subrange(a as int, k as int))
            },
        decreases b - k,
    {
        let ghost before = digits_value(v@.subrange(a as int, k as int));
        assert(v@.subrange(a as int, k + 1).drop_last() =~= v@.subrange(a as int, k as int));
        assert(v@.subrange(a as int, b as int)[k - a] == v@[k as int]);
        assert(is_digit(v@[k as int]));
        let code: u32 = v[k] as u32;
        let d: u128 = (code - 0x30) as u128;
        let ghost after = digits_value(v@.subrange(a as int, k + 1));
        assert(after == before * 10 + d);
        if acc > (cap - d) / 10 {
            assert(after > cap) by (nonlinear_arith)
                requires
                    acc > (cap - d) / 10,
                    acc == cap || acc == before,
                    before >= 0,
                    acc == cap ==> before >= cap,
                    after == before * 10 + d,
                    0 <= d <= 9,
                    cap >= 9,
            ;
            acc = cap;
        } else {
            assert(acc == before);
            assert(acc * 10 + d <= cap) by (nonlinear_arith)
                requires
                    acc <= (cap - d) / 10,
                    0 <= d <= 9,
                    cap >= 9,
            ;
            acc = acc * 10 + d;
        }
        k += 1;
    }
    acc
}

/// The magnitude of `ds` as a whole number, times ten to `shift`, held at
/// `MAX_MILLI`.
fn held_scaled(ds: &Vec<char>, shift: i128) -> (r: i64)
    requires
        all_digits(ds@),
        shift > i128::MIN,
    ensures
        0 <= scaled(digits_value(ds@), shift as int),
        r == held(scaled(digits_value(ds@), shift as int)),
{
    proof {
        lemma_digits_below(ds@);
    }
    let ghost m = digits_value(ds@);
    if shift >= 0 {
        assert(ds@.subrange(0, ds@.len() as int) =~= ds@);
        let mut acc: u128 = held_digits(ds, 0, ds.len(), MAX_MILLI as u128);
        let mut j: i128 = 0;
        assert(pow10(0) == 1);
        while j < shift && acc != 0 && acc != MAX_MILLI as u128
            invariant
                0 <= j <= shift,
                0 <= m,
                acc == held(m * pow10(j as nat)),
            decreases shift - j,
        {
            proof {
                lemma_pow10_grows(0, j as nat);
            }
            let ghost p = pow10(j as nat);
            let ghost before = m * p;
            assert(pow10((j + 1) as nat) == 10 * p);
            assert(m * pow10((j + 1) as nat) == before * 10 && before >= 0) by (nonlinear_arith)
                requires
                    pow10((j + 1) as nat) == 10 * p,
                    before == m * p,
                    m >= 0,
                    p >= 1,
            ;
            if acc > MAX_MILLI as u128 / 10 {
                acc = MAX_MILLI as u128;
            } else {
                acc = acc * 10;
            }
            j += 1;
        }
        proof {
            lemma_pow10_grows(j as nat, shift as nat);
            let pj = pow10(j as nat);
            let ps = pow10(shift as nat);
            assert(m * pj <= m * ps && m * ps >= 0) by (nonlinear_arith)
                requires
                    m >= 0,
                    1 <= pj <= ps,
            ;
            if j < shift && acc == 0 {
                assert(m == 0) by (nonlinear_arith)
                    requires
                        m * pj == 0,
                        pj >= 1,
                        m >= 0,
                ;
                assert(m * ps == 0);
            }
        }
        acc as i64
    } else {
        let t: i128 = -shift;
        if t >= ds.len() as i128 {
            proof {
                lemma_pow10_grows(ds@.len(), t as nat);
                let pt = pow10(t as nat);
                assert(m / pt == 0) by (nonlinear_arith)
                    requires
                        0 <= m < pt,
                ;
            }
            0
        } else {
            let n: usize = ds.len() - t as usize;
            proof {
                lemma_digits_drop(ds@, t as nat);
                lemma_pow10_grows(0, t as nat);
            }
            assert(all_digits(ds@.subrange(0, n as int))) by {
                assert forall|i: int| 0 <= i < n implies is_digit(
                    #[trigger] ds@.subrange(0, n as int)[i],
                ) by {
                    assert(ds@.subrange(0, n as int)[i] == ds@[i]);
                }
            }
            let r = held_digits(ds, 0, n, MAX_MILLI as u128);
            r as i64
        }
    }
}

fn letter_is_char(c: char, lower: char) -> (r: bool)
    ensures
        r == letter_is(c, lower),
{
    c == lower || (c as u32) as u64 + 32 == (lower as u32) as u64
}

/// Whether `v[a..b]` spells `inf` or `infinity`, in any case.
fn is_inf_word_in(v: &Vec<char>, a: usize, b: usize) -> (r: bool)
    requires
        a <= b <= v@.len(),
    ensures
        r == is_inf_word(v@.subrange(a as int, b as int)),
{
    let n = b - a;
    if n != 3 && n != 8 {
        return false;
    }
    if !(letter_is_char(v[a], 'i') && letter_is_char(v[a + 1], 'n') && letter_is_char(
        v[a + 2],
        'f',
    )) {
        return false;
    }
    n == 3 || (letter_is_char(v[a + 3], 'i') && letter_is_char(v[a + 4], 'n') && letter_is_char(
        v[a + 5],
        'i',
    ) && letter_is_char(v[a + 6], 't') && letter_is_char(v[a + 7], 'y'))
}

/// Beyond this an exponent's magnitude is held: by then it gives the same
/// reading as any larger one.
pub const EXP_CAP: u128 = 0x1_0000_0000_0000_0000_0000;

/// The digits `v[a..b]` followed by the digits `v[c..d]`.
fn join_digits(v: &Vec<char>, a: usize, b: usize, c: usize, d: usize) -> (r: Vec<char>)
    requires
        a <= b <= v@.len(),
        c <= d <= v@.len(),
        all_digits(v@.subrange(a as int, b as int)),
        all_digits(v@.subrange(c as int, d as int)),
    ensures
        r@ == v@.subrange(a as int, b as int) + v@.subrange(c as int, d as int),
        all_digits(r@),
{
    let ghost x = v@.subrange(a as int, b as int);
    let ghost y = v@.subrange(c as int, d as int);
    let mut r: Vec<char> = Vec::new();
    let mut k: usize = a;
    while k < b
        invariant
            a <= k <= b <= v@.len(),
            r@ == v@.subrange(a as int, k as int),
        decreases b - k,
    {
        r.push(v[k]);
        k += 1;
        assert(r@ =~= v@.subrange(a as int, k as int));
    }
    k = c;
    while k < d
        invariant
            c <= k <= d <= v@.len(),
            r@ == x + v@.subrange(c as int, k as int),
        decreases d - k,
    {
        r.push(v[k]);
        k += 1;
        assert(r@ =~= x + v@.subrange(c as int, k as int));
    }
    assert(r@ =~= x + y);
    assert forall|j: int| 0 <= j < r@.len() implies is_digit(#[trigger] r@[j]) by {
        if j < x.len() {
            assert(r@[j] == x[j]);
        } else {
            assert(r@[j] == y[j - x.len()]);
        }
    }
    r
}

/// The exponent in `v[a..b]`: its sign, and its magnitude held at `EXP_CAP`;
/// `None` where `v[a..b]` is no exponent.
fn exponent_in(v: &Vec<char>, a: usize, b: usize) -> (r: Option<(bool, u128)>)
    requires
        a <= b <= v@.len(),
    ensures
        r is Some <==> exp_ok(v@.subrange(a as int, b as int)),
        r matches Some((neg, mag)) ==> {
            let x = v@.subrange(a as int, b as int);
            &&& neg == is_negative(x)
            &&& 0 <= digits_value(unsigned_part(x))
            &&& mag == if digits_value(unsigned_part(x)) > EXP_CAP {
                EXP_CAP as int
            } else {
                digits_value(unsigned_part(x))
            }
        },
{
    let ghost x = v@.subrange(a as int, b as int);
    let mut q: usize = a;
    let mut neg = false;
    if q < b && (v[q] == '+' || v[q] == '-') {
        neg = v[q] == '-';
        q += 1;
    }
    assert(unsigned_part(x) =~= v@.subrange(q as int, b as int));
    if q == b || !digits_only(v, q, b) {
        return None;
    }
    Some((neg, held_digits(v, q, b, EXP_CAP)))
}

/// The magnitude in millidegrees of the unsigned number in `v[a..b]`, held at
/// `MAX_MILLI`; `None` where `v[a..b]` is no such number.
#[verifier::rlimit(40)]
fn number_in(v: &Vec<char>, a: usize, b: usize) -> (r: Option<i64>)
    requires
        a <= b <= v@.len(),
    ensures
        r is Some <==> number_ok(v@.subrange(a as int, b as int)),
        r is Some ==> 0 <= number_milli(v@.subrange(a as int, b as int)) && r->0 == held(
            number_milli(v@.subrange(a as int, b as int)),
        ),
{
    let ghost u = v@.subrange(a as int, b as int);
    let e1 = find_from(v, a, b, 'e');
    let e2 = find_from(v, a, b, 'E');
    let ep = if e1 <= e2 {
        e1
    } else {
        e2
    };
    assert(ep - a == exp_pos(u));
    assert(mantissa(u) =~= v@.subrange(a as int, ep as int));
    let dot = find_from(v, a, ep, '.');
    let fs: usize = if dot < ep {
        dot + 1
    } else {
        ep
    };
    let ghost i = v@.subrange(a as int, dot as int);
    let ghost f = v@.subrange(fs as int, ep as int);
    assert(int_digits(mantissa(u)) =~= i);
    assert(frac_digits(mantissa(u)) =~= f);
    if !digits_only(v, a, dot) || !digits_only(v, fs, ep) || (dot - a) + (ep - fs) == 0 {
        return None;
    }
    let mut e_neg = false;
    let mut e_mag: u128 = 0;
    let ghost mut e_val: int = 0;
    if ep < b {
        assert(exp_text(u) =~= v@.subrange(ep + 1, b as int));
        match exponent_in(v, ep + 1, b) {
            None => {
                return None;
            },
            Some((n, m)) => {
                e_neg = n;
                e_mag = m;
                proof {
                    e_val = digits_value(unsigned_part(exp_text(u)));
                }
            },
        }
    }
    assert(number_ok(u));
    let ds = join_digits(v, a, dot, fs, ep);
    let fl: usize = ep - fs;
    let signed: i128 = if e_neg {
        -(e_mag as i128)
    } else {
        e_mag as i128
    };
    let shift: i128 = signed + 3 - fl as i128;
    let ghost e = if has_exp(u) {
        exp_value(exp_text(u))
    } else {
        0
    };
    let ghost true_shift = e + 3 - f.len();
    proof {
        if e_mag as int != e_val {
            lemma_far_shifts(ds@, true_shift, shift as int);
        } else {
            assert(true_shift == shift);
        }
    }
    let m = held_scaled(&ds, shift);
    Some(m)
}

/// The value in millidegrees of the number in `v[a..b]`, held within
/// `-MAX_MILLI..=MAX_MILLI`; `None` where `v[a..b]` is no such number.
fn decimal_in(v: &Vec<char>, a: usize, b: usize) -> (r: Option<i64>)
    requires
        a <= b <= v@.len(),
    ensures
        match decimal_milli(v@.subrange(a as int, b as int)) {
            Some(m) => r == Some(held(m) as i64),
            None => r is None,
        },
{
    let ghost s = v@.subrange(a as int, b as int);
    let mut p: usize = a;
    let mut neg = false;
    if a < b && (v[a] == '+' || v[a] == '-') {
        neg = v[a] == '-';
        p = a + 1;
    }
    let ghost u = v@.subrange(p as int, b as int);
    assert(unsigned_part(s) =~= u);
    assert(neg == is_negative(s));
    if is_inf_word_in(v, p, b) {
        return if neg {
            Some(-MAX_MILLI)
        } else {
            Some(MAX_MILLI)
        };
    }
    match number_in(v, p, b) {
        None => None,
        Some(m) => if neg {
            Some(-m)
        } else {
            Some(m)
        },
    }
}

/// The reading in millidegrees that the tool's text output gives: the number
/// after the last `=` and before the next `'`, or 0 where none is found there.
pub fn parse_temp_text(text: &str) -> (r: i64)
    ensures
        r == reading_of(text@),
{
    let v = chars_of(text);
    let start = last_field_start(&v);
    let end = find_from(&v, start, v.len(), '\'');
    assert(last_field(v@) =~= v@.subrange(start as int, v@.len() as int));
    assert(first_field(last_field(v@)) =~= v@.subrange(start as int, end as int));
    let (lo, hi) = trim_bounds(&v, start, end);
    match decimal_in(&v, lo, hi) {
        Some(m) => m,
        None => 0,
    }
}

/// The text that `bytes` decode to as UTF-8, each invalid sequence replaced
/// by U+FFFD.
pub uninterp spec fn lossy_utf8(b: Seq<u8>) -> Seq<char>;

/// Relies on `String::from_utf8_lossy`: it decodes the bytes as UTF-8,
/// replacing each invalid sequence, and decodes valid UTF-8 unchanged.
#[verifier::external_body]
fn decode_lossy(bytes: &[u8]) -> (r: String)
    ensures
        r@ == lossy_utf8(bytes@),
        valid_utf8(bytes@) ==> r@ == decode_utf8(bytes@),
{
    String::from_utf8_lossy(bytes).into_owned()
}

/// The reading in millidegrees that the tool's raw standard output gives,
/// decoded as lossy UTF-8.
pub fn parse_temp_output(stdout: &[u8]) -> (r: i64)
    ensures
        r == reading_of(lossy_utf8(stdout@)),
        valid_utf8(stdout@) ==> r == reading_of(decode_utf8(stdout@)),
{
    let text = decode_lossy(stdout);
    parse_temp_text(text.as_str())
}

} // verus!
