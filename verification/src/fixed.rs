//! Fixed-point decimal values.
//!
//! Sensor readings are decimal numbers (temperatures, fan speeds,
//! percentages). The library represents them exactly as integers scaled
//! by one million, so every transformation on them can be specified and
//! verified over integer arithmetic.

use crate::strutil::{append_chars, push_char};
use vstd::arithmetic::div_mod::{lemma_fundamental_div_mod, lemma_mod_pos_bound};
use vstd::prelude::*;

verus! {

/// Number of fixed-point units per whole unit: values carry six decimal
/// places.
pub const SCALE: i64 = 1_000_000;

/// Largest magnitude a reading may take, in fixed-point units
/// (one billion whole units).
pub const MAX_RAW: i64 = 1_000_000_000_000_000;

/// A decimal reading, stored as `raw` millionths of a unit.
#[derive(Clone, Copy, Debug, PartialEq, Eq, Structural)]
pub struct Fixed {
    pub raw: i64,
}

/// A reading is kept within a symmetric range so that the products taken
/// while range-mapping always fit in 128-bit intermediates.
pub open spec fn fixed_wf(f: Fixed) -> bool {
    -MAX_RAW <= f.raw <= MAX_RAW
}

impl Fixed {
    /// The reading worth `v` whole units.
    pub fn from_int(v: i64) -> (r: Fixed)
        requires
            -1_000_000_000 <= v <= 1_000_000_000,
        ensures
            r.raw == v * SCALE,
            fixed_wf(r),
    {
        Fixed { raw: v * SCALE }
    }

    /// The reading with exactly `raw` millionths of a unit.
    pub fn from_raw(raw: i64) -> (r: Fixed)
        requires
            -MAX_RAW <= raw <= MAX_RAW,
        ensures
            r.raw == raw,
            fixed_wf(r),
    {
        Fixed { raw }
    }

    /// The stored count of millionths.
    pub fn raw(&self) -> (r: i64)
        ensures
            r == self.raw,
    {
        self.raw
    }
}

/// The magnitude of `x`.
pub open spec fn iabs(x: int) -> int {
    if x < 0 {
        -x
    } else {
        x
    }
}

/// Whether `c` is a decimal digit.
pub open spec fn is_digit(c: char) -> bool {
    '0' <= c && c <= '9'
}

/// The numeric value of the digit `c`.
pub open spec fn digit_val(c: char) -> int {
    c as u32 - '0' as u32
}

/// The digit character worth `d`.
pub open spec fn digit_char(d: int) -> char {
    if d == 0 {
        '0'
    } else if d == 1 {
        '1'
    } else if d == 2 {
        '2'
    } else if d == 3 {
        '3'
    } else if d == 4 {
        '4'
    } else if d == 5 {
        '5'
    } else if d == 6 {
        '6'
    } else if d == 7 {
        '7'
    } else if d == 8 {
        '8'
    } else {
        '9'
    }
}

/// Ten to the power `k`.
pub open spec fn pow10(k: nat) -> nat
    decreases k,
{
    if k == 0 {
        1
    } else {
        10 * pow10((k - 1) as nat)
    }
}

/// The shortest decimal numeral of `n`.
pub open spec fn dec_rep(n: nat) -> Seq<char>
    decreases n,
{
    if n < 10 {
        seq![digit_char(n as int)]
    } else {
        dec_rep(n / 10).push(digit_char((n % 10) as int))
    }
}

/// The `w` low decimal digits of `n`, zero-padded to width `w`.
pub open spec fn dec_pad(n: nat, w: nat) -> Seq<char>
    decreases w,
{
    if w == 0 {
        Seq::empty()
    } else {
        dec_pad(n / 10, (w - 1) as nat).push(digit_char((n % 10) as int))
    }
}

/// `s` without its trailing zero digits.
pub open spec fn trim_zeros(s: Seq<char>) -> Seq<char>
    decreases s.len(),
{
    if s.len() > 0 && s.last() == '0' {
        trim_zeros(s.drop_last())
    } else {
        s
    }
}

/// The numeric value of a digit string, most significant first.
pub open spec fn digits_val(s: Seq<char>) -> int
    decreases s.len(),
{
    if s.len() == 0 {
        0
    } else {
        digits_val(s.drop_last()) * 10 + digit_val(s.last())
    }
}

/// Whether every character of `s` is a decimal digit.
pub open spec fn all_digits(s: Seq<char>) -> bool {
    forall|i: int| 0 <= i < s.len() ==> is_digit(#[trigger] s[i])
}

/// The natural (shortest) decimal rendering of a reading of `raw`
/// millionths: no decimal point when the fraction is zero, and no
/// trailing zeros otherwise.
pub open spec fn format_natural_spec(raw: int) -> Seq<char> {
    let mag = iabs(raw);
    let ip = (mag / 1_000_000) as nat;
    let fp = (mag % 1_000_000) as nat;
    let head = if raw < 0 {
        seq!['-'] + dec_rep(ip)
    } else {
        dec_rep(ip)
    };
    if fp == 0 {
        head
    } else {
        head + seq!['.'] + trim_zeros(dec_pad(fp, 6))
    }
}

/// The magnitude `mag`, in millionths, rounded to `n` decimal places:
/// to the nearest multiple of the corresponding step, halves away from
/// zero. Beyond six places there is nothing to drop.
pub open spec fn round_mag_spec(mag: int, n: nat) -> int {
    if n >= 6 {
        mag
    } else {
        let step = pow10((6 - n) as nat) as int;
        (mag + step / 2) / step * step
    }
}

/// A reading of `raw` millionths rounded to `n` decimal places.
pub open spec fn round_to_spec(raw: int, n: nat) -> int {
    if raw < 0 {
        -round_mag_spec(iabs(raw), n)
    } else {
        round_mag_spec(raw, n)
    }
}

/// The decimal rendering of `raw` millionths rounded to exactly `n`
/// decimal places, zero-padded on the right.
pub open spec fn format_rounded_spec(raw: int, n: nat) -> Seq<char> {
    let q = round_mag_spec(iabs(raw), n);
    let ip = (q / 1_000_000) as nat;
    let fp = (q % 1_000_000) as nat;
    let head = if raw < 0 {
        seq!['-'] + dec_rep(ip)
    } else {
        dec_rep(ip)
    };
    if n == 0 {
        head
    } else if n <= 6 {
        head + seq!['.'] + dec_pad(fp / pow10((6 - n) as nat), n)
    } else {
        head + seq!['.'] + dec_pad(fp, 6) + Seq::new((n - 6) as nat, |i: int| '0')
    }
}

/// How a reading is shown: rounded to a fixed number of decimals when
/// one is configured, else in its natural shortest form.
pub open spec fn format_value_spec(raw: int, round: Option<u8>) -> Seq<char> {
    match round {
        None => format_natural_spec(raw),
        Some(n) => format_rounded_spec(raw, n as nat),
    }
}

/// The longest digit-only prefix of `t`.
pub open spec fn digit_prefix(t: Seq<char>) -> Seq<char>
    decreases t.len(),
{
    if t.len() == 0 || !is_digit(t[0]) {
        Seq::empty()
    } else {
        seq![t[0]] + digit_prefix(t.skip(1))
    }
}

/// `k` zero digits.
pub open spec fn zeros(k: nat) -> Seq<char> {
    Seq::new(k, |i: int| '0')
}

/// The value, in millionths, of a fraction digit string: its first six
/// digits, zero-padded on the right to six places. Digits beyond the
/// sixth place are dropped.
pub open spec fn frac_raw(f: Seq<char>) -> int {
    if f.len() >= 6 {
        digits_val(f.take(6))
    } else {
        digits_val(f + zeros((6 - f.len()) as nat))
    }
}

/// Length of a leading sign, if any.
pub open spec fn spec_sign_len(s: Seq<char>) -> int {
    if s.len() > 0 && (s[0] == '-' || s[0] == '+') {
        1
    } else {
        0
    }
}

/// Whether `s` carries a leading minus sign.
pub open spec fn spec_neg(s: Seq<char>) -> bool {
    s.len() > 0 && s[0] == '-'
}

/// What a text means as a reading: an optional sign, digits, and an
/// optional point followed by digits, with at least one digit in all.
/// `None` when the text has any other shape or the value lies outside
/// the representable range. Fraction digits beyond the sixth are
/// dropped.
pub open spec fn parse_decimal_spec(s: Seq<char>) -> Option<int> {
    let t = s.skip(spec_sign_len(s));
    let ip = digit_prefix(t);
    let rest = t.skip(ip.len() as int);
    let shape_ok = if rest.len() == 0 {
        ip.len() > 0
    } else {
        rest[0] == '.' && all_digits(rest.skip(1)) && ip.len() + rest.len() > 1
    };
    if !shape_ok {
        None
    } else {
        let frac = if rest.len() == 0 {
            Seq::<char>::empty()
        } else {
            rest.skip(1)
        };
        let mag = digits_val(ip) * 1_000_000 + frac_raw(frac);
        if mag > MAX_RAW as int {
            None
        } else if spec_neg(s) {
            Some(-mag)
        } else {
            Some(mag)
        }
    }
}

proof fn lemma_pow10_pos(k: nat)
    ensures
        pow10(k) >= 1,
    decreases k,
{
    if k > 0 {
        lemma_pow10_pos((k - 1) as nat);
    }
}

proof fn lemma_pow10_adds(a: nat, b: nat)
    ensures
        pow10(a + b) == pow10(a) * pow10(b),
    decreases a,
{
    if a == 0 {
        assert(pow10(b) == 1 * pow10(b));
    } else {
        lemma_pow10_adds((a - 1) as nat, b);
        assert((a + b - 1) as nat == (a - 1) as nat + b);
        assert(pow10(a + b) == 10 * pow10((a - 1) as nat + b));
        assert(10 * (pow10((a - 1) as nat) * pow10(b)) == (10 * pow10((a - 1) as nat)) * pow10(b))
            by (nonlinear_arith);
    }
}

proof fn lemma_pow10_mono(a: nat, b: nat)
    requires
        a <= b,
    ensures
        pow10(a) <= pow10(b),
    decreases b,
{
    if a < b {
        lemma_pow10_mono(a, (b - 1) as nat);
        lemma_pow10_pos((b - 1) as nat);
    }
}

pub(crate) proof fn lemma_digits_val_nonneg(s: Seq<char>)
    requires
        all_digits(s),
    ensures
        digits_val(s) >= 0,
    decreases s.len(),
{
    if s.len() > 0 {
        assert(all_digits(s.drop_last()));
        lemma_digits_val_nonneg(s.drop_last());
    }
}

proof fn lemma_digits_val_bound(s: Seq<char>)
    requires
        all_digits(s),
    ensures
        0 <= digits_val(s) < pow10(s.len()),
    decreases s.len(),
{
    if s.len() == 0 {
    } else {
        assert(all_digits(s.drop_last()));
        lemma_digits_val_bound(s.drop_last());
        assert(digit_val(s.last()) <= 9);
        assert(pow10(s.len()) == 10 * pow10((s.len() - 1) as nat));
    }
}

pub(crate) proof fn lemma_digits_val_push(s: Seq<char>, c: char)
    ensures
        digits_val(s.push(c)) == digits_val(s) * 10 + digit_val(c),
{
    assert(s.push(c).drop_last() =~= s);
    assert(s.push(c).last() == c);
}

pub(crate) proof fn lemma_digits_val_prefix(s: Seq<char>, k: int)
    requires
        all_digits(s),
        0 <= k <= s.len(),
    ensures
        digits_val(s.take(k)) <= digits_val(s),
    decreases s.len() - k,
{
    if k == s.len() {
        assert(s.take(k) =~= s);
    } else {
        assert(s.take(k + 1) =~= s.take(k).push(s[k]));
        lemma_digits_val_push(s.take(k), s[k]);
        assert(all_digits(s.take(k)));
        lemma_digits_val_nonneg(s.take(k));
        assert(digits_val(s.take(k)) <= digits_val(s.take(k + 1)));
        lemma_digits_val_prefix(s, k + 1);
    }
}

proof fn lemma_digits_val_append_zeros(u: Seq<char>, k: nat)
    ensures
        digits_val(u + zeros(k)) == digits_val(u) * pow10(k),
    decreases k,
{
    if k == 0 {
        assert(u + zeros(0) =~= u);
        assert(pow10(0) == 1);
        assert(digits_val(u) * (pow10(0) as int) == digits_val(u));
    } else {
        let w = u + zeros((k - 1) as nat);
        assert(u + zeros(k) =~= w.push('0'));
        lemma_digits_val_push(w, '0');
        lemma_digits_val_append_zeros(u, (k - 1) as nat);
        assert(digit_val('0') == 0);
        assert(digits_val(u + zeros(k)) == digits_val(w) * 10);
        let a = digits_val(u);
        let b = pow10((k - 1) as nat) as int;
        assert((a * b) * 10 == a * (10 * b)) by (nonlinear_arith);
        assert(digits_val(u + zeros(k)) == a * (10 * b));
        assert(pow10(k) as int == 10 * b);
        assert(digits_val(u + zeros(k)) == digits_val(u) * (pow10(k) as int));
    }
}

proof fn lemma_digit_prefix_exact(t: Seq<char>, k: int)
    requires
        0 <= k <= t.len(),
        forall|j: int| 0 <= j < k ==> is_digit(#[trigger] t[j]),
        k == t.len() || !is_digit(t[k]),
    ensures
        digit_prefix(t) == t.take(k),
    decreases k,
{
    if k == 0 {
        assert(t.take(0) =~= Seq::<char>::empty());
    } else {
        assert(is_digit(t[0]));
        lemma_digit_prefix_exact(t.skip(1), k - 1);
        assert(seq![t[0]] + t.skip(1).take(k - 1) =~= t.take(k));
    }
}

proof fn lemma_digit_prefix_min(t: Seq<char>, k: int)
    requires
        0 <= k <= t.len(),
        forall|j: int| 0 <= j < k ==> is_digit(#[trigger] t[j]),
    ensures
        k <= digit_prefix(t).len() <= t.len(),
        digit_prefix(t) == t.take(digit_prefix(t).len() as int),
        all_digits(digit_prefix(t)),
    decreases t.len(),
{
    if t.len() == 0 || !is_digit(t[0]) {
        assert(t.take(0) =~= Seq::<char>::empty());
    } else {
        lemma_digit_prefix_min(t.skip(1), if k > 0 {
            k - 1
        } else {
            0
        });
        let p = digit_prefix(t.skip(1));
        assert(p == t.skip(1).take(p.len() as int));
        assert(forall|j: int| 0 <= j < p.len() ==> p[j] == #[trigger] t.skip(1)[j]);
        assert(forall|j: int| 0 <= j < p.len() ==> #[trigger] t.skip(1)[j] == t[j + 1]);
        assert(seq![t[0]] + p =~= t.take(p.len() as int + 1));
        assert(all_digits(seq![t[0]] + p)) by {
            assert(forall|j: int|
                0 <= j < (seq![t[0]] + p).len() ==> is_digit(#[trigger] (seq![t[0]] + p)[j])) by {
                assert(forall|j: int| 0 <= j < p.len() ==> is_digit(#[trigger] p[j]));
                assert((seq![t[0]] + p)[0] == t[0]);
                assert(forall|j: int| 1 <= j < (seq![t[0]] + p).len() ==> (seq![t[0]] + p)[j]
                    == #[trigger] p[j - 1]);
            }
        }
    }
}

/// Justifies giving up as soon as the integer digits outgrow the
/// representable range: whatever follows, the text parses to nothing.
proof fn lemma_parse_overflow(s: Seq<char>, k: int)
    requires
        0 <= k,
        k + spec_sign_len(s) <= s.len(),
        forall|j: int| 0 <= j < k ==> is_digit(#[trigger] s.skip(spec_sign_len(s))[j]),
        digits_val(s.skip(spec_sign_len(s)).take(k)) > 1_000_000_000,
    ensures
        parse_decimal_spec(s) is None,
{
    let t = s.skip(spec_sign_len(s));
    let ip = digit_prefix(t);
    lemma_digit_prefix_min(t, k);
    lemma_digits_val_prefix(ip, k);
    assert(ip == t.take(ip.len() as int));
    assert(forall|j: int| 0 <= j < ip.len() ==> ip[j] == #[trigger] t.take(ip.len() as int)[j]);
    assert(ip.take(k) =~= t.take(k));
    let rest = t.skip(ip.len() as int);
    if rest.len() == 0 || (rest[0] == '.' && all_digits(rest.skip(1)) && ip.len() + rest.len()
        > 1) {
        let frac = if rest.len() == 0 {
            Seq::<char>::empty()
        } else {
            rest.skip(1)
        };
        assert(digits_val(ip) >= 1_000_000_001);
        assert(frac_raw(frac) >= 0) by {
            if frac.len() >= 6 {
                assert(all_digits(frac.take(6)));
                lemma_digits_val_nonneg(frac.take(6));
            } else {
                assert(all_digits(frac + zeros((6 - frac.len()) as nat)));
                lemma_digits_val_nonneg(frac + zeros((6 - frac.len()) as nat));
            }
        }
        assert(digits_val(ip) * 1_000_000 >= 1_000_000_001 * 1_000_000) by (nonlinear_arith)
            requires
                digits_val(ip) >= 1_000_000_001,
        ;
    }
}

/// The digit character worth `d`.
pub fn digit_ch(d: u64) -> (r: char)
    requires
        d < 10,
    ensures
        r == digit_char(d as int),
{
    if d == 0 {
        '0'
    } else if d == 1 {
        '1'
    } else if d == 2 {
        '2'
    } else if d == 3 {
        '3'
    } else if d == 4 {
        '4'
    } else if d == 5 {
        '5'
    } else if d == 6 {
        '6'
    } else if d == 7 {
        '7'
    } else if d == 8 {
        '8'
    } else {
        '9'
    }
}

/// Ten to the power `k`, for the small exponents the formatter needs.
pub fn pow10_u64(k: u8) -> (r: u64)
    requires
        k <= 6,
    ensures
        r as nat == pow10(k as nat),
        r >= 1,
{
    proof {
        assert(pow10(0) == 1);
        assert(pow10(1) == 10);
        assert(pow10(2) == 100);
        assert(pow10(3) == 1000);
        assert(pow10(4) == 10000);
        assert(pow10(5) == 100000);
        assert(pow10(6) == 1000000);
    }
    if k == 0 {
        1
    } else if k == 1 {
        10
    } else if k == 2 {
        100
    } else if k == 3 {
        1_000
    } else if k == 4 {
        10_000
    } else if k == 5 {
        100_000
    } else {
        1_000_000
    }
}

/// Appends the shortest decimal numeral of `n` to `out`.
pub fn push_dec_rep(n: u64, out: &mut Vec<char>)
    ensures
        final(out)@ == old(out)@ + dec_rep(n as nat),
    decreases n,
{
    if n < 10 {
        out.push(digit_ch(n));
        proof {
            assert(old(out)@ + dec_rep(n as nat) =~= old(out)@.push(digit_char(n as int)));
        }
    } else {
        push_dec_rep(n / 10, out);
        out.push(digit_ch(n % 10));
        proof {
            assert(old(out)@ + dec_rep(n as nat) =~= (old(out)@ + dec_rep((n / 10) as nat)).push(
                digit_char((n % 10) as int),
            ));
        }
    }
}

/// Appends the `w` low decimal digits of `n`, zero-padded, to `out`.
pub fn push_dec_pad(n: u64, w: u8, out: &mut Vec<char>)
    ensures
        final(out)@ == old(out)@ + dec_pad(n as nat, w as nat),
    decreases w,
{
    if w == 0 {
        proof {
            assert(old(out)@ + dec_pad(n as nat, 0) =~= old(out)@);
        }
    } else {
        push_dec_pad(n / 10, w - 1, out);
        out.push(digit_ch(n % 10));
        proof {
            assert(old(out)@ + dec_pad(n as nat, w as nat) =~= (old(out)@ + dec_pad(
                (n / 10) as nat,
                (w - 1) as nat,
            )).push(digit_char((n % 10) as int)));
        }
    }
}

proof fn lemma_dec_rep_digits(n: nat)
    ensures
        all_digits(dec_rep(n)),
        dec_rep(n).len() >= 1,
        digits_val(dec_rep(n)) == n,
    decreases n,
{
    if n < 10 {
        let c = digit_char(n as int);
        assert(is_digit(c));
        assert(digit_val(c) == n);
        assert(dec_rep(n) == seq![c]);
        assert(seq![c].drop_last() =~= Seq::<char>::empty());
        assert(digits_val(Seq::<char>::empty()) == 0);
        assert(digits_val(seq![c]) == digit_val(c));
        assert(forall|j: int| 0 <= j < seq![c].len() ==> is_digit(#[trigger] seq![c][j])) by {
            assert(seq![c][0] == c);
        }
    } else {
        lemma_dec_rep_digits(n / 10);
        let p = dec_rep(n / 10);
        let c = digit_char((n % 10) as int);
        lemma_digits_val_push(p, c);
        assert(is_digit(c));
        assert(digit_val(c) == n % 10);
        lemma_fundamental_div_mod(n as int, 10);
        assert(dec_rep(n) == p.push(c));
        assert(digits_val(dec_rep(n)) == digits_val(p) * 10 + digit_val(c));
        assert(forall|j: int| 0 <= j < p.push(c).len() ==> is_digit(#[trigger] p.push(c)[j]))
            by {
            assert(forall|j: int| 0 <= j < p.len() ==> p.push(c)[j] == #[trigger] p[j]);
            assert(p.push(c)[p.len() as int] == c);
        }
    }
}

proof fn lemma_dec_pad_digits(n: nat, w: nat)
    ensures
        all_digits(dec_pad(n, w)),
        dec_pad(n, w).len() == w,
        digits_val(dec_pad(n, w)) == n % pow10(w),
    decreases w,
{
    lemma_pow10_pos(w);
    if w == 0 {
        lemma_mod_pos_bound(n as int, 1);
    } else {
        lemma_dec_pad_digits(n / 10, (w - 1) as nat);
        let p = dec_pad(n / 10, (w - 1) as nat);
        let c = digit_char((n % 10) as int);
        lemma_digits_val_push(p, c);
        assert(is_digit(c));
        assert(digit_val(c) == n % 10);
        lemma_pow10_pos((w - 1) as nat);
        vstd::arithmetic::div_mod::lemma_mod_breakdown(
            n as int,
            10,
            pow10((w - 1) as nat) as int,
        );
        assert(pow10(w) == 10 * pow10((w - 1) as nat));
        assert(forall|j: int| 0 <= j < p.push(c).len() ==> is_digit(#[trigger] p.push(c)[j]));
    }
}

proof fn lemma_trim_zeros_restores(x: Seq<char>)
    ensures
        trim_zeros(x).len() <= x.len(),
        trim_zeros(x) + zeros((x.len() - trim_zeros(x).len()) as nat) == x,
    decreases x.len(),
{
    if x.len() > 0 && x.last() == '0' {
        lemma_trim_zeros_restores(x.drop_last());
        let t = trim_zeros(x.drop_last());
        let k = (x.drop_last().len() - t.len()) as nat;
        assert(t + zeros((x.len() - t.len()) as nat) =~= (t + zeros(k)).push('0'));
        assert((t + zeros(k)).push('0') =~= x.drop_last().push(x.last()));
        assert(x.drop_last().push(x.last()) =~= x);
    } else {
        assert(x + zeros(0) =~= x);
    }
}

proof fn lemma_round_mag_idem(mag: int, n: nat)
    requires
        mag >= 0,
        n < 6,
    ensures
        round_mag_spec(round_mag_spec(mag, n), n) == round_mag_spec(mag, n),
{
    let step = pow10((6 - n) as nat) as int;
    lemma_pow10_pos((6 - n) as nat);
    let h = step / 2;
    lemma_fundamental_div_mod(step, 2);
    lemma_mod_pos_bound(step, 2);
    assert(0 <= h < step);
    let m = (mag + h) / step;
    vstd::arithmetic::div_mod::lemma_div_pos_is_pos(mag + h, step);
    let q1 = m * step;
    assert(q1 >= 0) by (nonlinear_arith)
        requires
            q1 == m * step,
            m >= 0,
            step > 0,
    ;
    vstd::arithmetic::div_mod::lemma_div_multiples_vanish_fancy(m, h, step);
    assert(step * m == m * step) by (nonlinear_arith);
    assert((q1 + h) / step == m);
    assert(round_mag_spec(q1, n) == q1);
}

/// The parser reads back exactly what the natural formatter wrote:
/// rendering any representable reading and parsing the text again
/// yields the same reading.
pub proof fn lemma_parse_format_round_trip(f: Fixed)
    requires
        fixed_wf(f),
    ensures
        parse_decimal_spec(format_natural_spec(f.raw as int)) == Some(f.raw as int),
{
    let raw = f.raw as int;
    let mag = iabs(raw);
    lemma_fundamental_div_mod(mag, 1_000_000);
    lemma_mod_pos_bound(mag, 1_000_000);
    let ip = (mag / 1_000_000) as nat;
    let fp = (mag % 1_000_000) as nat;
    lemma_dec_rep_digits(ip);
    let rep = dec_rep(ip);
    let s = format_natural_spec(raw);
    let rest: Seq<char> = if fp == 0 {
        Seq::empty()
    } else {
        seq!['.'] + trim_zeros(dec_pad(fp, 6))
    };
    let core = rep + rest;
    if raw < 0 {
        assert(s =~= seq!['-'] + core);
        assert(s[0] == '-');
        assert(spec_sign_len(s) == 1);
        assert(s.skip(1) =~= core);
    } else {
        assert(s =~= core);
        assert(s[0] == rep[0]);
        assert(is_digit(rep[0]));
        assert(s[0] != '-' && s[0] != '+');
        assert(spec_sign_len(s) == 0);
        assert(s.skip(0) =~= core);
    }
    assert(spec_neg(s) == (raw < 0));
    let t = s.skip(spec_sign_len(s));
    assert(t == core);
    assert(forall|j: int| 0 <= j < rep.len() ==> is_digit(#[trigger] t[j])) by {
        assert(forall|j: int| 0 <= j < rep.len() ==> t[j] == rep[j]);
    }
    assert(digits_val(Seq::<char>::empty()) == 0);
    if fp == 0 {
        assert(t =~= rep);
        lemma_digit_prefix_exact(t, rep.len() as int);
        assert(t.take(rep.len() as int) =~= rep);
        let restx = t.skip(digit_prefix(t).len() as int);
        assert(restx =~= Seq::<char>::empty());
        assert(frac_raw(Seq::<char>::empty()) == 0) by {
            lemma_digits_val_append_zeros(Seq::<char>::empty(), 6);
            assert(Seq::<char>::empty() + zeros(6) =~= zeros(6));
        }
        assert(digits_val(rep) * 1_000_000 + 0 == mag);
    } else {
        let padded = dec_pad(fp, 6);
        lemma_dec_pad_digits(fp, 6);
        assert(pow10(0) == 1);
        assert(pow10(1) == 10);
        assert(pow10(2) == 100);
        assert(pow10(3) == 1000);
        assert(pow10(4) == 10000);
        assert(pow10(5) == 100000);
        assert(pow10(6) == 1000000);
        lemma_mod_pos_bound(fp as int, 1_000_000);
        vstd::arithmetic::div_mod::lemma_small_mod(fp, 1_000_000);
        assert(digits_val(padded) == fp);
        let tz = trim_zeros(padded);
        lemma_trim_zeros_restores(padded);
        let k = (padded.len() - tz.len()) as nat;
        assert(tz + zeros(k) == padded);
        assert forall|j: int| 0 <= j < tz.len() implies is_digit(#[trigger] tz[j]) by {
            assert((tz + zeros(k))[j] == tz[j]);
            assert(padded[j] == (tz + zeros(k))[j]);
        }
        assert(all_digits(tz));
        assert(core[rep.len() as int] == rest[0]);
        assert(rest[0] == '.');
        assert(t[rep.len() as int] == '.');
        assert(!is_digit('.'));
        lemma_digit_prefix_exact(t, rep.len() as int);
        assert(t.take(rep.len() as int) =~= rep);
        let restx = t.skip(digit_prefix(t).len() as int);
        assert(restx =~= seq!['.'] + tz);
        assert(restx[0] == '.');
        assert(restx.skip(1) =~= tz);
        assert(frac_raw(tz) == fp) by {
            if tz.len() >= 6 {
                assert(tz.len() == 6);
                assert(tz + zeros(0) =~= tz);
                assert(tz == padded);
                assert(tz.take(6) =~= tz);
            } else {
                assert(k == (6 - tz.len()) as nat);
            }
        }
        assert(digits_val(rep) * 1_000_000 + fp == mag);
    }
    assert(mag <= MAX_RAW as int);
    if raw < 0 {
        assert(-mag == raw);
    } else {
        assert(mag == raw);
    }
}

/// Rounding a reading to `n` decimal places is idempotent: a reading
/// already rounded to `n` places rounds to itself.
pub proof fn lemma_round_idempotent(raw: int, n: nat)
    ensures
        round_to_spec(round_to_spec(raw, n), n) == round_to_spec(raw, n),
{
    if n >= 6 {
    } else {
        let step = pow10((6 - n) as nat) as int;
        lemma_pow10_pos((6 - n) as nat);
        if raw >= 0 {
            lemma_round_mag_idem(raw, n);
            let q1 = round_mag_spec(raw, n);
            let h = step / 2;
            let m = (raw + h) / step;
            vstd::arithmetic::div_mod::lemma_div_pos_is_pos(raw + h, step);
            lemma_fundamental_div_mod(step, 2);
            lemma_mod_pos_bound(step, 2);
            assert(q1 == m * step);
            assert(q1 >= 0) by (nonlinear_arith)
                requires
                    q1 == m * step,
                    m >= 0,
                    step > 0,
            ;
        } else {
            let mag = iabs(raw);
            lemma_round_mag_idem(mag, n);
            let q1 = round_mag_spec(mag, n);
            let h = step / 2;
            let m = (mag + h) / step;
            vstd::arithmetic::div_mod::lemma_div_pos_is_pos(mag + h, step);
            lemma_fundamental_div_mod(step, 2);
            lemma_mod_pos_bound(step, 2);
            assert(q1 == m * step);
            assert(q1 >= 0) by (nonlinear_arith)
                requires
                    q1 == m * step,
                    m >= 0,
                    step > 0,
            ;
            if q1 == 0 {
                assert(round_to_spec(raw, n) == 0);
                assert(round_mag_spec(0, n) == 0) by {
                    assert((0 + h) / step == 0) by {
                        vstd::arithmetic::div_mod::lemma_basic_div(h, step);
                    }
                    assert(0 * step == 0);
                }
            } else {
                assert(round_to_spec(raw, n) == -q1);
                assert(iabs(-q1) == q1);
                assert(round_to_spec(-q1, n) == -round_mag_spec(q1, n));
            }
        }
    }
}

/// Whether `c` is a decimal digit.
pub fn is_digit_ch(c: char) -> (r: bool)
    ensures
        r == is_digit(c),
{
    '0' <= c && c <= '9'
}

/// The numeric value of the digit `c`.
pub fn digit_value(c: char) -> (r: u64)
    requires
        is_digit(c),
    ensures
        r == digit_val(c),
        r < 10,
{
    (c as u32 - '0' as u32) as u64
}

/// Reads a decimal text as a reading: an optional sign, digits, and an
/// optional point followed by digits. `None` when the text has any
/// other shape or the value does not fit the representable range;
/// fraction digits beyond the sixth place are dropped.
#[verifier::rlimit(60)]
pub fn parse_decimal(s: &str) -> (r: Option<Fixed>)
    ensures
        match r {
            Some(f) => parse_decimal_spec(s@) == Some(f.raw as int) && fixed_wf(f),
            None => parse_decimal_spec(s@) is None,
        },
{
    let n = s.unicode_len();
    let mut i: usize = 0;
    let mut neg = false;
    if n > 0 {
        let c0 = s.get_char(0);
        if c0 == '-' {
            neg = true;
            i = 1;
        } else if c0 == '+' {
            i = 1;
        }
    }
    let ghost start = i as int;
    let ghost t = s@.skip(start);
    proof {
        assert(start == spec_sign_len(s@));
        assert(neg == spec_neg(s@));
    }
    let mut acc: u64 = 0;
    let mut ip_len: usize = 0;
    while i < n && is_digit_ch(s.get_char(i))
        invariant
            n == s@.len(),
            0 <= start <= i as int <= n,
            start == spec_sign_len(s@),
            neg == spec_neg(s@),
            t == s@.skip(start),
            ip_len as int == i as int - start,
            forall|j: int| 0 <= j < ip_len as int ==> is_digit(#[trigger] t[j]),
            acc == digits_val(t.take(ip_len as int)),
            acc <= 1_000_000_000,
        decreases n - i,
    {
        let c = s.get_char(i);
        let d = digit_value(c);
        proof {
            lemma_digits_val_push(t.take(ip_len as int), c);
            assert(t.take(ip_len as int).push(c) =~= t.take(ip_len as int + 1));
        }
        acc = acc * 10 + d;
        i = i + 1;
        ip_len = ip_len + 1;
        if acc > 1_000_000_000 {
            proof {
                lemma_parse_overflow(s@, ip_len as int);
            }
            return None;
        }
    }
    proof {
        lemma_digit_prefix_exact(t, ip_len as int);
        assert(digit_prefix(t) == t.take(ip_len as int));
        assert(all_digits(t.take(ip_len as int)));
        lemma_digits_val_nonneg(t.take(ip_len as int));
    }
    let ghost ip = digit_prefix(t);
    let ghost rest = t.skip(ip.len() as int);
    if i == n {
        // no fraction
        proof {
            assert(rest =~= Seq::<char>::empty());
        }
        if ip_len == 0 {
            return None;
        }
        let mag: u64 = acc * 1_000_000;
        proof {
            assert(frac_raw(Seq::<char>::empty()) == 0) by {
                lemma_digits_val_append_zeros(Seq::<char>::empty(), 6);
                assert(Seq::<char>::empty() + zeros(6) =~= zeros(6));
            }
        }
        if mag > 1_000_000_000_000_000 {
            return None;
        }
        let raw: i64 = if neg {
            -(mag as i64)
        } else {
            mag as i64
        };
        return Some(Fixed { raw });
    }
    let c = s.get_char(i);
    proof {
        assert(rest[0] == t[ip_len as int]);
        assert(t[ip_len as int] == s@[i as int]);
    }
    if c != '.' {
        return None;
    }
    i = i + 1;
    let fstart: usize = i;
    let ghost fracstart = i as int;
    let ghost frac = s@.skip(fracstart);
    proof {
        assert(frac =~= rest.skip(1));
    }
    let mut fr: u64 = 0;
    let mut cnt: u8 = 0;
    while i < n
        invariant
            n == s@.len(),
            0 <= start <= n,
            start == spec_sign_len(s@),
            neg == spec_neg(s@),
            t == s@.skip(start),
            ip == digit_prefix(t),
            ip.len() == ip_len as int,
            acc == digits_val(ip),
            acc <= 1_000_000_000,
            rest == t.skip(ip_len as int),
            rest.len() >= 1,
            rest[0] == '.',
            fracstart == start + ip_len as int + 1,
            fstart as int == fracstart,
            frac == rest.skip(1),
            frac == s@.skip(fracstart),
            frac.len() == n - fracstart,
            fracstart <= i as int <= n,
            forall|j: int| 0 <= j < i as int - fracstart ==> is_digit(#[trigger] frac[j]),
            cnt as int == if i as int - fracstart < 6 {
                i as int - fracstart
            } else {
                6
            },
            fr == digits_val(frac.take(cnt as int)),
            fr < pow10(cnt as nat),
            fr <= 999_999,
        decreases n - i,
    {
        let c2 = s.get_char(i);
        proof {
            assert(s@.skip(fracstart)[i as int - fracstart] == s@[i as int]);
            assert(frac[i as int - fracstart] == c2);
        }
        if !is_digit_ch(c2) {
            proof {
                assert(!is_digit(rest.skip(1)[i as int - fracstart]));
                assert(!all_digits(rest.skip(1)));
            }
            return None;
        }
        if cnt < 6 {
            let d = digit_value(c2);
            proof {
                lemma_digits_val_push(frac.take(cnt as int), c2);
                assert(frac.take(cnt as int).push(frac[cnt as int]) =~= frac.take(cnt as int + 1));
                assert(frac[cnt as int] == c2);
                assert(pow10((cnt + 1) as nat) == 10 * pow10(cnt as nat));
                lemma_pow10_mono((cnt + 1) as nat, 6);
                assert(pow10(6) == 1000000) by {
                    assert(pow10(0) == 1);
                    assert(pow10(1) == 10);
                    assert(pow10(2) == 100);
                    assert(pow10(3) == 1000);
                    assert(pow10(4) == 10000);
                    assert(pow10(5) == 100000);
                }
            }
            fr = fr * 10 + d;
            cnt = cnt + 1;
        }
        i = i + 1;
    }
    // the whole fraction is digits
    proof {
        assert(all_digits(frac));
        assert(all_digits(rest.skip(1)));
    }
    if ip_len == 0 && n == fstart {
        // not a single digit anywhere
        proof {
            assert(ip.len() + rest.len() == 1);
        }
        return None;
    }
    let mult = pow10_u64(6 - cnt);
    proof {
        lemma_pow10_adds(cnt as nat, (6 - cnt) as nat);
        assert(pow10(0) == 1);
        assert(pow10(1) == 10);
        assert(pow10(2) == 100);
        assert(pow10(3) == 1000);
        assert(pow10(4) == 10000);
        assert(pow10(5) == 100000);
        assert(pow10(6) == 1000000);
        assert(fr * mult < pow10(cnt as nat) * pow10((6 - cnt) as nat)) by (nonlinear_arith)
            requires
                fr < pow10(cnt as nat),
                mult == pow10((6 - cnt) as nat),
                mult >= 1,
        ;
        assert(fr * mult < 1_000_000);
    }
    let fr6: u64 = fr * mult;
    proof {
        assert(fr6 < 1_000_000);
        assert(fr6 as int == frac_raw(frac)) by {
            if frac.len() >= 6 {
                assert(cnt == 6);
                assert(mult == 1);
                assert(frac_raw(frac) == digits_val(frac.take(6)));
            } else {
                assert(cnt as int == frac.len());
                assert(frac.take(cnt as int) =~= frac);
                assert(digits_val(frac) == fr as int);
                lemma_digits_val_append_zeros(frac, (6 - frac.len()) as nat);
                assert(frac_raw(frac) == digits_val(frac) * (pow10((6 - frac.len()) as nat)
                    as int));
                assert(mult as int == pow10((6 - frac.len()) as nat) as int);
                assert(fr6 as int == (fr as int) * (mult as int));
            }
        }
    }
    let mag: u64 = acc * 1_000_000 + fr6;
    if mag > 1_000_000_000_000_000 {
        return None;
    }
    let raw: i64 = if neg {
        -(mag as i64)
    } else {
        mag as i64
    };
    Some(Fixed { raw })
}

/// Renders a reading per the configured decimal-place count: fixed
/// places when one is given, natural shortest form otherwise.
pub fn format_fixed(f: Fixed, round: Option<u8>) -> (r: String)
    requires
        fixed_wf(f),
    ensures
        r@ == format_value_spec(f.raw as int, round),
{
    match round {
        None => format_fixed_natural(f),
        Some(n) => format_fixed_rounded(f, n),
    }
}

/// Renders a reading in its natural shortest decimal form.
fn format_fixed_natural(f: Fixed) -> (r: String)
    requires
        fixed_wf(f),
    ensures
        r@ == format_natural_spec(f.raw as int),
{
    let mag: u64 = if f.raw < 0 {
        (-f.raw) as u64
    } else {
        f.raw as u64
    };
    proof {
        assert(mag as int == iabs(f.raw as int));
    }
    let ip: u64 = mag / 1_000_000;
    let fp: u64 = mag % 1_000_000;
    let mut out = String::new();
    if f.raw < 0 {
        push_char(&mut out, '-');
    }
    let mut digits: Vec<char> = Vec::new();
    push_dec_rep(ip, &mut digits);
    append_chars(&mut out, &digits);
    proof {
        if f.raw < 0 {
            assert(out@ =~= seq!['-'] + dec_rep(ip as nat));
        }
    }
    if fp != 0 {
        push_char(&mut out, '.');
        let mut frac: Vec<char> = Vec::new();
        push_dec_pad(fp, 6, &mut frac);
        while frac.len() > 0 && frac[frac.len() - 1] == '0'
            invariant
                trim_zeros(frac@) == trim_zeros(dec_pad(fp as nat, 6)),
            decreases frac.len(),
        {
            proof {
                assert(frac@.last() == '0');
            }
            frac.pop();
        }
        proof {
            assert(trim_zeros(frac@) == frac@);
        }
        append_chars(&mut out, &frac);
        proof {
            let head = if f.raw < 0 {
                seq!['-'] + dec_rep(ip as nat)
            } else {
                dec_rep(ip as nat)
            };
            assert(out@ =~= head + seq!['.'] + trim_zeros(dec_pad(fp as nat, 6)));
        }
    }
    out
}

/// Renders a reading with exactly `n` decimal places, rounding halves
/// away from zero.
fn format_fixed_rounded(f: Fixed, n: u8) -> (r: String)
    requires
        fixed_wf(f),
    ensures
        r@ == format_rounded_spec(f.raw as int, n as nat),
{
    let mag: u64 = if f.raw < 0 {
        (-f.raw) as u64
    } else {
        f.raw as u64
    };
    proof {
        assert(mag as int == iabs(f.raw as int));
    }
    let q: u64 = if n < 6 {
        let step = pow10_u64(6 - n);
        let shifted = mag + step / 2;
        proof {
            let sh = shifted as int;
            let st = step as int;
            lemma_fundamental_div_mod(sh, st);
            lemma_mod_pos_bound(sh, st);
            assert(sh == st * (sh / st) + sh % st);
            assert(0 <= sh % st);
            assert(st * (sh / st) == (sh / st) * st) by (nonlinear_arith);
            assert((sh / st) * st <= sh);
        }
        (shifted / step) * step
    } else {
        mag
    };
    proof {
        assert(q as int == round_mag_spec(mag as int, n as nat));
    }
    let ip: u64 = q / 1_000_000;
    let fp: u64 = q % 1_000_000;
    let mut out = String::new();
    if f.raw < 0 {
        push_char(&mut out, '-');
    }
    let mut digits: Vec<char> = Vec::new();
    push_dec_rep(ip, &mut digits);
    append_chars(&mut out, &digits);
    proof {
        if f.raw < 0 {
            assert(out@ =~= seq!['-'] + dec_rep(ip as nat));
        }
    }
    let ghost head = out@;
    if n == 0 {
        return out;
    }
    push_char(&mut out, '.');
    let mut frac: Vec<char> = Vec::new();
    if n <= 6 {
        let keep = fp / pow10_u64(6 - n);
        push_dec_pad(keep, n, &mut frac);
        append_chars(&mut out, &frac);
        proof {
            assert(out@ =~= head + seq!['.'] + dec_pad(
                (fp as nat) / pow10((6 - n) as nat),
                n as nat,
            ));
        }
    } else {
        push_dec_pad(fp, 6, &mut frac);
        append_chars(&mut out, &frac);
        let ghost base = out@;
        let mut k: u8 = 6;
        while k < n
            invariant
                6 <= k <= n,
                out@ == base + Seq::new((k - 6) as nat, |i: int| '0'),
            decreases n - k,
        {
            push_char(&mut out, '0');
            k = k + 1;
            proof {
                assert(out@ =~= base + Seq::new((k - 6) as nat, |i: int| '0'));
            }
        }
        proof {
            assert(out@ =~= head + seq!['.'] + dec_pad(fp as nat, 6) + Seq::new(
                (n - 6) as nat,
                |i: int| '0',
            ));
        }
    }
    out
}

} // verus!
