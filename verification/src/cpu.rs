//! Incremental CPU-usage tracking from kernel counter snapshots.
//!
//! The kernel only exposes cumulative tick counters; an instantaneous
//! utilization percentage exists only as the difference between two
//! snapshots. The tracker therefore keeps the previous sample as its
//! baseline and, on every reading, derives the percentage from the
//! deltas and moves the baseline forward. Reading the counter file and
//! querying the core count are the caller's (I/O) part; everything
//! computed from their text is verified here.

use crate::error::{Error, ErrorV};
use crate::fixed::{
    all_digits, digits_val, fixed_wf, lemma_digits_val_nonneg, lemma_digits_val_prefix,
    lemma_digits_val_push, Fixed,
};
use crate::strutil::{split_spec, split_str, str_eq, trim, trim_spec, views_of};
use vstd::prelude::*;

verus! {

/// One snapshot of the kernel's aggregate CPU counters: the sum of all
/// fields, and the idle field.
#[derive(Clone, Copy, Debug, PartialEq, Eq, Structural)]
pub struct CpuCounters {
    /// Sum of every counter field.
    pub total: u64,
    /// The idle field (fourth counter).
    pub idle: u64,
}

/// The numeric value of a whole-number token, when it is one that fits
/// a machine word.
pub fn parse_u64_digits(s: &str) -> (r: Option<u64>)
    ensures
        match r {
            Some(v) => s@.len() > 0 && all_digits(s@) && v as int == digits_val(s@),
            None => s@.len() == 0 || !all_digits(s@) || digits_val(s@) > u64::MAX,
        },
{
    let n = s.unicode_len();
    if n == 0 {
        return None;
    }
    let mut acc: u64 = 0;
    let mut i: usize = 0;
    while i < n
        invariant
            i <= n,
            n == s@.len(),
            forall|j: int| 0 <= j < i ==> crate::fixed::is_digit(#[trigger] s@[j]),
            acc as int == digits_val(s@.take(i as int)),
        decreases n - i,
    {
        let c = s.get_char(i);
        if !crate::fixed::is_digit_ch(c) {
            return None;
        }
        let d = crate::fixed::digit_value(c);
        proof {
            lemma_digits_val_push(s@.take(i as int), c);
            assert(s@.take(i as int).push(c) =~= s@.take(i as int + 1));
        }
        let next: Option<u64> = match acc.checked_mul(10) {
            Some(m) => m.checked_add(d),
            None => None,
        };
        match next {
            Some(v) => {
                acc = v;
            },
            None => {
                proof {
                    assert(digits_val(s@.take(i as int + 1)) > u64::MAX);
                    if all_digits(s@) {
                        lemma_digits_val_prefix(s@, i as int + 1);
                    }
                }
                return None;
            },
        }
        i = i + 1;
    }
    proof {
        assert(s@.take(n as int) =~= s@);
    }
    Some(acc)
}

/// The pieces of `parts` that are not empty, in order.
pub open spec fn nonempty_tokens(parts: Seq<Seq<char>>) -> Seq<Seq<char>>
    decreases parts.len(),
{
    if parts.len() == 0 {
        Seq::empty()
    } else {
        let r = nonempty_tokens(parts.drop_last());
        if parts.last().len() > 0 {
            r.push(parts.last())
        } else {
            r
        }
    }
}

/// The whitespace-separated tokens of a counter line.
pub open spec fn cpu_tokens(line: Seq<char>) -> Seq<Seq<char>> {
    nonempty_tokens(split_spec(line, ' '))
}

/// Sum of the numeric values of a token sequence.
pub open spec fn sum_vals(ts: Seq<Seq<char>>) -> int
    decreases ts.len(),
{
    if ts.len() == 0 {
        0
    } else {
        sum_vals(ts.drop_last()) + digits_val(ts.last())
    }
}

proof fn lemma_nonempty_tokens(parts: Seq<Seq<char>>)
    ensures
        forall|k: int|
            0 <= k < nonempty_tokens(parts).len() ==> (#[trigger] nonempty_tokens(parts)[k]).len()
                > 0,
    decreases parts.len(),
{
    if parts.len() > 0 {
        lemma_nonempty_tokens(parts.drop_last());
        let r = nonempty_tokens(parts.drop_last());
        if parts.last().len() > 0 {
            let w = r.push(parts.last());
            assert(forall|k: int| 0 <= k < r.len() ==> w[k] == #[trigger] r[k]);
            assert(w.last() == parts.last());
            assert(forall|k: int| 0 <= k < w.len() ==> (#[trigger] w[k]).len() > 0);
        }
    }
}

proof fn lemma_sum_vals_extend(ts: Seq<Seq<char>>, a: int, b: int)
    requires
        0 <= a <= b <= ts.len(),
        forall|j: int| a <= j < ts.len() ==> all_digits(#[trigger] ts[j]),
    ensures
        sum_vals(ts.subrange(a, b)) <= sum_vals(ts.subrange(a, ts.len() as int)),
    decreases ts.len() - b,
{
    if b < ts.len() {
        let u = ts.subrange(a, b + 1);
        assert(u.drop_last() =~= ts.subrange(a, b));
        assert(u.last() == ts[b]);
        lemma_digits_val_nonneg(ts[b]);
        lemma_sum_vals_extend(ts, a, b + 1);
    } else {
        assert(ts.subrange(a, b) =~= ts.subrange(a, ts.len() as int));
    }
}

/// Whether a counter line is well formed: at least the label and four
/// fields, the label `cpu`, every field a machine-word number, and a
/// sum that fits a machine word.
pub open spec fn cpu_line_valid(line: Seq<char>) -> bool {
    let ts = cpu_tokens(line);
    &&& ts.len() >= 5
    &&& ts[0] == "cpu"@
    &&& forall|j: int| 1 <= j < ts.len() ==> all_digits(#[trigger] ts[j])
    &&& forall|j: int| 1 <= j < ts.len() ==> digits_val(#[trigger] ts[j]) <= u64::MAX
    &&& sum_vals(ts.subrange(1, ts.len() as int)) <= u64::MAX
}

/// The counters a well-formed line carries: the sum of its fields and
/// its fourth field.
pub open spec fn cpu_line_counters(line: Seq<char>) -> (int, int) {
    let ts = cpu_tokens(line);
    (sum_vals(ts.subrange(1, ts.len() as int)), digits_val(ts[4]))
}

/// Reads the kernel's aggregate counter line `cpu <u1> <u2> ...`:
/// the sum of all fields and the idle field (the fourth). Fails with a
/// parse error exactly when the line is malformed — too few fields, a
/// wrong label, or a field that is not a machine-word number.
pub fn parse_cpu_line(line: &str) -> (r: Result<CpuCounters, Error>)
    ensures
        match r {
            Ok(c) => cpu_line_valid(line@) && c.total as int == cpu_line_counters(line@).0
                && c.idle as int == cpu_line_counters(line@).1,
            Err(e) => !cpu_line_valid(line@) && e@ == (ErrorV::ParseError {
                raw: line@,
                source: "cpu counters"@,
            }),
        },
{
    let parts = split_str(line, ' ');
    let mut toks: Vec<String> = Vec::new();
    let mut p: usize = 0;
    while p < parts.len()
        invariant
            p <= parts@.len(),
            views_of(toks@) == nonempty_tokens(views_of(parts@).take(p as int)),
        decreases parts@.len() - p,
    {
        let ghost before = views_of(toks@);
        proof {
            assert(views_of(parts@).take(p as int + 1).drop_last() =~= views_of(parts@).take(
                p as int,
            ));
            assert(views_of(parts@).take(p as int + 1).last() == parts@[p as int]@);
        }
        if !parts[p].as_str().is_empty() {
            let t = parts[p].clone();
            proof {
                assert(t@ == parts@[p as int]@);
                assert(t@.len() > 0);
            }
            toks.push(t);
            proof {
                assert(views_of(toks@) =~= before.push(parts@[p as int]@));
            }
        } else {
            proof {
                assert(parts@[p as int]@.len() == 0);
            }
        }
        p = p + 1;
    }
    proof {
        assert(views_of(parts@).take(parts@.len() as int) =~= views_of(parts@));
    }
    let ghost ts = cpu_tokens(line@);
    proof {
        assert(views_of(toks@) == ts);
        assert(toks@.len() == ts.len());
    }
    let err = Error::ParseError { raw: line.to_owned(), source: "cpu counters".to_owned() };
    if toks.len() < 5 {
        return Err(err);
    }
    if !str_eq(toks[0].as_str(), "cpu") {
        proof {
            assert(toks@[0]@ == ts[0]);
        }
        return Err(err);
    }
    proof {
        assert(toks@[0]@ == ts[0]);
    }
    let mut sum: u64 = 0;
    let mut idle: u64 = 0;
    let mut i: usize = 1;
    while i < toks.len()
        invariant
            1 <= i <= toks@.len(),
            toks@.len() == ts.len(),
            views_of(toks@) == ts,
            ts == cpu_tokens(line@),
            ts[0] == "cpu"@,
            ts.len() >= 5,
            forall|j: int| 1 <= j < i ==> all_digits(#[trigger] ts[j]),
            forall|j: int| 1 <= j < i ==> digits_val(#[trigger] ts[j]) <= u64::MAX,
            sum as int == sum_vals(ts.subrange(1, i as int)),
            i > 4 ==> idle as int == digits_val(ts[4]),
            err@ == (ErrorV::ParseError { raw: line@, source: "cpu counters"@ }),
        decreases toks@.len() - i,
    {
        proof {
            assert(toks@[i as int]@ == ts[i as int]);
        }
        let v = match parse_u64_digits(toks[i].as_str()) {
            Some(v) => v,
            None => {
                proof {
                    lemma_nonempty_tokens(split_spec(line@, ' '));
                    assert(nonempty_tokens(split_spec(line@, ' '))[i as int].len() > 0);
                    assert(ts[i as int].len() > 0);
                }
                return Err(err);
            },
        };
        proof {
            let u = ts.subrange(1, i as int + 1);
            assert(u.drop_last() =~= ts.subrange(1, i as int));
            assert(u.last() == ts[i as int]);
            assert(sum_vals(ts.subrange(1, i as int + 1)) == sum as int + v as int);
        }
        sum = match sum.checked_add(v) {
            Some(sv) => sv,
            None => {
                proof {
                    if forall|j: int| 1 <= j < ts.len() ==> all_digits(#[trigger] ts[j]) {
                        lemma_sum_vals_extend(ts, 1, i as int + 1);
                        assert(sum_vals(ts.subrange(1, ts.len() as int)) > u64::MAX);
                    }
                }
                return Err(err);
            },
        };
        if i == 4 {
            idle = v;
        }
        i = i + 1;
    }
    proof {
        assert(ts.subrange(1, toks@.len() as int) =~= ts.subrange(1, ts.len() as int));
    }
    Ok(CpuCounters { total: sum, idle })
}

/// Whether a core-count command's output is usable: a whole number of
/// at least one core, once trimmed.
pub open spec fn core_count_valid(s: Seq<char>) -> bool {
    let t = trim_spec(s);
    t.len() > 0 && all_digits(t) && 1 <= digits_val(t) <= u32::MAX
}

/// Reads the core-count command's output: its trimmed text as a whole
/// number. Fails with an external-tool error exactly when that text is
/// not a count of at least one core.
pub fn parse_core_count(s: &str) -> (r: Result<u32, Error>)
    ensures
        match r {
            Ok(v) => core_count_valid(s@) && v as int == digits_val(trim_spec(s@)) && v >= 1,
            Err(e) => !core_count_valid(s@) && e@ == (ErrorV::ExternalToolError {
                detail: "unusable core count"@,
            }),
        },
{
    let t = trim(s);
    let err = Error::ExternalToolError { detail: "unusable core count".to_owned() };
    match parse_u64_digits(t) {
        None => Err(err),
        Some(v) => {
            if v == 0 || v > 0xFFFF_FFFF {
                Err(err)
            } else {
                Ok(v as u32)
            }
        },
    }
}

/// The usage percentage, in millionths of a percent point, that two
/// counter snapshots and a core count yield: the busy share of the
/// elapsed ticks, scaled to 0–100, divided by the core count, and
/// clamped to that range. Backward-running counters and an empty delta
/// read as zero.
pub open spec fn cpu_usage_spec(pt: int, pi: int, t: int, i: int, cores: int) -> int {
    let dt = t - pt;
    let di = i - pi;
    if dt <= 0 || cores <= 0 {
        0
    } else {
        let busy = if di < 0 {
            dt
        } else if di > dt {
            0
        } else {
            dt - di
        };
        let raw = (busy * 100_000_000) / (dt * cores);
        if raw > 100_000_000 {
            100_000_000
        } else {
            raw
        }
    }
}

/// The core count a reading uses: the cached one when present, else
/// the freshly queried one.
pub open spec fn effective_cores(cached: Option<u32>, fresh: u32) -> u32 {
    match cached {
        Some(k) => k,
        None => fresh,
    }
}

/// Computes instantaneous CPU usage from successive counter snapshots.
/// Owns the previous sample as its baseline, and the core count once
/// queried.
#[derive(Clone, Copy, Debug, PartialEq, Eq, Structural)]
pub struct CpuUsageTracker {
    /// Sum of all counter fields at the previous sample.
    pub prev_total: u64,
    /// Idle counter at the previous sample.
    pub prev_idle: u64,
    /// The core count, once it has been queried.
    pub cores: Option<u32>,
}

impl CpuUsageTracker {
    /// A tracker with an all-zero baseline and no core count yet.
    pub fn new() -> (r: CpuUsageTracker)
        ensures
            r.prev_total == 0,
            r.prev_idle == 0,
            r.cores is None,
    {
        CpuUsageTracker { prev_total: 0, prev_idle: 0, cores: None }
    }

    /// Whether the tracker still has to be told the core count.
    pub fn needs_core_count(&self) -> (r: bool)
        ensures
            r == (self.cores is None),
    {
        match self.cores {
            None => true,
            Some(_) => false,
        }
    }

    /// Re-seeds the baseline from a fresh snapshot without producing a
    /// usage value, so that the first real reading is not charged with
    /// everything since boot.
    pub fn refresh_with(&mut self, now: CpuCounters)
        ensures
            final(self).prev_total == now.total,
            final(self).prev_idle == now.idle,
            final(self).cores == old(self).cores,
    {
        self.prev_total = now.total;
        self.prev_idle = now.idle;
    }

    /// One usage reading: derives the percentage from the deltas
    /// between the baseline and `now`, then moves the baseline to
    /// `now`. The core count is adopted on first use and kept for the
    /// tracker's lifetime.
    pub fn get_with(&mut self, now: CpuCounters, fresh_cores: u32) -> (r: Fixed)
        requires
            fresh_cores >= 1,
            old(self).cores matches Some(k) ==> k >= 1,
        ensures
            final(self).prev_total == now.total,
            final(self).prev_idle == now.idle,
            final(self).cores == Some(effective_cores(old(self).cores, fresh_cores)),
            r.raw as int == cpu_usage_spec(
                old(self).prev_total as int,
                old(self).prev_idle as int,
                now.total as int,
                now.idle as int,
                effective_cores(old(self).cores, fresh_cores) as int,
            ),
            0 <= r.raw <= 100_000_000,
            fixed_wf(r),
    {
        let cores: u32 = match self.cores {
            Some(k) => k,
            None => fresh_cores,
        };
        self.cores = Some(cores);
        let pt = self.prev_total;
        let pi = self.prev_idle;
        self.prev_total = now.total;
        self.prev_idle = now.idle;
        if now.total <= pt {
            return Fixed { raw: 0 };
        }
        let dt: u64 = now.total - pt;
        let busy: u64 = if now.idle < pi {
            dt
        } else {
            let di = now.idle - pi;
            if di > dt {
                0
            } else {
                dt - di
            }
        };
        let num: u128 = (busy as u128) * 100_000_000u128;
        proof {
            assert((dt as int) * (cores as int) >= 1 && (dt as int) * (cores as int)
                <= 0x1_0000_0000_0000_0000_0000_0000i128) by (nonlinear_arith)
                requires
                    1 <= dt as int <= u64::MAX,
                    1 <= cores as int <= u32::MAX,
            ;
        }
        let den: u128 = (dt as u128) * (cores as u128);
        let q: u128 = num / den;
        let raw: u128 = if q > 100_000_000 {
            100_000_000
        } else {
            q
        };
        proof {
            vstd::arithmetic::div_mod::lemma_div_pos_is_pos(num as int, den as int);
        }
        Fixed { raw: raw as i64 }
    }
}

} // verus!
