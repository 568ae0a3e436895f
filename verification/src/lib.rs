use vstd::arithmetic::mul::lemma_mul_inequality;
use vstd::prelude::*;
use vstd::string::StringSliceAdditionalSpecFns;

pub mod accum;
pub mod generator;
pub mod processor;
pub mod results;
pub mod text;

use crate::accum::{
    acc_add, acc_merge, acc_new, acc_wf, lemma_acc_total_bound, lemma_mean_in_range, mean_of,
    value_ok, AccModel,
};

verus! {

/// Largest magnitude, in tenths of a unit, that a measurement value may
/// carry.  Values are modelled as signed integer counts of tenths, since
/// every corpus value is rendered with exactly one fractional digit.
pub const VALUE_LIMIT: i64 = 1_000_000_000_000_000;

/// The error taxonomy of the whole pipeline.  `Io` covers file open, read,
/// write and map failures (raised by the surrounding binary), `Parse` covers
/// malformed reference rows, corpus lines and numeric literals, `Config`
/// covers bad run configuration such as an unknown strategy name, and
/// `Thread` covers a worker failure surfaced to the joining caller.
#[derive(Clone, Copy, Debug, PartialEq, Eq, Structural)]
pub enum Error {
    Io,
    Parse,
    Config,
    Thread,
}

/// An immutable reference record: an entity name and its baseline value in
/// tenths of a unit.  Loaded once from the reference table and shared
/// read-only across all generator workers.
pub struct Station {
    pub city: Vec<u8>,
    pub temp: i64,
}

/// Relies on rand::Rng::gen_range over `0..n` with rand::thread_rng: a
/// uniformly chosen integer below `n`.  The call panics on an empty range,
/// so `n` must be positive; the draw depends on the thread's generator, so
/// only the range of the result is promised.
#[verifier::external_body]
pub(crate) fn sample_below(n: usize) -> (r: usize)
    requires
        n > 0,
    ensures
        r < n,
{
    rand::Rng::gen_range(&mut rand::thread_rng(), 0..n)
}

/// How many uniform draws one sampled noise term sums.
pub const NOISE_DRAWS: usize = 12;

/// Width of each uniform draw, in tenths.
pub const NOISE_WIDTH: usize = 100;

/// Largest magnitude of the centred noise term, in tenths:
/// `NOISE_DRAWS * (NOISE_WIDTH - 1) / 2`.
pub const NOISE_SPAN: i64 = 594;

impl Station {
    /// A station fit for generation: a representable baseline and a name
    /// that is valid UTF-8 and free of the separator and newline bytes, so
    /// that every emitted line keeps the corpus grammar.
    pub open spec fn wf(self) -> bool {
        &&& value_ok(self.temp as int)
        &&& crate::text::utf8_ok(self.city@)
        &&& forall|i: int|
            0 <= i < self.city@.len() ==> self.city@[i] != crate::text::SEMI && self.city@[i]
                != crate::text::NL
    }

    /// One sampled measurement for this station, in tenths: the baseline
    /// value plus a centred noise term, the sum of twelve uniform draws on
    /// `[0, 10)` units.  That convolution is the classic integer
    /// approximation of a normal distribution with standard deviation 10
    /// units; the result is already rounded to one fractional digit by
    /// construction.  The sum is clamped to the representable value range,
    /// which moves it toward the baseline by at most the noise span.
    pub fn measurement(&self) -> (r: i64)
        requires
            value_ok(self.temp as int),
        ensures
            value_ok(r as int),
            self.temp - NOISE_SPAN <= r as int <= self.temp + NOISE_SPAN,
    {
        let mut sum: i64 = 0;
        let mut i: usize = 0;
        while i < NOISE_DRAWS
            invariant
                0 <= sum <= 99 * i,
                i <= 12,
            decreases NOISE_DRAWS - i,
        {
            let d = sample_below(NOISE_WIDTH);
            sum = sum + d as i64;
            i = i + 1;
        }
        let v = self.temp + (sum - NOISE_SPAN);
        if v > VALUE_LIMIT {
            VALUE_LIMIT
        } else if v < -VALUE_LIMIT {
            -VALUE_LIMIT
        } else {
            v
        }
    }

    /// Parses one `name;value` line into a station, under the corpus line
    /// grammar: the part before the first semicolon is the name, the part
    /// after it a value with exactly one fractional digit.
    pub fn from_str(s: &str) -> (r: Result<Station, Error>)
        ensures
            match r {
                Ok(st) => crate::text::parse_line_spec(s.spec_bytes()) == Some(
                    (st.city@, st.temp as int),
                ) && value_ok(st.temp as int),
                Err(e) => e == Error::Parse && crate::text::parse_line_spec(
                    s.spec_bytes(),
                ) is None,
            },
    {
        let b = s.as_bytes();
        let n = b.len();
        match crate::text::parse_line(b, 0, n) {
            Ok(pair) => {
                proof {
                    assert(b@.subrange(0, n as int) =~= b@);
                }
                Ok(Station { city: pair.0, temp: pair.1 })
            },
            Err(e) => {
                proof {
                    assert(b@.subrange(0, n as int) =~= b@);
                }
                Err(e)
            },
        }
    }
}

/// Per-entity running statistics: minimum, maximum, running total and
/// number of observations, totals held in tenths of a unit.
pub struct TempResult {
    pub min: i64,
    pub max: i64,
    pub total: i128,
    pub count: u64,
}

impl View for TempResult {
    type V = AccModel;

    open spec fn view(&self) -> AccModel {
        AccModel {
            min: self.min as int,
            max: self.max as int,
            total: self.total as int,
            count: self.count as int,
        }
    }
}

impl TempResult {
    /// An aggregate seeded with a station's single observed value.
    pub fn new(station: &Station) -> (r: TempResult)
        requires
            value_ok(station.temp as int),
        ensures
            r@ == acc_new(station.temp as int),
            acc_wf(r@),
    {
        TempResult { min: station.temp, max: station.temp, total: station.temp as i128, count: 1 }
    }

    /// Folds one more observed value into the aggregate.  Not thread-safe;
    /// only ever called on an exclusively owned aggregate.
    pub fn update(&mut self, value: i64)
        requires
            acc_wf(old(self)@),
            value_ok(value as int),
            old(self).count < u64::MAX,
        ensures
            final(self)@ == acc_add(old(self)@, value as int),
            acc_wf(final(self)@),
    {
        proof {
            lemma_acc_total_bound(self@);
            lemma_mul_inequality(self@.count, u64::MAX - 1, VALUE_LIMIT as int);
            crate::accum::lemma_acc_add_wf(self@, value as int);
        }
        if self.min > value {
            self.min = value;
        }
        if self.max < value {
            self.max = value;
        }
        self.count = self.count + 1;
        self.total = self.total + value as i128;
    }

    /// Folds one more observation of a station into the aggregate.
    pub fn add_assign(&mut self, station: &Station)
        requires
            acc_wf(old(self)@),
            value_ok(station.temp as int),
            old(self).count < u64::MAX,
        ensures
            final(self)@ == acc_add(old(self)@, station.temp as int),
            acc_wf(final(self)@),
    {
        self.update(station.temp);
    }

    /// The pure merge of two aggregates for the same entity: min of mins,
    /// max of maxes, totals and counts added.  Commutative and associative,
    /// which makes parallel reduction order irrelevant.
    pub fn merge(&self, other: &TempResult) -> (r: TempResult)
        requires
            acc_wf(self@),
            acc_wf(other@),
            self@.count + other@.count <= u64::MAX,
        ensures
            r@ == acc_merge(self@, other@),
            acc_wf(r@),
    {
        proof {
            lemma_acc_total_bound(self@);
            lemma_acc_total_bound(other@);
            lemma_mul_inequality(self@.count + other@.count, u64::MAX as int, VALUE_LIMIT as int);
            crate::accum::lemma_acc_merge_wf(self@, other@);
        }
        TempResult {
            min: if self.min < other.min {
                self.min
            } else {
                other.min
            },
            max: if self.max > other.max {
                self.max
            } else {
                other.max
            },
            total: self.total + other.total,
            count: self.count + other.count,
        }
    }

    /// The mean observation in tenths, rounded to the nearest tenth with
    /// ties away from zero.  Computed at format time, never stored.
    pub fn mean(&self) -> (r: i64)
        requires
            acc_wf(self@),
        ensures
            r as int == mean_of(self@),
            self@.min <= r as int <= self@.max,
    {
        proof {
            lemma_acc_total_bound(self@);
            lemma_mean_in_range(self@);
            lemma_mul_inequality(self@.count, u64::MAX as int, VALUE_LIMIT as int);
        }
        let neg = self.total < 0;
        let m: u128 = if neg {
            (-self.total) as u128
        } else {
            self.total as u128
        };
        let c: u128 = self.count as u128;
        let q: u128 = (2 * m + c) / (2 * c);
        if neg {
            -(q as i64)
        } else {
            q as i64
        }
    }
}

} // verus!
