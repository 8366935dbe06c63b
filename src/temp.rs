use vstd::prelude::*;

use crate::error::ConfigError;
use crate::params::SCALE;

verus! {

/// The range that every temperature stays in.
#[derive(Debug, Clone, Copy, PartialEq, Eq, Structural)]
pub struct TemperatureBounds {
    pub max: u64,
    pub min: u64,
}

/// The temperature at fraction `sample / SCALE` of the way from `min` to `max`.
pub open spec fn scaled_temperature(min: int, max: int, sample: int) -> int {
    min + (max - min) * sample / (SCALE as int)
}

/// A temperature after one cooling step at `rate / SCALE`, never below `min`.
pub open spec fn cooled(temperature: int, rate: int, min: int) -> int {
    let t = temperature * rate / (SCALE as int);
    if t < min {
        min
    } else {
        t
    }
}

impl TemperatureBounds {
    pub open spec fn wf(&self) -> bool {
        self.min <= self.max
    }

    /// Bounds from `min` to `max`; refused when `min > max`.
    pub fn new(min: u64, max: u64) -> (r: Result<TemperatureBounds, ConfigError>)
        ensures
            min <= max <==> r is Ok,
            min > max ==> r == Err::<TemperatureBounds, ConfigError>(
                ConfigError::InvalidTemperatureRange,
            ),
            r matches Ok(b) ==> b.min == min && b.max == max && b.wf(),
    {
        if min > max {
            Err(ConfigError::InvalidTemperatureRange)
        } else {
            Ok(TemperatureBounds { max, min })
        }
    }

    /// Maps a draw on `[0, 1]` (in parts per million, as from a Beta
    /// distribution) affinely onto `[min, max]`.
    pub fn random_temperature(&self, sample: u64) -> (r: u64)
        requires
            self.wf(),
            sample <= SCALE,
        ensures
            r == scaled_temperature(self.min as int, self.max as int, sample as int),
            self.min <= r <= self.max,
    {
        let span = (self.max - self.min) as u128;
        proof {
            assert(span * sample <= u64::MAX * SCALE) by (nonlinear_arith)
                requires
                    sample <= SCALE,
                    0 <= span <= u64::MAX,
            ;
            assert(span * sample <= span * SCALE) by (nonlinear_arith)
                requires
                    sample <= SCALE,
                    span >= 0,
            ;
            assert(span * sample / (SCALE as int) <= span) by (nonlinear_arith)
                requires
                    span * sample <= span * SCALE,
                    span >= 0,
            ;
        }
        let offset = span * (sample as u128) / (SCALE as u128);
        self.min + offset as u64
    }

    /// Maps each draw of `samples` as [`TemperatureBounds::random_temperature`] does.
    pub fn init_temperatures(&self, samples: &Vec<u64>) -> (r: Vec<u64>)
        requires
            self.wf(),
            forall|i: int| 0 <= i < samples@.len() ==> #[trigger] samples@[i] <= SCALE,
        ensures
            r@.len() == samples@.len(),
            forall|i: int|
                0 <= i < r@.len() ==> #[trigger] r@[i] == scaled_temperature(
                    self.min as int,
                    self.max as int,
                    samples@[i] as int,
                ),
    {
        let mut r: Vec<u64> = Vec::new();
        let mut i: usize = 0;
        while i < samples.len()
            invariant
                self.wf(),
                forall|k: int| 0 <= k < samples@.len() ==> #[trigger] samples@[k] <= SCALE,
                i <= samples@.len(),
                r@.len() == i,
                forall|k: int|
                    0 <= k < i ==> #[trigger] r@[k] == scaled_temperature(
                        self.min as int,
                        self.max as int,
                        samples@[k] as int,
                    ),
            decreases samples@.len() - i,
        {
            r.push(self.random_temperature(samples[i]));
            i = i + 1;
        }
        r
    }

    /// One cooling step: `max(temperature * rate, min)`, with `rate` in parts
    /// per million.
    pub fn cool(&self, temperature: u64, rate: u64) -> (r: u64)
        requires
            rate <= SCALE,
        ensures
            r == cooled(temperature as int, rate as int, self.min as int),
            r >= self.min,
            temperature >= self.min ==> r <= temperature,
    {
        proof {
            assert(temperature * rate <= u64::MAX * SCALE) by (nonlinear_arith)
                requires
                    rate <= SCALE,
                    temperature <= u64::MAX,
            ;
            assert(temperature * rate <= temperature * SCALE) by (nonlinear_arith)
                requires
                    rate <= SCALE,
            ;
            assert(temperature * rate / (SCALE as int) <= temperature) by (nonlinear_arith)
                requires
                    temperature * rate <= temperature * SCALE,
            ;
        }
        let t = (temperature as u128) * (rate as u128) / (SCALE as u128);
        let t = t as u64;
        if t < self.min {
            self.min
        } else {
            t
        }
    }
}

} // verus!
