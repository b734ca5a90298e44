//! The numeric fingerprint of a sample stream: its peak and its energy,
//! gathered in one pass over the samples.

use vstd::prelude::*;

verus! {

/// The bit pattern of the level that stands in for a level that cannot be
/// given: that of the IEEE 754 double -1000.0.
pub const SENTINEL_DB_BITS: u64 = 0xC08F_4000_0000_0000;

/// The bits of a double that hold its exponent.
pub const EXPONENT_MASK: u64 = 0x7FF0_0000_0000_0000;

/// The largest magnitude that a sample of the given bit depth is scaled
/// by; 0 for a bit depth that is not supported.
pub open spec fn full_scale(bit_depth: int) -> nat {
    if bit_depth == 8 {
        127
    } else if bit_depth == 16 {
        32767
    } else if bit_depth == 24 {
        8388607
    } else if bit_depth == 32 {
        2147483647
    } else {
        0
    }
}

/// Whether samples of this bit depth can be fingerprinted.
pub open spec fn supported_depth(bit_depth: int) -> bool {
    bit_depth == 8 || bit_depth == 16 || bit_depth == 24 || bit_depth == 32
}

/// The magnitude of a sample.
pub open spec fn magnitude(sample: i32) -> nat {
    if sample < 0 {
        (-(sample as int)) as nat
    } else {
        sample as nat
    }
}

/// The largest magnitude among the samples; 0 where there are none.
pub open spec fn peak_of(samples: Seq<i32>) -> nat
    decreases samples.len(),
{
    if samples.len() == 0 {
        0
    } else {
        let before = peak_of(samples.drop_last());
        let last = magnitude(samples.last());
        if last > before {
            last
        } else {
            before
        }
    }
}

/// The sum of the squares of the samples.
pub open spec fn energy_of(samples: Seq<i32>) -> nat
    decreases samples.len(),
{
    if samples.len() == 0 {
        0
    } else {
        energy_of(samples.drop_last()) + magnitude(samples.last()) * magnitude(samples.last())
    }
}

/// Whether every sample is zero.
pub open spec fn all_zero(samples: Seq<i32>) -> bool {
    forall|i: int| 0 <= i < samples.len() ==> #[trigger] samples[i] == 0
}

/// Whether every sample lies within the full scale of the bit depth, on
/// either side of zero.
pub open spec fn within_scale(samples: Seq<i32>, bit_depth: int) -> bool {
    forall|i: int|
        0 <= i < samples.len() ==> magnitude(#[trigger] samples[i]) <= full_scale(bit_depth)
}

/// Whether the bit pattern is that of a finite double: neither an
/// infinity nor a NaN.
pub open spec fn finite_bits(bits: u64) -> bool {
    bits & EXPONENT_MASK != EXPONENT_MASK
}

/// The bit pattern kept for a level: itself where it is finite, that of
/// the sentinel otherwise.
pub open spec fn cleaned_bits(bits: u64) -> u64 {
    if finite_bits(bits) {
        bits
    } else {
        SENTINEL_DB_BITS
    }
}

/// The magnitude of a sample, for every sample of 32 bits.
pub fn magnitude_of(sample: i32) -> (r: u32)
    ensures
        r == magnitude(sample),
        r <= 0x8000_0000,
{
    if sample >= 0 {
        sample as u32
    } else if sample == i32::MIN {
        0x8000_0000
    } else {
        (-sample) as u32
    }
}

/// What one pass over a sample stream gathers.
#[derive(Clone, Copy, Debug, PartialEq, Eq, Structural)]
pub struct Metrics {
    /// The largest magnitude seen.
    pub max_abs: u32,
    /// The sum of the squares of the samples seen.
    pub squared_sum: u128,
    /// How many samples were seen.
    pub count: u64,
}

impl Metrics {
    /// Whether these are the metrics of the stream `samples`.
    pub open spec fn summarizes(self, samples: Seq<i32>) -> bool {
        &&& self.max_abs == peak_of(samples)
        &&& self.squared_sum == energy_of(samples)
        &&& self.count == samples.len()
    }

    /// The metrics of some stream: the energy of `count` samples is at
    /// most `count` times the square of the peak.
    pub open spec fn well_formed(self) -> bool {
        &&& self.max_abs <= 0x8000_0000
        &&& self.squared_sum <= self.count * 0x4000_0000_0000_0000
    }

    /// The metrics after `sample` has followed.
    pub open spec fn after(self, sample: i32) -> Metrics {
        Metrics {
            max_abs: if magnitude(sample) > self.max_abs {
                magnitude(sample) as u32
            } else {
                self.max_abs
            },
            squared_sum: (self.squared_sum + magnitude(sample) * magnitude(sample)) as u128,
            count: (self.count + 1) as u64,
        }
    }

    /// The metrics of the empty stream.
    pub fn new() -> (r: Metrics)
        ensures
            r.summarizes(Seq::empty()),
            r.well_formed(),
            r == (Metrics { max_abs: 0, squared_sum: 0, count: 0 }),
    {
        Metrics { max_abs: 0, squared_sum: 0, count: 0 }
    }

    /// Takes one more sample in.
    pub fn push(&mut self, sample: i32)
        requires
            old(self).well_formed(),
            old(self).count < u64::MAX,
        ensures
            *final(self) == old(self).after(sample),
            final(self).well_formed(),
            forall|samples: Seq<i32>| #[trigger]
                old(self).summarizes(samples) ==> final(self).summarizes(samples.push(sample)),
    {
        let abs: u32 = magnitude_of(sample);
        let wide: u128 = abs as u128;
        assert(wide * wide <= 0x4000_0000_0000_0000) by (nonlinear_arith)
            requires
                wide <= 0x8000_0000,
        ;
        assert(self.count * 0x4000_0000_0000_0000 + 0x4000_0000_0000_0000 <= u128::MAX)
            by (nonlinear_arith)
            requires
                self.count < 0x1_0000_0000_0000_0000,
        ;
        proof {
            assert forall|samples: Seq<i32>| #[trigger]
                old(self).summarizes(samples) implies old(self).after(sample).summarizes(
                samples.push(sample),
            ) by {
                assert(samples.push(sample).drop_last() =~= samples);
                assert(samples.push(sample).last() == sample);
            }
        }
        if abs > self.max_abs {
            self.max_abs = abs;
        }
        self.squared_sum = self.squared_sum + wide * wide;
        self.count = self.count + 1;
    }
}

/// The sample that is counted for what the decoder gave: the sample
/// itself, or silence where the decoder gave none.
pub open spec fn counted(sample: Option<i32>) -> i32 {
    match sample {
        Some(s) => s,
        None => 0,
    }
}

/// Takes in what the decoder gave for one sample of `metrics`: a sample
/// that could not be decoded counts as silence. The result is the
/// sample that was counted.
pub fn push_decoded(metrics: &mut Metrics, sample: Option<i32>) -> (r: i32)
    requires
        old(metrics).well_formed(),
        old(metrics).count < u64::MAX,
    ensures
        r == counted(sample),
        *final(metrics) == old(metrics).after(counted(sample)),
        final(metrics).well_formed(),
{
    let taken: i32 = match sample {
        Some(s) => s,
        None => 0,
    };
    metrics.push(taken);
    taken
}

/// The largest magnitude that a sample of the given bit depth is scaled
/// by; 0 for a bit depth that is not supported.
pub fn get_max_amplitude(bit_depth: i32) -> (r: i32)
    ensures
        r == full_scale(bit_depth as int),
{
    if bit_depth == 8 {
        127
    } else if bit_depth == 16 {
        32767
    } else if bit_depth == 24 {
        8388607
    } else if bit_depth == 32 {
        2147483647
    } else {
        0
    }
}

/// Gathers the metrics of `samples` in one pass.
pub fn accumulate_metrics(samples: &Vec<i32>) -> (r: Metrics)
    ensures
        r.summarizes(samples@),
        r.well_formed(),
        r.max_abs == 0 <==> all_zero(samples@),
        r.squared_sum == 0 <==> all_zero(samples@),
{
    proof {
        lemma_peak_zero_iff_silent(samples@);
        lemma_energy_zero_iff_silent(samples@);
    }
    let mut metrics = Metrics::new();
    let mut i: usize = 0;
    assert(samples@.subrange(0, 0) =~= Seq::<i32>::empty());
    while i < samples.len()
        invariant
            i <= samples.len(),
            metrics.well_formed(),
            metrics.summarizes(samples@.subrange(0, i as int)),
        decreases samples.len() - i,
    {
        assert(samples@.subrange(0, i as int).push(samples@[i as int]) =~= samples@.subrange(
            0,
            i as int + 1,
        ));
        metrics.push(samples[i]);
        i += 1;
    }
    assert(samples@.subrange(0, samples.len() as int) =~= samples@);
    metrics
}

/// The largest magnitude is that of some sample, and no sample exceeds
/// it.
pub proof fn lemma_peak_is_maximum(samples: Seq<i32>)
    ensures
        forall|i: int| 0 <= i < samples.len() ==> magnitude(#[trigger] samples[i]) <= peak_of(samples),
        samples.len() > 0 ==> exists|i: int|
            0 <= i < samples.len() && magnitude(#[trigger] samples[i]) == peak_of(samples),
    decreases samples.len(),
{
    if samples.len() > 0 {
        let init = samples.drop_last();
        lemma_peak_is_maximum(init);
        assert forall|i: int| 0 <= i < samples.len() implies magnitude(#[trigger] samples[i])
            <= peak_of(samples) by {
            if i < init.len() {
                assert(samples[i] == init[i]);
            }
        }
        if magnitude(samples.last()) > peak_of(init) || init.len() == 0 {
            assert(magnitude(samples[samples.len() - 1]) == peak_of(samples));
        } else {
            let i = choose|i: int| 0 <= i < init.len() && magnitude(#[trigger] init[i]) == peak_of(init);
            assert(samples[i] == init[i]);
        }
    }
}

/// The largest magnitude is 0 exactly when every sample is zero.
pub proof fn lemma_peak_zero_iff_silent(samples: Seq<i32>)
    ensures
        peak_of(samples) == 0 <==> all_zero(samples),
{
    lemma_peak_is_maximum(samples);
    if all_zero(samples) && samples.len() > 0 {
        let i = choose|i: int|
            0 <= i < samples.len() && magnitude(#[trigger] samples[i]) == peak_of(samples);
        assert(samples[i] == 0);
    }
    if peak_of(samples) == 0 {
        assert forall|i: int| 0 <= i < samples.len() implies #[trigger] samples[i] == 0 by {
            assert(magnitude(samples[i]) <= 0);
        }
    }
}

/// The energy is 0 exactly when every sample is zero.
pub proof fn lemma_energy_zero_iff_silent(samples: Seq<i32>)
    ensures
        energy_of(samples) == 0 <==> all_zero(samples),
    decreases samples.len(),
{
    if samples.len() > 0 {
        let init = samples.drop_last();
        let m = magnitude(samples.last());
        lemma_energy_zero_iff_silent(init);
        assert(m * m == 0 <==> m == 0) by (nonlinear_arith);
        assert(m * m >= 0) by (nonlinear_arith);
        if all_zero(samples) {
            assert(samples[samples.len() - 1] == 0);
            assert forall|i: int| 0 <= i < init.len() implies #[trigger] init[i] == 0 by {
                assert(samples[i] == init[i]);
            }
        }
        if energy_of(samples) == 0 {
            assert forall|i: int| 0 <= i < samples.len() implies #[trigger] samples[i] == 0 by {
                if i < init.len() {
                    assert(samples[i] == init[i]);
                }
            }
        }
    }
}

/// The peak level of a stream is its largest magnitude over the full
/// scale of its bit depth. Where no sample exceeds the full scale, that
/// level lies between 0 and 1; it is 0 exactly when every sample is zero.
pub proof fn lemma_peak_level_bounds(samples: Seq<i32>, bit_depth: int)
    requires
        supported_depth(bit_depth),
        within_scale(samples, bit_depth),
    ensures
        0 < full_scale(bit_depth),
        0 <= peak_of(samples) <= full_scale(bit_depth),
        peak_of(samples) == 0 <==> all_zero(samples),
{
    lemma_peak_is_maximum(samples);
    lemma_peak_zero_iff_silent(samples);
}

/// The level that stands in for one that cannot be given.
pub fn default_rms_db_level() -> (r: u64)
    ensures
        r == SENTINEL_DB_BITS,
        finite_bits(r),
{
    assert(0xC08F_4000_0000_0000u64 & 0x7FF0_0000_0000_0000u64 != 0x7FF0_0000_0000_0000u64)
        by (bit_vector);
    SENTINEL_DB_BITS
}

/// Whether the bit pattern is that of a finite double.
pub fn is_finite_bits(bits: u64) -> (r: bool)
    ensures
        r == finite_bits(bits),
{
    bits & EXPONENT_MASK != EXPONENT_MASK
}

/// Keeps a finite level and puts the sentinel in place of any other.
pub fn clean_rms_db_level(bits: u64) -> (r: u64)
    ensures
        r == cleaned_bits(bits),
        finite_bits(r),
{
    if is_finite_bits(bits) {
        bits
    } else {
        default_rms_db_level()
    }
}

/// The peak level to record, as the bit pattern of a single: that of 0.0
/// for silence and for an unsupported bit depth, else `ratio_bits`, the
/// pattern of the largest magnitude over the full scale.
pub open spec fn peak_bits_of(metrics: Metrics, bit_depth: int, ratio_bits: u32) -> u32 {
    if full_scale(bit_depth) == 0 || metrics.max_abs == 0 {
        0
    } else {
        ratio_bits
    }
}

/// The RMS level to record, as the bit pattern of a double: the sentinel
/// for an empty or silent stream and for an unsupported bit depth, else
/// `decibel_bits`, the pattern of the level in decibels, unless that is
/// not finite.
pub open spec fn rms_bits_of(metrics: Metrics, bit_depth: int, decibel_bits: u64) -> u64 {
    if full_scale(bit_depth) == 0 || metrics.count == 0 || metrics.squared_sum == 0 {
        SENTINEL_DB_BITS
    } else {
        cleaned_bits(decibel_bits)
    }
}

/// Chooses the two levels to record for a stream with the given metrics.
///
/// `ratio_bits` and `decibel_bits` are the levels as computed in floating
/// point from the metrics; they are looked at only where the stream has
/// a level to speak of.
pub fn levels(metrics: &Metrics, bit_depth: i32, ratio_bits: u32, decibel_bits: u64) -> (r: (
    u32,
    u64,
))
    ensures
        r.0 == peak_bits_of(*metrics, bit_depth as int, ratio_bits),
        r.1 == rms_bits_of(*metrics, bit_depth as int, decibel_bits),
        finite_bits(r.1),
{
    if get_max_amplitude(bit_depth) <= 0 {
        return (0, default_rms_db_level());
    }
    let peak: u32 = if metrics.max_abs == 0 {
        0
    } else {
        ratio_bits
    };
    let rms: u64 = if metrics.count == 0 || metrics.squared_sum == 0 {
        default_rms_db_level()
    } else {
        clean_rms_db_level(decibel_bits)
    };
    (peak, rms)
}

} // verus!
