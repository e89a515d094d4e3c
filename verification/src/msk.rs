//! Integer parameters of the MSK demodulator (2400 baud over 1200/2400 Hz
//! tones at the 12.5 kHz IF rate). The demodulator itself runs on
//! floating-point samples and is built by the application around these.
use vstd::prelude::*;

verus! {

/// IF sample rate the demodulator expects, in Hz.
pub const IF_RATE_HZ: u32 = 12_500;

/// Matched-filter length in IF samples (about one bit at 1200 Hz): the
/// integer quotient 12500 / 1200, plus one.
pub const FLEN: usize = 12_500 / 1200 + 1;

/// Matched-filter oversampling factor.
pub const MFLT_OVER: usize = 12;

/// Length of the oversampled matched filter.
pub const FLEN_OVERSAMPLED: usize = FLEN * MFLT_OVER + 1;

/// The filter lengths follow from integer division.
pub proof fn lemma_filter_lengths()
    ensures
        FLEN == IF_RATE_HZ / 1200 + 1,
        FLEN == 11,
        FLEN_OVERSAMPLED == 133,
{
}

} // verus!
