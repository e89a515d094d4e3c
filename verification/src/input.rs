//! Input framing: raw interleaved little-endian `i16` I/Q bytes cut into
//! whole samples across reads, and the choice of channel frequencies for a
//! multi-channel WAV recording.
use vstd::prelude::*;

verus! {

/// The little-endian `i16` of bytes `lo`, `hi`.
pub open spec fn le_i16(lo: u8, hi: u8) -> i16 {
    ((lo as u16) | ((hi as u16) << 8u16)) as i16
}

/// The I/Q samples of `b`: each four bytes hold I then Q, each a
/// little-endian `i16`; a trailing partial sample is left out.
pub open spec fn iq_samples(b: Seq<u8>) -> Seq<(i16, i16)> {
    Seq::new(
        b.len() / 4,
        |n: int| (le_i16(b[4 * n], b[4 * n + 1]), le_i16(b[4 * n + 2], b[4 * n + 3])),
    )
}

/// The whole samples of the bytes left over from the last read followed by
/// the bytes just read, and the bytes of a trailing partial sample, kept for
/// the next read.
pub fn split_iq(carry: &[u8], fresh: &[u8]) -> (r: (Vec<(i16, i16)>, Vec<u8>))
    requires
        carry@.len() + fresh@.len() <= usize::MAX,
    ensures
        ({
            let c = carry@ + fresh@;
            let usable = c.len() - c.len() % 4;
            &&& r.0@ == iq_samples(c)
            &&& r.1@ == c.subrange(usable, c.len() as int)
        }),
{
    let ghost c = carry@ + fresh@;
    let mut all: Vec<u8> = Vec::new();
    let mut i: usize = 0;
    while i < carry.len()
        invariant
            i <= carry@.len(),
            all@ == carry@.subrange(0, i as int),
        decreases carry.len() - i,
    {
        all.push(carry[i]);
        i = i + 1;
        proof {
            assert(all@ =~= carry@.subrange(0, i as int));
        }
    }
    let mut j: usize = 0;
    while j < fresh.len()
        invariant
            carry@.len() + fresh@.len() <= usize::MAX,
            j <= fresh@.len(),
            all@ == carry@ + fresh@.subrange(0, j as int),
        decreases fresh.len() - j,
    {
        all.push(fresh[j]);
        j = j + 1;
        proof {
            assert(all@ =~= carry@ + fresh@.subrange(0, j as int));
        }
    }
    proof {
        assert(all@ =~= c);
    }
    let n = all.len() / 4;
    let mut samples: Vec<(i16, i16)> = Vec::new();
    let mut k: usize = 0;
    while k < n
        invariant
            all@ == c,
            n == c.len() / 4,
            k <= n,
            samples@ =~= iq_samples(c).subrange(0, k as int),
        decreases n - k,
    {
        proof {
            let len = c.len() as int;
            let kk = k as int;
            let nn = n as int;
            assert(4 * kk + 3 < len) by (nonlinear_arith)
                requires
                    kk < nn,
                    nn == len / 4,
                    len >= 0,
            ;
        }
        assert(4 * k + 3 < all.len());
        let b0 = all[4 * k];
        let b1 = all[4 * k + 1];
        let b2 = all[4 * k + 2];
        let b3 = all[4 * k + 3];
        let iv = ((b0 as u16) | ((b1 as u16) << 8u16)) as i16;
        let qv = ((b2 as u16) | ((b3 as u16) << 8u16)) as i16;
        samples.push((iv, qv));
        k = k + 1;
        proof {
            assert(samples@ =~= iq_samples(c).subrange(0, k as int));
        }
    }
    proof {
        let len = c.len() as int;
        assert(4 * (n as int) <= len) by (nonlinear_arith)
            requires
                n as int == len / 4,
                len >= 0,
        ;
        assert(len - len % 4 == 4 * (n as int)) by (nonlinear_arith)
            requires
                n as int == len / 4,
                len >= 0,
        ;
    }
    let usable = 4 * n;
    let mut rest: Vec<u8> = Vec::new();
    let mut m: usize = usable;
    while m < all.len()
        invariant
            all@ == c,
            usable == 4 * n,
            n == c.len() / 4,
            usable <= m <= all@.len(),
            rest@ == c.subrange(usable as int, m as int),
        decreases all.len() - m,
    {
        rest.push(all[m]);
        m = m + 1;
        proof {
            assert(rest@ =~= c.subrange(usable as int, m as int));
        }
    }
    proof {
        assert(samples@ =~= iq_samples(c));
        assert(c.len() - c.len() % 4 == usable);
    }
    (samples, rest)
}

/// Which frequencies a WAV recording's channels get.
#[derive(Clone, Copy, Debug, PartialEq, Eq, Structural)]
pub enum WavChannels {
    /// The frequencies given, one per WAV channel.
    Given,
    /// The first this many of the default set.
    Defaults(usize),
    /// The number of frequencies given differs from the channel count.
    CountMismatch,
    /// No frequencies given and the default set is too short.
    TooManyForDefaults,
}

/// Frequencies for `n_channels` WAV channels: the ones given when their
/// number matches, otherwise an error; without any given, the first
/// `n_channels` of a default set of `n_defaults`, or an error when it is
/// too short.
pub fn wav_channels(n_channels: usize, given: Option<usize>, n_defaults: usize) -> (r: WavChannels)
    ensures
        r == (match given {
            Some(g) => if g == n_channels {
                WavChannels::Given
            } else {
                WavChannels::CountMismatch
            },
            None => if n_channels > n_defaults {
                WavChannels::TooManyForDefaults
            } else {
                WavChannels::Defaults(n_channels)
            },
        }),
{
    match given {
        Some(g) => if g == n_channels {
            WavChannels::Given
        } else {
            WavChannels::CountMismatch
        },
        None => if n_channels > n_defaults {
            WavChannels::TooManyForDefaults
        } else {
            WavChannels::Defaults(n_channels)
        },
    }
}

} // verus!
