//! Captured and decoded audio, before it is transcribed.

use vstd::prelude::*;

use crate::diarize::magnitude;
use crate::WHISPER_SAMPLE_RATE;

verus! {

/// Audio that is decoded packet by packet. The first packet says at which rate
/// and with how many channels.
pub struct Decoding<T> {
    samples: Vec<T>,
    rate: u32,
    channels: usize,
}

/// Decoded audio, the samples of all channels in turn.
pub struct Pcm<T> {
    pub samples: Vec<T>,
    pub rate: u32,
    pub channels: usize,
}

impl<T: Copy> Decoding<T> {
    /// What has been decoded.
    pub closed spec fn decoded(self) -> Seq<T> {
        self.samples@
    }

    /// The rate, 0 until it is known.
    pub closed spec fn rate(self) -> u32 {
        self.rate
    }

    /// How many channels there are.
    pub closed spec fn channels(self) -> usize {
        self.channels
    }

    pub fn new() -> (r: Decoding<T>)
        ensures
            r.decoded() == Seq::<T>::empty(),
            r.rate() == 0,
            r.channels() == 0,
    {
        Decoding { samples: Vec::new(), rate: 0, channels: 0 }
    }

    /// One more packet has been decoded.
    pub fn packet(&mut self, rate: u32, channels: usize, samples: &[T])
        ensures
            final(self).decoded() == old(self).decoded() + samples@,
            final(self).rate() == if old(self).rate() == 0 {
                rate
            } else {
                old(self).rate()
            },
            final(self).channels() == if old(self).rate() == 0 {
                channels
            } else {
                old(self).channels()
            },
    {
        if self.rate == 0 {
            self.rate = rate;
            self.channels = channels;
        }
        let ghost before = self.samples@;
        let ghost now = *self;
        let mut i: usize = 0;
        while i < samples.len()
            invariant
                i <= samples@.len(),
                self.rate == now.rate,
                self.channels == now.channels,
                self.samples@ == before + samples@.take(i as int),
            decreases samples.len() - i,
        {
            self.samples.push(samples[i]);
            i += 1;
            proof {
                assert(samples@.take(i as int) =~= samples@.take(i - 1).push(samples@[i - 1]));
            }
        }
        proof {
            assert(samples@.take(i as int) =~= samples@);
        }
    }

    /// All packets have been decoded. An error where they held no audio.
    pub fn finish(self) -> (r: Result<Pcm<T>, String>)
        ensures
            r is Ok <==> self.decoded().len() > 0 && self.rate() != 0,
            r matches Ok(pcm) ==> pcm.samples@ == self.decoded() && pcm.rate == self.rate()
                && pcm.channels == self.channels(),
            r matches Err(message) ==> message@ == "no audio frames decoded"@,
    {
        if self.samples.len() == 0 || self.rate == 0 {
            return Err("no audio frames decoded".to_owned());
        }
        Ok(Pcm { samples: self.samples, rate: self.rate, channels: self.channels })
    }
}

/// Whether `len` samples at `rate` have to be resampled to whisper's rate.
pub fn needs_resampling(len: usize, rate: u32) -> (r: bool)
    ensures
        r == (len > 0 && rate != WHISPER_SAMPLE_RATE),
{
    len > 0 && rate as usize != WHISPER_SAMPLE_RATE
}

/// The part of a recording of `len` samples to enroll a voice from: from sample
/// `from` to sample `to`, the whole where none is given. An error where that
/// holds nothing.
pub fn enrollment_range(from: Option<usize>, to: Option<usize>, len: usize) -> (r: Result<
    (usize, usize),
    String,
>)
    ensures
        ({
            let lo = match from {
                Some(n) => n,
                None => 0,
            };
            let hi = match to {
                Some(n) => if n < len {
                    n
                } else {
                    len
                },
                None => len,
            };
            &&& r is Ok <==> lo < hi
            &&& r matches Ok(range) ==> range == (lo, hi)
            &&& r matches Err(message) ==> message@ == "the time range contains no audio"@
        }),
{
    let lo: usize = match from {
        Some(n) => n,
        None => 0,
    };
    let hi: usize = match to {
        Some(n) => if n < len {
            n
        } else {
            len
        },
        None => len,
    };
    if lo < hi {
        Ok((lo, hi))
    } else {
        Err("the time range contains no audio".to_owned())
    }
}

/// The bits of the 32-bit float 0.0001: no sample of a dead input is this large.
pub const SIGNAL_BITS: u32 = 0x38d1_b717;

/// True when there's no usable signal anywhere in the recording, whose samples
/// are given as the bits of 32-bit floats. Even a quiet room leaves a mic noise
/// floor well above this; only a dead input (muted, no permission, unrouted
/// loopback) stays this low throughout.
pub fn is_silent(samples: &[u32]) -> (r: bool)
    ensures
        r == forall|i: int|
            0 <= i < samples@.len() ==> magnitude(#[trigger] samples@[i]) < SIGNAL_BITS,
{
    let mut i: usize = 0;
    while i < samples.len()
        invariant
            i <= samples@.len(),
            forall|k: int| 0 <= k < i ==> magnitude(#[trigger] samples@[k]) < SIGNAL_BITS,
        decreases samples.len() - i,
    {
        let bits = samples[i];
        let size: u32 = if bits < 0x8000_0000 {
            bits
        } else {
            bits - 0x8000_0000
        };
        if size >= SIGNAL_BITS {
            proof {
                assert(magnitude(samples@[i as int]) >= SIGNAL_BITS);
            }
            return false;
        }
        i += 1;
    }
    true
}

} // verus!
