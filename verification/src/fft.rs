//! Streaming spectral analysis: slicing the raw sample stream into
//! overlapping fixed-size windows, and the shape of the finished spectra.
//!
//! The discrete Fourier transform itself runs on floating-point data
//! outside this crate; this module owns everything around it: how many
//! samples the analyzer pulls, when a window is complete, how the window
//! slides forward by the configured stride, how a spectrum is tagged,
//! and how frequencies map to spectrum bins.

use vstd::arithmetic::div_mod::lemma_div_is_ordered;
use vstd::arithmetic::div_mod::lemma_fundamental_div_mod;
use vstd::arithmetic::div_mod::lemma_fundamental_div_mod_converse_div;
use vstd::arithmetic::div_mod::lemma_mod_bound;
use vstd::prelude::*;

use crate::ring::Ring;

verus! {

/// The bin that holds frequency `freq` (in Hz): `floor(freq / bin_width)`
/// where `bin_width == sample_rate / window_size` Hz.
pub open spec fn spec_index_for_freq(freq: int, window_size: int, sample_rate: int) -> int {
    freq * window_size / sample_rate
}

/// The lowest whole frequency (in Hz) that bin `idx` covers: the bin
/// spans from `idx * bin_width` upward, and this is that bound rounded
/// up to the next whole Hz.
pub open spec fn spec_freq_for_index(idx: int, window_size: int, sample_rate: int) -> int {
    (idx * sample_rate + window_size - 1) / window_size
}

/// Round trip of the frequency mapping: for every bin index, looking up
/// the bin's own frequency finds the same bin again. Whole-Hz
/// frequencies resolve every bin because each bin is at least 1 Hz wide
/// (the window size does not exceed the sample rate).
pub proof fn lemma_freq_index_round_trip(idx: int, window_size: int, sample_rate: int)
    requires
        0 <= idx,
        1 <= window_size <= sample_rate,
    ensures
        spec_index_for_freq(
            spec_freq_for_index(idx, window_size, sample_rate),
            window_size,
            sample_rate,
        ) == idx,
{
    let ws = window_size;
    let sr = sample_rate;
    let f = (idx * sr + ws - 1) / ws;
    lemma_fundamental_div_mod(idx * sr + ws - 1, ws);
    lemma_mod_bound(idx * sr + ws - 1, ws);
    let r = (idx * sr + ws - 1) % ws;
    assert(ws * f == idx * sr + ws - 1 - r);
    assert(idx * sr <= f * ws < idx * sr + sr) by {
        assert(f * ws == ws * f) by (nonlinear_arith);
    }
    lemma_fundamental_div_mod_converse_div(f * ws, sr, idx, f * ws - idx * sr);
}

/// One finished power spectrum: one value per non-negative frequency
/// bin from 0 Hz up to the Nyquist frequency, tagged with the window
/// size and sample rate it was computed against.
///
/// The bin values are generic: the caller that runs the transform fills
/// them in whatever numeric type it uses, while the shape and the
/// frequency mapping are fixed here.
pub struct Spectrum<B> {
    pub bins: Vec<B>,
    pub window_size: usize,
    pub sample_rate: u32,
}

impl<B> Spectrum<B> {
    /// Well-formedness: a positive window no longer than the sample
    /// rate (so every bin is at least 1 Hz wide), and exactly one bin
    /// per non-negative frequency, 0 Hz through Nyquist.
    pub open spec fn wf(self) -> bool {
        &&& 1 <= self.window_size
        &&& self.window_size <= self.sample_rate
        &&& self.bins@.len() == self.window_size / 2 + 1
    }

    /// The bin index holding frequency `freq` Hz. May point past the
    /// last bin when `freq` lies beyond Nyquist.
    pub fn index_for_freq(&self, freq: u32) -> (r: usize)
        requires
            self.wf(),
        ensures
            r == spec_index_for_freq(freq as int, self.window_size as int, self.sample_rate as int),
    {
        proof {
            let ws = self.window_size as int;
            let sr = self.sample_rate as int;
            let fr = freq as int;
            assert(fr * ws <= fr * sr) by (nonlinear_arith)
                requires
                    0 <= fr,
                    ws <= sr,
            ;
            assert(fr * sr <= 0xffff_ffff * 0xffff_ffff) by (nonlinear_arith)
                requires
                    0 <= fr <= 0xffff_ffff,
                    0 <= sr <= 0xffff_ffff,
            ;
            lemma_div_is_ordered(fr * ws, fr * sr, sr);
            assert(fr * sr / sr == fr) by (nonlinear_arith)
                requires
                    sr >= 1,
            ;
        }
        let q = (freq as u64 * self.window_size as u64) / (self.sample_rate as u64);
        q as usize
    }

    /// The lowest whole frequency (in Hz) that falls in bin `idx`.
    pub fn freq_for_index(&self, idx: usize) -> (r: u32)
        requires
            self.wf(),
            idx < self.bins@.len(),
        ensures
            r == spec_freq_for_index(idx as int, self.window_size as int, self.sample_rate as int),
    {
        proof {
            let ws = self.window_size as int;
            let sr = self.sample_rate as int;
            let i = idx as int;
            assert(i * sr <= ws * sr) by (nonlinear_arith)
                requires
                    0 <= i <= ws,
                    0 <= sr,
            ;
            assert(ws * sr <= 0xffff_ffff * 0xffff_ffff) by (nonlinear_arith)
                requires
                    0 <= ws <= 0xffff_ffff,
                    0 <= sr <= 0xffff_ffff,
            ;
            lemma_div_is_ordered(i * sr + ws - 1, ws * sr + ws - 1, ws);
            assert((ws * sr + ws - 1) / ws == sr) by {
                assert(ws * sr + ws - 1 == sr * ws + (ws - 1)) by (nonlinear_arith);
                lemma_fundamental_div_mod_converse_div(ws * sr + ws - 1, ws, sr, ws - 1);
            }
        }
        let n = ((idx as u64) * (self.sample_rate as u64) + (self.window_size as u64) - 1) / (
        self.window_size as u64);
        n as u32
    }
}

impl<B: Copy> Spectrum<B> {
    /// Look up the power at frequency `freq` Hz. A frequency beyond the
    /// last bin yields no value rather than a fault.
    pub fn get_value_at_frequency(&self, freq: u32) -> (r: Option<B>)
        requires
            self.wf(),
        ensures
            ({
                let idx = spec_index_for_freq(
                    freq as int,
                    self.window_size as int,
                    self.sample_rate as int,
                );
                match r {
                    Some(b) => idx < self.bins@.len() && b == self.bins@[idx],
                    None => idx >= self.bins@.len(),
                }
            }),
    {
        let idx = self.index_for_freq(freq);
        if idx >= self.bins.len() {
            None
        } else {
            Some(self.bins[idx])
        }
    }
}

/// The streaming analyzer: pulls raw samples from a bounded queue,
/// accumulates them into fixed-size windows that overlap by
/// `window_size - stride` samples, and hands each completed window out
/// for transformation.
///
/// The transform itself (a real-input discrete Fourier transform and
/// the squared magnitude of each bin) runs outside this crate; the
/// caller feeds its output back through [`FftProcessor::make_spectrum`]
/// to obtain a correctly shaped, correctly tagged [`Spectrum`].
pub struct FftProcessor<T> {
    window_size: usize,
    stride: usize,
    sample_rate: u32,
    samples: Vec<T>,
}

impl<T> FftProcessor<T> {
    /// Number of samples per analysis window.
    pub closed spec fn window_size(self) -> nat {
        self.window_size as nat
    }

    /// Number of samples the window advances between spectra.
    pub closed spec fn stride(self) -> nat {
        self.stride as nat
    }

    /// The sample rate the analyzer tags its spectra with.
    pub closed spec fn sample_rate(self) -> nat {
        self.sample_rate as nat
    }

    /// Samples pulled from the queue but not yet consumed by a
    /// completed window.
    pub closed spec fn pending(self) -> Seq<T> {
        self.samples@
    }

    /// Well-formedness: a valid configuration (positive stride no longer
    /// than the window, window no longer than the sample rate) and
    /// strictly fewer pending samples than one window, which holds again
    /// after every completed analysis because the window slides forward.
    pub open spec fn wf(self) -> bool {
        &&& 1 <= self.stride() <= self.window_size()
        &&& self.window_size() <= self.sample_rate()
        &&& self.pending().len() < self.window_size()
    }

    /// Create an analyzer with no pending samples. The configuration
    /// errors (a zero stride, a stride beyond the window) are excluded
    /// up front rather than discovered later.
    pub fn new(window_size: usize, stride: usize, sample_rate: u32) -> (r: Self)
        requires
            1 <= stride <= window_size,
            window_size <= sample_rate,
        ensures
            r.wf(),
            r.window_size() == window_size,
            r.stride() == stride,
            r.sample_rate() == sample_rate,
            r.pending() == Seq::<T>::empty(),
    {
        let r = FftProcessor { window_size, stride, sample_rate, samples: Vec::new() };
        proof {
            assert(r.pending() =~= Seq::<T>::empty());
        }
        r
    }

    /// Tag transform output as a finished spectrum carrying the
    /// analyzer's window size and sample rate. The caller hands in one
    /// power value per non-negative frequency bin of the window it was
    /// given by [`FftProcessor::poll`].
    pub fn make_spectrum<B>(&self, bins: Vec<B>) -> (r: Spectrum<B>)
        requires
            self.wf(),
            bins@.len() == self.window_size() / 2 + 1,
        ensures
            r.wf(),
            r.bins@ == bins@,
            r.window_size == self.window_size(),
            r.sample_rate == self.sample_rate(),
    {
        Spectrum { bins, window_size: self.window_size, sample_rate: self.sample_rate }
    }
}

impl<T: Copy> FftProcessor<T> {
    /// Pull whatever samples are available (never blocking) and, once a
    /// full window has accumulated, hand it out and slide forward by
    /// the stride.
    ///
    /// Returns the completed window of exactly `window_size` samples,
    /// oldest first, or nothing when not enough samples have arrived
    /// yet; the `window_size - stride` samples kept back are the
    /// overlap carried into the next window.
    pub fn poll(&mut self, source: &mut Ring<T>) -> (r: Option<Vec<T>>)
        requires
            old(self).wf(),
            old(source).wf(),
        ensures
            final(self).wf(),
            final(source).wf(),
            final(self).window_size() == old(self).window_size(),
            final(self).stride() == old(self).stride(),
            final(self).sample_rate() == old(self).sample_rate(),
            final(source).capacity() == old(source).capacity(),
            ({
                let need = old(self).window_size() - old(self).pending().len();
                let pulled = if need <= old(source)@.len() {
                    need as int
                } else {
                    old(source)@.len() as int
                };
                let combined = old(self).pending() + old(source)@.subrange(0, pulled);
                &&& final(source)@ == old(source)@.subrange(pulled, old(source)@.len() as int)
                &&& if combined.len() == old(self).window_size() {
                    match r {
                        Some(w) => w@ == combined && final(self).pending() == combined.subrange(
                            old(self).stride() as int,
                            combined.len() as int,
                        ),
                        None => false,
                    }
                } else {
                    r is None && final(self).pending() == combined
                }
            }),
    {
        let ghost pre = *self;
        if self.samples.len() < self.window_size {
            let need = self.window_size - self.samples.len();
            let mut got = source.recv_many(need);
            self.samples.append(&mut got);
        }
        if self.samples.len() < self.window_size {
            None
        } else {
            let mut rest: Vec<T> = Vec::new();
            let mut j: usize = self.stride;
            while j < self.samples.len()
                invariant
                    pre.stride as int <= j <= self.samples.len(),
                    rest@ == self.samples@.subrange(pre.stride as int, j as int),
                    *self == (FftProcessor { samples: self.samples, ..pre }),
                decreases self.samples.len() - j,
            {
                let v = self.samples[j];
                rest.push(v);
                j += 1;
                proof {
                    assert(rest@ =~= self.samples@.subrange(pre.stride as int, j as int));
                }
            }
            let mut window = rest;
            core::mem::swap(&mut self.samples, &mut window);
            Some(window)
        }
    }
}

} // verus!
