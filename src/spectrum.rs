//! A fixed-resolution spectrum built from the magnitudes of a transform.
//!
//! For a real signal the transform's magnitudes mirror around the middle, and the
//! part worth showing is a leading band of them. Which fraction that is remains a
//! design choice: the band keeps the first `1 / band_divisor` of the magnitudes
//! (at least one). A divisor of 8 keeps a quarter of the unmirrored half; 4 keeps a
//! quarter of all. The band is then resampled onto `FFT_BINS` bins, so that the
//! spectrum has one size whatever the window length or the device.
use crate::resample::{
    accepts_fractions, downsample, is_resampling, lemma_resampling_keeps_closed_property,
};
use vstd::prelude::*;

verus! {

/// Number of bins of every spectrum.
pub const FFT_BINS: usize = 256;

/// Band divisor of a spectrum made by `Freqs::new`: a quarter of the unmirrored half.
pub const DEFAULT_BAND_DIVISOR: usize = 8;

/// Why a spectrum could not be made.
#[derive(Debug, Clone, Copy, PartialEq, Eq, Structural)]
pub enum AnalyzeError {
    /// The window holds no samples: a transform of nothing is undefined.
    EmptyInput,
    /// A band divisor of 0 selects no band.
    ZeroBandDivisor,
}

/// Length of the leading band kept out of `len` magnitudes: `len / band_divisor`, and
/// never less than one.
pub open spec fn band_len(len: nat, band_divisor: nat) -> nat {
    if len / band_divisor == 0 {
        1
    } else {
        len / band_divisor
    }
}

/// Where every magnitude has a property that `lerp` keeps whenever both of its ends
/// have it, so does every bin of the spectrum made from them: non-negative magnitudes,
/// with an interpolation that stays between its ends, give a non-negative spectrum.
pub proof fn lemma_spectrum_keeps_closed_property<T, F: Fn(T, T, usize, usize) -> T>(
    magnitudes: Seq<T>,
    band_divisor: nat,
    bins: Seq<T>,
    lerp: F,
    holds: spec_fn(T) -> bool,
)
    requires
        magnitudes.len() >= 1,
        band_divisor >= 1,
        bins.len() == FFT_BINS,
        is_resampling(
            magnitudes.subrange(0, band_len(magnitudes.len(), band_divisor) as int),
            bins,
            lerp,
        ),
        forall|k: int| 0 <= k < magnitudes.len() ==> holds(#[trigger] magnitudes[k]),
        forall|a: T, b: T, num: usize, den: usize, v: T|
            holds(a) && holds(b) && 0 < num < den && #[trigger] lerp.ensures((a, b, num, den), v)
                ==> holds(v),
    ensures
        forall|i: int| 0 <= i < FFT_BINS ==> holds(#[trigger] bins[i]),
{
    vstd::arithmetic::div_mod::lemma_div_is_ordered_by_denominator(
        magnitudes.len() as int,
        1,
        band_divisor as int,
    );
    let band = magnitudes.subrange(0, band_len(magnitudes.len(), band_divisor) as int);
    assert forall|k: int| 0 <= k < band.len() implies holds(#[trigger] band[k]) by {
        assert(band[k] == magnitudes[k]);
    }
    lemma_resampling_keeps_closed_property(band, bins, lerp, holds);
}

/// The spectrum shown for a window: `FFT_BINS` values, lowest frequency first.
pub struct Freqs<T> {
    bins: Vec<T>,
    band_divisor: usize,
}

impl<T> View for Freqs<T> {
    type V = Seq<T>;

    closed spec fn view(&self) -> Seq<T> {
        self.bins@
    }
}

impl<T: Copy> Freqs<T> {
    /// The divisor that selects the band.
    pub closed spec fn divisor(&self) -> nat {
        self.band_divisor as nat
    }

    /// Exactly `FFT_BINS` bins and a band divisor of at least one.
    pub open spec fn wf(&self) -> bool {
        self@.len() == FFT_BINS && self.divisor() >= 1
    }

    /// A spectrum of `FFT_BINS` copies of `fill`, selecting the band with
    /// `DEFAULT_BAND_DIVISOR`.
    pub fn new(fill: T) -> (r: Self)
        ensures
            r.wf(),
            r@ == Seq::new(FFT_BINS as nat, |k: int| fill),
            r.divisor() == DEFAULT_BAND_DIVISOR,
    {
        Self::filled(fill, DEFAULT_BAND_DIVISOR)
    }

    /// A spectrum of `FFT_BINS` copies of `fill` that keeps the first
    /// `1 / band_divisor` of the magnitudes; a divisor of 0 is refused.
    pub fn with_band_divisor(fill: T, band_divisor: usize) -> (r: Result<Self, AnalyzeError>)
        ensures
            r == Err::<Self, AnalyzeError>(AnalyzeError::ZeroBandDivisor) <==> band_divisor == 0,
            r is Ok <==> band_divisor != 0,
            r matches Ok(f) ==> f.wf() && f@ == Seq::new(FFT_BINS as nat, |k: int| fill)
                && f.divisor() == band_divisor,
    {
        if band_divisor == 0 {
            return Err(AnalyzeError::ZeroBandDivisor);
        }
        Ok(Self::filled(fill, band_divisor))
    }

    fn filled(fill: T, band_divisor: usize) -> (r: Self)
        requires
            band_divisor >= 1,
        ensures
            r.wf(),
            r@ == Seq::new(FFT_BINS as nat, |k: int| fill),
            r.divisor() == band_divisor,
    {
        let mut bins: Vec<T> = Vec::with_capacity(FFT_BINS);
        let mut k: usize = 0;
        while k < FFT_BINS
            invariant
                k <= FFT_BINS,
                bins@ == Seq::new(k as nat, |m: int| fill),
            decreases FFT_BINS - k,
        {
            bins.push(fill);
            k = k + 1;
            proof {
                assert(bins@ =~= Seq::new(k as nat, |m: int| fill));
            }
        }
        Freqs { bins, band_divisor }
    }

    /// The bins, lowest frequency first.
    pub fn bins(&self) -> (r: &[T])
        ensures
            r@ == self@,
    {
        self.bins.as_slice()
    }

    /// The divisor that selects the band.
    pub fn band_divisor(&self) -> (r: usize)
        ensures
            r == self.divisor(),
    {
        self.band_divisor
    }

    /// Refills the bins from the magnitudes of a window's transform, one per sample
    /// of the window: the leading `band_len` of them are resampled onto the bins with
    /// `lerp`. An empty window is refused and leaves the bins as they were.
    pub fn analyze_magnitudes<F: Fn(T, T, usize, usize) -> T>(
        &mut self,
        magnitudes: &[T],
        lerp: &F,
    ) -> (r: Result<(), AnalyzeError>)
        requires
            old(self).wf(),
            accepts_fractions(*lerp),
        ensures
            final(self).wf(),
            final(self).divisor() == old(self).divisor(),
            r == Err::<(), AnalyzeError>(AnalyzeError::EmptyInput) <==> magnitudes@.len() == 0,
            r is Ok <==> magnitudes@.len() != 0,
            r is Err ==> final(self)@ == old(self)@,
            r is Ok ==> is_resampling(
                magnitudes@.subrange(0, band_len(magnitudes@.len(), old(self).divisor()) as int),
                final(self)@,
                *lerp,
            ),
            r is Ok ==> final(self)@[0] == magnitudes@[0],
            r is Ok ==> final(self)@[FFT_BINS - 1] == magnitudes@[band_len(
                magnitudes@.len(),
                old(self).divisor(),
            ) - 1],
    {
        let len = magnitudes.len();
        if len == 0 {
            return Err(AnalyzeError::EmptyInput);
        }
        let mut band = len / self.band_divisor;
        if band == 0 {
            band = 1;
        }
        proof {
            vstd::arithmetic::div_mod::lemma_div_is_ordered_by_denominator(
                len as int,
                1,
                self.band_divisor as int,
            );
        }
        let selected = vstd::slice::slice_subrange(magnitudes, 0, band);
        let done = downsample(selected, self.bins.as_mut_slice(), lerp);
        // the band is never empty and there are more than two bins
        proof {
            assert(done is Ok);
        }
        Ok(())
    }
}

} // verus!
