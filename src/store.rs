//! The rolling window of the most recent captured samples.
//!
//! A capture stream delivers batches of interleaved frames; the store keeps the
//! first channel of each frame and holds on to the newest `capacity` of them.
use vstd::prelude::*;

verus! {

/// Why capture parameters or a batch were refused.
#[derive(Debug, Clone, Copy, PartialEq, Eq, Structural)]
pub enum CaptureError {
    /// The stream claims to carry no channels.
    ZeroChannels,
    /// The window would hold more samples than this machine can index.
    CapacityTooLarge,
}

/// What the store needs to know of a capture stream.
#[derive(Debug, Clone, Copy, PartialEq, Eq, Structural)]
pub struct CaptureFormat {
    /// Interleaved channels per frame.
    pub channels: u16,
    /// Samples per second, all channels together.
    pub sample_rate: u32,
}

/// Samples that `target_millis` milliseconds of one channel hold: the real value
/// `target_millis / 1000 * sample_rate / channels`, rounded to the nearest whole
/// sample (halves up).
pub open spec fn window_len(target_millis: nat, sample_rate: nat, channels: nat) -> nat {
    (2 * target_millis * sample_rate + 1000 * channels) / (2000 * channels)
}

/// Number of single-channel samples to keep for a window of `target_millis`
/// milliseconds of a stream in `format`.
pub fn num_samples_to_save(target_millis: u32, format: &CaptureFormat) -> (r: Result<usize, CaptureError>)
    ensures
        r == Err::<usize, CaptureError>(CaptureError::ZeroChannels) <==> format.channels == 0,
        r == Err::<usize, CaptureError>(CaptureError::CapacityTooLarge) <==> format.channels != 0
            && window_len(target_millis as nat, format.sample_rate as nat, format.channels as nat)
            > usize::MAX,
        r is Ok <==> format.channels != 0 && window_len(
            target_millis as nat,
            format.sample_rate as nat,
            format.channels as nat,
        ) <= usize::MAX,
        r matches Ok(n) ==> n == window_len(
            target_millis as nat,
            format.sample_rate as nat,
            format.channels as nat,
        ),
{
    if format.channels == 0 {
        return Err(CaptureError::ZeroChannels);
    }
    let channels: u128 = format.channels as u128;
    proof {
        assert(2 * (target_millis as int) * (format.sample_rate as int) <= 2 * 0xffff_ffff
            * 0xffff_ffff) by (nonlinear_arith)
            requires
                target_millis <= 0xffff_ffff,
                format.sample_rate <= 0xffff_ffff,
        ;
    }
    let twice: u128 = 2 * (target_millis as u128) * (format.sample_rate as u128);
    let n: u128 = (twice + 1000 * channels) / (2000 * channels);
    if n > usize::MAX as u128 {
        return Err(CaptureError::CapacityTooLarge);
    }
    Ok(n as usize)
}

/// The first channel of interleaved frames of `channels` samples each: the samples at
/// indices `0, channels, 2 * channels, ...`. A short last frame still gives its first
/// sample.
pub open spec fn first_channel<T>(batch: Seq<T>, channels: nat) -> Seq<T> {
    Seq::new(frame_count(batch.len(), channels), |k: int| batch[k * channels])
}

/// Frames, the last one possibly short, in `len` interleaved samples.
pub open spec fn frame_count(len: nat, channels: nat) -> nat {
    if len % channels == 0 {
        len / channels
    } else {
        len / channels + 1
    }
}

/// The newest `capacity` values of `s`, or all of them where there are fewer.
pub open spec fn keep_recent<T>(s: Seq<T>, capacity: nat) -> Seq<T> {
    if s.len() > capacity {
        s.subrange(s.len() - capacity, s.len() as int)
    } else {
        s
    }
}

proof fn lemma_short_frame_needs_two_channels(len: int, channels: int)
    requires
        channels > 0,
        0 <= len <= usize::MAX,
        len % channels != 0,
    ensures
        len / channels + 1 <= usize::MAX,
{
    vstd::arithmetic::div_mod::lemma_fundamental_div_mod(len, channels);
    vstd::arithmetic::div_mod::lemma_mod_bound(len, channels);
    assert(channels * (len / channels) <= len - 1);
    assert(len / channels < len) by (nonlinear_arith)
        requires
            channels >= 1,
            len >= 1,
            channels * (len / channels) <= len - 1,
    ;
}

proof fn lemma_frame_start_in_batch(k: int, channels: int, len: int)
    requires
        channels > 0,
        len >= 0,
        0 <= k < frame_count(len as nat, channels as nat),
    ensures
        0 <= k * channels < len,
{
    vstd::arithmetic::div_mod::lemma_fundamental_div_mod(len, channels);
    vstd::arithmetic::div_mod::lemma_mod_bound(len, channels);
    let q = len / channels;
    let r = len % channels;
    if r == 0 {
        assert(k * channels <= (q - 1) * channels) by (nonlinear_arith)
            requires
                k <= q - 1,
                channels > 0,
        ;
        assert((q - 1) * channels == q * channels - channels) by (nonlinear_arith);
        assert(q * channels == channels * q) by (nonlinear_arith);
    } else {
        assert(k * channels <= q * channels) by (nonlinear_arith)
            requires
                k <= q,
                channels > 0,
        ;
        assert(q * channels == channels * q) by (nonlinear_arith);
    }
    assert(0 <= k * channels) by (nonlinear_arith)
        requires
            k >= 0,
            channels > 0,
    ;
}

/// With a single channel every sample of a batch is kept, in order.
pub proof fn lemma_single_channel_keeps_all<T>(batch: Seq<T>)
    ensures
        first_channel(batch, 1) == batch,
{
    vstd::arithmetic::div_mod::lemma_div_basics(batch.len() as int);
    vstd::arithmetic::div_mod::lemma_small_mod(0, 1);
    vstd::arithmetic::div_mod::lemma_mod_multiples_basic(batch.len() as int, 1);
    assert(batch.len() * 1 == batch.len());
    assert(first_channel(batch, 1) =~= batch);
}

/// Where more samples arrive than fit, the window is full and holds exactly the
/// newest `capacity` of them in arrival order; where the new samples alone fill it,
/// nothing older is left.
pub proof fn lemma_overfull_append_keeps_newest<T>(held: Seq<T>, added: Seq<T>, capacity: nat)
    requires
        held.len() <= capacity,
        held.len() + added.len() > capacity,
    ensures
        keep_recent(held + added, capacity).len() == capacity,
        forall|k: int|
            0 <= k < capacity ==> #[trigger] keep_recent(held + added, capacity)[k] == (held
                + added)[held.len() + added.len() - capacity + k],
        added.len() >= capacity ==> keep_recent(held + added, capacity) == added.subrange(
            added.len() - capacity,
            added.len() as int,
        ),
{
    if added.len() >= capacity {
        assert(keep_recent(held + added, capacity) =~= added.subrange(
            added.len() - capacity,
            added.len() as int,
        ));
    }
}

/// Appending in two steps leaves the same window as appending everything at once:
/// the window only ever depends on the whole history of samples.
pub proof fn lemma_appends_compose<T>(held: Seq<T>, first: Seq<T>, second: Seq<T>, capacity: nat)
    ensures
        keep_recent(keep_recent(held + first, capacity) + second, capacity) == keep_recent(
            held + first + second,
            capacity,
        ),
{
    let all = held + first + second;
    let mid = keep_recent(held + first, capacity);
    assert(keep_recent(mid + second, capacity) =~= keep_recent(all, capacity));
}

/// A bounded window of the most recent samples, oldest first.
pub struct SampleStore<T> {
    samples: Vec<T>,
    capacity: usize,
}

impl<T> View for SampleStore<T> {
    type V = Seq<T>;

    closed spec fn view(&self) -> Seq<T> {
        self.samples@
    }
}

impl<T: Copy> SampleStore<T> {
    /// Largest number of samples the store holds.
    pub closed spec fn max_len(&self) -> nat {
        self.capacity as nat
    }

    /// The store never holds more than its capacity.
    pub open spec fn wf(&self) -> bool {
        self@.len() <= self.max_len()
    }

    /// An empty store that will keep at most `capacity` samples.
    pub fn new(capacity: usize) -> (r: Self)
        ensures
            r@ == Seq::<T>::empty(),
            r.max_len() == capacity,
            r.wf(),
    {
        SampleStore { samples: Vec::new(), capacity }
    }

    /// Replaces the window with one of `capacity` samples: the newest of those held,
    /// preceded by copies of `fill` where there are too few.
    pub fn resize(&mut self, capacity: usize, fill: T)
        ensures
            final(self).max_len() == capacity,
            final(self).wf(),
            old(self)@.len() >= capacity ==> final(self)@ == keep_recent(old(self)@, capacity as nat),
            old(self)@.len() < capacity ==> final(self)@ == Seq::new(
                (capacity - old(self)@.len()) as nat,
                |k: int| fill,
            ) + old(self)@,
    {
        let held = self.samples.len();
        let mut out: Vec<T> = Vec::with_capacity(capacity);
        if held < capacity {
            let pad = capacity - held;
            let mut k: usize = 0;
            while k < pad
                invariant
                    k <= pad,
                    out@ == Seq::new(k as nat, |m: int| fill),
                decreases pad - k,
            {
                out.push(fill);
                k = k + 1;
                proof {
                    assert(out@ =~= Seq::new(k as nat, |m: int| fill));
                }
            }
        }
        let ghost base = out@;
        let mut i: usize = if held > capacity { held - capacity } else { 0 };
        let ghost from = i as int;
        while i < held
            invariant
                held == self.samples@.len(),
                0 <= from <= i <= held,
                out@ == base + self.samples@.subrange(from, i as int),
            decreases held - i,
        {
            out.push(self.samples[i]);
            i = i + 1;
            proof {
                assert(out@ =~= base + self.samples@.subrange(from, i as int));
            }
        }
        proof {
            if held >= capacity {
                assert(out@ =~= keep_recent(self.samples@, capacity as nat));
            } else {
                assert(self.samples@.subrange(0, held as int) =~= self.samples@);
            }
        }
        self.samples = out;
        self.capacity = capacity;
    }

    /// Adds the first channel of a batch of interleaved frames and drops the oldest
    /// samples beyond capacity. A batch with no channels is refused and changes
    /// nothing.
    pub fn append(&mut self, batch: &[T], channels: usize) -> (r: Result<(), CaptureError>)
        requires
            old(self).wf(),
        ensures
            final(self).wf(),
            final(self).max_len() == old(self).max_len(),
            r == Err::<(), CaptureError>(CaptureError::ZeroChannels) <==> channels == 0,
            r is Ok <==> channels != 0,
            r is Err ==> final(self)@ == old(self)@,
            r is Ok ==> final(self)@ == keep_recent(
                old(self)@ + first_channel(batch@, channels as nat),
                old(self).max_len(),
            ),
    {
        if channels == 0 {
            return Err(CaptureError::ZeroChannels);
        }
        let blen = batch.len();
        let frames: usize = if blen % channels == 0 {
            blen / channels
        } else {
            proof {
                lemma_short_frame_needs_two_channels(blen as int, channels as int);
            }
            blen / channels + 1
        };
        let ghost picked = first_channel(batch@, channels as nat);
        let ghost before = self.samples@;
        let mut k: usize = 0;
        while k < frames
            invariant
                channels > 0,
                blen == batch@.len(),
                frames == frame_count(blen as nat, channels as nat),
                picked == first_channel(batch@, channels as nat),
                k <= frames,
                self.samples@ == before + picked.subrange(0, k as int),
                self.capacity == old(self).capacity,
            decreases frames - k,
        {
            proof {
                lemma_frame_start_in_batch(k as int, channels as int, blen as int);
            }
            let j: usize = k * channels;
            self.samples.push(batch[j]);
            k = k + 1;
            proof {
                assert(self.samples@ =~= before + picked.subrange(0, k as int));
            }
        }
        proof {
            assert(picked.subrange(0, frames as int) =~= picked);
        }
        let held = self.samples.len();
        if held > self.capacity {
            let mut kept: Vec<T> = Vec::with_capacity(self.capacity);
            let start = held - self.capacity;
            let mut i: usize = start;
            while i < held
                invariant
                    held == self.samples@.len(),
                    start <= i <= held,
                    kept@ == self.samples@.subrange(start as int, i as int),
                decreases held - i,
            {
                kept.push(self.samples[i]);
                i = i + 1;
                proof {
                    assert(kept@ =~= self.samples@.subrange(start as int, i as int));
                }
            }
            self.samples = kept;
        }
        Ok(())
    }

    /// Number of samples held now.
    pub fn len(&self) -> (r: usize)
        ensures
            r == self@.len(),
    {
        self.samples.len()
    }

    /// Largest number of samples the store holds.
    pub fn capacity(&self) -> (r: usize)
        ensures
            r == self.max_len(),
    {
        self.capacity
    }

    /// An owned copy of the samples held now, oldest first.
    pub fn snapshot(&self) -> (r: Vec<T>)
        ensures
            r@ == self@,
    {
        let mut out: Vec<T> = Vec::with_capacity(self.samples.len());
        let mut i: usize = 0;
        while i < self.samples.len()
            invariant
                i <= self.samples@.len(),
                out@ == self.samples@.subrange(0, i as int),
            decreases self.samples@.len() - i,
        {
            out.push(self.samples[i]);
            i = i + 1;
            proof {
                assert(out@ =~= self.samples@.subrange(0, i as int));
            }
        }
        proof {
            assert(out@ =~= self.samples@);
        }
        out
    }
}

} // verus!
