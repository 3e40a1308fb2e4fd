//! Zero-stuffing: raising the sample rate sixteenfold by putting silence
//! between the samples of the source.

use vstd::prelude::*;
use vstd::arithmetic::div_mod::{lemma_mod_bound, lemma_mod_multiples_vanish, lemma_small_mod};
use crate::quantize::CENTER;
use crate::source::{
    cycle_len, lemma_wrapped_add, lemma_wrapped_step, looped, wrapped, SampleSource,
};

verus! {

/// How many output values stand for one sample of the source.
pub const FACTOR: usize = 16;

/// What a re-centred sample is multiplied by on its way into the stream.
pub const GAIN: i32 = 15;

/// The value at index `k` of the zero-stuffed stream over the endless
/// repetition of `samples`: at every sixteenth index a sample of the source,
/// re-centred around zero and scaled by the gain, and zero in between.
pub open spec fn zero_stuffed(samples: Seq<u8>, k: int) -> int {
    if k % 16 == 0 {
        GAIN * (looped(samples, k / 16) - CENTER)
    } else {
        0
    }
}

/// The number of output values after which the stream over `samples`
/// repeats.
pub open spec fn period(samples: Seq<u8>) -> int {
    16 * cycle_len(samples)
}

/// Zero-stuffing by sixteen: the value at index `16 * i + r` of the stream is
/// sample `i` of the looping source, re-centred and scaled, where `r` is
/// zero, and zero at the fifteen places after it. Within the first pass,
/// sample `i` of the looping source is sample `i` of the array.
pub proof fn lemma_zero_stuffed_places(samples: Seq<u8>, i: int, r: int)
    requires
        0 <= i,
        0 <= r < 16,
    ensures
        r == 0 ==> zero_stuffed(samples, 16 * i + r) == GAIN * (looped(samples, i) - CENTER),
        r != 0 ==> zero_stuffed(samples, 16 * i + r) == 0,
        i < samples.len() ==> looped(samples, i) == samples[i],
        (16 * i + r) % 16 == 0 <==> r == 0,
{
    if i < samples.len() {
        lemma_small_mod(i as nat, samples.len());
    }
}

/// Every value of the stream is a re-centred sample times the gain, so it
/// lies between `-128 * GAIN` and `127 * GAIN`.
pub proof fn lemma_zero_stuffed_range(samples: Seq<u8>, k: int)
    requires
        0 <= k,
    ensures
        -1920 <= zero_stuffed(samples, k) <= 1905,
{
    if samples.len() > 0 {
        lemma_mod_bound(k / 16, samples.len() as int);
    }
}

/// A source of silence gives a stream of zeros.
pub proof fn lemma_silence_stuffs_to_zero(samples: Seq<u8>, k: int)
    requires
        0 <= k,
        forall|i: int| 0 <= i < samples.len() ==> samples[i] == CENTER,
    ensures
        zero_stuffed(samples, k) == 0,
{
    if samples.len() > 0 {
        lemma_mod_bound(k / 16, samples.len() as int);
    }
}

/// The stream repeats with every pass over the source.
pub proof fn lemma_zero_stuffed_periodic(samples: Seq<u8>, k: int, passes: int)
    requires
        0 <= k,
        0 <= passes,
    ensures
        zero_stuffed(samples, k + passes * period(samples)) == zero_stuffed(samples, k),
{
    let len = cycle_len(samples);
    let shift = len * passes;
    assert(passes * period(samples) == 16 * shift) by (nonlinear_arith)
        requires
            period(samples) == 16 * len,
            shift == len * passes,
    ;
    assert((k + 16 * shift) % 16 == k % 16);
    assert((k + 16 * shift) / 16 == k / 16 + shift);
    if samples.len() > 0 {
        lemma_mod_multiples_vanish(passes, k / 16, len);
    }
}

/// A lazily wrapped cursor reads the same value as the unwrapped one.
pub proof fn lemma_zero_stuffed_wrapped(samples: Seq<u8>, total: int)
    requires
        0 <= total,
    ensures
        zero_stuffed(samples, wrapped(total, period(samples))) == zero_stuffed(samples, total),
{
    reveal(wrapped);
    let p = period(samples);
    if total > 0 {
        let passes = (total - 1) / p;
        assert(total - 1 == p * passes + (total - 1) % p && 0 <= passes) by (nonlinear_arith)
            requires
                passes == (total - 1) / p,
                p > 0,
                total > 0,
        ;
        assert(passes * p == p * passes) by (nonlinear_arith);
        lemma_mod_bound(total - 1, p);
        lemma_zero_stuffed_periodic(samples, wrapped(total, p), passes);
    }
}

/// A zero-stuffing upsampler over a looping byte array.
///
/// Each value it hands out moves its cursor one step along the stream
/// `zero_stuffed`. The cursor counts the values handed out in the current
/// pass over the source and wraps lazily, as the source does.
pub struct Upsample16<'a> {
    source: SampleSource<'a>,
    i_out: usize,
}

impl<'a> Upsample16<'a> {
    /// The bytes of the source.
    pub closed spec fn samples(&self) -> Seq<u8> {
        self.source.samples()
    }

    /// The index in the stream of the value that comes next, within the
    /// current pass over the source.
    pub closed spec fn cursor(&self) -> int {
        if self.i_out == 0 {
            16 * self.source.taken()
        } else {
            16 * (self.source.taken() - 1) + self.i_out
        }
    }

    /// The cursor lies within one pass, and the position in the source
    /// agrees with it.
    pub closed spec fn wf(&self) -> bool {
        &&& self.source.wf()
        &&& self.i_out < 16
        &&& self.i_out > 0 ==> self.source.taken() >= 1
    }

    /// How many samples of the current pass have entered the stream.
    pub open spec fn consumed(&self) -> int {
        (self.cursor() + 15) / 16
    }

    /// The next `n` values of the stream.
    pub open spec fn upcoming(&self, n: nat) -> Seq<i32> {
        Seq::new(n, |j: int| zero_stuffed(self.samples(), self.cursor() + j) as i32)
    }

    /// Whether `self` is what `before` becomes by handing out `n` values.
    pub open spec fn follows(&self, before: &Self, n: nat) -> bool {
        &&& self.wf()
        &&& self.samples() == before.samples()
        &&& self.cursor() == wrapped(before.cursor() + n, period(before.samples()))
    }

    /// The cursor of a well-formed upsampler lies within one pass.
    pub proof fn lemma_cursor_bounds(&self)
        requires
            self.wf(),
        ensures
            0 <= self.cursor() <= period(self.samples()),
    {
    }

    /// Handing out `n` values and then `m` more is handing out `n + m`: the
    /// states follow one another, and the values are those that were upcoming
    /// at the start.
    pub proof fn lemma_follows_on(&self, before: &Self, then: &Self, n: nat, m: nat)
        requires
            before.wf(),
            self.follows(before, n),
            then.follows(self, m),
        ensures
            then.follows(before, n + m),
            before.upcoming(n + m) =~= before.upcoming(n) + self.upcoming(m),
    {
        let samples = before.samples();
        let p = period(samples);
        lemma_wrapped_add(before.cursor() + n, m as int, p);
        assert forall|k: int| 0 <= k < n + m implies #[trigger] before.upcoming(n + m)[k] == (
        before.upcoming(n) + self.upcoming(m))[k] by {
            if k >= n {
                let j = k - n;
                lemma_wrapped_add(before.cursor() + n, j, p);
                lemma_zero_stuffed_wrapped(samples, self.cursor() + j);
                lemma_zero_stuffed_wrapped(samples, before.cursor() + n + j);
            }
        }
    }

    /// The stream comes round: after whole passes over the source, sixteen
    /// values for each sample of a pass, the same values are upcoming again.
    pub proof fn lemma_upcoming_repeats(&self, before: &Self, passes: nat, n: nat)
        requires
            before.wf(),
            self.follows(before, passes * (period(before.samples()) as nat)),
        ensures
            self.upcoming(n) =~= before.upcoming(n),
    {
        let samples = before.samples();
        let p = period(samples);
        let round = passes * (p as nat);
        assert(round == passes * p) by (nonlinear_arith)
            requires
                round == passes * (p as nat),
                p > 0,
        ;
        assert forall|j: int| 0 <= j < n implies #[trigger] self.upcoming(n)[j] == before.upcoming(
            n,
        )[j] by {
            lemma_wrapped_add(before.cursor() + round, j, p);
            lemma_zero_stuffed_wrapped(samples, self.cursor() + j);
            lemma_zero_stuffed_wrapped(samples, before.cursor() + round + j);
            lemma_zero_stuffed_periodic(samples, before.cursor() + j, passes as int);
        }
    }

    /// An upsampler at the start of `source`.
    pub fn new(source: &'a [u8]) -> (upsampler: Self)
        ensures
            upsampler.wf(),
            upsampler.samples() == source@,
            upsampler.cursor() == 0,
    {
        Upsample16 { source: SampleSource::new(source), i_out: 0 }
    }

    /// The place of the next value within its window of sixteen.
    pub fn phase(&self) -> (phase: usize)
        requires
            self.wf(),
        ensures
            phase == self.cursor() % 16,
            phase < 16,
    {
        self.i_out
    }

    /// How many samples of the current pass have entered the stream.
    pub fn position(&self) -> (consumed: usize)
        requires
            self.wf(),
        ensures
            consumed == self.consumed(),
    {
        self.source.position()
    }

    /// Hands out the next value of the stream.
    pub fn next(&mut self) -> (value: i32)
        requires
            old(self).wf(),
        ensures
            final(self).follows(old(self), 1),
            value == zero_stuffed(old(self).samples(), old(self).cursor()),
    {
        proof {
            lemma_wrapped_step(self.cursor(), period(self.samples()));
            lemma_wrapped_step(self.source.taken(), cycle_len(self.samples()));
        }
        let value: i32 = if self.i_out == 0 {
            let level: u8 = self.source.next();
            GAIN * (level as i32 - CENTER as i32)
        } else {
            0
        };
        self.i_out = (self.i_out + 1) % FACTOR;
        value
    }

    /// Fills `dest` with the next values of the stream, and says whether
    /// samples of the current pass over the source are still to come.
    pub fn fill(&mut self, dest: &mut [i32]) -> (more: bool)
        requires
            old(self).wf(),
        ensures
            final(self).follows(old(self), old(dest)@.len()),
            final(dest)@ == old(self).upcoming(old(dest)@.len()),
            more == (final(self).consumed() < old(self).samples().len()),
    {
        let n: usize = dest.len();
        let mut j: usize = 0;
        proof {
            lemma_wrapped_step(self.cursor(), period(self.samples()));
        }
        while j < n
            invariant
                j <= n,
                n == dest@.len(),
                n == old(dest)@.len(),
                old(self).wf(),
                self.follows(old(self), j as nat),
                forall|i: int|
                    0 <= i < j ==> dest@[i] == zero_stuffed(
                        old(self).samples(),
                        old(self).cursor() + i,
                    ),
            decreases n - j,
        {
            proof {
                lemma_zero_stuffed_wrapped(self.samples(), old(self).cursor() + j);
                lemma_wrapped_add(old(self).cursor() + j, 1, period(self.samples()));
            }
            let value: i32 = self.next();
            dest[j] = value;
            j = j + 1;
        }
        assert(dest@ =~= old(self).upcoming(n as nat));
        !self.source.exhausted()
    }
}

} // verus!
