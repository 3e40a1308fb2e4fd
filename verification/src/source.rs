//! The sample source: an endless, restartable sequence over a byte array.

use vstd::prelude::*;
use vstd::arithmetic::div_mod::{
    lemma_add_mod_noop, lemma_mod_bound, lemma_mod_self_0, lemma_mod_twice, lemma_small_mod,
};
use crate::quantize::CENTER;

verus! {

/// The length of one pass over `samples`. An empty array plays as a single
/// sample of silence, so a pass is never empty.
pub open spec fn cycle_len(samples: Seq<u8>) -> int {
    if samples.len() == 0 {
        1
    } else {
        samples.len() as int
    }
}

/// The `k`-th sample of the endless sequence that repeats `samples`.
pub open spec fn looped(samples: Seq<u8>, k: int) -> u8 {
    if samples.len() == 0 {
        CENTER
    } else {
        samples[k % (samples.len() as int)]
    }
}

/// Where a count that wraps lazily stands after `total` steps from zero: it
/// runs from 1 up to `period` and only then starts over, so it shows `period`
/// where an eager count would already show 0.
#[verifier::opaque]
pub open spec fn wrapped(total: int, period: int) -> int {
    if total <= 0 {
        0
    } else {
        (total - 1) % period + 1
    }
}

/// One more step of a lazily wrapping count: it goes up by one, or from
/// `period` back to 1.
pub proof fn lemma_wrapped_step(count: int, period: int)
    requires
        0 <= count <= period,
        0 < period,
    ensures
        wrapped(count, period) == count,
        wrapped(count + 1, period) == if count == period {
            1
        } else {
            count + 1
        },
{
    reveal(wrapped);
    if 0 < count {
        lemma_small_mod((count - 1) as nat, period as nat);
    }
    if count < period {
        lemma_small_mod(count as nat, period as nat);
    } else {
        lemma_mod_self_0(period);
    }
}

/// Steps of a lazily wrapping count add up: `more` steps from where `total`
/// steps led are `total + more` steps from zero.
pub proof fn lemma_wrapped_add(total: int, more: int, period: int)
    requires
        0 <= total,
        0 <= more,
        0 < period,
    ensures
        0 <= wrapped(total, period) <= period,
        wrapped(wrapped(total, period) + more, period) == wrapped(total + more, period),
{
    reveal(wrapped);
    if total > 0 {
        lemma_mod_bound(total - 1, period);
    }
    let here = wrapped(total, period);
    if more == 0 {
        lemma_wrapped_step(here, period);
    } else if total > 0 {
        lemma_add_mod_noop(total - 1, more, period);
        lemma_add_mod_noop((total - 1) % period, more, period);
        lemma_mod_twice(total - 1, period);
    }
}

/// A reader that hands out the bytes of an array in order and starts over
/// when it has handed out the last one.
///
/// The reader wraps lazily: after the last sample of a pass it reports the
/// pass as exhausted, and only the next read goes back to the start.
pub struct SampleSource<'a> {
    samples: &'a [u8],
    taken: usize,
}

impl<'a> SampleSource<'a> {
    /// The array that is read.
    pub closed spec fn samples(&self) -> Seq<u8> {
        self.samples@
    }

    /// How many samples of the current pass have been handed out.
    pub closed spec fn taken(&self) -> int {
        self.taken as int
    }

    /// A pass never hands out more than it holds.
    pub open spec fn wf(&self) -> bool {
        0 <= self.taken() <= cycle_len(self.samples())
    }

    /// Whether every sample of the current pass has been handed out.
    pub open spec fn is_exhausted(&self) -> bool {
        self.taken() >= self.samples().len()
    }

    /// A reader at the start of `samples`.
    pub fn new(samples: &'a [u8]) -> (source: Self)
        ensures
            source.wf(),
            source.samples() == samples@,
            source.taken() == 0,
    {
        SampleSource { samples, taken: 0 }
    }

    /// Hands out the next sample, wrapping to the start of the array after
    /// its last byte.
    pub fn next(&mut self) -> (level: u8)
        requires
            old(self).wf(),
        ensures
            final(self).wf(),
            final(self).samples() == old(self).samples(),
            level == looped(old(self).samples(), old(self).taken()),
            final(self).taken() == wrapped(old(self).taken() + 1, cycle_len(old(self).samples())),
    {
        let len: usize = self.samples.len();
        proof {
            lemma_wrapped_step(self.taken as int, cycle_len(self.samples@));
        }
        if len == 0 {
            self.taken = 1;
            return CENTER;
        }
        proof {
            if self.taken < len {
                lemma_small_mod(self.taken as nat, len as nat);
            } else {
                lemma_mod_self_0(len as int);
            }
        }
        if self.taken >= len {
            self.taken = 0;
        }
        let level: u8 = self.samples[self.taken];
        self.taken = self.taken + 1;
        level
    }

    /// How many samples of the current pass have been handed out.
    pub fn position(&self) -> (taken: usize)
        ensures
            taken == self.taken(),
    {
        self.taken
    }

    /// Goes back to the start of the array.
    pub fn restart(&mut self)
        ensures
            final(self).wf(),
            final(self).samples() == old(self).samples(),
            final(self).taken() == 0,
    {
        self.taken = 0;
    }

    /// Whether every sample of the current pass has been handed out, so that
    /// the next read starts the array over.
    pub fn exhausted(&self) -> (done: bool)
        ensures
            done == self.is_exhausted(),
    {
        self.taken >= self.samples.len()
    }
}

} // verus!
