//! The double-buffered streamer: two blocks of duty words that a sink plays
//! in turn, each refilled from the resampler when, and only when, the sink
//! has reported it as played to the end.

use vstd::prelude::*;
use crate::quantize::{duty_word, duty_word_of, CENTER};
use crate::resample::{accepts, Resampler};

verus! {

/// One of the two blocks that the sink plays in turn.
#[derive(Clone, Copy, Debug, PartialEq, Eq, Structural)]
pub enum Block {
    A,
    B,
}

/// Which blocks a poll has refilled. For each of them the sink's signal is
/// answered and is to be cleared.
#[derive(Clone, Copy, Debug, PartialEq, Eq, Structural)]
pub struct Refilled {
    pub a: bool,
    pub b: bool,
}

/// The duty words of duty values, one for one.
pub open spec fn duty_words(duties: Seq<u8>) -> Seq<u16> {
    Seq::new(duties.len(), |i: int| duty_word_of(duties[i] as int) as u16)
}

/// A block of `n` words of silence.
pub open spec fn silence(n: nat) -> Seq<u16> {
    Seq::new(n, |i: int| duty_word_of(CENTER as int) as u16)
}

/// Fills `block` with the duty words of the next values of `resampler`.
fn refill<'a, S: Copy, F: Fn(S, i32) -> (S, i32), const N: usize>(
    resampler: &mut Resampler<'a, S, F>,
    block: &mut [u16; N],
) -> (duties: Ghost<Seq<u8>>)
    requires
        old(resampler).wf(),
    ensures
        duties@.len() == N,
        final(resampler).follows(old(resampler), duties@),
        final(block)@ == duty_words(duties@),
{
    let n: usize = N;
    let ghost mut duties: Seq<u8> = Seq::empty();
    let mut j: usize = 0;
    proof {
        old(resampler).lemma_follows_nothing();
    }
    while j < n
        invariant
            j <= n,
            n == block@.len(),
            duties.len() == j,
            old(resampler).wf(),
            resampler.follows(old(resampler), duties),
            forall|i: int| 0 <= i < j ==> block@[i] == duty_word_of(duties[i] as int),
        decreases n - j,
    {
        let ghost here = *resampler;
        let ghost done = duties;
        let duty: u8 = resampler.next();
        block[j] = duty_word(duty);
        proof {
            duties = done.push(duty);
            assert(resampler.follows(old(resampler), duties)) by {
                here.lemma_follows_on(old(resampler), resampler, done, seq![duty]);
                assert(done + seq![duty] =~= duties);
            }
        }
        j = j + 1;
    }
    assert(block@ =~= duty_words(duties));
    Ghost(duties)
}

/// The streamer: the resampler, the two blocks, and whether the sink has
/// them.
///
/// Before playback starts the blocks are the software's. `start` fills both
/// and hands them over. From then on a block is the sink's until the sink
/// reports it as played to the end; `poll` takes such a block back, refills
/// it, and returns it to the sink within the same call.
pub struct Streamer<'a, S, F, const N: usize> {
    resampler: Resampler<'a, S, F>,
    block_a: [u16; N],
    block_b: [u16; N],
    playing: bool,
    underruns: u32,
}

impl<'a, S: Copy, F: Fn(S, i32) -> (S, i32), const N: usize> Streamer<'a, S, F, N> {
    /// The resampler that the blocks are filled from.
    pub closed spec fn resampler(&self) -> Resampler<'a, S, F> {
        self.resampler
    }

    /// The duty words that a block holds.
    pub closed spec fn words(&self, which: Block) -> Seq<u16> {
        match which {
            Block::A => self.block_a@,
            Block::B => self.block_b@,
        }
    }

    /// Whether the blocks have been handed to the sink.
    pub closed spec fn spec_is_playing(&self) -> bool {
        self.playing
    }

    /// How many polls have found both blocks reported at once.
    pub closed spec fn spec_underruns(&self) -> u32 {
        self.underruns
    }

    /// The resampler is well-formed, and each block holds `N` words.
    pub open spec fn wf(&self) -> bool {
        &&& self.resampler().wf()
        &&& self.words(Block::A).len() == N
        &&& self.words(Block::B).len() == N
    }

    /// Whether `duties` are what the resampler hands out between `before` and
    /// `self`, and the blocks that are refilled hold their duty words: block
    /// A, if `a`, the first of them, and block B, if `b`, those after.
    pub open spec fn delivers(&self, before: &Self, a: bool, b: bool, duties: Seq<u8>) -> bool {
        let first: nat = if a {
            N as nat
        } else {
            0
        };
        let second: nat = if b {
            N as nat
        } else {
            0
        };
        &&& duties.len() == first + second
        &&& self.resampler().follows(&before.resampler(), duties)
        &&& a ==> self.words(Block::A) == duty_words(duties.take(first as int))
        &&& b ==> self.words(Block::B) == duty_words(duties.skip(first as int))
    }

    /// Whether `self` is what `before` becomes by refilling block A if `a`
    /// and block B if `b`, A first: the refilled blocks hold the duty words
    /// of the next values of the resampler, in order and without a gap, and
    /// a block that is not refilled holds what it held.
    pub open spec fn refills(&self, before: &Self, a: bool, b: bool) -> bool {
        &&& self.wf()
        &&& !a ==> self.words(Block::A) == before.words(Block::A)
        &&& !b ==> self.words(Block::B) == before.words(Block::B)
        &&& exists|duties: Seq<u8>| self.delivers(before, a, b, duties)
    }

    /// Whether `self` is what `before` becomes in a poll that finds block A
    /// reported if `a_done` and block B if `b_done`: once playback has
    /// started, the reported blocks are refilled, and both reported at once
    /// count as an underrun; nothing else changes.
    pub open spec fn polled(&self, before: &Self, a_done: bool, b_done: bool) -> bool {
        let a = before.is_playing() && a_done;
        let b = before.is_playing() && b_done;
        &&& self.refills(before, a, b)
        &&& self.is_playing() == before.is_playing()
        &&& self.underruns() == if a && b && before.underruns() < u32::MAX {
            before.underruns() + 1
        } else {
            before.underruns() as int
        }
        &&& !a && !b ==> *self == *before
    }

    /// Whether `states` is a run of polls: each state is what the one before
    /// it becomes in a poll that finds reported what `a_done` and `b_done`
    /// say at its place.
    pub open spec fn polls(states: Seq<Self>, a_done: Seq<bool>, b_done: Seq<bool>) -> bool {
        &&& states.len() == a_done.len() + 1
        &&& b_done.len() == a_done.len()
        &&& forall|i: int|
            0 <= i < a_done.len() ==> (#[trigger] states[i + 1]).polled(
                &states[i],
                a_done[i],
                b_done[i],
            )
    }

    /// A block that the sink does not report is never touched: over any run
    /// of polls, block A holds at the end what it held at the start unless
    /// one of the polls found it reported, and so does block B. Playback,
    /// once started, stays started, and the count of underruns never falls.
    pub proof fn lemma_unreported_block_is_kept(
        states: Seq<Self>,
        a_done: Seq<bool>,
        b_done: Seq<bool>,
    )
        requires
            Self::polls(states, a_done, b_done),
        ensures
            (forall|i: int| 0 <= i < a_done.len() ==> !a_done[i]) ==> states.last().words(Block::A)
                == states[0].words(Block::A),
            (forall|i: int| 0 <= i < b_done.len() ==> !b_done[i]) ==> states.last().words(Block::B)
                == states[0].words(Block::B),
            states.last().is_playing() == states[0].is_playing(),
            states.last().underruns() >= states[0].underruns(),
        decreases a_done.len(),
    {
        let n = a_done.len() as int;
        if n > 0 {
            assert(states[n - 1 + 1].polled(&states[n - 1], a_done[n - 1], b_done[n - 1]));
            let earlier = states.drop_last();
            let a_earlier = a_done.drop_last();
            let b_earlier = b_done.drop_last();
            assert forall|i: int| 0 <= i < a_earlier.len() implies (#[trigger] earlier[i
                + 1]).polled(&earlier[i], a_earlier[i], b_earlier[i]) by {
                assert(states[i + 1].polled(&states[i], a_done[i], b_done[i]));
            }
            Self::lemma_unreported_block_is_kept(earlier, a_earlier, b_earlier);
            assert(earlier.last() == states[n - 1]);
            assert(earlier[0] == states[0]);
            if forall|i: int| 0 <= i < a_done.len() ==> !a_done[i] {
                assert(!a_done[n - 1]);
                assert forall|i: int| 0 <= i < a_earlier.len() implies !a_earlier[i] by {
                    assert(!a_done[i]);
                }
            }
            if forall|i: int| 0 <= i < b_done.len() ==> !b_done[i] {
                assert(!b_done[n - 1]);
                assert forall|i: int| 0 <= i < b_earlier.len() implies !b_earlier[i] by {
                    assert(!b_done[i]);
                }
            }
        }
    }

    /// The stream goes on from block to block without a gap: refilling A in
    /// one poll and B in the next leaves what refilling both in one poll
    /// leaves.
    pub proof fn lemma_refills_in_turn(&self, before: &Self, then: &Self)
        requires
            before.wf(),
            self.refills(before, true, false),
            then.refills(self, false, true),
        ensures
            then.refills(before, true, true),
    {
        let n = N as nat;
        let first = choose|duties: Seq<u8>| self.delivers(before, true, false, duties);
        let second = choose|duties: Seq<u8>| then.delivers(self, false, true, duties);
        self.resampler().lemma_follows_on(&before.resampler(), &then.resampler(), first, second);
        let duties = first + second;
        assert(first.take(n as int) =~= first);
        assert(second.skip(0) =~= second);
        assert(duties.take(n as int) =~= first);
        assert(duties.skip(n as int) =~= second);
        assert(then.delivers(before, true, true, duties));
    }

    /// Whether the blocks have been handed to the sink.
    #[verifier::when_used_as_spec(spec_is_playing)]
    pub fn is_playing(&self) -> (playing: bool)
        ensures
            playing == self.is_playing(),
    {
        self.playing
    }

    /// How many polls have found both blocks reported at once. The count
    /// stops at the largest number it can hold.
    #[verifier::when_used_as_spec(spec_underruns)]
    pub fn underruns(&self) -> (count: u32)
        ensures
            count == self.underruns(),
    {
        self.underruns
    }

    /// A block, for the sink to read.
    pub fn block(&self, which: Block) -> (words: &[u16; N])
        ensures
            words@ == self.words(which),
    {
        match which {
            Block::A => &self.block_a,
            Block::B => &self.block_b,
        }
    }

    /// A streamer over `source` whose blocks hold silence and have not been
    /// handed to the sink.
    pub fn new(source: &'a [u8], state: S, stage: F) -> (streamer: Self)
        requires
            accepts(stage),
        ensures
            streamer.wf(),
            streamer.resampler().stage() == stage,
            streamer.resampler().state() == state,
            streamer.resampler().upsampler().samples() == source@,
            streamer.resampler().upsampler().cursor() == 0,
            streamer.words(Block::A) == silence(N as nat),
            streamer.words(Block::B) == silence(N as nat),
            !streamer.is_playing(),
            streamer.underruns() == 0,
    {
        let word: u16 = duty_word(CENTER);
        let block_a: [u16; N] = [word; N];
        let block_b: [u16; N] = [word; N];
        assert(block_a@ =~= silence(N as nat));
        assert(block_b@ =~= silence(N as nat));
        Streamer {
            resampler: Resampler::new(source, state, stage),
            block_a,
            block_b,
            playing: false,
            underruns: 0,
        }
    }

    /// Fills both blocks, A first, and hands them to the sink. Does nothing
    /// once the blocks have been handed over. Says whether it did the
    /// hand-over.
    pub fn start(&mut self) -> (started: bool)
        requires
            old(self).wf(),
        ensures
            started == !old(self).is_playing(),
            final(self).is_playing(),
            final(self).underruns() == old(self).underruns(),
            started ==> final(self).refills(old(self), true, true),
            !started ==> *final(self) == *old(self),
    {
        if self.playing {
            return false;
        }
        let ghost n = N as nat;
        let ghost before = self.resampler;
        let first = refill(&mut self.resampler, &mut self.block_a);
        let ghost between = self.resampler;
        let second = refill(&mut self.resampler, &mut self.block_b);
        self.playing = true;
        proof {
            let duties = first@ + second@;
            between.lemma_follows_on(&before, &self.resampler, first@, second@);
            assert(duties.take(n as int) =~= first@);
            assert(duties.skip(n as int) =~= second@);
            assert(self.delivers(old(self), true, true, duties));
        }
        true
    }

    /// Answers the sink's signals. `a_done` and `b_done` say whether the sink
    /// has reported block A and block B as played to the end. A reported
    /// block is refilled, A before B; a block that is not reported is left
    /// alone, and so are both before playback has started. Both reported at
    /// once means that the sink has gone round without a refill: that is
    /// counted as an underrun.
    pub fn poll(&mut self, a_done: bool, b_done: bool) -> (refilled: Refilled)
        requires
            old(self).wf(),
        ensures
            refilled.a == (old(self).is_playing() && a_done),
            refilled.b == (old(self).is_playing() && b_done),
            final(self).polled(old(self), a_done, b_done),
    {
        let a: bool = self.playing && a_done;
        let b: bool = self.playing && b_done;
        let ghost before = self.resampler;
        let ghost mut first: Seq<u8> = Seq::empty();
        let ghost mut second: Seq<u8> = Seq::empty();
        proof {
            before.lemma_follows_nothing();
        }
        if a && b && self.underruns < u32::MAX {
            self.underruns = self.underruns + 1;
        }
        if a {
            let duties = refill(&mut self.resampler, &mut self.block_a);
            proof {
                first = duties@;
            }
        }
        let ghost between = self.resampler;
        proof {
            between.lemma_follows_nothing();
        }
        if b {
            let duties = refill(&mut self.resampler, &mut self.block_b);
            proof {
                second = duties@;
            }
        }
        proof {
            let duties = first + second;
            between.lemma_follows_on(&before, &self.resampler, first, second);
            assert(duties.take(first.len() as int) =~= first);
            assert(duties.skip(first.len() as int) =~= second);
            assert(self.delivers(old(self), a, b, duties));
        }
        Refilled { a, b }
    }
}

} // verus!
