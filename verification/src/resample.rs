//! The resampler: zero-stuffing, a smoothing stage, and requantisation, put
//! together into one pull-based transform from sample bytes to duty values.
//!
//! The smoothing stage is a function from a state and an input to the next
//! state and an output, all whole numbers on the outside. What it computes
//! inside is the caller's; the contracts here say which inputs it is given,
//! in which order its states are threaded, and what becomes of its outputs.

use vstd::prelude::*;
use crate::quantize::{requantize, requantized, CENTER};
use crate::source::lemma_wrapped_step;
use crate::upsample::{
    lemma_silence_stuffs_to_zero, lemma_zero_stuffed_range, period, zero_stuffed, Upsample16, GAIN,
};

verus! {

/// Whether `states` and `output` are what `stage` goes through on `input`:
/// each call takes the state that the call before it left.
pub open spec fn runs<S, F: Fn(S, i32) -> (S, i32)>(
    stage: F,
    states: Seq<S>,
    input: Seq<i32>,
    output: Seq<i32>,
) -> bool {
    &&& states.len() == input.len() + 1
    &&& output.len() == input.len()
    &&& forall|k: int|
        0 <= k < input.len() ==> call_ensures(
            stage,
            (#[trigger] states[k], input[k]),
            (states[k + 1], output[k]),
        )
}

/// Whether `stage`, started in the state `before`, can turn `input` into
/// `output` and end in the state `after`.
pub open spec fn smooths<S, F: Fn(S, i32) -> (S, i32)>(
    stage: F,
    before: S,
    input: Seq<i32>,
    after: S,
    output: Seq<i32>,
) -> bool {
    exists|states: Seq<S>|
        #![trigger runs(stage, states, input, output)]
        runs(stage, states, input, output) && states[0] == before && states[input.len() as int]
            == after
}

/// Whether `stage` accepts every state with every value that the
/// zero-stuffed stream can hold.
pub open spec fn accepts<S, F: Fn(S, i32) -> (S, i32)>(stage: F) -> bool {
    forall|state: S, x: i32| -128 * GAIN <= x <= 127 * GAIN ==> call_requires(stage, (state, x))
}

/// The duty values of smoothed samples, one for one.
pub open spec fn requantized_all(filtered: Seq<i32>) -> Seq<u8> {
    Seq::new(filtered.len(), |i: int| requantized(filtered[i] as int) as u8)
}

/// The zero-stuffed stream of one pass over `samples`: sixteen values for
/// each sample.
pub open spec fn stuffed(samples: Seq<u8>) -> Seq<i32> {
    Seq::new(16 * samples.len(), |k: int| zero_stuffed(samples, k) as i32)
}

/// Whether `duties` can come out of resampling `samples` with `stage`
/// started in `state`.
pub open spec fn resampled<S, F: Fn(S, i32) -> (S, i32)>(
    stage: F,
    state: S,
    samples: Seq<u8>,
    duties: Seq<u8>,
) -> bool {
    exists|after: S, filtered: Seq<i32>|
        #![trigger smooths(stage, state, stuffed(samples), after, filtered)]
        smooths(stage, state, stuffed(samples), after, filtered) && duties == requantized_all(
            filtered,
        )
}

/// Running a stage on one input and then on another is running it on both.
pub proof fn lemma_smooths_on<S, F: Fn(S, i32) -> (S, i32)>(
    stage: F,
    before: S,
    input: Seq<i32>,
    between: S,
    output: Seq<i32>,
    more_input: Seq<i32>,
    after: S,
    more_output: Seq<i32>,
)
    requires
        smooths(stage, before, input, between, output),
        smooths(stage, between, more_input, after, more_output),
    ensures
        smooths(stage, before, input + more_input, after, output + more_output),
{
    let first = choose|states: Seq<S>|
        #![trigger runs(stage, states, input, output)]
        runs(stage, states, input, output) && states[0] == before && states[input.len() as int]
            == between;
    let second = choose|states: Seq<S>|
        #![trigger runs(stage, states, more_input, more_output)]
        runs(stage, states, more_input, more_output) && states[0] == between
            && states[more_input.len() as int] == after;
    let n = input.len() as int;
    let all = first + second.skip(1);
    let all_input = input + more_input;
    let all_output = output + more_output;
    assert forall|k: int| 0 <= k < all_input.len() implies call_ensures(
        stage,
        (#[trigger] all[k], all_input[k]),
        (all[k + 1], all_output[k]),
    ) by {
        if k < n {
            assert(all[k] == first[k]);
            assert(all[k + 1] == first[k + 1]);
        } else {
            assert(all[k] == second[k - n]);
            assert(all[k + 1] == second[k - n + 1]);
            assert(all_input[k] == more_input[k - n]);
            assert(all_output[k] == more_output[k - n]);
        }
    }
    assert(runs(stage, all, all_input, all_output));
    assert(all[0] == before);
    assert(all[all_input.len() as int] == after);
}

/// A resampling gives sixteen duty values for each sample, each of them a
/// requantised output of the stage and so within the unsigned 8-bit range.
pub proof fn lemma_resampled_in_range<S, F: Fn(S, i32) -> (S, i32)>(
    stage: F,
    state: S,
    samples: Seq<u8>,
    duties: Seq<u8>,
)
    requires
        resampled(stage, state, samples, duties),
    ensures
        duties.len() == 16 * samples.len(),
        forall|k: int| 0 <= k < duties.len() ==> 0 <= #[trigger] duties[k] <= 255,
{
}

/// Whether `stage` answers a zero with a zero in every state of `at_rest`,
/// and ends in a state of `at_rest` when it does.
pub open spec fn rests<S, F: Fn(S, i32) -> (S, i32)>(
    stage: F,
    at_rest: spec_fn(S) -> bool,
) -> bool {
    forall|s: S, t: S, y: i32|
        at_rest(s) && #[trigger] call_ensures(stage, (s, 0i32), (t, y)) ==> y == 0 && at_rest(t)
}

/// A stage that is at rest stays at rest on zeros and gives out zeros.
proof fn lemma_rest_persists<S, F: Fn(S, i32) -> (S, i32)>(
    stage: F,
    states: Seq<S>,
    input: Seq<i32>,
    output: Seq<i32>,
    at_rest: spec_fn(S) -> bool,
    k: int,
)
    requires
        runs(stage, states, input, output),
        forall|j: int| 0 <= j < input.len() ==> input[j] == 0,
        at_rest(states[0]),
        rests(stage, at_rest),
        0 <= k <= input.len(),
    ensures
        at_rest(states[k]),
        forall|j: int| 0 <= j < k ==> output[j] == 0,
    decreases k,
{
    if k > 0 {
        lemma_rest_persists(stage, states, input, output, at_rest, k - 1);
        let j = k - 1;
        assert(call_ensures(stage, (states[j], input[j]), (states[j + 1], output[j])));
    }
}

/// Silence in, silence out: where the stage, from the state it starts in,
/// answers zeros with zeros, resampling a source of silence gives the centre
/// value throughout. `at_rest` names the states in which the stage does so.
pub proof fn lemma_silence_stays_centred<S, F: Fn(S, i32) -> (S, i32)>(
    stage: F,
    state: S,
    samples: Seq<u8>,
    duties: Seq<u8>,
    at_rest: spec_fn(S) -> bool,
)
    requires
        resampled(stage, state, samples, duties),
        forall|i: int| 0 <= i < samples.len() ==> samples[i] == CENTER,
        at_rest(state),
        rests(stage, at_rest),
    ensures
        forall|k: int| 0 <= k < duties.len() ==> duties[k] == CENTER,
{
    let input = stuffed(samples);
    let (after, filtered) = choose|after: S, filtered: Seq<i32>|
        #![trigger smooths(stage, state, stuffed(samples), after, filtered)]
        smooths(stage, state, stuffed(samples), after, filtered) && duties == requantized_all(
            filtered,
        );
    let states = choose|states: Seq<S>|
        #![trigger runs(stage, states, input, filtered)]
        runs(stage, states, input, filtered) && states[0] == state && states[input.len() as int]
            == after;
    assert forall|j: int| 0 <= j < input.len() implies input[j] == 0 by {
        lemma_silence_stuffs_to_zero(samples, j);
    }
    lemma_rest_persists(stage, states, input, filtered, at_rest, input.len() as int);
}

/// A resampler over a looping byte array: an upsampler, the smoothing stage
/// and the state that the stage has reached.
pub struct Resampler<'a, S, F> {
    upsampler: Upsample16<'a>,
    state: S,
    stage: F,
}

impl<'a, S: Copy, F: Fn(S, i32) -> (S, i32)> Resampler<'a, S, F> {
    /// The upsampler that feeds the stage.
    pub closed spec fn upsampler(&self) -> Upsample16<'a> {
        self.upsampler
    }

    /// The state that the stage has reached.
    pub closed spec fn spec_state(&self) -> S {
        self.state
    }

    /// The smoothing stage.
    pub closed spec fn stage(&self) -> F {
        self.stage
    }

    /// The upsampler is well-formed and the stage accepts what it hands out.
    pub open spec fn wf(&self) -> bool {
        &&& self.upsampler().wf()
        &&& accepts(self.stage())
    }

    /// Whether `self` is what `before` becomes by handing out `duties`: the
    /// upsampler has moved on by as many values, the stage has been run on
    /// exactly those values from the state it was in, and `duties` are its
    /// outputs, requantised.
    pub open spec fn follows(&self, before: &Self, duties: Seq<u8>) -> bool {
        &&& self.wf()
        &&& self.stage() == before.stage()
        &&& self.upsampler().follows(&before.upsampler(), duties.len())
        &&& exists|filtered: Seq<i32>|
            #![trigger requantized_all(filtered)]
            smooths(
                before.stage(),
                before.state(),
                before.upsampler().upcoming(duties.len()),
                self.state(),
                filtered,
            ) && duties == requantized_all(filtered)
    }

    /// Handing out `duties` and then `more` is handing out both in a row.
    pub proof fn lemma_follows_on(&self, before: &Self, then: &Self, duties: Seq<u8>, more: Seq<u8>)
        requires
            before.wf(),
            self.follows(before, duties),
            then.follows(self, more),
        ensures
            then.follows(before, duties + more),
    {
        let n = duties.len();
        let m = more.len();
        let filtered = choose|filtered: Seq<i32>|
            #![trigger requantized_all(filtered)]
            smooths(
                before.stage(),
                before.state(),
                before.upsampler().upcoming(n),
                self.state(),
                filtered,
            ) && duties == requantized_all(filtered);
        let more_filtered = choose|filtered: Seq<i32>|
            #![trigger requantized_all(filtered)]
            smooths(
                self.stage(),
                self.state(),
                self.upsampler().upcoming(m),
                then.state(),
                filtered,
            ) && more == requantized_all(filtered);
        self.upsampler().lemma_follows_on(&before.upsampler(), &then.upsampler(), n, m);
        lemma_smooths_on(
            before.stage(),
            before.state(),
            before.upsampler().upcoming(n),
            self.state(),
            filtered,
            self.upsampler().upcoming(m),
            then.state(),
            more_filtered,
        );
        assert(filtered.len() == n && more_filtered.len() == m);
        assert(duties + more =~= requantized_all(filtered + more_filtered));
        assert((duties + more).len() == n + m);
    }

    /// Handing out nothing leaves a resampler as it is.
    pub proof fn lemma_follows_nothing(&self)
        requires
            self.wf(),
        ensures
            self.follows(self, Seq::<u8>::empty()),
    {
        let none = Seq::<i32>::empty();
        self.upsampler().lemma_cursor_bounds();
        lemma_wrapped_step(self.upsampler().cursor(), period(self.upsampler().samples()));
        assert(runs(self.stage(), seq![self.state()], self.upsampler().upcoming(0), none));
        assert(smooths(
            self.stage(),
            self.state(),
            self.upsampler().upcoming(0),
            self.state(),
            none,
        ));
        assert(Seq::<u8>::empty() =~= requantized_all(none));
    }

    /// A resampler at the start of `source`, with its stage in `state`.
    pub fn new(source: &'a [u8], state: S, stage: F) -> (resampler: Self)
        requires
            accepts(stage),
        ensures
            resampler.wf(),
            resampler.stage() == stage,
            resampler.state() == state,
            resampler.upsampler().samples() == source@,
            resampler.upsampler().cursor() == 0,
    {
        Resampler { upsampler: Upsample16::new(source), state, stage }
    }

    /// The state that the stage has reached.
    #[verifier::when_used_as_spec(spec_state)]
    pub fn state(&self) -> (state: S)
        ensures
            state == self.state(),
    {
        self.state
    }

    /// Hands out the next duty value: the next value of the zero-stuffed
    /// stream, passed through the stage and requantised.
    pub fn next(&mut self) -> (duty: u8)
        requires
            old(self).wf(),
        ensures
            final(self).follows(old(self), seq![duty]),
    {
        proof {
            self.upsampler.lemma_cursor_bounds();
            lemma_zero_stuffed_range(self.upsampler.samples(), self.upsampler.cursor());
        }
        let x: i32 = self.upsampler.next();
        let (state, y) = (self.stage)(self.state, x);
        self.state = state;
        proof {
            let states = seq![old(self).state, state];
            let input = old(self).upsampler().upcoming(1);
            let filtered = seq![y];
            assert(runs(self.stage, states, input, filtered));
            assert(smooths(old(self).stage(), old(self).state(), input, self.state(), filtered));
            assert(seq![requantized(y as int) as u8] =~= requantized_all(filtered));
        }
        requantize(y)
    }

    /// Fills `dest` with the next duty values.
    pub fn fill(&mut self, dest: &mut [u8])
        requires
            old(self).wf(),
        ensures
            final(dest)@.len() == old(dest)@.len(),
            final(self).follows(old(self), final(dest)@),
    {
        let n: usize = dest.len();
        let mut j: usize = 0;
        proof {
            old(self).lemma_follows_nothing();
            assert(dest@.take(0) =~= Seq::<u8>::empty());
        }
        while j < n
            invariant
                j <= n,
                n == dest@.len(),
                old(self).wf(),
                self.follows(old(self), dest@.take(j as int)),
            decreases n - j,
        {
            let ghost here = *self;
            let ghost done = dest@.take(j as int);
            let duty: u8 = self.next();
            dest[j] = duty;
            proof {
                here.lemma_follows_on(old(self), self, done, seq![duty]);
                assert(dest@.take(j + 1) =~= done + seq![duty]);
            }
            j = j + 1;
        }
        assert(dest@.take(n as int) =~= dest@);
    }
}

/// Resamples one pass over `source`: sixteen duty values for each sample,
/// the zero-stuffed stream passed through `stage` from `state` on and
/// requantised.
pub fn resample<S: Copy, F: Fn(S, i32) -> (S, i32)>(source: &[u8], state: S, stage: F) -> (duties:
    Vec<u8>)
    requires
        accepts(stage),
    ensures
        duties@.len() == 16 * source@.len(),
        resampled(stage, state, source@, duties@),
{
    let mut resampler = Resampler::new(source, state, stage);
    let ghost start = resampler;
    let mut duties: Vec<u8> = Vec::new();
    let len: usize = source.len();
    let mut i: usize = 0;
    let mut q: usize = 0;
    proof {
        start.lemma_follows_nothing();
    }
    while i < len
        invariant
            i <= len,
            len == source@.len(),
            q < 16,
            i == len ==> q == 0,
            duties@.len() == 16 * i + q,
            start.wf(),
            start.stage() == stage,
            start.state() == state,
            start.upsampler().samples() == source@,
            start.upsampler().cursor() == 0,
            resampler.follows(&start, duties@),
        decreases 16 * (len - i) - q,
    {
        let ghost here = resampler;
        let ghost done = duties@;
        let duty: u8 = resampler.next();
        duties.push(duty);
        proof {
            here.lemma_follows_on(&start, &resampler, done, seq![duty]);
            assert(duties@ =~= done + seq![duty]);
        }
        q = q + 1;
        if q == 16 {
            q = 0;
            i = i + 1;
        }
    }
    proof {
        assert(start.upsampler().upcoming(duties@.len()) =~= stuffed(source@));
    }
    duties
}

} // verus!
