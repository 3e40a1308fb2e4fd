//! Second-order filter sections and their cascade, over any sample type.
//!
//! A section keeps the histories of the recurrence, reads them in the order
//! that the recurrence asks for, and shifts them afterwards. The arithmetic
//! of the sample type is the caller's: it comes in as a function that
//! carries out one multiplication, addition or subtraction at a time.

use vstd::prelude::*;

verus! {

/// An operation of the arithmetic of a sample type.
#[derive(Clone, Copy, Debug, PartialEq, Eq, Structural)]
pub enum Op {
    Mul,
    Add,
    Sub,
}

/// Whether `arith` carries out every operation on all operands.
pub open spec fn total<T, A: Fn(Op, T, T) -> T>(arith: A) -> bool {
    forall|op: Op, a: T, b: T| call_requires(arith, (op, a, b))
}

/// Whether `arith` can give `r` for `a op b`.
pub open spec fn gives<T, A: Fn(Op, T, T) -> T>(arith: A, op: Op, a: T, b: T, r: T) -> bool {
    call_ensures(arith, (op, a, b), r)
}

/// Whether `out` is what the recurrence
/// `b[0] * x[0] + b[1] * x[1] + b[2] * x[2] - a[1] * y[0] - a[2] * y[1]`
/// gives on the last inputs `x` and the last outputs `y`, both most recent
/// first, with `b` the first and `a` the second triple of `c`, when `arith`
/// carries it out from left to right and `parts` are the eight results on
/// the way.
pub open spec fn recurrence_by<T, A: Fn(Op, T, T) -> T>(
    arith: A,
    x: [T; 3],
    y: [T; 2],
    c: [[T; 3]; 2],
    parts: Seq<T>,
    out: T,
) -> bool {
    let b = c[0];
    let a = c[1];
    &&& parts.len() == 8
    &&& gives(arith, Op::Mul, b[0], x[0], parts[0])
    &&& gives(arith, Op::Mul, b[1], x[1], parts[1])
    &&& gives(arith, Op::Add, parts[0], parts[1], parts[2])
    &&& gives(arith, Op::Mul, b[2], x[2], parts[3])
    &&& gives(arith, Op::Add, parts[2], parts[3], parts[4])
    &&& gives(arith, Op::Mul, a[1], y[0], parts[5])
    &&& gives(arith, Op::Sub, parts[4], parts[5], parts[6])
    &&& gives(arith, Op::Mul, a[2], y[1], parts[7])
    &&& gives(arith, Op::Sub, parts[6], parts[7], out)
}

/// Whether `out` can come out of the recurrence on `x`, `y` and `c`.
pub open spec fn recurrence<T, A: Fn(Op, T, T) -> T>(
    arith: A,
    x: [T; 3],
    y: [T; 2],
    c: [[T; 3]; 2],
    out: T,
) -> bool {
    exists|parts: Seq<T>| recurrence_by(arith, x, y, c, parts, out)
}

/// The recurrence of a second-order section:
/// `b[0] * x[0] + b[1] * x[1] + b[2] * x[2] - a[1] * y[0] - a[2] * y[1]`,
/// carried out by `arith` from left to right.
pub fn biquad<T: Copy, A: Fn(Op, T, T) -> T>(
    x: &[T; 3],
    y: &[T; 2],
    c: &[[T; 3]; 2],
    arith: &A,
) -> (y0: T)
    requires
        total(*arith),
    ensures
        recurrence(*arith, *x, *y, *c, y0),
{
    let b = c[0];
    let a = c[1];
    let b0x0: T = arith(Op::Mul, b[0], x[0]);
    let b1x1: T = arith(Op::Mul, b[1], x[1]);
    let sum1: T = arith(Op::Add, b0x0, b1x1);
    let b2x2: T = arith(Op::Mul, b[2], x[2]);
    let sum2: T = arith(Op::Add, sum1, b2x2);
    let a1y0: T = arith(Op::Mul, a[1], y[0]);
    let sum3: T = arith(Op::Sub, sum2, a1y0);
    let a2y1: T = arith(Op::Mul, a[2], y[1]);
    let y0: T = arith(Op::Sub, sum3, a2y1);
    proof {
        let parts = seq![b0x0, b1x1, sum1, b2x2, sum2, a1y0, sum3, a2y1];
        assert(recurrence_by(*arith, *x, *y, *c, parts, y0));
    }
    y0
}

/// One second-order stage: its coefficients, its last three inputs and its
/// last two outputs, each most recent first.
#[derive(Clone, Copy)]
pub struct Section<T> {
    c: [[T; 3]; 2],
    xs: [T; 3],
    ys: [T; 2],
}

impl<T: Copy> Section<T> {
    /// The coefficients: the feed-forward triple, then the feedback triple.
    pub closed spec fn coefficients(&self) -> [[T; 3]; 2] {
        self.c
    }

    /// The last three inputs, most recent first.
    pub closed spec fn inputs(&self) -> [T; 3] {
        self.xs
    }

    /// The last two outputs, most recent first.
    pub closed spec fn outputs(&self) -> [T; 2] {
        self.ys
    }

    /// Whether `after` is this section one sample later, `x0` having come in
    /// and `y0` gone out: `y0` is what the recurrence gives on the histories
    /// as they stood before `x0` came in, both histories have moved on by one
    /// place, and the coefficients are the same.
    pub open spec fn steps_to<A: Fn(Op, T, T) -> T>(
        &self,
        after: &Self,
        x0: T,
        y0: T,
        arith: A,
    ) -> bool {
        &&& recurrence(arith, self.inputs(), self.outputs(), self.coefficients(), y0)
        &&& after.coefficients() == self.coefficients()
        &&& after.inputs()@ =~= seq![x0, self.inputs()[0], self.inputs()[1]]
        &&& after.outputs()@ =~= seq![y0, self.outputs()[0]]
    }

    /// A section with coefficients `c` whose histories hold `zero` throughout.
    pub fn new(c: [[T; 3]; 2], zero: T) -> (section: Self)
        ensures
            section.coefficients() == c,
            section.inputs()@ == seq![zero, zero, zero],
            section.outputs()@ == seq![zero, zero],
    {
        Section { c, xs: [zero; 3], ys: [zero; 2] }
    }

    /// Takes one input and gives one output: reads the histories, computes
    /// the output from them by the recurrence, and only then shifts the input
    /// and the output in.
    pub fn filter<A: Fn(Op, T, T) -> T>(&mut self, x0: T, arith: &A) -> (y0: T)
        requires
            total(*arith),
        ensures
            old(self).steps_to(final(self), x0, y0, *arith),
    {
        let y0: T = biquad(&self.xs, &self.ys, &self.c, arith);

        self.xs[2] = self.xs[1];
        self.xs[1] = self.xs[0];
        self.xs[0] = x0;

        self.ys[1] = self.ys[0];
        self.ys[0] = y0;

        y0
    }

    /// The coefficients.
    pub fn c(&self) -> (c: [[T; 3]; 2])
        ensures
            c == self.coefficients(),
    {
        self.c
    }

    /// The last three inputs, most recent first.
    pub fn xs(&self) -> (xs: [T; 3])
        ensures
            xs == self.inputs(),
    {
        self.xs
    }

    /// The last two outputs, most recent first.
    pub fn ys(&self) -> (ys: [T; 2])
        ensures
            ys == self.outputs(),
    {
        self.ys
    }
}

/// Two sections in a row: what the first gives out, the second takes in.
#[derive(Clone, Copy)]
pub struct Cascade<T> {
    sections: [Section<T>; 2],
}

impl<T: Copy> Cascade<T> {
    /// The two sections, in the order in which a sample passes them.
    pub closed spec fn sections(&self) -> [Section<T>; 2] {
        self.sections
    }

    /// Whether `after` is this cascade one sample later, `x` having come in
    /// and `y` gone out: the first section has taken `x`, the second has
    /// taken what the first gave out, and `y` is what the second gave out.
    pub open spec fn steps_to<A: Fn(Op, T, T) -> T>(
        &self,
        after: &Self,
        x: T,
        y: T,
        arith: A,
    ) -> bool {
        let between = after.sections()[0].outputs()[0];
        &&& self.sections()[0].steps_to(&after.sections()[0], x, between, arith)
        &&& self.sections()[1].steps_to(&after.sections()[1], between, y, arith)
    }

    /// A cascade of two sections with the coefficients `c[0]` and `c[1]`,
    /// whose histories hold `zero` throughout.
    pub fn new(c: [[[T; 3]; 2]; 2], zero: T) -> (cascade: Self)
        ensures
            cascade.sections()[0].coefficients() == c[0],
            cascade.sections()[1].coefficients() == c[1],
            forall|i: int|
                0 <= i < 2 ==> {
                    &&& (#[trigger] cascade.sections()[i]).inputs()@ == seq![zero, zero, zero]
                    &&& cascade.sections()[i].outputs()@ == seq![zero, zero]
                },
    {
        Cascade { sections: [Section::new(c[0], zero), Section::new(c[1], zero)] }
    }

    /// Passes one sample through both sections in order.
    pub fn filter<A: Fn(Op, T, T) -> T>(&mut self, x: T, arith: &A) -> (y: T)
        requires
            total(*arith),
        ensures
            old(self).steps_to(final(self), x, y, *arith),
    {
        let between: T = self.sections[0].filter(x, arith);
        self.sections[1].filter(between, arith)
    }

    /// Whether `after` and `y` are what this cascade and the whole number `x`
    /// become in one step of smoothing: `lift` has taken `x` into the sample
    /// type, the cascade has filtered it, and `lower` has taken what came out
    /// back to a whole number.
    pub open spec fn smooths_to<L: Fn(i32) -> T, A: Fn(Op, T, T) -> T, Q: Fn(T) -> i32>(
        &self,
        after: &Self,
        x: i32,
        y: i32,
        lift: L,
        arith: A,
        lower: Q,
    ) -> bool {
        let sample = after.sections()[0].inputs()[0];
        let filtered = after.sections()[1].outputs()[0];
        &&& call_ensures(lift, (x,), sample)
        &&& self.steps_to(after, sample, filtered, arith)
        &&& call_ensures(lower, (filtered,), y)
    }

    /// One step of the cascade as a smoothing stage over whole numbers:
    /// `lift` takes the input into the sample type, the cascade filters it,
    /// and `lower` takes the output back.
    pub fn smooth<L: Fn(i32) -> T, A: Fn(Op, T, T) -> T, Q: Fn(T) -> i32>(
        self,
        x: i32,
        lift: &L,
        arith: &A,
        lower: &Q,
    ) -> (step: (Self, i32))
        requires
            call_requires(*lift, (x,)),
            total(*arith),
            forall|filtered: T| call_requires(*lower, (filtered,)),
        ensures
            self.smooths_to(&step.0, x, step.1, *lift, *arith, *lower),
    {
        let mut cascade = self;
        let sample: T = lift(x);
        let filtered: T = cascade.filter(sample, arith);
        let y: i32 = lower(filtered);
        (cascade, y)
    }

    /// The section that a sample passes first.
    pub fn first(&self) -> (section: Section<T>)
        ensures
            section == self.sections()[0],
    {
        self.sections[0]
    }

    /// The section that a sample passes second.
    pub fn second(&self) -> (section: Section<T>)
        ensures
            section == self.sections()[1],
    {
        self.sections[1]
    }
}

} // verus!
