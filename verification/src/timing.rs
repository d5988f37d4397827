//! How long the stages of a prediction take.
use crate::double::Double;
use crate::number::{whole, Number};
use vstd::prelude::*;

verus! {

/// The time of each stage, in milliseconds.
#[derive(Debug, Clone, Copy)]
pub struct StageTiming {
    pub preprocess_ms: Double,
    pub inference_ms: Double,
    pub postprocess_ms: Double,
    pub total_ms: Double,
}

/// The times as numbers.
pub struct Times {
    pub preprocess: Number,
    pub inference: Number,
    pub postprocess: Number,
    pub total: Number,
}

impl View for StageTiming {
    type V = Times;

    open spec fn view(&self) -> Times {
        Times {
            preprocess: self.preprocess_ms@,
            inference: self.inference_ms@,
            postprocess: self.postprocess_ms@,
            total: self.total_ms@,
        }
    }
}

impl Times {
    /// The sum, stage by stage.
    pub open spec fn plus(self, other: Times) -> Times {
        Times {
            preprocess: self.preprocess.plus(other.preprocess),
            inference: self.inference.plus(other.inference),
            postprocess: self.postprocess.plus(other.postprocess),
            total: self.total.plus(other.total),
        }
    }

    /// The quotient, stage by stage.
    pub open spec fn over(self, denominator: Number) -> Times {
        Times {
            preprocess: self.preprocess.over(denominator),
            inference: self.inference.over(denominator),
            postprocess: self.postprocess.over(denominator),
            total: self.total.over(denominator),
        }
    }
}

impl Default for StageTiming {
    /// No time at all.
    fn default() -> (timing: Self)
        ensures
            timing@ == (Times {
                preprocess: whole(0),
                inference: whole(0),
                postprocess: whole(0),
                total: whole(0),
            }),
    {
        let none: Double = Double::from_u32(0);
        StageTiming {
            preprocess_ms: none,
            inference_ms: none,
            postprocess_ms: none,
            total_ms: none,
        }
    }
}

/// Seconds, in milliseconds.
pub fn milliseconds(seconds: Double) -> (result: Double)
    ensures
        result@ == seconds@.times(whole(1000)),
{
    seconds.times(Double::from_u32(1000))
}

/// Adds the times of one prediction to a total, stage by stage.
pub fn add_timing(total: &mut StageTiming, value: StageTiming)
    ensures
        final(total)@ == old(total)@.plus(value@),
        final(total).preprocess_ms@ == old(total).preprocess_ms@.plus(value.preprocess_ms@),
        final(total).inference_ms@ == old(total).inference_ms@.plus(value.inference_ms@),
        final(total).postprocess_ms@ == old(total).postprocess_ms@.plus(value.postprocess_ms@),
        final(total).total_ms@ == old(total).total_ms@.plus(value.total_ms@),
{
    total.preprocess_ms = total.preprocess_ms.plus(value.preprocess_ms);
    total.inference_ms = total.inference_ms.plus(value.inference_ms);
    total.postprocess_ms = total.postprocess_ms.plus(value.postprocess_ms);
    total.total_ms = total.total_ms.plus(value.total_ms);
}

/// Divides the time of every stage.
pub fn divide_timing(value: StageTiming, denominator: Double) -> (result: StageTiming)
    ensures
        result@ == value@.over(denominator@),
        result.preprocess_ms@ == value.preprocess_ms@.over(denominator@),
        result.inference_ms@ == value.inference_ms@.over(denominator@),
        result.postprocess_ms@ == value.postprocess_ms@.over(denominator@),
        result.total_ms@ == value.total_ms@.over(denominator@),
{
    StageTiming {
        preprocess_ms: value.preprocess_ms.over(denominator),
        inference_ms: value.inference_ms.over(denominator),
        postprocess_ms: value.postprocess_ms.over(denominator),
        total_ms: value.total_ms.over(denominator),
    }
}

/// The sum of the times of one or more runs, added up in their order.
pub open spec fn sum_of(runs: Seq<Times>) -> Times
    recommends
        runs.len() > 0,
    decreases runs.len(),
{
    if runs.len() <= 1 {
        runs[0]
    } else {
        sum_of(runs.drop_last()).plus(runs.last())
    }
}

/// A series of runs: some to warm up, then some whose times are averaged.
pub struct Measurement {
    warmup: u32,
    iterations: u32,
    warmed: u32,
    measured: u32,
    sum: StageTiming,
    runs: Ghost<Seq<Times>>,
}

impl Measurement {
    /// How many runs warm up.
    pub closed spec fn warmup(self) -> nat {
        self.warmup as nat
    }

    /// How many runs are averaged.
    pub closed spec fn iterations(self) -> nat {
        self.iterations as nat
    }

    /// The times of the runs so far, those that warm up among them.
    pub closed spec fn runs(self) -> Seq<Times> {
        self.runs@
    }

    #[verifier::type_invariant]
    spec fn is_valid(self) -> bool {
        &&& 0 < self.iterations
        &&& self.warmed <= self.warmup
        &&& self.measured <= self.iterations
        &&& self.measured > 0 ==> self.warmed == self.warmup
        &&& self.runs@.len() == self.warmed + self.measured
        &&& self.measured > 0 ==> self.sum@ == sum_of(self.runs@.skip(self.warmup as int))
    }

    /// A series of which nothing has run.
    pub fn new(warmup: u32, iterations: u32) -> (measurement: Measurement)
        requires
            iterations > 0,
        ensures
            measurement.warmup() == warmup,
            measurement.iterations() == iterations,
            measurement.runs() == Seq::<Times>::empty(),
    {
        Measurement {
            warmup,
            iterations,
            warmed: 0,
            measured: 0,
            sum: StageTiming::default(),
            runs: Ghost(Seq::empty()),
        }
    }

    /// Whether every run of the series was made.
    pub fn is_complete(&self) -> (complete: bool)
        ensures
            complete == (self.runs().len() == self.warmup() + self.iterations()),
    {
        proof {
            use_type_invariant(self);
        }
        self.warmed == self.warmup && self.measured == self.iterations
    }

    /// Takes the times of the next run.
    pub fn record(&mut self, timing: StageTiming)
        requires
            old(self).runs().len() < old(self).warmup() + old(self).iterations(),
        ensures
            final(self).warmup() == old(self).warmup(),
            final(self).iterations() == old(self).iterations(),
            final(self).runs() == old(self).runs().push(timing@),
    {
        proof {
            use_type_invariant(&*self);
        }
        let ghost runs: Seq<Times> = self.runs@.push(timing@);
        if self.warmed < self.warmup {
            *self = Measurement { warmed: self.warmed + 1, runs: Ghost(runs), ..*self };
        } else {
            let mut sum: StageTiming = self.sum;
            proof {
                let before: Seq<Times> = self.runs@.skip(self.warmup as int);
                let after: Seq<Times> = runs.skip(self.warmup as int);
                assert(after =~= before.push(timing@));
                assert(after.drop_last() =~= before);
            }
            if self.measured == 0 {
                sum = timing;
            } else {
                add_timing(&mut sum, timing);
            }
            *self = Measurement { measured: self.measured + 1, sum, runs: Ghost(runs), ..*self };
        }
    }

    /// The average of the runs after those that warm up.
    pub fn average(&self) -> (average: StageTiming)
        requires
            self.runs().len() == self.warmup() + self.iterations(),
        ensures
            average@ == sum_of(self.runs().skip(self.warmup() as int)).over(
                whole(self.iterations()),
            ),
    {
        proof {
            use_type_invariant(self);
        }
        divide_timing(self.sum, Double::from_u32(self.iterations))
    }
}

/// What the runs that warm up take has no part in the average.
pub proof fn law_warmup_does_not_count(first: Seq<Times>, second: Seq<Times>, measured: Seq<Times>)
    requires
        first.len() == second.len(),
    ensures
        sum_of((first + measured).skip(first.len() as int)) == sum_of(
            (second + measured).skip(second.len() as int),
        ),
{
    assert((first + measured).skip(first.len() as int) =~= measured);
    assert((second + measured).skip(second.len() as int) =~= measured);
}

/// The times of several runs add up run by run, stage by stage; those of one run are
/// its own.
pub proof fn law_times_add_up(runs: Seq<Times>, run: Times)
    ensures
        sum_of(seq![run]) == run,
        runs.len() > 0 ==> ({
            let before: Times = sum_of(runs);
            let after: Times = sum_of(runs.push(run));
            &&& after.preprocess == before.preprocess.plus(run.preprocess)
            &&& after.inference == before.inference.plus(run.inference)
            &&& after.postprocess == before.postprocess.plus(run.postprocess)
            &&& after.total == before.total.plus(run.total)
        }),
{
    assert(runs.push(run).drop_last() =~= runs);
}

/// Times are divided stage by stage.
pub proof fn law_times_divide(times: Times, denominator: Number)
    ensures
        times.over(denominator).preprocess == times.preprocess.over(denominator),
        times.over(denominator).inference == times.inference.over(denominator),
        times.over(denominator).postprocess == times.postprocess.over(denominator),
        times.over(denominator).total == times.total.over(denominator),
{
}

} // verus!
