//! The segmenter: which backend the model runs on, and what happens when one
//! fails.
use crate::config::{
    choose_backend, config_fault, preferred_backend, validate_config, Backend, DevicePreference,
    Yolo26Config,
};
use crate::detection::Detection;
use crate::error::Error;
use crate::timing::StageTiming;
use vstd::prelude::*;

verus! {

/// What the model found in a picture.
#[derive(Debug)]
pub struct Prediction {
    pub detections: Vec<Detection>,
    pub timing: StageTiming,
    pub backend: Backend,
}

/// What the segmenter waits for.
#[derive(Debug, Clone, Copy, PartialEq, Eq, Structural)]
pub enum Stage {
    /// The model is being loaded for the first time.
    Opening,
    /// Nothing: a prediction can start.
    Ready,
    /// An inference is running; `switched` tells whether an earlier one of the
    /// same prediction failed.
    Predicting { switched: bool },
    /// The model is being loaded for another backend.
    Switching { target: Backend },
    /// The model could not be loaded at all.
    Closed,
}

/// The state of a segmenter.
pub struct SegmenterState {
    pub config: Yolo26Config,
    pub backend: Backend,
    pub automatic_fallback: bool,
    pub stage: Stage,
}

/// What has to be done after an attempt to load the model.
#[derive(Debug)]
pub enum Opening {
    /// Nothing more: the segmenter is ready.
    Ready,
    /// Load the model for this backend instead, because of the error.
    Load { backend: Backend, cause: Error },
    /// Give up.
    Fail(Error),
}

/// What happened in the course of a prediction.
#[derive(Debug)]
pub enum Event {
    /// A prediction is asked for.
    Start,
    /// The inference succeeded.
    Predicted,
    /// The inference failed.
    PredictionFailed(Error),
    /// The model was loaded for the other backend.
    Switched,
    /// The model could not be loaded for the other backend.
    SwitchFailed(Error),
}

/// What has to be done next in the course of a prediction.
#[derive(Debug)]
pub enum Action {
    /// Run an inference on the current backend.
    Infer,
    /// Hand out what the inference gave.
    Finish,
    /// Load the model for this backend, because of the error; `again` tells
    /// whether something failed earlier in the same prediction too.
    Switch { backend: Backend, cause: Error, again: bool },
    /// Hand out the error.
    Fail(Error),
}

/// The backend that is tried after this one.
pub open spec fn fallback(backend: Backend) -> Option<Backend> {
    match backend {
        Backend::MpsF16 => Some(Backend::MpsF32),
        Backend::MpsF32 => Some(Backend::CpuF32),
        Backend::CpuF32 => None,
    }
}

/// The backend that is tried after this one.
fn next_backend(backend: Backend) -> (next: Option<Backend>)
    ensures
        next == fallback(backend),
{
    match backend {
        Backend::MpsF16 => Some(Backend::MpsF32),
        Backend::MpsF32 => Some(Backend::CpuF32),
        Backend::CpuF32 => None,
    }
}

impl SegmenterState {
    pub open spec fn at(self, stage: Stage) -> SegmenterState {
        SegmenterState { stage, ..self }
    }

    pub open spec fn on(self, backend: Backend) -> SegmenterState {
        SegmenterState { backend, ..self }
    }

    /// The state after an attempt to load the model, and what has to be done.
    pub open spec fn opened(self, outcome: Result<(), Error>) -> (SegmenterState, Opening) {
        match outcome {
            Ok(_) => (self.at(Stage::Ready), Opening::Ready),
            Err(cause) => match fallback(self.backend) {
                Some(backend) if self.automatic_fallback => (
                    self.on(backend),
                    Opening::Load { backend, cause },
                ),
                _ => (self.at(Stage::Closed), Opening::Fail(cause)),
            },
        }
    }

    /// Whether the event can happen in this state.
    pub open spec fn expects(self, event: Event) -> bool {
        match event {
            Event::Start => self.stage is Ready,
            Event::Predicted | Event::PredictionFailed(_) => self.stage is Predicting,
            Event::Switched | Event::SwitchFailed(_) => self.stage is Switching,
        }
    }

    /// The state after an event, and what has to be done.
    pub open spec fn after(self, event: Event) -> (SegmenterState, Action) {
        match event {
            Event::Start => (self.at(Stage::Predicting { switched: false }), Action::Infer),
            Event::Predicted => (self.at(Stage::Ready), Action::Finish),
            Event::PredictionFailed(cause) => match fallback(self.backend) {
                Some(backend) if self.automatic_fallback => (
                    self.at(Stage::Switching { target: backend }),
                    Action::Switch { backend, cause, again: self.stage->switched },
                ),
                _ => (self.at(Stage::Ready), Action::Fail(cause)),
            },
            Event::Switched => (
                self.on(self.stage->target).at(Stage::Predicting { switched: true }),
                Action::Infer,
            ),
            Event::SwitchFailed(cause) => match fallback(self.stage->target) {
                Some(backend) if self.automatic_fallback => (
                    self.at(Stage::Switching { target: backend }),
                    Action::Switch { backend, cause, again: true },
                ),
                _ => (self.at(Stage::Ready), Action::Fail(cause)),
            },
        }
    }
}

/// The decisions around the model: they are told what happened to it and say
/// what to do next.
pub struct Yolo26Segmenter {
    config: Yolo26Config,
    backend: Backend,
    automatic_fallback: bool,
    stage: Stage,
}

impl View for Yolo26Segmenter {
    type V = SegmenterState;

    closed spec fn view(&self) -> SegmenterState {
        SegmenterState {
            config: self.config,
            backend: self.backend,
            automatic_fallback: self.automatic_fallback,
            stage: self.stage,
        }
    }
}

impl Yolo26Segmenter {
    /// A segmenter whose model has yet to be loaded on `backend()`; the outcome
    /// goes to `opened`. `mps_available` tells whether LibTorch has MPS.
    pub fn new(config: Yolo26Config, mps_available: bool) -> (result: Result<Self, Error>)
        ensures
            match config_fault(config) {
                Some(fault) => result matches Err(Error::Config(text)) && text@ == fault,
                None => match preferred_backend(config.device, config.precision, mps_available) {
                    None => result matches Err(Error::Config(text)) && text@
                        == "MPS was requested but this LibTorch build has no MPS backend"@,
                    Some(backend) => result matches Ok(segmenter) && segmenter@ == (
                    SegmenterState {
                        config,
                        backend,
                        automatic_fallback: config.device == DevicePreference::Auto,
                        stage: Stage::Opening,
                    }),
                },
            },
    {
        match validate_config(&config) {
            Ok(_) => {},
            Err(error) => {
                return Err(error);
            },
        }
        let automatic_fallback: bool = config.device == DevicePreference::Auto;
        match choose_backend(config.device, config.precision, mps_available) {
            Ok(backend) => Ok(
                Yolo26Segmenter { config, backend, automatic_fallback, stage: Stage::Opening },
            ),
            Err(error) => Err(error),
        }
    }

    /// The backend on which the model runs, or is to be loaded first.
    pub fn backend(&self) -> (backend: Backend)
        ensures
            backend == self@.backend,
    {
        self.backend
    }

    /// The settings.
    pub fn config(&self) -> (config: Yolo26Config)
        ensures
            config == self@.config,
    {
        self.config
    }

    /// What the segmenter waits for.
    pub fn stage(&self) -> (stage: Stage)
        ensures
            stage == self@.stage,
    {
        self.stage
    }

    /// Takes the outcome of loading the model on `backend()`.
    pub fn opened(&mut self, outcome: Result<(), Error>) -> (opening: Opening)
        requires
            old(self)@.stage == Stage::Opening,
        ensures
            (final(self)@, opening) == old(self)@.opened(outcome),
    {
        match outcome {
            Ok(_) => {
                self.stage = Stage::Ready;
                Opening::Ready
            },
            Err(cause) => {
                match next_backend(self.backend) {
                    Some(backend) if self.automatic_fallback => {
                        self.backend = backend;
                        Opening::Load { backend, cause }
                    },
                    _ => {
                        self.stage = Stage::Closed;
                        Opening::Fail(cause)
                    },
                }
            },
        }
    }

    /// Takes an event in the course of a prediction.
    pub fn predict(&mut self, event: Event) -> (action: Action)
        requires
            old(self)@.expects(event),
        ensures
            (final(self)@, action) == old(self)@.after(event),
    {
        match event {
            Event::Start => {
                self.stage = Stage::Predicting { switched: false };
                Action::Infer
            },
            Event::Predicted => {
                self.stage = Stage::Ready;
                Action::Finish
            },
            Event::PredictionFailed(cause) => {
                let again: bool = match self.stage {
                    Stage::Predicting { switched } => switched,
                    _ => false,
                };
                self.fall_back(self.backend, cause, again)
            },
            Event::Switched => {
                match self.stage {
                    Stage::Switching { target } => {
                        self.backend = target;
                    },
                    _ => {},
                }
                self.stage = Stage::Predicting { switched: true };
                Action::Infer
            },
            Event::SwitchFailed(cause) => {
                let failed: Backend = match self.stage {
                    Stage::Switching { target } => target,
                    _ => self.backend,
                };
                self.fall_back(failed, cause, true)
            },
        }
    }

    /// What the running inference found, and how long it took: a prediction of the
    /// backend on which the model runs.
    pub fn prediction(&self, detections: Vec<Detection>, timing: StageTiming) -> (prediction:
        Prediction)
        requires
            self@.stage is Predicting,
        ensures
            prediction.backend == self@.backend,
            prediction.timing == timing,
            prediction.detections == detections,
    {
        Prediction { detections, timing, backend: self.backend }
    }

    /// Goes on to the backend after the one that failed, where that is allowed.
    fn fall_back(&mut self, failed: Backend, cause: Error, again: bool) -> (action: Action)
        ensures
            (final(self)@, action) == match fallback(failed) {
                Some(backend) if old(self)@.automatic_fallback => (
                    old(self)@.at(Stage::Switching { target: backend }),
                    Action::Switch { backend, cause, again },
                ),
                _ => (old(self)@.at(Stage::Ready), Action::Fail(cause)),
            },
    {
        match next_backend(failed) {
            Some(backend) if self.automatic_fallback => {
                self.stage = Stage::Switching { target: backend };
                Action::Switch { backend, cause, again }
            },
            _ => {
                self.stage = Stage::Ready;
                Action::Fail(cause)
            },
        }
    }
}

/// With an automatic device, a prediction that starts in half precision on MPS is
/// tried there, then on MPS in single precision, then on the CPU; what fails on
/// the CPU fails.
pub proof fn law_fallback_order(state: SegmenterState, first: Error, second: Error, third: Error)
    requires
        state.stage == Stage::Ready,
        state.automatic_fallback,
        state.backend == Backend::MpsF16,
    ensures
        ({
            let (s1, a1) = state.after(Event::Start);
            let (s2, a2) = s1.after(Event::PredictionFailed(first));
            let (s3, a3) = s2.after(Event::Switched);
            let (s4, a4) = s3.after(Event::PredictionFailed(second));
            let (s5, a5) = s4.after(Event::Switched);
            let (s6, a6) = s5.after(Event::PredictionFailed(third));
            &&& a1 == Action::Infer && s1.backend == Backend::MpsF16
            &&& a2 == (Action::Switch { backend: Backend::MpsF32, cause: first, again: false })
            &&& a3 == Action::Infer && s3.backend == Backend::MpsF32
            &&& a4 == (Action::Switch { backend: Backend::CpuF32, cause: second, again: true })
            &&& a5 == Action::Infer && s5.backend == Backend::CpuF32
            &&& a6 == Action::Fail(third) && s6.stage == Stage::Ready
        }),
{
}

/// A prediction that succeeds leaves the segmenter on the backend that the
/// prediction names, ready for the next one.
pub proof fn law_success_keeps_backend(state: SegmenterState)
    requires
        state.stage is Predicting,
    ensures
        state.after(Event::Predicted) == (state.at(Stage::Ready), Action::Finish),
        state.after(Event::Predicted).0.backend == state.backend,
{
}

/// With a device that was asked for by name, a failed inference is an error, and
/// the backend stays what it is.
pub proof fn law_explicit_device_fails(state: SegmenterState, cause: Error)
    requires
        state.stage is Predicting,
        !state.automatic_fallback,
    ensures
        state.after(Event::PredictionFailed(cause)) == (
            state.at(Stage::Ready),
            Action::Fail(cause),
        ),
{
}

/// With a device that was asked for by name, a model that cannot be loaded is an
/// error.
pub proof fn law_explicit_device_refuses(state: SegmenterState, cause: Error)
    requires
        state.stage == Stage::Opening,
        !state.automatic_fallback,
    ensures
        state.opened(Err(cause)) == (state.at(Stage::Closed), Opening::Fail(cause)),
{
}

/// How many backends are left to try after this one.
pub open spec fn backends_left(backend: Backend) -> nat {
    match backend {
        Backend::MpsF16 => 2,
        Backend::MpsF32 => 1,
        Backend::CpuF32 => 0,
    }
}

/// An event that a state does not expect is no part of a course of events.
pub open spec fn is_course(state: SegmenterState, events: Seq<Event>) -> bool
    decreases events.len(),
{
    events.len() == 0 || (state.expects(events[0]) && is_course(
        state.after(events[0]).0,
        events.drop_first(),
    ))
}

/// The state after a course of events.
pub open spec fn after_all(state: SegmenterState, events: Seq<Event>) -> SegmenterState
    decreases events.len(),
{
    if events.len() == 0 {
        state
    } else {
        after_all(state.after(events[0]).0, events.drop_first())
    }
}

/// How often the backend is switched in a course of events.
pub open spec fn switches(events: Seq<Event>) -> nat
    decreases events.len(),
{
    if events.len() == 0 {
        0
    } else {
        switches(events.drop_first()) + if events[0] is Switched {
            1nat
        } else {
            0nat
        }
    }
}

/// How often an inference is asked for in a course of events.
pub open spec fn inferences(state: SegmenterState, events: Seq<Event>) -> nat
    decreases events.len(),
{
    if events.len() == 0 {
        0
    } else {
        let (next, action) = state.after(events[0]);
        inferences(next, events.drop_first()) + if action is Infer {
            1nat
        } else {
            0nat
        }
    }
}

/// A segmenter waits to switch only to a backend that comes after the current
/// one, and only with an automatic device.
pub open spec fn is_sound(state: SegmenterState) -> bool {
    state.stage matches Stage::Switching { target } ==> state.automatic_fallback && backends_left(
        target,
    ) < backends_left(state.backend)
}

/// Whatever happens to a segmenter, its backend only ever falls back, never more
/// often than there are backends left, and not at all with a device that was
/// asked for by name. Its settings stay as they are.
pub proof fn law_backend_only_falls_back(state: SegmenterState, events: Seq<Event>)
    requires
        is_sound(state),
        is_course(state, events),
    ensures
        ({
            let end: SegmenterState = after_all(state, events);
            &&& is_sound(end)
            &&& backends_left(end.backend) + switches(events) <= backends_left(state.backend)
            &&& !state.automatic_fallback ==> end.backend == state.backend && switches(events) == 0
            &&& end.config == state.config
            &&& end.automatic_fallback == state.automatic_fallback
        }),
    decreases events.len(),
{
    if events.len() > 0 {
        law_backend_only_falls_back(state.after(events[0]).0, events.drop_first());
    }
}

proof fn lemma_inferences_after_start(state: SegmenterState, events: Seq<Event>)
    requires
        forall|i: int| 0 <= i < events.len() ==> !((#[trigger] events[i]) is Start),
    ensures
        inferences(state, events) == switches(events),
    decreases events.len(),
{
    if events.len() > 0 {
        let rest: Seq<Event> = events.drop_first();
        assert forall|i: int| 0 <= i < rest.len() implies !((#[trigger] rest[i]) is Start) by {
            assert(rest[i] == events[i + 1]);
        }
        lemma_inferences_after_start(state.after(events[0]).0, rest);
        assert(!(events[0] is Start));
    }
}

/// A prediction runs at most three inferences, and with a device that was asked
/// for by name only one.
pub proof fn law_at_most_three_inferences(state: SegmenterState, events: Seq<Event>)
    requires
        is_sound(state),
        is_course(state, events),
        events.len() > 0,
        events[0] is Start,
        forall|i: int| 1 <= i < events.len() ==> !((#[trigger] events[i]) is Start),
    ensures
        1 <= inferences(state, events) <= 3,
        !state.automatic_fallback ==> inferences(state, events) == 1,
{
    let rest: Seq<Event> = events.drop_first();
    let next: SegmenterState = state.after(events[0]).0;
    assert forall|i: int| 0 <= i < rest.len() implies !((#[trigger] rest[i]) is Start) by {
        assert(rest[i] == events[i + 1]);
    }
    lemma_inferences_after_start(next, rest);
    law_backend_only_falls_back(next, rest);
}

/// With an automatic device, a prediction fails only where the CPU has failed: in
/// its inference, or because the model cannot be loaded there.
pub proof fn law_automatic_device_gives_up_last(state: SegmenterState, event: Event)
    requires
        state.expects(event),
        state.automatic_fallback,
        state.after(event).1 is Fail,
    ensures
        match event {
            Event::PredictionFailed(_) => state.backend == Backend::CpuF32,
            Event::SwitchFailed(_) => state.stage == (Stage::Switching { target: Backend::CpuF32 }),
            _ => false,
        },
{
}

/// With an automatic device, opening fails only where the model cannot be loaded
/// on the CPU.
pub proof fn law_opening_gives_up_last(state: SegmenterState, outcome: Result<(), Error>)
    requires
        state.stage == Stage::Opening,
        state.automatic_fallback,
        state.opened(outcome).1 is Fail,
    ensures
        outcome is Err,
        state.backend == Backend::CpuF32,
{
}

/// A model that cannot be loaded for another backend stays on the backend where
/// it was.
pub proof fn law_failed_switch_keeps_backend(state: SegmenterState, cause: Error)
    requires
        state.stage is Switching,
    ensures
        state.after(Event::SwitchFailed(cause)).0.backend == state.backend,
{
}

/// With an automatic device, a prediction that fails in half precision on MPS
/// reaches the CPU also where the model cannot be loaded there in single
/// precision; what cannot be loaded on the CPU either fails.
pub proof fn law_fallback_past_failed_switch(
    state: SegmenterState,
    first: Error,
    second: Error,
    third: Error,
)
    requires
        state.stage == Stage::Ready,
        state.automatic_fallback,
        state.backend == Backend::MpsF16,
    ensures
        ({
            let s1: SegmenterState = state.after(Event::Start).0;
            let (s2, a2) = s1.after(Event::PredictionFailed(first));
            let (s3, a3) = s2.after(Event::SwitchFailed(second));
            let (s4, a4) = s3.after(Event::Switched);
            let (s5, a5) = s4.after(Event::Predicted);
            &&& a2 == (Action::Switch { backend: Backend::MpsF32, cause: first, again: false })
            &&& a3 == (Action::Switch { backend: Backend::CpuF32, cause: second, again: true })
            &&& a4 == Action::Infer && s4.backend == Backend::CpuF32
            &&& a5 == Action::Finish && s5 == state.on(Backend::CpuF32)
            &&& s3.after(Event::SwitchFailed(third)) == (state, Action::Fail(third))
        }),
{
}

/// With an automatic device, a model that cannot be loaded on MPS in half
/// precision is loaded there in single precision, then on the CPU; what cannot be
/// loaded on the CPU fails. Where it is loaded, the segmenter is ready.
pub proof fn law_loading_falls_back(
    state: SegmenterState,
    first: Error,
    second: Error,
    third: Error,
)
    requires
        state.stage == Stage::Opening,
        state.automatic_fallback,
        state.backend == Backend::MpsF16,
    ensures
        ({
            let (s1, o1) = state.opened(Err(first));
            let (s2, o2) = s1.opened(Err(second));
            let (s3, o3) = s2.opened(Err(third));
            &&& o1 == (Opening::Load { backend: Backend::MpsF32, cause: first })
            &&& s1 == state.on(Backend::MpsF32)
            &&& o2 == (Opening::Load { backend: Backend::CpuF32, cause: second })
            &&& s2 == state.on(Backend::CpuF32)
            &&& o3 == Opening::Fail(third)
            &&& s1.opened(Ok(())) == (s1.at(Stage::Ready), Opening::Ready)
            &&& s2.opened(Ok(())) == (s2.at(Stage::Ready), Opening::Ready)
        }),
{
}

/// What is said when a prediction goes on to another backend.
pub open spec fn switch_text(backend: Backend, cause: Seq<char>, again: bool) -> Seq<char> {
    match backend {
        Backend::MpsF16 | Backend::MpsF32 => "MPS FP16 failed ("@ + cause
            + "); retrying with MPS FP32"@,
        Backend::CpuF32 => if again {
            "MPS FP32 failed ("@ + cause + "); falling back to CPU"@
        } else {
            "MPS failed ("@ + cause + "); falling back to CPU"@
        },
    }
}

/// What is said when a prediction goes on to another backend, with the answers
/// that `Action::Switch` holds.
pub fn switch_warning(backend: Backend, cause: &str, again: bool) -> (text: String)
    ensures
        text@ == switch_text(backend, cause@, again),
{
    match backend {
        Backend::MpsF16 | Backend::MpsF32 => "MPS FP16 failed (".to_string().concat(cause).concat(
            "); retrying with MPS FP32",
        ),
        Backend::CpuF32 => if again {
            "MPS FP32 failed (".to_string().concat(cause).concat("); falling back to CPU")
        } else {
            "MPS failed (".to_string().concat(cause).concat("); falling back to CPU")
        },
    }
}

/// What is said when the model is loaded for another backend instead.
pub open spec fn opening_text(backend: Backend, cause: Seq<char>) -> Seq<char> {
    match backend {
        Backend::MpsF16 | Backend::MpsF32 => "model cannot be loaded on MPS FP16 ("@ + cause
            + "); retrying with MPS FP32"@,
        Backend::CpuF32 => "model cannot be loaded on MPS ("@ + cause + "); falling back to CPU"@,
    }
}

/// What is said when the model is loaded for another backend instead, with the
/// answers that `Opening::Load` holds.
pub fn opening_warning(backend: Backend, cause: &str) -> (text: String)
    ensures
        text@ == opening_text(backend, cause@),
{
    match backend {
        Backend::MpsF16 | Backend::MpsF32 => "model cannot be loaded on MPS FP16 (".to_string().concat(
            cause,
        ).concat("); retrying with MPS FP32"),
        Backend::CpuF32 => "model cannot be loaded on MPS (".to_string().concat(cause).concat(
            "); falling back to CPU",
        ),
    }
}

/// To wait for something else changes nothing but what the segmenter waits for, and to
/// move to another backend nothing but the backend.
pub proof fn law_steps_change_one_thing(state: SegmenterState, stage: Stage, backend: Backend)
    ensures
        state.at(stage).stage == stage,
        state.at(stage).backend == state.backend,
        state.at(stage).config == state.config,
        state.at(stage).automatic_fallback == state.automatic_fallback,
        state.on(backend).backend == backend,
        state.on(backend).stage == state.stage,
        state.on(backend).config == state.config,
        state.on(backend).automatic_fallback == state.automatic_fallback,
{
}

/// A prediction can start whenever the segmenter is ready; while an inference runs it
/// can succeed or fail, and while the model is loaded so can that.
pub proof fn law_events_come_in_their_stage(state: SegmenterState, cause: Error)
    ensures
        state.stage is Ready <==> state.expects(Event::Start),
        state.stage is Predicting <==> state.expects(Event::Predicted),
        state.stage is Predicting <==> state.expects(Event::PredictionFailed(cause)),
        state.stage is Switching <==> state.expects(Event::Switched),
        state.stage is Switching <==> state.expects(Event::SwitchFailed(cause)),
{
}

/// A prediction starts with an inference on the backend at hand, whatever that is and
/// whatever the settings are, and a model that is loaded makes the segmenter ready.
pub proof fn law_start_and_opening(state: SegmenterState)
    ensures
        ({
            let (next, action) = state.after(Event::Start);
            &&& action is Infer
            &&& next.stage == (Stage::Predicting { switched: false })
            &&& next.backend == state.backend
            &&& next.config == state.config
            &&& next.automatic_fallback == state.automatic_fallback
        }),
        ({
            let (next, opening) = state.opened(Ok(()));
            &&& opening is Ready
            &&& next.stage == Stage::Ready
            &&& next.backend == state.backend
            &&& next.config == state.config
            &&& next.automatic_fallback == state.automatic_fallback
        }),
{
}

/// With an automatic device, what fails on MPS is tried next: after half precision in
/// single precision, after single precision on the CPU. The error is handed on.
pub proof fn law_next_backend_after_failure(state: SegmenterState, cause: Error)
    requires
        state.automatic_fallback,
    ensures
        state.stage is Predicting && state.backend is MpsF16 ==> state.after(
            Event::PredictionFailed(cause),
        ).1 == (Action::Switch {
            backend: Backend::MpsF32,
            cause,
            again: state.stage->switched,
        }),
        state.stage is Predicting && state.backend is MpsF32 ==> state.after(
            Event::PredictionFailed(cause),
        ).1 == (Action::Switch {
            backend: Backend::CpuF32,
            cause,
            again: state.stage->switched,
        }),
        state.stage is Predicting && state.backend is CpuF32 ==> state.after(
            Event::PredictionFailed(cause),
        ).1 == Action::Fail(cause),
        state.stage == (Stage::Switching { target: Backend::MpsF32 }) ==> state.after(
            Event::SwitchFailed(cause),
        ).1 == (Action::Switch { backend: Backend::CpuF32, cause, again: true }),
        state.stage == (Stage::Switching { target: Backend::CpuF32 }) ==> state.after(
            Event::SwitchFailed(cause),
        ).1 == Action::Fail(cause),
        state.backend is MpsF16 ==> state.opened(Err(cause)).1 == (Opening::Load {
            backend: Backend::MpsF32,
            cause,
        }),
        state.backend is MpsF32 ==> state.opened(Err(cause)).1 == (Opening::Load {
            backend: Backend::CpuF32,
            cause,
        }),
        state.backend is CpuF32 ==> state.opened(Err(cause)).1 == Opening::Fail(cause),
{
}

/// A switch that is asked for is waited for, and when it is done the inference runs on
/// that backend.
pub proof fn law_switches_are_carried_out(state: SegmenterState, event: Event)
    requires
        state.expects(event),
    ensures
        state.after(event).1 matches Action::Switch { backend, .. } ==> {
            let next: SegmenterState = state.after(event).0;
            &&& next.stage == (Stage::Switching { target: backend })
            &&& next.backend == state.backend
            &&& next.after(Event::Switched).1 is Infer
            &&& next.after(Event::Switched).0.backend == backend
            &&& next.after(Event::Switched).0.stage == (Stage::Predicting { switched: true })
        },
        state.after(event).1 is Finish || state.after(event).1 is Fail ==> state.after(event).0.stage
            == Stage::Ready && state.after(event).0.backend == state.backend,
{
}

/// A warning quotes its cause, whole, between what failed and what comes next.
pub proof fn law_warnings_quote_cause(backend: Backend, cause: Seq<char>, again: bool)
    ensures
        backend is MpsF32 ==> switch_text(backend, cause, again) == "MPS FP16 failed ("@ + cause
            + "); retrying with MPS FP32"@,
        backend is CpuF32 && again ==> switch_text(backend, cause, again) == "MPS FP32 failed ("@
            + cause + "); falling back to CPU"@,
        backend is CpuF32 && !again ==> switch_text(backend, cause, again) == "MPS failed ("@ + cause
            + "); falling back to CPU"@,
        backend is MpsF32 ==> opening_text(backend, cause) == "model cannot be loaded on MPS FP16 ("@
            + cause + "); retrying with MPS FP32"@,
        backend is CpuF32 ==> opening_text(backend, cause) == "model cannot be loaded on MPS ("@
            + cause + "); falling back to CPU"@,
{
}

} // verus!
