//! Where a model is found, and the life of the one session that a process
//! keeps: it is loaded at the first request, and what the load gave, a ready
//! session or a failure, stays for good.

use vstd::prelude::*;
use crate::error::DetectError;

verus! {

/// A place where a model may lie. At each place the model is the file
/// `model/model.onnx` and its configuration lies beside it.
#[derive(Clone, Copy, Debug, PartialEq, Eq, Structural)]
pub enum ModelPlace {
    /// The directory of the executable.
    BesideExecutable,
    /// The working directory.
    WorkingDir,
    /// The project directory inside the working directory.
    ProjectInWorkingDir,
    /// The project directory beside the working directory.
    ProjectBesideWorkingDir,
}

/// The places to look at, in the order in which they are tried: beside the
/// executable, in the working directory and, in a development build only, in
/// the project directory below the working directory and in the one beside
/// it. A place that is not known is left out, and without a working
/// directory none of the last three is known.
pub open spec fn places(
    executable_known: bool,
    working_dir_known: bool,
    parent_known: bool,
    development: bool,
) -> Seq<ModelPlace> {
    let first = if executable_known {
        seq![ModelPlace::BesideExecutable]
    } else {
        Seq::empty()
    };
    let second = if working_dir_known {
        seq![ModelPlace::WorkingDir]
    } else {
        Seq::empty()
    };
    let third = if working_dir_known && development {
        seq![ModelPlace::ProjectInWorkingDir]
    } else {
        Seq::empty()
    };
    let fourth = if working_dir_known && development && parent_known {
        seq![ModelPlace::ProjectBesideWorkingDir]
    } else {
        Seq::empty()
    };
    first + second + third + fourth
}

/// Lists the places to look at, in the order in which they are tried.
pub fn candidate_places(
    executable_known: bool,
    working_dir_known: bool,
    parent_known: bool,
    development: bool,
) -> (found: Vec<ModelPlace>)
    ensures
        found@ == places(executable_known, working_dir_known, parent_known, development),
{
    let mut found: Vec<ModelPlace> = Vec::new();
    if executable_known {
        found.push(ModelPlace::BesideExecutable);
    }
    if working_dir_known {
        found.push(ModelPlace::WorkingDir);
        if development {
            found.push(ModelPlace::ProjectInWorkingDir);
            if parent_known {
                found.push(ModelPlace::ProjectBesideWorkingDir);
            }
        }
    }
    found
}

/// What was found at one place where a model may lie.
#[derive(Clone, Copy, Debug, PartialEq, Eq, Structural)]
pub struct CandidateFiles {
    /// The model binary is there.
    pub model_is_file: bool,
    /// The configuration is there, beside it.
    pub config_is_file: bool,
}

impl CandidateFiles {
    /// Both files are there.
    pub open spec fn complete(self) -> bool {
        self.model_is_file && self.config_is_file
    }
}

/// Picks the first place that holds both the model and its configuration.
pub fn select_candidate(candidates: &Vec<CandidateFiles>) -> (r: Result<usize, DetectError>)
    ensures
        (match r {
            Ok(i) => i < candidates@.len() && candidates@[i as int].complete() && forall|j: int|
                0 <= j < i ==> !(#[trigger] candidates@[j]).complete(),
            Err(e) => e == DetectError::ModelNotFound && forall|j: int|
                0 <= j < candidates@.len() ==> !(#[trigger] candidates@[j]).complete(),
        }),
{
    let mut i: usize = 0;
    while i < candidates.len()
        invariant
            i <= candidates.len(),
            forall|j: int| 0 <= j < i ==> !(#[trigger] candidates@[j]).complete(),
        decreases candidates.len() - i,
    {
        let c: CandidateFiles = candidates[i];
        if c.model_is_file && c.config_is_file {
            return Ok(i);
        }
        i += 1;
    }
    Err(DetectError::ModelNotFound)
}

/// Where the session stands.
#[derive(Clone, Copy, Debug, PartialEq, Eq, Structural)]
pub enum SessionState {
    /// Nobody has asked for the session yet.
    Uninitialized,
    /// The first caller is loading the model.
    Loading,
    /// The model is loaded.
    Ready,
    /// The load failed, with this error.
    Failed(DetectError),
}

/// What a caller who asks for the session has to do.
#[derive(Clone, Copy, Debug, PartialEq, Eq, Structural)]
pub enum SessionStep {
    /// Load the model and report how it went.
    Load,
    /// Wait for the caller who is loading.
    Wait,
    /// Use the loaded session.
    Use,
    /// Give up with the error that the load ended with.
    Fail(DetectError),
}

/// What happens to a session.
#[derive(Clone, Copy, Debug, PartialEq, Eq, Structural)]
pub enum SessionEvent {
    /// A caller asks for the session.
    Request,
    /// The load ended, well or with an error.
    Loaded(Option<DetectError>),
}

/// The event that the end of a load is.
pub open spec fn load_event(outcome: Result<(), DetectError>) -> SessionEvent {
    SessionEvent::Loaded(
        match outcome {
            Ok(_) => None,
            Err(e) => Some(e),
        },
    )
}

/// What a caller does who finds the session in `state`.
pub open spec fn step_in(state: SessionState) -> SessionStep {
    match state {
        SessionState::Uninitialized => SessionStep::Load,
        SessionState::Loading => SessionStep::Wait,
        SessionState::Ready => SessionStep::Use,
        SessionState::Failed(e) => SessionStep::Fail(e),
    }
}

/// The state after an event.
pub open spec fn after(state: SessionState, event: SessionEvent) -> SessionState {
    match (state, event) {
        (SessionState::Uninitialized, SessionEvent::Request) => SessionState::Loading,
        (SessionState::Loading, SessionEvent::Loaded(None)) => SessionState::Ready,
        (SessionState::Loading, SessionEvent::Loaded(Some(e))) => SessionState::Failed(e),
        (s, _) => s,
    }
}

/// The state after a run of events.
pub open spec fn after_all(state: SessionState, events: Seq<SessionEvent>) -> SessionState
    decreases events.len(),
{
    if events.len() == 0 {
        state
    } else {
        after(after_all(state, events.drop_last()), events.last())
    }
}

/// How many loads a run of events sets off.
pub open spec fn loads(state: SessionState, events: Seq<SessionEvent>) -> nat
    decreases events.len(),
{
    if events.len() == 0 {
        0
    } else {
        let before = after_all(state, events.drop_last());
        let now: nat = if events.last() == SessionEvent::Request && step_in(before)
            == SessionStep::Load {
            1
        } else {
            0
        };
        loads(state, events.drop_last()) + now
    }
}

/// A caller asks for the session: the new state and what the caller does.
pub fn request(state: SessionState) -> (r: (SessionState, SessionStep))
    ensures
        r.0 == after(state, SessionEvent::Request),
        r.1 == step_in(state),
{
    match state {
        SessionState::Uninitialized => (SessionState::Loading, SessionStep::Load),
        SessionState::Loading => (SessionState::Loading, SessionStep::Wait),
        SessionState::Ready => (SessionState::Ready, SessionStep::Use),
        SessionState::Failed(e) => (SessionState::Failed(e), SessionStep::Fail(e)),
    }
}

/// The load ended: the new state.
pub fn loaded(state: SessionState, outcome: Result<(), DetectError>) -> (next: SessionState)
    ensures
        next == after(state, load_event(outcome)),
{
    match state {
        SessionState::Loading => match outcome {
            Ok(_) => SessionState::Ready,
            Err(e) => SessionState::Failed(e),
        },
        s => s,
    }
}

/// Whatever happens, a session that has left its first state does not come
/// back to it, and one that is ready or has failed stays as it is.
pub proof fn lemma_settled_for_good(state: SessionState, events: Seq<SessionEvent>)
    ensures
        state != SessionState::Uninitialized ==> after_all(state, events)
            != SessionState::Uninitialized,
        state == SessionState::Ready || state is Failed ==> after_all(state, events) == state,
    decreases events.len(),
{
    if events.len() > 0 {
        lemma_settled_for_good(state, events.drop_last());
    }
}

/// However many callers ask, and whatever the load gives, the model is loaded
/// at most once.
pub proof fn lemma_loads_at_most_once(state: SessionState, events: Seq<SessionEvent>)
    ensures
        loads(state, events) <= 1,
        state != SessionState::Uninitialized ==> loads(state, events) == 0,
        loads(state, events) == 1 ==> after_all(state, events) != SessionState::Uninitialized,
    decreases events.len(),
{
    if events.len() > 0 {
        let earlier = events.drop_last();
        lemma_loads_at_most_once(state, earlier);
        lemma_settled_for_good(state, earlier);
    }
}

} // verus!
