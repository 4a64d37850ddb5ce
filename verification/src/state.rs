//! Observable processing state, for callers that run an engine invocation
//! off their own thread of control and watch it through a channel.

use vstd::prelude::*;

verus! {

/// std's `PathBuf`, declared so that a state can carry the output path.
#[verifier::external_type_specification]
#[verifier::external_body]
pub struct ExPathBuf(std::path::PathBuf);

/// Where an engine invocation stands, as an interactive caller observes it.
pub enum ProcessState {
    /// Nothing is running.
    Idle,
    /// The input is being transcoded to a container the engine reads.
    Converting,
    /// The engine is splitting, selecting, transforming and assembling.
    Datamoshing,
    /// The run finished; the value is the written output's path.
    Done(std::path::PathBuf),
    /// The run failed; the affected step is unusable, the session stays.
    Error,
}

impl ProcessState {
    /// Whether a caller may start a new run in this state.
    pub fn ready_for_input(&self) -> (r: bool)
        ensures
            r <==> !(self is Converting || self is Datamoshing),
    {
        match self {
            ProcessState::Converting => false,
            ProcessState::Datamoshing => false,
            _ => true,
        }
    }
}

} // verus!
