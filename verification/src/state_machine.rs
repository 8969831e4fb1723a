//! The application behind the log.
use vstd::prelude::*;

use crate::types::snapshot::SnapshotData;

verus! {

/// The contents of a snapshot.
pub type SnapshotBytes = Seq<u8>;

/// The application state that committed commands are applied to.
///
/// Implementations must be deterministic: every replica applies the same commands in the same
/// order and has to arrive at the same state, or a snapshot taken on one node will not reconstruct
/// the same state on another.
pub trait StateMachine<Cmd: View>: Sized {
    type Output;

    type SnapshotError;

    /// What the state of this machine is, apart from how it is held in memory.
    type State;

    /// The state this machine is in.
    spec fn state(&self) -> Self::State;

    /// The state that a command leads to.
    spec fn next_state(state: Self::State, command: Cmd::V) -> Self::State;

    /// Whether a command that is applied in `state` answers with `output`.
    spec fn answers(state: Self::State, command: Cmd::V, output: Self::Output) -> bool;

    /// The state that a snapshot holds, if it holds one.
    spec fn decoded(data: SnapshotBytes) -> Option<Self::State>;

    /// Whether a snapshot that holds no state may be turned down with `error`.
    spec fn refuses(data: SnapshotBytes, error: Self::SnapshotError) -> bool;

    /// Applies one committed command and returns whatever the client should see.
    fn apply(&mut self, command: Cmd) -> (output: Self::Output)
        ensures
            final(self).state() == Self::next_state(old(self).state(), command@),
            Self::answers(old(self).state(), command@, output),
    ;

    /// Serializes the current state.
    ///
    /// The result must reflect exactly the commands applied so far, no more and no fewer, because
    /// it is paired with a log index that claims precisely that.
    fn snapshot(&self) -> (result: Result<SnapshotData, Self::SnapshotError>)
        ensures
            result matches Ok(data) ==> Self::decoded(data@) == Some(self.state()),
    ;

    /// Replaces the state wholesale with the contents of `data`. Not a merge: anything the snapshot
    /// does not contain is gone afterward.
    fn restore(&mut self, data: &SnapshotData) -> (result: Result<(), Self::SnapshotError>)
        ensures
            result is Ok <==> Self::decoded(data@) is Some,
            result is Ok ==> Self::decoded(data@) == Some(final(self).state()),
            result matches Err(e) ==> Self::refuses(data@, e),
    ;
}

/// Whether taking a snapshot of `machine` may come back with `result`.
pub open spec fn may_snapshot<Cmd: View, S: StateMachine<Cmd>>(
    machine: &S,
    result: Result<SnapshotData, S::SnapshotError>,
) -> bool {
    call_ensures(S::snapshot, (machine,), result)
}

/// The state after a run of commands.
pub open spec fn state_after<Cmd: View, S: StateMachine<Cmd>>(
    state: S::State,
    commands: Seq<Cmd::V>,
) -> S::State
    decreases commands.len(),
{
    if commands.len() == 0 {
        state
    } else {
        S::next_state(state_after::<Cmd, S>(state, commands.drop_last()), commands.last())
    }
}

} // verus!
