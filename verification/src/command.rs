//! What a node asks its driver to do.
use vstd::prelude::*;

use crate::types::message::Message;
use crate::types::message::MessageView;
use crate::types::primitives::NodeId;

verus! {

/// A side effect the driver must perform on behalf of a `Node`.
///
/// `Node` is a pure state machine: it never sends bytes and never reads a clock. Every outward
/// action it needs is returned as one of these variants, which the runtime executes in order.
pub enum Command<Cmd> {
    /// Deliver `message` to peer `to`. Delivery may fail or be reordered.
    Send { to: NodeId, message: Message<Cmd> },
    /// Restart the randomized election timeout.
    ResetElectionTimer,
    /// Restart the heartbeat interval. Only a leader emits this.
    ResetHeartbeatTimer,
}

/// What a command stands for.
#[verifier::ext_equal]
pub enum CommandView<C> {
    Send { to: NodeId, message: MessageView<C> },
    ResetElectionTimer,
    ResetHeartbeatTimer,
}

impl<Cmd: View> View for Command<Cmd> {
    type V = CommandView<Cmd::V>;

    open spec fn view(&self) -> CommandView<Cmd::V> {
        match *self {
            Command::Send { to, message } => CommandView::Send { to, message: message@ },
            Command::ResetElectionTimer => CommandView::ResetElectionTimer,
            Command::ResetHeartbeatTimer => CommandView::ResetHeartbeatTimer,
        }
    }
}

/// What a list of commands stands for.
pub open spec fn command_views<Cmd: View>(commands: Seq<Command<Cmd>>) -> Seq<CommandView<Cmd::V>> {
    Seq::new(commands.len(), |i: int| commands[i]@)
}

/// Appending a command appends what it stands for.
pub broadcast proof fn lemma_command_views_push<Cmd: View>(
    commands: Seq<Command<Cmd>>,
    command: Command<Cmd>,
)
    ensures
        #[trigger] command_views(commands.push(command)) == command_views(commands).push(command@),
{
    assert(command_views(commands.push(command)) =~= command_views(commands).push(command@));
}

/// No commands stand for no commands.
pub broadcast proof fn lemma_command_views_empty<Cmd: View>()
    ensures
        #[trigger] command_views(Seq::<Command<Cmd>>::empty()) == Seq::<
            CommandView<Cmd::V>,
        >::empty(),
{
    assert(command_views(Seq::<Command<Cmd>>::empty()) =~= Seq::<CommandView<Cmd::V>>::empty());
}

} // verus!
