//! What the world makes of the events that the transport reports for a
//! connection.

use vstd::prelude::*;
use crate::command::{parsed_args, parsed_verb, CommandState, CommandView, PlayerCommand};
use crate::entity::Entity;
use crate::model::WorldView;
use crate::world::World;

verus! {

/// What one poll of a connection's inbound queue gave.
pub enum Received {
    /// A line of text.
    Text(String),
    /// A message that is not text.
    Other,
    /// Nothing is waiting.
    Empty,
    /// The transport has closed the connection.
    Closed,
}

/// The command that the raw line `line` stands for when `conn` sends it.
pub open spec fn line_command(line: Seq<char>, conn: Entity) -> CommandView {
    CommandView {
        verb: parsed_verb(line),
        args: parsed_args(line),
        state: CommandState::NotHandled,
        conn,
        handler: None,
    }
}

/// The world after one poll of `conn` gave `received`.
pub open spec fn after_received(w: WorldView, conn: Entity, received: Received) -> WorldView {
    match received {
        Received::Text(line) => w.received(line_command(line@, conn)),
        Received::Other => w,
        Received::Empty => w,
        Received::Closed => w.disconnected(conn),
    }
}

/// Takes in what one poll of `conn` gave: a line becomes a command of this
/// tick, a closed connection leaves the world, anything else is passed over.
/// Returns whether the connection is to be polled again in this tick.
pub fn receive_message(world: &mut World, conn: Entity, received: Received) -> (again: bool)
    requires
        old(world)@.wf(),
    ensures
        final(world)@.wf(),
        final(world)@ == after_received(old(world)@, conn, received),
        again == (received is Text || received is Other),
{
    match received {
        Received::Text(message) => {
            world.spawn(PlayerCommand::from_str(message, conn));
            true
        },
        Received::Other => true,
        Received::Empty => false,
        Received::Closed => {
            world.disconnect(conn);
            false
        },
    }
}

} // verus!
