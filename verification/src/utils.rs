//! Small verbs that need no session.

use vstd::prelude::*;
use crate::command::{Handler, PlayerCommand};
use crate::model::WorldView;
use crate::registry::{CommandHandler, HandlerView, LoginPolicy};
use crate::text::join;
use crate::world::World;

verus! {

/// The verb of this module.
pub struct UtilsPlugin;

impl UtilsPlugin {
    /// Registers `echo` for every session.
    pub fn build(&self, world: &mut World)
        ensures
            final(world)@ == (WorldView {
                handlers: old(world)@.handlers.push(
                    HandlerView {
                        command: "echo"@,
                        policy: LoginPolicy::NoRequirement,
                        handler: Handler::Echo,
                    },
                ),
                ..old(world)@
            }),
            old(world)@.wf() ==> final(world)@.wf(),
    {
        setup(world);
    }
}

fn setup(world: &mut World)
    ensures
        final(world)@ == (WorldView {
            handlers: old(world)@.handlers.push(
                HandlerView {
                    command: "echo"@,
                    policy: LoginPolicy::NoRequirement,
                    handler: Handler::Echo,
                },
            ),
            ..old(world)@
        }),
        old(world)@.wf() ==> final(world)@.wf(),
{
    world.add_handler(CommandHandler::new("echo", Handler::Echo, LoginPolicy::NoRequirement));
}

/// Runs `echo` for `command`: its arguments come back, one on each line.
pub fn handle_echo(world: &mut World, command: &PlayerCommand)
    requires
        old(world)@.wf(),
    ensures
        final(world)@.wf(),
        final(world)@ == old(world)@.echoed(command@),
{
    let text = join(command.args(), "\n");
    world.send(command.conn(), Ok(text));
}

} // verus!
