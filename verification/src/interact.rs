//! Looking at things.

use vstd::prelude::*;
use crate::command::{Handler, PlayerCommand};
use crate::entity::{entity_label, Entity};
use crate::object::{look_text, Object};
use crate::model::WorldView;
use crate::registry::{CommandHandler, HandlerView, LoginPolicy};
use crate::world::World;

verus! {

/// What a look at `obj` shows: its name, or its handle where it has none, and
/// below it its description where it has one.
pub fn look(entity: Entity, obj: &Object) -> (text: String)
    ensures
        text@ == look_text(entity_label(entity), obj@),
{
    let mut text = match obj.name() {
        Some(name) => name.clone(),
        None => entity.label(),
    };
    match obj.get("description") {
        Some(description) => {
            text.append("\n");
            text.append(description.as_str());
            assert(text@ =~= look_text(entity_label(entity), obj@));
            text
        },
        None => text,
    }
}

/// The verb of this module.
pub struct InteractPlugin;

impl InteractPlugin {
    /// Registers `look` for sessions that are logged in.
    pub fn build(&self, world: &mut World)
        ensures
            final(world)@ == (WorldView {
                handlers: old(world)@.handlers.push(
                    HandlerView {
                        command: "look"@,
                        policy: LoginPolicy::RequiresLogin,
                        handler: Handler::Look,
                    },
                ),
                ..old(world)@
            }),
            old(world)@.wf() ==> final(world)@.wf(),
    {
        setup(world);
    }
}

fn setup(world: &mut World)
    ensures
        final(world)@ == (WorldView {
            handlers: old(world)@.handlers.push(
                HandlerView {
                    command: "look"@,
                    policy: LoginPolicy::RequiresLogin,
                    handler: Handler::Look,
                },
            ),
            ..old(world)@
        }),
        old(world)@.wf() ==> final(world)@.wf(),
{
    world.add_handler(CommandHandler::new("look", Handler::Look, LoginPolicy::RequiresLogin));
}

/// Runs `look` for `command`: a look at the thing that the player of the
/// connection stands in. A connection that acts for nobody by now is told to
/// log in.
pub fn handle_look(world: &mut World, command: &PlayerCommand)
    requires
        old(world)@.wf(),
    ensures
        final(world)@.wf(),
        final(world)@ == old(world)@.looked(command@),
{
    let conn = command.conn();
    match world.surroundings(conn) {
        Some(room) => {
            let seen = world.describe(room);
            world.send(conn, Ok(seen));
        },
        None => {
            world.send(conn, Err("You must be logged in to do that.".to_owned()));
        },
    }
}

} // verus!
