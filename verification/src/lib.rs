//! The command-dispatch core of a text-based multiplayer world server, and
//! the text layout of its terminal client.

use vstd::prelude::*;

pub mod client;
pub mod command;
pub mod dispatch;
pub mod entity;
pub mod interact;
pub mod laws;
pub mod login;
pub mod model;
pub mod object;
pub mod registry;
pub mod text;
pub mod utils;
pub mod world;
pub mod ws;

use crate::command::Handler;
use crate::entity::Entity;
use crate::interact::InteractPlugin;
use crate::login::{login_handlers, LoginPlugin};
use crate::model::{NodeView, SlotView};
use crate::object::{Object, ObjectView};
use crate::registry::{HandlerView, LoginPolicy};
use crate::utils::UtilsPlugin;
use crate::world::World;

verus! {

pub open spec fn voidroom_name() -> Seq<char> {
    "The Voidroom"@
}

pub open spec fn voidroom_description() -> Seq<char> {
    "The dark fog of the Void obscures any details beyond a few yards. Within that radius lies a rough concrete floor, cracked and worn from the thousands that came before you. An unseen spotlight emitting from an equally unseen sky gives you the only sensory stimulation you're afforded. You'd best find your way out of here, if one even exists."@
}

/// The spawn room as plain values.
pub open spec fn voidroom() -> ObjectView {
    ObjectView {
        name: Some(voidroom_name()),
        properties: Map::<Seq<char>, Seq<char>>::empty().insert(
            "description"@,
            voidroom_description(),
        ),
    }
}

/// The verbs of a full server, in registration order.
pub open spec fn standard_handlers() -> Seq<HandlerView> {
    login_handlers(Seq::empty()).push(
        HandlerView { command: "echo"@, policy: LoginPolicy::NoRequirement, handler: Handler::Echo },
    ).push(
        HandlerView { command: "look"@, policy: LoginPolicy::RequiresLogin, handler: Handler::Look },
    )
}

/// The room that every world starts with.
fn setup() -> (room: Object)
    ensures
        room@ == voidroom(),
{
    let mut room = Object::named("The Voidroom");
    room.insert(
        "description".to_owned(),
        "The dark fog of the Void obscures any details beyond a few yards. Within that radius lies a rough concrete floor, cracked and worn from the thousands that came before you. An unseen spotlight emitting from an equally unseen sky gives you the only sensory stimulation you're afforded. You'd best find your way out of here, if one even exists.".to_owned(),
    );
    room
}

/// A world with the spawn room and no verbs.
pub fn minimal_app() -> (world: World)
    ensures
        world@.wf(),
        world@.spawn_room == (Entity { index: 0, generation: 0 }),
        world@.slots == seq![SlotView { generation: 0, node: NodeView::Object(voidroom()) }],
        world@.free.len() == 0,
        world@.handlers.len() == 0,
        world@.commands.len() == 0,
        world@.outbox.len() == 0,
{
    World::new(setup())
}

/// A world with the spawn room and the verbs `login`, `register`, `logout`,
/// `echo` and `look`.
pub fn app() -> (world: World)
    ensures
        world@.wf(),
        world@.spawn_room == (Entity { index: 0, generation: 0 }),
        world@.slots == seq![SlotView { generation: 0, node: NodeView::Object(voidroom()) }],
        world@.free.len() == 0,
        world@.handlers == standard_handlers(),
        world@.commands.len() == 0,
        world@.outbox.len() == 0,
{
    let mut world = minimal_app();
    LoginPlugin.build(&mut world);
    UtilsPlugin.build(&mut world);
    InteractPlugin.build(&mut world);
    assert(world@.handlers =~= standard_handlers());
    world
}

} // verus!
