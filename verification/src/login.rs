//! Accounts and sessions: `register`, `login` and `logout`.

use vstd::prelude::*;
use crate::command::{Handler, PlayerCommand};
use crate::entity::Player;
use crate::model::WorldView;
use crate::registry::{CommandHandler, HandlerView, LoginPolicy};
use crate::world::World;

verus! {

/// The verbs of this module.
pub struct LoginPlugin;

impl LoginPlugin {
    /// Registers `login` and `register` for sessions that are not logged in,
    /// and `logout` for those that are.
    pub fn build(&self, world: &mut World)
        ensures
            final(world)@ == (WorldView {
                handlers: login_handlers(old(world)@.handlers),
                ..old(world)@
            }),
            old(world)@.wf() ==> final(world)@.wf(),
    {
        setup(world);
    }
}

/// `handlers` with the three verbs of this module registered after them.
pub open spec fn login_handlers(handlers: Seq<HandlerView>) -> Seq<HandlerView> {
    handlers.push(
        HandlerView {
            command: "login"@,
            policy: LoginPolicy::RequiresNoLogin,
            handler: Handler::Login,
        },
    ).push(
        HandlerView {
            command: "register"@,
            policy: LoginPolicy::RequiresNoLogin,
            handler: Handler::Register,
        },
    ).push(
        HandlerView {
            command: "logout"@,
            policy: LoginPolicy::RequiresLogin,
            handler: Handler::Logout,
        },
    )
}

fn setup(world: &mut World)
    ensures
        final(world)@ == (WorldView {
            handlers: login_handlers(old(world)@.handlers),
            ..old(world)@
        }),
        old(world)@.wf() ==> final(world)@.wf(),
{
    world.add_handler(CommandHandler::new("login", Handler::Login, LoginPolicy::RequiresNoLogin));
    world.add_handler(
        CommandHandler::new("register", Handler::Register, LoginPolicy::RequiresNoLogin),
    );
    world.add_handler(CommandHandler::new("logout", Handler::Logout, LoginPolicy::RequiresLogin));
}

/// Runs `login` for `command`: with fewer than two arguments the usage line;
/// with a name and a password that no account has, a refusal; else the
/// connection acts for that account from now on.
pub fn handle_login(world: &mut World, command: &PlayerCommand)
    requires
        old(world)@.wf(),
        old(world)@.is_connection(command@.conn),
    ensures
        final(world)@.wf(),
        final(world)@ == old(world)@.logged_in_by(command@),
{
    let conn = command.conn();
    let args = command.args();
    if args.len() < 2 {
        world.send(conn, Err("Usage: login <username> | <password>".to_owned()));
        return ;
    }
    assert(command@.args[0] == args[0]@ && command@.args[1] == args[1]@);
    match world.account(&args[0], &args[1]) {
        None => {
            world.send(conn, Err("Invalid username or password.".to_owned()));
        },
        Some(player) => {
            world.set_session(conn, Some(player));
            world.send(conn, Ok("Successfully logged in.".to_owned()));
        },
    }
}

/// Runs `register` for `command`: with fewer than two arguments the usage
/// line; with a name that is taken, a refusal; else a new account in the spawn
/// room, for which the connection acts from now on, and a look at that room.
pub fn handle_register(world: &mut World, command: &PlayerCommand)
    requires
        old(world)@.wf(),
        old(world)@.is_connection(command@.conn),
    ensures
        final(world)@.wf(),
        final(world)@ == old(world)@.registered(command@),
{
    let conn = command.conn();
    let args = command.args();
    if args.len() < 2 {
        world.send(conn, Err("Usage: register <username> | <password>".to_owned()));
        return ;
    }
    assert(command@.args[0] == args[0]@ && command@.args[1] == args[1]@);
    let username = args[0].clone();
    let password = args[1].clone();
    if world.username_taken(&username) {
        world.send(conn, Err("Username already taken.".to_owned()));
        return ;
    }
    let room = world.spawn_room();
    let seen = world.describe(room.0);
    let player = world.spawn_player(Player { username, password });
    world.set_session(conn, Some(player));
    world.send(conn, Ok(seen));
}

/// Runs `logout` for `command`: the connection acts for nobody from now on.
pub fn handle_logout(world: &mut World, command: &PlayerCommand)
    requires
        old(world)@.wf(),
        old(world)@.is_connection(command@.conn),
    ensures
        final(world)@.wf(),
        final(world)@ == old(world)@.logged_out_by(command@),
{
    let conn = command.conn();
    world.set_session(conn, None);
    world.send(conn, Ok("Successfully logged out.".to_owned()));
}

} // verus!
