//! The three stages of a tick: preprocess, handle, cleanup.

use vstd::prelude::*;
use crate::command::{CommandState, CommandView, Handler, PlayerCommand};
use crate::entity::{ConnectionMessageEvent, Entity, Reply};
use crate::interact::handle_look;
use crate::login::{handle_login, handle_logout, handle_register};
use crate::model::{
    lemma_commands_replaced, lemma_handled_one_commands, lemma_handled_one_frame, WorldView,
};
use crate::registry::{check_policy, lookup};
use crate::utils::handle_echo;
use crate::world::{command_views, reply_views, World};

verus! {

/// Puts a reply for `conn` into the outbox of `world`.
pub fn send(world: &mut World, conn: Entity, message: Result<String, String>)
    ensures
        final(world)@ == old(world)@.sent(
            conn,
            (ConnectionMessageEvent(message))@,
        ),
        old(world)@.wf() ==> final(world)@.wf(),
{
    world.send(conn, message);
}

/// Preprocesses one command: finds the verb in the table, marks the command
/// handled, and either turns the session away or tags the command with its
/// handler.
fn preprocess_one(world: &mut World, command: PlayerCommand) -> (after: PlayerCommand)
    requires
        old(world)@.wf(),
    ensures
        final(world)@.wf(),
        after@ == old(world)@.gated(command@),
        final(world)@ == (WorldView {
            outbox: match old(world)@.gate_reply(command@) {
                Some(reply) => old(world)@.outbox.push(reply),
                None => old(world)@.outbox,
            },
            ..old(world)@
        }),
{
    match command.state() {
        CommandState::Handled => {
            return command;
        },
        CommandState::NotHandled => {},
    }
    let found = match lookup(world.handlers(), command.verb()) {
        None => None,
        Some(entry) => Some((entry.policy(), entry.handler())),
    };
    match found {
        None => command,
        Some((policy, handler)) => {
            let conn = command.conn();
            let logged_in = world.session(conn).is_some();
            match check_policy(policy, logged_in) {
                Some(refusal) => {
                    world.send(conn, Err(refusal));
                    command.claimed(None)
                },
                None => command.claimed(Some(handler)),
            }
        },
    }
}

/// The preprocess stage: every command of the tick is checked, each
/// judged against the sessions as they are now.
pub fn preprocess_commands(world: &mut World)
    requires
        old(world)@.wf(),
    ensures
        final(world)@.wf(),
        final(world)@ == old(world)@.preprocessed(),
{
    let ghost before = world@;
    let pending = world.take_commands();
    let mut done: Vec<PlayerCommand> = Vec::new();
    let ghost all = before.commands;
    let ghost mut i: int = 0;
    assert(all.take(0) =~= Seq::<CommandView>::empty());
    for command in it: pending
        invariant
            i == it.index(),
            before.wf(),
            all == before.commands,
            command_views(it.seq()) == all,
            world@.wf(),
            world@ == (WorldView {
                commands: Seq::empty(),
                outbox: before.outbox + before.gate_replies(all.take(i)),
                ..before
            }),
            command_views(done@) == before.gated_all(all.take(i)),
    {
        let ghost cmd = command@;
        let ghost prev = world@;
        proof {
            assert(all.take(i + 1).drop_last() == all.take(i));
            assert(all.take(i + 1).last() == cmd);
            assert(prev.gated(cmd) == before.gated(cmd));
            assert(prev.gate_reply(cmd) == before.gate_reply(cmd));
        }
        let after = preprocess_one(world, command);
        let ghost views = command_views(done@);
        done.push(after);
        proof {
            assert(command_views(done@) == views.push(after@));
            assert(before.gated_all(all.take(i + 1)) == before.gated_all(all.take(i)).push(
                before.gated(cmd),
            ));
            assert(world@.outbox == before.outbox + before.gate_replies(all.take(i + 1)));
            i = i + 1;
        }
    }
    proof {
        assert(all.take(all.len() as int) == all);
        assert forall|k: int| 0 <= k < done.len() implies world@.is_connection(
            (#[trigger] command_views(done@)[k]).conn,
        ) by {
            assert(command_views(done@)[k] == before.gated(all[k]));
            assert(before.is_connection(all[k].conn));
        }
    }
    world.put_commands(done);
}

/// The handle stage for one command: the handler that the command carries
/// runs it; a command without one is passed over.
fn handle_one(world: &mut World, command: &PlayerCommand)
    requires
        old(world)@.wf(),
        old(world)@.is_connection(command@.conn),
    ensures
        final(world)@.wf(),
        final(world)@ == old(world)@.handled_one(command@),
{
    match command.handler() {
        None => {},
        Some(Handler::Register) => handle_register(world, command),
        Some(Handler::Login) => handle_login(world, command),
        Some(Handler::Logout) => handle_logout(world, command),
        Some(Handler::Look) => handle_look(world, command),
        Some(Handler::Echo) => handle_echo(world, command),
    }
}

/// The handle stage: the commands that were let through run, in arrival order,
/// each seeing what the ones before it did.
pub fn handle_commands(world: &mut World)
    requires
        old(world)@.wf(),
    ensures
        final(world)@.wf(),
        final(world)@ == old(world)@.handled(),
{
    let ghost before = world@;
    let pending = world.take_commands();
    let ghost all = before.commands;
    let mut i: usize = 0;
    assert(all.take(0) =~= Seq::<CommandView>::empty());
    while i < pending.len()
        invariant
            i <= pending.len(),
            before.wf(),
            all == before.commands,
            command_views(pending@) == all,
            world@.wf(),
            world@ == (WorldView { commands: Seq::empty(), ..before.handled_all(all.take(i as int)) }),
            before.handled_all(all.take(i as int)).commands == all,
            forall|x: Entity| before.is_connection(x) ==> world@.is_connection(x),
        decreases pending.len() - i,
    {
        let ghost prev = world@;
        let ghost full = before.handled_all(all.take(i as int));
        let ghost cmd = all[i as int];
        proof {
            assert(all.take(i + 1).drop_last() == all.take(i as int));
            assert(all.take(i + 1).last() == cmd);
            assert(pending[i as int]@ == cmd);
            assert(before.is_connection(cmd.conn));
            lemma_commands_replaced(prev, all);
            assert(full == (WorldView { commands: all, ..prev }));
            lemma_handled_one_frame(full, cmd);
            lemma_handled_one_frame(prev, cmd);
            lemma_handled_one_commands(prev, all, cmd);
        }
        handle_one(world, &pending[i]);
        i += 1;
    }
    proof {
        assert(all.take(all.len() as int) == all);
        assert forall|k: int| 0 <= k < pending.len() implies world@.is_connection(
            (#[trigger] command_views(pending@)[k]).conn,
        ) by {
            assert(before.is_connection(all[k].conn));
        }
    }
    world.put_commands(pending);
}

/// The cleanup stage: every command that no registered verb answered gets
/// the reply that it is unknown, and every command of the tick is dropped.
pub fn clean_up_unhandled_commands(world: &mut World)
    requires
        old(world)@.wf(),
    ensures
        final(world)@.wf(),
        final(world)@ == old(world)@.cleaned(),
{
    let ghost before = world@;
    let pending = world.take_commands();
    let ghost all = before.commands;
    let ghost mut i: int = 0;
    assert(all.take(0) =~= Seq::<CommandView>::empty());
    for command in it: pending
        invariant
            i == it.index(),
            all == before.commands,
            command_views(it.seq()) == all,
            world@.wf(),
            world@ == (WorldView {
                commands: Seq::empty(),
                outbox: before.outbox + WorldView::unknown_replies(all.take(i)),
                ..before
            }),
    {
        proof {
            assert(all.take(i + 1).drop_last() == all.take(i));
            assert(all.take(i + 1).last() == command@);
        }
        match command.state() {
            CommandState::NotHandled => {
                let mut text = "Unknown command: ".to_owned();
                text.append(command.verb().as_str());
                world.send(command.conn(), Err(text));
            },
            CommandState::Handled => {},
        }
        proof {
            assert(world@.outbox == before.outbox + WorldView::unknown_replies(all.take(i + 1)));
            i = i + 1;
        }
    }
    assert(all.take(all.len() as int) == all);
}

impl World {
    /// One tick: the session check for every command, then the handlers, then the
    /// cleanup. Returns the replies in sending order and leaves neither a
    /// command nor a reply behind.
    pub fn tick(&mut self) -> (replies: Vec<Reply>)
        requires
            old(self)@.wf(),
        ensures
            final(self)@.wf(),
            reply_views(replies@) == old(self)@.ticked().outbox,
            final(self)@ == (WorldView { outbox: Seq::empty(), ..old(self)@.ticked() }),
            final(self)@.commands.len() == 0,
    {
        preprocess_commands(self);
        handle_commands(self);
        clean_up_unhandled_commands(self);
        self.take_outbox()
    }
}

} // verus!
