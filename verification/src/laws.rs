//! What holds of every tick.

use vstd::prelude::*;
use crate::command::{CommandView, Handler};
use crate::entity::{Entity, PlayerView, ReplyView};
use crate::model::{
    lemma_account, lemma_commands_replaced, lemma_disconnected, lemma_frame, lemma_handled_one_frame,
    lemma_session_changed, lemma_spawned, must_log_in_text, unknown_command_text, usage_register,
    username_taken_text, NodeView, WorldView,
};
use crate::registry::{find_handler, LoginPolicy};
use crate::text::joined;

verus! {

/// A tick with the one command `cmd` pending, step by step: the command as
/// the preprocess stage leaves it, the world after its handler, and the
/// outbox after the cleanup.
proof fn lemma_single_command_tick(w: WorldView, cmd: CommandView)
    requires
        w.commands == seq![cmd],
    ensures
        w.preprocessed().commands == seq![w.gated(cmd)],
        w.preprocessed().outbox == match w.gate_reply(cmd) {
            Some(reply) => w.outbox.push(reply),
            None => w.outbox,
        },
        w.preprocessed().handled() == w.preprocessed().handled_one(w.gated(cmd)),
        WorldView::unknown_replies(seq![w.gated(cmd)]) == if w.gated(cmd).state is NotHandled {
            seq![
                ReplyView {
                    conn: cmd.conn,
                    message: Err(unknown_command_text(w.gated(cmd).verb)),
                },
            ]
        } else {
            Seq::<ReplyView>::empty()
        },
{
    let p = w.preprocessed();
    let g = w.gated(cmd);
    let none = Seq::<CommandView>::empty();
    assert(seq![cmd].drop_last() == none);
    assert(seq![g].drop_last() == none);
    assert(p.commands == seq![g]);
    assert(w.gate_replies(none) == Seq::<ReplyView>::empty());
    assert(w.gate_replies(seq![cmd]) == match w.gate_reply(cmd) {
        Some(reply) => Seq::<ReplyView>::empty().push(reply),
        None => Seq::<ReplyView>::empty(),
    });
    assert(p.handled_all(none) == p);
    assert(p.handled_all(seq![g]) == p.handled_all(seq![g].drop_last()).handled_one(seq![g].last()));
    assert(WorldView::unknown_replies(none) == Seq::<ReplyView>::empty());
    assert(g.conn == cmd.conn);
}

/// A verb that requires a login, sent on a connection that is not logged in,
/// is refused by the preprocess stage of whatever tick it is part of: the
/// reply is the refusal, the command counts as handled, and no handler is
/// chosen for it.
pub proof fn law_login_required(w: WorldView, cmd: CommandView)
    requires
        cmd.is_new(),
        find_handler(w.handlers, cmd.verb) is Some,
        find_handler(w.handlers, cmd.verb)->0.policy == LoginPolicy::RequiresLogin,
        !w.logged_in(cmd.conn),
    ensures
        w.gate_reply(cmd) == Some(ReplyView { conn: cmd.conn, message: Err(must_log_in_text()) }),
        w.gated(cmd).state is Handled,
        w.gated(cmd).handler is None,
{
}

/// A verb that requires a login, sent alone on a connection that is not
/// logged in, yields exactly one reply, the refusal, and changes nothing
/// else.
pub proof fn law_login_required_tick(w: WorldView, cmd: CommandView)
    requires
        w.commands == seq![cmd],
        cmd.is_new(),
        find_handler(w.handlers, cmd.verb) is Some,
        find_handler(w.handlers, cmd.verb)->0.policy == LoginPolicy::RequiresLogin,
        !w.logged_in(cmd.conn),
    ensures
        w.ticked() == (WorldView {
            commands: Seq::empty(),
            outbox: w.outbox.push(ReplyView { conn: cmd.conn, message: Err(must_log_in_text()) }),
            ..w
        }),
{
    lemma_single_command_tick(w, cmd);
    law_login_required(w, cmd);
    let p = w.preprocessed();
    assert(p.handled() == p);
    assert(p.outbox + Seq::<ReplyView>::empty() == p.outbox);
}

/// A verb that is not registered, sent alone, yields exactly one reply, that
/// the command is unknown, and changes nothing else.
pub proof fn law_unknown_verb_tick(w: WorldView, cmd: CommandView)
    requires
        w.commands == seq![cmd],
        cmd.is_new(),
        find_handler(w.handlers, cmd.verb) is None,
    ensures
        w.ticked() == (WorldView {
            commands: Seq::empty(),
            outbox: w.outbox.push(
                ReplyView { conn: cmd.conn, message: Err(unknown_command_text(cmd.verb)) },
            ),
            ..w
        }),
{
    lemma_single_command_tick(w, cmd);
    let p = w.preprocessed();
    assert(w.gated(cmd) == cmd);
    assert(p.handled() == p);
    assert(p.outbox + seq![
        ReplyView { conn: cmd.conn, message: Err(unknown_command_text(cmd.verb)) },
    ] == w.outbox.push(
        ReplyView { conn: cmd.conn, message: Err(unknown_command_text(cmd.verb)) },
    ));
}

/// `echo`, registered without a login requirement and sent alone, yields its
/// arguments joined by line breaks, whether the connection is logged in or
/// not, and changes nothing else.
pub proof fn law_echo_tick(w: WorldView, cmd: CommandView)
    requires
        w.commands == seq![cmd],
        cmd.is_new(),
        find_handler(w.handlers, cmd.verb) is Some,
        find_handler(w.handlers, cmd.verb)->0.policy == LoginPolicy::NoRequirement,
        find_handler(w.handlers, cmd.verb)->0.handler == Handler::Echo,
    ensures
        w.ticked() == (WorldView {
            commands: Seq::empty(),
            outbox: w.outbox.push(
                ReplyView { conn: cmd.conn, message: Ok(joined(cmd.args, "\n"@)) },
            ),
            ..w
        }),
{
    lemma_single_command_tick(w, cmd);
    let p = w.preprocessed();
    let g = w.gated(cmd);
    assert(g.handler == Some(Handler::Echo));
    assert(p.outbox == w.outbox);
    assert(p.handled() == p.echoed(g));
    assert(p.handled().outbox + Seq::<ReplyView>::empty() == p.handled().outbox);
}

/// `register` with fewer than two arguments, sent alone on a connection that
/// is not logged in, yields the usage line and changes nothing else.
pub proof fn law_register_usage_tick(w: WorldView, cmd: CommandView)
    requires
        w.commands == seq![cmd],
        cmd.is_new(),
        find_handler(w.handlers, cmd.verb) is Some,
        find_handler(w.handlers, cmd.verb)->0.policy == LoginPolicy::RequiresNoLogin,
        find_handler(w.handlers, cmd.verb)->0.handler == Handler::Register,
        !w.logged_in(cmd.conn),
        cmd.args.len() < 2,
    ensures
        w.ticked() == (WorldView {
            commands: Seq::empty(),
            outbox: w.outbox.push(ReplyView { conn: cmd.conn, message: Err(usage_register()) }),
            ..w
        }),
{
    lemma_single_command_tick(w, cmd);
    let p = w.preprocessed();
    let g = w.gated(cmd);
    assert(g.handler == Some(Handler::Register));
    assert(p.outbox == w.outbox);
    assert(p.handled() == p.registered(g));
    assert(p.handled().outbox + Seq::<ReplyView>::empty() == p.handled().outbox);
}

/// The preprocess stage judges every command of the tick against the
/// sessions as they are when the tick begins, and touches no session itself:
/// a login that is part of the same tick is not seen.
pub proof fn law_sessions_are_judged_at_tick_start(w: WorldView, k: int)
    requires
        0 <= k < w.commands.len(),
    ensures
        w.preprocessed().commands.len() == w.commands.len(),
        w.preprocessed().commands[k] == w.gated(w.commands[k]),
        w.preprocessed().slots == w.slots,
        w.preprocessed().free == w.free,
{
}

/// The state of a command only moves forward: the preprocess stage leaves a
/// handled command as it is, and never makes one unhandled.
pub proof fn law_state_is_monotonic(w: WorldView, cmd: CommandView)
    ensures
        cmd.state is Handled ==> w.gated(cmd) == cmd,
        w.gated(cmd).state is NotHandled ==> cmd.state is NotHandled,
        w.gated(cmd).verb == cmd.verb && w.gated(cmd).args == cmd.args && w.gated(cmd).conn
            == cmd.conn,
{
}

/// No command outlives its tick.
pub proof fn law_no_command_survives(w: WorldView)
    ensures
        w.ticked().commands.len() == 0,
{
}

/// A handler sends exactly one reply for the command it runs and leaves the
/// commands of the tick alone; a command without a handler gets none.
pub proof fn law_handler_replies_once(w: WorldView, cmd: CommandView)
    ensures
        w.handled_one(cmd).commands == w.commands,
        w.handled_one(cmd).outbox.len() == w.outbox.len() + if cmd.handler is Some {
            1int
        } else {
            0int
        },
        cmd.handler is Some ==> w.handled_one(cmd).outbox.last().conn == cmd.conn,
        w.handled_one(cmd).outbox.take(w.outbox.len() as int) == w.outbox,
{
}

proof fn lemma_replies_counted(w: WorldView, v: WorldView, cmds: Seq<CommandView>)
    requires
        forall|k: int| 0 <= k < cmds.len() ==> (#[trigger] cmds[k]).is_new(),
    ensures
        v.handled_all(w.gated_all(cmds)).commands == v.commands,
        v.handled_all(w.gated_all(cmds)).outbox.len() >= v.outbox.len(),
        v.handled_all(w.gated_all(cmds)).outbox.take(v.outbox.len() as int) == v.outbox,
        w.gate_replies(cmds).len() + (v.handled_all(w.gated_all(cmds)).outbox.len()
            - v.outbox.len()) + WorldView::unknown_replies(w.gated_all(cmds)).len() == cmds.len(),
    decreases cmds.len(),
{
    let all = w.gated_all(cmds);
    if cmds.len() == 0 {
        assert(v.handled_all(all) == v);
        assert(v.outbox.take(v.outbox.len() as int) == v.outbox);
    } else {
        let front = cmds.drop_last();
        let last = cmds.last();
        assert forall|k: int| 0 <= k < front.len() implies (#[trigger] front[k]).is_new() by {
            assert(front[k] == cmds[k]);
        }
        lemma_replies_counted(w, v, front);
        assert(all.drop_last() == w.gated_all(front));
        assert(all.last() == w.gated(last));
        assert(last.is_new());
        let before = v.handled_all(w.gated_all(front));
        law_handler_replies_once(before, w.gated(last));
        assert(before.handled_one(w.gated(last)).outbox.take(v.outbox.len() as int)
            == before.handled_one(w.gated(last)).outbox.take(before.outbox.len() as int).take(
            v.outbox.len() as int,
        ));
    }
}

/// Every command of a tick is answered exactly once: the outbox grows by one
/// reply for each command, behind the replies that were waiting in it.
pub proof fn law_every_command_is_answered(w: WorldView)
    requires
        forall|k: int| 0 <= k < w.commands.len() ==> (#[trigger] w.commands[k]).is_new(),
    ensures
        w.ticked().outbox.len() == w.outbox.len() + w.commands.len(),
        w.ticked().outbox.take(w.outbox.len() as int) == w.outbox,
{
    let p = w.preprocessed();
    lemma_replies_counted(w, p, w.commands);
    let h = p.handled();
    assert(h == p.handled_all(w.gated_all(w.commands)));
    assert(p.outbox.take(w.outbox.len() as int) == w.outbox);
    assert(w.ticked().outbox.take(w.outbox.len() as int) == h.outbox.take(
        p.outbox.len() as int,
    ).take(w.outbox.len() as int));
}

proof fn lemma_handled_all_keeps_invariant(v: WorldView, cmds: Seq<CommandView>)
    requires
        v.wf(),
        forall|k: int| 0 <= k < cmds.len() ==> v.is_connection((#[trigger] cmds[k]).conn),
        v.handled_all(cmds).slots.len() <= usize::MAX,
    ensures
        v.handled_all(cmds).wf(),
        v.handled_all(cmds).commands == v.commands,
        v.handled_all(cmds).handlers == v.handlers,
        v.handled_all(cmds).spawn_room == v.spawn_room,
        forall|x: Entity| v.is_connection(x) ==> v.handled_all(cmds).is_connection(x),
    decreases cmds.len(),
{
    if cmds.len() > 0 {
        let front = cmds.drop_last();
        let before = v.handled_all(front);
        lemma_slots_never_shrink(before, cmds.last());
        assert forall|k: int| 0 <= k < front.len() implies v.is_connection(
            (#[trigger] front[k]).conn,
        ) by {
            assert(front[k] == cmds[k]);
        }
        lemma_handled_all_keeps_invariant(v, front);
        assert(before.is_connection(cmds.last().conn)) by {
            assert(v.is_connection(cmds[cmds.len() - 1].conn));
        }
        lemma_handled_one_frame(before, cmds.last());
    }
}

proof fn lemma_slots_never_shrink(v: WorldView, cmd: CommandView)
    ensures
        v.handled_one(cmd).slots.len() >= v.slots.len(),
{
}

/// A tick keeps the world well formed: no two accounts share a name, the
/// spawn room is there, every session is that of an account, and no command
/// is left. The arena is assumed not to outgrow the machine.
pub proof fn law_tick_keeps_invariant(w: WorldView)
    requires
        w.wf(),
        w.ticked().slots.len() <= usize::MAX,
    ensures
        w.ticked().wf(),
        w.ticked().spawn_room == w.spawn_room,
        w.ticked().handlers == w.handlers,
        forall|x: Entity| w.is_connection(x) ==> w.ticked().is_connection(x),
{
    let p = w.preprocessed();
    let with_replies = WorldView { outbox: p.outbox, ..w };
    lemma_frame(w, with_replies);
    assert forall|k: int| 0 <= k < p.commands.len() implies with_replies.is_connection(
        (#[trigger] p.commands[k]).conn,
    ) by {
        assert(p.commands[k] == w.gated(w.commands[k]));
        assert(w.is_connection(w.commands[k].conn));
    }
    lemma_commands_replaced(with_replies, p.commands);
    assert(p == (WorldView { commands: p.commands, ..with_replies }));
    assert forall|k: int| 0 <= k < p.commands.len() implies p.is_connection(
        (#[trigger] p.commands[k]).conn,
    ) by {
        assert(with_replies.is_connection(p.commands[k].conn));
    }
    lemma_handled_all_keeps_invariant(p, p.commands);
    let h = p.handled();
    let no_commands = WorldView { commands: Seq::empty(), ..h };
    lemma_commands_replaced(h, Seq::empty());
    lemma_frame(no_commands, w.ticked());
    assert forall|x: Entity| w.is_connection(x) implies w.ticked().is_connection(x) by {
        assert(with_replies.is_connection(x));
        assert(p.is_connection(x));
        assert(h.is_connection(x));
        assert(no_commands.is_connection(x));
    }
}

/// A registration that goes through makes the account: the name is taken
/// from then on, the connection acts for the new account, the reply is a look
/// at the spawn room, and the name with its password finds the account while
/// the name with another password finds none.
pub proof fn law_register_creates_account(w: WorldView, cmd: CommandView)
    requires
        w.wf(),
        w.is_connection(cmd.conn),
        cmd.args.len() >= 2,
        !w.username_taken(cmd.args[0]),
        w.registered(cmd).slots.len() <= usize::MAX,
    ensures
        w.registered(cmd).wf(),
        w.registered(cmd).username_taken(cmd.args[0]),
        w.registered(cmd).session(cmd.conn) == Some(w.next_entity()),
        w.registered(cmd).is_player(w.next_entity()),
        w.registered(cmd).outbox == w.outbox.push(
            ReplyView { conn: cmd.conn, message: Ok(w.description(w.spawn_room)) },
        ),
        w.registered(cmd).account(cmd.args[0], cmd.args[1]) == Some(w.next_entity()),
        forall|password: Seq<char>|
            password != cmd.args[1] ==> w.registered(cmd).account(cmd.args[0], password) is None,
{
    let player = PlayerView { username: cmd.args[0], password: cmd.args[1] };
    let node = NodeView::Player { player, parent: w.spawn_room };
    let e = w.next_entity();
    let w1 = w.spawned(node);
    lemma_spawned(w, node);
    assert(w1.node(cmd.conn) == w.node(cmd.conn));
    let w2 = w1.with_node(cmd.conn, NodeView::Connection(Some(e)));
    lemma_session_changed(w1, cmd.conn, Some(e));
    let w3 = w.registered(cmd);
    lemma_frame(w2, w3);
    assert(w3.node(e) == node);
    assert(w3.slots[e.index as int].node == node);
    assert forall|password: Seq<char>| true implies account_is(
        #[trigger] w3.account(cmd.args[0], password),
        password == cmd.args[1],
        e,
    ) by {
        lemma_account(w3, cmd.args[0], password);
        match w3.account(cmd.args[0], password) {
            Some(found) => {
                assert(w3.slots[found.index as int].node is Player);
                assert(found.index == e.index);
            },
            None => {},
        }
    }
}

spec fn account_is(found: Option<Entity>, expected: bool, e: Entity) -> bool {
    found == if expected {
        Some(e)
    } else {
        None::<Entity>
    }
}

/// Once a name is taken, registering it again is refused, on whatever
/// connection, and nothing but the outbox changes.
pub proof fn law_taken_name_is_refused(w: WorldView, cmd: CommandView)
    requires
        cmd.args.len() >= 2,
        w.username_taken(cmd.args[0]),
    ensures
        w.registered(cmd) == w.sent(cmd.conn, Err(username_taken_text())),
{
}

/// The handle of a closed connection names nothing afterwards, and the next
/// thing to be spawned gets another handle, also where it takes the slot.
pub proof fn law_closed_handle_is_not_reused(w: WorldView, conn: Entity)
    requires
        w.wf(),
        w.is_connection(conn),
    ensures
        !w.disconnected(conn).live(conn),
        w.disconnected(conn).next_entity() != conn,
        forall|node: NodeView| !(#[trigger] w.disconnected(conn).spawned(node)).live(conn),
{
    lemma_disconnected(w, conn);
    let w2 = w.disconnected(conn);
    assert(w2.slots[conn.index as int].node is Vacant);
    if conn.generation < u32::MAX {
        assert(w2.free.last() == conn.index);
        assert(w2.slots[conn.index as int].generation == conn.generation + 1);
    } else {
        assert(w2.free == w.free);
        if w2.free.len() > 0 {
            assert(w.slots[w.free[w.free.len() - 1] as int].node is Vacant);
        }
    }
    assert forall|node: NodeView| !(#[trigger] w2.spawned(node)).live(conn) by {
        let w3 = w2.spawned(node);
        if w2.free.len() > 0 {
            assert(w2.free[w2.free.len() - 1] < w2.slots.len());
        }
    }
}

} // verus!
