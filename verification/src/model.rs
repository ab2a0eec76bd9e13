//! The state of a world as plain values, and what each step of a tick makes
//! of it. The executable world is specified against these functions.

use vstd::prelude::*;
use crate::command::{CommandState, CommandView, Handler};
use crate::entity::{entity_label, Entity, PlayerView, ReplyView};
use crate::object::{look_text, ObjectView};
use crate::registry::{find_handler, gate, HandlerView};
use crate::text::joined;

verus! {

/// What a slot of the arena holds.
pub enum NodeView {
    Vacant,
    Connection(Option<Entity>),
    Player { player: PlayerView, parent: Entity },
    Object(ObjectView),
}

/// A slot of the arena: what it holds, and how often it has been freed.
pub struct SlotView {
    pub generation: u32,
    pub node: NodeView,
}

/// A world as plain values.
pub struct WorldView {
    /// The arena: every slot ever made, vacant or not.
    pub slots: Seq<SlotView>,
    /// The vacant slots that the next spawns take, last first.
    pub free: Seq<usize>,
    pub spawn_room: Entity,
    /// The registered verbs, in registration order.
    pub handlers: Seq<HandlerView>,
    /// The commands of the current tick, in arrival order.
    pub commands: Seq<CommandView>,
    /// The replies not yet handed to the transport, in sending order.
    pub outbox: Seq<ReplyView>,
}

pub open spec fn usage_register() -> Seq<char> {
    "Usage: register <username> | <password>"@
}

pub open spec fn usage_login() -> Seq<char> {
    "Usage: login <username> | <password>"@
}

pub open spec fn username_taken_text() -> Seq<char> {
    "Username already taken."@
}

pub open spec fn invalid_login_text() -> Seq<char> {
    "Invalid username or password."@
}

pub open spec fn logged_in_text() -> Seq<char> {
    "Successfully logged in."@
}

pub open spec fn logged_out_text() -> Seq<char> {
    "Successfully logged out."@
}

pub open spec fn must_log_in_text() -> Seq<char> {
    "You must be logged in to do that."@
}

pub open spec fn unknown_command_text(verb: Seq<char>) -> Seq<char> {
    "Unknown command: "@ + verb
}

/// `slots` with the slot at `at` replaced by `slot`.
pub open spec fn put(slots: Seq<SlotView>, at: int, slot: SlotView) -> Seq<SlotView> {
    Seq::new(slots.len(), |j: int| if j == at { slot } else { slots[j] })
}

impl WorldView {
    /// Whether `e` names a thing that exists now.
    pub open spec fn live(self, e: Entity) -> bool {
        &&& e.index < self.slots.len()
        &&& self.slots[e.index as int].generation == e.generation
        &&& !(self.slots[e.index as int].node is Vacant)
    }

    /// What `e` names; `Vacant` where it names nothing.
    pub open spec fn node(self, e: Entity) -> NodeView {
        if self.live(e) {
            self.slots[e.index as int].node
        } else {
            NodeView::Vacant
        }
    }

    pub open spec fn is_connection(self, e: Entity) -> bool {
        self.node(e) is Connection
    }

    pub open spec fn is_player(self, e: Entity) -> bool {
        self.node(e) is Player
    }

    pub open spec fn is_object(self, e: Entity) -> bool {
        self.node(e) is Object
    }

    /// The player that `conn` acts for, if it is logged in.
    pub open spec fn session(self, conn: Entity) -> Option<Entity> {
        match self.node(conn) {
            NodeView::Connection(player) => player,
            _ => None,
        }
    }

    pub open spec fn logged_in(self, conn: Entity) -> bool {
        self.session(conn) is Some
    }

    /// Whether some account is called `name`.
    pub open spec fn username_taken(self, name: Seq<char>) -> bool {
        exists|i: int|
            0 <= i < self.slots.len() && (#[trigger] self.slots[i]).node is Player
                && self.slots[i].node->player.username == name
    }

    /// The first slot at or after `from` that holds an account with this name
    /// and this password.
    pub open spec fn account_from(self, name: Seq<char>, password: Seq<char>, from: int) -> Option<
        int,
    >
        decreases self.slots.len() - from,
    {
        if from < 0 || from >= self.slots.len() {
            None
        } else if self.slots[from].node is Player && self.slots[from].node->player.username == name
            && self.slots[from].node->player.password == password {
            Some(from)
        } else {
            self.account_from(name, password, from + 1)
        }
    }

    /// The account with this name and this password.
    pub open spec fn account(self, name: Seq<char>, password: Seq<char>) -> Option<Entity> {
        match self.account_from(name, password, 0) {
            Some(i) => Some(Entity { index: i as usize, generation: self.slots[i].generation }),
            None => None,
        }
    }

    /// What `conn`'s player sees: the thing it stands in.
    pub open spec fn surroundings(self, conn: Entity) -> Option<Entity> {
        match self.session(conn) {
            Some(player) => match self.node(player) {
                NodeView::Player { parent, .. } => Some(parent),
                _ => None,
            },
            None => None,
        }
    }

    /// The text that a look at `e` gives.
    pub open spec fn description(self, e: Entity) -> Seq<char> {
        match self.node(e) {
            NodeView::Object(object) => look_text(entity_label(e), object),
            _ => entity_label(e),
        }
    }

    /// The handle that the next spawn gives out.
    pub open spec fn next_entity(self) -> Entity {
        if self.free.len() > 0 {
            Entity {
                index: self.free.last(),
                generation: self.slots[self.free.last() as int].generation,
            }
        } else {
            Entity { index: self.slots.len() as usize, generation: 0 }
        }
    }

    /// The world with `node` spawned under `next_entity()`.
    pub open spec fn spawned(self, node: NodeView) -> WorldView {
        if self.free.len() > 0 {
            let i = self.free.last() as int;
            WorldView {
                slots: put(self.slots, i, SlotView { generation: self.slots[i].generation, node }),
                free: self.free.drop_last(),
                ..self
            }
        } else {
            WorldView { slots: self.slots.push(SlotView { generation: 0, node }), ..self }
        }
    }

    /// The world with the live thing `e` replaced by `node`.
    pub open spec fn with_node(self, e: Entity, node: NodeView) -> WorldView {
        WorldView {
            slots: put(self.slots, e.index as int, SlotView { generation: e.generation, node }),
            ..self
        }
    }

    /// The world with `e` gone. Its slot is handed out again under the next
    /// generation, unless it has none left.
    pub open spec fn despawned(self, e: Entity) -> WorldView {
        if e.generation < u32::MAX {
            WorldView {
                slots: put(
                    self.slots,
                    e.index as int,
                    SlotView { generation: (e.generation + 1) as u32, node: NodeView::Vacant },
                ),
                free: self.free.push(e.index),
                ..self
            }
        } else {
            WorldView {
                slots: put(
                    self.slots,
                    e.index as int,
                    SlotView { generation: e.generation, node: NodeView::Vacant },
                ),
                ..self
            }
        }
    }

    /// The world with one more reply in the outbox.
    pub open spec fn sent(self, conn: Entity, message: Result<Seq<char>, Seq<char>>) -> WorldView {
        WorldView { outbox: self.outbox.push(ReplyView { conn, message }), ..self }
    }

    /// The command as the preprocess stage leaves it. A command that no
    /// registered verb answers stays untouched; one that is answered is
    /// `Handled` whatever its policy says, and carries its handler only where
    /// the policy lets it pass.
    pub open spec fn gated(self, cmd: CommandView) -> CommandView {
        if cmd.state is Handled {
            cmd
        } else {
            match find_handler(self.handlers, cmd.verb) {
                None => cmd,
                Some(entry) => match gate(entry.policy, self.logged_in(cmd.conn)) {
                    Some(_) => CommandView { state: CommandState::Handled, ..cmd },
                    None => CommandView {
                        state: CommandState::Handled,
                        handler: Some(entry.handler),
                        ..cmd
                    },
                },
            }
        }
    }

    /// The reply that the preprocess stage sends for `cmd`, if any.
    pub open spec fn gate_reply(self, cmd: CommandView) -> Option<ReplyView> {
        if cmd.state is Handled {
            None
        } else {
            match find_handler(self.handlers, cmd.verb) {
                None => None,
                Some(entry) => match gate(entry.policy, self.logged_in(cmd.conn)) {
                    Some(text) => Some(ReplyView { conn: cmd.conn, message: Err(text) }),
                    None => None,
                },
            }
        }
    }

    /// The replies that the preprocess stage sends for `cmds`, in order.
    pub open spec fn gate_replies(self, cmds: Seq<CommandView>) -> Seq<ReplyView>
        decreases cmds.len(),
    {
        if cmds.len() == 0 {
            Seq::empty()
        } else {
            let before = self.gate_replies(cmds.drop_last());
            match self.gate_reply(cmds.last()) {
                Some(reply) => before.push(reply),
                None => before,
            }
        }
    }

    /// Each of `cmds` as the preprocess stage leaves it.
    pub open spec fn gated_all(self, cmds: Seq<CommandView>) -> Seq<CommandView> {
        Seq::new(cmds.len(), |i: int| self.gated(cmds[i]))
    }

    /// The world after the preprocess stage. Every command is judged against
    /// the sessions as they are when the stage begins.
    pub open spec fn preprocessed(self) -> WorldView {
        WorldView {
            commands: self.gated_all(self.commands),
            outbox: self.outbox + self.gate_replies(self.commands),
            ..self
        }
    }

    /// The world after the `register` handler has run `cmd`.
    pub open spec fn registered(self, cmd: CommandView) -> WorldView {
        if cmd.args.len() < 2 {
            self.sent(cmd.conn, Err(usage_register()))
        } else if self.username_taken(cmd.args[0]) {
            self.sent(cmd.conn, Err(username_taken_text()))
        } else {
            let player = PlayerView { username: cmd.args[0], password: cmd.args[1] };
            self.spawned(NodeView::Player { player, parent: self.spawn_room }).with_node(
                cmd.conn,
                NodeView::Connection(Some(self.next_entity())),
            ).sent(cmd.conn, Ok(self.description(self.spawn_room)))
        }
    }

    /// The world after the `login` handler has run `cmd`.
    pub open spec fn logged_in_by(self, cmd: CommandView) -> WorldView {
        if cmd.args.len() < 2 {
            self.sent(cmd.conn, Err(usage_login()))
        } else {
            match self.account(cmd.args[0], cmd.args[1]) {
                None => self.sent(cmd.conn, Err(invalid_login_text())),
                Some(player) => self.with_node(cmd.conn, NodeView::Connection(Some(player))).sent(
                    cmd.conn,
                    Ok(logged_in_text()),
                ),
            }
        }
    }

    /// The world after the `logout` handler has run `cmd`.
    pub open spec fn logged_out_by(self, cmd: CommandView) -> WorldView {
        self.with_node(cmd.conn, NodeView::Connection(None)).sent(cmd.conn, Ok(logged_out_text()))
    }

    /// The world after the `look` handler has run `cmd`. A session that has
    /// lost its player since it was checked is told to log in.
    pub open spec fn looked(self, cmd: CommandView) -> WorldView {
        match self.surroundings(cmd.conn) {
            Some(room) => self.sent(cmd.conn, Ok(self.description(room))),
            None => self.sent(cmd.conn, Err(must_log_in_text())),
        }
    }

    /// The world after the `echo` handler has run `cmd`.
    pub open spec fn echoed(self, cmd: CommandView) -> WorldView {
        self.sent(cmd.conn, Ok(joined(cmd.args, "\n"@)))
    }

    /// The world after the handle stage has dealt with `cmd`: the handler that
    /// the command carries runs it; a command without one is passed over.
    pub open spec fn handled_one(self, cmd: CommandView) -> WorldView {
        match cmd.handler {
            None => self,
            Some(Handler::Register) => self.registered(cmd),
            Some(Handler::Login) => self.logged_in_by(cmd),
            Some(Handler::Logout) => self.logged_out_by(cmd),
            Some(Handler::Look) => self.looked(cmd),
            Some(Handler::Echo) => self.echoed(cmd),
        }
    }

    /// The world after the handle stage has dealt with `cmds`, one after the
    /// other, each seeing what the ones before it did.
    pub open spec fn handled_all(self, cmds: Seq<CommandView>) -> WorldView
        decreases cmds.len(),
    {
        if cmds.len() == 0 {
            self
        } else {
            self.handled_all(cmds.drop_last()).handled_one(cmds.last())
        }
    }

    /// The world after the handle stage.
    pub open spec fn handled(self) -> WorldView {
        self.handled_all(self.commands)
    }

    /// The replies that the cleanup stage sends for `cmds`: one for each that
    /// is still `NotHandled`.
    pub open spec fn unknown_replies(cmds: Seq<CommandView>) -> Seq<ReplyView>
        decreases cmds.len(),
    {
        if cmds.len() == 0 {
            Seq::empty()
        } else {
            let before = Self::unknown_replies(cmds.drop_last());
            if cmds.last().state is NotHandled {
                before.push(
                    ReplyView {
                        conn: cmds.last().conn,
                        message: Err(unknown_command_text(cmds.last().verb)),
                    },
                )
            } else {
                before
            }
        }
    }

    /// The world after the cleanup stage: no command is left.
    pub open spec fn cleaned(self) -> WorldView {
        WorldView {
            commands: Seq::empty(),
            outbox: self.outbox + Self::unknown_replies(self.commands),
            ..self
        }
    }

    /// The world after one tick, before the outbox is handed over.
    pub open spec fn ticked(self) -> WorldView {
        self.preprocessed().handled().cleaned()
    }

    /// The commands of `cmds` that `conn` did not send, in order.
    pub open spec fn commands_without(cmds: Seq<CommandView>, conn: Entity) -> Seq<CommandView>
        decreases cmds.len(),
    {
        if cmds.len() == 0 {
            Seq::empty()
        } else {
            let before = Self::commands_without(cmds.drop_last(), conn);
            if cmds.last().conn == conn {
                before
            } else {
                before.push(cmds.last())
            }
        }
    }

    /// The world after the transport has closed `conn`: the connection is gone
    /// and with it the commands it had pending. The account it acted for
    /// stays. A handle that is no live connection changes nothing.
    pub open spec fn disconnected(self, conn: Entity) -> WorldView {
        if self.is_connection(conn) {
            WorldView {
                commands: Self::commands_without(self.commands, conn),
                ..self.despawned(conn)
            }
        } else {
            self
        }
    }

    /// The world with `cmd` added to the commands of the tick. A command
    /// whose sender is no live connection is dropped.
    pub open spec fn received(self, cmd: CommandView) -> WorldView {
        if self.is_connection(cmd.conn) {
            WorldView { commands: self.commands.push(cmd), ..self }
        } else {
            self
        }
    }

    /// The invariant of a world.
    pub open spec fn wf(self) -> bool {
        &&& self.slots.len() <= usize::MAX
        &&& forall|k: int|
            0 <= k < self.free.len() ==> (#[trigger] self.free[k]) < self.slots.len()
                && self.slots[self.free[k] as int].node is Vacant
        &&& forall|k: int, l: int|
            0 <= k < l < self.free.len() ==> #[trigger] self.free[k] != #[trigger] self.free[l]
        &&& self.is_object(self.spawn_room)
        &&& forall|i: int|
            0 <= i < self.slots.len() && (#[trigger] self.slots[i]).node is Connection
                && self.slots[i].node->Connection_0 is Some ==> self.is_player(
                self.slots[i].node->Connection_0->0,
            )
        &&& forall|i: int|
            0 <= i < self.slots.len() && (#[trigger] self.slots[i]).node is Player
                ==> self.is_object(self.slots[i].node->parent)
        &&& self.usernames_unique()
        &&& forall|k: int|
            0 <= k < self.commands.len() ==> self.is_connection((#[trigger] self.commands[k]).conn)
    }

    /// No two accounts share a name.
    pub open spec fn usernames_unique(self) -> bool {
        forall|i: int, j: int|
            0 <= i < self.slots.len() && 0 <= j < self.slots.len() && (
            #[trigger] self.slots[i]).node is Player && (#[trigger] self.slots[j]).node is Player
                && self.slots[i].node->player.username == self.slots[j].node->player.username ==> i
                == j
    }
}

/// Spawning keeps the world well formed: the new thing gets a handle that
/// named nothing before, and every other handle names what it named.
pub proof fn lemma_spawned(w: WorldView, node: NodeView)
    requires
        w.wf(),
        !(node is Vacant),
        node is Connection ==> node->Connection_0 is None,
        node is Player ==> w.is_object(node->parent) && !w.username_taken(node->player.username),
    ensures
        !w.live(w.next_entity()),
        w.spawned(node).node(w.next_entity()) == node,
        forall|x: Entity| x != w.next_entity() ==> w.spawned(node).node(x) == w.node(x),
        w.spawned(node).slots.len() <= usize::MAX ==> w.spawned(node).wf(),
        forall|name: Seq<char>|
            w.spawned(node).username_taken(name) <==> (w.username_taken(name) || (node is Player
                && node->player.username == name)),
{
    let e = w.next_entity();
    let w2 = w.spawned(node);
    let at = e.index as int;
    if w.free.len() > 0 {
        assert(w.free[w.free.len() - 1] == e.index);
    }
    assert(w2.slots[at].node == node);
    assert forall|x: Entity| x != e implies w2.node(x) == w.node(x) by {
        if x.index == e.index {
        } else if x.index < w.slots.len() {
            assert(w2.slots[x.index as int] == w.slots[x.index as int]);
        }
    }
    assert forall|i: int| 0 <= i < w.slots.len() && i != at implies w2.slots[i] == w.slots[i] by {}
    assert forall|k: int| 0 <= k < w2.free.len() implies (#[trigger] w2.free[k]) < w2.slots.len()
        && w2.slots[w2.free[k] as int].node is Vacant by {
        assert(w2.free[k] == w.free[k]);
        assert(w.free[k] != w.free[w.free.len() - 1]);
    }
    assert forall|k: int, l: int| 0 <= k < l < w2.free.len() implies #[trigger] w2.free[k]
        != #[trigger] w2.free[l] by {
        assert(w2.free[k] == w.free[k]);
        assert(w2.free[l] == w.free[l]);
    }
    assert forall|i: int|
        0 <= i < w2.slots.len() && (#[trigger] w2.slots[i]).node is Connection
            && w2.slots[i].node->Connection_0 is Some implies w2.is_player(
        w2.slots[i].node->Connection_0->0,
    ) by {
        assert(i != at);
        assert(w2.slots[i] == w.slots[i]);
        let p = w.slots[i].node->Connection_0->0;
        assert(w.is_player(p));
    }
    assert forall|i: int|
        0 <= i < w2.slots.len() && (#[trigger] w2.slots[i]).node is Player implies w2.is_object(
        w2.slots[i].node->parent,
    ) by {
        if i != at {
            assert(w2.slots[i] == w.slots[i]);
            assert(w.is_object(w.slots[i].node->parent));
        }
    }
    assert(w2.usernames_unique()) by {
        assert forall|i: int, j: int|
            0 <= i < w2.slots.len() && 0 <= j < w2.slots.len() && (#[trigger] w2.slots[i]).node is Player
                && (#[trigger] w2.slots[j]).node is Player && w2.slots[i].node->player.username
                == w2.slots[j].node->player.username implies i == j by {
            if i != at && j != at {
                assert(w2.slots[i] == w.slots[i]);
                assert(w2.slots[j] == w.slots[j]);
            } else if i != at {
                assert(w2.slots[i] == w.slots[i]);
            } else if j != at {
                assert(w2.slots[j] == w.slots[j]);
            }
        }
    }
    assert forall|k: int| 0 <= k < w2.commands.len() implies w2.is_connection(
        (#[trigger] w2.commands[k]).conn,
    ) by {
        assert(w.is_connection(w.commands[k].conn));
    }
    assert forall|name: Seq<char>|
        w2.username_taken(name) <==> (w.username_taken(name) || (node is Player
            && node->player.username == name)) by {
        if w.username_taken(name) {
            let i = choose|i: int|
                0 <= i < w.slots.len() && (#[trigger] w.slots[i]).node is Player
                    && w.slots[i].node->player.username == name;
            assert(i != at);
            assert(w2.slots[i] == w.slots[i]);
        }
        if node is Player && node->player.username == name {
            assert(w2.slots[at].node is Player);
        }
        if w2.username_taken(name) {
            let i = choose|i: int|
                0 <= i < w2.slots.len() && (#[trigger] w2.slots[i]).node is Player
                    && w2.slots[i].node->player.username == name;
            if i != at {
                assert(w2.slots[i] == w.slots[i]);
            }
        }
    }
}

/// Changing whom a connection acts for keeps the world well formed and
/// touches nothing else.
pub proof fn lemma_session_changed(w: WorldView, conn: Entity, player: Option<Entity>)
    requires
        w.wf(),
        w.is_connection(conn),
        player is Some ==> w.is_player(player->0),
    ensures
        w.with_node(conn, NodeView::Connection(player)).wf(),
        w.with_node(conn, NodeView::Connection(player)).session(conn) == player,
        forall|x: Entity|
            x != conn ==> w.with_node(conn, NodeView::Connection(player)).node(x) == w.node(x),
        forall|x: Entity|
            w.is_connection(x) <==> w.with_node(conn, NodeView::Connection(player)).is_connection(x),
        forall|name: Seq<char>|
            w.with_node(conn, NodeView::Connection(player)).username_taken(name)
                <==> w.username_taken(name),
{
    let w2 = w.with_node(conn, NodeView::Connection(player));
    let at = conn.index as int;
    assert(w2.slots[at].node == NodeView::Connection(player));
    assert forall|i: int| 0 <= i < w.slots.len() && i != at implies w2.slots[i] == w.slots[i] by {}
    assert forall|x: Entity| x != conn implies w2.node(x) == w.node(x) by {
        if x.index != conn.index && x.index < w.slots.len() {
            assert(w2.slots[x.index as int] == w.slots[x.index as int]);
        }
    }
    assert forall|k: int| 0 <= k < w2.free.len() implies (#[trigger] w2.free[k]) < w2.slots.len()
        && w2.slots[w2.free[k] as int].node is Vacant by {
        assert(w.free[k] != conn.index);
    }
    assert forall|i: int|
        0 <= i < w2.slots.len() && (#[trigger] w2.slots[i]).node is Connection
            && w2.slots[i].node->Connection_0 is Some implies w2.is_player(
        w2.slots[i].node->Connection_0->0,
    ) by {
        if i != at {
            assert(w2.slots[i] == w.slots[i]);
            assert(w.is_player(w.slots[i].node->Connection_0->0));
        }
    }
    assert forall|i: int|
        0 <= i < w2.slots.len() && (#[trigger] w2.slots[i]).node is Player implies w2.is_object(
        w2.slots[i].node->parent,
    ) by {
        assert(w2.slots[i] == w.slots[i]);
        assert(w.is_object(w.slots[i].node->parent));
    }
    assert(w2.usernames_unique()) by {
        assert forall|i: int, j: int|
            0 <= i < w2.slots.len() && 0 <= j < w2.slots.len() && (#[trigger] w2.slots[i]).node is Player
                && (#[trigger] w2.slots[j]).node is Player && w2.slots[i].node->player.username
                == w2.slots[j].node->player.username implies i == j by {
            assert(w2.slots[i] == w.slots[i]);
            assert(w2.slots[j] == w.slots[j]);
        }
    }
    assert forall|k: int| 0 <= k < w2.commands.len() implies w2.is_connection(
        (#[trigger] w2.commands[k]).conn,
    ) by {
        assert(w.is_connection(w.commands[k].conn));
    }
    assert forall|name: Seq<char>| w2.username_taken(name) <==> w.username_taken(name) by {
        if w.username_taken(name) {
            let i = choose|i: int|
                0 <= i < w.slots.len() && (#[trigger] w.slots[i]).node is Player
                    && w.slots[i].node->player.username == name;
            assert(w2.slots[i] == w.slots[i]);
        }
        if w2.username_taken(name) {
            let i = choose|i: int|
                0 <= i < w2.slots.len() && (#[trigger] w2.slots[i]).node is Player
                    && w2.slots[i].node->player.username == name;
            assert(w2.slots[i] == w.slots[i]);
        }
    }
}

/// A world that differs from a well-formed one only in its table of verbs and
/// its outbox is well formed.
pub proof fn lemma_frame(w: WorldView, w2: WorldView)
    requires
        w.wf(),
        w2.slots == w.slots,
        w2.free == w.free,
        w2.spawn_room == w.spawn_room,
        w2.commands == w.commands,
    ensures
        w2.wf(),
        forall|x: Entity| w2.node(x) == w.node(x),
        forall|name: Seq<char>| w2.username_taken(name) <==> w.username_taken(name),
{
    assert forall|i: int|
        0 <= i < w2.slots.len() && (#[trigger] w2.slots[i]).node is Connection
            && w2.slots[i].node->Connection_0 is Some implies w2.is_player(
        w2.slots[i].node->Connection_0->0,
    ) by {
        assert(w.is_player(w.slots[i].node->Connection_0->0));
    }
    assert forall|i: int|
        0 <= i < w2.slots.len() && (#[trigger] w2.slots[i]).node is Player implies w2.is_object(
        w2.slots[i].node->parent,
    ) by {
        assert(w.is_object(w.slots[i].node->parent));
    }
    assert forall|k: int| 0 <= k < w2.commands.len() implies w2.is_connection(
        (#[trigger] w2.commands[k]).conn,
    ) by {
        assert(w.is_connection(w.commands[k].conn));
    }
}

/// Sending a reply changes nothing but the outbox.
pub proof fn lemma_sent(w: WorldView, conn: Entity, message: Result<Seq<char>, Seq<char>>)
    requires
        w.wf(),
    ensures
        w.sent(conn, message).wf(),
{
    lemma_frame(w, w.sent(conn, message));
}

/// The commands left after a connection closes were all sent by others.
pub proof fn lemma_commands_without(cmds: Seq<CommandView>, conn: Entity)
    ensures
        forall|k: int|
            0 <= k < WorldView::commands_without(cmds, conn).len() ==> (
            #[trigger] WorldView::commands_without(cmds, conn)[k]).conn != conn && exists|j: int|
                0 <= j < cmds.len() && cmds[j] == WorldView::commands_without(cmds, conn)[k],
    decreases cmds.len(),
{
    if cmds.len() > 0 {
        lemma_commands_without(cmds.drop_last(), conn);
        let before = WorldView::commands_without(cmds.drop_last(), conn);
        let now = WorldView::commands_without(cmds, conn);
        assert forall|k: int| 0 <= k < now.len() implies (#[trigger] now[k]).conn != conn && exists|
            j: int,
        |
            0 <= j < cmds.len() && cmds[j] == now[k] by {
            if k < before.len() {
                let j = choose|j: int| 0 <= j < cmds.drop_last().len() && cmds.drop_last()[j] == before[k];
                assert(cmds[j] == now[k]);
            } else {
                assert(cmds[cmds.len() - 1] == now[k]);
            }
        }
    }
}

/// Closing a connection keeps the world well formed.
pub proof fn lemma_disconnected(w: WorldView, conn: Entity)
    requires
        w.wf(),
    ensures
        w.disconnected(conn).wf(),
        !w.disconnected(conn).is_connection(conn),
        forall|x: Entity| x != conn ==> w.disconnected(conn).node(x) == w.node(x),
        forall|name: Seq<char>| w.disconnected(conn).username_taken(name) <==> w.username_taken(name),
{
    if w.is_connection(conn) {
        let w2 = w.disconnected(conn);
        let at = conn.index as int;
        assert forall|i: int| 0 <= i < w.slots.len() && i != at implies w2.slots[i] == w.slots[i] by {}
        assert(w2.slots[at].node is Vacant);
        assert forall|x: Entity| x != conn implies w2.node(x) == w.node(x) by {
            if x.index != conn.index && x.index < w.slots.len() {
                assert(w2.slots[x.index as int] == w.slots[x.index as int]);
            }
        }
        assert forall|k: int| 0 <= k < w2.free.len() implies (#[trigger] w2.free[k]) < w2.slots.len()
            && w2.slots[w2.free[k] as int].node is Vacant by {
            if k < w.free.len() {
                assert(w2.free[k] == w.free[k]);
                assert(w.slots[w.free[k] as int].node is Vacant);
            }
        }
        assert forall|k: int, l: int| 0 <= k < l < w2.free.len() implies #[trigger] w2.free[k]
            != #[trigger] w2.free[l] by {
            assert(w2.free[k] == w.free[k]);
            assert(w.slots[w.free[k] as int].node is Vacant);
            if l < w.free.len() {
                assert(w2.free[l] == w.free[l]);
            }
        }
        assert forall|i: int|
            0 <= i < w2.slots.len() && (#[trigger] w2.slots[i]).node is Connection
                && w2.slots[i].node->Connection_0 is Some implies w2.is_player(
            w2.slots[i].node->Connection_0->0,
        ) by {
            assert(w2.slots[i] == w.slots[i]);
            assert(w.is_player(w.slots[i].node->Connection_0->0));
        }
        assert forall|i: int|
            0 <= i < w2.slots.len() && (#[trigger] w2.slots[i]).node is Player implies w2.is_object(
            w2.slots[i].node->parent,
        ) by {
            assert(w2.slots[i] == w.slots[i]);
            assert(w.is_object(w.slots[i].node->parent));
        }
        assert(w2.usernames_unique()) by {
            assert forall|i: int, j: int|
                0 <= i < w2.slots.len() && 0 <= j < w2.slots.len() && (#[trigger] w2.slots[i]).node is Player
                    && (#[trigger] w2.slots[j]).node is Player && w2.slots[i].node->player.username
                    == w2.slots[j].node->player.username implies i == j by {
                assert(w2.slots[i] == w.slots[i]);
                assert(w2.slots[j] == w.slots[j]);
            }
        }
        lemma_commands_without(w.commands, conn);
        assert forall|k: int| 0 <= k < w2.commands.len() implies w2.is_connection(
            (#[trigger] w2.commands[k]).conn,
        ) by {
            let j = choose|j: int| 0 <= j < w.commands.len() && w.commands[j] == w2.commands[k];
            assert(w.is_connection(w.commands[j].conn));
        }
        assert forall|name: Seq<char>| w2.username_taken(name) <==> w.username_taken(name) by {
            if w.username_taken(name) {
                let i = choose|i: int|
                    0 <= i < w.slots.len() && (#[trigger] w.slots[i]).node is Player
                        && w.slots[i].node->player.username == name;
                assert(w2.slots[i] == w.slots[i]);
            }
            if w2.username_taken(name) {
                let i = choose|i: int|
                    0 <= i < w2.slots.len() && (#[trigger] w2.slots[i]).node is Player
                        && w2.slots[i].node->player.username == name;
                assert(w2.slots[i] == w.slots[i]);
            }
        }
    }
}

/// Replacing the commands of the tick by commands of live connections keeps
/// the world well formed.
pub proof fn lemma_commands_replaced(w: WorldView, commands: Seq<CommandView>)
    requires
        w.wf(),
        forall|k: int| 0 <= k < commands.len() ==> w.is_connection((#[trigger] commands[k]).conn),
    ensures
        (WorldView { commands, ..w }).wf(),
{
    let w2 = WorldView { commands, ..w };
    assert forall|i: int|
        0 <= i < w2.slots.len() && (#[trigger] w2.slots[i]).node is Connection
            && w2.slots[i].node->Connection_0 is Some implies w2.is_player(
        w2.slots[i].node->Connection_0->0,
    ) by {
        assert(w.is_player(w.slots[i].node->Connection_0->0));
    }
    assert forall|i: int|
        0 <= i < w2.slots.len() && (#[trigger] w2.slots[i]).node is Player implies w2.is_object(
        w2.slots[i].node->parent,
    ) by {
        assert(w.is_object(w.slots[i].node->parent));
    }
    assert forall|k: int| 0 <= k < w2.commands.len() implies w2.is_connection(
        (#[trigger] w2.commands[k]).conn,
    ) by {
        assert(w.is_connection(commands[k].conn));
    }
}

/// Taking a command in keeps the world well formed.
pub proof fn lemma_received(w: WorldView, cmd: CommandView)
    requires
        w.wf(),
    ensures
        w.received(cmd).wf(),
{
    if w.is_connection(cmd.conn) {
        assert forall|k: int| 0 <= k < w.commands.push(cmd).len() implies w.is_connection(
            (#[trigger] w.commands.push(cmd)[k]).conn,
        ) by {
            if k < w.commands.len() {
                assert(w.is_connection(w.commands[k].conn));
            }
        }
        lemma_commands_replaced(w, w.commands.push(cmd));
    }
}

/// Whatever a handler does with a command of a live connection, every
/// connection stays a connection, and the commands, the table of verbs and
/// the spawn room stay as they are.
pub proof fn lemma_handled_one_frame(w: WorldView, cmd: CommandView)
    requires
        w.wf(),
        w.is_connection(cmd.conn),
    ensures
        forall|x: Entity| w.is_connection(x) ==> w.handled_one(cmd).is_connection(x),
        w.handled_one(cmd).commands == w.commands,
        w.handled_one(cmd).handlers == w.handlers,
        w.handled_one(cmd).spawn_room == w.spawn_room,
        w.handled_one(cmd).slots.len() <= usize::MAX ==> w.handled_one(cmd).wf(),
{
    match cmd.handler {
        None => {},
        Some(Handler::Register) => {
            if cmd.args.len() < 2 {
                lemma_frame(w, w.handled_one(cmd));
            } else if w.username_taken(cmd.args[0]) {
                lemma_frame(w, w.handled_one(cmd));
            } else {
                let player = PlayerView { username: cmd.args[0], password: cmd.args[1] };
                let node = NodeView::Player { player, parent: w.spawn_room };
                let e = w.next_entity();
                let w1 = w.spawned(node);
                lemma_spawned(w, node);
                assert(w1.node(cmd.conn) == w.node(cmd.conn));
                let w2 = w1.with_node(cmd.conn, NodeView::Connection(Some(e)));
                assert forall|x: Entity| w.is_connection(x) implies w1.is_connection(x) by {
                    assert(w1.node(x) == w.node(x));
                }
                if w1.slots.len() <= usize::MAX {
                    lemma_session_changed(w1, cmd.conn, Some(e));
                    lemma_frame(w2, w.handled_one(cmd));
                } else {
                    assert forall|x: Entity| w1.is_connection(x) implies w2.is_connection(x) by {
                        if x.index != cmd.conn.index {
                            assert(w2.slots[x.index as int] == w1.slots[x.index as int]);
                        }
                    }
                }
            }
        },
        Some(Handler::Login) => {
            if cmd.args.len() < 2 {
                lemma_frame(w, w.handled_one(cmd));
            } else {
                match w.account(cmd.args[0], cmd.args[1]) {
                    None => {
                        lemma_frame(w, w.handled_one(cmd));
                    },
                    Some(player) => {
                        lemma_account(w, cmd.args[0], cmd.args[1]);
                        lemma_session_changed(w, cmd.conn, Some(player));
                        lemma_frame(
                            w.with_node(cmd.conn, NodeView::Connection(Some(player))),
                            w.handled_one(cmd),
                        );
                    },
                }
            }
        },
        Some(Handler::Logout) => {
            lemma_session_changed(w, cmd.conn, None);
            lemma_frame(w.with_node(cmd.conn, NodeView::Connection(None)), w.handled_one(cmd));
        },
        Some(Handler::Look) => {
            lemma_frame(w, w.handled_one(cmd));
        },
        Some(Handler::Echo) => {
            lemma_frame(w, w.handled_one(cmd));
        },
    }
}

/// An account that is found is a live player with that name and password.
pub proof fn lemma_account(w: WorldView, name: Seq<char>, password: Seq<char>)
    requires
        w.slots.len() <= usize::MAX,
    ensures
        match w.account(name, password) {
            Some(e) => w.is_player(e) && w.node(e)->player.username == name && w.node(
                e,
            )->player.password == password,
            None => forall|i: int|
                0 <= i < w.slots.len() ==> !((#[trigger] w.slots[i]).node is Player
                    && w.slots[i].node->player.username == name && w.slots[i].node->player.password
                    == password),
        },
{
    lemma_account_from(w, name, password, 0);
}

proof fn lemma_account_from(w: WorldView, name: Seq<char>, password: Seq<char>, from: int)
    requires
        0 <= from,
    ensures
        match w.account_from(name, password, from) {
            Some(i) => from <= i < w.slots.len() && w.slots[i].node is Player
                && w.slots[i].node->player.username == name && w.slots[i].node->player.password
                == password,
            None => forall|i: int|
                from <= i < w.slots.len() ==> !((#[trigger] w.slots[i]).node is Player
                    && w.slots[i].node->player.username == name && w.slots[i].node->player.password
                    == password),
        },
    decreases w.slots.len() - from,
{
    if from < w.slots.len() {
        if w.slots[from].node is Player && w.slots[from].node->player.username == name
            && w.slots[from].node->player.password == password {
        } else {
            lemma_account_from(w, name, password, from + 1);
        }
    }
}

/// A handler does not look at the commands of the tick: with other commands
/// pending it does the same to everything else.
pub proof fn lemma_handled_one_commands(w: WorldView, commands: Seq<CommandView>, cmd: CommandView)
    ensures
        (WorldView { commands, ..w }).handled_one(cmd) == (WorldView {
            commands,
            ..w.handled_one(cmd)
        }),
{
    let v = WorldView { commands, ..w };
    assert forall|name: Seq<char>| v.username_taken(name) == w.username_taken(name) by {
        if w.username_taken(name) {
            let i = choose|i: int|
                0 <= i < w.slots.len() && (#[trigger] w.slots[i]).node is Player
                    && w.slots[i].node->player.username == name;
            assert(v.slots[i].node is Player);
        }
        if v.username_taken(name) {
            let i = choose|i: int|
                0 <= i < v.slots.len() && (#[trigger] v.slots[i]).node is Player
                    && v.slots[i].node->player.username == name;
            assert(w.slots[i].node is Player);
        }
    }
    assert forall|name: Seq<char>, password: Seq<char>|
        v.account(name, password) == w.account(name, password) by {
        lemma_account_from_same(v, w, name, password, 0);
    }
}

proof fn lemma_account_from_same(
    v: WorldView,
    w: WorldView,
    name: Seq<char>,
    password: Seq<char>,
    from: int,
)
    requires
        v.slots == w.slots,
    ensures
        v.account_from(name, password, from) == w.account_from(name, password, from),
    decreases w.slots.len() - from,
{
    if 0 <= from < w.slots.len() {
        lemma_account_from_same(v, w, name, password, from + 1);
    }
}

} // verus!
