//! The world: an arena of connections, players and things, the table of
//! registered verbs, the commands of the current tick and the outbox.

use vstd::prelude::*;
use crate::command::{CommandView, PlayerCommand};
use crate::entity::{
    Connection, ConnectionMessageEvent, Entity, Player, PlayerConnection, Reply, ReplyView,
    SpawnRoom,
};
use crate::interact::look;
use crate::model::{
    lemma_commands_replaced, lemma_disconnected, lemma_frame, lemma_received, lemma_sent,
    lemma_session_changed, lemma_spawned, NodeView, SlotView, WorldView,
};
use crate::object::Object;
use crate::registry::{CommandHandler, HandlerView};

verus! {

enum Node {
    Vacant,
    Connection(Connection),
    Player { player: Player, parent: Entity },
    Object(Object),
}

struct Slot {
    generation: u32,
    node: Node,
}

impl View for Node {
    type V = NodeView;

    closed spec fn view(&self) -> NodeView {
        match self {
            Node::Vacant => NodeView::Vacant,
            Node::Connection(conn) => NodeView::Connection(
                match conn.player {
                    Some(link) => Some(link.object),
                    None => None,
                },
            ),
            Node::Player { player, parent } => NodeView::Player { player: player@, parent: *parent },
            Node::Object(object) => NodeView::Object(object@),
        }
    }
}

impl View for Slot {
    type V = SlotView;

    closed spec fn view(&self) -> SlotView {
        SlotView { generation: self.generation, node: self.node@ }
    }
}

/// The state of the server between and during ticks.
pub struct World {
    slots: Vec<Slot>,
    free: Vec<usize>,
    spawn_room: SpawnRoom,
    handlers: Vec<CommandHandler>,
    commands: Vec<PlayerCommand>,
    outbox: Vec<Reply>,
}

pub open spec fn command_views(commands: Seq<PlayerCommand>) -> Seq<CommandView> {
    commands.map_values(|c: PlayerCommand| c@)
}

pub open spec fn reply_views(replies: Seq<Reply>) -> Seq<ReplyView> {
    replies.map_values(|r: Reply| r@)
}

pub open spec fn handler_views(handlers: Seq<CommandHandler>) -> Seq<HandlerView> {
    handlers.map_values(|h: CommandHandler| h@)
}

impl View for World {
    type V = WorldView;

    closed spec fn view(&self) -> WorldView {
        WorldView {
            slots: self.slots@.map_values(|s: Slot| s@),
            free: self.free@,
            spawn_room: self.spawn_room.0,
            handlers: handler_views(self.handlers@),
            commands: command_views(self.commands@),
            outbox: reply_views(self.outbox@),
        }
    }
}

impl World {
    /// A world that holds `room` as its spawn room and nothing else.
    pub fn new(room: Object) -> (world: World)
        ensures
            world@.wf(),
            world@.spawn_room == (Entity { index: 0, generation: 0 }),
            world@.slots == seq![SlotView { generation: 0, node: NodeView::Object(room@) }],
            world@.free.len() == 0,
            world@.handlers.len() == 0,
            world@.commands.len() == 0,
            world@.outbox.len() == 0,
    {
        let mut slots: Vec<Slot> = Vec::new();
        slots.push(Slot { generation: 0, node: Node::Object(room) });
        let world = World {
            slots,
            free: Vec::new(),
            spawn_room: SpawnRoom(Entity { index: 0, generation: 0 }),
            handlers: Vec::new(),
            commands: Vec::new(),
            outbox: Vec::new(),
        };
        assert(world@.slots =~= seq![SlotView { generation: 0, node: NodeView::Object(room@) }]);
        world
    }

    /// The room that new players start in.
    pub fn spawn_room(&self) -> (room: SpawnRoom)
        ensures
            room.0 == self@.spawn_room,
    {
        self.spawn_room
    }

    /// Puts `node` into the arena, in the slot that `next_entity` names.
    fn spawn_node(&mut self, node: Node) -> (e: Entity)
        requires
            old(self)@.wf(),
            !(node@ is Vacant),
        ensures
            e == old(self)@.next_entity(),
            final(self)@ == old(self)@.spawned(node@),
            !old(self)@.live(e),
            old(self)@.free.len() == 0 ==> old(self)@.slots.len() < usize::MAX,
    {
        if self.free.len() > 0 {
            let i = self.free.pop().unwrap();
            assert(old(self)@.free[old(self)@.free.len() - 1] == i);
            let generation = self.slots[i].generation;
            assert(old(self)@.slots[i as int] == old(self).slots[i as int]@);
            self.slots.set(i, Slot { generation, node });
            assert(self@.slots =~= old(self)@.spawned(node@).slots);
            Entity { index: i, generation }
        } else {
            let i = self.slots.len();
            self.slots.push(Slot { generation: 0, node });
            assert(self@.slots =~= old(self)@.spawned(node@).slots);
            assert(self.slots.len() == old(self)@.slots.len() + 1);
            Entity { index: i, generation: 0 }
        }
    }

    /// What the handle `e` names now, if anything.
    fn slot(&self, e: Entity) -> (found: Option<&Node>)
        ensures
            match found {
                Some(node) => self@.live(e) && node@ == self@.node(e),
                None => !self@.live(e),
            },
    {
        if e.index < self.slots.len() {
            let slot = &self.slots[e.index];
            assert(self@.slots[e.index as int] == slot@);
            if slot.generation == e.generation {
                match &slot.node {
                    Node::Vacant => None,
                    node => Some(node),
                }
            } else {
                None
            }
        } else {
            None
        }
    }

    /// Whether `e` is a live connection.
    pub fn is_connection(&self, e: Entity) -> (yes: bool)
        ensures
            yes == self@.is_connection(e),
    {
        match self.slot(e) {
            Some(Node::Connection(_)) => true,
            _ => false,
        }
    }

    /// The player that `conn` acts for, if it is a connection that is logged
    /// in.
    pub fn session(&self, conn: Entity) -> (player: Option<Entity>)
        ensures
            player == self@.session(conn),
    {
        match self.slot(conn) {
            Some(Node::Connection(c)) => match c.player {
                Some(link) => Some(link.object),
                None => None,
            },
            _ => None,
        }
    }

    /// The thing that the player of `conn` stands in.
    pub fn surroundings(&self, conn: Entity) -> (room: Option<Entity>)
        ensures
            room == self@.surroundings(conn),
    {
        match self.session(conn) {
            Some(player) => match self.slot(player) {
                Some(Node::Player { parent, .. }) => Some(*parent),
                _ => None,
            },
            None => None,
        }
    }

    /// Whether some account is called `name`.
    pub fn username_taken(&self, name: &String) -> (taken: bool)
        ensures
            taken == self@.username_taken(name@),
    {
        let mut i: usize = 0;
        while i < self.slots.len()
            invariant
                i <= self.slots.len(),
                forall|j: int|
                    0 <= j < i ==> !((#[trigger] self@.slots[j]).node is Player
                        && self@.slots[j].node->player.username == name@),
            decreases self.slots.len() - i,
        {
            assert(self@.slots[i as int] == self.slots[i as int]@);
            match &self.slots[i].node {
                Node::Player { player, .. } => {
                    if player.username == *name {
                        return true;
                    }
                },
                _ => {},
            }
            i += 1;
        }
        false
    }

    /// The account with this name and this password.
    pub fn account(&self, name: &String, password: &String) -> (found: Option<Entity>)
        ensures
            found == self@.account(name@, password@),
            self@.wf() && found is Some ==> self@.is_player(found->0),
    {
        let mut i: usize = 0;
        while i < self.slots.len()
            invariant
                i <= self.slots.len(),
                self@.account_from(name@, password@, 0) == self@.account_from(
                    name@,
                    password@,
                    i as int,
                ),
            decreases self.slots.len() - i,
        {
            assert(self@.slots[i as int] == self.slots[i as int]@);
            match &self.slots[i].node {
                Node::Player { player, .. } => {
                    if player.username == *name && player.password == *password {
                        return Some(Entity { index: i, generation: self.slots[i].generation });
                    }
                },
                _ => {},
            }
            i += 1;
        }
        None
    }

    /// Makes `player` an account that stands in the spawn room.
    pub(crate) fn spawn_player(&mut self, player: Player) -> (e: Entity)
        requires
            old(self)@.wf(),
            !old(self)@.username_taken(player@.username),
        ensures
            final(self)@.wf(),
            e == old(self)@.next_entity(),
            final(self)@ == old(self)@.spawned(
                NodeView::Player { player: player@, parent: old(self)@.spawn_room },
            ),
            final(self)@.is_player(e),
            !old(self)@.live(e),
            forall|x: Entity| x != e ==> final(self)@.node(x) == old(self)@.node(x),
    {
        let parent = self.spawn_room.0;
        let ghost node = NodeView::Player { player: player@, parent };
        let e = self.spawn_node(Node::Player { player, parent });
        proof {
            lemma_spawned(old(self)@, node);
        }
        e
    }

    /// A new connection, not logged in.
    pub fn connect(&mut self) -> (conn: Entity)
        requires
            old(self)@.wf(),
        ensures
            final(self)@.wf(),
            conn == old(self)@.next_entity(),
            !old(self)@.live(conn),
            final(self)@ == old(self)@.spawned(NodeView::Connection(None)),
            final(self)@.is_connection(conn),
            !final(self)@.logged_in(conn),
    {
        let e = self.spawn_node(Node::Connection(Connection { player: None }));
        proof {
            lemma_spawned(old(self)@, NodeView::Connection(None));
        }
        e
    }

    /// Makes `conn` act for `player`, or for nobody.
    pub(crate) fn set_session(&mut self, conn: Entity, player: Option<Entity>)
        requires
            old(self)@.wf(),
            old(self)@.is_connection(conn),
            player is Some ==> old(self)@.is_player(player->0),
        ensures
            final(self)@.wf(),
            final(self)@ == old(self)@.with_node(conn, NodeView::Connection(player)),
    {
        let link = match player {
            Some(object) => Some(PlayerConnection { object }),
            None => None,
        };
        assert(old(self)@.slots[conn.index as int] == old(self).slots[conn.index as int]@);
        self.slots.set(
            conn.index,
            Slot { generation: conn.generation, node: Node::Connection(Connection { player: link }) },
        );
        proof {
            assert(self@.slots =~= old(self)@.with_node(conn, NodeView::Connection(player)).slots);
            lemma_session_changed(old(self)@, conn, player);
        }
    }

    /// Puts a reply into the outbox.
    pub fn send(&mut self, conn: Entity, message: Result<String, String>)
        ensures
            final(self)@ == old(self)@.sent(
                conn,
                (ConnectionMessageEvent(message))@,
            ),
            old(self)@.wf() ==> final(self)@.wf(),
    {
        self.outbox.push(Reply { conn, event: ConnectionMessageEvent(message) });
        proof {
            assert(self@.outbox =~= old(self)@.sent(conn, (ConnectionMessageEvent(message))@).outbox);
            if old(self)@.wf() {
                lemma_sent(old(self)@, conn, (ConnectionMessageEvent(message))@);
            }
        }
    }

    /// The registered verbs, in registration order.
    pub fn handlers(&self) -> (handlers: &Vec<CommandHandler>)
        ensures
            handler_views(handlers@) == self@.handlers,
    {
        &self.handlers
    }

    /// Registers one more verb.
    pub fn add_handler(&mut self, handler: CommandHandler)
        ensures
            final(self)@ == (WorldView {
                handlers: old(self)@.handlers.push(handler@),
                ..old(self)@
            }),
            old(self)@.wf() ==> final(self)@.wf(),
    {
        self.handlers.push(handler);
        proof {
            assert(self@.handlers =~= old(self)@.handlers.push(handler@));
            if old(self)@.wf() {
                lemma_frame(old(self)@, self@);
            }
        }
    }

    /// What the transport reports closed: `conn` goes, and with it the
    /// commands it had pending. Returns whether `conn` was a live connection.
    pub fn disconnect(&mut self, conn: Entity) -> (closed: bool)
        requires
            old(self)@.wf(),
        ensures
            final(self)@.wf(),
            closed == old(self)@.is_connection(conn),
            final(self)@ == old(self)@.disconnected(conn),
            !final(self)@.is_connection(conn),
    {
        proof {
            lemma_disconnected(old(self)@, conn);
        }
        if !self.is_connection(conn) {
            return false;
        }
        assert(old(self)@.slots[conn.index as int] == old(self).slots[conn.index as int]@);
        if conn.generation < u32::MAX {
            self.slots.set(conn.index, Slot { generation: conn.generation + 1, node: Node::Vacant });
            self.free.push(conn.index);
        } else {
            self.slots.set(conn.index, Slot { generation: conn.generation, node: Node::Vacant });
        }
        assert(self@.slots =~= old(self)@.despawned(conn).slots);
        let mut pending: Vec<PlayerCommand> = Vec::new();
        core::mem::swap(&mut self.commands, &mut pending);
        let mut kept: Vec<PlayerCommand> = Vec::new();
        let ghost all = command_views(pending@);
        let ghost mut i: int = 0;
        assert(all.take(0) =~= Seq::<CommandView>::empty());
        for cmd in it: pending
            invariant
                i == it.index(),
                command_views(it.seq()) == all,
                command_views(kept@) == WorldView::commands_without(all.take(i), conn),
        {
            assert(all.take(i + 1).drop_last() == all.take(i));
            assert(all.take(i + 1).last() == cmd@);
            let ghost before = command_views(kept@);
            if cmd.conn() != conn {
                kept.push(cmd);
                assert(command_views(kept@) == before.push(cmd@));
            }
            proof {
                i = i + 1;
            }
        }
        assert(all.take(all.len() as int) == all);
        self.commands = kept;
        true
    }

    /// Adds `command` to the commands of the tick, if a live connection sent
    /// it. Returns whether it was taken.
    pub fn spawn(&mut self, command: PlayerCommand) -> (accepted: bool)
        requires
            old(self)@.wf(),
        ensures
            final(self)@.wf(),
            accepted == old(self)@.is_connection(command@.conn),
            final(self)@ == old(self)@.received(command@),
    {
        if self.is_connection(command.conn()) {
            self.commands.push(command);
            proof {
                assert(self@.commands =~= old(self)@.commands.push(command@));
                lemma_received(old(self)@, command@);
            }
            true
        } else {
            false
        }
    }

    /// Takes the commands of the tick out of the world.
    pub(crate) fn take_commands(&mut self) -> (commands: Vec<PlayerCommand>)
        requires
            old(self)@.wf(),
        ensures
            final(self)@.wf(),
            command_views(commands@) == old(self)@.commands,
            final(self)@ == (WorldView { commands: Seq::empty(), ..old(self)@ }),
    {
        let mut taken: Vec<PlayerCommand> = Vec::new();
        core::mem::swap(&mut self.commands, &mut taken);
        proof {
            assert(self@.commands =~= Seq::<CommandView>::empty());
            lemma_commands_replaced(old(self)@, Seq::empty());
        }
        taken
    }

    /// Puts commands back in place of those the world holds.
    pub(crate) fn put_commands(&mut self, commands: Vec<PlayerCommand>)
        requires
            old(self)@.wf(),
            forall|k: int|
                0 <= k < commands.len() ==> old(self)@.is_connection(
                    (#[trigger] command_views(commands@)[k]).conn,
                ),
        ensures
            final(self)@.wf(),
            final(self)@ == (WorldView { commands: command_views(commands@), ..old(self)@ }),
    {
        proof {
            lemma_commands_replaced(old(self)@, command_views(commands@));
        }
        self.commands = commands;
    }

    /// Hands over the replies that wait in the outbox, in sending order, and
    /// leaves the outbox empty.
    pub fn take_outbox(&mut self) -> (replies: Vec<Reply>)
        ensures
            reply_views(replies@) == old(self)@.outbox,
            final(self)@ == (WorldView { outbox: Seq::empty(), ..old(self)@ }),
            old(self)@.wf() ==> final(self)@.wf(),
    {
        let mut taken: Vec<Reply> = Vec::new();
        core::mem::swap(&mut self.outbox, &mut taken);
        proof {
            assert(self@.outbox =~= Seq::<ReplyView>::empty());
            if old(self)@.wf() {
                lemma_frame(old(self)@, self@);
            }
        }
        taken
    }

    /// The text that a look at `e` gives.
    pub fn describe(&self, e: Entity) -> (text: String)
        ensures
            text@ == self@.description(e),
    {
        match self.slot(e) {
            Some(Node::Object(object)) => look(e, object),
            _ => e.label(),
        }
    }
}

} // verus!
