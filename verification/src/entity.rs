//! The things a world is made of, and the plain values that stand for them in
//! contracts.

use vstd::prelude::*;
use crate::text::{decimal, push_decimal};

verus! {

/// A handle to a slot of the world's arena. A slot that is freed is handed
/// out again under its next generation, so the handle of what was there names
/// nothing from then on.
#[derive(Clone, Copy, PartialEq, Eq, Structural, Debug, Hash)]
pub struct Entity {
    pub index: usize,
    pub generation: u32,
}

/// The relation that makes a connection "logged in": the player it acts for.
#[derive(Clone, Copy, PartialEq, Eq, Structural, Debug)]
pub struct PlayerConnection {
    pub object: Entity,
}

/// A live transport session.
#[derive(Clone, Copy, PartialEq, Eq, Structural, Debug)]
pub struct Connection {
    pub player: Option<PlayerConnection>,
}

/// A registered account.
#[derive(Debug)]
pub struct Player {
    pub username: String,
    pub password: String,
}

/// The registry entry that names the room new players start in.
#[derive(Clone, Copy, PartialEq, Eq, Structural, Debug)]
pub struct SpawnRoom(pub Entity);

/// What a successful or failed command sends back to its connection.
#[derive(Debug)]
pub struct ConnectionMessageEvent(pub Result<String, String>);

/// A `ConnectionMessageEvent` addressed to the connection that gets it.
#[derive(Debug)]
pub struct Reply {
    pub conn: Entity,
    pub event: ConnectionMessageEvent,
}

/// An account as plain values.
pub struct PlayerView {
    pub username: Seq<char>,
    pub password: Seq<char>,
}

/// A reply as plain values.
pub struct ReplyView {
    pub conn: Entity,
    pub message: Result<Seq<char>, Seq<char>>,
}

impl View for Player {
    type V = PlayerView;

    open spec fn view(&self) -> PlayerView {
        PlayerView { username: self.username@, password: self.password@ }
    }
}

impl View for ConnectionMessageEvent {
    type V = Result<Seq<char>, Seq<char>>;

    open spec fn view(&self) -> Result<Seq<char>, Seq<char>> {
        match self.0 {
            Ok(text) => Ok(text@),
            Err(text) => Err(text@),
        }
    }
}

impl View for Reply {
    type V = ReplyView;

    open spec fn view(&self) -> ReplyView {
        ReplyView { conn: self.conn, message: self.event@ }
    }
}

impl ConnectionMessageEvent {
    /// The text to put on the wire: success and failure are sent alike.
    pub fn text(&self) -> (text: &String)
        ensures
            self@ matches Ok(t) ==> text@ == t,
            self@ matches Err(t) ==> text@ == t,
    {
        match &self.0 {
            Ok(text) => text,
            Err(text) => text,
        }
    }
}

/// How a thing without a name is shown: its index, `v`, its generation.
pub open spec fn entity_label(e: Entity) -> Seq<char> {
    decimal(e.index as nat) + "v"@ + decimal(e.generation as nat)
}

impl Entity {
    /// The handle as text: its index, `v`, its generation.
    pub fn label(&self) -> (text: String)
        ensures
            text@ == entity_label(*self),
    {
        let mut text = String::new();
        push_decimal(&mut text, self.index as u64);
        text.append("v");
        push_decimal(&mut text, self.generation as u64);
        assert(text@ =~= entity_label(*self));
        text
    }
}

} // verus!
