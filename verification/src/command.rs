//! One line of input as a command: a verb, its arguments, and what has become
//! of it in the current tick.

use vstd::prelude::*;
use crate::entity::Entity;
use crate::text::{
    from_chars, lemma_pieces_nonempty, lemma_trimmed_ends, pieces, skip_whitespace, to_chars,
    trim_range, trimmed, trimmed_start, whitespace,
};

verus! {

/// Whether a registered handler has taken charge of a command. A command
/// starts as `NotHandled` and may become `Handled`; it never goes back.
#[derive(Clone, Copy, PartialEq, Eq, Structural, Debug)]
pub enum CommandState {
    NotHandled,
    Handled,
}

/// The business logic that a registered verb runs.
#[derive(Clone, Copy, PartialEq, Eq, Structural, Debug)]
pub enum Handler {
    Login,
    Register,
    Logout,
    Look,
    Echo,
}

/// The verb and the arguments of a command.
#[derive(Debug)]
pub struct CommandInner {
    pub command: String,
    pub args: Vec<String>,
}

/// A command in flight: what was typed, on which connection, and how far the
/// pipeline has taken it.
#[derive(Debug)]
pub struct PlayerCommand {
    inner: CommandInner,
    state: CommandState,
    conn: Entity,
    handler: Option<Handler>,
}

/// A verb and its arguments as plain values.
pub struct CommandInnerView {
    pub command: Seq<char>,
    pub args: Seq<Seq<char>>,
}

/// A command in flight as plain values.
pub struct CommandView {
    pub verb: Seq<char>,
    pub args: Seq<Seq<char>>,
    pub state: CommandState,
    pub conn: Entity,
    pub handler: Option<Handler>,
}

impl CommandView {
    /// A command as it arrives: not handled, and no handler chosen for it.
    pub open spec fn is_new(self) -> bool {
        self.state is NotHandled && self.handler is None
    }
}

impl View for CommandInner {
    type V = CommandInnerView;

    open spec fn view(&self) -> CommandInnerView {
        CommandInnerView { command: self.command@, args: self.args.deep_view() }
    }
}

impl View for PlayerCommand {
    type V = CommandView;

    closed spec fn view(&self) -> CommandView {
        CommandView {
            verb: self.inner.command@,
            args: self.inner.args.deep_view(),
            state: self.state,
            conn: self.conn,
            handler: self.handler,
        }
    }
}

/// The number of characters of `line` that come before its first whitespace
/// character: the length of its first token.
pub open spec fn verb_len(line: Seq<char>) -> nat
    decreases line.len(),
{
    if line.len() == 0 || whitespace(line[0]) {
        0
    } else {
        1 + verb_len(line.drop_first())
    }
}

/// The verb of `line`: everything before its first whitespace character.
pub open spec fn parsed_verb(line: Seq<char>) -> Seq<char> {
    line.take(verb_len(line) as int)
}

/// What follows the verb and the run of whitespace after it.
pub open spec fn parsed_rest(line: Seq<char>) -> Seq<char> {
    trimmed_start(line.skip(verb_len(line) as int))
}

/// Each of `parts`, trimmed.
pub open spec fn trimmed_all(parts: Seq<Seq<char>>) -> Seq<Seq<char>> {
    Seq::new(parts.len(), |i: int| trimmed(parts[i]))
}

/// The arguments of `line`: the rest of the line cut at each `|`, each piece
/// trimmed. A line without a rest has the one argument `""`.
pub open spec fn parsed_args(line: Seq<char>) -> Seq<Seq<char>> {
    trimmed_all(pieces(parsed_rest(line), '|'))
}

/// The verb holds no whitespace, so trimming it changes nothing, and it is
/// followed by whitespace or by the end of the line.
pub proof fn lemma_verb_is_a_token(line: Seq<char>)
    ensures
        verb_len(line) <= line.len(),
        forall|i: int| 0 <= i < verb_len(line) ==> !whitespace(#[trigger] line[i]),
        verb_len(line) < line.len() ==> whitespace(line[verb_len(line) as int]),
        trimmed(parsed_verb(line)) == parsed_verb(line),
    decreases line.len(),
{
    if line.len() == 0 || whitespace(line[0]) {
    } else {
        let rest = line.drop_first();
        lemma_verb_is_a_token(rest);
        assert forall|i: int| 0 <= i < verb_len(line) implies !whitespace(#[trigger] line[i]) by {
            if i > 0 {
                assert(line[i] == rest[i - 1]);
            }
        }
    }
    lemma_trimmed_ends(parsed_verb(line));
}

/// A line always has at least one argument: where nothing follows the verb,
/// it is the one argument `""`.
pub proof fn lemma_args_nonempty(line: Seq<char>)
    ensures
        parsed_args(line).len() >= 1,
        parsed_rest(line).len() == 0 ==> parsed_args(line) == seq![Seq::<char>::empty()],
{
    lemma_pieces_nonempty(parsed_rest(line), '|');
    if parsed_rest(line).len() == 0 {
        assert(trimmed(Seq::<char>::empty()) == Seq::<char>::empty());
        assert(parsed_args(line) == seq![Seq::<char>::empty()]);
    }
}

/// Cuts `chars[from..to]` at each `sep` and trims every piece.
fn split_trimmed(chars: &Vec<char>, from: usize, to: usize, sep: char) -> (args: Vec<String>)
    requires
        from <= to <= chars.len(),
    ensures
        args.deep_view() == trimmed_all(pieces(chars@.subrange(from as int, to as int), sep)),
{
    let mut args: Vec<String> = Vec::new();
    let mut start: usize = from;
    let mut k: usize = from;
    let ghost mut done: Seq<Seq<char>> = Seq::empty();
    assert(chars@.subrange(from as int, from as int) == Seq::<char>::empty());
    assert(pieces(chars@.subrange(from as int, from as int), sep) == done.push(
        chars@.subrange(from as int, from as int),
    ));
    while k < to
        invariant
            from <= start <= k <= to <= chars.len(),
            pieces(chars@.subrange(from as int, k as int), sep) == done.push(
                chars@.subrange(start as int, k as int),
            ),
            args.deep_view() == trimmed_all(done),
        decreases to - k,
    {
        let ghost before = chars@.subrange(from as int, k as int);
        let ghost now = chars@.subrange(from as int, k + 1);
        assert(now.drop_last() == before);
        assert(now.last() == chars@[k as int]);
        if chars[k] == sep {
            let piece = trim_range(chars, start, k);
            let ghost old_args = args.deep_view();
            args.push(piece);
            proof {
                let cut = chars@.subrange(start as int, k as int);
                assert(args.deep_view() == old_args.push(trimmed(cut)));
                done = done.push(cut);
                assert(trimmed_all(done) == old_args.push(trimmed(cut)));
                assert(chars@.subrange(k + 1, k + 1) == Seq::<char>::empty());
            }
            start = k + 1;
        } else {
            assert(chars@.subrange(start as int, k as int).push(chars@[k as int])
                == chars@.subrange(start as int, k + 1));
            assert(done.push(chars@.subrange(start as int, k as int)).drop_last() == done);
        }
        k += 1;
    }
    let piece = trim_range(chars, start, to);
    let ghost old_args = args.deep_view();
    args.push(piece);
    proof {
        let cut = chars@.subrange(start as int, to as int);
        assert(args.deep_view() == old_args.push(trimmed(cut)));
        assert(trimmed_all(done.push(cut)) == old_args.push(trimmed(cut)));
    }
    args
}

impl CommandInner {
    /// Reads one raw line: the verb is what stands before the first
    /// whitespace; the rest is cut at each `|` and every piece trimmed. Every
    /// line parses.
    pub fn parse(line: &str) -> (inner: CommandInner)
        ensures
            inner@.command == parsed_verb(line@),
            inner@.args == parsed_args(line@),
    {
        let chars = to_chars(line);
        let n = chars.len();
        let mut i: usize = 0;
        assert(chars@.skip(0) == chars@);
        while i < n && !chars[i].is_whitespace()
            invariant
                i <= n == chars.len(),
                verb_len(chars@) == i + verb_len(chars@.skip(i as int)),
            decreases n - i,
        {
            assert(chars@.skip(i as int).drop_first() == chars@.skip(i + 1));
            i += 1;
        }
        assert(verb_len(chars@) == i);
        let command = from_chars(&chars, 0, i);
        let j = skip_whitespace(&chars, i, n);
        assert(chars@.subrange(i as int, n as int) == chars@.skip(i as int));
        let args = split_trimmed(&chars, j, n, '|');
        CommandInner { command, args }
    }
}

impl PlayerCommand {
    /// A command with the given verb and arguments, sent on `conn` and not yet
    /// handled.
    pub fn new(command: &str, args: Vec<&str>, conn: Entity) -> (cmd: PlayerCommand)
        ensures
            cmd@ == (CommandView {
                verb: command@,
                args: args.deep_view(),
                state: CommandState::NotHandled,
                conn,
                handler: None,
            }),
    {
        let mut owned: Vec<String> = Vec::new();
        let mut i: usize = 0;
        while i < args.len()
            invariant
                i <= args.len(),
                owned.deep_view() == args.deep_view().take(i as int),
            decreases args.len() - i,
        {
            let ghost before = owned.deep_view();
            owned.push(args[i].to_owned());
            assert(owned.deep_view() == before.push(args[i as int]@));
            assert(args.deep_view().take(i + 1) == args.deep_view().take(i as int).push(
                args[i as int]@,
            ));
            i += 1;
        }
        assert(args.deep_view().take(args.len() as int) == args.deep_view());
        PlayerCommand {
            inner: CommandInner { command: command.to_owned(), args: owned },
            state: CommandState::NotHandled,
            conn,
            handler: None,
        }
    }

    /// The command that the raw line `str` stands for, sent on `conn` and not
    /// yet handled.
    pub fn from_str(str: String, conn: Entity) -> (cmd: PlayerCommand)
        ensures
            cmd@ == (CommandView {
                verb: parsed_verb(str@),
                args: parsed_args(str@),
                state: CommandState::NotHandled,
                conn,
                handler: None,
            }),
    {
        PlayerCommand {
            inner: CommandInner::parse(str.as_str()),
            state: CommandState::NotHandled,
            conn,
            handler: None,
        }
    }

    /// The verb.
    pub fn verb(&self) -> (verb: &String)
        ensures
            verb@ == self@.verb,
    {
        &self.inner.command
    }

    /// The arguments, in order.
    pub fn args(&self) -> (args: &Vec<String>)
        ensures
            args.deep_view() == self@.args,
    {
        &self.inner.args
    }

    /// Whether a registered verb has answered for the command.
    pub fn state(&self) -> (state: CommandState)
        ensures
            state == self@.state,
    {
        self.state
    }

    /// The connection that sent the command.
    pub fn conn(&self) -> (conn: Entity)
        ensures
            conn == self@.conn,
    {
        self.conn
    }

    /// The handler that is to run the command in this tick, if the session
    /// check has let it pass.
    pub fn handler(&self) -> (handler: Option<Handler>)
        ensures
            handler == self@.handler,
    {
        self.handler
    }

    /// The command once a registered verb has answered for it: `Handled`, and
    /// tagged with `handler` where it is to run.
    pub(crate) fn claimed(self, handler: Option<Handler>) -> (cmd: PlayerCommand)
        ensures
            cmd@ == (CommandView {
                state: CommandState::Handled,
                handler: if handler is Some {
                    handler
                } else {
                    self@.handler
                },
                ..self@
            }),
    {
        let tag = match handler {
            Some(h) => Some(h),
            None => self.handler,
        };
        PlayerCommand { inner: self.inner, state: CommandState::Handled, conn: self.conn, handler: tag }
    }
}

} // verus!
