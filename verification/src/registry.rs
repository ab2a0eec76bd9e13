//! The table of registered verbs: which handler a verb runs and what it asks
//! of the session that sent it.

use vstd::prelude::*;
use crate::command::Handler;

verus! {

/// What a verb asks of the connection that sends it.
#[derive(Clone, Copy, PartialEq, Eq, Structural, Debug)]
pub enum LoginPolicy {
    RequiresLogin,
    RequiresNoLogin,
    NoRequirement,
}

/// One registration: a verb, the handler it runs and its login policy.
#[derive(Debug)]
pub struct CommandHandler {
    command: String,
    policy: LoginPolicy,
    handler: Handler,
}

/// A registration as plain values.
pub struct HandlerView {
    pub command: Seq<char>,
    pub policy: LoginPolicy,
    pub handler: Handler,
}

impl View for CommandHandler {
    type V = HandlerView;

    closed spec fn view(&self) -> HandlerView {
        HandlerView { command: self.command@, policy: self.policy, handler: self.handler }
    }
}

/// The reply a session gets when `policy` turns it away, if it does.
pub open spec fn gate(policy: LoginPolicy, logged_in: bool) -> Option<Seq<char>> {
    match policy {
        LoginPolicy::RequiresLogin => if logged_in {
            None
        } else {
            Some("You must be logged in to do that."@)
        },
        LoginPolicy::RequiresNoLogin => if logged_in {
            Some("You must not be logged in to do that."@)
        } else {
            None
        },
        LoginPolicy::NoRequirement => None,
    }
}

/// The index of the first entry at or after `from` that is registered for
/// `verb`.
pub open spec fn find_from(handlers: Seq<HandlerView>, verb: Seq<char>, from: int) -> Option<int>
    decreases handlers.len() - from,
{
    if from < 0 || from >= handlers.len() {
        None
    } else if handlers[from].command == verb {
        Some(from)
    } else {
        find_from(handlers, verb, from + 1)
    }
}

/// The entry that answers for `verb`: the first one registered for it.
pub open spec fn find_handler(handlers: Seq<HandlerView>, verb: Seq<char>) -> Option<HandlerView> {
    match find_from(handlers, verb, 0) {
        Some(i) => Some(handlers[i]),
        None => None,
    }
}

/// `find_from` returns the first match in registration order, and none only
/// where no entry matches.
pub proof fn lemma_find_from(handlers: Seq<HandlerView>, verb: Seq<char>, from: int)
    requires
        0 <= from,
    ensures
        match find_from(handlers, verb, from) {
            Some(i) => from <= i < handlers.len() && handlers[i].command == verb && forall|j: int|
                from <= j < i ==> (#[trigger] handlers[j]).command != verb,
            None => forall|j: int|
                from <= j < handlers.len() ==> (#[trigger] handlers[j]).command != verb,
        },
    decreases handlers.len() - from,
{
    if from < handlers.len() && handlers[from].command != verb {
        lemma_find_from(handlers, verb, from + 1);
    }
}

impl CommandHandler {
    /// Registers `handler` for the verb `command` under `policy`.
    pub fn new(command: &str, handler: Handler, policy: LoginPolicy) -> (entry: CommandHandler)
        ensures
            entry@ == (HandlerView { command: command@, policy, handler }),
    {
        CommandHandler { command: command.to_owned(), policy, handler }
    }

    /// Whether this entry is registered for `verb`.
    pub fn answers(&self, verb: &String) -> (yes: bool)
        ensures
            yes == (self@.command == verb@),
    {
        self.command == *verb
    }

    /// What the verb asks of the session.
    pub fn policy(&self) -> (policy: LoginPolicy)
        ensures
            policy == self@.policy,
    {
        self.policy
    }

    /// The handler that the verb runs.
    pub fn handler(&self) -> (handler: Handler)
        ensures
            handler == self@.handler,
    {
        self.handler
    }
}

/// The reply for a session that `policy` turns away, or nothing where the
/// session may go on.
pub fn check_policy(policy: LoginPolicy, logged_in: bool) -> (refusal: Option<String>)
    ensures
        match gate(policy, logged_in) {
            Some(text) => refusal matches Some(r) && r@ == text,
            None => refusal is None,
        },
{
    match policy {
        LoginPolicy::RequiresLogin => if logged_in {
            None
        } else {
            Some("You must be logged in to do that.".to_owned())
        },
        LoginPolicy::RequiresNoLogin => if logged_in {
            Some("You must not be logged in to do that.".to_owned())
        } else {
            None
        },
        LoginPolicy::NoRequirement => None,
    }
}

/// The first entry of `handlers` registered for `verb`.
pub fn lookup<'a>(handlers: &'a Vec<CommandHandler>, verb: &String) -> (found: Option<
    &'a CommandHandler,
>)
    ensures
        match find_handler(handlers@.map_values(|h: CommandHandler| h@), verb@) {
            Some(entry) => found matches Some(h) && h@ == entry,
            None => found is None,
        },
{
    let ghost views = handlers@.map_values(|h: CommandHandler| h@);
    let mut i: usize = 0;
    while i < handlers.len()
        invariant
            i <= handlers.len(),
            views == handlers@.map_values(|h: CommandHandler| h@),
            find_from(views, verb@, 0) == find_from(views, verb@, i as int),
        decreases handlers.len() - i,
    {
        assert(views[i as int] == handlers[i as int]@);
        if handlers[i].answers(verb) {
            return Some(&handlers[i]);
        }
        i += 1;
    }
    None
}

} // verus!
