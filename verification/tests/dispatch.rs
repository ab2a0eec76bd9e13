use texla::app;
use texla::command::{CommandInner, CommandState, PlayerCommand};
use texla::dispatch::{clean_up_unhandled_commands, handle_commands, preprocess_commands, send};
use texla::entity::{Entity, Reply};
use texla::world::World;
use texla::ws::{receive_message, Received};

const DESCRIPTION: &str = "The dark fog of the Void obscures any details beyond a few yards. Within that radius lies a rough concrete floor, cracked and worn from the thousands that came before you. An unseen spotlight emitting from an equally unseen sky gives you the only sensory stimulation you're afforded. You'd best find your way out of here, if one even exists.";

fn line(world: &mut World, conn: Entity, text: &str) {
    assert!(receive_message(world, conn, Received::Text(text.to_owned())));
}

fn replies(world: &mut World) -> Vec<(Entity, Result<String, String>)> {
    world.tick().into_iter().map(|Reply { conn, event }| (conn, event.0)).collect()
}

fn ok(text: &str) -> Result<String, String> {
    Ok(text.to_owned())
}

fn err(text: &str) -> Result<String, String> {
    Err(text.to_owned())
}

fn room_text() -> String {
    format!("The Voidroom\n{}", DESCRIPTION)
}

#[test]
fn verbs_that_require_login_are_refused_without_one() {
    let mut world = app();
    let conn = world.connect();
    for verb in ["logout", "look", "look around", "logout | now"] {
        line(&mut world, conn, verb);
        assert_eq!(replies(&mut world), vec![(conn, err("You must be logged in to do that."))]);
    }
}

#[test]
fn register_twice_is_refused_the_second_time() {
    let mut world = app();
    let first = world.connect();
    let second = world.connect();
    line(&mut world, first, "register foo | bar");
    assert_eq!(replies(&mut world), vec![(first, Ok(room_text()))]);
    line(&mut world, second, "register foo | bar");
    assert_eq!(replies(&mut world), vec![(second, err("Username already taken."))]);
    line(&mut world, second, "register foo | other");
    assert_eq!(replies(&mut world), vec![(second, err("Username already taken."))]);
}

#[test]
fn register_needs_two_arguments() {
    let mut world = app();
    let conn = world.connect();
    for text in ["register", "register foo", "register   ", "register foo "] {
        line(&mut world, conn, text);
        assert_eq!(
            replies(&mut world),
            vec![(conn, err("Usage: register <username> | <password>"))]
        );
    }
    assert_eq!(world.session(conn), None);
}

#[test]
fn register_logout_login() {
    let mut world = app();
    let conn = world.connect();
    line(&mut world, conn, "register foo | bar");
    assert_eq!(replies(&mut world), vec![(conn, Ok(room_text()))]);
    let player = world.session(conn).unwrap();
    line(&mut world, conn, "logout");
    assert_eq!(replies(&mut world), vec![(conn, ok("Successfully logged out."))]);
    assert_eq!(world.session(conn), None);
    line(&mut world, conn, "login foo | wrong");
    assert_eq!(replies(&mut world), vec![(conn, err("Invalid username or password."))]);
    line(&mut world, conn, "login nobody | bar");
    assert_eq!(replies(&mut world), vec![(conn, err("Invalid username or password."))]);
    line(&mut world, conn, "login foo");
    assert_eq!(replies(&mut world), vec![(conn, err("Usage: login <username> | <password>"))]);
    line(&mut world, conn, "login foo | bar");
    assert_eq!(replies(&mut world), vec![(conn, ok("Successfully logged in."))]);
    assert_eq!(world.session(conn), Some(player));
}

#[test]
fn unregistered_verb_is_unknown() {
    let mut world = app();
    let conn = world.connect();
    line(&mut world, conn, "dance");
    assert_eq!(replies(&mut world), vec![(conn, err("Unknown command: dance"))]);
    line(&mut world, conn, "Echo hello");
    assert_eq!(replies(&mut world), vec![(conn, err("Unknown command: Echo"))]);
    line(&mut world, conn, "");
    assert_eq!(replies(&mut world), vec![(conn, err("Unknown command: "))]);
}

#[test]
fn echo_answers_whatever_the_session() {
    let mut world = app();
    let conn = world.connect();
    line(&mut world, conn, "echo hello | world");
    assert_eq!(replies(&mut world), vec![(conn, ok("hello\nworld"))]);
    line(&mut world, conn, "register foo | bar");
    replies(&mut world);
    line(&mut world, conn, "echo hello | world");
    assert_eq!(replies(&mut world), vec![(conn, ok("hello\nworld"))]);
    line(&mut world, conn, "echo");
    assert_eq!(replies(&mut world), vec![(conn, ok(""))]);
    line(&mut world, conn, "echo  a  |  | b ");
    assert_eq!(replies(&mut world), vec![(conn, ok("a\n\nb"))]);
}

#[test]
fn register_shows_the_spawn_room() {
    let mut world = app();
    let conn = world.connect();
    line(&mut world, conn, "register foo | bar");
    let out = replies(&mut world);
    assert_eq!(out.len(), 1);
    let text = out[0].1.clone().unwrap();
    assert!(text.contains("The Voidroom"));
    assert!(text.contains(DESCRIPTION));
    assert_eq!(text, room_text());
}

#[test]
fn look_shows_the_room_of_the_player() {
    let mut world = app();
    let conn = world.connect();
    line(&mut world, conn, "register foo | bar");
    replies(&mut world);
    line(&mut world, conn, "look");
    assert_eq!(replies(&mut world), vec![(conn, Ok(room_text()))]);
    assert_eq!(world.surroundings(conn), Some(world.spawn_room().0));
}

#[test]
fn login_state_is_judged_at_the_start_of_the_tick() {
    let mut world = app();
    let conn = world.connect();
    line(&mut world, conn, "register foo | bar");
    line(&mut world, conn, "look");
    assert_eq!(
        replies(&mut world),
        vec![(conn, err("You must be logged in to do that.")), (conn, Ok(room_text()))]
    );
    line(&mut world, conn, "logout");
    line(&mut world, conn, "look");
    assert_eq!(
        replies(&mut world),
        vec![
            (conn, ok("Successfully logged out.")),
            (conn, err("You must be logged in to do that.")),
        ]
    );
}

#[test]
fn same_name_in_one_tick_is_taken_once() {
    let mut world = app();
    let first = world.connect();
    let second = world.connect();
    line(&mut world, first, "register foo | bar");
    line(&mut world, second, "register foo | baz");
    assert_eq!(
        replies(&mut world),
        vec![(first, Ok(room_text())), (second, err("Username already taken."))]
    );
    assert!(world.username_taken(&"foo".to_owned()));
    assert!(world.account(&"foo".to_owned(), &"bar".to_owned()).is_some());
    assert_eq!(world.account(&"foo".to_owned(), &"baz".to_owned()), None);
}

#[test]
fn replies_come_stage_by_stage() {
    let mut world = app();
    let a = world.connect();
    let b = world.connect();
    line(&mut world, a, "dance");
    line(&mut world, b, "echo one");
    line(&mut world, a, "look");
    line(&mut world, b, "echo two");
    assert_eq!(
        replies(&mut world),
        vec![
            (a, err("You must be logged in to do that.")),
            (b, ok("one")),
            (b, ok("two")),
            (a, err("Unknown command: dance")),
        ]
    );
    assert_eq!(replies(&mut world), vec![]);
}

#[test]
fn stages_run_one_by_one() {
    let mut world = app();
    let conn = world.connect();
    line(&mut world, conn, "dance");
    line(&mut world, conn, "echo hi");
    line(&mut world, conn, "logout");
    preprocess_commands(&mut world);
    let out = world.take_outbox();
    assert_eq!(out.len(), 1);
    assert_eq!(out[0].event.0, err("You must be logged in to do that."));
    handle_commands(&mut world);
    let out = world.take_outbox();
    assert_eq!(out.len(), 1);
    assert_eq!(out[0].event.0, ok("hi"));
    clean_up_unhandled_commands(&mut world);
    let out = world.take_outbox();
    assert_eq!(out.len(), 1);
    assert_eq!(out[0].event.0, err("Unknown command: dance"));
    assert_eq!(world.tick().len(), 0);
}

#[test]
fn send_puts_a_reply_in_the_outbox() {
    let mut world = app();
    let conn = world.connect();
    send(&mut world, conn, ok("first"));
    send(&mut world, conn, err("second"));
    let out = world.take_outbox();
    assert_eq!(out.len(), 2);
    assert_eq!(out[0].conn, conn);
    assert_eq!(out[0].event.0, ok("first"));
    assert_eq!(out[0].event.text(), "first");
    assert_eq!(out[1].event.0, err("second"));
    assert_eq!(out[1].event.text(), "second");
}

#[test]
fn closed_connection_leaves_with_its_commands() {
    let mut world = app();
    let a = world.connect();
    let b = world.connect();
    line(&mut world, a, "register foo | bar");
    replies(&mut world);
    line(&mut world, a, "echo gone");
    line(&mut world, b, "echo stays");
    assert!(!receive_message(&mut world, a, Received::Closed));
    assert!(!world.is_connection(a));
    assert_eq!(replies(&mut world), vec![(b, ok("stays"))]);
    assert!(world.username_taken(&"foo".to_owned()));
    line(&mut world, b, "login foo | bar");
    assert_eq!(replies(&mut world), vec![(b, ok("Successfully logged in."))]);
    assert!(!world.disconnect(a));
}

#[test]
fn lines_of_a_dead_connection_are_dropped() {
    let mut world = app();
    let conn = world.connect();
    assert!(world.disconnect(conn));
    assert!(receive_message(&mut world, conn, Received::Text("echo hi".to_owned())));
    assert!(!world.spawn(PlayerCommand::new("echo", vec!["hi"], conn)));
    assert_eq!(replies(&mut world), vec![]);
}

#[test]
fn polling_goes_on_after_text_and_other_messages_only() {
    let mut world = app();
    let conn = world.connect();
    assert!(receive_message(&mut world, conn, Received::Other));
    assert!(!receive_message(&mut world, conn, Received::Empty));
    assert!(world.is_connection(conn));
    assert_eq!(replies(&mut world), vec![]);
}

#[test]
fn a_freed_slot_comes_back_under_a_new_generation() {
    let mut world = app();
    let first = world.connect();
    assert_eq!(first, Entity { index: 1, generation: 0 });
    assert!(world.disconnect(first));
    let second = world.connect();
    assert_eq!(second, Entity { index: 1, generation: 1 });
    assert!(!world.is_connection(first));
    assert!(world.is_connection(second));
    let third = world.connect();
    assert_eq!(third, Entity { index: 2, generation: 0 });
}

#[test]
fn parse_splits_verb_and_arguments() {
    let parsed = CommandInner::parse("register foo | bar");
    assert_eq!(parsed.command, "register");
    assert_eq!(parsed.args, vec!["foo", "bar"]);
    let parsed = CommandInner::parse("");
    assert_eq!(parsed.command, "");
    assert_eq!(parsed.args, vec![""]);
    let parsed = CommandInner::parse("look");
    assert_eq!(parsed.command, "look");
    assert_eq!(parsed.args, vec![""]);
    let parsed = CommandInner::parse("say   hello there |  you | ");
    assert_eq!(parsed.command, "say");
    assert_eq!(parsed.args, vec!["hello there", "you", ""]);
    let parsed = CommandInner::parse(" echo hi");
    assert_eq!(parsed.command, "");
    assert_eq!(parsed.args, vec!["echo hi"]);
    let parsed = CommandInner::parse("echo\thello\u{a0}| world\n");
    assert_eq!(parsed.command, "echo");
    assert_eq!(parsed.args, vec!["hello", "world"]);
    let parsed = CommandInner::parse("a|b c|d");
    assert_eq!(parsed.command, "a|b");
    assert_eq!(parsed.args, vec!["c", "d"]);
}

#[test]
fn commands_start_unhandled() {
    let conn = Entity { index: 7, generation: 3 };
    let command = PlayerCommand::new("echo", vec!["a", " b "], conn);
    assert_eq!(command.verb(), "echo");
    assert_eq!(command.args(), &vec!["a".to_owned(), " b ".to_owned()]);
    assert_eq!(command.state(), CommandState::NotHandled);
    assert_eq!(command.conn(), conn);
    assert_eq!(command.handler(), None);
    let command = PlayerCommand::from_str("echo a |  b ".to_owned(), conn);
    assert_eq!(command.verb(), "echo");
    assert_eq!(command.args(), &vec!["a".to_owned(), "b".to_owned()]);
    assert_eq!(command.state(), CommandState::NotHandled);
}

#[test]
fn verbs_for_new_sessions_are_refused_after_login() {
    let mut world = app();
    let conn = world.connect();
    line(&mut world, conn, "register foo | bar");
    replies(&mut world);
    for text in ["register baz | qux", "login foo | bar", "login", "register"] {
        line(&mut world, conn, text);
        assert_eq!(
            replies(&mut world),
            vec![(conn, err("You must not be logged in to do that."))]
        );
    }
    assert!(!world.username_taken(&"baz".to_owned()));
}

#[test]
fn every_command_gets_one_reply() {
    let mut world = app();
    let a = world.connect();
    let b = world.connect();
    let lines = [
        (a, "register foo | bar"),
        (b, "login foo | bar"),
        (a, "look"),
        (b, "dance"),
        (a, ""),
        (b, "echo"),
        (b, "logout"),
        (a, "register"),
    ];
    for (conn, text) in lines {
        line(&mut world, conn, text);
    }
    let out = replies(&mut world);
    assert_eq!(out.len(), lines.len());
    assert_eq!(out.iter().filter(|(conn, _)| *conn == a).count(), 4);
    assert_eq!(
        out,
        vec![
            (a, err("You must be logged in to do that.")),
            (b, err("You must be logged in to do that.")),
            (a, Ok(room_text())),
            (b, ok("Successfully logged in.")),
            (b, ok("")),
            (a, err("Usage: register <username> | <password>")),
            (b, err("Unknown command: dance")),
            (a, err("Unknown command: ")),
        ]
    );
}

#[test]
fn two_connections_may_act_for_one_account() {
    let mut world = app();
    let a = world.connect();
    let b = world.connect();
    line(&mut world, a, "register foo | bar");
    replies(&mut world);
    line(&mut world, b, "login foo | bar");
    assert_eq!(replies(&mut world), vec![(b, ok("Successfully logged in."))]);
    assert_eq!(world.session(a), world.session(b));
    line(&mut world, a, "logout");
    replies(&mut world);
    assert_eq!(world.session(a), None);
    assert!(world.session(b).is_some());
}
