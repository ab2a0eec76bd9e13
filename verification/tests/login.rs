use std::collections::VecDeque;

use texla::command::PlayerCommand;
use texla::entity::Entity;
use texla::login::LoginPlugin;
use texla::minimal_app;
use texla::world::World;

/// A world without verbs, a connection whose replies are collected, and
/// `extra` more connections.
fn test_app(extra: usize) -> (World, Entity, VecDeque<Result<String, String>>, Vec<Entity>) {
    let mut app = minimal_app();
    let conn = app.connect();
    let conns = (0..extra).map(|_| app.connect()).collect();
    (app, conn, VecDeque::new(), conns)
}

/// Runs one tick and files the replies that `conn` gets.
fn update(app: &mut World, conn: Entity, rx: &mut VecDeque<Result<String, String>>) {
    for reply in app.tick() {
        if reply.conn == conn {
            rx.push_back(reply.event.0);
        }
    }
}

#[test]
fn register_works() {
    let (mut app, conn, mut rx, _conns) = test_app(0);
    LoginPlugin.build(&mut app);

    app.spawn(PlayerCommand::new("register", vec!["test", "password"], conn));
    update(&mut app, conn, &mut rx);

    assert!(rx.pop_front().is_some_and(|msg| msg.is_ok()));
}

#[test]
fn registering_with_existing_username_fails() {
    let (mut app, conn, mut rx, conns) = test_app(1);
    LoginPlugin.build(&mut app);

    app.spawn(PlayerCommand::new("register", vec!["test", "password"], conns[0]));
    update(&mut app, conn, &mut rx);
    app.spawn(PlayerCommand::new("register", vec!["test", "password"], conn));
    update(&mut app, conn, &mut rx);

    assert!(rx.pop_front().is_some_and(|msg| msg.is_err()));
}

#[test]
fn registering_with_no_username_or_password_fails() {
    let (mut app, conn, mut rx, _conns) = test_app(0);
    LoginPlugin.build(&mut app);

    app.spawn(PlayerCommand::new("register", vec![], conn));
    update(&mut app, conn, &mut rx);

    assert!(rx.pop_front().is_some_and(|msg| msg.is_err()));
}

#[test]
fn registering_when_logged_in_fails() {
    let (mut app, conn, mut rx, _conns) = test_app(0);
    LoginPlugin.build(&mut app);

    app.spawn(PlayerCommand::new("register", vec!["test", "password"], conn));
    update(&mut app, conn, &mut rx);
    rx.pop_front().unwrap();

    app.spawn(PlayerCommand::new("register", vec!["test", "password"], conn));
    update(&mut app, conn, &mut rx);

    assert!(rx.pop_front().is_some_and(|msg| msg.is_err()));
}

#[test]
fn logout_works() {
    let (mut app, conn, mut rx, _conns) = test_app(0);
    LoginPlugin.build(&mut app);

    app.spawn(PlayerCommand::new("register", vec!["test", "password"], conn));
    update(&mut app, conn, &mut rx);
    rx.pop_front().unwrap();

    app.spawn(PlayerCommand::new("logout", vec![], conn));
    update(&mut app, conn, &mut rx);

    assert!(rx.pop_front().is_some_and(|msg| msg.is_ok()));
}

#[test]
fn logging_out_when_not_logged_in_fails() {
    let (mut app, conn, mut rx, _conns) = test_app(0);
    LoginPlugin.build(&mut app);

    app.spawn(PlayerCommand::new("logout", vec![], conn));
    update(&mut app, conn, &mut rx);

    assert!(rx.pop_front().is_some_and(|msg| msg.is_err()));
}

#[test]
fn login_works() {
    let (mut app, conn, mut rx, _conns) = test_app(0);
    LoginPlugin.build(&mut app);

    app.spawn(PlayerCommand::new("register", vec!["test", "password"], conn));
    update(&mut app, conn, &mut rx);
    rx.pop_front().unwrap();

    app.spawn(PlayerCommand::new("logout", vec![], conn));
    update(&mut app, conn, &mut rx);
    rx.pop_front().unwrap();

    app.spawn(PlayerCommand::new("login", vec!["test", "password"], conn));
    update(&mut app, conn, &mut rx);

    assert!(rx.pop_front().is_some_and(|msg| msg.is_ok()));
}

#[test]
fn logging_in_with_no_username_or_password_fails() {
    let (mut app, conn, mut rx, _conns) = test_app(0);
    LoginPlugin.build(&mut app);

    app.spawn(PlayerCommand::new("register", vec!["test", "password"], conn));
    update(&mut app, conn, &mut rx);
    rx.pop_front().unwrap();

    app.spawn(PlayerCommand::new("logout", vec![], conn));
    update(&mut app, conn, &mut rx);
    rx.pop_front().unwrap();

    app.spawn(PlayerCommand::new("login", vec![], conn));
    update(&mut app, conn, &mut rx);

    assert!(rx.pop_front().is_some_and(|msg| msg.is_err()));
}

#[test]
fn logging_in_with_invalid_username_or_password_fails() {
    let (mut app, conn, mut rx, _conns) = test_app(0);
    LoginPlugin.build(&mut app);

    app.spawn(PlayerCommand::new("register", vec!["test", "password"], conn));
    update(&mut app, conn, &mut rx);
    rx.pop_front().unwrap();

    app.spawn(PlayerCommand::new("logout", vec![], conn));
    update(&mut app, conn, &mut rx);
    rx.pop_front().unwrap();

    app.spawn(PlayerCommand::new("login", vec!["test", "passwor"], conn));
    update(&mut app, conn, &mut rx);

    assert!(rx.pop_front().is_some_and(|msg| msg.is_err()));
}

#[test]
fn logging_in_when_already_logged_in_fails() {
    let (mut app, conn, mut rx, _conns) = test_app(0);
    LoginPlugin.build(&mut app);

    app.spawn(PlayerCommand::new("register", vec!["test", "password"], conn));
    update(&mut app, conn, &mut rx);
    rx.pop_front().unwrap();

    app.spawn(PlayerCommand::new("login", vec!["test", "password"], conn));
    update(&mut app, conn, &mut rx);

    assert!(rx.pop_front().is_some_and(|msg| msg.is_err()));
}
