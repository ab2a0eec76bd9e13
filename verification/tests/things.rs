use texla::command::Handler;
use texla::entity::Entity;
use texla::interact::{look, InteractPlugin};
use texla::minimal_app;
use texla::object::Object;
use texla::registry::{check_policy, lookup, CommandHandler, LoginPolicy};
use texla::text::{join, split, trim, trim_end, trim_start};
use texla::utils::UtilsPlugin;
use texla::world::World;

#[test]
fn look_joins_name_and_description() {
    let mut room = Object::named("Hall");
    assert_eq!(look(Entity { index: 3, generation: 0 }, &room), "Hall");
    room.insert("description".to_owned(), "A long hall.".to_owned());
    assert_eq!(look(Entity { index: 3, generation: 0 }, &room), "Hall\nA long hall.");
    room.insert("smell".to_owned(), "Dust.".to_owned());
    assert_eq!(look(Entity { index: 3, generation: 0 }, &room), "Hall\nA long hall.");
}

#[test]
fn look_shows_the_handle_of_a_nameless_thing() {
    let mut thing = Object::new();
    assert_eq!(look(Entity { index: 12, generation: 0 }, &thing), "12v0");
    thing.insert("description".to_owned(), "Nondescript.".to_owned());
    assert_eq!(look(Entity { index: 0, generation: 305 }, &thing), "0v305\nNondescript.");
    assert_eq!(Entity { index: 4096, generation: 4294967295 }.label(), "4096v4294967295");
}

#[test]
fn insert_replaces_what_was_stored() {
    let mut thing = Object::new();
    assert_eq!(thing.name(), None);
    assert_eq!(thing.get("colour"), None);
    thing.insert("colour".to_owned(), "red".to_owned());
    thing.insert("size".to_owned(), "small".to_owned());
    assert_eq!(thing.get("colour"), Some(&"red".to_owned()));
    thing.insert("colour".to_owned(), "blue".to_owned());
    assert_eq!(thing.get("colour"), Some(&"blue".to_owned()));
    assert_eq!(thing.get("size"), Some(&"small".to_owned()));
    assert_eq!(thing.get("Colour"), None);
    assert_eq!(Object::named("x").name(), Some(&"x".to_owned()));
}

#[test]
fn world_describes_things_by_handle() {
    let mut room = Object::named("Cell");
    room.insert("description".to_owned(), "Bare.".to_owned());
    let mut world = World::new(room);
    let room = world.spawn_room().0;
    assert_eq!(room, Entity { index: 0, generation: 0 });
    assert_eq!(world.describe(room), "Cell\nBare.");
    let conn = world.connect();
    assert_eq!(world.describe(conn), "1v0");
    assert_eq!(world.describe(Entity { index: 9, generation: 2 }), "9v2");
    assert_eq!(world.surroundings(conn), None);
    assert_eq!(world.session(room), None);
}

#[test]
fn first_registration_of_a_verb_wins() {
    let handlers = vec![
        CommandHandler::new("go", Handler::Look, LoginPolicy::RequiresLogin),
        CommandHandler::new("say", Handler::Echo, LoginPolicy::NoRequirement),
        CommandHandler::new("go", Handler::Echo, LoginPolicy::NoRequirement),
    ];
    let found = lookup(&handlers, &"go".to_owned()).unwrap();
    assert_eq!(found.handler(), Handler::Look);
    assert_eq!(found.policy(), LoginPolicy::RequiresLogin);
    assert!(found.answers(&"go".to_owned()));
    assert!(!found.answers(&"Go".to_owned()));
    assert_eq!(lookup(&handlers, &"say".to_owned()).unwrap().handler(), Handler::Echo);
    assert!(lookup(&handlers, &"sing".to_owned()).is_none());
}

#[test]
fn policies_turn_the_wrong_sessions_away() {
    assert_eq!(
        check_policy(LoginPolicy::RequiresLogin, false),
        Some("You must be logged in to do that.".to_owned())
    );
    assert_eq!(check_policy(LoginPolicy::RequiresLogin, true), None);
    assert_eq!(
        check_policy(LoginPolicy::RequiresNoLogin, true),
        Some("You must not be logged in to do that.".to_owned())
    );
    assert_eq!(check_policy(LoginPolicy::RequiresNoLogin, false), None);
    assert_eq!(check_policy(LoginPolicy::NoRequirement, true), None);
    assert_eq!(check_policy(LoginPolicy::NoRequirement, false), None);
}

#[test]
fn plugins_register_their_verbs() {
    let mut world = minimal_app();
    assert_eq!(world.handlers().len(), 0);
    UtilsPlugin.build(&mut world);
    InteractPlugin.build(&mut world);
    assert_eq!(world.handlers().len(), 2);
    assert!(world.handlers()[0].answers(&"echo".to_owned()));
    assert_eq!(world.handlers()[0].policy(), LoginPolicy::NoRequirement);
    assert!(world.handlers()[1].answers(&"look".to_owned()));
    assert_eq!(world.handlers()[1].policy(), LoginPolicy::RequiresLogin);
    world.add_handler(CommandHandler::new("repeat", Handler::Echo, LoginPolicy::RequiresLogin));
    assert_eq!(world.handlers().len(), 3);
}

#[test]
fn trimming_cuts_whitespace_at_the_ends_only() {
    assert_eq!(trim("  a b \t\n"), "a b");
    assert_eq!(trim(""), "");
    assert_eq!(trim(" \u{a0}\u{3000} "), "");
    assert_eq!(trim("a"), "a");
    assert_eq!(trim_start("  a b  "), "a b  ");
    assert_eq!(trim_end("  a b  "), "  a b");
    assert_eq!(trim("\u{200b}a"), "\u{200b}a");
}

#[test]
fn split_and_join_are_inverse() {
    assert_eq!(split("a|b||c|", '|'), vec!["a", "b", "", "c", ""]);
    assert_eq!(split("", '|'), vec![""]);
    assert_eq!(split("abc", '|'), vec!["abc"]);
    let parts = split("one\ntwo\n\nthree", '\n');
    assert_eq!(parts, vec!["one", "two", "", "three"]);
    assert_eq!(join(&parts, "\n"), "one\ntwo\n\nthree");
    assert_eq!(join(&parts, ", "), "one, two, , three");
    assert_eq!(join(&vec![], "x"), "");
    assert_eq!(join(&vec!["solo".to_owned()], "x"), "solo");
}
