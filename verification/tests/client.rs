use texla::client::{
    on_queued, on_read, Action, Client, Key, Output, Queued, ReadStep, SocketRead, WriteStep,
};

fn typed(client: &mut Client, text: &str) {
    for c in text.chars() {
        assert!(matches!(client.press(Key::Char(c)), Action::Wait));
    }
}

#[test]
fn pad_line_fills_up_to_the_width() {
    assert_eq!(Client::pad_line("ab".to_owned(), 4), "ab  ");
    assert_eq!(Client::pad_line("abcd".to_owned(), 4), "abcd");
    assert_eq!(Client::pad_line("abcdef".to_owned(), 3), "abcdef");
    assert_eq!(Client::pad_line("".to_owned(), 0), "");
    assert_eq!(Client::pad_line("".to_owned(), 2), "  ");
}

#[test]
fn pad_line_counts_clusters_not_characters() {
    assert_eq!(Client::pad_line("e\u{301}".to_owned(), 3), "e\u{301}  ");
    assert_eq!(Client::pad_line("a\r\nb".to_owned(), 4), "a\r\nb ");
}

#[test]
fn wrap_lines_breaks_at_whitespace() {
    assert_eq!(Client::wrap_lines("hello world".to_owned(), 5), vec!["hello", "world"]);
    assert_eq!(Client::wrap_lines("hello world".to_owned(), 8), vec!["hello   ", "world   "]);
    assert_eq!(
        Client::wrap_lines("hello world foo".to_owned(), 11),
        vec!["hello world", "foo        "]
    );
    assert_eq!(Client::wrap_lines("hello world".to_owned(), 20), vec!["hello world         "]);
}

#[test]
fn wrap_lines_cuts_words_that_are_too_long() {
    assert_eq!(Client::wrap_lines("abcdefgh".to_owned(), 3), vec!["abc", "def", "gh "]);
    assert_eq!(Client::wrap_lines("abcdefgh".to_owned(), 1).len(), 8);
}

#[test]
fn wrap_lines_keeps_line_breaks_and_drops_empty_lines() {
    assert_eq!(Client::wrap_lines("a\nb".to_owned(), 2), vec!["a ", "b "]);
    assert_eq!(Client::wrap_lines("a\n\nb".to_owned(), 1), vec!["a", "b"]);
    assert_eq!(Client::wrap_lines("".to_owned(), 3), Vec::<String>::new());
    assert_eq!(
        Client::wrap_lines("The Voidroom\nThe dark fog".to_owned(), 8),
        vec!["The     ", "Voidroom", "The dark", "fog     "]
    );
}

#[test]
fn wrap_lines_counts_clusters() {
    assert_eq!(
        Client::wrap_lines("e\u{301}e\u{301}e\u{301}e\u{301}".to_owned(), 2),
        vec!["e\u{301}e\u{301}", "e\u{301}e\u{301}"]
    );
}

#[test]
fn typing_edits_the_input() {
    let mut client = Client::new();
    typed(&mut client, "helo");
    assert_eq!(client.input(), "helo");
    assert_eq!(client.cursor(), 4);
    assert!(matches!(client.press(Key::Left), Action::Wait));
    assert_eq!(client.cursor(), 3);
    typed(&mut client, "l");
    assert_eq!(client.input(), "hello");
    assert_eq!(client.cursor(), 4);
    assert!(matches!(client.press(Key::Right), Action::Wait));
    assert!(matches!(client.press(Key::Right), Action::Wait));
    assert_eq!(client.cursor(), 5);
    assert!(matches!(client.press(Key::Backspace), Action::Wait));
    assert_eq!(client.input(), "hell");
    assert_eq!(client.cursor(), 4);
    for _ in 0..6 {
        client.press(Key::Left);
    }
    assert_eq!(client.cursor(), 0);
    client.press(Key::Backspace);
    assert_eq!(client.input(), "hel");
    assert_eq!(client.cursor(), 0);
    assert!(matches!(client.press(Key::Esc), Action::Quit));
    assert_eq!(client.input(), "hel");
}

#[test]
fn enter_sends_the_trimmed_line() {
    let mut client = Client::new();
    typed(&mut client, "  look  ");
    match client.press(Key::Enter) {
        Action::Send(line) => assert_eq!(line, "look"),
        _ => panic!("the line was not sent"),
    }
    assert_eq!(client.input(), "");
    assert_eq!(client.cursor(), 0);
    assert_eq!(client.input_history(), &vec!["look".to_owned()]);
    assert_eq!(client.input_history_index(), None);
    assert_eq!(client.output_history().len(), 1);
    assert!(client.output_history()[0].starts_with("> "));
    assert!(client.output_history()[0].contains("look"));
    typed(&mut client, "echo");
    assert!(matches!(client.press(Key::Char('\n')), Action::Send(_)));
    assert_eq!(client.input_history(), &vec!["look".to_owned(), "echo".to_owned()]);
}

#[test]
fn enter_with_a_given_echo() {
    let mut client = Client::new();
    let sent = client.enter("look".to_owned(), "[look]".to_owned());
    assert_eq!(sent, "look");
    assert_eq!(client.output_history(), &vec!["> [look]".to_owned()]);
    assert_eq!(client.input_history(), &vec!["look".to_owned()]);
}

#[test]
fn up_and_down_walk_through_the_sent_lines() {
    let mut client = Client::new();
    client.press(Key::Up);
    assert_eq!(client.input_history_index(), None);
    assert_eq!(client.input(), "");
    for text in ["one", "two", "three"] {
        typed(&mut client, text);
        client.press(Key::Enter);
    }
    typed(&mut client, "draft");
    client.press(Key::Up);
    assert_eq!(client.input(), "three");
    assert_eq!(client.cursor(), 5);
    assert_eq!(client.input_history_index(), Some(2));
    client.press(Key::Up);
    client.press(Key::Up);
    assert_eq!(client.input(), "one");
    client.press(Key::Up);
    assert_eq!(client.input(), "one");
    assert_eq!(client.input_history_index(), Some(0));
    client.press(Key::Down);
    assert_eq!(client.input(), "two");
    client.press(Key::Down);
    client.press(Key::Down);
    assert_eq!(client.input(), "");
    assert_eq!(client.cursor(), 0);
    assert_eq!(client.input_history_index(), None);
    client.press(Key::Down);
    assert_eq!(client.input(), "");
}

#[test]
fn received_text_is_shown_line_by_line() {
    let mut client = Client::new();
    client.receive(Output::Text("The Voidroom\nDark.".to_owned()));
    assert_eq!(client.output_history(), &vec!["The Voidroom".to_owned(), "Dark.".to_owned()]);
    client.receive(Output::Warning("careful\nnow".to_owned()));
    assert_eq!(client.output_history().len(), 4);
    assert!(client.output_history()[2].contains("careful"));
    assert!(client.output_history()[3].contains("now"));
    client.show(vec!["more".to_owned()]);
    assert_eq!(client.output_history()[4], "more");
}

#[test]
fn the_lowest_lines_are_visible_bottom_up() {
    let mut client = Client::new();
    assert_eq!(client.visible_lines(5, 3), Vec::<String>::new());
    client.show(vec!["one".to_owned(), "two three".to_owned(), "".to_owned(), "four".to_owned()]);
    assert_eq!(client.visible_lines(5, 10), vec!["four ", "three", "two  ", "one  "]);
    assert_eq!(client.visible_lines(5, 3), vec!["four ", "three", "two  "]);
    assert_eq!(client.visible_lines(5, 2), vec!["four "]);
    assert_eq!(client.visible_lines(5, 0), Vec::<String>::new());
}

#[test]
fn reads_become_output() {
    match on_read(SocketRead::Text("hi".to_owned())) {
        ReadStep::Emit(Output::Text(text)) => assert_eq!(text, "hi"),
        _ => panic!("text was not passed on"),
    }
    match on_read(SocketRead::Other("Ping".to_owned())) {
        ReadStep::Emit(Output::Warning(text)) => {
            assert_eq!(text, "Received unsupported message type: Ping")
        }
        _ => panic!("no warning"),
    }
    assert!(matches!(on_read(SocketRead::Closed), ReadStep::Stop));
    assert!(matches!(on_read(SocketRead::WouldBlock), ReadStep::Idle));
    match on_read(SocketRead::Failed("broken pipe".to_owned())) {
        ReadStep::EmitAndClose(Output::Warning(text)) => assert_eq!(text, "Error: broken pipe"),
        _ => panic!("no warning"),
    }
}

#[test]
fn queued_lines_are_sent() {
    match on_queued(Queued::Text("look".to_owned())) {
        WriteStep::Send(text) => assert_eq!(text, "look"),
        _ => panic!("text was not sent"),
    }
    assert!(matches!(on_queued(Queued::Close), WriteStep::Close));
    assert!(matches!(on_queued(Queued::Disconnected), WriteStep::Close));
    assert!(matches!(on_queued(Queued::Empty), WriteStep::Idle));
    match on_queued(Queued::Other("Pong".to_owned())) {
        WriteStep::Warn(Output::Warning(text)) => {
            assert_eq!(text, "Sent unsupported message type: Pong")
        }
        _ => panic!("no warning"),
    }
}
