use chatroom::{App, ClientStep, Input, Key, KeyPress};

#[test]
fn modifiers_fold_into_character_keys() {
    assert_eq!(Input::from_press(KeyPress::Char('c'), true, true).key, Key::Ctrl('c'));
    assert_eq!(Input::from_press(KeyPress::Char('x'), false, true).key, Key::Alt('x'));
    assert_eq!(Input::from_press(KeyPress::Char('x'), false, false).key, Key::Char('x'));
    let enter = Input::from_press(KeyPress::Enter, true, false);
    assert_eq!(enter, Input { key: Key::Enter, ctrl: true, alt: false });
    assert_eq!(Input::from_press(KeyPress::Other, false, false).key, Key::Null);
}

#[test]
fn typing_and_sending_a_line() {
    let mut app = App::new();
    assert!(app.messages.is_empty());
    assert_eq!(app.handle_key(Key::Enter), ClientStep::Continue);
    assert_eq!(app.handle_key(Key::Char('h')), ClientStep::Continue);
    assert_eq!(app.handle_key(Key::Char('i')), ClientStep::Continue);
    assert_eq!(app.handle_key(Key::Char('!')), ClientStep::Continue);
    assert_eq!(app.handle_key(Key::Backspace), ClientStep::Continue);
    assert_eq!(app.input, "hi");
    assert_eq!(app.handle_key(Key::Left), ClientStep::Continue);
    assert_eq!(app.handle_key(Key::Enter), ClientStep::Send("hi".to_string()));
    assert_eq!(app.input, "");
    assert_eq!(app.handle_key(Key::Backspace), ClientStep::Continue);
    assert_eq!(app.input, "");
    assert_eq!(app.handle_key(Key::Esc), ClientStep::Quit);
}

#[test]
fn received_messages_are_kept_in_order() {
    let mut app = App::new();
    app.push_message("one".to_string());
    app.push_message("two".to_string());
    assert_eq!(app.messages, vec!["one".to_string(), "two".to_string()]);
}

#[test]
fn backspace_removes_a_whole_character() {
    let mut app = App::new();
    app.handle_key(Key::Char('a'));
    app.handle_key(Key::Char('é'));
    app.handle_key(Key::Char('中'));
    app.handle_key(Key::Backspace);
    assert_eq!(app.input, "aé");
    app.handle_key(Key::Backspace);
    assert_eq!(app.input, "a");
}
