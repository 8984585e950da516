use chatroom::{on_bus_event, parse_command, Action, BusEvent, Command, CommandError, GetName, Names, Rooms, Session};
use tokio::sync::broadcast::error::TryRecvError;
use tokio::sync::broadcast::{Receiver, Sender};

fn session(name: &str, room: &str) -> Session {
    Session { name: name.to_string(), room: room.to_string(), taken: vec![name.to_string()] }
}

fn broadcast(t: &str) -> Action {
    Action::Broadcast(t.to_string())
}

fn reply(t: &str) -> Action {
    Action::Reply(t.to_string())
}

struct Conn {
    session: Session,
    tx: Option<Sender<String>>,
    rx: Option<Receiver<String>>,
    replies: Vec<String>,
    quit: bool,
}

fn perform(conn: &mut Conn, actions: Vec<Action>, rooms: &mut Rooms) {
    for action in actions {
        match action {
            Action::Reply(t) => conn.replies.push(t),
            Action::Broadcast(t) => {
                let _ = conn.tx.as_ref().unwrap().send(t);
            }
            Action::Switch(room) => {
                let tx = rooms.join_room(&room);
                conn.rx = Some(tx.subscribe());
                conn.tx = Some(tx);
            }
            Action::ListRooms => conn.replies.push(chatroom::format_room_list(&rooms.list_rooms())),
            Action::Quit => conn.quit = true,
        }
    }
}

fn connect(names: &mut Names, counter: &mut GetName, rooms: &mut Rooms) -> Conn {
    let (s, actions) = Session::start(names, counter);
    let mut conn = Conn { session: s, tx: None, rx: None, replies: Vec::new(), quit: false };
    perform(&mut conn, actions, rooms);
    conn
}

fn line(conn: &mut Conn, text: &str, names: &mut Names, rooms: &mut Rooms) {
    let actions = conn.session.handle_line(text, names);
    perform(conn, actions, rooms);
}

fn received(conn: &mut Conn) -> Vec<String> {
    let mut out = Vec::new();
    loop {
        match conn.rx.as_mut().unwrap().try_recv() {
            Ok(m) => out.push(m),
            Err(TryRecvError::Empty) => return out,
            Err(e) => panic!("{:?}", e),
        }
    }
}

#[test]
fn parses_each_command() {
    assert_eq!(parse_command("/help"), Ok(Command::Help));
    assert_eq!(parse_command("/rooms"), Ok(Command::Rooms));
    assert_eq!(parse_command("/join lobby"), Ok(Command::Join("lobby".to_string())));
    assert_eq!(parse_command("/join   lobby  extra"), Ok(Command::Join("lobby".to_string())));
    assert_eq!(parse_command("/name\tzed"), Ok(Command::Name("zed".to_string())));
    assert_eq!(parse_command("/quit"), Ok(Command::Quit));
    assert_eq!(parse_command("hello there"), Ok(Command::Chat("hello there".to_string())));
    assert_eq!(parse_command("/unknown"), Ok(Command::Chat("/unknown".to_string())));
}

#[test]
fn missing_arguments_are_errors() {
    assert_eq!(parse_command("/join"), Err(CommandError::MissingRoom));
    assert_eq!(parse_command("/join   "), Err(CommandError::MissingRoom));
    assert_eq!(parse_command("/name"), Err(CommandError::MissingName));
}

#[test]
fn malformed_commands_get_a_private_reply() {
    let mut names = Names::new();
    let mut s = session("A1", "main");
    assert_eq!(s.handle_line("/join", &mut names), vec![reply("Usage: /join <room>")]);
    assert_eq!(s.handle_line("/name ", &mut names), vec![reply("Usage: /name <name>")]);
    assert_eq!(s.name, "A1");
    assert_eq!(s.room, "main");
}

#[test]
fn chat_line_is_broadcast_under_the_name() {
    let mut names = Names::new();
    let mut s = session("A1", "main");
    assert_eq!(s.handle_line("hello", &mut names), vec![broadcast("A1: hello")]);
    assert_eq!(s.handle_line("", &mut names), vec![broadcast("A1: ")]);
}

#[test]
fn help_and_rooms_and_quit() {
    let mut names = Names::new();
    let mut s = session("A1", "main");
    assert_eq!(s.handle_line("/help", &mut names), vec![reply(chatroom::session::HELP_TEXT)]);
    assert_eq!(s.handle_line("/rooms", &mut names), vec![Action::ListRooms]);
    assert_eq!(s.handle_line("/quit", &mut names), vec![Action::Quit]);
}

#[test]
fn join_switches_rooms_with_notices() {
    let mut names = Names::new();
    let mut s = session("A1", "main");
    assert_eq!(
        s.handle_line("/join lobby", &mut names),
        vec![broadcast("A1 left main"), Action::Switch("lobby".to_string()), broadcast("A1 joined lobby")]
    );
    assert_eq!(s.room, "lobby");
    assert_eq!(s.handle_line("/join lobby", &mut names), vec![reply("You are already inside the room lobby")]);
}

#[test]
fn rename_succeeds_only_for_a_free_name() {
    let mut names = Names::new();
    assert!(names.insert("A1".to_string()));
    assert!(names.insert("B2".to_string()));
    let mut s = session("A1", "main");
    assert_eq!(s.handle_line("/name B2", &mut names), vec![reply("B2 is already taken")]);
    assert_eq!(s.name, "A1");
    assert_eq!(s.handle_line("/name zed", &mut names), vec![broadcast("A1 is now zed")]);
    assert_eq!(s.name, "zed");
    assert!(names.contains("zed"));
    assert!(names.contains("A1"));
    assert_eq!(s.handle_line("hi", &mut names), vec![broadcast("zed: hi")]);
}

#[test]
fn finish_frees_the_name_and_tells_the_room() {
    let mut names = Names::new();
    assert!(names.insert("A1".to_string()));
    let s = session("A1", "lobby");
    assert_eq!(s.finish(&mut names), vec![broadcast("A1 left lobby")]);
    assert!(!names.contains("A1"));
}

#[test]
fn start_assigns_a_name_and_enters_main() {
    let mut names = Names::new();
    let mut counter = GetName::new();
    let (s, actions) = Session::start(&mut names, &mut counter);
    assert_eq!(s.name, "A1");
    assert_eq!(s.room, "main");
    assert_eq!(
        actions,
        vec![reply("You are A1"), Action::Switch("main".to_string()), broadcast("A1 joined main")]
    );
}

#[test]
fn rename_rejection_reaches_only_the_sender() {
    let mut names = Names::new();
    let mut counter = GetName::new();
    let mut rooms = Rooms::new();
    let mut a = connect(&mut names, &mut counter, &mut rooms);
    let mut b = connect(&mut names, &mut counter, &mut rooms);
    received(&mut a);
    received(&mut b);
    line(&mut a, "/name A2", &mut names, &mut rooms);
    assert_eq!(a.replies.last().unwrap(), "A2 is already taken");
    assert!(received(&mut a).is_empty());
    assert!(received(&mut b).is_empty());
    assert!(b.replies.iter().all(|r| !r.contains("taken")));
}

#[test]
fn two_clients_and_a_late_joiner() {
    let mut names = Names::new();
    let mut counter = GetName::new();
    let mut rooms = Rooms::new();
    let mut a = connect(&mut names, &mut counter, &mut rooms);
    assert_eq!(a.replies, vec!["You are A1".to_string()]);
    let mut b = connect(&mut names, &mut counter, &mut rooms);
    assert_eq!(b.replies, vec!["You are A2".to_string()]);
    received(&mut a);
    received(&mut b);

    line(&mut a, "hello", &mut names, &mut rooms);
    assert_eq!(received(&mut b), vec!["A1: hello".to_string()]);

    line(&mut a, "/join lobby", &mut names, &mut rooms);
    assert_eq!(received(&mut b), vec!["A1 left main".to_string()]);
    line(&mut a, "anyone?", &mut names, &mut rooms);
    assert!(received(&mut b).is_empty());

    let mut c = connect(&mut names, &mut counter, &mut rooms);
    line(&mut c, "/join lobby", &mut names, &mut rooms);
    assert_eq!(received(&mut c), vec!["A3 joined lobby".to_string()]);
    assert_eq!(received(&mut b), vec!["A3 joined main".to_string(), "A3 left main".to_string()]);
    assert_eq!(received(&mut a), vec!["A1 joined lobby".to_string(), "A1: anyone?".to_string(), "A3 joined lobby".to_string()]);

    line(&mut a, "/quit", &mut names, &mut rooms);
    assert!(a.quit);
    let bye = a.session.finish(&mut names);
    perform(&mut a, bye, &mut rooms);
    assert_eq!(received(&mut c), vec!["A1 left lobby".to_string()]);
    assert!(received(&mut b).is_empty());
    assert!(names.insert("A1".to_string()));
}

#[test]
fn finish_frees_names_taken_before_a_rename() {
    let mut names = Names::new();
    let mut counter = GetName::new();
    let (mut s, _) = Session::start(&mut names, &mut counter);
    assert_eq!(s.name, "A1");
    assert!(names.insert("other".to_string()));
    assert_eq!(s.handle_line("/name zed", &mut names), vec![broadcast("A1 is now zed")]);
    assert_eq!(s.handle_line("/name other", &mut names), vec![reply("other is already taken")]);
    assert!(names.contains("A1"));
    assert_eq!(s.taken, vec!["A1".to_string(), "zed".to_string()]);
    assert_eq!(s.finish(&mut names), vec![broadcast("zed left main")]);
    assert!(!names.contains("A1"));
    assert!(!names.contains("zed"));
    assert!(names.contains("other"));
    assert_eq!(names.len(), 1);
}

#[test]
fn bus_events_forward_skip_or_stop() {
    assert_eq!(on_bus_event(BusEvent::Message("A1: hi".to_string())), vec![reply("A1: hi")]);
    assert_eq!(on_bus_event(BusEvent::Lagged(7)), Vec::<Action>::new());
    assert_eq!(on_bus_event(BusEvent::Closed), vec![Action::Quit]);
}

#[test]
fn start_skips_held_default_names() {
    let mut names = Names::new();
    assert!(names.insert("A1".to_string()));
    let mut counter = GetName::new();
    let (s, actions) = Session::start(&mut names, &mut counter);
    assert_eq!(s.name, "A2");
    assert_eq!(actions[0], reply("You are A2"));
    assert_eq!(counter.digit, 2);
}
