use chatroom::{format_room_list, order_rooms, Rooms};
use tokio::sync::broadcast::error::TryRecvError;

fn entry(name: &str, count: usize) -> (String, usize) {
    (name.to_string(), count)
}

#[test]
fn listing_orders_by_count_then_name() {
    let list = vec![entry("main", 1), entry("zoo", 3), entry("lobby", 3), entry("alpha", 1), entry("empty", 0)];
    let sorted = order_rooms(list);
    assert_eq!(
        sorted,
        vec![entry("lobby", 3), entry("zoo", 3), entry("alpha", 1), entry("main", 1), entry("empty", 0)]
    );
}

#[test]
fn listing_of_nothing_is_empty() {
    assert_eq!(order_rooms(Vec::new()), Vec::<(String, usize)>::new());
    assert_eq!(format_room_list(&Vec::new()), "Rooms -> ");
}

#[test]
fn listing_compares_names_by_character() {
    let sorted = order_rooms(vec![entry("b", 2), entry("B", 2), entry("ab", 2), entry("a", 2)]);
    assert_eq!(sorted, vec![entry("B", 2), entry("a", 2), entry("ab", 2), entry("b", 2)]);
}

#[test]
fn room_list_text() {
    let text = format_room_list(&vec![entry("lobby", 12), entry("main", 1)]);
    assert_eq!(text, "Rooms -> lobby (12), main (1)");
}

#[test]
fn joins_of_one_room_count_every_subscriber() {
    let mut rooms = Rooms::new();
    let mut receivers = Vec::new();
    for _ in 0..5 {
        let tx = rooms.join_room("main");
        receivers.push(tx.subscribe());
    }
    let other = rooms.join_room("lobby");
    let _lobby_rx = other.subscribe();
    assert_eq!(rooms.list_rooms(), vec![entry("main", 5), entry("lobby", 1)]);
    drop(receivers);
    assert_eq!(rooms.list_rooms(), vec![entry("lobby", 1), entry("main", 0)]);
}

#[test]
fn rooms_are_kept_when_empty() {
    let mut rooms = Rooms::new();
    let tx = rooms.join_room("quiet");
    drop(tx);
    assert!(rooms.lookup("quiet").is_some());
    assert!(rooms.lookup("loud").is_none());
    assert_eq!(rooms.list_rooms(), vec![entry("quiet", 0)]);
}

#[test]
fn broadcast_reaches_only_its_room() {
    let mut rooms = Rooms::new();
    let main_a = rooms.join_room("main");
    let mut rx_a = main_a.subscribe();
    let mut rx_b = rooms.join_room("main").subscribe();
    let mut rx_c = rooms.join_room("lobby").subscribe();
    main_a.send("A1: hello".to_string()).unwrap();
    assert_eq!(rx_a.try_recv().unwrap(), "A1: hello");
    assert_eq!(rx_b.try_recv().unwrap(), "A1: hello");
    assert_eq!(rx_c.try_recv(), Err(TryRecvError::Empty));
}

#[test]
fn lookup_finds_the_joined_channel() {
    let mut rooms = Rooms::new();
    let tx = rooms.join_room("main");
    let found = rooms.lookup("main").unwrap();
    assert!(tx.same_channel(&found));
    let again = rooms.join_room("main");
    assert!(tx.same_channel(&again));
    let lobby = rooms.join_room("lobby");
    assert!(!tx.same_channel(&lobby));
}
