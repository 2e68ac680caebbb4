use speed_daemon::chat::{
    accepts, chat_message, is_valid_name, joined_message, left_message, room_contains_message,
    welcome_message, BroadcastMessage, Db,
};

#[test]
fn broadcast_message_keeps_its_parts() {
    let m = BroadcastMessage::new("alice".to_string(), "[alice] hi".to_string());
    assert_eq!(m.from, "alice");
    assert_eq!(m.message, "[alice] hi");
    assert!(m.is_for(&"bob".to_string()));
    assert!(!m.is_for(&"alice".to_string()));
    let d = BroadcastMessage::default();
    assert_eq!(d.from, "");
    assert_eq!(d.message, "");
}

#[test]
fn names_are_alphabetic_and_not_empty() {
    assert!(is_valid_name("alice"));
    assert!(is_valid_name("Zoë"));
    assert!(is_valid_name("x"));
    assert!(!is_valid_name(""));
    assert!(!is_valid_name("alice1"));
    assert!(!is_valid_name("al ice"));
    assert!(!is_valid_name("1"));
    assert!(!is_valid_name("bob!"));
}

#[test]
fn room_lists_everyone_else() {
    let mut db = Db::new();
    assert!(db.insert_user("alice".to_string()));
    assert!(db.insert_user("bob".to_string()));
    assert!(!db.insert_user("b0b".to_string()));
    assert!(!db.insert_user(String::new()));
    assert!(db.insert_user("carol".to_string()));
    assert_eq!(db.get_room_members(&"bob".to_string()), vec!["alice", "carol"]);
    assert_eq!(db.get_room_members(&"dave".to_string()), vec!["alice", "bob", "carol"]);
    db.remove(&"alice".to_string());
    assert_eq!(db.get_room_members(&"carol".to_string()), vec!["bob"]);
    db.remove(&"nobody".to_string());
    assert_eq!(db.get_room_members(&String::new()), vec!["bob", "carol"]);
}

#[test]
fn lines_of_the_room() {
    assert_eq!(welcome_message(), "Welcome to budgetchat! What shall I call you?");
    assert_eq!(joined_message(&"alice".to_string()), "* alice has entered the room");
    assert_eq!(left_message(&"alice".to_string()), "* alice has left the room");
    assert_eq!(chat_message(&"bob".to_string(), &"hi all".to_string()), "[bob] hi all");
    assert_eq!(room_contains_message(&vec![]), "* The room contains ");
    assert_eq!(room_contains_message(&vec!["bob".to_string()]), "* The room contains bob");
    assert_eq!(
        room_contains_message(&vec!["bob".to_string(), "carol".to_string(), "dave".to_string()]),
        "* The room contains bob,carol,dave"
    );
}

#[test]
fn name_is_accepted_if_every_character_is() {
    assert!(accepts(&vec![true]));
    assert!(accepts(&vec![true, true, true]));
    assert!(!accepts(&vec![]));
    assert!(!accepts(&vec![false]));
    assert!(!accepts(&vec![true, false, true]));
    assert!(!accepts(&vec![true, true, false]));
}
