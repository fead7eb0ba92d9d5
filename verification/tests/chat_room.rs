use protohackers::chat::{is_valid_nick, ChatRoom};

#[test]
fn nick_validation() {
    assert!(is_valid_nick("alice123"));
    assert!(is_valid_nick("A"));
    assert!(!is_valid_nick(""));
    assert!(!is_valid_nick("bad nick"));
    assert!(!is_valid_nick("tab\there"));
    assert!(!is_valid_nick("h\u{e9}llo"));
}

#[test]
fn join_prompts_for_nick() {
    let mut room = ChatRoom::new();
    let out = room.join(1);
    assert_eq!(out.len(), 1);
    assert_eq!(out[0].id, 1);
    assert_eq!(out[0].bytes, b"enter nick\n".to_vec());
}

#[test]
fn registration_and_announcements() {
    let mut room = ChatRoom::new();
    room.join(1);
    let (out, drop1) = room.line(1, b"alice");
    assert!(!drop1);
    assert_eq!(out.len(), 1);
    assert_eq!(out[0].id, 1);
    assert_eq!(out[0].bytes, b"* in room: \n".to_vec());

    room.join(2);
    let (out, drop2) = room.line(2, b"bob");
    assert!(!drop2);
    assert_eq!(out.len(), 2);
    assert_eq!(out[0].id, 2);
    assert_eq!(out[0].bytes, b"* in room: alice\n".to_vec());
    assert_eq!(out[1].id, 1);
    assert_eq!(out[1].bytes, b"* bob entered\n".to_vec());
}

#[test]
fn chat_lines_reach_only_others() {
    let mut room = ChatRoom::new();
    room.join(1);
    room.line(1, b"alice");
    room.join(2);
    room.line(2, b"bob");
    let (out, dropped) = room.line(1, b"hello there");
    assert!(!dropped);
    assert_eq!(out.len(), 1);
    assert_eq!(out[0].id, 2);
    assert_eq!(out[0].bytes, b"[alice] hello there\n".to_vec());
}

#[test]
fn room_listing_joins_with_commas() {
    let mut room = ChatRoom::new();
    room.join(1);
    room.line(1, b"alice");
    room.join(2);
    room.line(2, b"bob");
    room.join(3);
    let (out, _) = room.line(3, b"carol");
    assert_eq!(out[0].id, 3);
    assert_eq!(out[0].bytes, b"* in room: alice, bob\n".to_vec());
}

#[test]
fn invalid_nick_disconnects_silently() {
    let mut room = ChatRoom::new();
    room.join(1);
    room.line(1, b"alice");
    room.join(2);
    let (out, dropped) = room.line(2, b"bad nick");
    assert!(dropped);
    assert_eq!(out.len(), 1);
    assert_eq!(out[0].id, 2);
    assert_eq!(out[0].bytes, b"invalid nick\n".to_vec());
    // Nobody was told about the failed joiner.
    let (chat, _) = room.line(1, b"anyone here");
    assert_eq!(chat.len(), 0);
}

#[test]
fn leave_announced_only_for_registered() {
    let mut room = ChatRoom::new();
    room.join(1);
    room.line(1, b"alice");
    room.join(2);
    room.line(2, b"bob");
    let out = room.leave(2);
    assert_eq!(out.len(), 1);
    assert_eq!(out[0].id, 1);
    assert_eq!(out[0].bytes, b"* bob left\n".to_vec());

    // A connection that never registered leaves without a word.
    room.join(3);
    let out = room.leave(3);
    assert!(out.is_empty());
    assert!(room.has_member(1));
    assert!(!room.has_member(2));
}
