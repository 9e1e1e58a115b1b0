use chatstats::events::{ChatInfo, UserExt, UserInfo};
use chatstats::store::Store;
use chatstats::util::random_id;

fn group_chat(id: i64, name: &str, alias: &str) -> ChatInfo {
    ChatInfo { ext_id: Some(id), name: name.to_string(), alias: Some(alias.to_string()) }
}

fn num_user(id: i64, name: &str) -> UserInfo {
    UserInfo { ext: UserExt::Num(id), name: name.to_string() }
}

#[test]
fn random_id_is_eight_alphanumerics() {
    for _ in 0..50 {
        let id = random_id();
        assert_eq!(id.len(), 8);
        for b in id.as_bytes() {
            let ok = (b'0'..=b'9').contains(b) || (b'a'..=b'z').contains(b)
                || (b'A'..=b'Z').contains(b);
            assert!(ok);
        }
    }
}

#[test]
fn random_ids_differ() {
    // collisions of two 62^8 draws are negligible
    let a = random_id();
    let b = random_id();
    assert_ne!(a, b);
}

#[test]
fn first_message_creates_rows_with_count_one() {
    let mut s = Store::new();
    let r = s.record_message(&group_chat(7, "room", "@room"), &num_user(40, "ada"), 3600 * 50);
    assert!(r.is_ok());
    assert_eq!(s.chats.len(), 1);
    assert_eq!(s.users.len(), 1);
    assert_eq!(s.messages.len(), 1);
    assert_eq!(s.messages[0].count, 1);
    assert_eq!(s.messages[0].hour, 50);
    assert_eq!(s.total_count, 1);
    // numeric chats take ids above the reserved synthetic id
    assert_eq!(s.chats[0].id, 2);
    assert_eq!(s.users[0].id, 1);
}

#[test]
fn identical_events_accumulate_exactly() {
    let mut s = Store::new();
    let n = 5;
    for _ in 0..n {
        let r = s.record_message(&group_chat(7, "room", "@room"), &num_user(40, "ada"), 3600);
        assert!(r.is_ok());
    }
    assert_eq!(s.messages.len(), 1);
    assert_eq!(s.messages[0].count, n);
    assert_eq!(s.total_count, n);
    assert_eq!(s.chats.len(), 1);
    assert_eq!(s.users.len(), 1);
}

#[test]
fn distinct_hours_open_distinct_buckets() {
    let mut s = Store::new();
    s.record_message(&group_chat(7, "room", "@room"), &num_user(40, "ada"), 10).unwrap();
    s.record_message(&group_chat(7, "room", "@room"), &num_user(40, "ada"), 3599).unwrap();
    s.record_message(&group_chat(7, "room", "@room"), &num_user(40, "ada"), 3600).unwrap();
    assert_eq!(s.messages.len(), 2);
    assert_eq!(s.total_count, 3);
}

#[test]
fn names_are_last_write_wins() {
    let mut s = Store::new();
    s.record_message(&group_chat(7, "old title", "@room"), &num_user(40, "ada"), 0).unwrap();
    s.record_message(&group_chat(7, "new title", "@room"), &num_user(40, "countess ada"), 60)
        .unwrap();
    assert_eq!(s.chats.len(), 1);
    assert_eq!(s.chats[0].name, "new title");
    assert_eq!(s.users[0].name, "countess ada");
}

#[test]
fn string_keyed_users_get_negative_ids_and_their_id_as_public_id() {
    let mut s = Store::new();
    let chat = ChatInfo { ext_id: None, name: "aggregate".to_string(), alias: None };
    let u1 = UserInfo { ext: UserExt::Name("@a:x".to_string()), name: "@a:x".to_string() };
    let u2 = UserInfo { ext: UserExt::Name("@b:x".to_string()), name: "@b:x".to_string() };
    s.record_message(&chat, &u1, 0).unwrap();
    s.record_message(&chat, &u2, 0).unwrap();
    assert_eq!(s.chats.len(), 1);
    assert_eq!(s.chats[0].id, 1); // the reserved synthetic chat id
    assert_eq!(s.users[0].id, -1);
    assert_eq!(s.users[1].id, -2);
    assert_eq!(s.users[0].rnd_id, "@a:x");
}

#[test]
fn replies_accumulate_on_their_triple() {
    let mut s = Store::new();
    let chat = group_chat(7, "room", "@room");
    let a = num_user(40, "ada");
    let b = num_user(41, "bob");
    s.record_reply(&chat, &a, &b).unwrap();
    s.record_reply(&chat, &a, &b).unwrap();
    s.record_reply(&chat, &b, &a).unwrap();
    assert_eq!(s.replies.len(), 2);
    assert_eq!(s.replies[0].count, 2);
    assert_eq!(s.replies[1].count, 1);
    assert_eq!(s.total_replies, 3);
}

#[test]
fn checkpoints_are_per_stream() {
    let mut s = Store::new();
    assert_eq!(s.get_checkpoint("alpha"), None);
    s.set_checkpoint("alpha", 10);
    s.set_checkpoint("beta", 20);
    s.set_checkpoint("alpha", 30);
    assert_eq!(s.get_checkpoint("alpha"), Some(30));
    assert_eq!(s.get_checkpoint("beta"), Some(20));
    assert_eq!(s.checkpoints.len(), 2);
}

#[test]
fn negative_timestamps_floor_to_earlier_hours() {
    let mut s = Store::new();
    s.record_message(&group_chat(7, "room", "@room"), &num_user(40, "ada"), -1).unwrap();
    assert_eq!(s.messages[0].hour, -1);
    let mut s2 = Store::new();
    s2.record_message(&group_chat(7, "room", "@room"), &num_user(40, "ada"), -3600).unwrap();
    assert_eq!(s2.messages[0].hour, -1);
}
