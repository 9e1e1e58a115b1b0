use chatstats::events::{ChatInfo, UserExt, UserInfo};
use chatstats::query::{query, QueryError};
use chatstats::store::Store;

const DAY: i64 = 86400;

fn room() -> ChatInfo {
    ChatInfo { ext_id: Some(7), name: "the room".to_string(), alias: Some("@room".to_string()) }
}

fn user(id: i64, name: &str) -> UserInfo {
    UserInfo { ext: UserExt::Num(id), name: name.to_string() }
}

/// Records one message with fixed public ids so tests can look users up.
fn put(s: &mut Store, u: i64, name: &str, ts: i64) {
    let user_rid = format!("u{:07}", u);
    s.record_message_with(&room(), &user(u, name), ts, "chatrid0".to_string(), user_rid)
        .unwrap();
}

#[test]
fn gaps_inside_a_requested_range_are_zero_filled() {
    let mut s = Store::new();
    put(&mut s, 40, "ada", 17000 * DAY);
    put(&mut s, 40, "ada", 17005 * DAY);
    let r = query(&s, "@room", Some((17000, 17006)), 0, None, None).unwrap();
    assert_eq!(r.daily_messages, vec![1, 0, 0, 0, 0, 1, 0]);
    assert_eq!(r.daily_users, vec![1, 0, 0, 0, 0, 1, 0]);
    assert_eq!(r.start_day, 17000);
    assert_eq!(r.skip_day, 1);
    assert_eq!(r.title, "the room");
}

#[test]
fn an_empty_range_before_the_data_is_all_zeros() {
    let mut s = Store::new();
    put(&mut s, 40, "ada", 18000 * DAY);
    let r = query(&s, "@room", Some((17000, 17002)), 0, None, None).unwrap();
    assert_eq!(r.daily_messages, vec![0, 0, 0]);
    assert_eq!(r.daily_users, vec![0, 0, 0]);
}

#[test]
fn hour_seventy_two_lands_in_bucket_zero_and_weekday_six() {
    let mut s = Store::new();
    put(&mut s, 40, "ada", 72 * 3600);
    let r = query(&s, "@room", None, 0, None, None).unwrap();
    assert_eq!(r.messages_by_hour[0], 1);
    for b in 1..24 {
        assert_eq!(r.messages_by_hour[b], 0);
    }
    // day 3 of the epoch, with day 0 a Thursday and Monday first: (3 + 3) % 7
    assert_eq!(r.messages_by_weekday[6], 1);
    for b in 0..6 {
        assert_eq!(r.messages_by_weekday[b], 0);
    }
}

#[test]
fn weekday_alignment_is_pinned_by_a_known_monday() {
    // day 19723 of the epoch was a Monday
    let mut s = Store::new();
    put(&mut s, 40, "ada", 19723 * DAY);
    let r = query(&s, "@room", None, 0, None, None).unwrap();
    assert_eq!(r.messages_by_weekday[0], 1);
}

#[test]
fn offsets_shift_hours_days_and_weekdays_together() {
    // one message in the last hour of epoch day 3 (a Sunday)
    let mut s = Store::new();
    put(&mut s, 40, "ada", (3 * 24 + 23) * 3600);
    let shifted = query(&s, "@room", None, 2, None, None).unwrap();
    // with offset +2 the event falls into hour 1 of day 4, a Monday
    assert_eq!(shifted.messages_by_hour[1], 1);
    assert_eq!(shifted.messages_by_weekday[0], 1);
    assert_eq!(shifted.start_day, 4);
    let unshifted = query(&s, "@room", None, 0, None, None).unwrap();
    assert_eq!(unshifted.messages_by_hour[23], 1);
    assert_eq!(unshifted.messages_by_weekday[6], 1);
    assert_eq!(unshifted.start_day, 3);
}

#[test]
fn leaderboard_orders_counts_descending() {
    let mut s = Store::new();
    for _ in 0..5 {
        put(&mut s, 40, "ada", 17000 * DAY);
    }
    for _ in 0..9 {
        put(&mut s, 41, "bob", 17000 * DAY);
    }
    for _ in 0..2 {
        put(&mut s, 42, "eve", 17000 * DAY);
    }
    let r = query(&s, "@room", None, 0, None, None).unwrap();
    assert_eq!(r.messages_by_user, vec![9, 5, 2]);
    assert_eq!(r.user_names, vec!["bob", "ada", "eve"]);
    assert_eq!(r.user_ids, vec!["u0000041", "u0000040", "u0000042"]);
}

#[test]
fn filtering_by_user_narrows_every_series() {
    let mut s = Store::new();
    put(&mut s, 40, "ada", 17000 * DAY);
    put(&mut s, 41, "bob", 17000 * DAY);
    put(&mut s, 41, "bob", 17001 * DAY);
    let r = query(&s, "@room", Some((17000, 17001)), 0, Some("u0000041"), None).unwrap();
    assert_eq!(r.daily_messages, vec![1, 1]);
    assert_eq!(r.messages_by_user, vec![2]);
    assert_eq!(r.user_names, vec!["bob"]);
}

#[test]
fn weekday_filter_strides_by_seven_days() {
    // day 17000 is a Monday: (17000 + 3) % 7 == 0
    assert_eq!((17000 + 3) % 7, 0);
    let mut s = Store::new();
    put(&mut s, 40, "ada", 17000 * DAY);
    put(&mut s, 40, "ada", 17003 * DAY);  // a Thursday, filtered out
    put(&mut s, 40, "ada", 17007 * DAY);  // the next Monday
    let r = query(&s, "@room", Some((17000, 17014)), 0, None, Some(0)).unwrap();
    assert_eq!(r.skip_day, 7);
    assert_eq!(r.start_day, 17000);
    assert_eq!(r.daily_messages, vec![1, 1, 0]);
    // the first day advances to the first day matching the weekday
    let r2 = query(&s, "@room", Some((17001, 17014)), 0, None, Some(0)).unwrap();
    assert_eq!(r2.start_day, 17007);
    assert_eq!(r2.daily_messages, vec![1, 0]);
}

#[test]
fn chats_resolve_by_alias_or_public_id() {
    let mut s = Store::new();
    put(&mut s, 40, "ada", 17000 * DAY);
    let by_alias = query(&s, "@room", None, 0, None, None).unwrap();
    let by_rnd = query(&s, "chatrid0", None, 0, None, None).unwrap();
    assert_eq!(by_alias.title, by_rnd.title);
}

#[test]
fn hour_range_reports_the_extremes_for_the_chat() {
    let mut s = Store::new();
    put(&mut s, 40, "ada", 5 * 3600);
    put(&mut s, 41, "bob", 99 * 3600);
    // the range ignores the user filter
    let r = query(&s, "@room", None, 0, Some("u0000040"), None).unwrap();
    assert_eq!(r.hours, (5, 99));
}

#[test]
fn a_chat_without_messages_reports_hours_zero() {
    let mut s = Store::new();
    let a = user(40, "ada");
    let b = user(41, "bob");
    s.record_reply_with(
        &room(),
        &a,
        &b,
        "chatrid0".to_string(),
        "u0000040".to_string(),
        "u0000041".to_string(),
    )
    .unwrap();
    let r = query(&s, "@room", None, 0, None, None).unwrap();
    assert_eq!(r.hours, (0, 0));
    assert_eq!(r.start_day, 0);
    assert_eq!(r.daily_messages.len(), 0);
}

#[test]
fn validation_boundaries_return_the_right_errors() {
    let mut s = Store::new();
    put(&mut s, 40, "ada", 17000 * DAY);
    let e = query(&s, "@room", None, 13, None, None).unwrap_err();
    assert_eq!(e, QueryError::InvalidOffset);
    assert_eq!(e.status(), 400);
    assert_eq!(e.body(), "{\"error\":\"invalid offset\"}");
    let e = query(&s, "@room", None, -13, None, None).unwrap_err();
    assert_eq!(e, QueryError::InvalidOffset);
    let e = query(&s, "@room", None, 0, None, Some(7)).unwrap_err();
    assert_eq!(e, QueryError::InvalidWeekday);
    assert_eq!(e.status(), 400);
    let e = query(&s, "@room", Some((17000, 18001)), 0, None, None).unwrap_err();
    assert_eq!(e, QueryError::InvalidDates);
    let e = query(&s, "@room", Some((16999, 17100)), 0, None, None).unwrap_err();
    assert_eq!(e, QueryError::InvalidDates);
    assert_eq!(e.body(), "{\"error\":\"invalid dates\"}");
    // boundary values that are still accepted
    assert!(query(&s, "@room", Some((17000, 18000)), 12, None, None).is_ok());
    assert!(query(&s, "@room", Some((17000, 18000)), -12, None, Some(6)).is_ok());
}

#[test]
fn unknown_references_are_not_found() {
    let mut s = Store::new();
    put(&mut s, 40, "ada", 17000 * DAY);
    let e = query(&s, "@nowhere", None, 0, None, None).unwrap_err();
    assert_eq!(e, QueryError::ChatNotFound);
    assert_eq!(e.status(), 404);
    assert_eq!(e.body(), "{\"error\":\"chat not found\"}");
    let e = query(&s, "@room", None, 0, Some("u9999999"), None).unwrap_err();
    assert_eq!(e, QueryError::UserNotFound);
    assert_eq!(e.status(), 404);
}

#[test]
fn validation_comes_before_resolution() {
    let s = Store::new();
    // even an unknown chat reports the bad offset first
    let e = query(&s, "@nowhere", None, 13, None, None).unwrap_err();
    assert_eq!(e, QueryError::InvalidOffset);
}
