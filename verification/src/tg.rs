//! Normalizer for the primary provider's log lines: one JSON update per
//! line carrying a message-post event with a numeric chat id, a sender
//! with first and last name, an epoch-seconds timestamp, and an optional
//! reply-to reference naming another sender.
//!
//! Only the normalized event fields are read; a line of any other shape
//! yields no events and is skipped.

use vstd::prelude::*;

use crate::events::{ChatInfo, EventNormalizer, NormEvent, UserExt, UserInfo};
use crate::json::{json_get, parse_json};

verus! {

/// Decodes the primary provider's update lines.
pub struct TgNormalizer {
}

/// The sender named by a `from`-shaped object: numeric id plus a display
/// name joined from the first and the optional last name.
fn user_of(v: &serde_json::Value) -> (r: Option<UserInfo>) {
    let id = match json_get(v, "id") {
        Some(x) => match x.as_i64() {
            Some(n) => n,
            None => {
                return None;
            },
        },
        None => {
            return None;
        },
    };
    let first = match json_get(v, "first_name") {
        Some(x) => match x.as_str() {
            Some(s) => s,
            None => {
                return None;
            },
        },
        None => {
            return None;
        },
    };
    let mut name = first.to_owned();
    match json_get(v, "last_name") {
        Some(x) => match x.as_str() {
            Some(last) => {
                name.append(" ");
                name.append(last);
            },
            None => {},
        },
        None => {},
    }
    Some(UserInfo { ext: UserExt::Num(id), name: name })
}

/// The group chat named by a `chat`-shaped object; private and unknown
/// chats are not counted.
fn chat_of(v: &serde_json::Value) -> (r: Option<ChatInfo>) {
    let id = match json_get(v, "id") {
        Some(x) => match x.as_i64() {
            Some(n) => n,
            None => {
                return None;
            },
        },
        None => {
            return None;
        },
    };
    let kind = match json_get(v, "type") {
        Some(x) => match x.as_str() {
            Some(s) => s,
            None => {
                return None;
            },
        },
        None => {
            return None;
        },
    };
    let group = kind == "group";
    let supergroup = kind == "supergroup";
    if !group && !supergroup {
        return None;
    }
    let title = match json_get(v, "title") {
        Some(x) => match x.as_str() {
            Some(s) => s.to_owned(),
            None => {
                return None;
            },
        },
        None => {
            return None;
        },
    };
    let alias: Option<String> = if supergroup {
        match json_get(v, "username") {
            Some(x) => match x.as_str() {
                Some(u) => {
                    let mut a = String::new();
                    a.append("@");
                    a.append(u);
                    Some(a)
                },
                None => None,
            },
            None => None,
        }
    } else {
        None
    };
    Some(ChatInfo { ext_id: Some(id), name: title, alias: alias })
}

impl EventNormalizer for TgNormalizer {
    fn normalize(&self, line: &[u8]) -> Vec<NormEvent> {
        let mut events: Vec<NormEvent> = Vec::new();
        let v = match parse_json(line) {
            Some(v) => v,
            None => {
                return events;
            },
        };
        let msg = match json_get(&v, "message") {
            Some(m) => m,
            None => {
                return events;
            },
        };
        let from = match json_get(msg, "from") {
            Some(f) => f,
            None => {
                return events;
            },
        };
        let user = match user_of(from) {
            Some(u) => u,
            None => {
                return events;
            },
        };
        let chat = match json_get(msg, "chat") {
            Some(c) => match chat_of(c) {
                Some(ci) => ci,
                None => {
                    return events;
                },
            },
            None => {
                return events;
            },
        };
        let ts = match json_get(msg, "date") {
            Some(d) => match d.as_i64() {
                Some(t) => t,
                None => {
                    return events;
                },
            },
            None => {
                return events;
            },
        };
        let reply_to: Option<UserInfo> = match json_get(msg, "reply_to_message") {
            Some(r) => match json_get(r, "from") {
                Some(rf) => user_of(rf),
                None => None,
            },
            None => None,
        };
        let user2 = match &user.ext {
            UserExt::Num(n) => UserInfo { ext: UserExt::Num(*n), name: user.name.clone() },
            UserExt::Name(s) => UserInfo { ext: UserExt::Name(s.clone()), name: user.name.clone() },
        };
        let chat2 = ChatInfo {
            ext_id: chat.ext_id,
            name: chat.name.clone(),
            alias: match &chat.alias {
                Some(a) => Some(a.clone()),
                None => None,
            },
        };
        events.push(NormEvent::Message { chat: chat, user: user, ts: ts });
        match reply_to {
            Some(to) => {
                events.push(NormEvent::Reply { chat: chat2, from: user2, to: to });
            },
            None => {},
        }
        events
    }
}

} // verus!
