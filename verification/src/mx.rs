//! Normalizer for the secondary provider's log lines: one JSON document
//! per line with a `chunk` array of objects carrying an epoch-millisecond
//! timestamp and an opaque string sender id.
//!
//! This provider has no native chat grouping: every event lands in the
//! synthetic aggregator chat, and senders are keyed by their string id,
//! which also serves as their public id and display name.

use vstd::prelude::*;

use crate::events::{ChatInfo, EventNormalizer, NormEvent, UserExt, UserInfo};
use crate::json::{json_get, parse_json};

verus! {

/// Decodes the secondary provider's chunked lines into events on the
/// synthetic aggregator chat, shown under the given display name.
pub struct MxNormalizer {
    pub chat_name: String,
}

impl EventNormalizer for MxNormalizer {
    fn normalize(&self, line: &[u8]) -> Vec<NormEvent> {
        let mut events: Vec<NormEvent> = Vec::new();
        let v = match parse_json(line) {
            Some(v) => v,
            None => {
                return events;
            },
        };
        let chunk = match json_get(&v, "chunk") {
            Some(c) => match c.as_array() {
                Some(a) => a,
                None => {
                    return events;
                },
            },
            None => {
                return events;
            },
        };
        let mut i: usize = 0;
        while i < chunk.len()
            decreases chunk.len() - i,
        {
            let it = &chunk[i];
            let ts_ms = match json_get(it, "origin_server_ts") {
                Some(x) => x.as_i64(),
                None => None,
            };
            let sender = match json_get(it, "sender") {
                Some(x) => x.as_str(),
                None => None,
            };
            match (ts_ms, sender) {
                (Some(ms), Some(mxid)) => {
                    let id = mxid.to_owned();
                    let name = mxid.to_owned();
                    let chat = ChatInfo {
                        ext_id: None,
                        name: self.chat_name.clone(),
                        alias: None,
                    };
                    let user = UserInfo { ext: UserExt::Name(id), name: name };
                    events.push(NormEvent::Message { chat: chat, user: user, ts: ms / 1000 });
                },
                _ => {},
            }
            i = i + 1;
        }
        events
    }
}

} // verus!
