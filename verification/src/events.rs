//! Normalized events: the shape in which every log provider hands its
//! decoded lines to the counter store.

use vstd::prelude::*;

verus! {

/// External identity of a user: a numeric id from the primary provider, or
/// an opaque string id from a provider without numeric ids.  String-keyed
/// users are stored under negative internal ids so that they can never
/// collide with the primary provider's rows.
pub enum UserExt {
    Num(i64),
    Name(String),
}

#[verifier::ext_equal]
pub ghost enum UserExtV {
    Num(int),
    Name(Seq<char>),
}

impl View for UserExt {
    type V = UserExtV;

    open spec fn view(&self) -> UserExtV {
        match self {
            UserExt::Num(n) => UserExtV::Num(*n as int),
            UserExt::Name(s) => UserExtV::Name(s@),
        }
    }
}

/// Chat named by a message event.  `ext_id: None` designates the synthetic
/// aggregator chat reserved for providers without native chat grouping.
pub struct ChatInfo {
    pub ext_id: Option<i64>,
    pub name: String,
    pub alias: Option<String>,
}

#[verifier::ext_equal]
pub ghost struct ChatInfoV {
    pub ext_id: Option<int>,
    pub name: Seq<char>,
    pub alias: Option<Seq<char>>,
}

impl View for ChatInfo {
    type V = ChatInfoV;

    open spec fn view(&self) -> ChatInfoV {
        ChatInfoV {
            ext_id: match self.ext_id {
                Some(e) => Some(e as int),
                None => None,
            },
            name: self.name@,
            alias: match self.alias {
                Some(ref a) => Some(a@),
                None => None,
            },
        }
    }
}

/// User named by an event, with the display name seen on this occurrence.
pub struct UserInfo {
    pub ext: UserExt,
    pub name: String,
}

#[verifier::ext_equal]
pub ghost struct UserInfoV {
    pub ext: UserExtV,
    pub name: Seq<char>,
}

impl View for UserInfo {
    type V = UserInfoV;

    open spec fn view(&self) -> UserInfoV {
        UserInfoV { ext: self.ext@, name: self.name@ }
    }
}

/// One normalized event: a message posted at an epoch-seconds timestamp, or
/// a reply from one user to another.
pub enum NormEvent {
    Message { chat: ChatInfo, user: UserInfo, ts: i64 },
    Reply { chat: ChatInfo, from: UserInfo, to: UserInfo },
}

#[verifier::ext_equal]
pub ghost enum NormEventV {
    Message { chat: ChatInfoV, user: UserInfoV, ts: int },
    Reply { chat: ChatInfoV, from: UserInfoV, to: UserInfoV },
}

impl View for NormEvent {
    type V = NormEventV;

    open spec fn view(&self) -> NormEventV {
        match self {
            NormEvent::Message { chat, user, ts } => NormEventV::Message {
                chat: chat@,
                user: user@,
                ts: *ts as int,
            },
            NormEvent::Reply { chat, from, to } => NormEventV::Reply {
                chat: chat@,
                from: from@,
                to: to@,
            },
        }
    }
}

/// A per-provider decoder: maps one raw log line to the normalized events it
/// carries.  A line that cannot be decoded yields no events; decode failures
/// are never fatal.
pub trait EventNormalizer {
    fn normalize(&self, line: &[u8]) -> Vec<NormEvent>;
}

} // verus!
