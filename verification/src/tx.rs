//! Transactional access to the counter store.
//!
//! The committed tables stand for what durable storage holds; the current
//! tables are the working state of the open transaction.  `commit_tx` makes
//! the working state durable as one atomic unit, `rollback_tx` discards it,
//! so a run either advances the checkpoint together with its counter
//! mutations or leaves both exactly as they were.

use vstd::prelude::*;

use crate::error::MyError;
use crate::events::{ChatInfo, UserExt, UserInfo};
use crate::store::{
    apply_message_s, apply_reply_s, cp_of, message_blocked, reply_blocked, set_checkpoint_s,
    ChatRow, CheckpointRow, MessageRow, ReplyRow, Store, StoreV, UserRow, empty_store,
};
use crate::util::is_random_id;

verus! {

fn copy_chat_row(r: &ChatRow) -> (c: ChatRow)
    ensures
        c@ == r@,
{
    ChatRow {
        id: r.id,
        ext_id: r.ext_id,
        rnd_id: r.rnd_id.clone(),
        name: r.name.clone(),
        alias: match &r.alias {
            Some(a) => Some(a.clone()),
            None => None,
        },
    }
}

fn copy_user_row(r: &UserRow) -> (c: UserRow)
    ensures
        c@ == r@,
{
    UserRow {
        id: r.id,
        ext: match &r.ext {
            UserExt::Num(n) => UserExt::Num(*n),
            UserExt::Name(s) => UserExt::Name(s.clone()),
        },
        rnd_id: r.rnd_id.clone(),
        name: r.name.clone(),
    }
}

/// A deep copy of the store with an identical view.
fn copy_store(s: &Store) -> (c: Store)
    ensures
        c@ == s@,
{
    let mut chats: Vec<ChatRow> = Vec::new();
    let mut i: usize = 0;
    while i < s.chats.len()
        invariant
            i <= s.chats.len(),
            chats@.len() == i,
            forall|k: int| 0 <= k < i ==> (#[trigger] chats@[k])@ == s.chats@[k]@,
        decreases s.chats.len() - i,
    {
        chats.push(copy_chat_row(&s.chats[i]));
        i = i + 1;
    }
    let mut users: Vec<UserRow> = Vec::new();
    let mut i: usize = 0;
    while i < s.users.len()
        invariant
            i <= s.users.len(),
            users@.len() == i,
            forall|k: int| 0 <= k < i ==> (#[trigger] users@[k])@ == s.users@[k]@,
        decreases s.users.len() - i,
    {
        users.push(copy_user_row(&s.users[i]));
        i = i + 1;
    }
    let mut messages: Vec<MessageRow> = Vec::new();
    let mut i: usize = 0;
    while i < s.messages.len()
        invariant
            i <= s.messages.len(),
            messages@.len() == i,
            forall|k: int| 0 <= k < i ==> (#[trigger] messages@[k])@ == s.messages@[k]@,
        decreases s.messages.len() - i,
    {
        let r = &s.messages[i];
        messages.push(MessageRow { chat_id: r.chat_id, user_id: r.user_id, hour: r.hour, count: r.count });
        i = i + 1;
    }
    let mut replies: Vec<ReplyRow> = Vec::new();
    let mut i: usize = 0;
    while i < s.replies.len()
        invariant
            i <= s.replies.len(),
            replies@.len() == i,
            forall|k: int| 0 <= k < i ==> (#[trigger] replies@[k])@ == s.replies@[k]@,
        decreases s.replies.len() - i,
    {
        let r = &s.replies[i];
        replies.push(ReplyRow { chat_id: r.chat_id, from_uid: r.from_uid, to_uid: r.to_uid, count: r.count });
        i = i + 1;
    }
    let mut checkpoints: Vec<CheckpointRow> = Vec::new();
    let mut i: usize = 0;
    while i < s.checkpoints.len()
        invariant
            i <= s.checkpoints.len(),
            checkpoints@.len() == i,
            forall|k: int| 0 <= k < i ==> (#[trigger] checkpoints@[k])@ == s.checkpoints@[k]@,
        decreases s.checkpoints.len() - i,
    {
        let r = &s.checkpoints[i];
        checkpoints.push(CheckpointRow { stream: r.stream.clone(), offset: r.offset });
        i = i + 1;
    }
    let c = Store {
        chats: chats,
        users: users,
        messages: messages,
        replies: replies,
        checkpoints: checkpoints,
        total_count: s.total_count,
        total_replies: s.total_replies,
    };
    proof {
        assert(c@.chats =~= s@.chats);
        assert(c@.users =~= s@.users);
        assert(c@.messages =~= s@.messages);
        assert(c@.replies =~= s@.replies);
        assert(c@.checkpoints =~= s@.checkpoints);
        assert(c@ =~= s@);
    }
    c
}

/// The store under transactional discipline.
pub struct TxStore {
    pub committed: Store,
    pub current: Store,
    pub tx_open: bool,
}

#[verifier::ext_equal]
pub ghost struct TxStoreV {
    pub committed: StoreV,
    pub current: StoreV,
    pub tx_open: bool,
}

impl View for TxStore {
    type V = TxStoreV;

    open spec fn view(&self) -> TxStoreV {
        TxStoreV { committed: self.committed@, current: self.current@, tx_open: self.tx_open }
    }
}

impl TxStore {
    pub open spec fn wf(&self) -> bool {
        self@.committed.wf() && self@.current.wf()
    }

    /// A fresh store with no committed data and no open transaction.
    pub fn new() -> (s: TxStore)
        ensures
            s.wf(),
            s@.committed == empty_store(),
            s@.current == empty_store(),
            !s@.tx_open,
    {
        TxStore { committed: Store::new(), current: Store::new(), tx_open: false }
    }

    /// Read access to the last committed state.
    pub fn committed_store(&self) -> (r: &Store)
        ensures
            r@ == self@.committed,
    {
        &self.committed
    }

    /// Opens a transaction: the working state becomes a copy of the
    /// committed state.  Returns the committed byte offset of the named
    /// stream, or `None` if the stream never committed.
    pub fn begin_tx(&mut self, stream: &str) -> (r: Option<u64>)
        requires
            old(self).wf(),
            !old(self)@.tx_open,
        ensures
            final(self).wf(),
            final(self)@.tx_open,
            final(self)@.committed == old(self)@.committed,
            final(self)@.current == old(self)@.committed,
            match r {
                Some(o) => cp_of(old(self)@.committed, stream@) == Some(o as int),
                None => cp_of(old(self)@.committed, stream@) is None,
            },
    {
        self.current = copy_store(&self.committed);
        self.tx_open = true;
        self.committed.get_checkpoint(stream)
    }

    /// Commits the open transaction: the working state, with the stream's
    /// checkpoint advanced to `offset`, becomes the committed state in one
    /// atomic unit.
    pub fn commit_tx(&mut self, stream: &str, offset: u64)
        requires
            old(self).wf(),
            old(self)@.tx_open,
        ensures
            final(self).wf(),
            !final(self)@.tx_open,
            final(self)@.committed == set_checkpoint_s(old(self)@.current, stream@, offset as int),
            final(self)@.current == final(self)@.committed,
    {
        self.current.set_checkpoint(stream, offset);
        self.committed = copy_store(&self.current);
        self.tx_open = false;
    }

    /// Aborts the open transaction: every mutation applied since the last
    /// successful commit is rolled back.
    pub fn rollback_tx(&mut self)
        requires
            old(self).wf(),
            old(self)@.tx_open,
        ensures
            final(self).wf(),
            !final(self)@.tx_open,
            final(self)@.committed == old(self)@.committed,
            final(self)@.current == old(self)@.committed,
    {
        self.current = copy_store(&self.committed);
        self.tx_open = false;
    }

    /// Records a message event in the working state of the open transaction.
    pub fn record_message(&mut self, chat: &ChatInfo, user: &UserInfo, ts: i64) -> (r: Result<
        (),
        MyError,
    >)
        requires
            old(self).wf(),
            old(self)@.tx_open,
        ensures
            final(self).wf(),
            final(self)@.tx_open,
            final(self)@.committed == old(self)@.committed,
            match r {
                Ok(_) => !message_blocked(old(self)@.current, chat@, user@) && exists|
                    rc: Seq<char>,
                    ru: Seq<char>,
                |
                    is_random_id(rc) && is_random_id(ru) && final(self)@.current
                        == apply_message_s(old(self)@.current, chat@, user@, ts as int, rc, ru),
                Err(e) => e == MyError::Storage && message_blocked(old(self)@.current, chat@, user@)
                    && final(self)@.current == old(self)@.current,
            },
    {
        self.current.record_message(chat, user, ts)
    }

    /// Records a reply event in the working state of the open transaction.
    pub fn record_reply(&mut self, chat: &ChatInfo, from: &UserInfo, to: &UserInfo) -> (r: Result<
        (),
        MyError,
    >)
        requires
            old(self).wf(),
            old(self)@.tx_open,
        ensures
            final(self).wf(),
            final(self)@.tx_open,
            final(self)@.committed == old(self)@.committed,
            match r {
                Ok(_) => !reply_blocked(old(self)@.current, chat@, from@, to@) && exists|
                    rc: Seq<char>,
                    rf: Seq<char>,
                    rt: Seq<char>,
                |
                    is_random_id(rc) && is_random_id(rf) && is_random_id(rt) && final(self)@.current
                        == apply_reply_s(old(self)@.current, chat@, from@, to@, rc, rf, rt),
                Err(e) => e == MyError::Storage && reply_blocked(old(self)@.current, chat@, from@, to@)
                    && final(self)@.current == old(self)@.current,
            },
    {
        self.current.record_reply(chat, from, to)
    }
}

} // verus!
