//! The counter store: chats, users, message counters, reply counters and
//! per-stream checkpoints, held as plain tables with a mathematical view.
//!
//! Every mutation is an idempotent-upsert step described exactly by the
//! `apply_*` specification functions, so that the replay protocol and the
//! query engine can be verified against one model.

use vstd::prelude::*;

use crate::error::MyError;
use crate::events::{ChatInfo, ChatInfoV, UserExt, UserExtV, UserInfo, UserInfoV};
use crate::util::random_id;

verus! {

/// Internal row id reserved for the synthetic aggregator chat used by
/// providers without native chat grouping.
pub const RESERVED_CHAT_ID: i64 = 1;

/// Capacity bound on the chat and user tables; keeps freshly allocated
/// internal ids well inside the `i64` range.
pub const MAX_TABLE_ROWS: u64 = 0x4000_0000_0000_0000;

// ---------------------------------------------------------------------------
// Rows and their views
// ---------------------------------------------------------------------------

pub struct ChatRow {
    pub id: i64,
    pub ext_id: Option<i64>,
    pub rnd_id: String,
    pub name: String,
    pub alias: Option<String>,
}

#[verifier::ext_equal]
pub ghost struct ChatRowV {
    pub id: int,
    pub ext_id: Option<int>,
    pub rnd_id: Seq<char>,
    pub name: Seq<char>,
    pub alias: Option<Seq<char>>,
}

impl View for ChatRow {
    type V = ChatRowV;

    open spec fn view(&self) -> ChatRowV {
        ChatRowV {
            id: self.id as int,
            ext_id: match self.ext_id {
                Some(e) => Some(e as int),
                None => None,
            },
            rnd_id: self.rnd_id@,
            name: self.name@,
            alias: match self.alias {
                Some(ref a) => Some(a@),
                None => None,
            },
        }
    }
}

pub struct UserRow {
    pub id: i64,
    pub ext: UserExt,
    pub rnd_id: String,
    pub name: String,
}

#[verifier::ext_equal]
pub ghost struct UserRowV {
    pub id: int,
    pub ext: UserExtV,
    pub rnd_id: Seq<char>,
    pub name: Seq<char>,
}

impl View for UserRow {
    type V = UserRowV;

    open spec fn view(&self) -> UserRowV {
        UserRowV { id: self.id as int, ext: self.ext@, rnd_id: self.rnd_id@, name: self.name@ }
    }
}

pub struct MessageRow {
    pub chat_id: i64,
    pub user_id: i64,
    pub hour: i64,
    pub count: u64,
}

#[verifier::ext_equal]
pub ghost struct MessageRowV {
    pub chat_id: int,
    pub user_id: int,
    pub hour: int,
    pub count: int,
}

impl View for MessageRow {
    type V = MessageRowV;

    open spec fn view(&self) -> MessageRowV {
        MessageRowV {
            chat_id: self.chat_id as int,
            user_id: self.user_id as int,
            hour: self.hour as int,
            count: self.count as int,
        }
    }
}

pub struct ReplyRow {
    pub chat_id: i64,
    pub from_uid: i64,
    pub to_uid: i64,
    pub count: u64,
}

#[verifier::ext_equal]
pub ghost struct ReplyRowV {
    pub chat_id: int,
    pub from_uid: int,
    pub to_uid: int,
    pub count: int,
}

impl View for ReplyRow {
    type V = ReplyRowV;

    open spec fn view(&self) -> ReplyRowV {
        ReplyRowV {
            chat_id: self.chat_id as int,
            from_uid: self.from_uid as int,
            to_uid: self.to_uid as int,
            count: self.count as int,
        }
    }
}

pub struct CheckpointRow {
    pub stream: String,
    pub offset: u64,
}

#[verifier::ext_equal]
pub ghost struct CheckpointRowV {
    pub stream: Seq<char>,
    pub offset: int,
}

impl View for CheckpointRow {
    type V = CheckpointRowV;

    open spec fn view(&self) -> CheckpointRowV {
        CheckpointRowV { stream: self.stream@, offset: self.offset as int }
    }
}

// ---------------------------------------------------------------------------
// The store and its view
// ---------------------------------------------------------------------------

pub struct Store {
    pub chats: Vec<ChatRow>,
    pub users: Vec<UserRow>,
    pub messages: Vec<MessageRow>,
    pub replies: Vec<ReplyRow>,
    pub checkpoints: Vec<CheckpointRow>,
    pub total_count: u64,
    pub total_replies: u64,
}

#[verifier::ext_equal]
pub ghost struct StoreV {
    pub chats: Seq<ChatRowV>,
    pub users: Seq<UserRowV>,
    pub messages: Seq<MessageRowV>,
    pub replies: Seq<ReplyRowV>,
    pub checkpoints: Seq<CheckpointRowV>,
    pub total: int,
    pub total_replies: int,
}

impl View for Store {
    type V = StoreV;

    open spec fn view(&self) -> StoreV {
        StoreV {
            chats: self.chats@.map_values(|r: ChatRow| r@),
            users: self.users@.map_values(|r: UserRow| r@),
            messages: self.messages@.map_values(|r: MessageRow| r@),
            replies: self.replies@.map_values(|r: ReplyRow| r@),
            checkpoints: self.checkpoints@.map_values(|r: CheckpointRow| r@),
            total: self.total_count as int,
            total_replies: self.total_replies as int,
        }
    }
}

/// The empty store.
pub open spec fn empty_store() -> StoreV {
    StoreV {
        chats: Seq::empty(),
        users: Seq::empty(),
        messages: Seq::empty(),
        replies: Seq::empty(),
        checkpoints: Seq::empty(),
        total: 0,
        total_replies: 0,
    }
}

// ---------------------------------------------------------------------------
// Well-formedness
// ---------------------------------------------------------------------------

pub open spec fn chat_row_wf(c: ChatRowV, n: int) -> bool {
    match c.ext_id {
        Some(_) => 2 <= c.id <= n + 1,
        None => c.id == RESERVED_CHAT_ID,
    }
}

pub open spec fn user_row_wf(u: UserRowV, n: int) -> bool {
    match u.ext {
        UserExtV::Num(_) => 1 <= u.id <= n,
        UserExtV::Name(_) => -n <= u.id <= -1,
    }
}

/// Sum of the counts of a sequence of message counter rows.
pub open spec fn msg_total(msgs: Seq<MessageRowV>) -> int
    decreases msgs.len(),
{
    if msgs.len() == 0 {
        0
    } else {
        msg_total(msgs.drop_last()) + msgs.last().count
    }
}

/// Sum of the counts of a sequence of reply counter rows.
pub open spec fn reply_total(replies: Seq<ReplyRowV>) -> int
    decreases replies.len(),
{
    if replies.len() == 0 {
        0
    } else {
        reply_total(replies.drop_last()) + replies.last().count
    }
}

pub open spec fn same_msg_key(a: MessageRowV, b: MessageRowV) -> bool {
    a.chat_id == b.chat_id && a.user_id == b.user_id && a.hour == b.hour
}

pub open spec fn same_reply_key(a: ReplyRowV, b: ReplyRowV) -> bool {
    a.chat_id == b.chat_id && a.from_uid == b.from_uid && a.to_uid == b.to_uid
}

pub open spec fn has_user_id(users: Seq<UserRowV>, uid: int) -> bool {
    exists|k: int| 0 <= k < users.len() && (#[trigger] users[k]).id == uid
}

pub open spec fn has_chat_id(chats: Seq<ChatRowV>, cid: int) -> bool {
    exists|k: int| 0 <= k < chats.len() && (#[trigger] chats[k]).id == cid
}

pub open spec fn chats_wf(chats: Seq<ChatRowV>) -> bool {
    &&& forall|i: int, j: int|
        0 <= i < j < chats.len() ==> (#[trigger] chats[i]).id != (#[trigger] chats[j]).id
            && chats[i].ext_id != chats[j].ext_id
    &&& forall|i: int| 0 <= i < chats.len() ==> chat_row_wf(#[trigger] chats[i], chats.len() as int)
}

pub open spec fn users_wf(users: Seq<UserRowV>) -> bool {
    &&& forall|i: int, j: int|
        0 <= i < j < users.len() ==> (#[trigger] users[i]).id != (#[trigger] users[j]).id
            && users[i].ext != users[j].ext
    &&& forall|i: int| 0 <= i < users.len() ==> user_row_wf(#[trigger] users[i], users.len() as int)
}

pub open spec fn messages_wf(s: StoreV) -> bool {
    &&& forall|i: int, j: int|
        0 <= i < j < s.messages.len() ==> !same_msg_key(
            #[trigger] s.messages[i],
            #[trigger] s.messages[j],
        )
    &&& forall|i: int|
        0 <= i < s.messages.len() ==> (#[trigger] s.messages[i]).count >= 1 && has_chat_id(
            s.chats,
            s.messages[i].chat_id,
        ) && has_user_id(s.users, s.messages[i].user_id)
    &&& msg_total(s.messages) == s.total
    &&& 0 <= s.total <= u64::MAX
}

pub open spec fn replies_wf(s: StoreV) -> bool {
    &&& forall|i: int, j: int|
        0 <= i < j < s.replies.len() ==> !same_reply_key(
            #[trigger] s.replies[i],
            #[trigger] s.replies[j],
        )
    &&& forall|i: int| 0 <= i < s.replies.len() ==> (#[trigger] s.replies[i]).count >= 1
    &&& reply_total(s.replies) == s.total_replies
    &&& 0 <= s.total_replies <= u64::MAX
}

pub open spec fn checkpoints_wf(cps: Seq<CheckpointRowV>) -> bool {
    forall|i: int, j: int|
        0 <= i < j < cps.len() ==> (#[trigger] cps[i]).stream != (#[trigger] cps[j]).stream
}

impl StoreV {
    /// Internal consistency of the tables: unique keys, valid internal ids,
    /// counters that reference existing rows, and an exact running total.
    pub open spec fn wf(self) -> bool {
        &&& chats_wf(self.chats)
        &&& users_wf(self.users)
        &&& messages_wf(self)
        &&& replies_wf(self)
        &&& checkpoints_wf(self.checkpoints)
        &&& self.chats.len() <= MAX_TABLE_ROWS
        &&& self.users.len() <= MAX_TABLE_ROWS
    }
}


// ---------------------------------------------------------------------------
// Spec-level lookups and id allocation
// ---------------------------------------------------------------------------

pub open spec fn has_chat_ext(chats: Seq<ChatRowV>, ext: Option<int>) -> bool {
    exists|i: int| 0 <= i < chats.len() && (#[trigger] chats[i]).ext_id == ext
}

pub open spec fn chat_ext_index(chats: Seq<ChatRowV>, ext: Option<int>) -> int {
    choose|i: int| 0 <= i < chats.len() && (#[trigger] chats[i]).ext_id == ext
}

pub open spec fn has_user_ext(users: Seq<UserRowV>, ext: UserExtV) -> bool {
    exists|i: int| 0 <= i < users.len() && (#[trigger] users[i]).ext == ext
}

pub open spec fn user_ext_index(users: Seq<UserRowV>, ext: UserExtV) -> int {
    choose|i: int| 0 <= i < users.len() && (#[trigger] users[i]).ext == ext
}

pub open spec fn msg_key(cid: int, uid: int, hour: int) -> MessageRowV {
    MessageRowV { chat_id: cid, user_id: uid, hour: hour, count: 0 }
}

pub open spec fn has_msg_key(msgs: Seq<MessageRowV>, key: MessageRowV) -> bool {
    exists|i: int| 0 <= i < msgs.len() && same_msg_key(#[trigger] msgs[i], key)
}

pub open spec fn msg_key_index(msgs: Seq<MessageRowV>, key: MessageRowV) -> int {
    choose|i: int| 0 <= i < msgs.len() && same_msg_key(#[trigger] msgs[i], key)
}

pub open spec fn reply_key(cid: int, fid: int, tid: int) -> ReplyRowV {
    ReplyRowV { chat_id: cid, from_uid: fid, to_uid: tid, count: 0 }
}

pub open spec fn has_reply_key(replies: Seq<ReplyRowV>, key: ReplyRowV) -> bool {
    exists|i: int| 0 <= i < replies.len() && same_reply_key(#[trigger] replies[i], key)
}

pub open spec fn reply_key_index(replies: Seq<ReplyRowV>, key: ReplyRowV) -> int {
    choose|i: int| 0 <= i < replies.len() && same_reply_key(#[trigger] replies[i], key)
}

pub open spec fn has_checkpoint(cps: Seq<CheckpointRowV>, stream: Seq<char>) -> bool {
    exists|i: int| 0 <= i < cps.len() && (#[trigger] cps[i]).stream == stream
}

pub open spec fn checkpoint_index(cps: Seq<CheckpointRowV>, stream: Seq<char>) -> int {
    choose|i: int| 0 <= i < cps.len() && (#[trigger] cps[i]).stream == stream
}

/// The committed byte offset of a named ingestion stream, if any run of it
/// ever committed.
pub open spec fn cp_of(s: StoreV, stream: Seq<char>) -> Option<int> {
    if has_checkpoint(s.checkpoints, stream) {
        Some(s.checkpoints[checkpoint_index(s.checkpoints, stream)].offset)
    } else {
        None
    }
}

/// Largest internal chat id in use, at least `RESERVED_CHAT_ID`.
pub open spec fn max_chat_id(chats: Seq<ChatRowV>) -> int
    decreases chats.len(),
{
    if chats.len() == 0 {
        RESERVED_CHAT_ID as int
    } else {
        let m = max_chat_id(chats.drop_last());
        if chats.last().id > m {
            chats.last().id
        } else {
            m
        }
    }
}

/// Largest positive internal user id in use, or 0.
pub open spec fn max_user_id(users: Seq<UserRowV>) -> int
    decreases users.len(),
{
    if users.len() == 0 {
        0
    } else {
        let m = max_user_id(users.drop_last());
        if users.last().id > m {
            users.last().id
        } else {
            m
        }
    }
}

/// Smallest negative internal user id in use, or 0.
pub open spec fn min_user_id(users: Seq<UserRowV>) -> int
    decreases users.len(),
{
    if users.len() == 0 {
        0
    } else {
        let m = min_user_id(users.drop_last());
        if users.last().id < m {
            users.last().id
        } else {
            m
        }
    }
}

/// Internal id a new user row receives: positive ids count up for
/// numeric external ids, negative ids count down for string ids.
pub open spec fn next_user_id(users: Seq<UserRowV>, ext: UserExtV) -> int {
    match ext {
        UserExtV::Num(_) => max_user_id(users) + 1,
        UserExtV::Name(_) => min_user_id(users) - 1,
    }
}

pub open spec fn next_chat_id(chats: Seq<ChatRowV>, ext: Option<int>) -> int {
    match ext {
        Some(_) => max_chat_id(chats) + 1,
        None => RESERVED_CHAT_ID as int,
    }
}

// ---------------------------------------------------------------------------
// Spec-level upsert steps
// ---------------------------------------------------------------------------

/// Chat resolution: update the display name and alias of the existing row,
/// or append a fresh row under a new internal id and the given random id.
/// Yields the new table and the internal id of the resolved chat.
pub open spec fn upsert_chat_s(s: StoreV, c: ChatInfoV, rid: Seq<char>) -> (StoreV, int) {
    if has_chat_ext(s.chats, c.ext_id) {
        let i = chat_ext_index(s.chats, c.ext_id);
        let row = s.chats[i];
        (
            StoreV { chats: s.chats.update(i, ChatRowV { name: c.name, alias: c.alias, ..row }), ..s },
            row.id,
        )
    } else {
        let id = next_chat_id(s.chats, c.ext_id);
        (
            StoreV {
                chats: s.chats.push(
                    ChatRowV { id: id, ext_id: c.ext_id, rnd_id: rid, name: c.name, alias: c.alias },
                ),
                ..s
            },
            id,
        )
    }
}

/// User resolution: update the display name of the existing row, or append
/// a fresh row.  A numeric external id receives the given random id; a
/// string external id is its own public id.
pub open spec fn upsert_user_s(s: StoreV, u: UserInfoV, rid: Seq<char>) -> (StoreV, int) {
    if has_user_ext(s.users, u.ext) {
        let i = user_ext_index(s.users, u.ext);
        let row = s.users[i];
        (StoreV { users: s.users.update(i, UserRowV { name: u.name, ..row }), ..s }, row.id)
    } else {
        let id = next_user_id(s.users, u.ext);
        let public = match u.ext {
            UserExtV::Num(_) => rid,
            UserExtV::Name(n) => n,
        };
        (
            StoreV {
                users: s.users.push(UserRowV { id: id, ext: u.ext, rnd_id: public, name: u.name }),
                ..s
            },
            id,
        )
    }
}

/// Message counter upsert: create the `(chat, user, hour)` row with count 1,
/// or increment its count; the running total grows by exactly 1.
pub open spec fn upsert_msg_s(s: StoreV, cid: int, uid: int, hour: int) -> StoreV {
    let key = msg_key(cid, uid, hour);
    if has_msg_key(s.messages, key) {
        let i = msg_key_index(s.messages, key);
        let row = s.messages[i];
        StoreV {
            messages: s.messages.update(i, MessageRowV { count: row.count + 1, ..row }),
            total: s.total + 1,
            ..s
        }
    } else {
        StoreV {
            messages: s.messages.push(MessageRowV { chat_id: cid, user_id: uid, hour: hour, count: 1 }),
            total: s.total + 1,
            ..s
        }
    }
}

/// Reply counter upsert on the `(chat, replier, original author)` key.
pub open spec fn upsert_reply_s(s: StoreV, cid: int, fid: int, tid: int) -> StoreV {
    let key = reply_key(cid, fid, tid);
    if has_reply_key(s.replies, key) {
        let i = reply_key_index(s.replies, key);
        let row = s.replies[i];
        StoreV {
            replies: s.replies.update(i, ReplyRowV { count: row.count + 1, ..row }),
            total_replies: s.total_replies + 1,
            ..s
        }
    } else {
        StoreV {
            replies: s.replies.push(
                ReplyRowV { chat_id: cid, from_uid: fid, to_uid: tid, count: 1 },
            ),
            total_replies: s.total_replies + 1,
            ..s
        }
    }
}

/// Full effect of one message event: resolve the chat and the user, then
/// upsert the counter for the absolute hour bucket of the timestamp.
pub open spec fn apply_message_s(
    s: StoreV,
    c: ChatInfoV,
    u: UserInfoV,
    ts: int,
    rc: Seq<char>,
    ru: Seq<char>,
) -> StoreV {
    let (s1, cid) = upsert_chat_s(s, c, rc);
    let (s2, uid) = upsert_user_s(s1, u, ru);
    upsert_msg_s(s2, cid, uid, crate::spec_hour_of(ts))
}

/// Full effect of one reply event: resolve the chat and both users, then
/// upsert the reply counter.
pub open spec fn apply_reply_s(
    s: StoreV,
    c: ChatInfoV,
    f: UserInfoV,
    t: UserInfoV,
    rc: Seq<char>,
    rf: Seq<char>,
    rt: Seq<char>,
) -> StoreV {
    let (s1, cid) = upsert_chat_s(s, c, rc);
    let (s2, fid) = upsert_user_s(s1, f, rf);
    let (s3, tid) = upsert_user_s(s2, t, rt);
    upsert_reply_s(s3, cid, fid, tid)
}

/// Checkpoint upsert for a named stream.
pub open spec fn set_checkpoint_s(s: StoreV, stream: Seq<char>, offset: int) -> StoreV {
    if has_checkpoint(s.checkpoints, stream) {
        let i = checkpoint_index(s.checkpoints, stream);
        StoreV {
            checkpoints: s.checkpoints.update(i, CheckpointRowV { stream: stream, offset: offset }),
            ..s
        }
    } else {
        StoreV {
            checkpoints: s.checkpoints.push(CheckpointRowV { stream: stream, offset: offset }),
            ..s
        }
    }
}

// ---------------------------------------------------------------------------
// Conditions under which a record operation is refused
// ---------------------------------------------------------------------------

/// A message event is refused only when a needed fresh row cannot be
/// allocated or the running total would overflow.
pub open spec fn message_blocked(s: StoreV, c: ChatInfoV, u: UserInfoV) -> bool {
    ||| (!has_chat_ext(s.chats, c.ext_id) && s.chats.len() >= MAX_TABLE_ROWS)
    ||| (!has_user_ext(s.users, u.ext) && s.users.len() >= MAX_TABLE_ROWS)
    ||| s.total >= u64::MAX
}

/// Count of fresh user rows a reply event would have to allocate.
pub open spec fn reply_new_users(s: StoreV, f: UserInfoV, t: UserInfoV) -> int {
    (if has_user_ext(s.users, f.ext) { 0int } else { 1int })
        + (if has_user_ext(s.users, t.ext) || t.ext == f.ext { 0int } else { 1int })
}

/// A reply event is refused only when a needed fresh row cannot be
/// allocated or the running reply total would overflow.
pub open spec fn reply_blocked(s: StoreV, c: ChatInfoV, f: UserInfoV, t: UserInfoV) -> bool {
    ||| (!has_chat_ext(s.chats, c.ext_id) && s.chats.len() >= MAX_TABLE_ROWS)
    ||| s.users.len() + reply_new_users(s, f, t) > MAX_TABLE_ROWS
    ||| s.total_replies >= u64::MAX
}



// ---------------------------------------------------------------------------
// Lemmas about sums, maxima and key uniqueness
// ---------------------------------------------------------------------------

pub proof fn lemma_msg_total_nonneg(msgs: Seq<MessageRowV>)
    requires
        forall|i: int| 0 <= i < msgs.len() ==> (#[trigger] msgs[i]).count >= 0,
    ensures
        msg_total(msgs) >= 0,
    decreases msgs.len(),
{
    if msgs.len() > 0 {
        lemma_msg_total_nonneg(msgs.drop_last());
    }
}

/// Each row's count is at most the total of all counts.
pub proof fn lemma_msg_total_element(msgs: Seq<MessageRowV>, i: int)
    requires
        forall|k: int| 0 <= k < msgs.len() ==> (#[trigger] msgs[k]).count >= 0,
        0 <= i < msgs.len(),
    ensures
        msgs[i].count <= msg_total(msgs),
    decreases msgs.len(),
{
    if i == msgs.len() - 1 {
        lemma_msg_total_nonneg(msgs.drop_last());
    } else {
        lemma_msg_total_element(msgs.drop_last(), i);
    }
}

pub proof fn lemma_msg_total_update(msgs: Seq<MessageRowV>, i: int, r: MessageRowV)
    requires
        0 <= i < msgs.len(),
    ensures
        msg_total(msgs.update(i, r)) == msg_total(msgs) - msgs[i].count + r.count,
    decreases msgs.len(),
{
    if i == msgs.len() - 1 {
        assert(msgs.update(i, r).drop_last() =~= msgs.drop_last());
    } else {
        assert(msgs.update(i, r).drop_last() =~= msgs.drop_last().update(i, r));
        lemma_msg_total_update(msgs.drop_last(), i, r);
    }
}

pub proof fn lemma_msg_total_push(msgs: Seq<MessageRowV>, r: MessageRowV)
    ensures
        msg_total(msgs.push(r)) == msg_total(msgs) + r.count,
{
    assert(msgs.push(r).drop_last() =~= msgs);
}

pub proof fn lemma_reply_total_nonneg(replies: Seq<ReplyRowV>)
    requires
        forall|i: int| 0 <= i < replies.len() ==> (#[trigger] replies[i]).count >= 0,
    ensures
        reply_total(replies) >= 0,
    decreases replies.len(),
{
    if replies.len() > 0 {
        lemma_reply_total_nonneg(replies.drop_last());
    }
}

pub proof fn lemma_reply_total_element(replies: Seq<ReplyRowV>, i: int)
    requires
        forall|k: int| 0 <= k < replies.len() ==> (#[trigger] replies[k]).count >= 0,
        0 <= i < replies.len(),
    ensures
        replies[i].count <= reply_total(replies),
    decreases replies.len(),
{
    if i == replies.len() - 1 {
        lemma_reply_total_nonneg(replies.drop_last());
    } else {
        lemma_reply_total_element(replies.drop_last(), i);
    }
}

pub proof fn lemma_reply_total_update(replies: Seq<ReplyRowV>, i: int, r: ReplyRowV)
    requires
        0 <= i < replies.len(),
    ensures
        reply_total(replies.update(i, r)) == reply_total(replies) - replies[i].count + r.count,
    decreases replies.len(),
{
    if i == replies.len() - 1 {
        assert(replies.update(i, r).drop_last() =~= replies.drop_last());
    } else {
        assert(replies.update(i, r).drop_last() =~= replies.drop_last().update(i, r));
        lemma_reply_total_update(replies.drop_last(), i, r);
    }
}

pub proof fn lemma_reply_total_push(replies: Seq<ReplyRowV>, r: ReplyRowV)
    ensures
        reply_total(replies.push(r)) == reply_total(replies) + r.count,
{
    assert(replies.push(r).drop_last() =~= replies);
}

pub proof fn lemma_max_chat_id(chats: Seq<ChatRowV>)
    ensures
        max_chat_id(chats) >= RESERVED_CHAT_ID,
        forall|i: int| 0 <= i < chats.len() ==> (#[trigger] chats[i]).id <= max_chat_id(chats),
        max_chat_id(chats) == RESERVED_CHAT_ID || exists|i: int|
            0 <= i < chats.len() && (#[trigger] chats[i]).id == max_chat_id(chats),
    decreases chats.len(),
{
    if chats.len() > 0 {
        lemma_max_chat_id(chats.drop_last());
        assert forall|i: int| 0 <= i < chats.len() implies (#[trigger] chats[i]).id <= max_chat_id(
            chats,
        ) by {
            if i < chats.len() - 1 {
                assert(chats.drop_last()[i] == chats[i]);
            }
        }
    }
}

pub proof fn lemma_max_user_id(users: Seq<UserRowV>)
    ensures
        max_user_id(users) >= 0,
        forall|i: int| 0 <= i < users.len() ==> (#[trigger] users[i]).id <= max_user_id(users),
        max_user_id(users) == 0 || exists|i: int|
            0 <= i < users.len() && (#[trigger] users[i]).id == max_user_id(users),
    decreases users.len(),
{
    if users.len() > 0 {
        lemma_max_user_id(users.drop_last());
        assert forall|i: int| 0 <= i < users.len() implies (#[trigger] users[i]).id <= max_user_id(
            users,
        ) by {
            if i < users.len() - 1 {
                assert(users.drop_last()[i] == users[i]);
            }
        }
    }
}

pub proof fn lemma_min_user_id(users: Seq<UserRowV>)
    ensures
        min_user_id(users) <= 0,
        forall|i: int| 0 <= i < users.len() ==> (#[trigger] users[i]).id >= min_user_id(users),
        min_user_id(users) == 0 || exists|i: int|
            0 <= i < users.len() && (#[trigger] users[i]).id == min_user_id(users),
    decreases users.len(),
{
    if users.len() > 0 {
        lemma_min_user_id(users.drop_last());
        assert forall|i: int| 0 <= i < users.len() implies (#[trigger] users[i]).id >= min_user_id(
            users,
        ) by {
            if i < users.len() - 1 {
                assert(users.drop_last()[i] == users[i]);
            }
        }
    }
}

/// In a well-formed chat table the row holding a given external id is
/// unique, so any found index is the chosen one.
pub proof fn lemma_chat_index_unique(chats: Seq<ChatRowV>, ext: Option<int>, i: int)
    requires
        chats_wf(chats),
        0 <= i < chats.len(),
        chats[i].ext_id == ext,
    ensures
        has_chat_ext(chats, ext),
        chat_ext_index(chats, ext) == i,
{
    assert(has_chat_ext(chats, ext));
    let j = chat_ext_index(chats, ext);
    if i < j {
        assert(chats[i].ext_id != chats[j].ext_id);
    } else if j < i {
        assert(chats[j].ext_id != chats[i].ext_id);
    }
}

pub proof fn lemma_user_index_unique(users: Seq<UserRowV>, ext: UserExtV, i: int)
    requires
        users_wf(users),
        0 <= i < users.len(),
        users[i].ext == ext,
    ensures
        has_user_ext(users, ext),
        user_ext_index(users, ext) == i,
{
    assert(has_user_ext(users, ext));
    let j = user_ext_index(users, ext);
    if i < j {
        assert(users[i].ext != users[j].ext);
    } else if j < i {
        assert(users[j].ext != users[i].ext);
    }
}

pub proof fn lemma_msg_index_unique(s: StoreV, key: MessageRowV, i: int)
    requires
        messages_wf(s),
        0 <= i < s.messages.len(),
        same_msg_key(s.messages[i], key),
    ensures
        has_msg_key(s.messages, key),
        msg_key_index(s.messages, key) == i,
{
    assert(has_msg_key(s.messages, key));
    let j = msg_key_index(s.messages, key);
    if i < j {
        assert(!same_msg_key(s.messages[i], s.messages[j]));
    } else if j < i {
        assert(!same_msg_key(s.messages[j], s.messages[i]));
    }
}

pub proof fn lemma_reply_index_unique(s: StoreV, key: ReplyRowV, i: int)
    requires
        replies_wf(s),
        0 <= i < s.replies.len(),
        same_reply_key(s.replies[i], key),
    ensures
        has_reply_key(s.replies, key),
        reply_key_index(s.replies, key) == i,
{
    assert(has_reply_key(s.replies, key));
    let j = reply_key_index(s.replies, key);
    if i < j {
        assert(!same_reply_key(s.replies[i], s.replies[j]));
    } else if j < i {
        assert(!same_reply_key(s.replies[j], s.replies[i]));
    }
}

pub proof fn lemma_checkpoint_index_unique(cps: Seq<CheckpointRowV>, stream: Seq<char>, i: int)
    requires
        checkpoints_wf(cps),
        0 <= i < cps.len(),
        cps[i].stream == stream,
    ensures
        has_checkpoint(cps, stream),
        checkpoint_index(cps, stream) == i,
{
    assert(has_checkpoint(cps, stream));
    let j = checkpoint_index(cps, stream);
    if i < j {
        assert(cps[i].stream != cps[j].stream);
    } else if j < i {
        assert(cps[j].stream != cps[i].stream);
    }
}



/// Message rows keep referring to existing chats and users when the chat
/// table only grows or keeps its ids.
pub proof fn lemma_messages_wf_chats_grow(s0: StoreV, s1: StoreV)
    requires
        messages_wf(s0),
        s1.messages == s0.messages,
        s1.users == s0.users,
        s1.total == s0.total,
        s0.chats.len() <= s1.chats.len(),
        forall|k: int| 0 <= k < s0.chats.len() ==> (#[trigger] s1.chats[k]).id == s0.chats[k].id,
    ensures
        messages_wf(s1),
{
    assert forall|i: int|
        0 <= i < s1.messages.len() implies (#[trigger] s1.messages[i]).count >= 1 && has_chat_id(
        s1.chats,
        s1.messages[i].chat_id,
    ) && has_user_id(s1.users, s1.messages[i].user_id) by {
        assert(s0.messages[i].count >= 1);
        assert(has_chat_id(s0.chats, s0.messages[i].chat_id));
        let k = choose|k: int|
            0 <= k < s0.chats.len() && (#[trigger] s0.chats[k]).id == s0.messages[i].chat_id;
        assert(s1.chats[k].id == s1.messages[i].chat_id);
        assert(has_user_id(s0.users, s0.messages[i].user_id));
    }
}

/// The same preservation when the user table only grows or keeps its ids.
pub proof fn lemma_messages_wf_users_grow(s0: StoreV, s1: StoreV)
    requires
        messages_wf(s0),
        s1.messages == s0.messages,
        s1.chats == s0.chats,
        s1.total == s0.total,
        s0.users.len() <= s1.users.len(),
        forall|k: int| 0 <= k < s0.users.len() ==> (#[trigger] s1.users[k]).id == s0.users[k].id,
    ensures
        messages_wf(s1),
{
    assert forall|i: int|
        0 <= i < s1.messages.len() implies (#[trigger] s1.messages[i]).count >= 1 && has_chat_id(
        s1.chats,
        s1.messages[i].chat_id,
    ) && has_user_id(s1.users, s1.messages[i].user_id) by {
        assert(s0.messages[i].count >= 1);
        assert(has_user_id(s0.users, s0.messages[i].user_id));
        let k = choose|k: int|
            0 <= k < s0.users.len() && (#[trigger] s0.users[k]).id == s0.messages[i].user_id;
        assert(s1.users[k].id == s1.messages[i].user_id);
        assert(has_chat_id(s0.chats, s0.messages[i].chat_id));
    }
}

// ---------------------------------------------------------------------------
// Executable store operations
// ---------------------------------------------------------------------------

pub open spec fn opt_int(o: Option<i64>) -> Option<int> {
    match o {
        Some(v) => Some(v as int),
        None => None,
    }
}

impl Store {
    pub open spec fn wf(&self) -> bool {
        self@.wf()
    }

    /// A fresh, empty store.
    pub fn new() -> (s: Store)
        ensures
            s@ == empty_store(),
            s.wf(),
    {
        let s = Store {
            chats: Vec::new(),
            users: Vec::new(),
            messages: Vec::new(),
            replies: Vec::new(),
            checkpoints: Vec::new(),
            total_count: 0,
            total_replies: 0,
        };
        proof {
            assert(s@ =~= empty_store());
        }
        s
    }

    fn find_chat(&self, ext: &Option<i64>) -> (r: Option<usize>)
        ensures
            match r {
                Some(i) => i < self.chats.len() && self@.chats[i as int].ext_id == opt_int(*ext),
                None => !has_chat_ext(self@.chats, opt_int(*ext)),
            },
    {
        let mut i: usize = 0;
        while i < self.chats.len()
            invariant
                i <= self.chats.len(),
                forall|k: int| 0 <= k < i ==> (#[trigger] self@.chats[k]).ext_id != opt_int(*ext),
            decreases self.chats.len() - i,
        {
            let row = &self.chats[i];
            let hit = match (&row.ext_id, ext) {
                (Some(a), Some(b)) => *a == *b,
                (None, None) => true,
                _ => false,
            };
            if hit {
                return Some(i);
            }
            i = i + 1;
        }
        None
    }

    fn find_user(&self, ext: &UserExt) -> (r: Option<usize>)
        ensures
            match r {
                Some(i) => i < self.users.len() && self@.users[i as int].ext == ext@,
                None => !has_user_ext(self@.users, ext@),
            },
    {
        let mut i: usize = 0;
        while i < self.users.len()
            invariant
                i <= self.users.len(),
                forall|k: int| 0 <= k < i ==> (#[trigger] self@.users[k]).ext != ext@,
            decreases self.users.len() - i,
        {
            let row = &self.users[i];
            let hit = match (&row.ext, ext) {
                (UserExt::Num(a), UserExt::Num(b)) => *a == *b,
                (UserExt::Name(a), UserExt::Name(b)) => *a == *b,
                _ => false,
            };
            if hit {
                return Some(i);
            }
            i = i + 1;
        }
        None
    }

    /// Resolves a chat to its internal id, creating or refreshing its row;
    /// the caller rules out a full table beforehand.
    fn upsert_chat_row(&mut self, info: &ChatInfo, rid: String) -> (cid: i64)
        requires
            old(self).wf(),
            !has_chat_ext(old(self)@.chats, opt_int(info.ext_id)) ==> old(self)@.chats.len()
                < MAX_TABLE_ROWS,
        ensures
            final(self).wf(),
            final(self)@ == upsert_chat_s(old(self)@, info@, rid@).0,
            cid == upsert_chat_s(old(self)@, info@, rid@).1,
            has_chat_id(final(self)@.chats, cid as int),
            final(self)@.users == old(self)@.users,
            final(self)@.messages == old(self)@.messages,
            final(self)@.replies == old(self)@.replies,
            final(self)@.checkpoints == old(self)@.checkpoints,
            final(self)@.total == old(self)@.total,
    {
        let ghost s0 = self@;
        match self.find_chat(&info.ext_id) {
            Some(i) => {
                proof {
                    lemma_chat_index_unique(s0.chats, opt_int(info.ext_id), i as int);
                }
                let id = self.chats[i].id;
                let old_ext = self.chats[i].ext_id;
                let old_rnd = self.chats[i].rnd_id.clone();
                let row = ChatRow {
                    id: id,
                    ext_id: old_ext,
                    rnd_id: old_rnd,
                    name: info.name.clone(),
                    alias: match &info.alias {
                        Some(a) => Some(a.clone()),
                        None => None,
                    },
                };
                self.chats.set(i, row);
                proof {
                    let spec_next = upsert_chat_s(s0, info@, rid@).0;
                    assert(self@.chats =~= spec_next.chats);
                    assert(self@ =~= spec_next);
                    assert forall|a: int, b: int|
                        0 <= a < b < self@.chats.len() implies (#[trigger] self@.chats[a]).id
                        != (#[trigger] self@.chats[b]).id && self@.chats[a].ext_id
                        != self@.chats[b].ext_id by {
                        assert(s0.chats[a].id != s0.chats[b].id);
                    }
                    assert forall|a: int|
                        0 <= a < self@.chats.len() implies chat_row_wf(
                        #[trigger] self@.chats[a],
                        self@.chats.len() as int,
                    ) by {
                        assert(chat_row_wf(s0.chats[a], s0.chats.len() as int));
                    }
                    lemma_messages_wf_chats_grow(s0, self@);
                    assert(self.wf());
                    assert(has_chat_id(self@.chats, id as int)) by {
                        assert(self@.chats[i as int].id == id as int);
                    }
                }
                id
            },
            None => {
                // fresh row: allocate the next internal id
                let id: i64;
                if info.ext_id.is_some() {
                    let mut m: i64 = RESERVED_CHAT_ID;
                    let mut k: usize = 0;
                    while k < self.chats.len()
                        invariant
                            k <= self.chats.len(),
                            m == max_chat_id(self@.chats.take(k as int)),
                        decreases self.chats.len() - k,
                    {
                        proof {
                            assert(self@.chats.take(k + 1).drop_last() =~= self@.chats.take(
                                k as int,
                            ));
                            assert(self@.chats.take(k + 1).last() == self@.chats[k as int]);
                        }
                        let id_k = self.chats[k].id;
                        if id_k > m {
                            m = id_k;
                        }
                        k = k + 1;
                    }
                    proof {
                        assert(self@.chats.take(self.chats.len() as int) =~= self@.chats);
                        lemma_max_chat_id(self@.chats);
                        assert(m < i64::MAX) by {
                            assert(m == RESERVED_CHAT_ID || exists|i: int|
                                0 <= i < self@.chats.len() && (#[trigger] self@.chats[i]).id == m);
                        }
                    }
                    id = m + 1;
                } else {
                    id = RESERVED_CHAT_ID;
                }
                let row = ChatRow {
                    id: id,
                    ext_id: info.ext_id,
                    rnd_id: rid,
                    name: info.name.clone(),
                    alias: match &info.alias {
                        Some(a) => Some(a.clone()),
                        None => None,
                    },
                };
                self.chats.push(row);
                proof {
                    let spec_next = upsert_chat_s(s0, info@, rid@).0;
                    assert(self@.chats =~= spec_next.chats);
                    assert(self@ =~= spec_next);
                    lemma_max_chat_id(s0.chats);
                    assert forall|a: int, b: int|
                        0 <= a < b < self@.chats.len() implies (#[trigger] self@.chats[a]).id
                        != (#[trigger] self@.chats[b]).id && self@.chats[a].ext_id
                        != self@.chats[b].ext_id by {
                        if b < self@.chats.len() - 1 {
                            assert(s0.chats[a].id != s0.chats[b].id);
                        }
                    }
                    assert forall|a: int|
                        0 <= a < self@.chats.len() implies chat_row_wf(
                        #[trigger] self@.chats[a],
                        self@.chats.len() as int,
                    ) by {
                        if a < self@.chats.len() - 1 {
                            assert(chat_row_wf(s0.chats[a], s0.chats.len() as int));
                        }
                    }
                    lemma_messages_wf_chats_grow(s0, self@);
                    assert(self.wf());
                    assert(has_chat_id(self@.chats, id as int)) by {
                        assert(self@.chats.last().id == id as int);
                    }
                }
                id
            },
        }
    }

    /// Resolves a user to its internal id, creating or refreshing its row;
    /// the caller rules out a full table beforehand.
    fn upsert_user_row(&mut self, info: &UserInfo, rid: String) -> (uid: i64)
        requires
            old(self).wf(),
            !has_user_ext(old(self)@.users, info.ext@) ==> old(self)@.users.len()
                < MAX_TABLE_ROWS,
        ensures
            final(self).wf(),
            final(self)@ == upsert_user_s(old(self)@, info@, rid@).0,
            uid == upsert_user_s(old(self)@, info@, rid@).1,
            has_user_id(final(self)@.users, uid as int),
            has_user_ext(final(self)@.users, info.ext@),
            final(self)@.chats == old(self)@.chats,
            final(self)@.messages == old(self)@.messages,
            final(self)@.replies == old(self)@.replies,
            final(self)@.checkpoints == old(self)@.checkpoints,
            final(self)@.total == old(self)@.total,
            final(self)@.total_replies == old(self)@.total_replies,
    {
        let ghost s0 = self@;
        match self.find_user(&info.ext) {
            Some(i) => {
                proof {
                    lemma_user_index_unique(s0.users, info.ext@, i as int);
                }
                let id = self.users[i].id;
                let old_ext = match &self.users[i].ext {
                    UserExt::Num(n) => UserExt::Num(*n),
                    UserExt::Name(s) => UserExt::Name(s.clone()),
                };
                let old_rnd = self.users[i].rnd_id.clone();
                let row = UserRow { id: id, ext: old_ext, rnd_id: old_rnd, name: info.name.clone() };
                self.users.set(i, row);
                proof {
                    let spec_next = upsert_user_s(s0, info@, rid@).0;
                    assert(self@.users =~= spec_next.users);
                    assert(self@ =~= spec_next);
                    assert forall|a: int, b: int|
                        0 <= a < b < self@.users.len() implies (#[trigger] self@.users[a]).id
                        != (#[trigger] self@.users[b]).id && self@.users[a].ext
                        != self@.users[b].ext by {
                        assert(s0.users[a].id != s0.users[b].id);
                        assert(s0.users[a].ext != s0.users[b].ext);
                    }
                    assert forall|a: int|
                        0 <= a < self@.users.len() implies user_row_wf(
                        #[trigger] self@.users[a],
                        self@.users.len() as int,
                    ) by {
                        assert(user_row_wf(s0.users[a], s0.users.len() as int));
                    }
                    lemma_messages_wf_users_grow(s0, self@);
                    assert(self.wf());
                    assert(has_user_id(self@.users, id as int)) by {
                        assert(self@.users[i as int].id == id as int);
                    }
                    assert(has_user_ext(self@.users, info.ext@)) by {
                        assert(self@.users[i as int].ext == info.ext@);
                    }
                }
                id
            },
            None => {
                let id: i64;
                let is_num = match &info.ext {
                    UserExt::Num(_) => true,
                    UserExt::Name(_) => false,
                };
                if is_num {
                    let mut m: i64 = 0;
                    let mut k: usize = 0;
                    while k < self.users.len()
                        invariant
                            k <= self.users.len(),
                            m == max_user_id(self@.users.take(k as int)),
                        decreases self.users.len() - k,
                    {
                        proof {
                            assert(self@.users.take(k + 1).drop_last() =~= self@.users.take(
                                k as int,
                            ));
                            assert(self@.users.take(k + 1).last() == self@.users[k as int]);
                        }
                        let id_k = self.users[k].id;
                        if id_k > m {
                            m = id_k;
                        }
                        k = k + 1;
                    }
                    proof {
                        assert(self@.users.take(self.users.len() as int) =~= self@.users);
                        lemma_max_user_id(self@.users);
                        assert(m < i64::MAX) by {
                            assert(m == 0 || exists|i: int|
                                0 <= i < self@.users.len() && (#[trigger] self@.users[i]).id == m);
                        }
                    }
                    id = m + 1;
                } else {
                    let mut m: i64 = 0;
                    let mut k: usize = 0;
                    while k < self.users.len()
                        invariant
                            k <= self.users.len(),
                            m == min_user_id(self@.users.take(k as int)),
                        decreases self.users.len() - k,
                    {
                        proof {
                            assert(self@.users.take(k + 1).drop_last() =~= self@.users.take(
                                k as int,
                            ));
                            assert(self@.users.take(k + 1).last() == self@.users[k as int]);
                        }
                        let id_k = self.users[k].id;
                        if id_k < m {
                            m = id_k;
                        }
                        k = k + 1;
                    }
                    proof {
                        assert(self@.users.take(self.users.len() as int) =~= self@.users);
                        lemma_min_user_id(self@.users);
                        assert(m > i64::MIN) by {
                            assert(m == 0 || exists|i: int|
                                0 <= i < self@.users.len() && (#[trigger] self@.users[i]).id == m);
                        }
                    }
                    id = m - 1;
                }
                let public = match &info.ext {
                    UserExt::Num(_) => rid,
                    UserExt::Name(n) => n.clone(),
                };
                let ext_copy = match &info.ext {
                    UserExt::Num(n) => UserExt::Num(*n),
                    UserExt::Name(s) => UserExt::Name(s.clone()),
                };
                let row = UserRow { id: id, ext: ext_copy, rnd_id: public, name: info.name.clone() };
                self.users.push(row);
                proof {
                    let spec_next = upsert_user_s(s0, info@, rid@).0;
                    assert(self@.users =~= spec_next.users);
                    assert(self@ =~= spec_next);
                    lemma_max_user_id(s0.users);
                    lemma_min_user_id(s0.users);
                    assert forall|a: int, b: int|
                        0 <= a < b < self@.users.len() implies (#[trigger] self@.users[a]).id
                        != (#[trigger] self@.users[b]).id && self@.users[a].ext
                        != self@.users[b].ext by {
                        if b < self@.users.len() - 1 {
                            assert(s0.users[a].id != s0.users[b].id);
                            assert(s0.users[a].ext != s0.users[b].ext);
                        }
                    }
                    assert forall|a: int|
                        0 <= a < self@.users.len() implies user_row_wf(
                        #[trigger] self@.users[a],
                        self@.users.len() as int,
                    ) by {
                        if a < self@.users.len() - 1 {
                            assert(user_row_wf(s0.users[a], s0.users.len() as int));
                        }
                    }
                    lemma_messages_wf_users_grow(s0, self@);
                    assert(self.wf());
                    assert(has_user_id(self@.users, id as int)) by {
                        assert(self@.users.last().id == id as int);
                    }
                    assert(has_user_ext(self@.users, info.ext@)) by {
                        assert(self@.users.last().ext == info.ext@);
                    }
                }
                id
            },
        }
    }

    fn find_message(&self, cid: i64, uid: i64, hour: i64) -> (r: Option<usize>)
        ensures
            match r {
                Some(i) => i < self.messages.len() && same_msg_key(
                    self@.messages[i as int],
                    msg_key(cid as int, uid as int, hour as int),
                ),
                None => !has_msg_key(self@.messages, msg_key(cid as int, uid as int, hour as int)),
            },
    {
        let mut i: usize = 0;
        while i < self.messages.len()
            invariant
                i <= self.messages.len(),
                forall|k: int|
                    0 <= k < i ==> !same_msg_key(
                        #[trigger] self@.messages[k],
                        msg_key(cid as int, uid as int, hour as int),
                    ),
            decreases self.messages.len() - i,
        {
            let row = &self.messages[i];
            if row.chat_id == cid && row.user_id == uid && row.hour == hour {
                return Some(i);
            }
            i = i + 1;
        }
        None
    }

    fn find_reply(&self, cid: i64, fid: i64, tid: i64) -> (r: Option<usize>)
        ensures
            match r {
                Some(i) => i < self.replies.len() && same_reply_key(
                    self@.replies[i as int],
                    reply_key(cid as int, fid as int, tid as int),
                ),
                None => !has_reply_key(
                    self@.replies,
                    reply_key(cid as int, fid as int, tid as int),
                ),
            },
    {
        let mut i: usize = 0;
        while i < self.replies.len()
            invariant
                i <= self.replies.len(),
                forall|k: int|
                    0 <= k < i ==> !same_reply_key(
                        #[trigger] self@.replies[k],
                        reply_key(cid as int, fid as int, tid as int),
                    ),
            decreases self.replies.len() - i,
        {
            let row = &self.replies[i];
            if row.chat_id == cid && row.from_uid == fid && row.to_uid == tid {
                return Some(i);
            }
            i = i + 1;
        }
        None
    }

    /// Creates or increments the `(chat, user, hour)` message counter.
    fn bump_message(&mut self, cid: i64, uid: i64, hour: i64)
        requires
            old(self).wf(),
            old(self)@.total < u64::MAX,
            has_chat_id(old(self)@.chats, cid as int),
            has_user_id(old(self)@.users, uid as int),
        ensures
            final(self).wf(),
            final(self)@ == upsert_msg_s(old(self)@, cid as int, uid as int, hour as int),
    {
        let ghost s0 = self@;
        match self.find_message(cid, uid, hour) {
            Some(i) => {
                proof {
                    lemma_msg_index_unique(s0, msg_key(cid as int, uid as int, hour as int), i as int);
                    lemma_msg_total_element(s0.messages, i as int);
                }
                let count = self.messages[i].count;
                let row = MessageRow { chat_id: cid, user_id: uid, hour: hour, count: count + 1 };
                self.messages.set(i, row);
                self.total_count = self.total_count + 1;
                proof {
                    let spec_next = upsert_msg_s(s0, cid as int, uid as int, hour as int);
                    assert(self@.messages[i as int] =~= spec_next.messages[i as int]);
                    assert(self@.messages =~= spec_next.messages);
                    assert(self@ =~= spec_next);
                    lemma_msg_total_update(s0.messages, i as int, self@.messages[i as int]);
                    assert forall|a: int, b: int|
                        0 <= a < b < self@.messages.len() implies !same_msg_key(
                        #[trigger] self@.messages[a],
                        #[trigger] self@.messages[b],
                    ) by {
                        assert(!same_msg_key(s0.messages[a], s0.messages[b]));
                    }
                    assert forall|a: int|
                        0 <= a < self@.messages.len() implies (#[trigger] self@.messages[a]).count
                        >= 1 && has_chat_id(self@.chats, self@.messages[a].chat_id) && has_user_id(
                        self@.users,
                        self@.messages[a].user_id,
                    ) by {
                        assert(s0.messages[a].count >= 1);
                        assert(has_chat_id(s0.chats, s0.messages[a].chat_id));
                        assert(has_user_id(s0.users, s0.messages[a].user_id));
                    }
                    assert(self.wf());
                }
            },
            None => {
                let row = MessageRow { chat_id: cid, user_id: uid, hour: hour, count: 1 };
                self.messages.push(row);
                self.total_count = self.total_count + 1;
                proof {
                    let spec_next = upsert_msg_s(s0, cid as int, uid as int, hour as int);
                    assert(self@.messages =~= spec_next.messages);
                    assert(self@ =~= spec_next);
                    lemma_msg_total_push(s0.messages, self@.messages.last());
                    assert forall|a: int, b: int|
                        0 <= a < b < self@.messages.len() implies !same_msg_key(
                        #[trigger] self@.messages[a],
                        #[trigger] self@.messages[b],
                    ) by {
                        if b < self@.messages.len() - 1 {
                            assert(!same_msg_key(s0.messages[a], s0.messages[b]));
                        } else {
                            assert(self@.messages[a] == s0.messages[a]);
                        }
                    }
                    assert forall|a: int|
                        0 <= a < self@.messages.len() implies (#[trigger] self@.messages[a]).count
                        >= 1 && has_chat_id(self@.chats, self@.messages[a].chat_id) && has_user_id(
                        self@.users,
                        self@.messages[a].user_id,
                    ) by {
                        if a < self@.messages.len() - 1 {
                            assert(s0.messages[a].count >= 1);
                            assert(has_chat_id(s0.chats, s0.messages[a].chat_id));
                            assert(has_user_id(s0.users, s0.messages[a].user_id));
                        }
                    }
                    assert(self.wf());
                }
            },
        }
    }

    /// Creates or increments the `(chat, replier, author)` reply counter.
    fn bump_reply(&mut self, cid: i64, fid: i64, tid: i64)
        requires
            old(self).wf(),
            old(self)@.total_replies < u64::MAX,
        ensures
            final(self).wf(),
            final(self)@ == upsert_reply_s(old(self)@, cid as int, fid as int, tid as int),
    {
        let ghost s0 = self@;
        match self.find_reply(cid, fid, tid) {
            Some(i) => {
                proof {
                    lemma_reply_index_unique(s0, reply_key(cid as int, fid as int, tid as int), i as int);
                    lemma_reply_total_element(s0.replies, i as int);
                }
                let count = self.replies[i].count;
                let row = ReplyRow { chat_id: cid, from_uid: fid, to_uid: tid, count: count + 1 };
                self.replies.set(i, row);
                self.total_replies = self.total_replies + 1;
                proof {
                    let spec_next = upsert_reply_s(s0, cid as int, fid as int, tid as int);
                    assert(self@.replies[i as int] =~= spec_next.replies[i as int]);
                    assert(self@.replies =~= spec_next.replies);
                    assert(self@ =~= spec_next);
                    lemma_reply_total_update(s0.replies, i as int, self@.replies[i as int]);
                    assert forall|a: int, b: int|
                        0 <= a < b < self@.replies.len() implies !same_reply_key(
                        #[trigger] self@.replies[a],
                        #[trigger] self@.replies[b],
                    ) by {
                        assert(!same_reply_key(s0.replies[a], s0.replies[b]));
                    }
                    assert forall|a: int|
                        0 <= a < self@.replies.len() implies (#[trigger] self@.replies[a]).count
                        >= 1 by {
                        assert(s0.replies[a].count >= 1);
                    }
                    assert(self.wf());
                }
            },
            None => {
                let row = ReplyRow { chat_id: cid, from_uid: fid, to_uid: tid, count: 1 };
                self.replies.push(row);
                self.total_replies = self.total_replies + 1;
                proof {
                    let spec_next = upsert_reply_s(s0, cid as int, fid as int, tid as int);
                    assert(self@.replies =~= spec_next.replies);
                    assert(self@ =~= spec_next);
                    lemma_reply_total_push(s0.replies, self@.replies.last());
                    assert forall|a: int, b: int|
                        0 <= a < b < self@.replies.len() implies !same_reply_key(
                        #[trigger] self@.replies[a],
                        #[trigger] self@.replies[b],
                    ) by {
                        if b < self@.replies.len() - 1 {
                            assert(!same_reply_key(s0.replies[a], s0.replies[b]));
                        } else {
                            assert(self@.replies[a] == s0.replies[a]);
                        }
                    }
                    assert forall|a: int|
                        0 <= a < self@.replies.len() implies (#[trigger] self@.replies[a]).count
                        >= 1 by {
                        if a < self@.replies.len() - 1 {
                            assert(s0.replies[a].count >= 1);
                        }
                    }
                    assert(self.wf());
                }
            },
        }
    }

    /// Records one message event: resolves the chat and the user (using the
    /// two given public random ids if fresh rows are needed) and increments
    /// the counter of the event's absolute hour bucket.
    pub fn record_message_with(
        &mut self,
        chat: &ChatInfo,
        user: &UserInfo,
        ts: i64,
        chat_rid: String,
        user_rid: String,
    ) -> (r: Result<(), MyError>)
        requires
            old(self).wf(),
        ensures
            final(self).wf(),
            match r {
                Ok(_) => !message_blocked(old(self)@, chat@, user@) && final(self)@
                    == apply_message_s(
                    old(self)@,
                    chat@,
                    user@,
                    ts as int,
                    chat_rid@,
                    user_rid@,
                ),
                Err(e) => e == MyError::Storage && message_blocked(old(self)@, chat@, user@)
                    && final(self)@ == old(self)@,
            },
    {
        let ghost s0 = self@;
        let chat_missing = self.find_chat(&chat.ext_id).is_none();
        if chat_missing && self.chats.len() as u64 >= MAX_TABLE_ROWS {
            return Err(MyError::Storage);
        }
        let user_missing = self.find_user(&user.ext).is_none();
        if user_missing && self.users.len() as u64 >= MAX_TABLE_ROWS {
            return Err(MyError::Storage);
        }
        if self.total_count == u64::MAX {
            return Err(MyError::Storage);
        }
        let cid = self.upsert_chat_row(chat, chat_rid);
        let uid = self.upsert_user_row(user, user_rid);
        let hour = crate::hour_of_timestamp(ts);
        self.bump_message(cid, uid, hour);
        proof {
            assert(self@ == apply_message_s(s0, chat@, user@, ts as int, chat_rid@, user_rid@));
        }
        Ok(())
    }

    /// Records one message event, generating fresh public random ids for
    /// any rows that have to be created.
    pub fn record_message(&mut self, chat: &ChatInfo, user: &UserInfo, ts: i64) -> (r: Result<
        (),
        MyError,
    >)
        requires
            old(self).wf(),
        ensures
            final(self).wf(),
            match r {
                Ok(_) => !message_blocked(old(self)@, chat@, user@) && exists|
                    rc: Seq<char>,
                    ru: Seq<char>,
                |
                    crate::util::is_random_id(rc) && crate::util::is_random_id(ru) && final(self)@
                        == apply_message_s(old(self)@, chat@, user@, ts as int, rc, ru),
                Err(e) => e == MyError::Storage && message_blocked(old(self)@, chat@, user@)
                    && final(self)@ == old(self)@,
            },
    {
        let ghost s0 = self@;
        let rc = random_id();
        let ru = random_id();
        let ghost rcv = rc@;
        let ghost ruv = ru@;
        let r = self.record_message_with(chat, user, ts, rc, ru);
        proof {
            if r is Ok {
                assert(crate::util::is_random_id(rcv) && crate::util::is_random_id(ruv)
                    && self@ == apply_message_s(s0, chat@, user@, ts as int, rcv, ruv));
            }
        }
        r
    }

    /// Records one reply event: resolves the chat, the replier and the
    /// original author, and increments their reply counter.
    pub fn record_reply_with(
        &mut self,
        chat: &ChatInfo,
        from: &UserInfo,
        to: &UserInfo,
        chat_rid: String,
        from_rid: String,
        to_rid: String,
    ) -> (r: Result<(), MyError>)
        requires
            old(self).wf(),
        ensures
            final(self).wf(),
            match r {
                Ok(_) => !reply_blocked(old(self)@, chat@, from@, to@) && final(self)@
                    == apply_reply_s(
                    old(self)@,
                    chat@,
                    from@,
                    to@,
                    chat_rid@,
                    from_rid@,
                    to_rid@,
                ),
                Err(e) => e == MyError::Storage && reply_blocked(old(self)@, chat@, from@, to@)
                    && final(self)@ == old(self)@,
            },
    {
        let ghost s0 = self@;
        let chat_missing = self.find_chat(&chat.ext_id).is_none();
        if chat_missing && self.chats.len() as u64 >= MAX_TABLE_ROWS {
            return Err(MyError::Storage);
        }
        let from_missing = self.find_user(&from.ext).is_none();
        let to_missing = self.find_user(&to.ext).is_none();
        let same_ext = match (&from.ext, &to.ext) {
            (UserExt::Num(a), UserExt::Num(b)) => *a == *b,
            (UserExt::Name(a), UserExt::Name(b)) => *a == *b,
            _ => false,
        };
        let new_users: u64 = (if from_missing { 1u64 } else { 0u64 }) + (if to_missing && !same_ext {
            1u64
        } else {
            0u64
        });
        if self.users.len() as u64 > MAX_TABLE_ROWS - new_users {
            return Err(MyError::Storage);
        }
        if self.total_replies == u64::MAX {
            return Err(MyError::Storage);
        }
        let cid = self.upsert_chat_row(chat, chat_rid);
        let fid = self.upsert_user_row(from, from_rid);
        proof {
            assert forall|k: int| 0 <= k < s0.users.len() implies s0.users[k].ext
                == self@.users[k].ext by {}
            if !has_user_ext(self@.users, to.ext@) {
                assert(!same_ext);
                if has_user_ext(s0.users, to.ext@) {
                    let k = choose|k: int|
                        0 <= k < s0.users.len() && (#[trigger] s0.users[k]).ext == to.ext@;
                    assert(self@.users[k].ext == to.ext@);
                    assert(has_user_ext(self@.users, to.ext@));
                }
            }
        }
        let tid = self.upsert_user_row(to, to_rid);
        self.bump_reply(cid, fid, tid);
        proof {
            assert(self@ == apply_reply_s(
                s0,
                chat@,
                from@,
                to@,
                chat_rid@,
                from_rid@,
                to_rid@,
            ));
        }
        Ok(())
    }

    /// Records one reply event, generating fresh public random ids for any
    /// rows that have to be created.
    pub fn record_reply(&mut self, chat: &ChatInfo, from: &UserInfo, to: &UserInfo) -> (r: Result<
        (),
        MyError,
    >)
        requires
            old(self).wf(),
        ensures
            final(self).wf(),
            match r {
                Ok(_) => !reply_blocked(old(self)@, chat@, from@, to@) && exists|
                    rc: Seq<char>,
                    rf: Seq<char>,
                    rt: Seq<char>,
                |
                    crate::util::is_random_id(rc) && crate::util::is_random_id(rf)
                        && crate::util::is_random_id(rt) && final(self)@ == apply_reply_s(
                        old(self)@,
                        chat@,
                        from@,
                        to@,
                        rc,
                        rf,
                        rt,
                    ),
                Err(e) => e == MyError::Storage && reply_blocked(old(self)@, chat@, from@, to@)
                    && final(self)@ == old(self)@,
            },
    {
        let ghost s0 = self@;
        let rc = random_id();
        let rf = random_id();
        let rt = random_id();
        let ghost rcv = rc@;
        let ghost rfv = rf@;
        let ghost rtv = rt@;
        let r = self.record_reply_with(chat, from, to, rc, rf, rt);
        proof {
            if r is Ok {
                assert(crate::util::is_random_id(rcv) && crate::util::is_random_id(rfv)
                    && crate::util::is_random_id(rtv) && self@ == apply_reply_s(
                    s0,
                    chat@,
                    from@,
                    to@,
                    rcv,
                    rfv,
                    rtv,
                ));
            }
        }
        r
    }

    /// The committed byte offset for a named ingestion stream, or `None` if
    /// no run of it ever committed.
    pub fn get_checkpoint(&self, stream: &str) -> (r: Option<u64>)
        requires
            self.wf(),
        ensures
            match r {
                Some(o) => cp_of(self@, stream@) == Some(o as int),
                None => cp_of(self@, stream@) is None,
            },
    {
        let key = stream.to_owned();
        let mut i: usize = 0;
        while i < self.checkpoints.len()
            invariant
                i <= self.checkpoints.len(),
                self.wf(),
                key@ == stream@,
                forall|k: int| 0 <= k < i ==> (#[trigger] self@.checkpoints[k]).stream != stream@,
            decreases self.checkpoints.len() - i,
        {
            if self.checkpoints[i].stream == key {
                proof {
                    lemma_checkpoint_index_unique(self@.checkpoints, stream@, i as int);
                }
                return Some(self.checkpoints[i].offset);
            }
            i = i + 1;
        }
        None
    }

    /// Persists the byte offset reached by a named ingestion stream.
    pub fn set_checkpoint(&mut self, stream: &str, offset: u64)
        requires
            old(self).wf(),
        ensures
            final(self).wf(),
            final(self)@ == set_checkpoint_s(old(self)@, stream@, offset as int),
    {
        let ghost s0 = self@;
        let key = stream.to_owned();
        let mut i: usize = 0;
        while i < self.checkpoints.len()
            invariant
                i <= self.checkpoints.len(),
                key@ == stream@,
                self@ == s0,
                s0 == old(self)@,
                s0.wf(),
                forall|k: int| 0 <= k < i ==> (#[trigger] self@.checkpoints[k]).stream != stream@,
            decreases self.checkpoints.len() - i,
        {
            if self.checkpoints[i].stream == key {
                proof {
                    lemma_checkpoint_index_unique(self@.checkpoints, stream@, i as int);
                }
                let row = CheckpointRow { stream: key, offset: offset };
                self.checkpoints.set(i, row);
                proof {
                    let spec_next = set_checkpoint_s(s0, stream@, offset as int);
                    assert(self@.checkpoints =~= spec_next.checkpoints);
                    assert(self@ =~= spec_next);
                    assert forall|a: int, b: int|
                        0 <= a < b < self@.checkpoints.len() implies (#[trigger] self@.checkpoints[a]).stream
                        != (#[trigger] self@.checkpoints[b]).stream by {
                        assert(s0.checkpoints[a].stream != s0.checkpoints[b].stream);
                    }
                    assert(self.wf());
                }
                return ;
            }
            i = i + 1;
        }
        let row = CheckpointRow { stream: key, offset: offset };
        self.checkpoints.push(row);
        proof {
            let spec_next = set_checkpoint_s(s0, stream@, offset as int);
            assert(self@.checkpoints =~= spec_next.checkpoints);
            assert(self@ =~= spec_next);
            assert forall|a: int, b: int|
                0 <= a < b < self@.checkpoints.len() implies (#[trigger] self@.checkpoints[a]).stream
                != (#[trigger] self@.checkpoints[b]).stream by {
                if b < self@.checkpoints.len() - 1 {
                    assert(s0.checkpoints[a].stream != s0.checkpoints[b].stream);
                }
            }
            assert(self.wf());
        }
    }
}

} // verus!
