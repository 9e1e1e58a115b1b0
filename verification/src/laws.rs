//! Laws of the store and of the replay protocol: resuming a finished run
//! changes nothing, a failed short run changes nothing, and repeating one
//! message event accumulates its counter exactly.

use vstd::prelude::*;

use crate::events::{ChatInfoV, UserInfoV};
use crate::process_log::{
    line_seq, replay_chain, seek_pos, start_of, LogProcessor, BATCH_LINES,
};
use crate::store::{
    apply_message_s, apply_reply_s, chat_ext_index, has_chat_ext, has_msg_key, has_reply_key,
    has_user_ext, lemma_chat_index_unique,
    lemma_max_chat_id, lemma_max_user_id, lemma_messages_wf_chats_grow,
    lemma_messages_wf_users_grow, lemma_min_user_id, lemma_msg_index_unique, lemma_msg_total_push,
    lemma_msg_total_update, lemma_reply_index_unique, lemma_reply_total_push,
    lemma_reply_total_update, lemma_user_index_unique, message_blocked, msg_key, msg_key_index,
    next_chat_id, next_user_id, reply_blocked, reply_key, reply_key_index, same_msg_key,
    same_reply_key, upsert_chat_s, upsert_msg_s, upsert_reply_s, upsert_user_s, user_ext_index,
    MessageRowV, ReplyRowV, StoreV, MAX_TABLE_ROWS,
};

verus! {

// ---------------------------------------------------------------------------
// Upsert accumulation
// ---------------------------------------------------------------------------

/// The stored count of one message counter key, or 0 if the row does not
/// exist yet.
pub open spec fn key_count(msgs: Seq<MessageRowV>, key: MessageRowV) -> int {
    if has_msg_key(msgs, key) {
        msgs[msg_key_index(msgs, key)].count
    } else {
        0
    }
}

/// The stored count a message event's bucket holds: the count of the
/// `(chat, user, hour)` row its references resolve to, or 0 while either
/// reference or the row is unknown.
pub open spec fn event_count(s: StoreV, c: ChatInfoV, u: UserInfoV, ts: int) -> int {
    if has_chat_ext(s.chats, c.ext_id) && has_user_ext(s.users, u.ext) {
        let cid = s.chats[chat_ext_index(s.chats, c.ext_id)].id;
        let uid = s.users[user_ext_index(s.users, u.ext)].id;
        key_count(s.messages, msg_key(cid, uid, crate::spec_hour_of(ts)))
    } else {
        0
    }
}

/// Chat resolution preserves well-formedness; the resolved id is the row's
/// id, and a fresh id appears in no counter row.
proof fn lemma_upsert_chat_s(s: StoreV, c: ChatInfoV, rc: Seq<char>)
    requires
        s.wf(),
        !has_chat_ext(s.chats, c.ext_id) ==> s.chats.len() < MAX_TABLE_ROWS,
    ensures
        ({
            let (s1, cid) = upsert_chat_s(s, c, rc);
            &&& s1.wf()
            &&& s1.users == s.users
            &&& s1.messages == s.messages
            &&& s1.replies == s.replies
            &&& s1.total == s.total
            &&& s1.total_replies == s.total_replies
            &&& has_chat_ext(s1.chats, c.ext_id)
            &&& s1.chats[chat_ext_index(s1.chats, c.ext_id)].id == cid
            &&& (has_chat_ext(s.chats, c.ext_id) ==> cid == s.chats[chat_ext_index(
                s.chats,
                c.ext_id,
            )].id)
            &&& (!has_chat_ext(s.chats, c.ext_id) ==> forall|k: int|
                0 <= k < s.messages.len() ==> (#[trigger] s.messages[k]).chat_id != cid)
        }),
{
    let (s1, cid) = upsert_chat_s(s, c, rc);
    if has_chat_ext(s.chats, c.ext_id) {
        let i = chat_ext_index(s.chats, c.ext_id);
        assert forall|a: int, b: int|
            0 <= a < b < s1.chats.len() implies (#[trigger] s1.chats[a]).id != (
        #[trigger] s1.chats[b]).id && s1.chats[a].ext_id != s1.chats[b].ext_id by {
            assert(s.chats[a].id != s.chats[b].id);
        }
        assert forall|a: int|
            0 <= a < s1.chats.len() implies crate::store::chat_row_wf(
            #[trigger] s1.chats[a],
            s1.chats.len() as int,
        ) by {
            assert(crate::store::chat_row_wf(s.chats[a], s.chats.len() as int));
        }
        lemma_messages_wf_chats_grow(s, s1);
        assert(s1.wf());
        assert(s1.chats[i].ext_id == c.ext_id);
        lemma_chat_index_unique(s1.chats, c.ext_id, i);
    } else {
        let id = next_chat_id(s.chats, c.ext_id);
        lemma_max_chat_id(s.chats);
        assert forall|a: int, b: int|
            0 <= a < b < s1.chats.len() implies (#[trigger] s1.chats[a]).id != (
        #[trigger] s1.chats[b]).id && s1.chats[a].ext_id != s1.chats[b].ext_id by {
            if b < s1.chats.len() - 1 {
                assert(s.chats[a].id != s.chats[b].id);
            } else {
                assert(s1.chats[a] == s.chats[a]);
            }
        }
        assert forall|a: int|
            0 <= a < s1.chats.len() implies crate::store::chat_row_wf(
            #[trigger] s1.chats[a],
            s1.chats.len() as int,
        ) by {
            if a < s1.chats.len() - 1 {
                assert(crate::store::chat_row_wf(s.chats[a], s.chats.len() as int));
            }
        }
        lemma_messages_wf_chats_grow(s, s1);
        assert(s1.wf());
        assert(s1.chats.last().ext_id == c.ext_id);
        lemma_chat_index_unique(s1.chats, c.ext_id, s1.chats.len() - 1);
        // a fresh id is larger than every id a counter row can reference
        assert forall|k: int|
            0 <= k < s.messages.len() implies (#[trigger] s.messages[k]).chat_id != cid by {
            assert(crate::store::has_chat_id(s.chats, s.messages[k].chat_id));
            let t = choose|t: int|
                0 <= t < s.chats.len() && (#[trigger] s.chats[t]).id == s.messages[k].chat_id;
            match c.ext_id {
                Some(_) => {
                    assert(s.chats[t].id <= crate::store::max_chat_id(s.chats));
                },
                None => {
                    // the reserved id belongs to no existing row here, and
                    // rows with numeric external ids sit above it
                    assert(s.chats[t].id != crate::store::RESERVED_CHAT_ID as int) by {
                        if s.chats[t].ext_id is None {
                            assert(has_chat_ext(s.chats, c.ext_id));
                        } else {
                            assert(crate::store::chat_row_wf(s.chats[t], s.chats.len() as int));
                        }
                    }
                },
            }
        }
    }
}

/// User resolution preserves well-formedness; the resolved id is the row's
/// id, and a fresh id appears in no counter row.
proof fn lemma_upsert_user_s(s: StoreV, u: UserInfoV, ru: Seq<char>)
    requires
        s.wf(),
        !has_user_ext(s.users, u.ext) ==> s.users.len() < MAX_TABLE_ROWS,
    ensures
        ({
            let (s1, uid) = upsert_user_s(s, u, ru);
            &&& s1.wf()
            &&& s1.chats == s.chats
            &&& s1.messages == s.messages
            &&& s1.replies == s.replies
            &&& s1.total == s.total
            &&& s1.total_replies == s.total_replies
            &&& has_user_ext(s1.users, u.ext)
            &&& s1.users[user_ext_index(s1.users, u.ext)].id == uid
            &&& (has_user_ext(s.users, u.ext) ==> uid == s.users[user_ext_index(
                s.users,
                u.ext,
            )].id)
            &&& (!has_user_ext(s.users, u.ext) ==> forall|k: int|
                0 <= k < s.messages.len() ==> (#[trigger] s.messages[k]).user_id != uid)
        }),
{
    let (s1, uid) = upsert_user_s(s, u, ru);
    if has_user_ext(s.users, u.ext) {
        let i = user_ext_index(s.users, u.ext);
        assert forall|a: int, b: int|
            0 <= a < b < s1.users.len() implies (#[trigger] s1.users[a]).id != (
        #[trigger] s1.users[b]).id && s1.users[a].ext != s1.users[b].ext by {
            assert(s.users[a].id != s.users[b].id);
            assert(s.users[a].ext != s.users[b].ext);
        }
        assert forall|a: int|
            0 <= a < s1.users.len() implies crate::store::user_row_wf(
            #[trigger] s1.users[a],
            s1.users.len() as int,
        ) by {
            assert(crate::store::user_row_wf(s.users[a], s.users.len() as int));
        }
        lemma_messages_wf_users_grow(s, s1);
        assert(s1.wf());
        assert(s1.users[i].ext == u.ext);
        lemma_user_index_unique(s1.users, u.ext, i);
    } else {
        let id = next_user_id(s.users, u.ext);
        lemma_max_user_id(s.users);
        lemma_min_user_id(s.users);
        assert forall|a: int, b: int|
            0 <= a < b < s1.users.len() implies (#[trigger] s1.users[a]).id != (
        #[trigger] s1.users[b]).id && s1.users[a].ext != s1.users[b].ext by {
            if b < s1.users.len() - 1 {
                assert(s.users[a].id != s.users[b].id);
                assert(s.users[a].ext != s.users[b].ext);
            } else {
                assert(s1.users[a] == s.users[a]);
            }
        }
        assert forall|a: int|
            0 <= a < s1.users.len() implies crate::store::user_row_wf(
            #[trigger] s1.users[a],
            s1.users.len() as int,
        ) by {
            if a < s1.users.len() - 1 {
                assert(crate::store::user_row_wf(s.users[a], s.users.len() as int));
            }
        }
        lemma_messages_wf_users_grow(s, s1);
        assert(s1.wf());
        assert(s1.users.last().ext == u.ext);
        lemma_user_index_unique(s1.users, u.ext, s1.users.len() - 1);
        assert forall|k: int|
            0 <= k < s.messages.len() implies (#[trigger] s.messages[k]).user_id != uid by {
            assert(crate::store::has_user_id(s.users, s.messages[k].user_id));
            let t = choose|t: int|
                0 <= t < s.users.len() && (#[trigger] s.users[t]).id == s.messages[k].user_id;
            assert(crate::store::user_row_wf(s.users[t], s.users.len() as int));
        }
    }
}

/// A counter upsert preserves well-formedness and raises the key's count
/// by exactly one, leaving every other key's count unchanged.
proof fn lemma_upsert_msg_s(s: StoreV, cid: int, uid: int, hour: int)
    requires
        s.wf(),
        s.total < u64::MAX,
        crate::store::has_chat_id(s.chats, cid),
        crate::store::has_user_id(s.users, uid),
    ensures
        ({
            let s1 = upsert_msg_s(s, cid, uid, hour);
            &&& s1.wf()
            &&& s1.chats == s.chats
            &&& s1.users == s.users
            &&& s1.total == s.total + 1
            &&& key_count(s1.messages, msg_key(cid, uid, hour)) == key_count(
                s.messages,
                msg_key(cid, uid, hour),
            ) + 1
        }),
{
    let key = msg_key(cid, uid, hour);
    let s1 = upsert_msg_s(s, cid, uid, hour);
    if has_msg_key(s.messages, key) {
        let i = msg_key_index(s.messages, key);
        assert(same_msg_key(s.messages[i], key));
        lemma_msg_total_update(s.messages, i, s1.messages[i]);
        assert forall|a: int, b: int|
            0 <= a < b < s1.messages.len() implies !same_msg_key(
            #[trigger] s1.messages[a],
            #[trigger] s1.messages[b],
        ) by {
            assert(!same_msg_key(s.messages[a], s.messages[b]));
        }
        assert forall|a: int|
            0 <= a < s1.messages.len() implies (#[trigger] s1.messages[a]).count >= 1
            && crate::store::has_chat_id(s1.chats, s1.messages[a].chat_id)
            && crate::store::has_user_id(s1.users, s1.messages[a].user_id) by {
            assert(s.messages[a].count >= 1);
            assert(crate::store::has_chat_id(s.chats, s.messages[a].chat_id));
            assert(crate::store::has_user_id(s.users, s.messages[a].user_id));
        }
        assert(s1.wf());
        assert(same_msg_key(s1.messages[i], key));
        lemma_msg_index_unique(s1, key, i);
    } else {
        lemma_msg_total_push(s.messages, s1.messages.last());
        assert forall|a: int, b: int|
            0 <= a < b < s1.messages.len() implies !same_msg_key(
            #[trigger] s1.messages[a],
            #[trigger] s1.messages[b],
        ) by {
            if b < s1.messages.len() - 1 {
                assert(!same_msg_key(s.messages[a], s.messages[b]));
            } else {
                assert(s1.messages[a] == s.messages[a]);
            }
        }
        assert forall|a: int|
            0 <= a < s1.messages.len() implies (#[trigger] s1.messages[a]).count >= 1
            && crate::store::has_chat_id(s1.chats, s1.messages[a].chat_id)
            && crate::store::has_user_id(s1.users, s1.messages[a].user_id) by {
            if a < s1.messages.len() - 1 {
                assert(s.messages[a].count >= 1);
                assert(crate::store::has_chat_id(s.chats, s.messages[a].chat_id));
                assert(crate::store::has_user_id(s.users, s.messages[a].user_id));
            }
        }
        assert(s1.wf());
        assert(same_msg_key(s1.messages.last(), key));
        lemma_msg_index_unique(s1, key, s1.messages.len() - 1);
    }
}

/// One message event raises its bucket's stored count by exactly one and
/// keeps the store well-formed.
pub proof fn lemma_message_event_step(
    s: StoreV,
    c: ChatInfoV,
    u: UserInfoV,
    ts: int,
    rc: Seq<char>,
    ru: Seq<char>,
)
    requires
        s.wf(),
        !message_blocked(s, c, u),
    ensures
        ({
            let s1 = apply_message_s(s, c, u, ts, rc, ru);
            &&& s1.wf()
            &&& s1.total == s.total + 1
            &&& has_chat_ext(s1.chats, c.ext_id)
            &&& has_user_ext(s1.users, u.ext)
            &&& event_count(s1, c, u, ts) == event_count(s, c, u, ts) + 1
        }),
{
    let (sa, cid) = upsert_chat_s(s, c, rc);
    let (sb, uid) = upsert_user_s(sa, u, ru);
    let hour = crate::spec_hour_of(ts);
    let key = msg_key(cid, uid, hour);
    let s1 = upsert_msg_s(sb, cid, uid, hour);
    lemma_upsert_chat_s(s, c, rc);
    lemma_upsert_user_s(sa, u, ru);
    lemma_upsert_msg_s(sb, cid, uid, hour);
    // the resolved indexes in the final state name the same internal ids
    assert(has_chat_ext(s1.chats, c.ext_id));
    assert(has_user_ext(s1.users, u.ext));
    assert(s1.chats == sa.chats && s1.users == sb.users);
    assert(s1.chats[chat_ext_index(s1.chats, c.ext_id)].id == cid);
    assert(s1.users[user_ext_index(s1.users, u.ext)].id == uid);
    assert(event_count(s1, c, u, ts) == key_count(s1.messages, key));
    // the bucket's count before the event
    if has_chat_ext(s.chats, c.ext_id) && has_user_ext(s.users, u.ext) {
        assert(cid == s.chats[chat_ext_index(s.chats, c.ext_id)].id);
        assert(uid == s.users[user_ext_index(s.users, u.ext)].id);
        assert(event_count(s, c, u, ts) == key_count(s.messages, key));
        assert(sb.messages == s.messages);
    } else {
        assert(event_count(s, c, u, ts) == 0);
        assert(sb.messages == s.messages);
        assert(!has_msg_key(s.messages, key)) by {
            if has_msg_key(s.messages, key) {
                let i = msg_key_index(s.messages, key);
                assert(same_msg_key(s.messages[i], key));
                if !has_chat_ext(s.chats, c.ext_id) {
                    assert(s.messages[i].chat_id != cid);
                } else {
                    assert(!has_user_ext(s.users, u.ext));
                    assert(s.messages[i].user_id != uid);
                }
            }
        }
        assert(key_count(s.messages, key) == 0);
    }
}

/// Repeating one message event accumulates its bucket's count exactly:
/// applying the same normalized event `n` times to a well-formed store
/// with room for them stores `n` more than before, however the run is
/// split across commit batches, since committing never changes counters.
pub open spec fn apply_message_n(
    s: StoreV,
    c: ChatInfoV,
    u: UserInfoV,
    ts: int,
    rcs: Seq<Seq<char>>,
    rus: Seq<Seq<char>>,
    n: nat,
) -> StoreV
    decreases n,
{
    if n == 0 {
        s
    } else {
        apply_message_s(
            apply_message_n(s, c, u, ts, rcs, rus, (n - 1) as nat),
            c,
            u,
            ts,
            rcs[n - 1],
            rus[n - 1],
        )
    }
}

pub proof fn lemma_upsert_accumulates(
    s: StoreV,
    c: ChatInfoV,
    u: UserInfoV,
    ts: int,
    rcs: Seq<Seq<char>>,
    rus: Seq<Seq<char>>,
    n: nat,
)
    requires
        s.wf(),
        n > 0 ==> !message_blocked(s, c, u),
        s.total + n <= u64::MAX,
    ensures
        ({
            let s1 = apply_message_n(s, c, u, ts, rcs, rus, n);
            &&& s1.wf()
            &&& s1.total == s.total + n
            &&& event_count(s1, c, u, ts) == event_count(s, c, u, ts) + n
        }),
    decreases n,
{
    if n > 0 {
        lemma_upsert_accumulates(s, c, u, ts, rcs, rus, (n - 1) as nat);
        let sp = apply_message_n(s, c, u, ts, rcs, rus, (n - 1) as nat);
        if n - 1 > 0 {
            lemma_message_event_step(s, c, u, ts, rcs[0], rus[0]);
            // after the first event both references resolve, so only the
            // running total could block, and there is room
            lemma_accumulate_refs(s, c, u, ts, rcs, rus, (n - 1) as nat);
            assert(!message_blocked(sp, c, u));
        }
        lemma_message_event_step(sp, c, u, ts, rcs[n - 1], rus[n - 1]);
    }
}

/// After at least one event, the chat and the user exist.
proof fn lemma_accumulate_refs(
    s: StoreV,
    c: ChatInfoV,
    u: UserInfoV,
    ts: int,
    rcs: Seq<Seq<char>>,
    rus: Seq<Seq<char>>,
    n: nat,
)
    requires
        s.wf(),
        n > 0,
        !message_blocked(s, c, u),
        s.total + n <= u64::MAX,
    ensures
        ({
            let s1 = apply_message_n(s, c, u, ts, rcs, rus, n);
            has_chat_ext(s1.chats, c.ext_id) && has_user_ext(s1.users, u.ext)
        }),
    decreases n,
{
    let sp = apply_message_n(s, c, u, ts, rcs, rus, (n - 1) as nat);
    if n - 1 > 0 {
        lemma_accumulate_refs(s, c, u, ts, rcs, rus, (n - 1) as nat);
        lemma_upsert_accumulates(s, c, u, ts, rcs, rus, (n - 1) as nat);
        assert(!message_blocked(sp, c, u));
        lemma_message_event_step(sp, c, u, ts, rcs[n - 1], rus[n - 1]);
    } else {
        lemma_message_event_step(s, c, u, ts, rcs[0], rus[0]);
    }
}

/// Counters only grow: a message event never lowers the stored count of
/// any `(chat, user, hour)` key, its own or another's.
pub proof fn lemma_counters_monotone(
    s: StoreV,
    c: ChatInfoV,
    u: UserInfoV,
    ts: int,
    rc: Seq<char>,
    ru: Seq<char>,
    key: MessageRowV,
)
    requires
        s.wf(),
        !message_blocked(s, c, u),
    ensures
        key_count(apply_message_s(s, c, u, ts, rc, ru).messages, key) >= key_count(
            s.messages,
            key,
        ),
{
    let s1 = apply_message_s(s, c, u, ts, rc, ru);
    lemma_message_event_step(s, c, u, ts, rc, ru);
    let (sa, cid) = upsert_chat_s(s, c, rc);
    let (sb, uid) = upsert_user_s(sa, u, ru);
    let hour = crate::spec_hour_of(ts);
    let own = msg_key(cid, uid, hour);
    lemma_upsert_chat_s(s, c, rc);
    lemma_upsert_user_s(sa, u, ru);
    assert(sb.messages == s.messages);
    assert(sb.wf());
    if same_msg_key(key, own) {
        // the event's own key: counts agree with the bucket, which grows
        if has_msg_key(s.messages, key) {
            let i = msg_key_index(s.messages, key);
            assert(same_msg_key(s.messages[i], own));
            lemma_msg_index_unique(sb, own, i);
            assert(has_msg_key(s.messages, own));
            assert(same_msg_key(s1.messages[i], key));
            lemma_msg_index_unique(s1, key, i);
            lemma_msg_index_unique(s1, own, i);
        } else {
            assert(!has_msg_key(s.messages, own)) by {
                if has_msg_key(s.messages, own) {
                    let i = msg_key_index(s.messages, own);
                    assert(same_msg_key(s.messages[i], key));
                    assert(has_msg_key(s.messages, key));
                }
            }
            assert(key_count(s.messages, key) == 0);
        }
        lemma_upsert_msg_s(sb, cid, uid, hour);
        assert(key_count(s1.messages, own) == key_count(s.messages, own) + 1);
        assert(key_count(s1.messages, key) == key_count(s1.messages, own)) by {
            if has_msg_key(s1.messages, key) {
                let i = msg_key_index(s1.messages, key);
                assert(same_msg_key(s1.messages[i], own));
                lemma_msg_index_unique(s1, own, i);
            } else {
                if has_msg_key(s1.messages, own) {
                    let i = msg_key_index(s1.messages, own);
                    assert(same_msg_key(s1.messages[i], key));
                    assert(has_msg_key(s1.messages, key));
                }
            }
        }
        assert(key_count(s.messages, key) == key_count(s.messages, own)) by {
            if has_msg_key(s.messages, key) {
                let i = msg_key_index(s.messages, key);
                assert(same_msg_key(s.messages[i], own));
                lemma_msg_index_unique(sb, own, i);
            }
        }
    } else {
        // any other key: its row, if present, is untouched
        if has_msg_key(s.messages, key) {
            let i = msg_key_index(s.messages, key);
            if has_msg_key(s.messages, own) {
                let j = msg_key_index(s.messages, own);
                assert(i != j);
                assert(s1.messages[i] == s.messages[i]);
            } else {
                assert(s1.messages[i] == s.messages[i]);
            }
            assert(same_msg_key(s1.messages[i], key));
            lemma_msg_index_unique(s1, key, i);
        } else {
            assert(key_count(s.messages, key) == 0);
            lemma_upsert_msg_s(sb, cid, uid, hour);
            assert(key_count(s1.messages, key) >= 0) by {
                if has_msg_key(s1.messages, key) {
                    let i = msg_key_index(s1.messages, key);
                    assert(s1.messages[i].count >= 1);
                }
            }
        }
    }
}


// ---------------------------------------------------------------------------
// Reply accumulation
// ---------------------------------------------------------------------------

/// The stored count of one reply counter key, or 0 if the row does not
/// exist yet.
pub open spec fn reply_count(replies: Seq<ReplyRowV>, key: ReplyRowV) -> int {
    if has_reply_key(replies, key) {
        replies[reply_key_index(replies, key)].count
    } else {
        0
    }
}

/// A reply counter upsert preserves well-formedness and raises the key's
/// count by exactly one.
proof fn lemma_upsert_reply_row_s(s: StoreV, cid: int, fid: int, tid: int)
    requires
        s.wf(),
        s.total_replies < u64::MAX,
    ensures
        ({
            let s1 = upsert_reply_s(s, cid, fid, tid);
            &&& s1.wf()
            &&& s1.total_replies == s.total_replies + 1
            &&& reply_count(s1.replies, reply_key(cid, fid, tid)) == reply_count(
                s.replies,
                reply_key(cid, fid, tid),
            ) + 1
        }),
{
    let key = reply_key(cid, fid, tid);
    let s1 = upsert_reply_s(s, cid, fid, tid);
    if has_reply_key(s.replies, key) {
        let i = reply_key_index(s.replies, key);
        assert(same_reply_key(s.replies[i], key));
        lemma_reply_total_update(s.replies, i, s1.replies[i]);
        assert forall|a: int, b: int|
            0 <= a < b < s1.replies.len() implies !same_reply_key(
            #[trigger] s1.replies[a],
            #[trigger] s1.replies[b],
        ) by {
            assert(!same_reply_key(s.replies[a], s.replies[b]));
        }
        assert forall|a: int|
            0 <= a < s1.replies.len() implies (#[trigger] s1.replies[a]).count >= 1 by {
            assert(s.replies[a].count >= 1);
        }
        assert(s1.wf());
        assert(same_reply_key(s1.replies[i], key));
        lemma_reply_index_unique(s1, key, i);
    } else {
        lemma_reply_total_push(s.replies, s1.replies.last());
        assert forall|a: int, b: int|
            0 <= a < b < s1.replies.len() implies !same_reply_key(
            #[trigger] s1.replies[a],
            #[trigger] s1.replies[b],
        ) by {
            if b < s1.replies.len() - 1 {
                assert(!same_reply_key(s.replies[a], s.replies[b]));
            } else {
                assert(s1.replies[a] == s.replies[a]);
            }
        }
        assert forall|a: int|
            0 <= a < s1.replies.len() implies (#[trigger] s1.replies[a]).count >= 1 by {
            if a < s1.replies.len() - 1 {
                assert(s.replies[a].count >= 1);
            }
        }
        assert(s1.wf());
        assert(same_reply_key(s1.replies.last(), key));
        lemma_reply_index_unique(s1, key, s1.replies.len() - 1);
    }
}

/// One reply event raises its triple's stored count by exactly one and
/// keeps the store well-formed.
pub proof fn lemma_reply_event_step(
    s: StoreV,
    c: ChatInfoV,
    f: UserInfoV,
    t: UserInfoV,
    rc: Seq<char>,
    rf: Seq<char>,
    rt: Seq<char>,
)
    requires
        s.wf(),
        !reply_blocked(s, c, f, t),
    ensures
        ({
            let s1 = apply_reply_s(s, c, f, t, rc, rf, rt);
            &&& s1.wf()
            &&& s1.total_replies == s.total_replies + 1
            &&& s1.messages == s.messages
            &&& s1.total == s.total
        }),
{
    let (sa, cid) = upsert_chat_s(s, c, rc);
    let (sb, fid) = upsert_user_s(sa, f, rf);
    let (sc, tid) = upsert_user_s(sb, t, rt);
    lemma_upsert_chat_s(s, c, rc);
    lemma_upsert_user_s(sa, f, rf);
    {
        if !has_user_ext(sb.users, t.ext) {
            assert forall|k: int| 0 <= k < sa.users.len() implies sa.users[k].ext
                == sb.users[k].ext by {}
            if has_user_ext(sa.users, t.ext) {
                let k = choose|k: int|
                    0 <= k < sa.users.len() && (#[trigger] sa.users[k]).ext == t.ext;
                assert(sb.users[k].ext == t.ext);
                assert(has_user_ext(sb.users, t.ext));
            }
            assert(sb.users.len() <= s.users.len() + 1);
        }
    }
    lemma_upsert_user_s(sb, t, rt);
    lemma_upsert_reply_row_s(sc, cid, fid, tid);
}

// ---------------------------------------------------------------------------
// Gap filling
// ---------------------------------------------------------------------------

/// A day bucket with no matching rows contributes zero messages and zero
/// distinct users, so gap days in a report are filled with exact zeros.
pub proof fn lemma_gap_day_is_zero(
    msgs: Seq<MessageRowV>,
    f: crate::query::FilterV,
    d: int,
)
    requires
        !crate::query::is_active_day(msgs, f, d),
    ensures
        crate::query::sum_where(msgs, crate::query::sum_pred(f, crate::query::SumKeyV::Day(d)))
            == 0,
        crate::query::day_user_set(msgs, f, d).len() == 0,
{
    let p = crate::query::sum_pred(f, crate::query::SumKeyV::Day(d));
    assert forall|t: int| 0 <= t < msgs.len() implies !p(#[trigger] msgs[t]) by {
        if crate::query::row_matches(msgs[t], f) && crate::query::shifted_day(
            msgs[t].hour,
            f.offset,
        ) == d {
            assert(crate::query::is_active_day(msgs, f, d));
        }
    }
    crate::query::lemma_sum_where_zero(msgs, p);
    assert(crate::query::day_user_set(msgs, f, d) =~= Set::<int>::empty()) by {
        assert forall|u: int| !crate::query::day_user_set(msgs, f, d).contains(u) by {
            if crate::query::day_user_set(msgs, f, d).contains(u) {
                let k = choose|k: int|
                    0 <= k < msgs.len() && crate::query::row_matches(#[trigger] msgs[k], f)
                        && crate::query::shifted_day(msgs[k].hour, f.offset) == d
                        && msgs[k].user_id == u;
                assert(crate::query::is_active_day(msgs, f, d));
            }
        }
    }
}

// ---------------------------------------------------------------------------
// Resume idempotence
// ---------------------------------------------------------------------------

/// Replaying an unchanged log after a completed run is a no-op: when the
/// committed offset already stands at (or past) the end of the stream,
/// there are no lines to process, so any replay chain over them connects
/// equal states.
pub proof fn lemma_resume_is_noop<T: LogProcessor>(
    data: Seq<u8>,
    cp: Option<int>,
    a: T::Model,
    b: T::Model,
)
    requires
        cp matches Some(o) && o >= data.len(),
        replay_chain::<T>(line_seq(data.skip(seek_pos(start_of(cp), data.len() as int))), a, b),
    ensures
        a == b,
{
    assert(seek_pos(start_of(cp), data.len() as int) == data.len() as int);
    assert(data.skip(data.len() as int).len() == 0);
    assert(line_seq(data.skip(data.len() as int)) == Seq::<Seq<u8>>::empty());
}

// ---------------------------------------------------------------------------
// Crash safety
// ---------------------------------------------------------------------------

/// A failed run over fewer lines than one batch leaves the committed state
/// and the committed offset exactly as they were: no intermediate commit
/// can have happened, so the replayer's failure contract collapses to its
/// first case.
pub proof fn lemma_short_run_crash_safe<T: LogProcessor>(
    data: Seq<u8>,
    cp0: Option<int>,
    a: T::Model,
    b: T::Model,
    b_off: Option<int>,
)
    requires
        line_seq(data.skip(seek_pos(start_of(cp0), data.len() as int))).len() < BATCH_LINES,
        ({
            let start = start_of(cp0);
            let tail = data.skip(seek_pos(start, data.len() as int));
            let lines = line_seq(tail);
            ||| (b == a && b_off == cp0)
            ||| (exists|n: nat|
                1 <= n && n % (BATCH_LINES as nat) == 0 && n <= lines.len() && replay_chain::<T>(
                    lines.take(n as int),
                    a,
                    b,
                ) && b_off == Some(start + crate::process_log::bytes_used(tail, n)))
        }),
    ensures
        b == a,
        b_off == cp0,
{
    let start = start_of(cp0);
    let tail = data.skip(seek_pos(start, data.len() as int));
    let lines = line_seq(tail);
    if !(b == a && b_off == cp0) {
        let n = choose|n: nat|
            1 <= n && n % (BATCH_LINES as nat) == 0 && n <= lines.len() && replay_chain::<T>(
                lines.take(n as int),
                a,
                b,
            ) && b_off == Some(start + crate::process_log::bytes_used(tail, n));
        assert(n >= BATCH_LINES) by {
            if n < BATCH_LINES {
                assert(n % (BATCH_LINES as nat) == n);
            }
        }
        assert(false);
    }
}

} // verus!
