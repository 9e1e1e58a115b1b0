//! The query engine: validation, reference resolution, and time-bucketed
//! aggregation of the message counters under a timezone offset and an
//! optional weekday filter, with gap-filling of empty day buckets.

use vstd::prelude::*;

use crate::store::{msg_total, opt_int, ChatRowV, MessageRow, MessageRowV, Store, StoreV, UserRowV};

verus! {

/// Smallest day bucket a query range may name.
pub const MIN_QUERY_DAY: i64 = 17000;

/// Largest day-range width a query may name.
pub const MAX_QUERY_SPAN: i64 = 1000;

/// Largest gap-filled day span served for a query without a date range.
pub const MAX_OPEN_SPAN: i64 = 1000000;

/// Alignment of day buckets to weekdays: day 0 of the epoch was a Thursday,
/// which is weekday 3 when Monday is weekday 0.
pub const WEEKDAY_OF_DAY_ZERO: i64 = 3;

// ---------------------------------------------------------------------------
// Errors
// ---------------------------------------------------------------------------

/// Why a query was refused.
#[derive(Clone, Copy, PartialEq, Eq, Structural, Debug)]
pub enum QueryError {
    InvalidOffset,
    InvalidDates,
    InvalidWeekday,
    ChatNotFound,
    UserNotFound,
    Internal,
}

impl QueryError {
    /// The status class of this error: bad parameters, an unresolved
    /// reference, or an internal limit.
    pub fn status(&self) -> (s: u16)
        ensures
            (self is InvalidOffset || self is InvalidDates || self is InvalidWeekday) ==> s == 400,
            (self is ChatNotFound || self is UserNotFound) ==> s == 404,
            self is Internal ==> s == 500,
    {
        match self {
            QueryError::InvalidOffset => 400,
            QueryError::InvalidDates => 400,
            QueryError::InvalidWeekday => 400,
            QueryError::ChatNotFound => 404,
            QueryError::UserNotFound => 404,
            QueryError::Internal => 500,
        }
    }

    /// The response body for this error.
    pub fn body(&self) -> (b: &'static str)
        ensures
            self is InvalidOffset ==> b@ == "{\"error\":\"invalid offset\"}"@,
            self is InvalidDates ==> b@ == "{\"error\":\"invalid dates\"}"@,
            self is InvalidWeekday ==> b@ == "{\"error\":\"invalid weekday\"}"@,
            self is ChatNotFound ==> b@ == "{\"error\":\"chat not found\"}"@,
            self is UserNotFound ==> b@ == "{\"error\":\"user not found\"}"@,
            self is Internal ==> b@ == "{\"error\":\"internal error\"}"@,
    {
        match self {
            QueryError::InvalidOffset => "{\"error\":\"invalid offset\"}",
            QueryError::InvalidDates => "{\"error\":\"invalid dates\"}",
            QueryError::InvalidWeekday => "{\"error\":\"invalid weekday\"}",
            QueryError::ChatNotFound => "{\"error\":\"chat not found\"}",
            QueryError::UserNotFound => "{\"error\":\"user not found\"}",
            QueryError::Internal => "{\"error\":\"internal error\"}",
        }
    }
}

/// Which parameter validation refuses, if any; the offset is checked
/// first, then the weekday, then the date range.
pub open spec fn validation_of(
    dates: Option<(int, int)>,
    offset: int,
    weekday: Option<int>,
) -> Option<QueryError> {
    if !(-12 <= offset <= 12) {
        Some(QueryError::InvalidOffset)
    } else if weekday matches Some(w) && w >= 7 {
        Some(QueryError::InvalidWeekday)
    } else if dates matches Some((f, t)) && (f < MIN_QUERY_DAY || t < MIN_QUERY_DAY || t - f
        > MAX_QUERY_SPAN) {
        Some(QueryError::InvalidDates)
    } else {
        None
    }
}

// ---------------------------------------------------------------------------
// Bucket arithmetic
// ---------------------------------------------------------------------------

/// Calendar day of an absolute hour under the requested offset.
pub open spec fn shifted_day(hour: int, offset: int) -> int {
    (hour + offset) / 24
}

/// Hour-of-day bucket of an absolute hour under the requested offset.
pub open spec fn hour_bucket(hour: int, offset: int) -> int {
    (hour + offset) % 24
}

/// Weekday of a day bucket, Monday first.
pub open spec fn weekday_of_day(day: int) -> int {
    (day + WEEKDAY_OF_DAY_ZERO) % 7
}

/// Flooring division of a wide offset-shifted hour by 24.
fn div_floor24(a: i128) -> (q: i128)
    requires
        -0x8000_0000_0000_0000_0000 <= a <= 0x8000_0000_0000_0000_0000,
    ensures
        q == a as int / 24,
{
    let t = a / 24;
    if a % 24 != 0 && a < 0 {
        t - 1
    } else {
        t
    }
}

/// Flooring remainder of a wide offset-shifted hour by 24.
fn mod_floor24(a: i128) -> (r: i128)
    requires
        -0x8000_0000_0000_0000_0000 <= a <= 0x8000_0000_0000_0000_0000,
    ensures
        r == a as int % 24,
{
    let t = a % 24;
    if t < 0 {
        t + 24
    } else {
        t
    }
}

/// Flooring remainder of a wide day number by 7.
fn mod_floor7(a: i128) -> (r: i128)
    requires
        -0x8000_0000_0000_0000_0000 <= a <= 0x8000_0000_0000_0000_0000,
    ensures
        r == a as int % 7,
{
    let t = a % 7;
    if t < 0 {
        t + 7
    } else {
        t
    }
}

/// Computes `shifted_day` for an absolute hour held in an `i64`.
fn shifted_day_x(hour: i64, offset: i64) -> (d: i64)
    requires
        -12 <= offset <= 12,
    ensures
        d == shifted_day(hour as int, offset as int),
{
    let s: i128 = hour as i128 + offset as i128;
    let q = div_floor24(s);
    q as i64
}

/// Computes `hour_bucket` for an absolute hour held in an `i64`.
fn hour_bucket_x(hour: i64, offset: i64) -> (b: i64)
    requires
        -12 <= offset <= 12,
    ensures
        b == hour_bucket(hour as int, offset as int),
        0 <= b < 24,
{
    let s: i128 = hour as i128 + offset as i128;
    let r = mod_floor24(s);
    r as i64
}

/// Computes `weekday_of_day` for a day bucket held in an `i64`.
fn weekday_of_day_x(day: i64) -> (w: i64)
    ensures
        w == weekday_of_day(day as int),
        0 <= w < 7,
{
    let s: i128 = day as i128 + WEEKDAY_OF_DAY_ZERO as i128;
    let r = mod_floor7(s);
    r as i64
}

// ---------------------------------------------------------------------------
// The row filter
// ---------------------------------------------------------------------------

/// The conjunctive predicate every aggregation is scoped by: the resolved
/// chat, optionally the resolved user, optionally an absolute-hour window,
/// optionally a weekday.
pub struct Filter {
    pub chat_id: i64,
    pub user_id: Option<i64>,
    pub hours: Option<(i128, i128)>,
    pub weekday: Option<i64>,
    pub offset: i64,
}

#[verifier::ext_equal]
pub ghost struct FilterV {
    pub chat_id: int,
    pub user_id: Option<int>,
    pub hours: Option<(int, int)>,
    pub weekday: Option<int>,
    pub offset: int,
}

impl View for Filter {
    type V = FilterV;

    open spec fn view(&self) -> FilterV {
        FilterV {
            chat_id: self.chat_id as int,
            user_id: match self.user_id {
                Some(u) => Some(u as int),
                None => None,
            },
            hours: match self.hours {
                Some((a, b)) => Some((a as int, b as int)),
                None => None,
            },
            weekday: match self.weekday {
                Some(w) => Some(w as int),
                None => None,
            },
            offset: self.offset as int,
        }
    }
}

pub open spec fn row_matches(r: MessageRowV, f: FilterV) -> bool {
    &&& r.chat_id == f.chat_id
    &&& match f.user_id {
        Some(u) => r.user_id == u,
        None => true,
    }
    &&& match f.hours {
        Some((a, b)) => a <= r.hour <= b,
        None => true,
    }
    &&& match f.weekday {
        Some(w) => weekday_of_day(shifted_day(r.hour, f.offset)) == w,
        None => true,
    }
}

fn row_matches_x(r: &MessageRow, f: &Filter) -> (m: bool)
    requires
        -12 <= f.offset <= 12,
    ensures
        m == row_matches(r@, f@),
{
    if r.chat_id != f.chat_id {
        return false;
    }
    match &f.user_id {
        Some(u) => {
            if r.user_id != *u {
                return false;
            }
        },
        None => {},
    }
    match &f.hours {
        Some((a, b)) => {
            let h = r.hour as i128;
            if !(*a <= h && h <= *b) {
                return false;
            }
        },
        None => {},
    }
    match &f.weekday {
        Some(w) => {
            let d = shifted_day_x(r.hour, f.offset);
            let wd = weekday_of_day_x(d);
            if wd != *w {
                return false;
            }
        },
        None => {},
    }
    true
}


// ---------------------------------------------------------------------------
// Sums over filtered rows
// ---------------------------------------------------------------------------

/// Sum of the counts of the rows a predicate selects.
pub open spec fn sum_where(msgs: Seq<MessageRowV>, p: spec_fn(MessageRowV) -> bool) -> int
    decreases msgs.len(),
{
    if msgs.len() == 0 {
        0
    } else {
        sum_where(msgs.drop_last(), p) + if p(msgs.last()) {
            msgs.last().count
        } else {
            0
        }
    }
}

pub proof fn lemma_sum_where_le_total(msgs: Seq<MessageRowV>, p: spec_fn(MessageRowV) -> bool)
    requires
        forall|k: int| 0 <= k < msgs.len() ==> (#[trigger] msgs[k]).count >= 0,
    ensures
        0 <= sum_where(msgs, p) <= msg_total(msgs),
    decreases msgs.len(),
{
    if msgs.len() > 0 {
        lemma_sum_where_le_total(msgs.drop_last(), p);
    }
}

pub proof fn lemma_msg_total_take_le(msgs: Seq<MessageRowV>, k: int)
    requires
        forall|t: int| 0 <= t < msgs.len() ==> (#[trigger] msgs[t]).count >= 0,
        0 <= k <= msgs.len(),
    ensures
        msg_total(msgs.take(k)) <= msg_total(msgs),
    decreases msgs.len() - k,
{
    if k == msgs.len() {
        assert(msgs.take(k) =~= msgs);
    } else {
        lemma_msg_total_take_le(msgs, k + 1);
        assert(msgs.take(k + 1).drop_last() =~= msgs.take(k));
        assert(msgs.take(k + 1).last() == msgs[k]);
    }
}

/// Total message count over the rows a predicate selects, computed by one
/// pass; the running sum stays within the store's running total.
fn sum_where_x(store: &Store, f: &Filter, p: SumKey) -> (n: u64)
    requires
        store.wf(),
        -12 <= f.offset <= 12,
    ensures
        n == sum_where(store@.messages, sum_pred(f@, p@)),
{
    let ghost msgs = store@.messages;
    let ghost pred = sum_pred(f@, p@);
    let mut acc: u64 = 0;
    let mut i: usize = 0;
    while i < store.messages.len()
        invariant
            store.wf(),
            -12 <= f.offset <= 12,
            msgs == store@.messages,
            pred == sum_pred(f@, p@),
            i <= store.messages.len(),
            acc as int == sum_where(msgs.take(i as int), pred),
        decreases store.messages.len() - i,
    {
        proof {
            assert(msgs.take(i + 1).drop_last() =~= msgs.take(i as int));
            assert(msgs.take(i + 1).last() == msgs[i as int]);
            lemma_sum_where_le_total(msgs.take(i + 1), pred);
            lemma_msg_total_take_le(msgs, i + 1);
        }
        let row = &store.messages[i];
        if row_matches_x(row, f) && sum_key_hit(row, f, &p) {
            acc = acc + row.count;
        }
        i = i + 1;
    }
    proof {
        assert(msgs.take(msgs.len() as int) =~= msgs);
    }
    acc
}

/// What a sum is grouped by: everything the filter admits, one shifted
/// day, one hour-of-day bucket, one weekday bucket, or one user.
pub enum SumKey {
    All,
    Day(i64),
    Hour(i64),
    Weekday(i64),
    User(i64),
}

#[verifier::ext_equal]
pub ghost enum SumKeyV {
    All,
    Day(int),
    Hour(int),
    Weekday(int),
    User(int),
}

impl View for SumKey {
    type V = SumKeyV;

    open spec fn view(&self) -> SumKeyV {
        match self {
            SumKey::All => SumKeyV::All,
            SumKey::Day(d) => SumKeyV::Day(*d as int),
            SumKey::Hour(h) => SumKeyV::Hour(*h as int),
            SumKey::Weekday(w) => SumKeyV::Weekday(*w as int),
            SumKey::User(u) => SumKeyV::User(*u as int),
        }
    }
}

/// The predicate of one grouped sum: the filter plus the group key.
pub open spec fn sum_pred(f: FilterV, k: SumKeyV) -> spec_fn(MessageRowV) -> bool {
    |r: MessageRowV|
        row_matches(r, f) && match k {
            SumKeyV::All => true,
            SumKeyV::Day(d) => shifted_day(r.hour, f.offset) == d,
            SumKeyV::Hour(h) => hour_bucket(r.hour, f.offset) == h,
            SumKeyV::Weekday(w) => weekday_of_day(shifted_day(r.hour, f.offset)) == w,
            SumKeyV::User(u) => r.user_id == u,
        }
}

fn sum_key_hit(r: &MessageRow, f: &Filter, k: &SumKey) -> (m: bool)
    requires
        -12 <= f.offset <= 12,
    ensures
        m == match k@ {
            SumKeyV::All => true,
            SumKeyV::Day(d) => shifted_day(r@.hour, f@.offset) == d,
            SumKeyV::Hour(h) => hour_bucket(r@.hour, f@.offset) == h,
            SumKeyV::Weekday(w) => weekday_of_day(shifted_day(r@.hour, f@.offset)) == w,
            SumKeyV::User(u) => r@.user_id == u,
        },
{
    match k {
        SumKey::All => true,
        SumKey::Day(d) => shifted_day_x(r.hour, f.offset) == *d,
        SumKey::Hour(h) => hour_bucket_x(r.hour, f.offset) == *h,
        SumKey::Weekday(w) => weekday_of_day_x(shifted_day_x(r.hour, f.offset)) == *w,
        SumKey::User(u) => r.user_id == *u,
    }
}

// ---------------------------------------------------------------------------
// Distinct users per day
// ---------------------------------------------------------------------------

/// The set of users with at least one counted message on the given
/// shifted day, within the filter's scope.
pub open spec fn day_user_set(msgs: Seq<MessageRowV>, f: FilterV, d: int) -> Set<int> {
    Set::new(
        |u: int|
            exists|k: int|
                0 <= k < msgs.len() && row_matches(#[trigger] msgs[k], f) && shifted_day(
                    msgs[k].hour,
                    f.offset,
                ) == d && msgs[k].user_id == u,
    )
}

/// Every id in `seen` belongs to some matching row on day `d`.
pub open spec fn seen_sound(msgs: Seq<MessageRowV>, f: FilterV, d: int, seen: Seq<i64>) -> bool {
    forall|t: int|
        0 <= t < seen.len() ==> exists|k: int|
            0 <= k < msgs.len() && row_matches(#[trigger] msgs[k], f) && shifted_day(
                msgs[k].hour,
                f.offset,
            ) == d && msgs[k].user_id == (#[trigger] seen[t]) as int
}

/// Every matching row among the first `upto` has its user in `seen`.
pub open spec fn seen_complete(
    msgs: Seq<MessageRowV>,
    f: FilterV,
    d: int,
    seen: Seq<i64>,
    upto: int,
) -> bool {
    forall|k: int|
        0 <= k < upto && row_matches(#[trigger] msgs[k], f) && shifted_day(msgs[k].hour, f.offset)
            == d ==> exists|t: int|
            0 <= t < seen.len() && (#[trigger] seen[t]) as int == msgs[k].user_id
}

/// Number of distinct users active on the given shifted day.
#[verifier::rlimit(50)]
fn count_day_users(store: &Store, f: &Filter, d: i64) -> (n: u64)
    requires
        store.wf(),
        -12 <= f.offset <= 12,
    ensures
        n == day_user_set(store@.messages, f@, d as int).len(),
        day_user_set(store@.messages, f@, d as int).finite(),
{
    let ghost msgs = store@.messages;
    let ghost dv = d as int;
    let mut seen: Vec<i64> = Vec::new();
    let mut i: usize = 0;
    while i < store.messages.len()
        invariant
            store.wf(),
            -12 <= f.offset <= 12,
            msgs == store@.messages,
            dv == d as int,
            i <= store.messages.len(),
            seen@.no_duplicates(),
            seen_sound(msgs, f@, dv, seen@),
            seen_complete(msgs, f@, dv, seen@, i as int),
        decreases store.messages.len() - i,
    {
        let ghost seen0 = seen@;
        let row = &store.messages[i];
        let is_hit = row_matches_x(row, f) && shifted_day_x(row.hour, f.offset) == d;
        proof {
            assert(is_hit == (row_matches(msgs[i as int], f@) && shifted_day(
                msgs[i as int].hour,
                f@.offset,
            ) == dv));
        }
        if is_hit {
            let mut present = false;
            let mut j: usize = 0;
            while j < seen.len()
                invariant
                    j <= seen.len(),
                    present <==> exists|t: int| 0 <= t < j && (#[trigger] seen@[t]) == row.user_id,
                decreases seen.len() - j,
            {
                if seen[j] == row.user_id {
                    present = true;
                }
                j = j + 1;
            }
            if !present {
                seen.push(row.user_id);
                proof {
                    assert(forall|t: int| 0 <= t < seen0.len() ==> seen0[t] != row.user_id);
                    assert(forall|t: int| 0 <= t < seen0.len() ==> seen@[t] == seen0[t]);
                    assert(seen@[seen0.len() as int] == row.user_id);
                    assert(seen@.no_duplicates());
                    assert(seen_sound(msgs, f@, dv, seen@)) by {
                        assert forall|t: int| 0 <= t < seen@.len() implies exists|k: int|
                            0 <= k < msgs.len() && row_matches(#[trigger] msgs[k], f@)
                                && shifted_day(msgs[k].hour, f@.offset) == dv && msgs[k].user_id
                                == (#[trigger] seen@[t]) as int by {
                            if t < seen0.len() {
                                assert(seen_sound(msgs, f@, dv, seen0));
                                assert(exists|k: int|
                                    0 <= k < msgs.len() && row_matches(#[trigger] msgs[k], f@)
                                        && shifted_day(msgs[k].hour, f@.offset) == dv
                                        && msgs[k].user_id == (seen0[t]) as int);
                                let k = choose|k: int|
                                    0 <= k < msgs.len() && row_matches(#[trigger] msgs[k], f@)
                                        && shifted_day(msgs[k].hour, f@.offset) == dv
                                        && msgs[k].user_id == (seen0[t]) as int;
                                assert(row_matches(msgs[k], f@) && shifted_day(
                                    msgs[k].hour,
                                    f@.offset,
                                ) == dv && msgs[k].user_id == seen@[t] as int);
                            } else {
                                assert(row_matches(msgs[i as int], f@) && shifted_day(
                                    msgs[i as int].hour,
                                    f@.offset,
                                ) == dv && msgs[i as int].user_id == seen@[t] as int);
                            }
                        }
                    }
                    assert(seen_complete(msgs, f@, dv, seen@, i + 1)) by {
                        assert forall|k: int|
                            0 <= k < i + 1 && row_matches(#[trigger] msgs[k], f@) && shifted_day(
                                msgs[k].hour,
                                f@.offset,
                            ) == dv implies exists|t: int|
                            0 <= t < seen@.len() && (#[trigger] seen@[t]) as int
                                == msgs[k].user_id by {
                            if k < i {
                                assert(seen_complete(msgs, f@, dv, seen0, i as int));
                                let t = choose|t: int|
                                    0 <= t < seen0.len() && (#[trigger] seen0[t]) as int
                                        == msgs[k].user_id;
                                assert(seen@[t] as int == msgs[k].user_id);
                            } else {
                                assert(seen@[seen0.len() as int] as int == msgs[k].user_id);
                            }
                        }
                    }
                }
            } else {
                proof {
                    let t0 = choose|t: int|
                        0 <= t < seen@.len() && (#[trigger] seen@[t]) == row.user_id;
                    assert(seen_complete(msgs, f@, dv, seen@, i + 1)) by {
                        assert forall|k: int|
                            0 <= k < i + 1 && row_matches(#[trigger] msgs[k], f@) && shifted_day(
                                msgs[k].hour,
                                f@.offset,
                            ) == dv implies exists|t: int|
                            0 <= t < seen@.len() && (#[trigger] seen@[t]) as int
                                == msgs[k].user_id by {
                            if k == i {
                                assert(seen@[t0] as int == msgs[k].user_id);
                            } else {
                                assert(seen_complete(msgs, f@, dv, seen0, i as int));
                            }
                        }
                    }
                }
            }
        } else {
            proof {
                assert(seen_complete(msgs, f@, dv, seen@, i + 1)) by {
                    assert forall|k: int|
                        0 <= k < i + 1 && row_matches(#[trigger] msgs[k], f@) && shifted_day(
                            msgs[k].hour,
                            f@.offset,
                        ) == dv implies exists|t: int|
                        0 <= t < seen@.len() && (#[trigger] seen@[t]) as int
                            == msgs[k].user_id by {
                        assert(seen_complete(msgs, f@, dv, seen0, i as int));
                        assert(k < i);
                    }
                }
            }
        }
        i = i + 1;
    }
    let n = seen.len() as u64;
    proof {
        broadcast use vstd::seq_lib::seq_to_set_is_finite;

        let svals = seen@.map_values(|x: i64| x as int);
        let target = day_user_set(msgs, f@, dv);
        assert(svals.len() == seen@.len());
        assert(svals.no_duplicates()) by {
            assert(forall|t1: int, t2: int|
                0 <= t1 < t2 < seen@.len() ==> seen@[t1] != seen@[t2]);
            assert(forall|t: int| 0 <= t < svals.len() ==> svals[t] == (#[trigger] seen@[t]) as int);
        }
        assert(svals.to_set() =~= target) by {
            assert forall|u: int| svals.to_set().contains(u) implies target.contains(u) by {
                let t = choose|t: int| 0 <= t < svals.len() && svals[t] == u;
                assert(seen@[t] as int == u);
                assert(seen_sound(msgs, f@, dv, seen@));
                let k = choose|k: int|
                    0 <= k < msgs.len() && row_matches(#[trigger] msgs[k], f@) && shifted_day(
                        msgs[k].hour,
                        f@.offset,
                    ) == dv && msgs[k].user_id == (seen@[t]) as int;
                assert(row_matches(msgs[k], f@) && shifted_day(msgs[k].hour, f@.offset) == dv
                    && msgs[k].user_id == u);
            }
            assert forall|u: int| target.contains(u) implies svals.to_set().contains(u) by {
                let k = choose|k: int|
                    0 <= k < msgs.len() && row_matches(#[trigger] msgs[k], f@) && shifted_day(
                        msgs[k].hour,
                        f@.offset,
                    ) == dv && msgs[k].user_id == u;
                assert(seen_complete(msgs, f@, dv, seen@, msgs.len() as int));
                let t = choose|t: int|
                    0 <= t < seen@.len() && (#[trigger] seen@[t]) as int == msgs[k].user_id;
                assert(svals[t] == u);
                assert(svals.contains(u));
            }
        }
        svals.unique_seq_to_set();
    }
    n
}


// ---------------------------------------------------------------------------
// Reference resolution
// ---------------------------------------------------------------------------

/// A chat reference names a chat by its alias or by its public random id.
pub open spec fn chat_ref_matches(c: ChatRowV, q: Seq<char>) -> bool {
    c.alias == Some(q) || c.rnd_id == q
}

/// A user reference names a user by its public random id.
pub open spec fn user_ref_matches(u: UserRowV, q: Seq<char>) -> bool {
    u.rnd_id == q
}

/// Resolves a chat reference to the first matching row's internal id and
/// display name.
pub fn search_chat(store: &Store, q: &str) -> (r: Option<(i64, String)>)
    ensures
        match r {
            Some((id, name)) => exists|i: int|
                0 <= i < store@.chats.len() && chat_ref_matches(#[trigger] store@.chats[i], q@) && (
                forall|j: int| 0 <= j < i ==> !chat_ref_matches(#[trigger] store@.chats[j], q@))
                    && id as int == store@.chats[i].id && name@ == store@.chats[i].name,
            None => forall|i: int|
                0 <= i < store@.chats.len() ==> !chat_ref_matches(#[trigger] store@.chats[i], q@),
        },
{
    let key = q.to_owned();
    let mut i: usize = 0;
    while i < store.chats.len()
        invariant
            i <= store.chats.len(),
            key@ == q@,
            forall|j: int| 0 <= j < i ==> !chat_ref_matches(#[trigger] store@.chats[j], q@),
        decreases store.chats.len() - i,
    {
        let row = &store.chats[i];
        let alias_hit = match &row.alias {
            Some(a) => *a == key,
            None => false,
        };
        let hit = alias_hit || row.rnd_id == key;
        if hit {
            proof {
                assert(chat_ref_matches(store@.chats[i as int], q@));
            }
            return Some((row.id, row.name.clone()));
        }
        i = i + 1;
    }
    None
}

/// Resolves a user reference to the first matching row's internal id.
pub fn search_user(store: &Store, q: &str) -> (r: Option<i64>)
    ensures
        match r {
            Some(id) => exists|i: int|
                0 <= i < store@.users.len() && user_ref_matches(#[trigger] store@.users[i], q@) && (
                forall|j: int| 0 <= j < i ==> !user_ref_matches(#[trigger] store@.users[j], q@))
                    && id as int == store@.users[i].id,
            None => forall|i: int|
                0 <= i < store@.users.len() ==> !user_ref_matches(#[trigger] store@.users[i], q@),
        },
{
    let key = q.to_owned();
    let mut i: usize = 0;
    while i < store.users.len()
        invariant
            i <= store.users.len(),
            key@ == q@,
            forall|j: int| 0 <= j < i ==> !user_ref_matches(#[trigger] store@.users[j], q@),
        decreases store.users.len() - i,
    {
        let row = &store.users[i];
        if row.rnd_id == key {
            proof {
                assert(user_ref_matches(store@.users[i as int], q@));
            }
            return Some(row.id);
        }
        i = i + 1;
    }
    None
}

// ---------------------------------------------------------------------------
// Day ranges
// ---------------------------------------------------------------------------

/// Some matching row falls on the shifted day `d`.
pub open spec fn is_active_day(msgs: Seq<MessageRowV>, f: FilterV, d: int) -> bool {
    exists|k: int|
        0 <= k < msgs.len() && row_matches(#[trigger] msgs[k], f) && shifted_day(
            msgs[k].hour,
            f.offset,
        ) == d
}

/// The smallest and largest shifted day with a matching row, if any.
fn active_day_range(store: &Store, f: &Filter) -> (r: Option<(i64, i64)>)
    requires
        store.wf(),
        -12 <= f.offset <= 12,
    ensures
        match r {
            Some((lo, hi)) => is_active_day(store@.messages, f@, lo as int) && is_active_day(
                store@.messages,
                f@,
                hi as int,
            ) && forall|d: int|
                is_active_day(store@.messages, f@, d) ==> lo as int <= d <= hi as int,
            None => forall|d: int| !is_active_day(store@.messages, f@, d),
        },
{
    let ghost msgs = store@.messages;
    let mut acc: Option<(i64, i64)> = None;
    let mut i: usize = 0;
    while i < store.messages.len()
        invariant
            store.wf(),
            -12 <= f.offset <= 12,
            msgs == store@.messages,
            i <= store.messages.len(),
            match acc {
                Some((lo, hi)) => {
                    &&& exists|k: int|
                        0 <= k < i && row_matches(#[trigger] msgs[k], f@) && shifted_day(
                            msgs[k].hour,
                            f@.offset,
                        ) == lo as int
                    &&& exists|k: int|
                        0 <= k < i && row_matches(#[trigger] msgs[k], f@) && shifted_day(
                            msgs[k].hour,
                            f@.offset,
                        ) == hi as int
                    &&& forall|k: int|
                        0 <= k < i && row_matches(#[trigger] msgs[k], f@) ==> lo as int
                            <= shifted_day(msgs[k].hour, f@.offset) <= hi as int
                },
                None => forall|k: int| 0 <= k < i ==> !row_matches(#[trigger] msgs[k], f@),
            },
        decreases store.messages.len() - i,
    {
        let ghost acc0 = acc;
        let row = &store.messages[i];
        if row_matches_x(row, f) {
            let d = shifted_day_x(row.hour, f.offset);
            proof {
                assert(row_matches(msgs[i as int], f@) && shifted_day(
                    msgs[i as int].hour,
                    f@.offset,
                ) == d as int);
            }
            acc = match acc {
                None => Some((d, d)),
                Some((lo, hi)) => {
                    let nlo = if d < lo {
                        d
                    } else {
                        lo
                    };
                    let nhi = if d > hi {
                        d
                    } else {
                        hi
                    };
                    Some((nlo, nhi))
                },
            };
        }
        proof {
            match acc0 {
                Some((lo0, hi0)) => {
                    let kl = choose|k: int|
                        0 <= k < i && row_matches(#[trigger] msgs[k], f@) && shifted_day(
                            msgs[k].hour,
                            f@.offset,
                        ) == lo0 as int;
                    let kh = choose|k: int|
                        0 <= k < i && row_matches(#[trigger] msgs[k], f@) && shifted_day(
                            msgs[k].hour,
                            f@.offset,
                        ) == hi0 as int;
                    assert(0 <= kl < i + 1 && row_matches(msgs[kl], f@) && shifted_day(
                        msgs[kl].hour,
                        f@.offset,
                    ) == lo0 as int);
                    assert(0 <= kh < i + 1 && row_matches(msgs[kh], f@) && shifted_day(
                        msgs[kh].hour,
                        f@.offset,
                    ) == hi0 as int);
                },
                None => {},
            }
        }
        i = i + 1;
    }
    proof {
        if acc is Some {
            assert forall|d: int| is_active_day(msgs, f@, d) implies acc->Some_0.0 as int <= d
                <= acc->Some_0.1 as int by {
                let k = choose|k: int|
                    0 <= k < msgs.len() && row_matches(#[trigger] msgs[k], f@) && shifted_day(
                        msgs[k].hour,
                        f@.offset,
                    ) == d;
            }
        } else {
            assert forall|d: int| !is_active_day(msgs, f@, d) by {
                if is_active_day(msgs, f@, d) {
                    let k = choose|k: int|
                        0 <= k < msgs.len() && row_matches(#[trigger] msgs[k], f@) && shifted_day(
                            msgs[k].hour,
                            f@.offset,
                        ) == d;
                }
            }
        }
    }
    acc
}

/// The smallest and largest absolute hour stored for a chat, independent
/// of any filter, or `(0, 0)` for a chat with no messages.
fn hour_range(store: &Store, chat_id: i64) -> (r: (i64, i64))
    ensures
        (exists|k: int|
            0 <= k < store@.messages.len() && (#[trigger] store@.messages[k]).chat_id
                == chat_id as int) ==> {
            &&& exists|k: int|
                0 <= k < store@.messages.len() && (#[trigger] store@.messages[k]).chat_id
                    == chat_id as int && store@.messages[k].hour == r.0 as int
            &&& exists|k: int|
                0 <= k < store@.messages.len() && (#[trigger] store@.messages[k]).chat_id
                    == chat_id as int && store@.messages[k].hour == r.1 as int
            &&& forall|k: int|
                0 <= k < store@.messages.len() && (#[trigger] store@.messages[k]).chat_id
                    == chat_id as int ==> r.0 as int <= store@.messages[k].hour <= r.1 as int
        },
        (forall|k: int|
            0 <= k < store@.messages.len() ==> (#[trigger] store@.messages[k]).chat_id
                != chat_id as int) ==> r == (0i64, 0i64),
{
    let ghost msgs = store@.messages;
    let mut acc: Option<(i64, i64)> = None;
    let mut i: usize = 0;
    while i < store.messages.len()
        invariant
            msgs == store@.messages,
            i <= store.messages.len(),
            match acc {
                Some((lo, hi)) => {
                    &&& exists|k: int|
                        0 <= k < i && (#[trigger] msgs[k]).chat_id == chat_id as int
                            && msgs[k].hour == lo as int
                    &&& exists|k: int|
                        0 <= k < i && (#[trigger] msgs[k]).chat_id == chat_id as int
                            && msgs[k].hour == hi as int
                    &&& forall|k: int|
                        0 <= k < i && (#[trigger] msgs[k]).chat_id == chat_id as int ==> lo as int
                            <= msgs[k].hour <= hi as int
                },
                None => forall|k: int|
                    0 <= k < i ==> (#[trigger] msgs[k]).chat_id != chat_id as int,
            },
        decreases store.messages.len() - i,
    {
        let ghost acc0 = acc;
        let row = &store.messages[i];
        if row.chat_id == chat_id {
            let h = row.hour;
            proof {
                assert(msgs[i as int].chat_id == chat_id as int && msgs[i as int].hour == h as int);
            }
            acc = match acc {
                None => Some((h, h)),
                Some((lo, hi)) => {
                    let nlo = if h < lo {
                        h
                    } else {
                        lo
                    };
                    let nhi = if h > hi {
                        h
                    } else {
                        hi
                    };
                    Some((nlo, nhi))
                },
            };
        }
        proof {
            match acc0 {
                Some((lo0, hi0)) => {
                    let kl = choose|k: int|
                        0 <= k < i && (#[trigger] msgs[k]).chat_id == chat_id as int
                            && msgs[k].hour == lo0 as int;
                    let kh = choose|k: int|
                        0 <= k < i && (#[trigger] msgs[k]).chat_id == chat_id as int
                            && msgs[k].hour == hi0 as int;
                    assert(0 <= kl < i + 1 && msgs[kl].chat_id == chat_id as int && msgs[kl].hour
                        == lo0 as int);
                    assert(0 <= kh < i + 1 && msgs[kh].chat_id == chat_id as int && msgs[kh].hour
                        == hi0 as int);
                },
                None => {},
            }
        }
        i = i + 1;
    }
    match acc {
        Some((lo, hi)) => (lo, hi),
        None => (0, 0),
    }
}

/// The gap-filled day buckets of one report: every `step`-th day from
/// `start` through `to`.
pub open spec fn day_list(start: int, to: int, step: int) -> Seq<int> {
    if start > to {
        Seq::empty()
    } else {
        Seq::new((((to - start) / step) + 1) as nat, |k: int| start + step * k)
    }
}



// ---------------------------------------------------------------------------
// The leaderboard
// ---------------------------------------------------------------------------

/// Total message count of one user within the filter's scope.
pub open spec fn user_total(msgs: Seq<MessageRowV>, f: FilterV, u: int) -> int {
    sum_where(msgs, sum_pred(f, SumKeyV::User(u)))
}

/// The set of users with at least one matching row.
pub open spec fn active_user_set(msgs: Seq<MessageRowV>, f: FilterV) -> Set<int> {
    Set::new(
        |u: int|
            exists|k: int|
                0 <= k < msgs.len() && row_matches(#[trigger] msgs[k], f) && msgs[k].user_id == u,
    )
}

pub open spec fn pairs_distinct(s: Seq<(i64, u64)>) -> bool {
    forall|a: int, b: int| 0 <= a < b < s.len() ==> (#[trigger] s[a]).0 != (#[trigger] s[b]).0
}

pub open spec fn groups_sound(
    msgs: Seq<MessageRowV>,
    f: FilterV,
    g: Seq<(i64, u64)>,
    upto: int,
) -> bool {
    forall|t: int|
        0 <= t < g.len() ==> (#[trigger] g[t]).1 as int == user_total(
            msgs.take(upto),
            f,
            g[t].0 as int,
        ) && exists|k: int|
            0 <= k < upto && row_matches(#[trigger] msgs[k], f) && msgs[k].user_id == g[t].0 as int
}

pub open spec fn groups_complete(
    msgs: Seq<MessageRowV>,
    f: FilterV,
    g: Seq<(i64, u64)>,
    upto: int,
) -> bool {
    forall|k: int|
        0 <= k < upto && row_matches(#[trigger] msgs[k], f) ==> exists|t: int|
            0 <= t < g.len() && (#[trigger] g[t]).0 as int == msgs[k].user_id
}

pub proof fn lemma_sum_where_zero(msgs: Seq<MessageRowV>, p: spec_fn(MessageRowV) -> bool)
    requires
        forall|t: int| 0 <= t < msgs.len() ==> !p(#[trigger] msgs[t]),
    ensures
        sum_where(msgs, p) == 0,
    decreases msgs.len(),
{
    if msgs.len() > 0 {
        lemma_sum_where_zero(msgs.drop_last(), p);
    }
}

/// Per-user totals over the filtered rows, one entry per active user.
#[verifier::rlimit(100)]
fn collect_user_totals(store: &Store, f: &Filter) -> (g: Vec<(i64, u64)>)
    requires
        store.wf(),
        -12 <= f.offset <= 12,
    ensures
        pairs_distinct(g@),
        groups_sound(store@.messages, f@, g@, store@.messages.len() as int),
        groups_complete(store@.messages, f@, g@, store@.messages.len() as int),
{
    let ghost msgs = store@.messages;
    let mut g: Vec<(i64, u64)> = Vec::new();
    let mut i: usize = 0;
    while i < store.messages.len()
        invariant
            store.wf(),
            -12 <= f.offset <= 12,
            msgs == store@.messages,
            i <= store.messages.len(),
            pairs_distinct(g@),
            groups_sound(msgs, f@, g@, i as int),
            groups_complete(msgs, f@, g@, i as int),
        decreases store.messages.len() - i,
    {
        let ghost g0 = g@;
        let row = &store.messages[i];
        let is_hit = row_matches_x(row, f);
        proof {
            assert(is_hit == row_matches(msgs[i as int], f@));
            assert forall|u: int|
                user_total(msgs.take(i + 1), f@, u) == user_total(msgs.take(i as int), f@, u) + (
                if row_matches(msgs[i as int], f@) && msgs[i as int].user_id == u {
                    msgs[i as int].count
                } else {
                    0
                }) by {
                assert(msgs.take(i + 1).drop_last() =~= msgs.take(i as int));
                assert(msgs.take(i + 1).last() == msgs[i as int]);
            }
        }
        if is_hit {
            let uid = row.user_id;
            let mut found: Option<usize> = None;
            let mut j: usize = 0;
            while j < g.len()
                invariant
                    j <= g.len(),
                    match found {
                        Some(t) => t < j <= g@.len() && g@[t as int].0 == uid,
                        None => forall|t: int| 0 <= t < j ==> (#[trigger] g@[t]).0 != uid,
                    },
                decreases g.len() - j,
            {
                if g[j].0 == uid {
                    found = Some(j);
                }
                j = j + 1;
            }
            match found {
                Some(t) => {
                    proof {
                        lemma_sum_where_le_total(
                            msgs.take(i + 1),
                            sum_pred(f@, SumKeyV::User(uid as int)),
                        );
                        lemma_msg_total_take_le(msgs, i + 1);
                    }
                    let cnt = g[t].1;
                    g.set(t, (uid, cnt + row.count));
                    proof {
                        assert(pairs_distinct(g@)) by {
                            assert(forall|a: int|
                                0 <= a < g@.len() ==> (#[trigger] g@[a]).0 == g0[a].0);
                        }
                        assert(groups_sound(msgs, f@, g@, i + 1)) by {
                            assert forall|t2: int|
                                0 <= t2 < g@.len() implies (#[trigger] g@[t2]).1 as int
                                == user_total(msgs.take(i + 1), f@, g@[t2].0 as int) && exists|
                                k: int,
                            |
                                0 <= k < i + 1 && row_matches(#[trigger] msgs[k], f@)
                                    && msgs[k].user_id == g@[t2].0 as int by {
                                if t2 != t as int {
                                    assert(g@[t2] == g0[t2]);
                                    assert(g0[t2].0 != uid);
                                }
                                let k0 = choose|k: int|
                                    0 <= k < i && row_matches(#[trigger] msgs[k], f@)
                                        && msgs[k].user_id == g0[t2].0 as int;
                                assert(0 <= k0 < i + 1 && row_matches(msgs[k0], f@)
                                    && msgs[k0].user_id == g@[t2].0 as int);
                            }
                        }
                        assert(groups_complete(msgs, f@, g@, i + 1)) by {
                            assert forall|k: int|
                                0 <= k < i + 1 && row_matches(#[trigger] msgs[k], f@) implies exists|
                                t2: int,
                            |
                                0 <= t2 < g@.len() && (#[trigger] g@[t2]).0 as int
                                    == msgs[k].user_id by {
                                if k < i {
                                    let t2 = choose|t2: int|
                                        0 <= t2 < g0.len() && (#[trigger] g0[t2]).0 as int
                                            == msgs[k].user_id;
                                    assert(g@[t2].0 as int == msgs[k].user_id);
                                } else {
                                    assert(g@[t as int].0 as int == msgs[k].user_id);
                                }
                            }
                        }
                    }
                },
                None => {
                    proof {
                        lemma_sum_where_le_total(
                            msgs.take(i + 1),
                            sum_pred(f@, SumKeyV::User(uid as int)),
                        );
                        lemma_msg_total_take_le(msgs, i + 1);
                        assert(user_total(msgs.take(i as int), f@, uid as int) == 0) by {
                            assert forall|t2: int|
                                0 <= t2 < msgs.take(i as int).len() implies !(sum_pred(
                                f@,
                                SumKeyV::User(uid as int),
                            )(msgs.take(i as int)[t2])) by {
                                if row_matches(msgs[t2], f@) && msgs[t2].user_id == uid as int {
                                    let t3 = choose|t3: int|
                                        0 <= t3 < g0.len() && (#[trigger] g0[t3]).0 as int
                                            == msgs[t2].user_id;
                                }
                            }
                            lemma_sum_where_zero(
                                msgs.take(i as int),
                                sum_pred(f@, SumKeyV::User(uid as int)),
                            );
                        }
                    }
                    g.push((uid, row.count));
                    proof {
                        assert(forall|a: int| 0 <= a < g0.len() ==> g@[a] == g0[a]);
                        assert(g@[g0.len() as int].0 == uid);
                        assert(pairs_distinct(g@));
                        assert(groups_sound(msgs, f@, g@, i + 1)) by {
                            assert forall|t2: int|
                                0 <= t2 < g@.len() implies (#[trigger] g@[t2]).1 as int
                                == user_total(msgs.take(i + 1), f@, g@[t2].0 as int) && exists|
                                k: int,
                            |
                                0 <= k < i + 1 && row_matches(#[trigger] msgs[k], f@)
                                    && msgs[k].user_id == g@[t2].0 as int by {
                                if t2 < g0.len() {
                                    assert(g0[t2].0 != uid);
                                    let k0 = choose|k: int|
                                        0 <= k < i && row_matches(#[trigger] msgs[k], f@)
                                            && msgs[k].user_id == g0[t2].0 as int;
                                    assert(0 <= k0 < i + 1 && row_matches(msgs[k0], f@)
                                        && msgs[k0].user_id == g@[t2].0 as int);
                                } else {
                                    assert(0 <= i < i + 1 && row_matches(msgs[i as int], f@)
                                        && msgs[i as int].user_id == g@[t2].0 as int);
                                }
                            }
                        }
                        assert(groups_complete(msgs, f@, g@, i + 1)) by {
                            assert forall|k: int|
                                0 <= k < i + 1 && row_matches(#[trigger] msgs[k], f@) implies exists|
                                t2: int,
                            |
                                0 <= t2 < g@.len() && (#[trigger] g@[t2]).0 as int
                                    == msgs[k].user_id by {
                                if k < i {
                                    let t2 = choose|t2: int|
                                        0 <= t2 < g0.len() && (#[trigger] g0[t2]).0 as int
                                            == msgs[k].user_id;
                                    assert(g@[t2].0 as int == msgs[k].user_id);
                                } else {
                                    assert(g@[g0.len() as int].0 as int == msgs[k].user_id);
                                }
                            }
                        }
                    }
                },
            }
        } else {
            proof {
                assert(groups_sound(msgs, f@, g@, i + 1)) by {
                    assert forall|t2: int|
                        0 <= t2 < g@.len() implies (#[trigger] g@[t2]).1 as int == user_total(
                        msgs.take(i + 1),
                        f@,
                        g@[t2].0 as int,
                    ) && exists|k: int|
                        0 <= k < i + 1 && row_matches(#[trigger] msgs[k], f@) && msgs[k].user_id
                            == g@[t2].0 as int by {
                        let k0 = choose|k: int|
                            0 <= k < i && row_matches(#[trigger] msgs[k], f@) && msgs[k].user_id
                                == g@[t2].0 as int;
                        assert(0 <= k0 < i + 1 && row_matches(msgs[k0], f@) && msgs[k0].user_id
                            == g@[t2].0 as int);
                    }
                }
                assert(groups_complete(msgs, f@, g@, i + 1)) by {
                    assert forall|k: int|
                        0 <= k < i + 1 && row_matches(#[trigger] msgs[k], f@) implies exists|
                        t2: int,
                    |
                        0 <= t2 < g@.len() && (#[trigger] g@[t2]).0 as int == msgs[k].user_id by {
                        assert(k < i);
                    }
                }
            }
        }
        i = i + 1;
    }
    proof {
        assert(msgs.take(msgs.len() as int) =~= msgs);
    }
    g
}



pub proof fn lemma_remove_facts(s: Seq<(i64, u64)>, i: int)
    requires
        0 <= i < s.len(),
    ensures
        s.remove(i).len() == s.len() - 1,
        forall|j: int| 0 <= j < i ==> #[trigger] s.remove(i)[j] == s[j],
        forall|j: int| i <= j < s.len() - 1 ==> #[trigger] s.remove(i)[j] == s[j + 1],
{
    s.remove_ensures(i);
}

/// Orders per-user totals by count, largest first; ties keep no promised
/// order.  The same entries come out that went in.
#[verifier::rlimit(100)]
fn sort_desc(src: Vec<(i64, u64)>) -> (out: Vec<(i64, u64)>)
    requires
        pairs_distinct(src@),
    ensures
        out@.len() == src@.len(),
        pairs_distinct(out@),
        forall|a: int, b: int|
            0 <= a < b < out@.len() ==> (#[trigger] out@[a]).1 >= (#[trigger] out@[b]).1,
        forall|x: (i64, u64)| out@.contains(x) <==> src@.contains(x),
{
    let ghost orig = src@;
    let mut rest = src;
    let mut out: Vec<(i64, u64)> = Vec::new();
    while rest.len() > 0
        invariant
            pairs_distinct(out@),
            pairs_distinct(rest@),
            out@.len() + rest@.len() == orig.len(),
            forall|a: int, b: int|
                0 <= a < out@.len() && 0 <= b < rest@.len() ==> (#[trigger] out@[a]).0 != (
                #[trigger] rest@[b]).0,
            forall|a: int, b: int|
                0 <= a < b < out@.len() ==> (#[trigger] out@[a]).1 >= (#[trigger] out@[b]).1,
            forall|a: int, b: int|
                0 <= a < out@.len() && 0 <= b < rest@.len() ==> (#[trigger] out@[a]).1 >= (
                #[trigger] rest@[b]).1,
            forall|x: (i64, u64)|
                #[trigger] orig.contains(x) <==> out@.contains(x) || rest@.contains(x),
        decreases rest.len(),
    {
        let mut m: usize = 0;
        let mut j: usize = 1;
        while j < rest.len()
            invariant
                rest@.len() > 0,
                m < j <= rest@.len() || (j <= rest@.len() && m == 0),
                m < rest@.len(),
                forall|t: int| 0 <= t < j ==> (#[trigger] rest@[t]).1 <= rest@[m as int].1,
            decreases rest.len() - j,
        {
            if rest[j].1 > rest[m].1 {
                m = j;
            }
            j = j + 1;
        }
        let ghost rest0 = rest@;
        let ghost out0 = out@;
        let item = rest.remove(m);
        out.push(item);
        proof {
            lemma_remove_facts(rest0, m as int);
            assert(item == rest0[m as int]);
            assert(forall|a: int| 0 <= a < out0.len() ==> out@[a] == out0[a]);
            assert(out@[out0.len() as int] == item);
            // every rest entry is some old rest entry other than the removed one
            assert forall|b: int| 0 <= b < rest@.len() implies exists|b0: int|
                0 <= b0 < rest0.len() && b0 != m as int && rest0[b0] == #[trigger] rest@[b] by {
                if b < m as int {
                    assert(rest0[b] == rest@[b]);
                } else {
                    assert(rest0[b + 1] == rest@[b]);
                }
            }
            assert(pairs_distinct(rest@)) by {
                assert forall|a: int, b: int|
                    0 <= a < b < rest@.len() implies (#[trigger] rest@[a]).0 != (
                #[trigger] rest@[b]).0 by {
                    if b < m as int {
                    } else if a < m as int {
                        assert(rest@[a] == rest0[a] && rest@[b] == rest0[b + 1]);
                    } else {
                        assert(rest@[a] == rest0[a + 1] && rest@[b] == rest0[b + 1]);
                    }
                }
            }
            assert forall|x: (i64, u64)|
                #[trigger] orig.contains(x) <==> out@.contains(x) || rest@.contains(x) by {
                if orig.contains(x) {
                    assert(out0.contains(x) || rest0.contains(x));
                    if out0.contains(x) {
                        let a = choose|a: int| 0 <= a < out0.len() && out0[a] == x;
                        assert(out@[a] == x);
                    } else {
                        let b0 = choose|b0: int| 0 <= b0 < rest0.len() && rest0[b0] == x;
                        if b0 == m as int {
                            assert(out@[out0.len() as int] == x);
                        } else if b0 < m as int {
                            assert(rest@[b0] == x);
                        } else {
                            assert(rest@[b0 - 1] == x);
                        }
                    }
                }
                if out@.contains(x) {
                    let a = choose|a: int| 0 <= a < out@.len() && out@[a] == x;
                    if a < out0.len() {
                        assert(out0.contains(x));
                    } else {
                        assert(rest0.contains(x));
                    }
                }
                if rest@.contains(x) {
                    let b = choose|b: int| 0 <= b < rest@.len() && rest@[b] == x;
                    let b0 = choose|b0: int|
                        0 <= b0 < rest0.len() && b0 != m as int && rest0[b0] == rest@[b];
                    assert(rest0.contains(x));
                }
            }
        }
    }
    proof {
        assert forall|x: (i64, u64)| out@.contains(x) <==> orig.contains(x) by {}
    }
    out
}



// ---------------------------------------------------------------------------
// The query result
// ---------------------------------------------------------------------------

/// One report: the resolved chat's display name, its stored hour range,
/// the gap-filled daily series, the hour and weekday histograms, and the
/// per-user leaderboard.
#[derive(Debug)]
pub struct QueryResult {
    pub title: String,
    pub hours: (i64, i64),
    pub start_day: i64,
    pub skip_day: i64,
    pub daily_users: Vec<u64>,
    pub daily_messages: Vec<u64>,
    pub messages_by_hour: [u64; 24],
    pub messages_by_weekday: [u64; 7],
    pub user_ids: Vec<String>,
    pub user_names: Vec<String>,
    pub messages_by_user: Vec<u64>,
}

pub open spec fn opt_dates_v(d: Option<(i64, i64)>) -> Option<(int, int)> {
    match d {
        Some((a, b)) => Some((a as int, b as int)),
        None => None,
    }
}

pub open spec fn opt_weekday_v(w: Option<u8>) -> Option<int> {
    match w {
        Some(x) => Some(x as int),
        None => None,
    }
}

pub open spec fn user_ref_v(u: Option<&str>) -> Option<Seq<char>> {
    match u {
        Some(q) => Some(q@),
        None => None,
    }
}

/// The filter a request denotes once its references are resolved.
pub open spec fn filter_of(
    chat_id: int,
    user_id: Option<int>,
    dates: Option<(int, int)>,
    offset: int,
    weekday: Option<int>,
) -> FilterV {
    FilterV {
        chat_id: chat_id,
        user_id: user_id,
        hours: match dates {
            Some((from, to)) => Some((from * 24 - offset, to * 24 - offset + 23)),
            None => None,
        },
        weekday: weekday,
        offset: offset,
    }
}

/// Distance between emitted day buckets: seven under a weekday filter.
pub open spec fn skip_of(weekday: Option<int>) -> int {
    if weekday is Some {
        7
    } else {
        1
    }
}

/// First day of a dated report: the range's first day, advanced to the
/// first day matching the weekday filter if one is active.
pub open spec fn start0_of(from: int, weekday: Option<int>) -> int {
    match weekday {
        None => from,
        Some(w) => from + (w + 4 - from) % 7,
    }
}

/// `lo` and `hi` bound the days that carry matching rows.
pub open spec fn bounds_ok(msgs: Seq<MessageRowV>, f: FilterV, lo: int, hi: int) -> bool {
    &&& is_active_day(msgs, f, lo)
    &&& is_active_day(msgs, f, hi)
    &&& forall|d: int| is_active_day(msgs, f, d) ==> lo <= d <= hi
}

/// The daily series of the report cover exactly the given day buckets.
pub open spec fn daily_ok(s: StoreV, f: FilterV, days: Seq<int>, res: QueryResult) -> bool {
    daily_series_ok(s, f, days, res.daily_users@, res.daily_messages@)
}

/// The leaderboard lists every active user exactly once, ordered by
/// message count descending, with its public id and display name.
pub open spec fn leaderboard_ok(
    s: StoreV,
    f: FilterV,
    uids: Seq<int>,
    ids: Seq<Seq<char>>,
    names: Seq<Seq<char>>,
    counts: Seq<u64>,
) -> bool {
    &&& uids.no_duplicates()
    &&& uids.to_set() == active_user_set(s.messages, f)
    &&& forall|a: int, b: int|
        0 <= a < b < uids.len() ==> user_total(s.messages, f, #[trigger] uids[a]) >= user_total(
            s.messages,
            f,
            #[trigger] uids[b],
        )
    &&& ids.len() == uids.len()
    &&& names.len() == uids.len()
    &&& counts.len() == uids.len()
    &&& forall|t: int|
        0 <= t < uids.len() ==> (#[trigger] counts[t]) as int == user_total(s.messages, f, uids[t])
    &&& forall|t: int|
        0 <= t < uids.len() ==> exists|j: int|
            0 <= j < s.users.len() && (#[trigger] s.users[j]).id == (#[trigger] uids[t]) && ids[t]
                == s.users[j].rnd_id && names[t] == s.users[j].name
}

/// The stored hour range reported for the chat.
pub open spec fn hours_ok(msgs: Seq<MessageRowV>, chat_id: int, hours: (i64, i64)) -> bool {
    if exists|k: int| 0 <= k < msgs.len() && (#[trigger] msgs[k]).chat_id == chat_id {
        &&& exists|k: int|
            0 <= k < msgs.len() && (#[trigger] msgs[k]).chat_id == chat_id && msgs[k].hour
                == hours.0 as int
        &&& exists|k: int|
            0 <= k < msgs.len() && (#[trigger] msgs[k]).chat_id == chat_id && msgs[k].hour
                == hours.1 as int
        &&& forall|k: int|
            0 <= k < msgs.len() && (#[trigger] msgs[k]).chat_id == chat_id ==> hours.0 as int
                <= msgs[k].hour <= hours.1 as int
    } else {
        hours == (0i64, 0i64)
    }
}

/// Everything the report promises once the filter is fixed.
pub open spec fn ok_fields(
    s: StoreV,
    f: FilterV,
    dates: Option<(int, int)>,
    res: QueryResult,
) -> bool {
    let skip = skip_of(f.weekday);
    &&& res.skip_day as int == skip
    &&& match dates {
        Some((from, to)) => {
            let start0 = start0_of(from, f.weekday);
            &&& res.start_day as int == (if f.weekday is None {
                from
            } else if start0 <= i64::MAX {
                start0
            } else {
                0
            })
            &&& daily_ok(s, f, day_list(start0, to, skip), res)
        },
        None => {
            ||| ((forall|d: int| !is_active_day(s.messages, f, d)) && res.start_day == 0
                && res.daily_users@ == Seq::<u64>::empty() && res.daily_messages@
                == Seq::<u64>::empty())
            ||| (exists|lo: int, hi: int|
                bounds_ok(s.messages, f, lo, hi) && hi - lo <= MAX_OPEN_SPAN && res.start_day as int
                    == lo && daily_ok(s, f, day_list(lo, hi, skip), res))
        },
    }
    &&& forall|b: int|
        0 <= b < 24 ==> (#[trigger] res.messages_by_hour@[b]) as int == sum_where(
            s.messages,
            sum_pred(f, SumKeyV::Hour(b)),
        )
    &&& forall|b: int|
        0 <= b < 7 ==> (#[trigger] res.messages_by_weekday@[b]) as int == sum_where(
            s.messages,
            sum_pred(f, SumKeyV::Weekday(b)),
        )
    &&& exists|uids: Seq<int>|
        #[trigger] leaderboard_ok(
            s,
            f,
            uids,
            seq_views(res.user_ids@),
            seq_views(res.user_names@),
            res.messages_by_user@,
        )
}

/// The character sequences of a sequence of strings.
pub open spec fn seq_views(s: Seq<String>) -> Seq<Seq<char>> {
    s.map_values(|x: String| x@)
}

// ---------------------------------------------------------------------------
// Builders
// ---------------------------------------------------------------------------

/// Fills the two daily series over the day buckets from `start` through
/// `to_day`, stepping by `step`.
fn build_daily(store: &Store, f: &Filter, start: i64, to_day: i64, step: i64) -> (r: (
    Vec<u64>,
    Vec<u64>,
))
    requires
        store.wf(),
        -12 <= f.offset <= 12,
        step == 1 || step == 7,
        start <= to_day ==> to_day - start <= MAX_OPEN_SPAN,
    ensures
        daily_series_ok(store@, f@, day_list(start as int, to_day as int, step as int), r.0@, r.1@),
{
    let ghost days = day_list(start as int, to_day as int, step as int);
    let mut users_out: Vec<u64> = Vec::new();
    let mut msgs_out: Vec<u64> = Vec::new();
    if start > to_day {
        proof {
            assert(users_out@ =~= days.map_values(
                |d: int| day_user_set(store@.messages, f@, d).len() as u64,
            ));
            assert(msgs_out@ =~= days.map_values(
                |d: int| sum_where(store@.messages, sum_pred(f@, SumKeyV::Day(d))) as u64,
            ));
        }
        return (users_out, msgs_out);
    }
    let n64: i64 = (to_day - start) / step + 1;
    let n: usize = n64 as usize;
    proof {
        assert(n as int == days.len());
    }
    let mut k: usize = 0;
    while k < n
        invariant
            store.wf(),
            -12 <= f.offset <= 12,
            step == 1 || step == 7,
            start <= to_day,
            to_day - start <= MAX_OPEN_SPAN,
            n as int == days.len(),
            days == day_list(start as int, to_day as int, step as int),
            k <= n,
            users_out@.len() == k,
            msgs_out@.len() == k,
            forall|t: int|
                0 <= t < k ==> (#[trigger] users_out@[t]) as int == day_user_set(
                    store@.messages,
                    f@,
                    days[t],
                ).len(),
            forall|t: int|
                0 <= t < k ==> (#[trigger] msgs_out@[t]) as int == sum_where(
                    store@.messages,
                    sum_pred(f@, SumKeyV::Day(days[t])),
                ),
        decreases n - k,
    {
        proof {
            let stepv = step as int;
            let span = to_day as int - start as int;
            assert(stepv * (k as int) <= stepv * (span / stepv)) by (nonlinear_arith)
                requires
                    0 <= k as int <= span / stepv,
                    stepv == 1 || stepv == 7,
            ;
            assert(stepv * (span / stepv) <= span) by (nonlinear_arith)
                requires
                    stepv == 1 || stepv == 7,
                    0 <= span,
            ;
        }
        let d: i64 = start + step * (k as i64);
        proof {
            assert(d as int == days[k as int]);
        }
        let du = count_day_users(store, f, d);
        let dm = sum_where_x(store, f, SumKey::Day(d));
        users_out.push(du);
        msgs_out.push(dm);
        k = k + 1;
    }
    proof {
        assert(users_out@ =~= days.map_values(
            |d: int| day_user_set(store@.messages, f@, d).len() as u64,
        ));
        assert(msgs_out@ =~= days.map_values(
            |d: int| sum_where(store@.messages, sum_pred(f@, SumKeyV::Day(d))) as u64,
        ));
    }
    (users_out, msgs_out)
}

/// The two daily series match the day buckets.
pub open spec fn daily_series_ok(
    s: StoreV,
    f: FilterV,
    days: Seq<int>,
    users_out: Seq<u64>,
    msgs_out: Seq<u64>,
) -> bool {
    &&& users_out == days.map_values(|d: int| day_user_set(s.messages, f, d).len() as u64)
    &&& msgs_out == days.map_values(|d: int| sum_where(s.messages, sum_pred(f, SumKeyV::Day(d))) as u64)
}

/// Total counts per hour-of-day bucket.
fn build_hour_histogram(store: &Store, f: &Filter) -> (a: [u64; 24])
    requires
        store.wf(),
        -12 <= f.offset <= 12,
    ensures
        forall|b: int|
            0 <= b < 24 ==> (#[trigger] a@[b]) as int == sum_where(
                store@.messages,
                sum_pred(f@, SumKeyV::Hour(b)),
            ),
{
    let mut a: [u64; 24] = [0; 24];
    let mut b: usize = 0;
    while b < 24
        invariant
            store.wf(),
            -12 <= f.offset <= 12,
            b <= 24,
            forall|t: int|
                0 <= t < b ==> (#[trigger] a@[t]) as int == sum_where(
                    store@.messages,
                    sum_pred(f@, SumKeyV::Hour(t)),
                ),
        decreases 24 - b,
    {
        a[b] = sum_where_x(store, f, SumKey::Hour(b as i64));
        b = b + 1;
    }
    a
}

/// Total counts per weekday bucket.
fn build_weekday_histogram(store: &Store, f: &Filter) -> (a: [u64; 7])
    requires
        store.wf(),
        -12 <= f.offset <= 12,
    ensures
        forall|b: int|
            0 <= b < 7 ==> (#[trigger] a@[b]) as int == sum_where(
                store@.messages,
                sum_pred(f@, SumKeyV::Weekday(b)),
            ),
{
    let mut a: [u64; 7] = [0; 7];
    let mut b: usize = 0;
    while b < 7
        invariant
            store.wf(),
            -12 <= f.offset <= 12,
            b <= 7,
            forall|t: int|
                0 <= t < b ==> (#[trigger] a@[t]) as int == sum_where(
                    store@.messages,
                    sum_pred(f@, SumKeyV::Weekday(t)),
                ),
        decreases 7 - b,
    {
        a[b] = sum_where_x(store, f, SumKey::Weekday(b as i64));
        b = b + 1;
    }
    a
}



fn find_user_row(store: &Store, uid: i64) -> (r: Option<usize>)
    ensures
        match r {
            Some(j) => j < store@.users.len() && store@.users[j as int].id == uid as int,
            None => !crate::store::has_user_id(store@.users, uid as int),
        },
{
    let mut j: usize = 0;
    while j < store.users.len()
        invariant
            j <= store.users.len(),
            forall|t: int| 0 <= t < j ==> (#[trigger] store@.users[t]).id != uid as int,
        decreases store.users.len() - j,
    {
        if store.users[j].id == uid {
            return Some(j);
        }
        j = j + 1;
    }
    None
}

/// The leaderboard: per-user totals in descending order, with each user's
/// public id and display name.
#[verifier::rlimit(100)]
fn build_leaderboard(store: &Store, f: &Filter) -> (r: (Vec<String>, Vec<String>, Vec<u64>))
    requires
        store.wf(),
        -12 <= f.offset <= 12,
    ensures
        exists|uids: Seq<int>|
            #[trigger] leaderboard_ok(
                store@,
                f@,
                uids,
                seq_views(r.0@),
                seq_views(r.1@),
                r.2@,
            ),
{
    let ghost msgs = store@.messages;
    let g = collect_user_totals(store, f);
    let s = sort_desc(g);
    let ghost gv = g@;
    let ghost sv = s@;
    let mut ids: Vec<String> = Vec::new();
    let mut names: Vec<String> = Vec::new();
    let mut counts: Vec<u64> = Vec::new();
    let mut t: usize = 0;
    while t < s.len()
        invariant
            store.wf(),
            msgs == store@.messages,
            sv == s@,
            t <= s@.len(),
            ids@.len() == t,
            names@.len() == t,
            counts@.len() == t,
            forall|a: int| 0 <= a < t ==> (#[trigger] counts@[a]) == sv[a].1,
            forall|a: int|
                0 <= a < t ==> exists|j: int|
                    0 <= j < store@.users.len() && (#[trigger] store@.users[j]).id == (
                    #[trigger] sv[a]).0 as int && ids@[a]@ == store@.users[j].rnd_id && names@[a]@
                        == store@.users[j].name,
            forall|x: (i64, u64)| #[trigger] sv.contains(x) ==> gv.contains(x),
            groups_sound(msgs, f@, gv, msgs.len() as int),
        decreases s.len() - t,
    {
        let uid = s[t].0;
        proof {
            assert(sv.contains(sv[t as int]));
            let t0 = choose|t0: int| 0 <= t0 < gv.len() && gv[t0] == sv[t as int];
            let k = choose|k: int|
                0 <= k < msgs.len() && row_matches(#[trigger] msgs[k], f@) && msgs[k].user_id
                    == gv[t0].0 as int;
            assert(crate::store::has_user_id(store@.users, uid as int)) by {
                assert(msgs[k].user_id == uid as int);
            }
        }
        match find_user_row(store, uid) {
            Some(j) => {
                let ghost ids0 = ids@;
                let ghost names0 = names@;
                ids.push(store.users[j].rnd_id.clone());
                names.push(store.users[j].name.clone());
                counts.push(s[t].1);
                proof {
                    assert(forall|a: int| 0 <= a < t ==> #[trigger] ids@[a] == ids0[a]);
                    assert(forall|a: int| 0 <= a < t ==> #[trigger] names@[a] == names0[a]);
                    assert(ids@[t as int]@ == store@.users[j as int].rnd_id);
                    assert(names@[t as int]@ == store@.users[j as int].name);
                    assert forall|a: int|
                        0 <= a < t + 1 implies exists|j2: int|
                        0 <= j2 < store@.users.len() && (#[trigger] store@.users[j2]).id
                            == (#[trigger] sv[a]).0 as int && ids@[a]@ == store@.users[j2].rnd_id
                            && names@[a]@ == store@.users[j2].name by {
                        if a < t as int {
                            let j2 = choose|j2: int|
                                0 <= j2 < store@.users.len() && (#[trigger] store@.users[j2]).id
                                    == sv[a].0 as int && ids0[a]@ == store@.users[j2].rnd_id
                                    && names0[a]@ == store@.users[j2].name;
                            assert(0 <= j2 < store@.users.len() && store@.users[j2].id
                                == sv[a].0 as int && ids@[a]@ == store@.users[j2].rnd_id
                                && names@[a]@ == store@.users[j2].name);
                        } else {
                            assert(0 <= (j as int) < store@.users.len() && store@.users[j as int].id
                                == sv[a].0 as int && ids@[a]@ == store@.users[j as int].rnd_id
                                && names@[a]@ == store@.users[j as int].name);
                        }
                    }
                }
            },
            None => {
                proof {
                    assert(false);
                }
            },
        }
        t = t + 1;
    }
    let r = (ids, names, counts);
    proof {
        let uids = sv.map_values(|p: (i64, u64)| p.0 as int);
        assert(uids.len() == sv.len());
        assert(forall|a: int| 0 <= a < sv.len() ==> #[trigger] uids[a] == (#[trigger] sv[a]).0 as int);
        assert(uids.no_duplicates()) by {
            assert(pairs_distinct(sv));
        }
        // each listed entry carries its user's exact total
        assert forall|a: int| 0 <= a < sv.len() implies (#[trigger] sv[a]).1 as int == user_total(
            msgs,
            f@,
            uids[a],
        ) by {
            assert(sv.contains(sv[a]));
            assert(gv.contains(sv[a]));
            let t0 = choose|t0: int| 0 <= t0 < gv.len() && gv[t0] == sv[a];
            assert(groups_sound(msgs, f@, gv, msgs.len() as int));
            assert(gv[t0].1 as int == user_total(msgs.take(msgs.len() as int), f@, gv[t0].0 as int));
            assert(msgs.take(msgs.len() as int) =~= msgs);
        }
        assert(uids.to_set() =~= active_user_set(msgs, f@)) by {
            assert forall|u: int| uids.to_set().contains(u) implies active_user_set(
                msgs,
                f@,
            ).contains(u) by {
                let a = choose|a: int| 0 <= a < uids.len() && uids[a] == u;
                assert(sv.contains(sv[a]));
                assert(gv.contains(sv[a]));
                let t0 = choose|t0: int| 0 <= t0 < gv.len() && gv[t0] == sv[a];
                assert(groups_sound(msgs, f@, gv, msgs.len() as int));
                let k = choose|k: int|
                    0 <= k < msgs.len() && row_matches(#[trigger] msgs[k], f@) && msgs[k].user_id
                        == gv[t0].0 as int;
                assert(row_matches(msgs[k], f@) && msgs[k].user_id == u);
            }
            assert forall|u: int| active_user_set(msgs, f@).contains(u) implies uids.to_set()
                .contains(u) by {
                let k = choose|k: int|
                    0 <= k < msgs.len() && row_matches(#[trigger] msgs[k], f@) && msgs[k].user_id
                        == u;
                assert(groups_complete(msgs, f@, gv, msgs.len() as int));
                let t0 = choose|t0: int|
                    0 <= t0 < gv.len() && (#[trigger] gv[t0]).0 as int == msgs[k].user_id;
                assert(gv.contains(gv[t0]));
                assert(sv.contains(gv[t0]));
                let a = choose|a: int| 0 <= a < sv.len() && sv[a] == gv[t0];
                assert(uids[a] == u);
                assert(uids.contains(u));
            }
        }
        assert forall|a: int, b: int|
            0 <= a < b < uids.len() implies user_total(msgs, f@, #[trigger] uids[a]) >= user_total(
            msgs,
            f@,
            #[trigger] uids[b],
        ) by {
            assert(sv[a].1 >= sv[b].1);
        }
        assert(seq_views(r.0@).len() == uids.len());
        assert(forall|a: int| 0 <= a < r.0@.len() ==> #[trigger] seq_views(r.0@)[a] == r.0@[a]@);
        assert(forall|a: int|
            0 <= a < r.1@.len() ==> #[trigger] seq_views(r.1@)[a] == r.1@[a]@);
        assert forall|a: int|
            0 <= a < uids.len() implies exists|j2: int|
            0 <= j2 < store@.users.len() && (#[trigger] store@.users[j2]).id == (
            #[trigger] uids[a]) && seq_views(r.0@)[a] == store@.users[j2].rnd_id && seq_views(
                r.1@,
            )[a] == store@.users[j2].name by {
            let j2 = choose|j2: int|
                0 <= j2 < store@.users.len() && (#[trigger] store@.users[j2]).id == sv[a].0 as int
                    && r.0@[a]@ == store@.users[j2].rnd_id && r.1@[a]@ == store@.users[j2].name;
            assert(0 <= j2 < store@.users.len() && store@.users[j2].id == uids[a] && seq_views(
                r.0@,
            )[a] == store@.users[j2].rnd_id && seq_views(r.1@)[a] == store@.users[j2].name);
        }
        assert(leaderboard_ok(
            store@,
            f@,
            uids,
            seq_views(r.0@),
            seq_views(r.1@),
            r.2@,
        ));
    }
    r
}



// ---------------------------------------------------------------------------
// The query itself
// ---------------------------------------------------------------------------

/// Answers one windowed analytics request over the committed store.
///
/// Parameters are validated before any store access (offset, then weekday,
/// then dates); the chat reference and the optional user reference are
/// then resolved; the aggregations are scoped by the resulting filter.
#[verifier::rlimit(100)]
pub fn query(
    store: &Store,
    chat: &str,
    dates: Option<(i64, i64)>,
    offset: i64,
    user_rid: Option<&str>,
    weekday: Option<u8>,
) -> (r: Result<QueryResult, QueryError>)
    requires
        store.wf(),
    ensures
        ({
            let dv = opt_dates_v(dates);
            let wv = opt_weekday_v(weekday);
            let uv = user_ref_v(user_rid);
            let s = store@;
            match r {
                Err(e) => {
                    ||| validation_of(dv, offset as int, wv) == Some(e)
                    ||| (validation_of(dv, offset as int, wv) is None && e
                        == QueryError::ChatNotFound && (forall|i: int|
                        0 <= i < s.chats.len() ==> !chat_ref_matches(#[trigger] s.chats[i], chat@)))
                    ||| (validation_of(dv, offset as int, wv) is None && e
                        == QueryError::UserNotFound && (exists|ci: int|
                        0 <= ci < s.chats.len() && chat_ref_matches(#[trigger] s.chats[ci], chat@))
                        && (uv matches Some(q) && (forall|i: int|
                        0 <= i < s.users.len() ==> !user_ref_matches(#[trigger] s.users[i], q))))
                    ||| (validation_of(dv, offset as int, wv) is None && e == QueryError::Internal
                        && dv is None && exists|ci: int|
                        {
                            &&& 0 <= ci < s.chats.len()
                            &&& chat_ref_matches(#[trigger] s.chats[ci], chat@)
                            &&& exists|lo: int, hi: int|
                                #[trigger] bounds_ok(
                                    s.messages,
                                    filter_of(
                                        s.chats[ci].id,
                                        resolved_user(s, uv),
                                        dv,
                                        offset as int,
                                        wv,
                                    ),
                                    lo,
                                    hi,
                                ) && hi - lo > MAX_OPEN_SPAN
                        })
                },
                Ok(res) => {
                    &&& validation_of(dv, offset as int, wv) is None
                    &&& exists|ci: int|
                        {
                            &&& 0 <= ci < s.chats.len()
                            &&& chat_ref_matches(#[trigger] s.chats[ci], chat@)
                            &&& forall|j: int|
                                0 <= j < ci ==> !chat_ref_matches(#[trigger] s.chats[j], chat@)
                            &&& res.title@ == s.chats[ci].name
                            &&& hours_ok(s.messages, s.chats[ci].id, res.hours)
                            &&& match uv {
                                Some(q) => exists|ui: int|
                                    {
                                        &&& 0 <= ui < s.users.len()
                                        &&& user_ref_matches(#[trigger] s.users[ui], q)
                                        &&& forall|j: int|
                                            0 <= j < ui ==> !user_ref_matches(
                                                #[trigger] s.users[j],
                                                q,
                                            )
                                        &&& ok_fields(
                                            s,
                                            filter_of(
                                                s.chats[ci].id,
                                                Some(s.users[ui].id),
                                                dv,
                                                offset as int,
                                                wv,
                                            ),
                                            dv,
                                            res,
                                        )
                                    },
                                None => ok_fields(
                                    s,
                                    filter_of(s.chats[ci].id, None, dv, offset as int, wv),
                                    dv,
                                    res,
                                ),
                            }
                        }
                },
            }
        }),
{
    let ghost dv = opt_dates_v(dates);
    let ghost wv = opt_weekday_v(weekday);
    let ghost uv = user_ref_v(user_rid);

    // validation, before any store access
    if offset < -12 || offset > 12 {
        return Err(QueryError::InvalidOffset);
    }
    match weekday {
        Some(w) => {
            if w >= 7 {
                return Err(QueryError::InvalidWeekday);
            }
        },
        None => {},
    }
    match dates {
        Some((from, to)) => {
            if from < MIN_QUERY_DAY || to < MIN_QUERY_DAY {
                return Err(QueryError::InvalidDates);
            }
            if to - from > MAX_QUERY_SPAN {
                return Err(QueryError::InvalidDates);
            }
        },
        None => {},
    }

    // resolution
    let (chat_id, title) = match search_chat(store, chat) {
        Some(x) => x,
        None => {
            return Err(QueryError::ChatNotFound);
        },
    };
    let user_id: Option<i64> = match user_rid {
        Some(q) => match search_user(store, q) {
            Some(u) => Some(u),
            None => {
                return Err(QueryError::UserNotFound);
            },
        },
        None => None,
    };
    proof {
        assert(opt_int(user_id) == resolved_user(store@, uv));
    }

    // the filter every aggregation is scoped by
    let hours: Option<(i128, i128)> = match dates {
        Some((from, to)) => Some(
            ((from as i128) * 24 - (offset as i128), (to as i128) * 24 - (offset as i128) + 23),
        ),
        None => None,
    };
    let wd_filter: Option<i64> = match weekday {
        Some(w) => Some(w as i64),
        None => None,
    };
    let f = Filter {
        chat_id: chat_id,
        user_id: user_id,
        hours: hours,
        weekday: wd_filter,
        offset: offset,
    };
    let ghost fv = f@;
    proof {
        assert(f@ =~= filter_of(chat_id as int, opt_int(user_id), dv, offset as int, wv));
    }

    let skip: i64 = match wd_filter {
        Some(_) => 7,
        None => 1,
    };

    // the gap-filled daily series and its first day
    let start_day: i64;
    let daily_users: Vec<u64>;
    let daily_messages: Vec<u64>;
    let ghost mut open_range: Option<(int, int)> = None;
    match dates {
        Some((from, to)) => {
            match wd_filter {
                None => {
                    let (du, dm) = build_daily(store, &f, from, to, 1);
                    start_day = from;
                    daily_users = du;
                    daily_messages = dm;
                },
                Some(w) => {
                    let a: i128 = (w as i128) + 4 - (from as i128);
                    let e = mod_floor7(a) as i64;
                    proof {
                        assert(e as int == (wv->Some_0 + 4 - from) % 7);
                        assert(0 <= e < 7);
                    }
                    if from > i64::MAX - e {
                        // the adjusted first day exceeds the day type; the
                        // range can hold no matching day
                        let (du, dm) = build_daily(store, &f, 1, 0, 7);
                        start_day = 0;
                        daily_users = du;
                        daily_messages = dm;
                        proof {
                            let start0 = start0_of(from as int, fv.weekday);
                            assert(start0 == from + e);
                            assert(start0 > i64::MAX);
                            assert(start0 > to);
                            assert(day_list(start0, to as int, 7) == day_list(1, 0, 7));
                        }
                    } else {
                        let start0 = from + e;
                        let (du, dm) = build_daily(store, &f, start0, to, 7);
                        start_day = start0;
                        daily_users = du;
                        daily_messages = dm;
                        proof {
                            assert(start0 as int == start0_of(from as int, fv.weekday));
                        }
                    }
                },
            }
        },
        None => {
            match active_day_range(store, &f) {
                None => {
                    let (du, dm) = build_daily(store, &f, 1, 0, skip);
                    start_day = 0;
                    daily_users = du;
                    daily_messages = dm;
                    proof {
                        assert(day_list(1, 0, skip as int) == Seq::<int>::empty());
                        assert(daily_users@.len() == 0);
                        assert(daily_users@ =~= Seq::<u64>::empty());
                        assert(daily_messages@ =~= Seq::<u64>::empty());
                    }
                },
                Some((lo, hi)) => {
                    if (hi as i128) - (lo as i128) > MAX_OPEN_SPAN as i128 {
                        proof {
                            let s = store@;
                            let ci = choose|i: int|
                                0 <= i < s.chats.len() && chat_ref_matches(
                                    #[trigger] s.chats[i],
                                    chat@,
                                ) && (forall|j: int|
                                    0 <= j < i ==> !chat_ref_matches(#[trigger] s.chats[j], chat@))
                                    && chat_id as int == s.chats[i].id && title@
                                    == s.chats[i].name;
                            assert(fv == filter_of(
                                s.chats[ci].id,
                                resolved_user(s, uv),
                                dv,
                                offset as int,
                                wv,
                            ));
                            assert(bounds_ok(s.messages, fv, lo as int, hi as int));
                            assert(bounds_ok(
                                s.messages,
                                filter_of(
                                    s.chats[ci].id,
                                    resolved_user(s, uv),
                                    dv,
                                    offset as int,
                                    wv,
                                ),
                                lo as int,
                                hi as int,
                            ) && hi as int - lo as int > MAX_OPEN_SPAN);
                            assert(0 <= ci < s.chats.len() && chat_ref_matches(
                                s.chats[ci],
                                chat@,
                            ));
                        }
                        return Err(QueryError::Internal);
                    }
                    proof {
                        assert(is_active_day(store@.messages, fv, lo as int));
                        assert(lo <= hi);
                        open_range = Some((lo as int, hi as int));
                        assert(bounds_ok(store@.messages, fv, lo as int, hi as int));
                        assert(hi as int - lo as int <= MAX_OPEN_SPAN);
                    }
                    let (du, dm) = build_daily(store, &f, lo, hi, skip);
                    start_day = lo;
                    daily_users = du;
                    daily_messages = dm;
                },
            }
        },
    }

    let by_hour = build_hour_histogram(store, &f);
    let by_weekday = build_weekday_histogram(store, &f);
    let board = build_leaderboard(store, &f);
    let ghost board_ids = board.0@;
    let ghost board_names = board.1@;
    let ghost board_counts = board.2@;
    let ghost uids0 = choose|uids: Seq<int>|
        #[trigger] leaderboard_ok(
            store@,
            fv,
            uids,
            seq_views(board_ids),
            seq_views(board_names),
            board_counts,
        );
    let hrs = hour_range(store, chat_id);

    let res = QueryResult {
        title: title,
        hours: hrs,
        start_day: start_day,
        skip_day: skip,
        daily_users: daily_users,
        daily_messages: daily_messages,
        messages_by_hour: by_hour,
        messages_by_weekday: by_weekday,
        user_ids: board.0,
        user_names: board.1,
        messages_by_user: board.2,
    };
    proof {
        assert(res.skip_day as int == skip_of(fv.weekday));
        assert(leaderboard_ok(
            store@,
            fv,
            uids0,
            seq_views(res.user_ids@),
            seq_views(res.user_names@),
            res.messages_by_user@,
        ));
        match dv {
            Some((from, to)) => {
                assert(daily_ok(
                    store@,
                    fv,
                    day_list(start0_of(from, fv.weekday), to, skip_of(fv.weekday)),
                    res,
                ));
            },
            None => {
                match open_range {
                    Some((lo, hi)) => {
                        assert(bounds_ok(store@.messages, fv, lo, hi) && hi - lo <= MAX_OPEN_SPAN
                            && res.start_day as int == lo && daily_ok(
                            store@,
                            fv,
                            day_list(lo, hi, skip_of(fv.weekday)),
                            res,
                        ));
                    },
                    None => {
                        assert((forall|d: int| !is_active_day(store@.messages, fv, d))
                            && res.start_day == 0 && res.daily_users@ == Seq::<u64>::empty()
                            && res.daily_messages@ == Seq::<u64>::empty());
                    },
                }
            },
        }
        assert(ok_fields(store@, fv, dv, res));

        let s = store@;
        let ci = choose|i: int|
            0 <= i < s.chats.len() && chat_ref_matches(#[trigger] s.chats[i], chat@) && (forall|
                j: int,
            |
                0 <= j < i ==> !chat_ref_matches(#[trigger] s.chats[j], chat@)) && chat_id as int
                == s.chats[i].id && res.title@ == s.chats[i].name;
        assert(fv == filter_of(s.chats[ci].id, opt_int(user_id), dv, offset as int, wv));
        match uv {
            Some(q) => {
                let ui = choose|i: int|
                    0 <= i < s.users.len() && user_ref_matches(#[trigger] s.users[i], q) && (
                    forall|j: int| 0 <= j < i ==> !user_ref_matches(#[trigger] s.users[j], q))
                        && (user_id matches Some(u) && u as int == s.users[i].id);
                assert(opt_int(user_id) == Some(s.users[ui].id));
                assert(0 <= ui < s.users.len() && user_ref_matches(s.users[ui], q) && (forall|
                    j: int,
                |
                    0 <= j < ui ==> !user_ref_matches(#[trigger] s.users[j], q)) && ok_fields(
                    s,
                    filter_of(s.chats[ci].id, Some(s.users[ui].id), dv, offset as int, wv),
                    dv,
                    res,
                ));
            },
            None => {
                assert(opt_int(user_id) == None::<int>);
                assert(ok_fields(s, filter_of(s.chats[ci].id, None, dv, offset as int, wv), dv, res));
            },
        }
        assert(hours_ok(s.messages, s.chats[ci].id, res.hours));
        assert(0 <= ci < s.chats.len() && chat_ref_matches(s.chats[ci], chat@) && (forall|j: int|
            0 <= j < ci ==> !chat_ref_matches(#[trigger] s.chats[j], chat@)) && res.title@
            == s.chats[ci].name && hours_ok(s.messages, s.chats[ci].id, res.hours) && (match uv {
            Some(q) => exists|ui: int|
                {
                    &&& 0 <= ui < s.users.len()
                    &&& user_ref_matches(#[trigger] s.users[ui], q)
                    &&& forall|j: int| 0 <= j < ui ==> !user_ref_matches(#[trigger] s.users[j], q)
                    &&& ok_fields(
                        s,
                        filter_of(s.chats[ci].id, Some(s.users[ui].id), dv, offset as int, wv),
                        dv,
                        res,
                    )
                },
            None => ok_fields(s, filter_of(s.chats[ci].id, None, dv, offset as int, wv), dv, res),
        }));
    }
    Ok(res)
}

/// The internal id the optional user reference resolves to, when it does.
pub open spec fn resolved_user(s: StoreV, uv: Option<Seq<char>>) -> Option<int> {
    match uv {
        Some(q) => {
            if exists|i: int| 0 <= i < s.users.len() && user_ref_matches(#[trigger] s.users[i], q) {
                let i = choose|i: int|
                    0 <= i < s.users.len() && user_ref_matches(#[trigger] s.users[i], q) && (
                    forall|j: int| 0 <= j < i ==> !user_ref_matches(#[trigger] s.users[j], q));
                Some(s.users[i].id)
            } else {
                None
            }
        },
        None => None,
    }
}


} // verus!
