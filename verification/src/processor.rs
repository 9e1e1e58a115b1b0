//! The store-backed log processor: couples the transactional counter store
//! with a per-provider event normalizer and implements the replay
//! protocol's processor interface over it.

use vstd::prelude::*;

use crate::error::MyError;
use crate::events::{ChatInfoV, EventNormalizer, NormEvent, UserInfoV};
use crate::process_log::{opt_off, LogProcessor};
use crate::store::{
    apply_message_s, apply_reply_s, cp_of, checkpoint_index, checkpoints_wf, has_checkpoint,
    set_checkpoint_s, StoreV,
};
use crate::tx::TxStore;
use crate::util::is_random_id;

verus! {

/// A store state without its checkpoint bookkeeping: the abstract model
/// that the replay protocol tracks.
pub open spec fn data_of(s: StoreV) -> StoreV {
    StoreV { checkpoints: Seq::empty(), ..s }
}

/// One store mutation, with the public random ids that went into any rows
/// it created.
pub ghost enum ApplyStep {
    Message { chat: ChatInfoV, user: UserInfoV, ts: int, rc: Seq<char>, ru: Seq<char> },
    Reply {
        chat: ChatInfoV,
        from: UserInfoV,
        to: UserInfoV,
        rc: Seq<char>,
        rf: Seq<char>,
        rt: Seq<char>,
    },
}

pub open spec fn apply_step(s: StoreV, st: ApplyStep) -> StoreV {
    match st {
        ApplyStep::Message { chat, user, ts, rc, ru } => apply_message_s(s, chat, user, ts, rc, ru),
        ApplyStep::Reply { chat, from, to, rc, rf, rt } => apply_reply_s(
            s,
            chat,
            from,
            to,
            rc,
            rf,
            rt,
        ),
    }
}

pub open spec fn apply_steps(s: StoreV, steps: Seq<ApplyStep>) -> StoreV
    decreases steps.len(),
{
    if steps.len() == 0 {
        s
    } else {
        apply_step(apply_steps(s, steps.drop_last()), steps.last())
    }
}

/// Resolving and upserting never read or write checkpoints, so the
/// checkpoint-free model of a message upsert is the upsert of the model.
pub proof fn lemma_apply_message_data(
    s: StoreV,
    c: ChatInfoV,
    u: UserInfoV,
    ts: int,
    rc: Seq<char>,
    ru: Seq<char>,
)
    ensures
        data_of(apply_message_s(s, c, u, ts, rc, ru)) == apply_message_s(
            data_of(s),
            c,
            u,
            ts,
            rc,
            ru,
        ),
{
    assert(data_of(apply_message_s(s, c, u, ts, rc, ru)) =~= apply_message_s(
        data_of(s),
        c,
        u,
        ts,
        rc,
        ru,
    ));
}

/// The same for a reply upsert.
pub proof fn lemma_apply_reply_data(
    s: StoreV,
    c: ChatInfoV,
    f: UserInfoV,
    t: UserInfoV,
    rc: Seq<char>,
    rf: Seq<char>,
    rt: Seq<char>,
)
    ensures
        data_of(apply_reply_s(s, c, f, t, rc, rf, rt)) == apply_reply_s(
            data_of(s),
            c,
            f,
            t,
            rc,
            rf,
            rt,
        ),
{
    assert(data_of(apply_reply_s(s, c, f, t, rc, rf, rt)) =~= apply_reply_s(
        data_of(s),
        c,
        f,
        t,
        rc,
        rf,
        rt,
    ));
}

/// Setting a stream's checkpoint makes it the stream's committed offset
/// and changes nothing else.
pub proof fn lemma_cp_of_set(s: StoreV, stream: Seq<char>, offset: int)
    requires
        checkpoints_wf(s.checkpoints),
    ensures
        cp_of(set_checkpoint_s(s, stream, offset), stream) == Some(offset),
        data_of(set_checkpoint_s(s, stream, offset)) == data_of(s),
{
    let s1 = set_checkpoint_s(s, stream, offset);
    if has_checkpoint(s.checkpoints, stream) {
        let i = checkpoint_index(s.checkpoints, stream);
        assert(s1.checkpoints[i].stream == stream);
        assert(has_checkpoint(s1.checkpoints, stream));
        let j = checkpoint_index(s1.checkpoints, stream);
        if i != j {
            assert(s1.checkpoints[j].stream == stream);
            if i < j {
                assert(s.checkpoints[i].stream != s.checkpoints[j].stream);
            } else {
                assert(s.checkpoints[j].stream != s.checkpoints[i].stream);
            }
        }
    } else {
        let n = s.checkpoints.len() as int;
        assert(s1.checkpoints[n].stream == stream);
        assert(has_checkpoint(s1.checkpoints, stream));
        let j = checkpoint_index(s1.checkpoints, stream);
        if j != n {
            assert(s.checkpoints[j].stream == stream);
            assert(has_checkpoint(s.checkpoints, stream));
        }
    }
    assert(data_of(s1) =~= data_of(s));
}

/// The transactional store together with its stream name and the
/// provider's line decoder.
pub struct StoreProcessor<N: EventNormalizer> {
    pub tx: TxStore,
    pub stream: String,
    pub norm: N,
}

impl<N: EventNormalizer> StoreProcessor<N> {
    pub fn new(tx: TxStore, stream: String, norm: N) -> (p: StoreProcessor<N>)
        ensures
            p.tx == tx,
            p.stream == stream,
    {
        StoreProcessor { tx: tx, stream: stream, norm: norm }
    }

    /// Hands the store back, for queries or a later run.
    pub fn into_store(self) -> (tx: TxStore)
        ensures
            tx == self.tx,
    {
        self.tx
    }
}

impl<N: EventNormalizer> LogProcessor for StoreProcessor<N> {
    type Error = MyError;

    type Model = StoreV;

    open spec fn inv(&self) -> bool {
        self.tx.wf()
    }

    open spec fn committed(&self) -> StoreV {
        data_of(self.tx@.committed)
    }

    open spec fn current(&self) -> StoreV {
        data_of(self.tx@.current)
    }

    open spec fn committed_offset(&self) -> Option<int> {
        cp_of(self.tx@.committed, self.stream@)
    }

    open spec fn tx_open(&self) -> bool {
        self.tx@.tx_open
    }

    open spec fn line_rel(pre: StoreV, line: Seq<u8>, post: StoreV) -> bool {
        exists|steps: Seq<ApplyStep>| post == apply_steps(pre, steps)
    }

    fn begin(&mut self) -> (r: Result<Option<u64>, MyError>) {
        let o = self.tx.begin_tx(self.stream.as_str());
        proof {
            assert(opt_off(o) == cp_of(self.tx@.committed, self.stream@));
        }
        Ok(o)
    }

    fn commit(&mut self, end_pos: u64) -> (r: Result<(), MyError>) {
        let ghost cur0 = self.tx@.current;
        self.tx.commit_tx(self.stream.as_str(), end_pos);
        proof {
            lemma_cp_of_set(cur0, self.stream@, end_pos as int);
        }
        Ok(())
    }

    fn abort(&mut self) -> (r: Result<(), MyError>) {
        self.tx.rollback_tx();
        Ok(())
    }

    fn process_line(&mut self, line: &[u8]) -> (r: Result<(), MyError>) {
        let ghost pre = data_of(self.tx@.current);
        let ghost c0 = self.tx@.committed;
        let events = self.norm.normalize(line);
        let ghost mut steps: Seq<ApplyStep> = Seq::empty();
        proof {
            assert(apply_steps(pre, steps) == pre);
        }
        let mut i: usize = 0;
        while i < events.len()
            invariant
                i <= events.len(),
                self.tx.wf(),
                self.tx@.tx_open,
                self.tx@.committed == c0,
                c0 == old(self).tx@.committed,
                pre == data_of(old(self).tx@.current),
                self.stream == old(self).stream,
                data_of(self.tx@.current) == apply_steps(pre, steps),
            decreases events.len() - i,
        {
            let ghost cur_full = self.tx@.current;
            let ghost steps0 = steps;
            match &events[i] {
                NormEvent::Message { chat, user, ts } => {
                    let ghost cv = chat@;
                    let ghost uv = user@;
                    let ghost tsv = *ts as int;
                    match self.tx.record_message(chat, user, *ts) {
                        Ok(_) => {
                            proof {
                                let (rc, ru) = choose|rc: Seq<char>, ru: Seq<char>|
                                    is_random_id(rc) && is_random_id(ru) && self.tx@.current
                                        == apply_message_s(cur_full, cv, uv, tsv, rc, ru);
                                lemma_apply_message_data(cur_full, cv, uv, tsv, rc, ru);
                                let st = ApplyStep::Message {
                                    chat: cv,
                                    user: uv,
                                    ts: tsv,
                                    rc: rc,
                                    ru: ru,
                                };
                                steps = steps0.push(st);
                                assert(steps.drop_last() =~= steps0);
                                assert(steps.last() == st);
                                assert(data_of(self.tx@.current) == apply_steps(pre, steps));
                            }
                        },
                        Err(e) => {
                            return Err(e);
                        },
                    }
                },
                NormEvent::Reply { chat, from, to } => {
                    let ghost cv = chat@;
                    let ghost fv = from@;
                    let ghost tv = to@;
                    match self.tx.record_reply(chat, from, to) {
                        Ok(_) => {
                            proof {
                                let (rc, rf, rt) = choose|
                                    rc: Seq<char>,
                                    rf: Seq<char>,
                                    rt: Seq<char>,
                                |
                                    is_random_id(rc) && is_random_id(rf) && is_random_id(rt)
                                        && self.tx@.current == apply_reply_s(
                                        cur_full,
                                        cv,
                                        fv,
                                        tv,
                                        rc,
                                        rf,
                                        rt,
                                    );
                                lemma_apply_reply_data(cur_full, cv, fv, tv, rc, rf, rt);
                                let st = ApplyStep::Reply {
                                    chat: cv,
                                    from: fv,
                                    to: tv,
                                    rc: rc,
                                    rf: rf,
                                    rt: rt,
                                };
                                steps = steps0.push(st);
                                assert(steps.drop_last() =~= steps0);
                                assert(steps.last() == st);
                                assert(data_of(self.tx@.current) == apply_steps(pre, steps));
                            }
                        },
                        Err(e) => {
                            return Err(e);
                        },
                    }
                },
            }
            i = i + 1;
        }
        proof {
            assert(Self::line_rel(pre, line@, data_of(self.tx@.current)));
        }
        Ok(())
    }
}

} // verus!
