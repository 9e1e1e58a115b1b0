//! The resumable log replay protocol.
//!
//! A log is a byte stream of newline-delimited lines.  A processor applies
//! lines inside a transaction; every 1000 successfully processed lines the
//! replayer commits the mutations together with the new byte offset as one
//! atomic unit, reopens a transaction and asserts that the committed offset
//! is the one just written.  Any failure between a successful `begin` and
//! the next successful `commit` triggers `abort`, so at most one batch of
//! work is ever redone after a crash.

use vstd::prelude::*;

verus! {

/// Why a replay run stopped early: the processor failed, or the committed
/// offset moved between a commit and the following begin, which indicates
/// an external concurrent writer.
#[derive(Debug)]
pub enum ReplayError<E> {
    Processor(E),
    Consistency,
}

/// Number of successfully processed lines after which the replayer forces
/// an intermediate commit.
pub const BATCH_LINES: u64 = 1000;

// ---------------------------------------------------------------------------
// Splitting a byte stream into lines
// ---------------------------------------------------------------------------

/// Index of the first newline byte, or the length if there is none.
pub open spec fn first_nl(bytes: Seq<u8>) -> int
    decreases bytes.len(),
{
    if bytes.len() == 0 {
        0
    } else if bytes[0] == 10 {
        0
    } else {
        1 + first_nl(bytes.skip(1))
    }
}

pub proof fn lemma_first_nl(bytes: Seq<u8>)
    ensures
        0 <= first_nl(bytes) <= bytes.len(),
        first_nl(bytes) < bytes.len() ==> bytes[first_nl(bytes)] == 10,
        forall|k: int| 0 <= k < first_nl(bytes) ==> bytes[k] != 10,
    decreases bytes.len(),
{
    if bytes.len() > 0 && bytes[0] != 10 {
        lemma_first_nl(bytes.skip(1));
        assert forall|k: int| 0 <= k < first_nl(bytes) implies bytes[k] != 10 by {
            if k > 0 {
                assert(bytes.skip(1)[k - 1] == bytes[k]);
            }
        }
        if first_nl(bytes) < bytes.len() {
            assert(bytes.skip(1)[first_nl(bytes) - 1] == bytes[first_nl(bytes)]);
        }
    }
}

/// `first_nl` is the only index with its properties.
pub proof fn lemma_first_nl_unique(bytes: Seq<u8>, m: int)
    requires
        0 <= m <= bytes.len(),
        m < bytes.len() ==> bytes[m] == 10,
        forall|k: int| 0 <= k < m ==> bytes[k] != 10,
    ensures
        first_nl(bytes) == m,
{
    lemma_first_nl(bytes);
    if first_nl(bytes) < m {
        assert(bytes[first_nl(bytes)] != 10);
    } else if m < first_nl(bytes) {
        assert(bytes[m] != 10);
    }
}

/// The first line of a byte stream, without its terminator.
pub open spec fn first_line(bytes: Seq<u8>) -> Seq<u8> {
    bytes.take(first_nl(bytes))
}

/// What remains after consuming the first line and its terminator.
pub open spec fn rest_lines(bytes: Seq<u8>) -> Seq<u8> {
    if first_nl(bytes) == bytes.len() {
        Seq::empty()
    } else {
        bytes.skip(first_nl(bytes) + 1)
    }
}

pub proof fn lemma_rest_lines_shorter(bytes: Seq<u8>)
    requires
        bytes.len() > 0,
    ensures
        rest_lines(bytes).len() < bytes.len(),
{
    lemma_first_nl(bytes);
}

/// All lines of a byte stream, in order; a trailing fragment without a
/// newline is a line of its own.
pub open spec fn line_seq(bytes: Seq<u8>) -> Seq<Seq<u8>>
    decreases bytes.len(),
    via line_seq_decreases
{
    if bytes.len() == 0 {
        Seq::empty()
    } else {
        seq![first_line(bytes)] + line_seq(rest_lines(bytes))
    }
}

#[via_fn]
proof fn line_seq_decreases(bytes: Seq<u8>) {
    if bytes.len() > 0 {
        lemma_rest_lines_shorter(bytes);
    }
}

/// The bytes left after consuming `n` lines from the front.
pub open spec fn tail_after(bytes: Seq<u8>, n: nat) -> Seq<u8>
    decreases n,
{
    if n == 0 {
        bytes
    } else {
        rest_lines(tail_after(bytes, (n - 1) as nat))
    }
}

/// The byte offset, relative to the start of `bytes`, that a commit after
/// `n` lines records.
pub open spec fn bytes_used(bytes: Seq<u8>, n: nat) -> int {
    bytes.len() - tail_after(bytes, n).len()
}


// ---------------------------------------------------------------------------
// The processor interface and the replay relation
// ---------------------------------------------------------------------------

pub open spec fn opt_off(o: Option<u64>) -> Option<int> {
    match o {
        Some(v) => Some(v as int),
        None => None,
    }
}

/// A transactional consumer of log lines.
///
/// `Model` is the abstract content of the store without its checkpoint
/// bookkeeping; `committed` is what durable storage holds, `current` the
/// working state of the open transaction, and `committed_offset` the
/// committed byte offset of this processor's stream.  `line_rel` says which
/// state changes one line may cause.
pub trait LogProcessor: Sized {
    type Error;

    type Model;

    spec fn inv(&self) -> bool;

    spec fn committed(&self) -> Self::Model;

    spec fn current(&self) -> Self::Model;

    spec fn committed_offset(&self) -> Option<int>;

    spec fn tx_open(&self) -> bool;

    spec fn line_rel(pre: Self::Model, line: Seq<u8>, post: Self::Model) -> bool;

    /// Opens a transaction and returns the last committed byte offset of
    /// the stream, or `None` if the stream never committed.
    fn begin(&mut self) -> (r: Result<Option<u64>, Self::Error>)
        requires
            old(self).inv(),
            !old(self).tx_open(),
        ensures
            final(self).inv(),
            final(self).committed() == old(self).committed(),
            final(self).committed_offset() == old(self).committed_offset(),
            match r {
                Ok(o) => opt_off(o) == old(self).committed_offset() && final(self).tx_open()
                    && final(self).current() == final(self).committed(),
                Err(_) => !final(self).tx_open(),
            },
    ;

    /// Commits the working state and the new byte offset as one atomic
    /// unit and closes the transaction.
    fn commit(&mut self, end_pos: u64) -> (r: Result<(), Self::Error>)
        requires
            old(self).inv(),
            old(self).tx_open(),
        ensures
            final(self).inv(),
            match r {
                Ok(_) => !final(self).tx_open() && final(self).committed() == old(self).current()
                    && final(self).current() == old(self).current()
                    && final(self).committed_offset() == Some(end_pos as int),
                Err(_) => final(self).tx_open() && final(self).committed() == old(self).committed()
                    && final(self).committed_offset() == old(self).committed_offset(),
            },
    ;

    /// Rolls back every mutation applied since the last successful commit.
    fn abort(&mut self) -> (r: Result<(), Self::Error>)
        requires
            old(self).inv(),
            old(self).tx_open(),
        ensures
            final(self).inv(),
            final(self).committed() == old(self).committed(),
            final(self).committed_offset() == old(self).committed_offset(),
            r is Ok ==> !final(self).tx_open() && final(self).current() == final(self).committed(),
    ;

    /// Applies one decoded line to the working state.  A line that cannot
    /// be decoded is skipped and reported as success.
    fn process_line(&mut self, line: &[u8]) -> (r: Result<(), Self::Error>)
        requires
            old(self).inv(),
            old(self).tx_open(),
        ensures
            final(self).inv(),
            final(self).tx_open(),
            final(self).committed() == old(self).committed(),
            final(self).committed_offset() == old(self).committed_offset(),
            r is Ok ==> Self::line_rel(old(self).current(), line@, final(self).current()),
    ;
}

/// `b` is reachable from `a` by applying the given lines in order, each
/// one as `line_rel` allows.
pub open spec fn replay_chain<T: LogProcessor>(
    lines: Seq<Seq<u8>>,
    a: T::Model,
    b: T::Model,
) -> bool
    decreases lines.len(),
{
    if lines.len() == 0 {
        a == b
    } else {
        exists|mid: T::Model|
            #[trigger] T::line_rel(a, lines[0], mid) && replay_chain::<T>(lines.skip(1), mid, b)
    }
}

pub proof fn lemma_chain_snoc<T: LogProcessor>(
    lines: Seq<Seq<u8>>,
    a: T::Model,
    m: T::Model,
    l: Seq<u8>,
    m2: T::Model,
)
    requires
        replay_chain::<T>(lines, a, m),
        T::line_rel(m, l, m2),
    ensures
        replay_chain::<T>(lines.push(l), a, m2),
    decreases lines.len(),
{
    if lines.len() == 0 {
        assert(lines.push(l)[0] == l);
        assert(lines.push(l).skip(1) =~= Seq::<Seq<u8>>::empty());
        assert(replay_chain::<T>(lines.push(l).skip(1), m2, m2));
        assert(T::line_rel(a, lines.push(l)[0], m2) && replay_chain::<T>(
            lines.push(l).skip(1),
            m2,
            m2,
        ));
    } else {
        let mid = choose|mid: T::Model|
            #[trigger] T::line_rel(a, lines[0], mid) && replay_chain::<T>(lines.skip(1), mid, m);
        lemma_chain_snoc::<T>(lines.skip(1), mid, m, l, m2);
        assert(lines.skip(1).push(l) =~= lines.push(l).skip(1));
        assert(lines.push(l)[0] == lines[0]);
        assert(T::line_rel(a, lines.push(l)[0], mid) && replay_chain::<T>(
            lines.push(l).skip(1),
            mid,
            m2,
        ));
    }
}

pub proof fn lemma_chain_concat<T: LogProcessor>(
    s1: Seq<Seq<u8>>,
    s2: Seq<Seq<u8>>,
    a: T::Model,
    m: T::Model,
    b: T::Model,
)
    requires
        replay_chain::<T>(s1, a, m),
        replay_chain::<T>(s2, m, b),
    ensures
        replay_chain::<T>(s1 + s2, a, b),
    decreases s1.len(),
{
    if s1.len() == 0 {
        assert(s1 + s2 =~= s2);
    } else {
        let mid = choose|mid: T::Model|
            #[trigger] T::line_rel(a, s1[0], mid) && replay_chain::<T>(s1.skip(1), mid, m);
        lemma_chain_concat::<T>(s1.skip(1), s2, mid, m, b);
        assert(s1.skip(1) + s2 =~= (s1 + s2).skip(1));
        assert((s1 + s2)[0] == s1[0]);
        assert(T::line_rel(a, (s1 + s2)[0], mid) && replay_chain::<T>((s1 + s2).skip(1), mid, b));
    }
}



// ---------------------------------------------------------------------------
// The replayer
// ---------------------------------------------------------------------------

pub open spec fn start_of(cp: Option<int>) -> int {
    match cp {
        Some(o) => o,
        None => 0,
    }
}

/// Where reading resumes: the committed offset, clamped to the stream's
/// length.
pub open spec fn seek_pos(start: int, len: int) -> int {
    if start <= len {
        start
    } else {
        len
    }
}

pub proof fn lemma_line_seq_len(bytes: Seq<u8>)
    ensures
        line_seq(bytes).len() <= bytes.len(),
    decreases bytes.len(),
{
    if bytes.len() > 0 {
        lemma_rest_lines_shorter(bytes);
        lemma_line_seq_len(rest_lines(bytes));
    }
}

/// Replays the byte stream `data` through `processor`, resuming at its
/// committed offset.
///
/// On success the whole remainder of the stream has been processed and
/// committed, and the committed offset stands at the end of the stream.
/// On failure the committed state is exactly what it was at entry, or the
/// result of some whole number of full batches, with the committed offset
/// naming exactly the bytes those batches consumed: work is never lost or
/// torn across a batch boundary.
pub fn process_log<T: LogProcessor>(data: &[u8], processor: &mut T) -> (r: Result<
    (),
    ReplayError<T::Error>,
>)
    requires
        old(processor).inv(),
        !old(processor).tx_open(),
    ensures
        final(processor).inv(),
        ({
            let start = start_of(old(processor).committed_offset());
            let tail = data@.skip(seek_pos(start, data@.len() as int));
            let lines = line_seq(tail);
            match r {
                Ok(_) => {
                    &&& !final(processor).tx_open()
                    &&& final(processor).committed_offset() == Some(start + tail.len())
                    &&& replay_chain::<T>(
                        lines,
                        old(processor).committed(),
                        final(processor).committed(),
                    )
                },
                Err(_) => {
                    ||| (final(processor).committed() == old(processor).committed()
                        && final(processor).committed_offset() == old(
                        processor,
                    ).committed_offset())
                    ||| (exists|n: nat|
                        1 <= n && n % (BATCH_LINES as nat) == 0 && n <= lines.len()
                            && replay_chain::<T>(
                            lines.take(n as int),
                            old(processor).committed(),
                            final(processor).committed(),
                        ) && final(processor).committed_offset() == Some(
                            start + bytes_used(tail, n),
                        ))
                },
            }
        }),
{
    let ghost v0 = old(processor).committed();
    let ghost cp0 = old(processor).committed_offset();

    let start_opt = match processor.begin() {
        Ok(o) => o,
        Err(e) => {
            return Err(ReplayError::Processor(e));
        },
    };
    let mut total: u64 = 0;
    let mut pos: usize = 0;
    match start_opt {
        Some(p) => {
            total = p;
            if p >= data.len() as u64 {
                pos = data.len();
            } else {
                pos = p as usize;
            }
        },
        None => {},
    }
    let data_len: usize = data.len();
    let ghost start: int = start_of(cp0);
    let ghost pos0: int = pos as int;
    let ghost tail0 = data@.skip(pos0);
    let ghost lines = line_seq(tail0);
    proof {
        assert(pos0 == seek_pos(start, data@.len() as int));
        assert(data@.skip(pos0).len() == data@.len() - pos0);
        lemma_line_seq_len(tail0);
        assert(tail_after(tail0, 0) == tail0);
        assert(lines.skip(0) =~= lines);
        assert(lines.take(0) =~= Seq::<Seq<u8>>::empty());
        assert(lines.subrange(0, 0) =~= Seq::<Seq<u8>>::empty());
    }

    let mut lineno: u64 = 0;
    let ghost mut n_c: int = 0;

    while pos < data.len()
        invariant
            processor.inv(),
            processor.tx_open(),
            0 <= pos0 <= pos as int <= data@.len(),
            data_len == data@.len(),
            start == start_of(cp0),
            pos0 == seek_pos(start, data@.len() as int),
            tail0 == data@.skip(pos0),
            tail0.len() == data@.len() - pos0,
            lines == line_seq(tail0),
            lines.len() <= tail0.len(),
            v0 == old(processor).committed(),
            cp0 == old(processor).committed_offset(),
            total as int == start + pos - pos0,
            pos as int > pos0 ==> start == pos0,
            pos as int == pos0 || start == pos0,
            0 <= lineno as int <= lines.len(),
            tail_after(tail0, lineno as nat) == data@.skip(pos as int),
            line_seq(data@.skip(pos as int)) == lines.skip(lineno as int),
            0 <= n_c <= lineno as int,
            n_c % (BATCH_LINES as int) == 0,
            replay_chain::<T>(lines.take(n_c), v0, processor.committed()),
            n_c == 0 ==> processor.committed_offset() == cp0,
            n_c > 0 ==> processor.committed_offset() == Some(start + bytes_used(tail0, n_c as nat)),
            replay_chain::<T>(
                lines.subrange(n_c, lineno as int),
                processor.committed(),
                processor.current(),
            ),
        decreases data@.len() - pos,
    {
        proof {
            if pos as int == pos0 {
                assert(start == pos0);
            }
        }
        let ghost suffix = data@.skip(pos as int);
        let ghost j = lineno as int;

        // find the end of the current line
        let mut nl: usize = pos;
        while nl < data.len() && *vstd::slice::slice_index_get(data, nl) != 10
            invariant
                pos <= nl,
                nl <= data@.len(),
                forall|k: int| pos <= k < nl ==> data@[k] != 10,
            decreases data@.len() - nl,
        {
            nl = nl + 1;
        }
        proof {
            assert forall|k: int| 0 <= k < nl - pos implies suffix[k] != 10 by {
                assert(suffix[k] == data@[pos + k]);
            }
            lemma_first_nl_unique(suffix, nl - pos as int);
        }

        // the line itself, without its terminator
        let mut buf: Vec<u8> = Vec::new();
        let mut k: usize = pos;
        while k < nl
            invariant
                pos <= k <= nl,
                nl <= data@.len(),
                buf@.len() == k - pos,
                forall|t: int| 0 <= t < buf@.len() ==> buf@[t] == data@[pos + t],
            decreases nl - k,
        {
            buf.push(*vstd::slice::slice_index_get(data, k));
            k = k + 1;
        }
        proof {
            assert(buf@ =~= first_line(suffix));
            assert(suffix.len() > 0);
            assert(lines.skip(j).len() == line_seq(suffix).len());
            assert(line_seq(suffix).len() >= 1);
            assert(j < lines.len());
            assert(lines[j] == lines.skip(j)[0]);
            assert(lines.skip(j)[0] == line_seq(suffix)[0]);
            assert(line_seq(suffix)[0] == first_line(suffix));
        }

        let consumed: usize = if nl < data.len() {
            nl - pos + 1
        } else {
            nl - pos
        };

        let ghost cur_before = processor.current();
        match processor.process_line(buf.as_slice()) {
            Ok(_) => {},
            Err(e) => {
                proof {
                    if n_c == 0 {
                    } else {
                        assert(1 <= n_c as nat && n_c as nat % (BATCH_LINES as nat) == 0
                            && n_c as nat <= lines.len() && replay_chain::<T>(
                            lines.take(n_c),
                            v0,
                            processor.committed(),
                        ) && processor.committed_offset() == Some(
                            start + bytes_used(tail0, n_c as nat),
                        ));
                    }
                }
                let ar = processor.abort();
                match ar {
                    Ok(_) => {
                        return Err(ReplayError::Processor(e));
                    },
                    Err(ea) => {
                        return Err(ReplayError::Processor(ea));
                    },
                }
            },
        }
        proof {
            lemma_chain_snoc::<T>(
                lines.subrange(n_c, j),
                processor.committed(),
                cur_before,
                lines[j],
                processor.current(),
            );
            assert(lines.subrange(n_c, j).push(lines[j]) =~= lines.subrange(n_c, j + 1));
        }

        proof {
            assert(lineno as int == j && j < lines.len());
            assert(lines.len() <= tail0.len() && tail0.len() <= data_len as int);
        }
        pos = pos + consumed;
        total = total + consumed as u64;
        lineno = lineno + 1;
        proof {
            // the suffix after one more line
            assert(tail_after(tail0, lineno as nat) == rest_lines(suffix));
            if nl < data@.len() {
                assert(rest_lines(suffix) =~= data@.skip(pos as int));
            } else {
                assert(first_nl(suffix) == suffix.len());
                assert(rest_lines(suffix) =~= data@.skip(pos as int));
            }
            assert(line_seq(suffix) == seq![first_line(suffix)] + line_seq(rest_lines(suffix)));
            assert(line_seq(data@.skip(pos as int)) =~= lines.skip(lineno as int)) by {
                assert(line_seq(rest_lines(suffix)) =~= line_seq(suffix).skip(1));
                assert(line_seq(suffix).skip(1) =~= lines.skip(j).skip(1));
                assert(lines.skip(j).skip(1) =~= lines.skip(j + 1));
            }
        }

        if lineno % BATCH_LINES == 0 {
            let ghost committed_before = processor.committed();
            let ghost cur_now = processor.current();
            match processor.commit(total) {
                Ok(_) => {},
                Err(e) => {
                    proof {
                        if n_c == 0 {
                        } else {
                            assert(1 <= n_c as nat && n_c as nat % (BATCH_LINES as nat) == 0
                                && n_c as nat <= lines.len() && replay_chain::<T>(
                                lines.take(n_c),
                                v0,
                                processor.committed(),
                            ) && processor.committed_offset() == Some(
                                start + bytes_used(tail0, n_c as nat),
                            ));
                        }
                    }
                    let ar = processor.abort();
                    match ar {
                        Ok(_) => {
                            return Err(ReplayError::Processor(e));
                        },
                        Err(ea) => {
                            return Err(ReplayError::Processor(ea));
                        },
                    }
                },
            }
            proof {
                lemma_chain_concat::<T>(
                    lines.take(n_c),
                    lines.subrange(n_c, lineno as int),
                    v0,
                    committed_before,
                    cur_now,
                );
                assert(lines.take(n_c) + lines.subrange(n_c, lineno as int) =~= lines.take(
                    lineno as int,
                ));
                n_c = lineno as int;
                assert(replay_chain::<T>(lines.take(n_c), v0, processor.committed()));
                assert(tail_after(tail0, n_c as nat) == data@.skip(pos as int));
                assert(data@.skip(pos as int).len() == data@.len() - pos);
                assert(bytes_used(tail0, n_c as nat) == pos - pos0);
                assert(lines.subrange(n_c, lineno as int) =~= Seq::<Seq<u8>>::empty());
            }
            let chk = match processor.begin() {
                Ok(o) => o,
                Err(e) => {
                    proof {
                        assert(1 <= n_c as nat && n_c as nat % (BATCH_LINES as nat) == 0
                            && n_c as nat <= lines.len() && replay_chain::<T>(
                            lines.take(n_c),
                            v0,
                            processor.committed(),
                        ) && processor.committed_offset() == Some(
                            start + bytes_used(tail0, n_c as nat),
                        ));
                    }
                    return Err(ReplayError::Processor(e));
                },
            };
            let chk_ok = match chk {
                Some(o) => o == total,
                None => false,
            };
            if !chk_ok {
                // the committed offset moved: an external writer holds the store
                let ar = processor.abort();
                proof {
                    assert(1 <= n_c as nat && n_c as nat % (BATCH_LINES as nat) == 0
                        && n_c as nat <= lines.len() && replay_chain::<T>(
                        lines.take(n_c),
                        v0,
                        processor.committed(),
                    ) && processor.committed_offset() == Some(
                        start + bytes_used(tail0, n_c as nat),
                    ));
                }
                match ar {
                    Ok(_) => {
                        return Err(ReplayError::Consistency);
                    },
                    Err(_) => {
                        return Err(ReplayError::Consistency);
                    },
                }
            }
        }
    }

    let ghost committed_end = processor.committed();
    let ghost cur_end = processor.current();
    match processor.commit(total) {
        Ok(_) => {},
        Err(e) => {
            proof {
                if n_c == 0 {
                } else {
                    assert(1 <= n_c as nat && n_c as nat % (BATCH_LINES as nat) == 0
                        && n_c as nat <= lines.len() && replay_chain::<T>(
                        lines.take(n_c),
                        v0,
                        processor.committed(),
                    ) && processor.committed_offset() == Some(
                        start + bytes_used(tail0, n_c as nat),
                    ));
                }
            }
            let ar = processor.abort();
            match ar {
                Ok(_) => {
                    return Err(ReplayError::Processor(e));
                },
                Err(ea) => {
                    return Err(ReplayError::Processor(ea));
                },
            }
        },
    }
    proof {
        assert(lineno as int == lines.len());
        lemma_chain_concat::<T>(
            lines.take(n_c),
            lines.subrange(n_c, lineno as int),
            v0,
            committed_end,
            cur_end,
        );
        assert(lines.take(n_c) + lines.subrange(n_c, lineno as int) =~= lines);
        assert(replay_chain::<T>(lines, v0, processor.committed()));
        assert(total as int == start + tail0.len());
    }
    Ok(())
}


} // verus!
