//! Which server logs a log directory keeps.
//!
//! Newest first by modified time, ties broken by path, a directory keeps at
//! most `keep` logs and at most `max_bytes` of them; the newest is kept
//! whatever its size, because deleting the only log there is would defeat the
//! point of having one.
use vstd::prelude::*;

use crate::order::{lex_less, text_lt};

verus! {

/// A log as its modified time (nanoseconds), its size in bytes and its path.
pub type LogEntry = (u128, u64, String);

/// Whether `a` comes before `b` newest first: modified later, or at the same
/// time under a path that sorts first.
pub open spec fn newer(a: LogEntry, b: LogEntry) -> bool {
    a.0 > b.0 || (a.0 == b.0 && text_lt(a.2@, b.2@))
}

/// How many of the first `n` logs come before `x`.
pub open spec fn count_newer(logs: Seq<LogEntry>, x: LogEntry, n: int) -> nat
    decreases n,
{
    if n <= 0 {
        0
    } else {
        count_newer(logs, x, n - 1) + if newer(logs[n - 1], x) {
            1nat
        } else {
            0nat
        }
    }
}

/// The bytes of the `i`th log and of every one of the first `n` that comes
/// before it.
pub open spec fn bytes_upto(logs: Seq<LogEntry>, i: int, n: int) -> nat
    decreases n,
{
    if n <= 0 {
        0
    } else {
        bytes_upto(logs, i, n - 1) + if newer(logs[n - 1], logs[i]) || n - 1 == i {
            logs[n - 1].1 as nat
        } else {
            0nat
        }
    }
}

/// Where the `i`th log stands newest first, counting from 0.
pub open spec fn rank_of(logs: Seq<LogEntry>, i: int) -> nat {
    count_newer(logs, logs[i], logs.len() as int)
}

/// The bytes of the `i`th log and every newer one, as a `u64` counts them:
/// saturating.
pub open spec fn bytes_through(logs: Seq<LogEntry>, i: int) -> nat {
    let b = bytes_upto(logs, i, logs.len() as int);
    if b > u64::MAX {
        u64::MAX as nat
    } else {
        b
    }
}

/// The `i`th log survives: it is among the `keep` newest, and it is the
/// newest or it and every newer one fit in `max_bytes`.
pub open spec fn kept(logs: Seq<LogEntry>, i: int, keep: usize, max_bytes: u64) -> bool {
    rank_of(logs, i) < keep && (rank_of(logs, i) == 0 || bytes_through(logs, i) <= max_bytes)
}

/// The positions of the logs among the first `n` that do not survive, in
/// order.
pub open spec fn pruned(logs: Seq<LogEntry>, keep: usize, max_bytes: u64, n: int) -> Seq<usize>
    decreases n,
{
    if n <= 0 {
        Seq::empty()
    } else {
        pruned(logs, keep, max_bytes, n - 1) + if kept(logs, n - 1, keep, max_bytes) {
            Seq::empty()
        } else {
            seq![(n - 1) as usize]
        }
    }
}

fn is_newer(a: &LogEntry, b: &LogEntry) -> (r: bool)
    ensures
        r == newer(*a, *b),
{
    a.0 > b.0 || (a.0 == b.0 && lex_less(a.2.as_str(), b.2.as_str(), false))
}

/// Where the `i`th log stands, and the bytes it and every newer one hold.
fn standing(logs: &Vec<LogEntry>, i: usize) -> (r: (usize, u64))
    requires
        i < logs@.len(),
    ensures
        r.0 == rank_of(logs@, i as int),
        r.1 == bytes_through(logs@, i as int),
{
    let mut rank: usize = 0;
    let mut bytes: u64 = 0;
    let mut j: usize = 0;
    while j < logs.len()
        invariant
            i < logs@.len(),
            j <= logs@.len(),
            rank == count_newer(logs@, logs@[i as int], j as int),
            rank <= j,
            bytes == if bytes_upto(logs@, i as int, j as int) > u64::MAX {
                u64::MAX as nat
            } else {
                bytes_upto(logs@, i as int, j as int)
            },
        decreases logs@.len() - j,
    {
        let counts = is_newer(&logs[j], &logs[i]);
        if counts {
            rank = rank + 1;
        }
        if counts || j == i {
            let size = logs[j].1;
            if bytes > u64::MAX - size {
                bytes = u64::MAX;
            } else {
                bytes = bytes + size;
            }
        }
        j = j + 1;
    }
    (rank, bytes)
}

/// The positions, in order, of the logs to delete from a directory holding
/// `logs`, keeping at most `keep` and at most `max_bytes` of them, the
/// newest always.
pub fn logs_to_prune(logs: &Vec<LogEntry>, keep: usize, max_bytes: u64) -> (r: Vec<usize>)
    ensures
        r@ == pruned(logs@, keep, max_bytes, logs@.len() as int),
{
    let mut out: Vec<usize> = Vec::new();
    let mut i: usize = 0;
    while i < logs.len()
        invariant
            i <= logs@.len(),
            out@ == pruned(logs@, keep, max_bytes, i as int),
        decreases logs@.len() - i,
    {
        let (rank, bytes) = standing(logs, i);
        let survives = rank < keep && (rank == 0 || bytes <= max_bytes);
        if !survives {
            out.push(i);
        }
        assert(out@ =~= pruned(logs@, keep, max_bytes, i + 1));
        i = i + 1;
    }
    out
}

/// The newest log always survives, whatever its size, unless nothing is
/// to be kept at all.
pub proof fn law_the_newest_log_survives(logs: Seq<LogEntry>, i: int, keep: usize, max_bytes: u64)
    requires
        0 <= i < logs.len(),
        rank_of(logs, i) == 0,
        keep > 0,
    ensures
        kept(logs, i, keep, max_bytes),
{
}

/// No more than `keep` logs survive by rank: a log at rank `keep` or beyond
/// is always deleted.
pub proof fn law_no_log_beyond_the_count_survives(logs: Seq<LogEntry>, i: int, keep: usize, max_bytes: u64)
    requires
        0 <= i < logs.len(),
        rank_of(logs, i) >= keep,
    ensures
        !kept(logs, i, keep, max_bytes),
{
}

} // verus!
