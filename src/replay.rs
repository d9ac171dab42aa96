//! Replaying the generation logs, and the log files as file operations
//! leave them.
use vstd::prelude::*;

use crate::log::{FileOp, LogReader};
use crate::record::{
    lemma_cut_record_incomplete, lemma_decode_encoded, lemma_decoded_is_encoding, parse_record,
    record_bytes, Parsed, Record,
};

verus! {

broadcast use vstd::seq::group_seq_axioms;

/// The bytes of generation `g` among `logs`, searching from the last.
pub open spec fn reader_data(logs: Seq<LogReader>, g: u64) -> Option<Seq<u8>>
    decreases logs.len(),
{
    if logs.len() == 0 {
        None
    } else if logs.last().id == g {
        Some(logs.last().data@)
    } else {
        reader_data(logs.drop_last(), g)
    }
}

/// Ids strictly ascending.
pub open spec fn ascending(logs: Seq<LogReader>) -> bool {
    forall|i: int, j: int| 0 <= i < j < logs.len() ==> logs[i].id < logs[j].id
}

/// A record applied to a mapping: an insert maps its key, a remove unmaps it.
pub open spec fn apply_record(m: Map<Seq<char>, Seq<char>>, r: Record) -> Map<Seq<char>, Seq<char>> {
    match r {
        Record::Insert(k, v) => m.insert(k, v),
        Record::Remove(k) => m.remove(k),
    }
}

/// The mapping after the records of `d`, from position `p` on, are applied to
/// `m` in order; `None` where `d` is corrupt. A record cut off at the end of
/// `d` is dropped.
pub open spec fn replay_log(m: Map<Seq<char>, Seq<char>>, d: Seq<u8>, p: int) -> Option<
    Map<Seq<char>, Seq<char>>,
>
    decreases d.len() - p,
{
    if p < 0 || p >= d.len() {
        Some(m)
    } else {
        match parse_record(d, p) {
            Parsed::Done(r, e) => if e <= p {
                None
            } else {
                replay_log(apply_record(m, r), d, e)
            },
            Parsed::Incomplete => Some(m),
            Parsed::Malformed => None,
        }
    }
}

/// The mapping after the first `n` generations of `logs` are replayed in
/// order, starting from the empty mapping.
pub open spec fn replay_logs(logs: Seq<LogReader>, n: int) -> Option<Map<Seq<char>, Seq<char>>>
    decreases n,
{
    if n <= 0 {
        Some(Map::empty())
    } else {
        match replay_logs(logs, n - 1) {
            Some(m) => replay_log(m, logs[n - 1].data@, 0),
            None => None,
        }
    }
}

/// The records of `d`, from `p` on, run exactly to its end.
pub open spec fn parses_fully(d: Seq<u8>, p: int) -> bool
    decreases d.len() - p,
{
    if p < 0 || p > d.len() {
        false
    } else if p == d.len() {
        true
    } else {
        match parse_record(d, p) {
            Parsed::Done(_, e) => p < e <= d.len() && parses_fully(d, e),
            _ => false,
        }
    }
}

/// The total size of `logs`, in bytes.
pub open spec fn logs_size(logs: Seq<LogReader>) -> nat
    decreases logs.len(),
{
    if logs.len() == 0 {
        0
    } else {
        logs_size(logs.drop_last()) + logs.last().data@.len()
    }
}

/// The logs by generation id.
pub open spec fn logs_map(logs: Seq<LogReader>) -> Map<u64, Seq<u8>>
    decreases logs.len(),
{
    if logs.len() == 0 {
        Map::empty()
    } else {
        logs_map(logs.drop_last()).insert(logs.last().id, logs.last().data@)
    }
}

/// The log files, by generation id, after `ops` are performed on `files` in
/// order.
pub open spec fn apply_ops(files: Map<u64, Seq<u8>>, ops: Seq<FileOp>) -> Map<u64, Seq<u8>>
    decreases ops.len(),
{
    if ops.len() == 0 {
        files
    } else {
        let f = apply_ops(files, ops.drop_last());
        match ops.last() {
            FileOp::Append { gen, bytes } => f.insert(
                gen,
                (if f.contains_key(gen) {
                    f[gen]
                } else {
                    Seq::<u8>::empty()
                }) + bytes@,
            ),
            FileOp::Retire { gen } => f.remove(gen),
        }
    }
}

pub(crate) proof fn lemma_logs_map_dom(logs: Seq<LogReader>)
    ensures
        forall|g: u64|
            #[trigger] logs_map(logs).contains_key(g) <==> exists|i: int|
                0 <= i < logs.len() && logs[i].id == g,
    decreases logs.len(),
{
    if logs.len() > 0 {
        lemma_logs_map_dom(logs.drop_last());
        assert forall|g: u64| #[trigger] logs_map(logs).contains_key(g) implies exists|i: int|
            0 <= i < logs.len() && logs[i].id == g by {
            if g != logs.last().id {
                assert(logs_map(logs.drop_last()).contains_key(g));
                let i = choose|i: int|
                    0 <= i < logs.drop_last().len() && logs.drop_last()[i].id == g;
                assert(logs[i].id == g);
            } else {
                assert(logs[logs.len() - 1].id == g);
            }
        }
        assert forall|g: u64|
            (exists|i: int| 0 <= i < logs.len() && logs[i].id == g) implies #[trigger] logs_map(
            logs,
        ).contains_key(g) by {
            let i = choose|i: int| 0 <= i < logs.len() && logs[i].id == g;
            if i < logs.len() - 1 && g != logs.last().id {
                assert(logs.drop_last()[i].id == g);
                assert(logs_map(logs.drop_last()).contains_key(g));
            }
        }
    }
}

/// The generation ids of `logs`, in order.
pub open spec fn ids_of(logs: Seq<LogReader>) -> Seq<u64> {
    logs.map_values(|l: LogReader| l.id)
}

/// The id the active generation gets when the store opens on `logs`.
pub open spec fn next_id(logs: Seq<LogReader>) -> int {
    if logs.len() == 0 {
        1
    } else {
        logs.last().id + 1
    }
}

pub(crate) proof fn lemma_replay_none(logs: Seq<LogReader>, k: int, n: int)
    requires
        0 <= k <= n,
        replay_logs(logs, k) is None,
    ensures
        replay_logs(logs, n) is None,
    decreases n - k,
{
    if k < n {
        lemma_replay_none(logs, k + 1, n);
    }
}

/// Appending the encoding of a record to a log whose records run to its
/// end applies that record on replay.
#[verifier::rlimit(40)]
pub(crate) proof fn lemma_append_record(m: Map<Seq<char>, Seq<char>>, d: Seq<u8>, p: int, r: Record)
    requires
        0 <= p <= d.len(),
        parses_fully(d, p),
    ensures
        replay_log(m, d, p) is Some,
        parses_fully(d + record_bytes(r), p),
        replay_log(m, d + record_bytes(r), p) == Some(apply_record(replay_log(m, d, p)->0, r)),
    decreases d.len() - p,
{
    let rb = record_bytes(r);
    let d2 = d + rb;
    assert(crate::record::insert_head().len() == 18);
    assert(crate::record::remove_head().len() == 18);
    assert(rb.len() >= 18);
    if p == d.len() {
        assert(d2.subrange(p, p + rb.len()) =~= rb);
        lemma_decode_encoded(r, d2, p);
        assert(parses_fully(d2, p + rb.len()));
        assert(replay_log(apply_record(m, r), d2, p + rb.len()) == Some(apply_record(m, r)));
        assert(replay_log(m, d, p) == Some(m));
    } else {
        lemma_decoded_is_encoding(d, p);
        let r1 = parse_record(d, p)->Done_0;
        let e = parse_record(d, p)->Done_1;
        assert(d2.subrange(p, e) =~= d.subrange(p, e));
        lemma_decode_encoded(r1, d2, p);
        assert(parse_record(d2, p) == Parsed::Done(r1, e));
        lemma_append_record(apply_record(m, r1), d, e, r);
        assert(replay_log(m, d2, p) == replay_log(apply_record(m, r1), d2, e));
        assert(replay_log(m, d, p) == replay_log(apply_record(m, r1), d, e));
    }
}

/// A log cut off inside a record at its end replays as the log without that
/// record: where `d` holds whole records and `cut` is a nonempty proper prefix
/// of the encoding of one more, replaying `d + cut` gives what replaying `d`
/// gives, and that is a mapping, not corruption.
pub proof fn lemma_truncated_tail(
    m: Map<Seq<char>, Seq<char>>,
    d: Seq<u8>,
    r: Record,
    cut: Seq<u8>,
)
    requires
        parses_fully(d, 0),
        0 < cut.len() < record_bytes(r).len(),
        cut == record_bytes(r).subrange(0, cut.len() as int),
    ensures
        replay_log(m, d, 0) is Some,
        replay_log(m, d + cut, 0) == replay_log(m, d, 0),
{
    lemma_truncated_tail_from(m, d, 0, r, cut);
}

#[verifier::rlimit(40)]
proof fn lemma_truncated_tail_from(
    m: Map<Seq<char>, Seq<char>>,
    d: Seq<u8>,
    p: int,
    r: Record,
    cut: Seq<u8>,
)
    requires
        0 <= p <= d.len(),
        parses_fully(d, p),
        0 < cut.len() < record_bytes(r).len(),
        cut == record_bytes(r).subrange(0, cut.len() as int),
    ensures
        replay_log(m, d, p) is Some,
        replay_log(m, d + cut, p) == replay_log(m, d, p),
    decreases d.len() - p,
{
    let d2 = d + cut;
    if p == d.len() {
        assert(d2.subrange(p, d2.len() as int) =~= cut);
        lemma_cut_record_incomplete(r, d2, p);
        assert(replay_log(m, d, p) == Some(m));
    } else {
        lemma_decoded_is_encoding(d, p);
        let r1 = parse_record(d, p)->Done_0;
        let e = parse_record(d, p)->Done_1;
        assert(d2.subrange(p, e) =~= d.subrange(p, e));
        lemma_decode_encoded(r1, d2, p);
        assert(parse_record(d2, p) == Parsed::Done(r1, e));
        lemma_truncated_tail_from(apply_record(m, r1), d, e, r, cut);
        assert(replay_log(m, d2, p) == replay_log(apply_record(m, r1), d2, e));
        assert(replay_log(m, d, p) == replay_log(apply_record(m, r1), d, e));
    }
}

pub(crate) proof fn lemma_replay_logs_prefix(a: Seq<LogReader>, b: Seq<LogReader>, k: int)
    requires
        0 <= k <= a.len(),
        k <= b.len(),
        forall|i: int| 0 <= i < k ==> a[i].data@ == b[i].data@,
    ensures
        replay_logs(a, k) == replay_logs(b, k),
    decreases k,
{
    if k > 0 {
        lemma_replay_logs_prefix(a, b, k - 1);
    }
}

pub(crate) proof fn lemma_reader_data(logs: Seq<LogReader>, i: int)
    requires
        ascending(logs),
        0 <= i < logs.len(),
    ensures
        reader_data(logs, logs[i].id) == Some(logs[i].data@),
    decreases logs.len(),
{
    if i < logs.len() - 1 {
        assert(logs.drop_last()[i] == logs[i]);
        lemma_reader_data(logs.drop_last(), i);
    }
}

} // verus!
