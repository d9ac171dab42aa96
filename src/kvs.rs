//! The storage engine: a key directory over a family of generation logs.
//!
//! The store holds its logs as they stand on disk. Every change to them is
//! also queued as a [`FileOp`]; the caller takes the queue with
//! [`KvStore::take_file_ops`] and performs it, in order, before it
//! acknowledges the operation that caused it.
use vstd::prelude::*;

use crate::error::Error;
use crate::log::{FileOp, LogReader, LogWriter};
use crate::record::{
    decode_at, encode, lemma_decode_encoded, lemma_decoded_is_encoding, parse_record,
    record_bytes, Decoded, LogCommand, Parsed, Record,
};
use crate::replay::{
    apply_ops, apply_record, ascending, ids_of, lemma_append_record, lemma_logs_map_dom,
    lemma_reader_data, lemma_replay_logs_prefix, lemma_replay_none, logs_map, logs_size, next_id,
    parses_fully, reader_data, replay_log, replay_logs,
};

verus! {

broadcast use vstd::seq::group_seq_axioms;

/// Compaction runs once more stale bytes than this have piled up.
pub const COMPACTION_THRESHOLD: usize = 1048576;

/// Where the authoritative record of a key lies: a generation and a byte range in it.
#[derive(Clone, Copy, Debug, PartialEq, Eq, Structural)]
pub struct Locator {
    pub gen: u64,
    pub offset: usize,
    pub len: usize,
}

/// One entry of the key directory.
#[derive(Debug)]
pub struct Entry {
    pub key: String,
    pub loc: Locator,
}

/// The directory as keys and locators.
pub open spec fn entries(dir: Seq<Entry>) -> Seq<(Seq<char>, Locator)> {
    dir.map_values(|e: Entry| (e.key@, e.loc))
}

pub open spec fn keys_unique(es: Seq<(Seq<char>, Locator)>) -> bool {
    forall|i: int, j: int|
        0 <= i < es.len() && 0 <= j < es.len() && i != j ==> es[i].0 != es[j].0
}

/// The byte range of `loc` in `data` holds exactly the encoding of `r`.
pub open spec fn holds_record(data: Option<Seq<u8>>, loc: Locator, r: Record) -> bool {
    &&& data is Some
    &&& loc.offset + loc.len <= data->0.len()
    &&& data->0.subrange(loc.offset as int, loc.offset + loc.len) == record_bytes(r)
}

/// The total length of the records that the directory points at.
pub open spec fn live_size(es: Seq<(Seq<char>, Locator)>) -> nat
    decreases es.len(),
{
    if es.len() == 0 {
        0
    } else {
        live_size(es.drop_last()) + es.last().1.len as nat
    }
}

/// The keys of the first `i` directory entries, with their values in `m`.
pub open spec fn live_prefix(
    es: Seq<(Seq<char>, Locator)>,
    m: Map<Seq<char>, Seq<char>>,
    i: int,
) -> Map<Seq<char>, Seq<char>> {
    Map::new(|k: Seq<char>| exists|j: int| 0 <= j < i && es[j].0 == k, |k: Seq<char>| m[k])
}

/// The length of the record that `k`'s locator covers, or 0 where `k` has no
/// entry.
pub open spec fn replaced_len(es: Seq<(Seq<char>, Locator)>, k: Seq<char>) -> int {
    if exists|i: int| 0 <= i < es.len() && es[i].0 == k {
        es[choose|i: int| 0 <= i < es.len() && es[i].0 == k].1.len as int
    } else {
        0
    }
}

/// `n`, capped at the largest `usize`.
pub open spec fn capped(n: nat) -> int {
    if n > usize::MAX {
        usize::MAX as int
    } else {
        n as int
    }
}

proof fn lemma_live_update(es: Seq<(Seq<char>, Locator)>, i: int, x: (Seq<char>, Locator))
    requires
        0 <= i < es.len(),
    ensures
        live_size(es.update(i, x)) == live_size(es) - es[i].1.len + x.1.len,
    decreases es.len(),
{
    if i == es.len() - 1 {
        assert(es.update(i, x).drop_last() =~= es.drop_last());
    } else {
        lemma_live_update(es.drop_last(), i, x);
        assert(es.update(i, x).drop_last() =~= es.drop_last().update(i, x));
    }
}

proof fn lemma_live_remove(es: Seq<(Seq<char>, Locator)>, i: int)
    requires
        0 <= i < es.len(),
    ensures
        live_size(es.remove(i)) == live_size(es) - es[i].1.len,
    decreases es.len(),
{
    if i == es.len() - 1 {
        assert(es.remove(i) =~= es.drop_last());
    } else {
        lemma_live_remove(es.drop_last(), i);
        assert(es.remove(i).drop_last() =~= es.drop_last().remove(i));
        assert(es.remove(i).last() == es.last());
    }
}

proof fn lemma_capped_add(u: int, n: nat, l: nat)
    requires
        u == capped(n),
    ensures
        sat_add(u, l as int) == capped(n + l),
{
}

/// `a + b`, saturating at the largest `usize`.
pub open spec fn sat_add(a: int, b: int) -> int {
    if a + b > usize::MAX {
        usize::MAX as int
    } else {
        a + b
    }
}

/// The directory after `k` is pointed at `loc`: its entry replaced in place,
/// or appended where it had none.
pub open spec fn written_entry(
    es0: Seq<(Seq<char>, Locator)>,
    es1: Seq<(Seq<char>, Locator)>,
    k: Seq<char>,
    loc: Locator,
) -> bool {
    ||| exists|i: int| 0 <= i < es0.len() && es0[i].0 == k && es1 == es0.update(i, (k, loc))
    ||| (forall|i: int| 0 <= i < es0.len() ==> es0[i].0 != k) && es1 == es0.push((k, loc))
}

proof fn lemma_replaced_len(es: Seq<(Seq<char>, Locator)>, i: int)
    requires
        keys_unique(es),
        0 <= i < es.len(),
    ensures
        replaced_len(es, es[i].0) == es[i].1.len,
{
    let j = choose|j: int| 0 <= j < es.len() && es[j].0 == es[i].0;
    assert(j == i);
}

/// An entry after compaction: the same key, now in `comp`, over the same
/// number of bytes, which are the bytes the old locator covered.
pub open spec fn moved_entry(
    before: (Seq<char>, Locator),
    after: (Seq<char>, Locator),
    old_data: Option<Seq<u8>>,
    new_data: Option<Seq<u8>>,
    comp: u64,
) -> bool {
    &&& after.0 == before.0
    &&& after.1.gen == comp
    &&& after.1.len == before.1.len
    &&& old_data is Some && new_data is Some
    &&& after.1.offset + after.1.len <= new_data->0.len()
    &&& before.1.offset + before.1.len <= old_data->0.len()
    &&& new_data->0.subrange(after.1.offset as int, after.1.offset + after.1.len)
        == old_data->0.subrange(before.1.offset as int, before.1.offset + before.1.len)
}

/// What compaction queues, in order: the compacted log `comp` appended in
/// full (`data`) and flushed, then the new empty active log `comp + 1`, and
/// only then the retirement of older generations.
pub open spec fn compaction_ops(ops: Seq<FileOp>, comp: u64, data: Seq<u8>) -> bool {
    &&& ops.len() >= 2
    &&& ops[0] matches FileOp::Append { gen, bytes } && gen == comp && bytes@ == data
    &&& ops[1] matches FileOp::Append { gen, bytes } && gen == comp + 1 && bytes@.len() == 0
    &&& forall|j: int|
        2 <= j < ops.len() ==> ((#[trigger] ops[j]) matches FileOp::Retire { gen } && gen < comp)
}

/// The first `i` entries of `es` copied, in order, into `out`, which points
/// into `data`: a log of whole records that replays to those entries' part of
/// `m`.
pub open spec fn copied(
    es: Seq<(Seq<char>, Locator)>,
    m: Map<Seq<char>, Seq<char>>,
    out: Seq<(Seq<char>, Locator)>,
    data: Seq<u8>,
    comp: u64,
    i: int,
) -> bool {
    &&& out.len() == i
    &&& data.len() == live_size(out)
    &&& parses_fully(data, 0)
    &&& replay_log(Map::empty(), data, 0) == Some(live_prefix(es, m, i))
    &&& forall|j: int|
        0 <= j < i ==> (#[trigger] out[j]).0 == es[j].0 && out[j].1.gen == comp && holds_record(
            Some(data),
            out[j].1,
            Record::Insert(out[j].0, m[out[j].0]),
        )
}

proof fn lemma_moved_entry(
    before: (Seq<char>, Locator),
    after: (Seq<char>, Locator),
    old_data: Option<Seq<u8>>,
    new_data: Option<Seq<u8>>,
    comp: u64,
    r: Record,
)
    requires
        holds_record(old_data, before.1, r),
        holds_record(new_data, after.1, r),
        after.0 == before.0,
        after.1.gen == comp,
    ensures
        moved_entry(before, after, old_data, new_data, comp),
{
    assert(old_data->0.subrange(before.1.offset as int, before.1.offset + before.1.len).len()
        == before.1.len);
    assert(new_data->0.subrange(after.1.offset as int, after.1.offset + after.1.len).len()
        == after.1.len);
}

#[verifier::rlimit(40)]
proof fn lemma_copy_step(
    es: Seq<(Seq<char>, Locator)>,
    m: Map<Seq<char>, Seq<char>>,
    out: Seq<(Seq<char>, Locator)>,
    data: Seq<u8>,
    comp: u64,
    i: int,
    rest: Seq<u8>,
    start: usize,
)
    requires
        copied(es, m, out, data, comp, i),
        0 <= i < es.len(),
        rest == record_bytes(Record::Insert(es[i].0, m[es[i].0])),
        start == data.len(),
        rest.len() == es[i].1.len,
    ensures
        copied(
            es,
            m,
            out.push((es[i].0, Locator { gen: comp, offset: start, len: es[i].1.len })),
            data + rest,
            comp,
            i + 1,
        ),
{
    let loc = Locator { gen: comp, offset: start, len: es[i].1.len };
    let out2 = out.push((es[i].0, loc));
    let data2 = data + rest;
    let rec = Record::Insert(es[i].0, m[es[i].0]);
    assert(out2.drop_last() =~= out);
    lemma_append_record(Map::empty(), data, 0, rec);
    assert(live_prefix(es, m, i + 1) =~= live_prefix(es, m, i).insert(es[i].0, m[es[i].0]));
    assert(data2.subrange(start as int, start + loc.len) =~= rest);
    assert forall|j: int| 0 <= j < i + 1 implies (#[trigger] out2[j]).0 == es[j].0 && out2[j].1.gen
        == comp && holds_record(Some(data2), out2[j].1, Record::Insert(out2[j].0, m[out2[j].0])) by {
        if j < i {
            assert(out2[j] == out[j]);
            lemma_holds_extended(data, rest, out[j].1, Record::Insert(out[j].0, m[out[j].0]));
        }
    }
}

proof fn lemma_holds_extended(d: Seq<u8>, x: Seq<u8>, loc: Locator, r: Record)
    requires
        holds_record(Some(d), loc, r),
    ensures
        holds_record(Some(d + x), loc, r),
{
    assert((d + x).subrange(loc.offset as int, loc.offset + loc.len) =~= d.subrange(
        loc.offset as int,
        loc.offset + loc.len,
    ));
}

/// Appends `src[offset..offset + len]` to both `data` and `copy`.
fn append_range(data: &mut Vec<u8>, copy: &mut Vec<u8>, src: &Vec<u8>, offset: usize, len: usize)
    requires
        offset + len <= src@.len(),
        old(copy)@ == old(data)@,
    ensures
        final(data)@ == old(data)@ + src@.subrange(offset as int, offset + len),
        final(copy)@ == final(data)@,
{
    let ghost data0 = data@;
    let n = src.len();
    let mut t: usize = 0;
    while t < len
        invariant
            t <= len,
            offset + len <= src@.len(),
            n == src@.len(),
            data@ == data0 + src@.subrange(offset as int, offset + t),
            copy@ == data@,
        decreases len - t,
    {
        let b = src[offset + t];
        data.push(b);
        copy.push(b);
        proof {
            assert(data@ =~= data0 + src@.subrange(offset as int, offset + t + 1));
        }
        t += 1;
    }
}

fn dir_find(dir: &Vec<Entry>, key: &String) -> (r: Option<usize>)
    ensures
        r matches Some(i) ==> i < dir@.len() && entries(dir@)[i as int].0 == key@,
        r is None ==> forall|j: int| 0 <= j < dir@.len() ==> entries(dir@)[j].0 != key@,
{
    let mut i: usize = 0;
    while i < dir.len()
        invariant
            i <= dir@.len(),
            forall|j: int| 0 <= j < i ==> entries(dir@)[j].0 != key@,
        decreases dir.len() - i,
    {
        if dir[i].key == *key {
            return Some(i);
        }
        i += 1;
    }
    None
}

/// Points `key` at `loc`; gives back the locator it replaced, if any.
fn dir_put(dir: &mut Vec<Entry>, key: String, loc: Locator) -> (r: Option<Locator>)
    requires
        keys_unique(entries(old(dir)@)),
    ensures
        keys_unique(entries(final(dir)@)),
        r matches Some(prev) ==> exists|i: int|
            0 <= i < old(dir)@.len() && #[trigger] entries(old(dir)@)[i] == (key@, prev)
                && entries(final(dir)@) == entries(old(dir)@).update(i, (key@, loc)),
        r is None ==> (forall|j: int|
            0 <= j < old(dir)@.len() ==> entries(old(dir)@)[j].0 != key@) && entries(final(dir)@)
            == entries(old(dir)@).push((key@, loc)),
{
    let ghost k = key@;
    match dir_find(dir, &key) {
        Some(i) => {
            let prev = dir[i].loc;
            dir[i].loc = loc;
            proof {
                assert(entries(dir@) =~= entries(old(dir)@).update(i as int, (k, loc)));
                assert(entries(old(dir)@)[i as int] == (k, prev));
            }
            Some(prev)
        },
        None => {
            dir.push(Entry { key, loc });
            proof {
                assert(entries(dir@) =~= entries(old(dir)@).push((k, loc)));
            }
            None
        },
    }
}

/// Drops the entry of `key`; gives back its locator, if there was one.
fn dir_take(dir: &mut Vec<Entry>, key: &String) -> (r: Option<Locator>)
    requires
        keys_unique(entries(old(dir)@)),
    ensures
        keys_unique(entries(final(dir)@)),
        r matches Some(prev) ==> exists|i: int|
            0 <= i < old(dir)@.len() && #[trigger] entries(old(dir)@)[i] == (key@, prev)
                && entries(final(dir)@) == entries(old(dir)@).remove(i),
        r is None ==> (forall|j: int|
            0 <= j < old(dir)@.len() ==> entries(old(dir)@)[j].0 != key@) && final(dir)@
            == old(dir)@,
{
    match dir_find(dir, key) {
        Some(i) => {
            let e = dir.remove(i);
            proof {
                assert(entries(dir@) =~= entries(old(dir)@).remove(i as int));
                assert(entries(old(dir)@)[i as int] == (key@, e.loc));
            }
            Some(e.loc)
        },
        None => None,
    }
}

/// The storage engine.
pub struct KvStore {
    dir: Vec<Entry>,
    readers: Vec<LogReader>,
    writer: LogWriter,
    uncompacted: usize,
    pending: Vec<FileOp>,
    model: Ghost<Map<Seq<char>, Seq<char>>>,
    disk: Ghost<Map<u64, Seq<u8>>>,
    stale_exact: Ghost<nat>,
}

impl View for KvStore {
    type V = Map<Seq<char>, Seq<char>>;

    /// The mapping from keys to values that the store holds.
    closed spec fn view(&self) -> Map<Seq<char>, Seq<char>> {
        self.model@
    }
}

impl KvStore {
    /// The bytes of generation `g`, if the store holds it.
    pub closed spec fn gen_data(&self, g: u64) -> Option<Seq<u8>> {
        if g == self.writer.id {
            Some(self.writer.data@)
        } else {
            reader_data(self.readers@, g)
        }
    }

    /// The ids of the generations, ascending; the last one is active.
    pub closed spec fn gen_ids(&self) -> Seq<u64> {
        self.readers@.map_values(|r: LogReader| r.id).push(self.writer.id)
    }

    /// The id of the active generation.
    pub closed spec fn active_id(&self) -> u64 {
        self.writer.id
    }

    /// The directory: each key with the locator of its record.
    pub closed spec fn directory(&self) -> Seq<(Seq<char>, Locator)> {
        entries(self.dir@)
    }

    /// The count of stale bytes, saturating at the largest `usize`: bytes of
    /// the logs that no locator covers. Overwritten records, removed records,
    /// removal records themselves and a record cut off at the end of a log all
    /// count.
    pub closed spec fn stale(&self) -> usize {
        self.uncompacted
    }

    /// The exact count of stale bytes.
    pub closed spec fn stale_bytes(&self) -> nat {
        self.stale_exact@
    }

    /// The log files, by generation id, as the file operations handed out so
    /// far leave them.
    pub closed spec fn files(&self) -> Map<u64, Seq<u8>> {
        self.disk@
    }

    /// The file operations not yet handed out.
    pub closed spec fn pending_ops(&self) -> Seq<FileOp> {
        self.pending@
    }

    /// The directory's invariant: generations ascend with the active one
    /// last, keys are unique, and the directory holds exactly the mapped keys,
    /// each pointing at the insert of its current value.
    pub closed spec fn wf_dir(&self) -> bool {
        let es = entries(self.dir@);
        &&& ascending(self.readers@)
        &&& forall|i: int| 0 <= i < self.readers@.len() ==> self.readers@[i].id < self.writer.id
        &&& keys_unique(es)
        &&& forall|i: int| 0 <= i < es.len() ==> #[trigger] self.entry_ok(es[i])
        &&& forall|k: Seq<char>|
            self.model@.contains_key(k) ==> exists|i: int| 0 <= i < es.len() && #[trigger] es[i].0 == k
    }

    /// The logs as they stand: the sealed generations, then the active one.
    pub closed spec fn logs(&self) -> Seq<LogReader> {
        self.readers@.push(LogReader { id: self.writer.id, data: self.writer.data })
    }

    /// The store's invariant: the directory points at the current values, the
    /// active log holds whole records only, and replaying the logs yields the
    /// mapping.
    #[verifier::opaque]
    pub closed spec fn wf(&self) -> bool {
        &&& self.wf_dir()
        &&& parses_fully(self.writer.data@, 0)
        &&& replay_logs(self.logs(), self.logs().len() as int) == Some(self.model@)
        &&& apply_ops(self.disk@, self.pending@) == logs_map(self.logs())
        &&& self.size_ok()
    }

    /// The logs hold the live records and the stale bytes, nothing else, and
    /// the stale count is the exact one, capped.
    #[verifier::opaque]
    pub closed spec fn size_ok(&self) -> bool {
        &&& self.uncompacted as int == capped(self.stale_exact@)
        &&& logs_size(self.logs()) == live_size(entries(self.dir@)) + self.stale_exact@
    }

    /// The key of `e` is mapped, and `e`'s locator holds the insert of its current value.
    pub closed spec fn entry_ok(&self, e: (Seq<char>, Locator)) -> bool {
        &&& self.model@.contains_key(e.0)
        &&& holds_record(self.gen_data(e.1.gen), e.1, Record::Insert(e.0, self.model@[e.0]))
    }

    /// Every key of the directory points at the encoding of an insert of
    /// that key with its current value.
    pub proof fn lemma_locator_decodes(&self, k: Seq<char>)
        requires
            self.wf(),
            self@.contains_key(k),
        ensures
            exists|i: int|
                0 <= i < self.directory().len() && #[trigger] self.directory()[i].0 == k && ({
                    let loc = self.directory()[i].1;
                    let d = self.gen_data(loc.gen);
                    d is Some && loc.offset + loc.len <= d->0.len() && parse_record(
                        d->0,
                        loc.offset as int,
                    ) == Parsed::Done(Record::Insert(k, self@[k]), loc.offset + loc.len)
                }),
    {
        reveal(KvStore::wf);
        let es = entries(self.dir@);
        let i = choose|i: int| 0 <= i < es.len() && #[trigger] es[i].0 == k;
        assert(self.entry_ok(es[i]));
        let loc = es[i].1;
        lemma_decode_encoded(
            Record::Insert(k, self@[k]),
            self.gen_data(loc.gen)->0,
            loc.offset as int,
        );
        assert(self.directory()[i].0 == k);
    }

    /// Closing a store and opening it again gives back the same mapping: the
    /// logs it leaves ascend by id and replay to exactly its mapping, and,
    /// while ids remain, there is room for the next active generation.
    pub proof fn lemma_reopen(&self)
        requires
            self.wf(),
        ensures
            ascending(self.logs()),
            replay_logs(self.logs(), self.logs().len() as int) == Some(self@),
            self.active_id() < u64::MAX ==> next_id(self.logs()) <= u64::MAX,
    {
        reveal(KvStore::wf);
        let l = self.logs();
        assert forall|i: int, j: int| 0 <= i < j < l.len() implies l[i].id < l[j].id by {
            if j < self.readers@.len() {
                assert(l[i] == self.readers@[i] && l[j] == self.readers@[j]);
            } else {
                assert(l[i] == self.readers@[i]);
            }
        }
    }

    /// The logs hold the live records and the stale bytes and nothing else:
    /// their total size is the size of the records the directory points at
    /// plus the exact stale count, of which `stale()` is the capped value. So
    /// after a write, which leaves `stale()` at most the threshold while ids
    /// remain, the logs exceed the live data by at most the threshold.
    pub proof fn lemma_log_size(&self)
        requires
            self.wf(),
        ensures
            logs_size(self.logs()) == live_size(self.directory()) + self.stale_bytes(),
            self.stale() as int == capped(self.stale_bytes()),
            self.stale() < usize::MAX ==> logs_size(self.logs()) == live_size(self.directory())
                + self.stale(),
    {
        reveal(KvStore::wf);
        reveal(KvStore::size_ok);
    }

    /// The file operations not yet handed out, performed in order on the log
    /// files, leave exactly the store's logs on disk.
    pub proof fn lemma_files_in_line(&self)
        requires
            self.wf(),
        ensures
            apply_ops(self.files(), self.pending_ops()) == logs_map(self.logs()),
    {
        reveal(KvStore::wf);
    }

    /// The bytes of generation `g`.
    fn data_of(&self, g: u64) -> (r: Option<&Vec<u8>>)
        ensures
            r is Some <==> self.gen_data(g) is Some,
            r matches Some(d) ==> self.gen_data(g) == Some(d@),
    {
        if g == self.writer.id {
            return Some(&self.writer.data);
        }
        let mut i = self.readers.len();
        proof {
            assert(self.readers@.subrange(0, i as int) =~= self.readers@);
        }
        while i > 0
            invariant
                i <= self.readers@.len(),
                g != self.writer.id,
                reader_data(self.readers@, g) == reader_data(self.readers@.subrange(0, i as int), g),
            decreases i,
        {
            if self.readers[i - 1].id == g {
                proof {
                    let sub = self.readers@.subrange(0, i as int);
                    assert(sub.last() == self.readers@[i - 1]);
                    assert(sub.len() > 0);
                    assert(reader_data(sub, g) == Some(sub.last().data@));
                }
                return Some(&self.readers[i - 1].data);
            }
            proof {
                assert(self.readers@.subrange(0, i as int).drop_last() =~= self.readers@.subrange(
                    0,
                    i - 1,
                ));
            }
            i -= 1;
        }
        None
    }

    /// The value of `key`, or `None` where it has no mapping.
    pub fn get(&self, key: String) -> (r: Result<Option<String>, Error>)
        requires
            self.wf(),
        ensures
            r is Ok,
            r matches Ok(Some(v)) ==> self@.contains_key(key@) && v@ == self@[key@],
            r matches Ok(None) ==> !self@.contains_key(key@),
    {
        proof {
            reveal(KvStore::wf);
        }
        let ghost es = entries(self.dir@);
        match dir_find(&self.dir, &key) {
            None => {
                proof {
                    if self@.contains_key(key@) {
                        let i = choose|i: int| 0 <= i < es.len() && #[trigger] es[i].0 == key@;
                        assert(es[i].0 != key@);
                    }
                }
                Ok(None)
            },
            Some(i) => {
                let loc = self.dir[i].loc;
                proof {
                    assert(self.entry_ok(es[i as int]));
                }
                match self.data_of(loc.gen) {
                    None => Err(Error::Corrupt),
                    Some(d) => {
                        proof {
                            lemma_decode_encoded(
                                Record::Insert(key@, self@[key@]),
                                d@,
                                loc.offset as int,
                            );
                        }
                        match decode_at(d.as_slice(), loc.offset) {
                            Decoded::Record(LogCommand::Insert { value, .. }, _) => Ok(Some(value)),
                            _ => Err(Error::Corrupt),
                        }
                    },
                }
            },
        }
    }

    /// An empty store, as on an empty directory: no keys, and generation 1
    /// active (its file is the first queued operation).
    pub fn new() -> (r: KvStore)
        ensures
            r.wf(),
            r@ == Map::<Seq<char>, Seq<char>>::empty(),
            r.gen_ids() == seq![1u64],
            r.active_id() == 1,
            r.gen_data(1) == Some(Seq::<u8>::empty()),
            r.stale() == 0,
            r.directory().len() == 0,
            r.pending_ops().len() == 1,
            r.pending_ops()[0] matches FileOp::Append { gen, bytes } && gen == 1 && bytes@.len()
                == 0,
    {
        let mut pending: Vec<FileOp> = Vec::new();
        pending.push(FileOp::Append { gen: 1, bytes: Vec::new() });
        let store = KvStore {
            dir: Vec::new(),
            readers: Vec::new(),
            writer: LogWriter::new(1),
            uncompacted: 0,
            pending,
            model: Ghost(Map::empty()),
            disk: Ghost(Map::empty()),
            stale_exact: Ghost(0),
        };
        proof {
            assert(entries(store.dir@) =~= Seq::<(Seq<char>, Locator)>::empty());
            assert(store.writer.data@ =~= Seq::<u8>::empty());
            assert(store.logs().drop_last() =~= Seq::<LogReader>::empty());
            assert(store.pending@.drop_last() =~= Seq::<FileOp>::empty());
            assert(logs_map(store.logs().drop_last()) == Map::<u64, Seq<u8>>::empty());
            assert(apply_ops(Map::empty(), store.pending@.drop_last()) == Map::<
                u64,
                Seq<u8>,
            >::empty());
            assert(Seq::<u8>::empty() + Seq::<u8>::empty() =~= store.writer.data@);
            assert(apply_ops(Map::empty(), store.pending@) =~= logs_map(store.logs()));
            assert(store.gen_ids() =~= seq![1u64]);
            let l = store.logs();
            assert(replay_logs(l, 0) == Some(Map::<Seq<char>, Seq<char>>::empty()));
            assert(l.drop_last() =~= Seq::<LogReader>::empty());
            assert(logs_size(l.drop_last()) == 0);
            assert(logs_size(l) == 0);
            assert(live_size(entries(store.dir@)) == 0);
            reveal(KvStore::wf);
            reveal(KvStore::size_ok);
        }
        store
    }

    /// Opens the store on its generation logs, given in ascending id order:
    /// replays them to rebuild the directory and starts a fresh active
    /// generation after the last. Fails with `Corrupt` where the ids do not
    /// ascend, the id space is spent, or a log is corrupt; a record cut off at
    /// the end of a log is dropped.
    pub fn open(logs: Vec<LogReader>) -> (r: Result<KvStore, Error>)
        ensures
            r is Ok <==> ascending(logs@) && next_id(logs@) <= u64::MAX && replay_logs(
                logs@,
                logs@.len() as int,
            ) is Some,
            r is Err ==> r == Err::<KvStore, Error>(Error::Corrupt),
            r matches Ok(s) ==> s.wf() && s@ == replay_logs(logs@, logs@.len() as int)->0
                && s.files() == logs_map(logs@) && s.active_id() == next_id(logs@)
                && live_size(s.directory()) + s.stale_bytes() == logs_size(logs@)
                && s.gen_data(next_id(logs@) as u64) == Some(Seq::<u8>::empty())
                && s.pending_ops().len() == 1 && (s.pending_ops()[0] matches FileOp::Append {
                gen,
                bytes,
            } && gen == next_id(logs@) && bytes@.len() == 0)
                && s.gen_ids() == ids_of(logs@).push(next_id(logs@) as u64),
    {
        let n = logs.len();
        let mut i: usize = 1;
        while i < n
            invariant
                n == logs@.len(),
                1 <= i,
                forall|a: int, b: int| 0 <= a < b < i && b < n ==> logs@[a].id < logs@[b].id,
            decreases n - i,
        {
            if logs[i - 1].id >= logs[i].id {
                return Err(Error::Corrupt);
            }
            proof {
                assert forall|a: int, b: int| 0 <= a < b < i + 1 && b < n implies logs@[a].id
                    < logs@[b].id by {
                    if b == i && a < i - 1 {
                        assert(logs@[a].id < logs@[i - 1].id);
                    }
                }
            }
            i += 1;
        }
        let next = if n == 0 {
            1
        } else {
            let last = logs[n - 1].id;
            if last == u64::MAX {
                return Err(Error::Corrupt);
            }
            last + 1
        };
        let ghost input = logs@;
        let ghost files = logs_map(input);
        let mut pending: Vec<FileOp> = Vec::new();
        pending.push(FileOp::Append { gen: next, bytes: Vec::new() });
        let mut store = KvStore {
            dir: Vec::new(),
            readers: logs,
            writer: LogWriter::new(next),
            uncompacted: 0,
            pending,
            model: Ghost(Map::empty()),
            disk: Ghost(files),
            stale_exact: Ghost(0),
        };
        proof {
            assert(entries(store.dir@) =~= Seq::<(Seq<char>, Locator)>::empty());
            assert(store.wf_dir());
        }
        let ghost p0 = store.pending@;
        proof {
            assert(input.subrange(0, 0) =~= Seq::<LogReader>::empty());
        }
        let mut g: usize = 0;
        while g < n
            invariant
                store.wf_dir(),
                store.readers@ == input,
                input == logs@,
                n == input.len(),
                ascending(input),
                store.writer.id == next,
                store.writer.data@.len() == 0,
                store.pending@ == p0,
                store.disk@ == files,
                g <= n,
                replay_logs(input, g as int) == Some(store@),
                store.uncompacted as int == capped(store.stale_exact@),
                live_size(entries(store.dir@)) + store.stale_exact@ == logs_size(
                    input.subrange(0, g as int),
                ),
            decreases n - g,
        {
            let ghost m0 = store@;
            let ghost d = input[g as int].data@;
            let gid = store.readers[g].id;
            let len = store.readers[g].data.len();
            let mut pos: usize = 0;
            proof {
                lemma_reader_data(input, g as int);
            }
            while pos < len
                invariant
                    store.wf_dir(),
                    store.readers@ == input,
                    input == logs@,
                    n == input.len(),
                    g < n,
                    ascending(input),
                    store.writer.id == next,
                    store.writer.data@.len() == 0,
                    store.pending@ == p0,
                    store.disk@ == files,
                    gid == input[g as int].id,
                    gid < next,
                    d == input[g as int].data@,
                    len == d.len(),
                    pos <= len,
                    reader_data(input, gid) == Some(d),
                    replay_logs(input, g as int) == Some(m0),
                    replay_log(m0, d, 0) == replay_log(store@, d, pos as int),
                    store.uncompacted as int == capped(store.stale_exact@),
                    live_size(entries(store.dir@)) + store.stale_exact@ == logs_size(
                        input.subrange(0, g as int),
                    ) + pos,
                ensures
                    replay_log(m0, d, 0) == Some(store@),
                    live_size(entries(store.dir@)) + store.stale_exact@ == logs_size(
                        input.subrange(0, g as int),
                    ) + len,
                    store.uncompacted as int == capped(store.stale_exact@),
                decreases len - pos,
            {
                match decode_at(store.readers[g].data.as_slice(), pos) {
                    Decoded::Record(cmd, end) => {
                        proof {
                            lemma_decoded_is_encoding(d, pos as int);
                            assert(parse_record(d, pos as int) == Parsed::Done(cmd@, end as int));
                            assert(replay_log(store@, d, pos as int) == replay_log(
                                apply_record(store@, cmd@),
                                d,
                                end as int,
                            ));
                        }
                        let loc = Locator { gen: gid, offset: pos, len: end - pos };
                        proof {
                            assert(store.gen_data(gid) == Some(d));
                        }
                        store.replay_record(cmd, loc);
                        pos = end;
                    },
                    Decoded::Incomplete => {
                        let ghost before = store;
                        store.uncompacted = store.uncompacted.saturating_add(len - pos);
                        store.stale_exact = Ghost(store.stale_exact@ + (len - pos) as nat);
                        proof {
                            let es = entries(store.dir@);
                            assert forall|i: int| 0 <= i < es.len() implies #[trigger] store.entry_ok(
                                es[i],
                            ) by {
                                assert(before.entry_ok(es[i]));
                            }
                        }
                        pos = len;
                        break ;
                    },
                    Decoded::Malformed => {
                        proof {
                            assert(replay_log(store@, d, pos as int) is None);
                            assert(replay_logs(input, g + 1) is None);
                            lemma_replay_none(input, g + 1, n as int);
                        }
                        return Err(Error::Corrupt);
                    },
                }
            }
            proof {
                assert(replay_logs(input, g + 1) == Some(store@));
                assert(input.subrange(0, g + 1).drop_last() =~= input.subrange(0, g as int));
            }
            g += 1;
        }
        proof {
            assert(store.gen_ids() =~= ids_of(input).push(next));
            let l = store.logs();
            lemma_replay_logs_prefix(l, input, n as int);
            assert(l[n as int].data@ =~= Seq::<u8>::empty());
            assert(replay_logs(l, n + 1) == replay_logs(l, n as int));
            lemma_logs_map_dom(input);
            assert(!files.contains_key(next));
            assert(p0.drop_last() =~= Seq::<FileOp>::empty());
            assert(l.drop_last() =~= input);
            assert(apply_ops(files, p0.drop_last()) == files);
            assert(Seq::<u8>::empty() + Seq::<u8>::empty() =~= store.writer.data@);
            assert(apply_ops(files, p0) =~= logs_map(l));
            assert(input.subrange(0, n as int) =~= input);
            assert(logs_size(l) == logs_size(input) + 0);
            reveal(KvStore::wf);
            reveal(KvStore::size_ok);
        }
        Ok(store)
    }

    /// Applies a record that stands at `loc` to the directory, as replay does.
    fn replay_record(&mut self, cmd: LogCommand, loc: Locator)
        requires
            old(self).wf_dir(),
            holds_record(old(self).gen_data(loc.gen), loc, cmd@),
        ensures
            final(self).wf_dir(),
            final(self)@ == apply_record(old(self)@, cmd@),
            final(self).readers == old(self).readers,
            final(self).writer == old(self).writer,
            final(self).pending == old(self).pending,
            final(self).disk == old(self).disk,
            old(self).uncompacted as int == capped(old(self).stale_exact@) ==> final(self).uncompacted as int == capped(final(self).stale_exact@),
            live_size(entries(final(self).dir@)) + final(self).stale_exact@ == live_size(
                entries(old(self).dir@),
            ) + old(self).stale_exact@ + loc.len,
            cmd@ matches Record::Insert(k, _) ==> written_entry(
                entries(old(self).dir@),
                entries(final(self).dir@),
                k,
                loc,
            ),
            cmd@ matches Record::Remove(k) ==> (exists|i: int|
                0 <= i < old(self).dir@.len() && entries(old(self).dir@)[i].0 == k && entries(
                    final(self).dir@,
                ) == entries(old(self).dir@).remove(i)) || ((forall|i: int|
                0 <= i < old(self).dir@.len() ==> entries(old(self).dir@)[i].0 != k) && entries(
                final(self).dir@,
            ) == entries(old(self).dir@)),
    {
        let ghost a = *self;
        match cmd {
            LogCommand::Insert { key, value } => {
                let ghost k = key@;
                let ghost v = value@;
                let prev = dir_put(&mut self.dir, key, loc);
                self.model = Ghost(self.model@.insert(k, v));
                if let Some(p) = prev {
                    self.uncompacted = self.uncompacted.saturating_add(p.len);
                    self.stale_exact = Ghost(self.stale_exact@ + p.len as nat);
                }
                proof {
                    lemma_wf_put(a, *self, k, v, loc, prev);
                    let es_a = entries(a.dir@);
                    if let Some(p) = prev {
                        let i = choose|i: int|
                            0 <= i < es_a.len() && #[trigger] es_a[i] == (k, p) && entries(
                                self.dir@,
                            ) == es_a.update(i, (k, loc));
                        lemma_live_update(es_a, i, (k, loc));
                    } else {
                        assert(entries(self.dir@).drop_last() =~= es_a);
                    }
                }
            },
            LogCommand::Remove { key } => {
                let ghost k = key@;
                let prev = dir_take(&mut self.dir, &key);
                self.model = Ghost(self.model@.remove(k));
                if let Some(p) = prev {
                    self.uncompacted = self.uncompacted.saturating_add(p.len).saturating_add(loc.len);
                    self.stale_exact = Ghost(self.stale_exact@ + p.len as nat + loc.len as nat);
                    proof {
                        lemma_wf_take(a, *self, k, p);
                        let es_a = entries(a.dir@);
                        let j = choose|j: int|
                            0 <= j < es_a.len() && #[trigger] es_a[j] == (k, p) && entries(
                                self.dir@,
                            ) == es_a.remove(j);
                        lemma_live_remove(es_a, j);
                    }
                } else {
                    self.uncompacted = self.uncompacted.saturating_add(loc.len);
                    self.stale_exact = Ghost(self.stale_exact@ + loc.len as nat);
                    proof {
                        assert(!a.model@.contains_key(k)) by {
                            if a.model@.contains_key(k) {
                                let i = choose|i: int|
                                    0 <= i < entries(a.dir@).len() && #[trigger] entries(a.dir@)[i].0
                                        == k;
                                assert(entries(a.dir@)[i].0 != k);
                            }
                        }
                        assert(self.model@ =~= a.model@);
                        let es = entries(self.dir@);
                        assert forall|i: int| 0 <= i < es.len() implies #[trigger] self.entry_ok(
                            es[i],
                        ) by {
                            assert(a.entry_ok(es[i]));
                        }
                    }
                }
            },
        }
    }

    /// The ids of the generations, ascending; the active one is last.
    pub fn generation_ids(&self) -> (r: Vec<u64>)
        ensures
            r@ == self.gen_ids(),
    {
        let mut r: Vec<u64> = Vec::new();
        let mut i: usize = 0;
        while i < self.readers.len()
            invariant
                i <= self.readers@.len(),
                r@ == ids_of(self.readers@.subrange(0, i as int)),
            decreases self.readers.len() - i,
        {
            r.push(self.readers[i].id);
            proof {
                assert(ids_of(self.readers@.subrange(0, i + 1)) =~= ids_of(
                    self.readers@.subrange(0, i as int),
                ).push(self.readers@[i as int].id));
            }
            i += 1;
        }
        r.push(self.writer.id);
        proof {
            assert(self.readers@.subrange(0, self.readers@.len() as int) =~= self.readers@);
        }
        r
    }

    /// The number of keys with a mapping.
    pub fn len(&self) -> (r: usize)
        ensures
            r == self.directory().len(),
    {
        self.dir.len()
    }

    /// The count of stale bytes that the next compaction reclaims: replaced
    /// and removed records, removal records themselves, and a record cut off
    /// at the end of a log (saturating).
    pub fn uncompacted(&self) -> (r: usize)
        ensures
            r == self.stale(),
    {
        self.uncompacted
    }

    /// The total size of the generation logs, in bytes (saturating).
    pub fn log_size(&self) -> (r: u64)
        ensures
            r == if logs_size(self.logs()) > u64::MAX {
                u64::MAX as nat
            } else {
                logs_size(self.logs())
            },
    {
        let mut total: u64 = 0;
        let mut i: usize = 0;
        while i < self.readers.len()
            invariant
                i <= self.readers@.len(),
                total == if logs_size(self.readers@.subrange(0, i as int)) > u64::MAX {
                    u64::MAX as nat
                } else {
                    logs_size(self.readers@.subrange(0, i as int))
                },
            decreases self.readers.len() - i,
        {
            proof {
                assert(self.readers@.subrange(0, i + 1).drop_last() =~= self.readers@.subrange(
                    0,
                    i as int,
                ));
            }
            total = total.saturating_add(self.readers[i].data.len() as u64);
            i += 1;
        }
        proof {
            assert(self.readers@.subrange(0, i as int) =~= self.readers@);
            assert(self.logs().drop_last() =~= self.readers@);
        }
        total.saturating_add(self.writer.data.len() as u64)
    }

    /// Closes the store, giving back its generation logs in ascending id
    /// order, the active one last: what the disk holds once every file
    /// operation handed out has been performed.
    pub fn close(self) -> (r: Vec<LogReader>)
        requires
            self.wf(),
        ensures
            r@ == self.logs(),
            ids_of(r@) == self.gen_ids(),
            forall|i: int| 0 <= i < r@.len() ==> self.gen_data(r@[i].id) == Some(r@[i].data@),
    {
        proof {
            reveal(KvStore::wf);
        }
        let mut logs = self.readers;
        logs.push(LogReader { id: self.writer.id, data: self.writer.data });
        proof {
            assert(ids_of(logs@) =~= self.gen_ids());
            assert forall|i: int| 0 <= i < logs@.len() implies self.gen_data(logs@[i].id) == Some(
                logs@[i].data@,
            ) by {
                if i < self.readers@.len() {
                    assert(logs@[i] == self.readers@[i]);
                    lemma_reader_data(self.readers@, i);
                }
            }
        }
        logs
    }

    /// Hands out the file operations queued since the last call, in the order
    /// in which they are to be performed.
    pub fn take_file_ops(&mut self) -> (r: Vec<FileOp>)
        requires
            old(self).wf(),
        ensures
            final(self).wf(),
            r@ == old(self).pending_ops(),
            final(self).pending_ops() == Seq::<FileOp>::empty(),
            final(self)@ == old(self)@,
            final(self).gen_ids() == old(self).gen_ids(),
            final(self).files() == apply_ops(old(self).files(), r@),
            final(self).files() == logs_map(final(self).logs()),
    {
        proof {
            reveal(KvStore::wf);
        }
        self.disk = Ghost(apply_ops(self.disk@, self.pending@));
        let mut ops: Vec<FileOp> = Vec::new();
        std::mem::swap(&mut ops, &mut self.pending);
        proof {
            reveal(KvStore::size_ok);
            let es = entries(self.dir@);
            assert forall|i: int| 0 <= i < es.len() implies #[trigger] self.entry_ok(es[i]) by {
                assert(old(self).entry_ok(es[i]));
            }
        }
        ops
    }

    /// Whether `key` has a mapping.
    pub fn contains_key(&self, key: &String) -> (r: bool)
        requires
            self.wf(),
        ensures
            r == self@.contains_key(key@),
    {
        proof {
            reveal(KvStore::wf);
        }
        match dir_find(&self.dir, key) {
            None => {
                proof {
                    let es = entries(self.dir@);
                    if self@.contains_key(key@) {
                        let i = choose|i: int| 0 <= i < es.len() && #[trigger] es[i].0 == key@;
                        assert(es[i].0 != key@);
                    }
                }
                false
            },
            Some(i) => {
                proof {
                    assert(self.entry_ok(entries(self.dir@)[i as int]));
                }
                true
            },
        }
    }

    /// Appends the encoding of `cmd` to the active generation and queues it
    /// for the disk; gives back where it landed and its length.
    fn append_record(&mut self, cmd: &LogCommand) -> (r: (usize, usize))
        requires
            old(self).wf(),
        ensures
            final(self).wf_dir(),
            parses_fully(final(self).writer.data@, 0),
            replay_logs(final(self).logs(), final(self).logs().len() as int) == Some(
                apply_record(old(self)@, cmd@),
            ),
            final(self).writer.id == old(self).writer.id,
            final(self).writer.data@ == old(self).writer.data@ + record_bytes(cmd@),
            r.0 == old(self).writer.data@.len(),
            r.1 == record_bytes(cmd@).len(),
            final(self).readers == old(self).readers,
            final(self).dir == old(self).dir,
            final(self).model == old(self).model,
            final(self).uncompacted == old(self).uncompacted,
            final(self).disk == old(self).disk,
            apply_ops(final(self).disk@, final(self).pending@) == logs_map(final(self).logs()),
            appended_record(*old(self), *final(self), record_bytes(cmd@)),
            final(self).stale_exact == old(self).stale_exact,
            logs_size(final(self).logs()) == logs_size(old(self).logs()) + record_bytes(cmd@).len(),
    {
        proof {
            reveal(KvStore::wf);
        }
        let bytes = encode(cmd);
        let pos = self.writer.pos();
        self.writer.write(bytes.as_slice());
        let len = bytes.len();
        self.pending.push(FileOp::Append { gen: self.writer.id, bytes });
        proof {
            assert(self.gen_ids() =~= old(self).gen_ids());
            assert(self.pending@.drop_last() =~= old(self).pending@);
            assert(self.logs().drop_last() =~= self.readers@);
            assert(old(self).logs().drop_last() =~= self.readers@);
            assert(apply_ops(self.disk@, self.pending@) =~= logs_map(self.logs()));
            let n = self.logs().len() as int;
            lemma_replay_logs_prefix(self.logs(), old(self).logs(), n - 1);
            let m1 = replay_logs(old(self).logs(), n - 1)->0;
            lemma_append_record(m1, old(self).writer.data@, 0, cmd@);
            assert(self.logs()[n - 1].data@ == old(self).writer.data@ + record_bytes(cmd@));
            let es = entries(self.dir@);
            assert forall|i: int| 0 <= i < es.len() implies #[trigger] self.entry_ok(es[i]) by {
                assert(old(self).entry_ok(es[i]));
                if es[i].1.gen == self.writer.id {
                    lemma_holds_extended(
                        old(self).writer.data@,
                        record_bytes(cmd@),
                        es[i].1,
                        Record::Insert(es[i].0, self.model@[es[i].0]),
                    );
                }
            }
        }
        (pos, len)
    }

    /// Writes `key -> value`.
    pub fn set(&mut self, key: String, value: String) -> (r: Result<(), Error>)
        requires
            old(self).wf(),
        ensures
            final(self).wf(),
            r is Ok,
            final(self)@ == old(self)@.insert(key@, value@),
            compacts(*old(self), set_stale(*old(self), key@)) ==> final(self).active_id() == old(self).active_id() + 2 && final(self).gen_ids() == seq![
                (old(self).active_id() + 1) as u64,
                (old(self).active_id() + 2) as u64,
            ] && final(self).stale() == 0,
            !compacts(*old(self), set_stale(*old(self), key@)) ==> final(self).stale() == set_stale(
                *old(self),
                key@,
            ) && appended_record(
                *old(self),
                *final(self),
                record_bytes(Record::Insert(key@, value@)),
            ) && written_entry(
                old(self).directory(),
                final(self).directory(),
                key@,
                Locator {
                    gen: old(self).active_id(),
                    offset: old(self).gen_data(old(self).active_id())->0.len() as usize,
                    len: record_bytes(Record::Insert(key@, value@)).len() as usize,
                },
            ),
            old(self).active_id() < u64::MAX - 1 ==> final(self).stale() <= COMPACTION_THRESHOLD,
    {
        self.put_record(key, value);
        self.compact_if_due();
        Ok(())
    }

    /// Appends the insert of `key -> value` and points the directory at it.
    fn put_record(&mut self, key: String, value: String)
        requires
            old(self).wf(),
        ensures
            final(self).wf(),
            final(self)@ == old(self)@.insert(key@, value@),
            final(self).stale() == set_stale(*old(self), key@),
            appended_record(*old(self), *final(self), record_bytes(Record::Insert(key@, value@))),
            written_entry(
                old(self).directory(),
                final(self).directory(),
                key@,
                Locator {
                    gen: old(self).active_id(),
                    offset: old(self).gen_data(old(self).active_id())->0.len() as usize,
                    len: record_bytes(Record::Insert(key@, value@)).len() as usize,
                },
            ),
    {
        proof {
            reveal(KvStore::wf);
        }
        let ghost k = key@;
        let ghost v = value@;
        let cmd = LogCommand::Insert { key: key.clone(), value };
        let (pos, len) = self.append_record(&cmd);
        let loc = Locator { gen: self.writer.id, offset: pos, len };
        proof {
            assert(self.writer.data@.subrange(pos as int, pos + len) =~= record_bytes(cmd@));
        }
        let ghost appended = *self;
        let prev = dir_put(&mut self.dir, key, loc);
        self.model = Ghost(self.model@.insert(k, v));
        if let Some(p) = prev {
            self.uncompacted = self.uncompacted.saturating_add(p.len);
            self.stale_exact = Ghost(self.stale_exact@ + p.len as nat);
        }
        proof {
            lemma_wf_put(appended, *self, k, v, loc, prev);
            reveal(KvStore::size_ok);
            assert(old(self).size_ok());
            let es_a = entries(appended.dir@);
            if let Some(p) = prev {
                let i = choose|i: int|
                    0 <= i < es_a.len() && #[trigger] es_a[i] == (k, p) && entries(self.dir@)
                        == es_a.update(i, (k, loc));
                lemma_live_update(es_a, i, (k, loc));
                lemma_capped_add(appended.uncompacted as int, appended.stale_exact@, p.len as nat);
            } else {
                assert(entries(self.dir@).drop_last() =~= es_a);
            }
            reveal(KvStore::size_ok);
            assert(self.size_ok());
            assert(self.logs() == appended.logs());
            let es0 = old(self).directory();
            assert(es0 == entries(appended.dir@));
            if let Some(p) = prev {
                let i = choose|i: int|
                    0 <= i < es0.len() && #[trigger] es0[i] == (k, p) && entries(self.dir@)
                        == es0.update(i, (k, loc));
                lemma_replaced_len(es0, i);
            } else {
                assert(replaced_len(es0, k) == 0);
            }
            assert(self.uncompacted == set_stale(*old(self), k));
            assert(appended_record(*old(self), *self, record_bytes(cmd@))) by {
                assert(self.gen_ids() == appended.gen_ids());
                assert(forall|g: u64| self.gen_data(g) == appended.gen_data(g));
            }
            assert(written_entry(es0, self.directory(), k, loc));
        }
    }

    /// Drops the mapping of `key`; fails with `KeyNotFound`, writing nothing,
    /// where there is none.
    pub fn remove(&mut self, key: String) -> (r: Result<(), Error>)
        requires
            old(self).wf(),
        ensures
            final(self).wf(),
            old(self)@.contains_key(key@) ==> r is Ok && final(self)@ == old(self)@.remove(key@),
            old(self)@.contains_key(key@) && old(self).active_id() < u64::MAX - 1
                ==> final(self).stale() <= COMPACTION_THRESHOLD,
            old(self)@.contains_key(key@) && compacts(*old(self), remove_stale(*old(self), key@))
                ==> final(self).active_id() == old(self).active_id() + 2 && final(self).gen_ids()
                == seq![
                (old(self).active_id() + 1) as u64,
                (old(self).active_id() + 2) as u64,
            ] && final(self).stale() == 0,
            old(self)@.contains_key(key@) && !compacts(*old(self), remove_stale(*old(self), key@))
                ==> final(self).stale() == remove_stale(*old(self), key@) && appended_record(
                *old(self),
                *final(self),
                record_bytes(Record::Remove(key@)),
            ) && exists|i: int|
                0 <= i < old(self).directory().len() && old(self).directory()[i].0 == key@
                    && final(self).directory() == old(self).directory().remove(i),
            !old(self)@.contains_key(key@) ==> r == Err::<(), Error>(Error::KeyNotFound)
                && *final(self) == *old(self),
    {
        if !self.contains_key(&key) {
            return Err(Error::KeyNotFound);
        }
        let ghost s0 = *self;
        self.remove_present(key);
        let ghost s1 = *self;
        proof {
            assert(s1.active_id() == s0.active_id());
        }
        self.compact_if_due();
        Ok(())
    }

    /// Removes `key`, which has a mapping.
    fn remove_present(&mut self, key: String)
        requires
            old(self).wf(),
            old(self)@.contains_key(key@),
        ensures
            final(self).wf(),
            final(self)@ == old(self)@.remove(key@),
            final(self).stale() == remove_stale(*old(self), key@),
            appended_record(*old(self), *final(self), record_bytes(Record::Remove(key@))),
            exists|i: int|
                0 <= i < old(self).directory().len() && old(self).directory()[i].0 == key@
                    && final(self).directory() == old(self).directory().remove(i),
    {
        proof {
            reveal(KvStore::wf);
        }
        let ghost k = key@;
        let cmd = LogCommand::Remove { key: key.clone() };
        let (_pos, len) = self.append_record(&cmd);
        let ghost appended = *self;
        let prev = dir_take(&mut self.dir, &key);
        self.model = Ghost(self.model@.remove(k));
        if let Some(p) = prev {
            self.uncompacted = self.uncompacted.saturating_add(p.len).saturating_add(len);
            self.stale_exact = Ghost(self.stale_exact@ + p.len as nat + len as nat);
        }
        proof {
            lemma_wf_take(appended, *self, k, prev->0);
            reveal(KvStore::size_ok);
            assert(old(self).size_ok());
            let es_a = entries(appended.dir@);
            let j = choose|j: int|
                0 <= j < es_a.len() && #[trigger] es_a[j] == (k, prev->0) && entries(self.dir@)
                    == es_a.remove(j);
            lemma_live_remove(es_a, j);
            lemma_capped_add(appended.uncompacted as int, appended.stale_exact@, prev->0.len as nat);
            lemma_capped_add(
                sat_add(appended.uncompacted as int, prev->0.len as int),
                appended.stale_exact@ + prev->0.len as nat,
                len as nat,
            );
            reveal(KvStore::size_ok);
            assert(self.size_ok());
            assert(self.logs() == appended.logs());
            let es0 = old(self).directory();
            assert(es0 == entries(appended.dir@));
            let i = choose|i: int|
                0 <= i < es0.len() && #[trigger] es0[i] == (k, prev->0) && entries(self.dir@)
                    == es0.remove(i);
            lemma_replaced_len(es0, i);
            assert(self.uncompacted == remove_stale(*old(self), k));
            assert(appended_record(*old(self), *self, record_bytes(cmd@))) by {
                assert(self.gen_ids() == appended.gen_ids());
                assert(forall|g: u64| self.gen_data(g) == appended.gen_data(g));
            }
            assert(es0[i].0 == k);
        }
    }

    /// Compacts where the stale count is past the threshold and ids remain.
    fn compact_if_due(&mut self)
        requires
            old(self).wf(),
        ensures
            final(self).wf(),
            final(self)@ == old(self)@,
            compacts(*old(self), old(self).stale() as int) ==> final(self).active_id() == old(self).active_id() + 2 && final(self).gen_ids() == seq![
                (old(self).active_id() + 1) as u64,
                (old(self).active_id() + 2) as u64,
            ] && final(self).stale() == 0,
            !compacts(*old(self), old(self).stale() as int) ==> *final(self) == *old(self),
            old(self).active_id() < u64::MAX - 1 ==> final(self).stale() <= COMPACTION_THRESHOLD,
    {
        if self.uncompacted > COMPACTION_THRESHOLD {
            self.compact();
        }
    }

    /// Rewrites the live records into a fresh generation `comp` (the active
    /// id plus one), opens `comp + 1` as the new active generation, and
    /// retires every older generation. Where the id space is spent nothing
    /// changes.
    #[verifier::rlimit(100)]
    pub fn compact(&mut self)
        requires
            old(self).wf(),
        ensures
            final(self).wf(),
            final(self)@ == old(self)@,
            old(self).active_id() < u64::MAX - 1 ==> final(self).gen_ids() == seq![
                (old(self).active_id() + 1) as u64,
                (old(self).active_id() + 2) as u64,
            ] && final(self).stale() == 0 && final(self).gen_data(
                (old(self).active_id() + 2) as u64,
            ) == Some(Seq::<u8>::empty()) && logs_size(final(self).logs()) == live_size(
                final(self).directory(),
            ),
            old(self).active_id() < u64::MAX - 1 ==> final(self).active_id() == old(self).active_id() + 2,
            old(self).active_id() < u64::MAX - 1 ==> final(self).pending_ops().subrange(
                0,
                old(self).pending_ops().len() as int,
            ) == old(self).pending_ops() && final(self).pending_ops().len() >= old(self).pending_ops().len() && compaction_ops(
                final(self).pending_ops().subrange(
                    old(self).pending_ops().len() as int,
                    final(self).pending_ops().len() as int,
                ),
                (old(self).active_id() + 1) as u64,
                final(self).gen_data((old(self).active_id() + 1) as u64)->0,
            ),
            old(self).active_id() < u64::MAX - 1 ==> final(self).directory().len() == old(self).directory().len() && forall|i: int|
                0 <= i < old(self).directory().len() ==> moved_entry(
                    old(self).directory()[i],
                    #[trigger] final(self).directory()[i],
                    old(self).gen_data(old(self).directory()[i].1.gen),
                    final(self).gen_data((old(self).active_id() + 1) as u64),
                    (old(self).active_id() + 1) as u64,
                ),
            old(self).active_id() >= u64::MAX - 1 ==> *final(self) == *old(self),
    {
        proof {
            reveal(KvStore::wf);
        }
        if self.writer.id >= u64::MAX - 1 {
            return;
        }
        let comp = self.writer.id + 1;
        let next = comp + 1;
        let mut data: Vec<u8> = Vec::new();
        let mut copy: Vec<u8> = Vec::new();
        let mut dir: Vec<Entry> = Vec::new();
        let mut i: usize = 0;
        proof {
            assert(live_prefix(entries(self.dir@), self.model@, 0) =~= Map::empty());
            assert(entries(dir@) =~= Seq::<(Seq<char>, Locator)>::empty());
        }
        while i < self.dir.len()
            invariant
                self.wf(),
                *self == *old(self),
                comp == self.writer.id + 1,
                i <= self.dir@.len(),
                dir@.len() == i,
                copy@ == data@,
                copied(entries(self.dir@), self.model@, entries(dir@), data@, comp, i as int),
            decreases self.dir.len() - i,
        {
            let loc = self.dir[i].loc;
            let ghost es = entries(self.dir@);
            proof {
                reveal(KvStore::wf);
                assert(es[i as int].1 == loc);
                assert(self.entry_ok(es[i as int]));
            }
            let src = match self.data_of(loc.gen) {
                Some(d) => d,
                None => {
                    return;
                },
            };
            let start = data.len();
            let ghost data0 = data@;
            append_range(&mut data, &mut copy, src, loc.offset, loc.len);
            let ghost dir0 = dir@;
            dir.push(
                Entry {
                    key: self.dir[i].key.clone(),
                    loc: Locator { gen: comp, offset: start, len: loc.len },
                },
            );
            proof {
                let rest = src@.subrange(loc.offset as int, loc.offset + loc.len);
                assert(entries(dir@) =~= entries(dir0).push(
                    (es[i as int].0, Locator { gen: comp, offset: start, len: loc.len }),
                ));
                lemma_copy_step(es, self.model@, entries(dir0), data0, comp, i as int, rest, start);
            }
            i += 1;
        }
        let ghost es0 = entries(self.dir@);
        let ghost m = self.model@;
        assert(es0 == entries(old(self).dir@));
        let ghost dv = data@;
        let ghost f0 = logs_map(old(self).logs());
        proof {
            lemma_logs_map_dom(old(self).logs());
            assert(old(self).logs().drop_last() =~= self.readers@);
            assert(!f0.contains_key(comp) && !f0.contains_key(next)) by {
                if f0.contains_key(comp) || f0.contains_key(next) {
                    let j = choose|j: int|
                        0 <= j < old(self).logs().len() && (old(self).logs()[j].id == comp
                            || old(self).logs()[j].id == next);
                    if j < self.readers@.len() {
                        assert(old(self).logs()[j] == self.readers@[j]);
                    }
                }
            }
        }
        let ghost p0 = self.pending@;
        self.pending.push(FileOp::Append { gen: comp, bytes: copy });
        proof {
            assert(old(self).wf());
            assert(apply_ops(self.disk@, p0) == f0);
            assert(self.pending@.drop_last() =~= p0);
            assert(Seq::<u8>::empty() + dv =~= dv);
            assert(apply_ops(self.disk@, self.pending@) == f0.insert(comp, dv));
        }
        let ghost p1 = self.pending@;
        self.pending.push(FileOp::Append { gen: next, bytes: Vec::new() });
        let ghost f2 = f0.insert(comp, dv).insert(next, Seq::<u8>::empty());
        proof {
            assert(self.pending@.drop_last() =~= p1);
            assert(Seq::<u8>::empty() + Seq::<u8>::empty() =~= Seq::<u8>::empty());
            assert(!f0.insert(comp, dv).contains_key(next));
            assert(apply_ops(self.disk@, self.pending@) == f2);
            assert(self.pending@.subrange(0, p0.len() as int) =~= p0);
            let tail = self.pending@.subrange(p0.len() as int, self.pending@.len() as int);
            assert(tail.len() == 2);
            assert(tail[0] == p1.last());
            assert(compaction_ops(tail, comp, dv));
            assert(f2 =~= Map::new(
                |g: u64| f2.contains_key(g) && forall|j: int| 0 <= j < 0 ==> self.readers@[j].id != g,
                |g: u64| f2[g],
            ));
        }
        let mut r: usize = 0;
        while r < self.readers.len()
            invariant
                r <= self.readers@.len(),
                self.readers == old(self).readers,
                self.writer == old(self).writer,
                self.dir == old(self).dir,
                self.model == old(self).model,
                self.disk == old(self).disk,
                comp == self.writer.id + 1,
                forall|j: int| 0 <= j < self.readers@.len() ==> self.readers@[j].id < comp,
                self.pending@.len() >= p0.len() + 2,
                self.pending@.subrange(0, p0.len() as int) == p0,
                compaction_ops(
                    self.pending@.subrange(p0.len() as int, self.pending@.len() as int),
                    comp,
                    dv,
                ),
                apply_ops(self.disk@, self.pending@) == Map::new(
                    |g: u64|
                        f2.contains_key(g) && forall|j: int|
                            0 <= j < r ==> self.readers@[j].id != g,
                    |g: u64| f2[g],
                ),
            decreases self.readers.len() - r,
        {
            let gen = self.readers[r].id;
            let ghost pr = self.pending@;
            self.pending.push(FileOp::Retire { gen });
            proof {
                assert(gen < comp);
                assert(self.pending@.drop_last() =~= pr);
                assert(self.pending@.subrange(0, p0.len() as int) =~= p0);
                assert(self.pending@.subrange(p0.len() as int, self.pending@.len() as int)
                    =~= pr.subrange(p0.len() as int, pr.len() as int).push(FileOp::Retire { gen }));
                assert(apply_ops(self.disk@, self.pending@) =~= Map::new(
                    |g: u64|
                        f2.contains_key(g) && forall|j: int|
                            0 <= j < r + 1 ==> self.readers@[j].id != g,
                    |g: u64| f2[g],
                ));
            }
            r += 1;
        }
        let gen = self.writer.id;
        let ghost pw = self.pending@;
        self.pending.push(FileOp::Retire { gen });
        proof {
            assert(self.pending@.drop_last() =~= pw);
            assert(self.pending@.subrange(0, p0.len() as int) =~= p0);
            assert(self.pending@.subrange(p0.len() as int, self.pending@.len() as int)
                =~= pw.subrange(p0.len() as int, pw.len() as int).push(FileOp::Retire { gen }));
        }
        let ghost fin = apply_ops(self.disk@, self.pending@);
        self.readers = vec![LogReader { id: comp, data }];
        self.writer = LogWriter::new(next);
        self.dir = dir;
        self.uncompacted = 0;
        self.stale_exact = Ghost(0);
        proof {
            reveal(KvStore::size_ok);
            let es = entries(self.dir@);
            assert(self.readers@.len() == 1);
            assert(self.readers@.last().id == comp);
            assert(reader_data(self.readers@, comp) == Some(self.readers@[0].data@));
            assert(self.gen_ids() =~= seq![comp, next]);
            assert(live_prefix(es0, m, es0.len() as int) =~= m) by {
                assert forall|q: Seq<char>| m.contains_key(q) implies exists|j: int|
                    0 <= j < es0.len() && es0[j].0 == q by {
                    assert(old(self).wf_dir());
                    let j = choose|j: int| 0 <= j < es0.len() && #[trigger] es0[j].0 == q;
                }
                assert forall|j: int| 0 <= j < es0.len() implies m.contains_key(
                    #[trigger] es0[j].0,
                ) by {
                    assert(old(self).entry_ok(es0[j]));
                }
            }
            let l = self.logs();
            assert(l[1].data@ =~= Seq::<u8>::empty());
            assert(replay_logs(l, 0) == Some(Map::<Seq<char>, Seq<char>>::empty()));
            let r0 = self.readers@[0];
            assert(l.last().data@.len() == 0);
            assert(seq![r0].drop_last() =~= Seq::<LogReader>::empty());
            assert(l.drop_last() =~= seq![r0]);
            assert(r0.data@ == dv);
            assert(logs_map(Seq::<LogReader>::empty()) == Map::<u64, Seq<u8>>::empty());
            assert(seq![r0].last() == r0);
            assert(logs_map(seq![r0]) == logs_map(seq![r0].drop_last()).insert(r0.id, r0.data@));
            assert(logs_map(seq![r0]) == Map::<u64, Seq<u8>>::empty().insert(comp, dv));
            assert(logs_map(l) =~= Map::<u64, Seq<u8>>::empty().insert(comp, dv).insert(
                next,
                Seq::<u8>::empty(),
            ));
            assert(fin =~= logs_map(l)) by {
                assert forall|g: u64| fin.contains_key(g) <==> logs_map(l).contains_key(g) by {
                    if g != comp && g != next && f0.contains_key(g) {
                        let j = choose|j: int|
                            0 <= j < old(self).logs().len() && old(self).logs()[j].id == g;
                        if j < old(self).readers@.len() {
                            assert(old(self).logs()[j] == old(self).readers@[j]);
                        }
                    }
                }
            }
            assert(l.drop_last() =~= seq![r0]);
            assert(seq![r0].drop_last() =~= Seq::<LogReader>::empty());
            assert(logs_size(Seq::<LogReader>::empty()) == 0);
            assert(logs_size(seq![r0]) == r0.data@.len());
            assert(logs_size(l) == r0.data@.len());
            assert(replay_logs(l, 1) == replay_log(Map::empty(), l[0].data@, 0));
            assert forall|j: int| 0 <= j < es.len() implies #[trigger] self.entry_ok(es[j]) by {
                assert(es[j].0 == es0[j].0);
                assert(old(self).entry_ok(es0[j]));
            }
            assert forall|q: Seq<char>| self.model@.contains_key(q) implies exists|j: int|
                0 <= j < es.len() && #[trigger] es[j].0 == q by {
                let j = choose|j: int| 0 <= j < es0.len() && #[trigger] es0[j].0 == q;
                assert(es[j].0 == q);
            }
            assert forall|a: int, b: int|
                0 <= a < es.len() && 0 <= b < es.len() && a != b implies es[a].0 != es[b].0 by {
                assert(es[a].0 == es0[a].0);
                assert(es[b].0 == es0[b].0);
            }
            assert(self.writer.id == next);
            let es1 = entries(self.dir@);
            assert forall|i: int| 0 <= i < es0.len() implies moved_entry(
                es0[i],
                #[trigger] es1[i],
                old(self).gen_data(es0[i].1.gen),
                self.gen_data(comp),
                comp,
            ) by {
                assert(old(self).entry_ok(es0[i]));
                assert(self.entry_ok(es1[i]));
                assert(es1[i].0 == es0[i].0);
                lemma_moved_entry(
                    es0[i],
                    es1[i],
                    old(self).gen_data(es0[i].1.gen),
                    self.gen_data(comp),
                    comp,
                    Record::Insert(es0[i].0, m[es0[i].0]),
                );
            }
        }
    }
}


/// `s1` is `s0` with `rec` appended to the active log and queued, as one
/// append, for the disk; no other log changed.
pub open spec fn appended_record(s0: KvStore, s1: KvStore, rec: Seq<u8>) -> bool {
    let c = s0.active_id();
    &&& s1.active_id() == c
    &&& s1.gen_ids() == s0.gen_ids()
    &&& s1.gen_data(c) == Some(s0.gen_data(c)->0 + rec)
    &&& forall|g: u64| g != c ==> s1.gen_data(g) == s0.gen_data(g)
    &&& s1.pending_ops().len() == s0.pending_ops().len() + 1
    &&& s1.pending_ops().drop_last() == s0.pending_ops()
    &&& (s1.pending_ops().last() matches FileOp::Append { gen, bytes } && gen == c && bytes@
        == rec)
}

/// The stale count after `k` is overwritten in `s`: the replaced record's
/// length is added.
pub open spec fn set_stale(s: KvStore, k: Seq<char>) -> int {
    sat_add(s.stale() as int, replaced_len(s.directory(), k))
}

/// The stale count after `k` is removed from `s`: the replaced record's
/// length and the removal record's length are added.
pub open spec fn remove_stale(s: KvStore, k: Seq<char>) -> int {
    sat_add(
        sat_add(s.stale() as int, replaced_len(s.directory(), k)),
        record_bytes(Record::Remove(k)).len() as int,
    )
}

/// Whether a write that leaves `u` stale bytes compacts the store `s`.
pub open spec fn compacts(s: KvStore, u: int) -> bool {
    u > COMPACTION_THRESHOLD && s.active_id() < u64::MAX - 1
}

/// A value written is read back: where `set(k, v)` took the store `s0` to
/// `s1`, `get(k)` on `s1` gives `Some(v)`.
pub proof fn lemma_set_then_get(s0: KvStore, s1: KvStore, k: Seq<char>, v: Seq<char>)
    requires
        s1@ == s0@.insert(k, v),
    ensures
        s1@.contains_key(k),
        s1@[k] == v,
{
}

/// The later of two writes to a key wins: where `set(k, v1)` took `s0` to
/// `s1` and `set(k, v2)` took `s1` to `s2`, `get(k)` on `s2` gives `Some(v2)`,
/// and `s2` holds what one `set(k, v2)` on `s0` would give.
pub proof fn lemma_last_write_wins(
    s0: KvStore,
    s1: KvStore,
    s2: KvStore,
    k: Seq<char>,
    v1: Seq<char>,
    v2: Seq<char>,
)
    requires
        s1@ == s0@.insert(k, v1),
        s2@ == s1@.insert(k, v2),
    ensures
        s2@.contains_key(k),
        s2@[k] == v2,
        s2@ == s0@.insert(k, v2),
{
    assert(s2@ =~= s0@.insert(k, v2));
}

/// A removed key reads as absent: where `set(k, v)` took `s0` to `s1` and
/// `remove(k)` took `s1` to `s2`, `remove` found the key and `get(k)` on `s2`
/// gives `None`.
pub proof fn lemma_set_then_remove(
    s0: KvStore,
    s1: KvStore,
    s2: KvStore,
    k: Seq<char>,
    v: Seq<char>,
)
    requires
        s1@ == s0@.insert(k, v),
        s2@ == s1@.remove(k),
    ensures
        s1@.contains_key(k),
        !s2@.contains_key(k),
{
}

/// An empty value is a value: where `set(k, "")` took `s0` to `s1`, `get(k)`
/// on `s1` gives `Some("")`, not `None`.
pub proof fn lemma_empty_value_is_present(s0: KvStore, s1: KvStore, k: Seq<char>)
    requires
        s1@ == s0@.insert(k, Seq::<char>::empty()),
    ensures
        s1@.contains_key(k),
        s1@[k] == Seq::<char>::empty(),
{
}

proof fn lemma_wf_put(
    a: KvStore,
    b: KvStore,
    k: Seq<char>,
    v: Seq<char>,
    loc: Locator,
    prev: Option<Locator>,
)
    requires
        a.wf_dir(),
        b.readers == a.readers,
        b.writer == a.writer,
        b.model@ == a.model@.insert(k, v),
        keys_unique(entries(b.dir@)),
        holds_record(a.gen_data(loc.gen), loc, Record::Insert(k, v)),
        prev matches Some(p) ==> exists|i: int|
            0 <= i < a.dir@.len() && #[trigger] entries(a.dir@)[i] == (k, p) && entries(b.dir@)
                == entries(a.dir@).update(i, (k, loc)),
        prev is None ==> (forall|j: int| 0 <= j < a.dir@.len() ==> entries(a.dir@)[j].0 != k)
            && entries(b.dir@) == entries(a.dir@).push((k, loc)),
    ensures
        b.wf_dir(),
{
    let es0 = entries(a.dir@);
    let es = entries(b.dir@);
    assert(b.gen_data(loc.gen) == a.gen_data(loc.gen));
    assert forall|i: int| 0 <= i < es.len() implies #[trigger] b.entry_ok(es[i]) by {
        if es[i].0 != k {
            assert(es[i] == es0[i]);
            assert(a.entry_ok(es0[i]));
            assert(a.model@.contains_key(es0[i].0));
        } else {
            assert(es[i].1 == loc);
        }
    }
    assert forall|q: Seq<char>| b.model@.contains_key(q) implies exists|i: int|
        0 <= i < es.len() && #[trigger] es[i].0 == q by {
        if q == k {
            if prev is None {
                assert(es[es0.len() as int].0 == q);
            } else {
                let i = choose|i: int|
                    0 <= i < es0.len() && #[trigger] es0[i] == (k, prev->0) && es
                        == es0.update(i, (k, loc));
                assert(es[i].0 == q);
            }
        } else {
            let j = choose|j: int| 0 <= j < es0.len() && #[trigger] es0[j].0 == q;
            assert(es[j].0 == q);
        }
    }
}

proof fn lemma_wf_take(a: KvStore, b: KvStore, k: Seq<char>, prev: Locator)
    requires
        a.wf_dir(),
        b.readers == a.readers,
        b.writer == a.writer,
        b.model@ == a.model@.remove(k),
        keys_unique(entries(b.dir@)),
        exists|i: int|
            0 <= i < a.dir@.len() && #[trigger] entries(a.dir@)[i] == (k, prev) && entries(b.dir@)
                == entries(a.dir@).remove(i),
    ensures
        b.wf_dir(),
{
    let es0 = entries(a.dir@);
    let es = entries(b.dir@);
    let i = choose|i: int|
        0 <= i < es0.len() && #[trigger] es0[i] == (k, prev) && es == es0.remove(i);
    assert forall|j: int| 0 <= j < es.len() implies #[trigger] b.entry_ok(es[j]) by {
        let j0 = if j < i {
            j
        } else {
            j + 1
        };
        assert(es[j] == es0[j0]);
        assert(es0[j0].0 != k);
        assert(a.entry_ok(es0[j0]));
        assert(a.model@.contains_key(es0[j0].0));
    }
    assert forall|q: Seq<char>| b.model@.contains_key(q) implies exists|j: int|
        0 <= j < es.len() && #[trigger] es[j].0 == q by {
        let j0 = choose|j: int| 0 <= j < es0.len() && #[trigger] es0[j].0 == q;
        assert(j0 != i);
        let j = if j0 < i {
            j0
        } else {
            j0 - 1
        };
        assert(es[j] == es0[j0]);
    }
}


} // verus!
