//! The log store: the bytes of an append-only log and an index from each key
//! to the offset of its newest record. Reads go through the index and decode
//! one record; writes append a record and move the key's offset to it.
use crate::codec::{decode, encode, encoding, record_at, Decoded, RecordAt, HEADER_LEN};
use crate::index::KeyIndex;
use vstd::prelude::*;

verus! {

/// The value of the record at `pos`, or the empty sequence where none is.
pub open spec fn value_at(log: Seq<u8>, pos: int) -> Seq<u8> {
    match record_at(log, pos) {
        RecordAt::Record { value, .. } => value,
        _ => Seq::empty(),
    }
}

/// The key-value mapping that an index over a log exposes.
pub open spec fn contents(log: Seq<u8>, index: Map<Seq<u8>, u64>) -> Map<Seq<u8>, Seq<u8>> {
    Map::new(|k: Seq<u8>| index.contains_key(k), |k: Seq<u8>| value_at(log, index[k] as int))
}

/// Where a sequential scan of a log ends.
pub enum Replay {
    /// The scan met the end of the log at `end`, with `index` built from the records before it.
    Done { index: Map<Seq<u8>, u64>, end: int },
    /// The scan met a record with a bad checksum at offset `at`.
    Corrupt { at: int, stored: u32, computed: u32 },
}

/// Scans `log` from `pos`, adding each record's key and offset to `index`.
pub open spec fn replay_from(log: Seq<u8>, pos: int, index: Map<Seq<u8>, u64>) -> Replay
    decreases log.len() - pos,
{
    match record_at(log, pos) {
        RecordAt::EndOfLog => Replay::Done { index, end: pos },
        RecordAt::Corrupt { stored, computed } => Replay::Corrupt { at: pos, stored, computed },
        RecordAt::Record { key, next, .. } => if pos < next <= log.len() {
            replay_from(log, next, index.insert(key, pos as u64))
        } else {
            Replay::Done { index, end: pos }
        },
    }
}

/// The outcome of scanning the whole log from offset 0 with an empty index.
pub open spec fn replay(log: Seq<u8>) -> Replay {
    replay_from(log, 0, Map::empty())
}

/// A record's offset in the log does not fit the index's offset type.
#[derive(Debug, Clone, Copy, PartialEq, Eq, Structural)]
pub struct RecordTooLarge;

/// A record whose stored checksum differs from the one computed over its payload.
#[derive(Debug, Clone, Copy, PartialEq, Eq, Structural)]
pub struct Corruption {
    pub offset: u64,
    pub stored: u32,
    pub computed: u32,
}

/// A persistent key-value store over an append-only log.
pub struct LilRedis {
    log: Vec<u8>,
    index: KeyIndex,
}

impl View for LilRedis {
    type V = Map<Seq<u8>, Seq<u8>>;

    /// Each indexed key with the value of its newest record.
    open spec fn view(&self) -> Map<Seq<u8>, Seq<u8>> {
        contents(self.log_bytes(), self.offsets())
    }
}

/// Whether every offset in `index` starts a complete record of its key in `log`.
pub open spec fn index_points_at_keys(log: Seq<u8>, index: Map<Seq<u8>, u64>) -> bool {
    forall|k: Seq<u8>| #[trigger]
        index.contains_key(k) ==> match record_at(log, index[k] as int) {
            RecordAt::Record { key, .. } => key == k,
            _ => false,
        }
}

/// A record appended to a log is found where it starts, with its key and value.
pub proof fn lemma_record_at_appended(log: Seq<u8>, key: Seq<u8>, value: Seq<u8>)
    requires
        key.len() <= u32::MAX,
        value.len() <= u32::MAX,
    ensures
        record_at(log + encoding(key, value), log.len() as int) == (RecordAt::Record {
            key,
            value,
            next: (log.len() + encoding(key, value).len()) as int,
        }),
{
    let e = encoding(key, value);
    let n = log.len() as int;
    let l = log + e;
    crate::codec::lemma_round_trip(key, value);
    assert(l.subrange(n, n + 4) =~= e.subrange(0, 4));
    assert(l.subrange(n + 4, n + 8) =~= e.subrange(4, 8));
    assert(l.subrange(n + 8, n + 12) =~= e.subrange(8, 12));
    assert(l.subrange(n + 12, l.len() as int) =~= e.subrange(12, e.len() as int));
    assert(l.subrange(n + 12, n + 12 + key.len()) =~= e.subrange(12, 12 + key.len() as int));
    assert(l.subrange(n + 12 + key.len(), l.len() as int) =~= e.subrange(
        12 + key.len() as int,
        e.len() as int,
    ));
}

/// A complete record reads the same after more bytes are appended to the log.
pub proof fn lemma_record_at_extended(log: Seq<u8>, extra: Seq<u8>, pos: int)
    requires
        0 <= pos,
        record_at(log, pos) is Record,
    ensures
        record_at(log + extra, pos) == record_at(log, pos),
{
    let l = log + extra;
    assert(l.subrange(pos, pos + 4) =~= log.subrange(pos, pos + 4));
    assert(l.subrange(pos + 4, pos + 8) =~= log.subrange(pos + 4, pos + 8));
    assert(l.subrange(pos + 8, pos + 12) =~= log.subrange(pos + 8, pos + 12));
    let end = crate::codec::record_end(log, pos);
    let key_end = pos + 12 + crate::codec::field_at(log, pos + 4);
    assert(l.subrange(pos + 12, end) =~= log.subrange(pos + 12, end));
    assert(l.subrange(pos + 12, key_end) =~= log.subrange(pos + 12, key_end));
    assert(l.subrange(key_end, end) =~= log.subrange(key_end, end));
}

/// Scanning a log that ends cleanly and then one more record gives the same
/// index with that record's key moved to it.
pub proof fn lemma_replay_appended(
    log: Seq<u8>,
    key: Seq<u8>,
    value: Seq<u8>,
    pos: int,
    index: Map<Seq<u8>, u64>,
)
    requires
        key.len() <= u32::MAX,
        value.len() <= u32::MAX,
        0 <= pos <= log.len(),
        replay_from(log, pos, index) is Done,
        replay_from(log, pos, index)->end == log.len(),
    ensures
        replay_from(log + encoding(key, value), pos, index) == (Replay::Done {
            index: replay_from(log, pos, index)->index.insert(key, log.len() as u64),
            end: (log.len() + encoding(key, value).len()) as int,
        }),
    decreases log.len() - pos,
{
    let l = log + encoding(key, value);
    lemma_record_at_appended(log, key, value);
    if pos == log.len() {
        assert(record_at(log, pos) == RecordAt::EndOfLog);
        assert(replay_from(log, pos, index) == Replay::Done { index, end: pos });
        assert(record_at(l, l.len() as int) == RecordAt::EndOfLog);
        let grown = index.insert(key, pos as u64);
        assert(replay_from(l, l.len() as int, grown) == Replay::Done {
            index: grown,
            end: l.len() as int,
        });
    } else {
        match record_at(log, pos) {
            RecordAt::Record { key: k, next, .. } => {
                lemma_record_at_extended(log, encoding(key, value), pos);
                lemma_replay_appended(log, key, value, next, index.insert(k, pos as u64));
            },
            _ => {},
        }
    }
}

impl LilRedis {
    /// The bytes of the log.
    pub closed spec fn log_bytes(&self) -> Seq<u8> {
        self.log@
    }

    /// The index: each key with the offset of its newest record.
    pub closed spec fn offsets(&self) -> Map<Seq<u8>, u64> {
        self.index@
    }

    /// The index is well formed and each of its offsets starts a record of its key.
    pub closed spec fn wf(&self) -> bool {
        &&& self.index.wf()
        &&& index_points_at_keys(self.log@, self.index@)
    }

    /// Scanning the whole log rebuilds exactly this index and reaches the log's end.
    pub open spec fn clean(&self) -> bool {
        replay(self.log_bytes()) == (Replay::Done {
            index: self.offsets(),
            end: self.log_bytes().len() as int,
        })
    }

    /// This store holds `log`, indexed as a full scan of it from offset 0 does.
    pub open spec fn loaded_from(&self, log: Seq<u8>) -> bool {
        &&& self.wf()
        &&& self.log_bytes() == log
        &&& replay(log) is Done
        &&& self.offsets() == replay(log)->index
    }

    /// `self` is `before` with one record of `key` and `value` appended and indexed.
    pub open spec fn appended(&self, before: LilRedis, key: Seq<u8>, value: Seq<u8>) -> bool {
        &&& self.wf()
        &&& self.log_bytes() == before.log_bytes() + encoding(key, value)
        &&& self.offsets() == before.offsets().insert(key, before.log_bytes().len() as u64)
        &&& self@ == before@.insert(key, value)
        &&& record_at(self.log_bytes(), self.offsets()[key] as int) == (RecordAt::Record {
            key,
            value,
            next: self.log_bytes().len() as int,
        })
        &&& (before.clean() ==> self.clean())
    }

    /// A store over an empty log, with an empty index.
    pub fn new() -> (r: LilRedis)
        ensures
            r.wf(),
            r.clean(),
            r.log_bytes() == Seq::<u8>::empty(),
            r@ == Map::<Seq<u8>, Seq<u8>>::empty(),
    {
        let r = LilRedis { log: Vec::new(), index: KeyIndex::new() };
        assert(record_at(r.log@, 0) == RecordAt::EndOfLog);
        assert(r@ =~= Map::<Seq<u8>, Seq<u8>>::empty());
        r
    }

    /// The offset at which the next record will be appended: the log's length.
    pub fn seek_to_end(&self) -> (r: u64)
        ensures
            r == self.log_bytes().len(),
    {
        self.log.len() as u64
    }

    /// The bytes of the log.
    pub fn log(&self) -> (r: &[u8])
        ensures
            r@ == self.log_bytes(),
    {
        self.log.as_slice()
    }

    /// Replaces the log with `log` and rebuilds the index by scanning it from
    /// offset 0; a record with a bad checksum stops the scan with an error.
    pub fn load(&mut self, log: Vec<u8>) -> (r: Result<(), Corruption>)
        ensures
            match replay(log@) {
                Replay::Done { end, .. } => {
                    &&& r is Ok
                    &&& final(self).loaded_from(log@)
                    &&& final(self).clean() == (end == log@.len())
                },
                Replay::Corrupt { at, stored, computed } => r == Err::<(), Corruption>(
                    Corruption { offset: at as u64, stored, computed },
                ) && *final(self) == *old(self),
            },
    {
        let mut index = KeyIndex::new();
        let mut pos: usize = 0;
        loop
            invariant
                pos <= log@.len(),
                index.wf(),
                index_points_at_keys(log@, index@),
                replay_from(log@, pos as int, index@) == replay(log@),
            ensures
                index.wf(),
                index_points_at_keys(log@, index@),
                replay(log@) == (Replay::Done { index: index@, end: pos as int }),
            decreases log@.len() - pos,
        {
            match decode(log.as_slice(), pos) {
                Decoded::EndOfLog => {
                    assert(replay(log@) == Replay::Done { index: index@, end: pos as int });
                    break;
                },
                Decoded::Corrupt { stored, computed } => {
                    assert(replay(log@) == Replay::Corrupt { at: pos as int, stored, computed });
                    return Err(Corruption { offset: pos as u64, stored, computed });
                },
                Decoded::Record { record, next } => {
                    assert(pos < next <= log@.len());
                    index.put(record.key.as_slice(), pos as u64);
                    pos = next;
                },
            }
        }
        self.log = log;
        self.index = index;
        Ok(())
    }

    /// The value of the newest record of `key`, or `None` where the key was never written.
    pub fn get(&self, key: &[u8]) -> (r: Option<Vec<u8>>)
        requires
            self.wf(),
        ensures
            match r {
                Some(v) => self@.contains_key(key@) && v@ == self@[key@],
                None => !self@.contains_key(key@),
            },
    {
        match self.index.get(key) {
            None => None,
            Some(pos) => {
                assert(record_at(self.log@, pos as int) is Record);
                assert(pos < self.log@.len());
                assert(self@[key@] == value_at(self.log@, pos as int));
                let n: usize = self.log.len();
                assert(pos < n);
                match decode(self.log.as_slice(), pos as usize) {
                    Decoded::Record { record, .. } => Some(record.value),
                    _ => None,
                }
            },
        }
    }

    /// Appends a record of `key` and `value` and points the key's index entry at it.
    /// Returns the appended bytes, for the caller to persist at the end of the log file.
    pub fn insert(&mut self, key: &[u8], value: &[u8]) -> (r: Result<Vec<u8>, RecordTooLarge>)
        requires
            old(self).wf(),
        ensures
            r is Ok <==> key@.len() <= u32::MAX && value@.len() <= u32::MAX
                && old(self).log_bytes().len() + HEADER_LEN + key@.len() + value@.len()
                <= usize::MAX,
            match r {
                Ok(bytes) => bytes@ == encoding(key@, value@) && final(self).appended(
                    *old(self),
                    key@,
                    value@,
                ),
                Err(_) => *final(self) == *old(self),
            },
    {
        if key.len() > u32::MAX as usize || value.len() > u32::MAX as usize {
            return Err(RecordTooLarge);
        }
        let room: usize = usize::MAX - self.log.len();
        if room < HEADER_LEN || room - HEADER_LEN < key.len() || room - HEADER_LEN - key.len()
            < value.len() {
            return Err(RecordTooLarge);
        }
        let ghost before = *self;
        let bytes = encode(key, value);
        let pos: usize = self.log.len();
        self.log.extend_from_slice(bytes.as_slice());
        assert(self.log@ =~= before.log@ + encoding(key@, value@));
        self.index.put(key, pos as u64);
        proof {
            lemma_record_at_appended(before.log@, key@, value@);
            assert forall|k: Seq<u8>| #[trigger] self.index@.contains_key(k) implies match record_at(
                self.log@,
                self.index@[k] as int,
            ) {
                RecordAt::Record { key, .. } => key == k,
                _ => false,
            } by {
                if k != key@ {
                    assert(before.index@.contains_key(k));
                    lemma_record_at_extended(
                        before.log@,
                        encoding(key@, value@),
                        before.index@[k] as int,
                    );
                }
            }
            assert forall|k: Seq<u8>| #[trigger] self.index@.contains_key(k) && k != key@ implies 
                value_at(self.log@, self.index@[k] as int) == value_at(before.log@, before.index@[k] as int) by {
                assert(before.index@.contains_key(k));
                lemma_record_at_extended(before.log@, encoding(key@, value@), before.index@[k] as int);
            }
            assert(self@ =~= before@.insert(key@, value@));
            if before.clean() {
                lemma_replay_appended(before.log@, key@, value@, 0, Map::empty());
            }
        }
        Ok(bytes)
    }

    /// Same as `insert`: the new record supersedes the key's earlier ones.
    pub fn update(&mut self, key: &[u8], value: &[u8]) -> (r: Result<Vec<u8>, RecordTooLarge>)
        requires
            old(self).wf(),
        ensures
            r is Ok <==> key@.len() <= u32::MAX && value@.len() <= u32::MAX
                && old(self).log_bytes().len() + HEADER_LEN + key@.len() + value@.len()
                <= usize::MAX,
            match r {
                Ok(bytes) => bytes@ == encoding(key@, value@) && final(self).appended(
                    *old(self),
                    key@,
                    value@,
                ),
                Err(_) => *final(self) == *old(self),
            },
    {
        self.insert(key, value)
    }

    /// Appends a tombstone for `key`: a record with an empty value.
    pub fn delete(&mut self, key: &[u8]) -> (r: Result<Vec<u8>, RecordTooLarge>)
        requires
            old(self).wf(),
        ensures
            r is Ok <==> key@.len() <= u32::MAX && old(self).log_bytes().len() + HEADER_LEN
                + key@.len() <= usize::MAX,
            match r {
                Ok(bytes) => bytes@ == encoding(key@, Seq::empty()) && final(self).appended(
                    *old(self),
                    key@,
                    Seq::empty(),
                ),
                Err(_) => *final(self) == *old(self),
            },
    {
        let empty: [u8; 0] = [];
        let r = self.insert(key, empty.as_slice());
        assert(empty@ =~= Seq::<u8>::empty());
        r
    }
}

/// Writing `key` twice leaves the second value reachable, while the first
/// record still stands in the log at the offset that the first write indexed.
pub proof fn lemma_last_write_wins(
    s0: LilRedis,
    s1: LilRedis,
    s2: LilRedis,
    key: Seq<u8>,
    v1: Seq<u8>,
    v2: Seq<u8>,
)
    requires
        s1.appended(s0, key, v1),
        s2.appended(s1, key, v2),
    ensures
        s2@.contains_key(key),
        s2@[key] == v2,
        s2.offsets()[key] == s1.log_bytes().len() as u64,
        record_at(s2.log_bytes(), s1.offsets()[key] as int) == (RecordAt::Record {
            key,
            value: v1,
            next: s1.log_bytes().len() as int,
        }),
{
    lemma_record_at_extended(s1.log_bytes(), encoding(key, v2), s1.offsets()[key] as int);
}

/// After a delete, the key reads back as present with an empty value.
pub proof fn lemma_deleted_reads_empty(s0: LilRedis, s1: LilRedis, key: Seq<u8>)
    requires
        s1.appended(s0, key, Seq::empty()),
    ensures
        s1@.contains_key(key),
        s1@[key] == Seq::<u8>::empty(),
{
}

/// Writing one key leaves another key that was absent still absent.
pub proof fn lemma_absent_stays_absent(
    s0: LilRedis,
    s1: LilRedis,
    key: Seq<u8>,
    value: Seq<u8>,
    other: Seq<u8>,
)
    requires
        s1.appended(s0, key, value),
        other != key,
        !s0@.contains_key(other),
    ensures
        !s1@.contains_key(other),
{
}

/// A store whose log scans cleanly, reloaded from its own log, exposes the
/// same mapping from keys to values, and scans cleanly again.
pub proof fn lemma_replay_fidelity(s: LilRedis, t: LilRedis)
    requires
        s.wf(),
        s.clean(),
        t.loaded_from(s.log_bytes()),
    ensures
        t@ == s@,
        t.offsets() == s.offsets(),
        t.clean(),
{
    assert(t@ =~= s@);
}

} // verus!
