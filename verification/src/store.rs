//! The log store, which holds the bytes of the log, and the key-value store
//! that keeps an index over it.

use crate::index::Index;
use crate::record::{
    checksum_ieee, decode, decode_at, fits, frame, le_bytes, outcome_view, record_bytes,
    write_u32_le, Header, KeyValuePair, StoreError, HEADER_LEN,
};
use crate::replay::{
    contents_of, holds_key, index_sound, lemma_decode_at_stable, lemma_read_after_append,
    lemma_record_within, lemma_replay_append, replay, replay_from, value_at,
};
use vstd::prelude::*;
use vstd::slice::{slice_subrange, slice_to_vec};

verus! {

/// The append-only log: every record ever appended, back to back.
pub struct LogStore {
    bytes: Vec<u8>,
}

impl View for LogStore {
    type V = Seq<u8>;

    closed spec fn view(&self) -> Seq<u8> {
        self.bytes@
    }
}

/// Appends the four bytes of `n`, least significant first, to `out`.
fn push_u32(out: &mut Vec<u8>, n: u32)
    ensures
        final(out)@ == old(out)@ + le_bytes(n),
{
    let field = write_u32_le(n);
    let ghost before = out@;
    let mut i: usize = 0;
    while i < 4
        invariant
            i <= 4,
            field@ == le_bytes(n),
            out@ == before + field@.subrange(0, i as int),
        decreases 4 - i,
    {
        out.push(field[i]);
        assert(out@ =~= before + field@.subrange(0, i + 1));
        i += 1;
    }
    assert(out@ =~= before + le_bytes(n));
}

impl LogStore {
    /// A log store over the bytes that the log holds so far.
    pub fn open(bytes: Vec<u8>) -> (f: LogStore)
        ensures
            f@ == bytes@,
    {
        LogStore { bytes }
    }

    /// The bytes of the log.
    pub fn as_bytes(&self) -> (bytes: &[u8])
        ensures
            bytes@ == self@,
    {
        self.bytes.as_slice()
    }

    /// The length of the log, which is the offset of the next record.
    pub fn len(&self) -> (n: u64)
        ensures
            n == self@.len(),
    {
        self.bytes.len() as u64
    }

    /// Appends the record of `key` and `value` and returns the offset at
    /// which it starts, the length of the log before. A key or value too
    /// long for its length field is refused, and the log stays as it is.
    pub fn append_record(&mut self, key: &[u8], value: &[u8]) -> (r: Result<u64, StoreError>)
        ensures
            match r {
                Ok(offset) => {
                    &&& fits(key@, value@)
                    &&& offset == old(self)@.len()
                    &&& final(self)@ == old(self)@ + record_bytes(key@, value@)
                },
                Err(e) => {
                    &&& e == StoreError::RecordTooLarge
                    &&& !fits(key@, value@)
                    &&& final(self)@ == old(self)@
                },
            },
    {
        let mut tmp: Vec<u8> = Vec::new();
        tmp.extend_from_slice(key);
        tmp.extend_from_slice(value);
        assert(tmp@ =~= key@ + value@);
        let checksum = checksum_ieee(tmp.as_slice());
        self.append_frame(checksum, key, value)
    }

    /// Appends a header that stores `checksum` and behind it `key` and
    /// `value`, and returns the offset at which the header starts, the
    /// length of the log before. A key or value too long for its length
    /// field is refused, and the log stays as it is.
    pub fn append_frame(&mut self, checksum: u32, key: &[u8], value: &[u8]) -> (r: Result<
        u64,
        StoreError,
    >)
        ensures
            match r {
                Ok(offset) => {
                    &&& fits(key@, value@)
                    &&& offset == old(self)@.len()
                    &&& final(self)@ == old(self)@ + frame(checksum, key@, value@)
                },
                Err(e) => {
                    &&& e == StoreError::RecordTooLarge
                    &&& !fits(key@, value@)
                    &&& final(self)@ == old(self)@
                },
            },
    {
        let key_len = key.len();
        let val_len = value.len();
        if key_len > u32::MAX as usize || val_len > u32::MAX as usize {
            return Err(StoreError::RecordTooLarge);
        }
        let current_position = self.bytes.len() as u64;
        push_u32(&mut self.bytes, checksum);
        push_u32(&mut self.bytes, key_len as u32);
        push_u32(&mut self.bytes, val_len as u32);
        self.bytes.extend_from_slice(key);
        self.bytes.extend_from_slice(value);
        assert(self@ =~= old(self)@ + frame(checksum, key@, value@));
        Ok(current_position)
    }

    /// Reads the record that starts at offset `position`: its key and value
    /// where it is complete and its checksum matches, `None` at or behind
    /// the end of the log, and else the error.
    pub fn read_record_at(&self, position: u64) -> (r: Result<Option<KeyValuePair>, StoreError>)
        ensures
            outcome_view(r) == decode_at(self@, position as int),
    {
        let n = self.bytes.len();
        if position >= n as u64 {
            return Ok(None);
        }
        let rest = slice_subrange(self.bytes.as_slice(), position as usize, n);
        assert(rest@ =~= self@.skip(position as int));
        ActionKV::process_record(rest)
    }
}

/// The key-value store: a log store and the index over it.
pub struct ActionKV {
    f: LogStore,
    index: Index,
}

impl View for ActionKV {
    type V = Map<Seq<u8>, Seq<u8>>;

    /// What the store holds: each key of the index with the value of the
    /// record that the index points to.
    open spec fn view(&self) -> Map<Seq<u8>, Seq<u8>> {
        contents_of(self.log_view(), self.index_view())
    }
}

impl ActionKV {
    /// The bytes of the log.
    pub closed spec fn log_view(&self) -> Seq<u8> {
        self.f@
    }

    /// The index, as a map from each key to an offset in the log.
    pub closed spec fn index_view(&self) -> Map<Seq<u8>, u64> {
        self.index@
    }

    /// Every key of the index maps to the offset of a record that holds it.
    pub closed spec fn wf(&self) -> bool {
        &&& self.index.wf()
        &&& index_sound(self.f@, self.index@)
    }

    /// Whether the index is what a replay of the whole log gives, so that
    /// each key maps to the latest record that holds it.
    pub open spec fn is_current(&self) -> bool {
        replay(self.log_view()) == (self.index_view(), None::<StoreError>)
    }

    /// What `load` makes of the store `self`: the store `after` and the
    /// outcome `r`.
    pub open spec fn loads_to(&self, after: &ActionKV, r: Result<(), StoreError>) -> bool {
        &&& after.wf()
        &&& after.log_view() == self.log_view()
        &&& after.index_view() == replay(self.log_view()).0
        &&& r == match replay(self.log_view()).1 {
            None => Ok::<(), StoreError>(()),
            Some(e) => Err(e),
        }
    }

    /// Replay is idempotent: a second `load` right after a first, the log
    /// being the same, ends as the first did and leaves the same index,
    /// so that the store holds what it held.
    pub proof fn lemma_load_twice(
        &self,
        once: &ActionKV,
        r1: Result<(), StoreError>,
        twice: &ActionKV,
        r2: Result<(), StoreError>,
    )
        requires
            self.loads_to(once, r1),
            once.loads_to(twice, r2),
        ensures
            r2 == r1,
            twice.index_view() == once.index_view(),
            twice.log_view() == once.log_view(),
            twice@ == once@,
    {
    }

    /// A store over the bytes that the log holds so far, with an empty
    /// index. Nothing is replayed.
    pub fn open(bytes: Vec<u8>) -> (store: ActionKV)
        ensures
            store.wf(),
            store.log_view() == bytes@,
            store.index_view() == Map::<Seq<u8>, u64>::empty(),
    {
        ActionKV { f: LogStore::open(bytes), index: Index::new() }
    }

    /// The bytes of the log.
    pub fn log(&self) -> (bytes: &[u8])
        ensures
            bytes@ == self.log_view(),
    {
        self.f.as_bytes()
    }

    /// The index.
    pub fn index(&self) -> (index: &Index)
        requires
            self.wf(),
        ensures
            index.wf(),
            index@ == self.index_view(),
    {
        &self.index
    }

    /// Rebuilds the index from nothing by reading the log from its first
    /// byte: each record maps its key to the offset at which it starts, so
    /// that a later record of a key replaces an earlier one. The end of the
    /// log ends the replay with success. A record that is cut off or whose
    /// checksum does not match ends it with that error, and the index
    /// keeps what the records before it gave.
    pub fn load(&mut self) -> (r: Result<(), StoreError>)
        ensures
            old(self).loads_to(final(self), r),
    {
        self.index.clear();
        let end = self.f.len();
        let mut position: u64 = 0;
        loop
            invariant
                self.index.wf(),
                self.f@.len() == end,
                self.f@ == old(self).f@,
                index_sound(self.f@, self.index@),
                position <= self.f@.len(),
                replay_from(self.f@, position as int, self.index@) == replay(self.f@),
                replay(self.f@) == replay(old(self).log_view()),
            decreases self.f@.len() - position,
        {
            let maybe_kv = self.f.read_record_at(position);
            let kv = match maybe_kv {
                Ok(Some(kv)) => kv,
                Ok(None) => {
                    return Ok(());
                },
                Err(e) => {
                    return Err(e);
                },
            };
            let ghost before = self.index@;
            let size: u64 = HEADER_LEN as u64 + kv.key.len() as u64 + kv.value.len() as u64;
            proof {
                lemma_record_within(self.f@, position as int);
            }
            self.index.insert(kv.key, position);
            proof {
                assert forall|key: Seq<u8>| #[trigger]
                    self.index@.contains_key(key) implies holds_key(
                    self.f@,
                    self.index@[key] as int,
                    key,
                ) by {
                    if key != kv@.0 {
                        assert(before.contains_key(key));
                    }
                }
            }
            position = position + size;
        }
    }

    /// Reads one record from the start of `bytes`: its key and value where
    /// the record is complete and its checksum matches; `None` where no
    /// byte is left; `Truncation` where the bytes end inside the header or
    /// before the end of the value; `ChecksumMismatch` where the stored
    /// checksum is not that of the key and value bytes.
    pub fn process_record(bytes: &[u8]) -> (r: Result<Option<KeyValuePair>, StoreError>)
        ensures
            outcome_view(r) == decode(bytes@),
    {
        let header = match Header::read(bytes) {
            Ok(Some(header)) => header,
            Ok(None) => {
                return Ok(None);
            },
            Err(e) => {
                return Err(e);
            },
        };
        assert(header.key_len + header.val_len <= bytes.len() - HEADER_LEN);
        let data_end: usize = HEADER_LEN + header.data_len() as usize;
        let data = slice_to_vec(slice_subrange(bytes, HEADER_LEN, data_end));

        let check_sum = checksum_ieee(data.as_slice());
        match header.split(check_sum, data) {
            Ok(kv) => Ok(Some(kv)),
            Err(e) => Err(e),
        }
    }

    /// Appends the record of `key` and `val` to the log and maps the key to
    /// the offset of that record, so that the store holds `val` for `key`
    /// and what it held before for every other key. A key or value too
    /// long for its length field is refused, and the store stays as it is.
    pub fn insert(&mut self, key: &[u8], val: &[u8]) -> (r: Result<(), StoreError>)
        requires
            old(self).wf(),
        ensures
            final(self).wf(),
            match r {
                Ok(()) => {
                    &&& fits(key@, val@)
                    &&& final(self).log_view() == old(self).log_view() + record_bytes(key@, val@)
                    &&& final(self).index_view() == old(self).index_view().insert(
                        key@,
                        old(self).log_view().len() as u64,
                    )
                    &&& final(self)@ == old(self)@.insert(key@, val@)
                    &&& old(self).is_current() ==> final(self).is_current()
                },
                Err(e) => {
                    &&& e == StoreError::RecordTooLarge
                    &&& !fits(key@, val@)
                    &&& final(self).log_view() == old(self).log_view()
                    &&& final(self).index_view() == old(self).index_view()
                },
            },
    {
        let position = match self.insert_ignore_index(key, val) {
            Ok(position) => position,
            Err(e) => {
                return Err(e);
            },
        };
        let ghost before = self.index@;
        self.index.insert(slice_to_vec(key), position);
        proof {
            let log = old(self).f@;
            lemma_read_after_append(log, key@, val@, Seq::empty());
            assert(log + record_bytes(key@, val@) + Seq::<u8>::empty() =~= self.f@);
            assert forall|k: Seq<u8>| #[trigger]
                self.index@.contains_key(k) implies holds_key(self.f@, self.index@[k] as int, k) by {
                if k != key@ {
                    assert(before.contains_key(k));
                }
            }
            assert(self@ =~= old(self)@.insert(key@, val@)) by {
                assert forall|k: Seq<u8>| #[trigger] before.contains_key(k) implies value_at(
                    self.f@,
                    before[k] as int,
                ) == value_at(log, before[k] as int) by {
                    lemma_decode_at_stable(log, before[k] as int, record_bytes(key@, val@));
                }
            }
            if old(self).is_current() {
                lemma_replay_append(log, key@, val@);
            }
        }
        Ok(())
    }

    /// Appends the record of `key` and `val` to the log and returns the
    /// offset at which it starts. The index stays as it is, and so does
    /// what the store holds. A key or value too long for its length field
    /// is refused, and the log stays as it is.
    pub fn insert_ignore_index(&mut self, key: &[u8], val: &[u8]) -> (r: Result<u64, StoreError>)
        requires
            old(self).wf(),
        ensures
            final(self).wf(),
            final(self).index_view() == old(self).index_view(),
            final(self)@ == old(self)@,
            match r {
                Ok(offset) => {
                    &&& fits(key@, val@)
                    &&& offset == old(self).log_view().len()
                    &&& final(self).log_view() == old(self).log_view() + record_bytes(key@, val@)
                },
                Err(e) => {
                    &&& e == StoreError::RecordTooLarge
                    &&& !fits(key@, val@)
                    &&& final(self).log_view() == old(self).log_view()
                },
            },
    {
        let r = self.f.append_record(key, val);
        proof {
            if r is Ok {
                assert forall|k: Seq<u8>| #[trigger] self.index@.contains_key(k) implies {
                    &&& holds_key(self.f@, self.index@[k] as int, k)
                    &&& value_at(self.f@, self.index@[k] as int) == value_at(
                        old(self).f@,
                        self.index@[k] as int,
                    )
                } by {
                    lemma_decode_at_stable(
                        old(self).f@,
                        self.index@[k] as int,
                        record_bytes(key@, val@),
                    );
                }
            }
            assert(self@ =~= old(self)@);
        }
        r
    }

    /// The value that the store holds for `key`: that of the record at the
    /// offset which the index holds for the key. `None` where the index
    /// does not hold the key.
    pub fn get(&self, key: &[u8]) -> (value: Option<Vec<u8>>)
        requires
            self.wf(),
        ensures
            match value {
                Some(v) => self@.contains_key(key@) && self@[key@] == v@,
                None => !self@.contains_key(key@),
            },
    {
        let position = match self.index.get(key) {
            None => {
                return None;
            },
            Some(position) => position,
        };
        match self.f.read_record_at(position) {
            Ok(Some(kv)) => Some(kv.value),
            _ => {
                proof {
                    assert(holds_key(self.f@, position as int, key@));
                }
                None
            },
        }
    }
}

} // verus!
