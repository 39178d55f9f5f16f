//! Replay: what reading a log from its first byte to its end makes of the
//! index, and the facts about it that the store relies on.

use crate::record::{
    crc32_ieee, decode, decode_at, fits, frame, header_of, lemma_decode_frame,
    lemma_decode_record, lemma_frame_layout, payload_of, record_bytes, record_len,
    stored_checksum, StoreError,
};
use vstd::prelude::*;

verus! {

/// Whether the record at offset `pos` of `log` is complete, has a matching
/// checksum and holds `key`.
pub open spec fn holds_key(log: Seq<u8>, pos: int, key: Seq<u8>) -> bool {
    match decode_at(log, pos) {
        Ok(Some(kv)) => kv.0 == key,
        _ => false,
    }
}

/// Whether every key of `index` maps to the offset of a record of `log`
/// that holds this key.
pub open spec fn index_sound(log: Seq<u8>, index: Map<Seq<u8>, u64>) -> bool {
    forall|key: Seq<u8>| #[trigger] index.contains_key(key) ==> holds_key(log, index[key] as int, key)
}

/// The value of the record at offset `pos` of `log`, where a complete record
/// with a matching checksum starts there.
pub open spec fn value_at(log: Seq<u8>, pos: int) -> Seq<u8> {
    match decode_at(log, pos) {
        Ok(Some(kv)) => kv.1,
        _ => Seq::empty(),
    }
}

/// What a store with this log and this index holds: for each key of the
/// index, the value of the record at the offset that the key maps to.
pub open spec fn contents_of(log: Seq<u8>, index: Map<Seq<u8>, u64>) -> Map<Seq<u8>, Seq<u8>> {
    Map::new(|key: Seq<u8>| index.contains_key(key), |key: Seq<u8>| value_at(log, index[key] as int))
}

/// The index that comes of reading `log` record by record from offset `pos`
/// on, starting with `index`, and the error that ended the replay, if one
/// did: each record maps its key to the offset at which it starts; the
/// end of the log ends the replay without error, and a record that cannot
/// be read ends it with its error.
pub open spec fn replay_from(log: Seq<u8>, pos: int, index: Map<Seq<u8>, u64>) -> (
    Map<Seq<u8>, u64>,
    Option<StoreError>,
)
    decreases log.len() - pos,
{
    match decode_at(log, pos) {
        Ok(Some(kv)) => replay_from(
            log,
            pos + record_len(kv.0, kv.1),
            index.insert(kv.0, pos as u64),
        ),
        Ok(None) => (index, None),
        Err(e) => (index, Some(e)),
    }
}

/// The index that a replay of the whole of `log` into an empty index
/// gives, and the error that ended it, if one did.
pub open spec fn replay(log: Seq<u8>) -> (Map<Seq<u8>, u64>, Option<StoreError>) {
    replay_from(log, 0, Map::empty())
}

/// A record that was read stays what it is when bytes are added behind it.
pub proof fn lemma_decode_stable(bytes: Seq<u8>, rest: Seq<u8>)
    requires
        decode(bytes) is Ok,
        decode(bytes)->Ok_0 is Some,
    ensures
        decode(bytes + rest) == decode(bytes),
{
    let all = bytes + rest;
    assert(all.subrange(0, 4) =~= bytes.subrange(0, 4));
    assert(all.subrange(4, 8) =~= bytes.subrange(4, 8));
    assert(all.subrange(8, 12) =~= bytes.subrange(8, 12));
    let header = header_of(bytes)->Ok_0->Some_0;
    assert(payload_of(all, header) =~= payload_of(bytes, header));
}

/// The same at an offset of a log that grows at its end.
pub proof fn lemma_decode_at_stable(log: Seq<u8>, pos: int, rest: Seq<u8>)
    requires
        decode_at(log, pos) is Ok,
        decode_at(log, pos)->Ok_0 is Some,
    ensures
        decode_at(log + rest, pos) == decode_at(log, pos),
{
    assert((log + rest).skip(pos) =~= log.skip(pos) + rest);
    lemma_decode_stable(log.skip(pos), rest);
}

/// A record that was read ends inside the log.
pub proof fn lemma_record_within(log: Seq<u8>, pos: int)
    requires
        decode_at(log, pos) is Ok,
        decode_at(log, pos)->Ok_0 is Some,
    ensures
        0 <= pos,
        pos + record_len(decode_at(log, pos)->Ok_0->Some_0.0, decode_at(log, pos)->Ok_0->Some_0.1)
            <= log.len(),
{
}

/// What is read at the end of `log` once `rest` is added is what `rest`
/// starts with.
pub proof fn lemma_decode_at_end(log: Seq<u8>, rest: Seq<u8>)
    ensures
        decode_at(log + rest, log.len() as int) == decode(rest),
{
    if rest.len() > 0 {
        assert((log + rest).skip(log.len() as int) =~= rest);
    }
}

/// Round trip: the record appended to `log` for a key and a value is read
/// back at the offset where it starts, the length of `log`, as that key and
/// value, and its stored checksum is that of its bytes, whatever is
/// appended after it.
pub proof fn lemma_read_after_append(log: Seq<u8>, key: Seq<u8>, value: Seq<u8>, rest: Seq<u8>)
    requires
        fits(key, value),
    ensures
        decode_at(log + record_bytes(key, value) + rest, log.len() as int) == Ok::<
            Option<(Seq<u8>, Seq<u8>)>,
            StoreError,
        >(Some((key, value))),
        stored_checksum((log + record_bytes(key, value) + rest).skip(log.len() as int))
            == crc32_ieee(key + value),
{
    let record = record_bytes(key, value);
    lemma_frame_layout(crc32_ieee(key + value), key, value, rest);
    assert((log + record + rest).skip(log.len() as int) =~= record + rest);
    lemma_decode_record(key, value, rest);
}

/// A replay of `log` that ends well goes on, once `rest` is added to the
/// log, at the end of `log` with the index it had built.
pub proof fn lemma_replay_split(log: Seq<u8>, rest: Seq<u8>, pos: int, index: Map<Seq<u8>, u64>)
    requires
        0 <= pos <= log.len(),
        replay_from(log, pos, index).1 is None,
    ensures
        replay_from(log + rest, pos, index) == replay_from(
            log + rest,
            log.len() as int,
            replay_from(log, pos, index).0,
        ),
    decreases log.len() - pos,
{
    if pos < log.len() {
        lemma_record_within(log, pos);
        lemma_decode_at_stable(log, pos, rest);
        let kv = decode_at(log, pos)->Ok_0->Some_0;
        lemma_replay_split(log, rest, pos + record_len(kv.0, kv.1), index.insert(kv.0, pos as u64));
    }
}

/// Replay after an append: where `log` replays well, the log with one more
/// record replays well too, to the same index but for the key of the new
/// record, which maps to the offset at which that record starts.
pub proof fn lemma_replay_append(log: Seq<u8>, key: Seq<u8>, value: Seq<u8>)
    requires
        replay(log).1 is None,
        fits(key, value),
    ensures
        replay(log + record_bytes(key, value)) == (
            replay(log).0.insert(key, log.len() as u64),
            None::<StoreError>,
        ),
{
    let record = record_bytes(key, value);
    let grown = log + record;
    lemma_replay_split(log, record, 0, Map::empty());
    lemma_decode_at_end(log, record);
    assert(record + Seq::<u8>::empty() =~= record);
    lemma_decode_record(key, value, Seq::empty());
    lemma_frame_layout(crc32_ieee(key + value), key, value, Seq::empty());
    assert(decode_at(grown, grown.len() as int) == Ok::<Option<(Seq<u8>, Seq<u8>)>, StoreError>(None));
    reveal_with_fuel(replay_from, 2);
}

/// A replay keeps an index sound: where every key of `index` maps to a
/// record of `log` that holds it, so does every key of the index that a
/// replay from `pos` makes of it, whether the replay ends well or not.
pub proof fn lemma_replay_sound(log: Seq<u8>, pos: int, index: Map<Seq<u8>, u64>)
    requires
        log.len() <= u64::MAX,
        index_sound(log, index),
    ensures
        index_sound(log, replay_from(log, pos, index).0),
    decreases log.len() - pos,
{
    match decode_at(log, pos) {
        Ok(Some(kv)) => {
            let next = index.insert(kv.0, pos as u64);
            assert forall|key: Seq<u8>| #[trigger] next.contains_key(key) implies holds_key(
                log,
                next[key] as int,
                key,
            ) by {
                if key != kv.0 {
                    assert(index.contains_key(key));
                }
            }
            lemma_replay_sound(log, pos + record_len(kv.0, kv.1), next);
        },
        _ => {},
    }
}

/// Last write wins: after a record of `key` with `v1` and then one of
/// `key` with `v2` were appended to a log that replays well, a replay of
/// the whole log ends well and maps `key` to the second record, so that
/// the store holds `v2` for `key`. The first record is still in the log,
/// at the offset where it was written, and no key of the index maps to
/// that offset.
pub proof fn lemma_last_write_wins(log: Seq<u8>, key: Seq<u8>, v1: Seq<u8>, v2: Seq<u8>)
    requires
        replay(log).1 is None,
        fits(key, v1),
        fits(key, v2),
        log.len() + record_len(key, v1) <= u64::MAX,
    ensures
        ({
            let first = log.len() as int;
            let second = first + record_len(key, v1);
            let grown = log + record_bytes(key, v1) + record_bytes(key, v2);
            let index = replay(grown).0;
            &&& replay(grown).1 is None
            &&& index == replay(log).0.insert(key, second as u64)
            &&& contents_of(grown, index).contains_key(key)
            &&& contents_of(grown, index)[key] == v2
            &&& decode_at(grown, first) == Ok::<Option<(Seq<u8>, Seq<u8>)>, StoreError>(
                Some((key, v1)),
            )
            &&& forall|k: Seq<u8>| #[trigger] index.contains_key(k) ==> index[k] != first
        }),
{
    let first = log.len() as int;
    let second = first + record_len(key, v1);
    let middle = log + record_bytes(key, v1);
    let grown = middle + record_bytes(key, v2);
    let old_index = replay(log).0;
    let index = replay(grown).0;
    lemma_frame_layout(crc32_ieee(key + v1), key, v1, Seq::empty());
    lemma_replay_append(log, key, v1);
    lemma_replay_append(middle, key, v2);
    assert(old_index.insert(key, first as u64).insert(key, second as u64) =~= old_index.insert(
        key,
        second as u64,
    ));
    lemma_read_after_append(middle, key, v2, Seq::empty());
    assert(middle + record_bytes(key, v2) + Seq::<u8>::empty() =~= grown);
    lemma_read_after_append(log, key, v1, record_bytes(key, v2));
    lemma_replay_sound(log, 0, Map::empty());
    assert forall|k: Seq<u8>| #[trigger] index.contains_key(k) implies index[k] != first by {
        if k != key {
            assert(old_index.contains_key(k));
            lemma_record_within(log, old_index[k] as int);
        }
    }
}

/// The log that holds the records of `records`, each a key with a value, in
/// their order and nothing else.
pub open spec fn log_of(records: Seq<(Seq<u8>, Seq<u8>)>) -> Seq<u8>
    decreases records.len(),
{
    if records.len() == 0 {
        Seq::empty()
    } else {
        log_of(records.drop_last()) + record_bytes(records.last().0, records.last().1)
    }
}

/// The position in `records` of the last record of `key`, or -1 where
/// there is none.
pub open spec fn latest(records: Seq<(Seq<u8>, Seq<u8>)>, key: Seq<u8>) -> int
    decreases records.len(),
{
    if records.len() == 0 {
        -1
    } else if records.last().0 == key {
        records.len() - 1
    } else {
        latest(records.drop_last(), key)
    }
}

/// Whether the lengths of every key and value of `records` can be written
/// in a header.
pub open spec fn all_fit(records: Seq<(Seq<u8>, Seq<u8>)>) -> bool {
    forall|i: int| 0 <= i < records.len() ==> fits(#[trigger] records[i].0, records[i].1)
}

/// The last record of a key is a record of that key, and no record behind
/// it is.
pub proof fn lemma_latest(records: Seq<(Seq<u8>, Seq<u8>)>, key: Seq<u8>)
    ensures
        -1 <= latest(records, key) < records.len(),
        latest(records, key) >= 0 ==> records[latest(records, key)].0 == key,
        forall|i: int| latest(records, key) < i < records.len() ==> (#[trigger] records[i]).0 != key,
    decreases records.len(),
{
    if records.len() > 0 && records.last().0 != key {
        lemma_latest(records.drop_last(), key);
        assert forall|i: int| latest(records, key) < i < records.len() implies (
        #[trigger] records[i]).0 != key by {
            if i < records.len() - 1 {
                assert(records.drop_last()[i] == records[i]);
            }
        }
    }
}

/// Replay of a log of whole records: it ends well, and the index holds
/// the keys of the records and maps each to the offset at which the last
/// record of the key starts, the length of the log of the records before
/// it; the store then holds for each key the value of that last record.
pub proof fn lemma_replay_of_records(records: Seq<(Seq<u8>, Seq<u8>)>)
    requires
        all_fit(records),
        log_of(records).len() <= u64::MAX,
    ensures
        replay(log_of(records)).1 is None,
        forall|key: Seq<u8>| #[trigger]
            replay(log_of(records)).0.contains_key(key) <==> latest(records, key) >= 0,
        forall|key: Seq<u8>|
            latest(records, key) >= 0 ==> {
                &&& (#[trigger] replay(log_of(records)).0[key]) == log_of(
                    records.take(latest(records, key)),
                ).len()
                &&& value_at(log_of(records), replay(log_of(records)).0[key] as int)
                    == records[latest(records, key)].1
            },
    decreases records.len(),
{
    reveal_with_fuel(replay_from, 2);
    if records.len() > 0 {
        let before = records.drop_last();
        let last = records.last();
        let log = log_of(before);
        assert(all_fit(before)) by {
            assert forall|i: int| 0 <= i < before.len() implies fits(
                #[trigger] before[i].0,
                before[i].1,
            ) by {
                assert(before[i] == records[i]);
            }
        }
        assert(fits(last.0, last.1)) by {
            assert(records[records.len() - 1] == last);
        }
        lemma_replay_of_records(before);
        lemma_replay_append(log, last.0, last.1);
        lemma_replay_sound(log, 0, Map::empty());
        let index = replay(log_of(records)).0;
        assert forall|key: Seq<u8>| latest(records, key) >= 0 implies {
            &&& (#[trigger] index[key]) == log_of(records.take(latest(records, key))).len()
            &&& value_at(log_of(records), index[key] as int) == records[latest(records, key)].1
        } by {
            let at = latest(records, key);
            lemma_latest(records, key);
            if last.0 == key {
                assert(records.take(at) =~= before);
                lemma_read_after_append(log, last.0, last.1, Seq::empty());
                assert(log + record_bytes(last.0, last.1) + Seq::<u8>::empty() =~= log_of(records));
            } else {
                lemma_latest(before, key);
                assert(records.take(at) =~= before.take(at));
                assert(before[at] == records[at]);
                assert(replay(log).0.contains_key(key));
                lemma_decode_at_stable(log, replay(log).0[key] as int, record_bytes(last.0, last.1));
            }
        }
    }
}

/// Replay past a clean end: where `log` replays well, a replay of `log`
/// with `rest` behind it reads `rest` from the end of `log` on with the
/// index that `log` gives.
pub proof fn lemma_replay_continues(log: Seq<u8>, rest: Seq<u8>)
    requires
        replay(log).1 is None,
    ensures
        replay(log + rest) == replay_from(log + rest, log.len() as int, replay(log).0),
{
    lemma_replay_split(log, rest, 0, Map::empty());
}

/// A record that is cut off anywhere, after its first byte and before its
/// last, reads as a truncation.
pub proof fn lemma_decode_cut_record(key: Seq<u8>, value: Seq<u8>, keep: int)
    requires
        fits(key, value),
        0 < keep < record_len(key, value),
    ensures
        decode(record_bytes(key, value).take(keep)) == Err::<
            Option<(Seq<u8>, Seq<u8>)>,
            StoreError,
        >(StoreError::Truncation),
{
    let record = record_bytes(key, value);
    let cut = record.take(keep);
    lemma_frame_layout(crc32_ieee(key + value), key, value, Seq::empty());
    assert(record + Seq::<u8>::empty() =~= record);
    if keep >= 12 {
        assert(cut.subrange(4, 8) =~= record.subrange(4, 8));
        assert(cut.subrange(8, 12) =~= record.subrange(8, 12));
    }
}

/// Truncation is told from a clean end: where `log` replays well, a replay
/// of `log` with fewer bytes behind it than a header has, and at least
/// one, ends with `Truncation`; so does a replay of `log` with a record
/// behind it that is cut off after its first byte and before its last.
/// The index is in both cases that of `log`.
pub proof fn lemma_truncation_detected(
    log: Seq<u8>,
    stray: Seq<u8>,
    key: Seq<u8>,
    value: Seq<u8>,
    keep: int,
)
    requires
        replay(log).1 is None,
        0 < stray.len() < 12,
        fits(key, value),
        0 < keep < record_len(key, value),
    ensures
        replay(log + stray) == (replay(log).0, Some(StoreError::Truncation)),
        replay(log + record_bytes(key, value).take(keep)) == (
            replay(log).0,
            Some(StoreError::Truncation),
        ),
{
    lemma_replay_continues(log, stray);
    lemma_decode_at_end(log, stray);
    let cut = record_bytes(key, value).take(keep);
    lemma_replay_continues(log, cut);
    lemma_decode_at_end(log, cut);
    lemma_decode_cut_record(key, value, keep);
}

/// Corruption is detected: a record whose key or value bytes were changed
/// after it was written, their lengths kept, reads as a checksum mismatch
/// wherever the changed bytes have another checksum than the bytes
/// written; and where the log before the record replays well, a replay
/// ends with that error at the record, with the index of the log before
/// it.
pub proof fn lemma_corruption_detected(
    log: Seq<u8>,
    key: Seq<u8>,
    value: Seq<u8>,
    bad_key: Seq<u8>,
    bad_value: Seq<u8>,
    rest: Seq<u8>,
)
    requires
        fits(key, value),
        bad_key.len() == key.len(),
        bad_value.len() == value.len(),
        crc32_ieee(bad_key + bad_value) != crc32_ieee(key + value),
    ensures
        decode_at(
            log + frame(crc32_ieee(key + value), bad_key, bad_value) + rest,
            log.len() as int,
        ) == Err::<Option<(Seq<u8>, Seq<u8>)>, StoreError>(StoreError::ChecksumMismatch),
        replay(log).1 is None ==> replay(
            log + frame(crc32_ieee(key + value), bad_key, bad_value) + rest,
        ) == (replay(log).0, Some(StoreError::ChecksumMismatch)),
{
    let bad = frame(crc32_ieee(key + value), bad_key, bad_value);
    lemma_decode_frame(crc32_ieee(key + value), bad_key, bad_value, rest);
    lemma_decode_at_end(log, bad + rest);
    assert(log + (bad + rest) =~= log + bad + rest);
    if replay(log).1 is None {
        lemma_replay_continues(log, bad + rest);
    }
}

/// No read gives a key and a value whose checksum is not the stored one.
pub proof fn lemma_read_checksum_matches(log: Seq<u8>, pos: int)
    requires
        decode_at(log, pos) is Ok,
        decode_at(log, pos)->Ok_0 is Some,
    ensures
        ({
            let kv = decode_at(log, pos)->Ok_0->Some_0;
            crc32_ieee(kv.0 + kv.1) == stored_checksum(log.skip(pos))
        }),
{
    let bytes = log.skip(pos);
    let header = header_of(bytes)->Ok_0->Some_0;
    let data = payload_of(bytes, header);
    assert(data.take(header.key_len as int) + data.skip(header.key_len as int) =~= data);
}

} // verus!
