//! What replaying and scanning a log mean, and the laws that relate writes,
//! replays, indexed lookups and scans.

use vstd::prelude::*;

use crate::codec::{lemma_parse_extend, lemma_parse_record, parse, record_bytes, record_end, RecordError, HEADER_LEN};

verus! {

/// Replays the records from offset `pos` onward into `idx`: every record read
/// sets its key to its offset, a later record overriding an earlier one. The
/// replay stops cleanly where the bytes run out and with an error at a corrupt
/// record.
pub open spec fn replay(log: Seq<u8>, pos: int, idx: Map<Seq<u8>, u64>) -> (Map<Seq<u8>, u64>, Option<RecordError>)
    decreases log.len() - pos,
{
    match parse(log, pos) {
        Ok(kv) => replay(log, record_end(log, pos), idx.insert(kv.0, pos as u64)),
        Err(RecordError::Truncated) => (idx, None),
        Err(RecordError::Corruption) => (idx, Some(RecordError::Corruption)),
    }
}

/// The index that a replay from `pos` builds from nothing.
pub open spec fn replayed(log: Seq<u8>, pos: int) -> Map<Seq<u8>, u64> {
    replay(log, pos, Map::empty()).0
}

/// Scans the records from offset `pos` onward for `target`, keeping the offset
/// and value of the last match; `found` is what earlier records gave.
pub open spec fn scan(log: Seq<u8>, pos: int, target: Seq<u8>, found: Option<(u64, Seq<u8>)>) -> Result<
    Option<(u64, Seq<u8>)>,
    RecordError,
>
    decreases log.len() - pos,
{
    match parse(log, pos) {
        Ok(kv) => scan(
            log,
            record_end(log, pos),
            target,
            if kv.0 == target {
                Some((pos as u64, kv.1))
            } else {
                found
            },
        ),
        Err(RecordError::Truncated) => Ok(found),
        Err(RecordError::Corruption) => Err(RecordError::Corruption),
    }
}

/// From `pos` on, the log is a whole number of sound records.
pub open spec fn clean(log: Seq<u8>, pos: int) -> bool
    decreases log.len() - pos,
{
    match parse(log, pos) {
        Ok(kv) => clean(log, record_end(log, pos)),
        Err(RecordError::Truncated) => pos == log.len(),
        Err(RecordError::Corruption) => false,
    }
}

/// What an indexed lookup of `key` returns.
pub open spec fn lookup(log: Seq<u8>, idx: Map<Seq<u8>, u64>, key: Seq<u8>) -> Result<Option<Seq<u8>>, RecordError> {
    if idx.contains_key(key) {
        match parse(log, idx[key] as int) {
            Ok(kv) => Ok(Some(kv.1)),
            Err(e) => Err(e),
        }
    } else {
        Ok(None)
    }
}

/// Every key of `idx` leads to a sound record of that key.
pub open spec fn points_to_records(log: Seq<u8>, idx: Map<Seq<u8>, u64>) -> bool {
    forall|k: Seq<u8>| #[trigger]
        idx.contains_key(k) ==> parse(log, idx[k] as int) is Ok && parse(log, idx[k] as int)->Ok_0.0 == k
}

/// A replay into `idx` gives `idx` overridden by what a replay from nothing gives.
pub proof fn lemma_replay_overrides(log: Seq<u8>, pos: int, idx: Map<Seq<u8>, u64>)
    ensures
        replay(log, pos, idx).0 == idx.union_prefer_right(replayed(log, pos)),
        replay(log, pos, idx).1 == replay(log, pos, Map::empty()).1,
    decreases log.len() - pos,
{
    match parse(log, pos) {
        Ok(kv) => {
            let end = record_end(log, pos);
            let one = Map::<Seq<u8>, u64>::empty().insert(kv.0, pos as u64);
            lemma_replay_overrides(log, end, idx.insert(kv.0, pos as u64));
            lemma_replay_overrides(log, end, one);
            assert(idx.union_prefer_right(one.union_prefer_right(replayed(log, end))) =~= idx.insert(
                kv.0,
                pos as u64,
            ).union_prefer_right(replayed(log, end)));
        },
        Err(RecordError::Truncated) => {
            assert(idx.union_prefer_right(Map::empty()) =~= idx);
        },
        Err(RecordError::Corruption) => {
            assert(idx.union_prefer_right(Map::empty()) =~= idx);
        },
    }
}

/// Replaying twice in a row gives the index and the outcome that replaying once gives.
pub proof fn lemma_load_idempotent(log: Seq<u8>, idx: Map<Seq<u8>, u64>)
    ensures
        replay(log, 0, replay(log, 0, idx).0) == replay(log, 0, idx),
{
    let once = replay(log, 0, idx).0;
    lemma_replay_overrides(log, 0, idx);
    lemma_replay_overrides(log, 0, once);
    assert(once.union_prefer_right(replayed(log, 0)) =~= once);
}

/// Over a clean log, a scan finds each key at the offset that a replay gives it.
proof fn lemma_scan_matches_replay(log: Seq<u8>, pos: int, k: Seq<u8>, found: Option<(u64, Seq<u8>)>)
    requires
        0 <= pos,
        clean(log, pos),
        log.len() <= u64::MAX,
    ensures
        scan(log, pos, k, found) == Ok::<Option<(u64, Seq<u8>)>, RecordError>(
            if replayed(log, pos).contains_key(k) {
                Some((replayed(log, pos)[k], parse(log, replayed(log, pos)[k] as int)->Ok_0.1))
            } else {
                found
            },
        ),
    decreases log.len() - pos,
{
    match parse(log, pos) {
        Ok(kv) => {
            let end = record_end(log, pos);
            let f2 = if kv.0 == k {
                Some((pos as u64, kv.1))
            } else {
                found
            };
            lemma_scan_matches_replay(log, end, k, f2);
            lemma_replay_overrides(log, end, Map::empty().insert(kv.0, pos as u64));
        },
        Err(e) => {
            assert(replayed(log, pos) == Map::<Seq<u8>, u64>::empty());
        },
    }
}

/// Appending a record to a clean log keeps it clean, and a replay then ends by
/// setting the record's key to its offset.
proof fn lemma_replay_append(log: Seq<u8>, pos: int, idx: Map<Seq<u8>, u64>, key: Seq<u8>, value: Seq<u8>)
    requires
        0 <= pos,
        clean(log, pos),
        key.len() <= u32::MAX,
        value.len() <= u32::MAX,
    ensures
        clean(log + record_bytes(key, value), pos),
        replay(log + record_bytes(key, value), pos, idx) == (
        replay(log, pos, idx).0.insert(key, log.len() as u64),
        None::<RecordError>,
        ),
    decreases log.len() - pos,
{
    let l2 = log + record_bytes(key, value);
    let p = parse(log, pos);
    if p is Ok {
        let kv = p->Ok_0;
        let end = record_end(log, pos);
        lemma_parse_extend(log, record_bytes(key, value), pos);
        assert(parse(l2, pos) == p);
        lemma_replay_append(log, end, idx.insert(kv.0, pos as u64), key, value);
        assert(replay(log, pos, idx) == replay(log, end, idx.insert(kv.0, pos as u64)));
    } else {
        assert(pos == log.len());
        lemma_parse_record(log, key, value);
        let end = l2.len() as int;
        assert(parse(l2, end) == Err::<(Seq<u8>, Seq<u8>), RecordError>(RecordError::Truncated));
        assert(clean(l2, end));
        assert(replay(l2, end, idx.insert(key, pos as u64)) == (idx.insert(key, pos as u64), None::<RecordError>));
    }
}

/// Appending a record to a clean log keeps it clean, and the index a replay
/// builds from nothing then differs only in pointing the record's key at it:
/// an index that matched a replay still does after each write.
pub proof fn lemma_write_keeps_replayed_index(log: Seq<u8>, key: Seq<u8>, value: Seq<u8>)
    requires
        clean(log, 0),
        key.len() <= u32::MAX,
        value.len() <= u32::MAX,
    ensures
        clean(log + record_bytes(key, value), 0),
        replayed(log + record_bytes(key, value), 0) == replayed(log, 0).insert(key, log.len() as u64),
{
    lemma_replay_append(log, 0, Map::empty(), key, value);
}

/// A record of the key and value written is found at the offset an index gives it.
proof fn lemma_lookup_appended(log: Seq<u8>, idx: Map<Seq<u8>, u64>, key: Seq<u8>, value: Seq<u8>)
    requires
        key.len() <= u32::MAX,
        value.len() <= u32::MAX,
        log.len() <= u64::MAX,
        idx.contains_key(key),
        idx[key] == log.len() as u64,
    ensures
        lookup(log + record_bytes(key, value), idx, key) == Ok::<Option<Seq<u8>>, RecordError>(Some(value)),
{
    lemma_parse_record(log, key, value);
}

/// After two writes of one key, a lookup gives the second value, through the
/// index the writes leave and, over a log that was clean, through the index a
/// later replay leaves too.
pub proof fn lemma_latest_write_wins(log: Seq<u8>, idx: Map<Seq<u8>, u64>, key: Seq<u8>, v1: Seq<u8>, v2: Seq<u8>)
    requires
        key.len() <= u32::MAX,
        v1.len() <= u32::MAX,
        v2.len() <= u32::MAX,
        log.len() + record_bytes(key, v1).len() + record_bytes(key, v2).len() <= u64::MAX,
    ensures
        ({
            let l1 = log + record_bytes(key, v1);
            let l2 = l1 + record_bytes(key, v2);
            let idx2 = idx.insert(key, log.len() as u64).insert(key, l1.len() as u64);
            &&& lookup(l2, idx2, key) == Ok::<Option<Seq<u8>>, RecordError>(Some(v2))
            &&& clean(log, 0) ==> replay(l2, 0, idx2).1 == None::<RecordError> && lookup(
                l2,
                replay(l2, 0, idx2).0,
                key,
            ) == Ok::<Option<Seq<u8>>, RecordError>(Some(v2))
        }),
{
    let l1 = log + record_bytes(key, v1);
    let l2 = l1 + record_bytes(key, v2);
    let idx2 = idx.insert(key, log.len() as u64).insert(key, l1.len() as u64);
    lemma_parse_record(log, key, v1);
    lemma_lookup_appended(l1, idx2, key, v2);
    if clean(log, 0) {
        lemma_replay_append(log, 0, idx2, key, v1);
        lemma_replay_append(l1, 0, idx2, key, v2);
        lemma_lookup_appended(l1, replay(l2, 0, idx2).0, key, v2);
    }
}

/// After a delete, a lookup of the key finds it, with an empty value.
pub proof fn lemma_delete_leaves_tombstone(log: Seq<u8>, idx: Map<Seq<u8>, u64>, key: Seq<u8>)
    requires
        key.len() <= u32::MAX,
        log.len() <= u64::MAX,
    ensures
        lookup(log + record_bytes(key, Seq::empty()), idx.insert(key, log.len() as u64), key) == Ok::<
            Option<Seq<u8>>,
            RecordError,
        >(Some(Seq::empty())),
{
    lemma_lookup_appended(log, idx.insert(key, log.len() as u64), key, Seq::empty());
}

/// Over a clean log, for each key of the index a replay builds, a scan finds
/// the same offset and the same value that an indexed lookup gives.
pub proof fn lemma_find_agrees_with_get(log: Seq<u8>, key: Seq<u8>)
    requires
        clean(log, 0),
        log.len() <= u64::MAX,
        replayed(log, 0).contains_key(key),
    ensures
        ({
            let idx = replayed(log, 0);
            &&& lookup(log, idx, key) is Ok
            &&& lookup(log, idx, key)->Ok_0 is Some
            &&& scan(log, 0, key, None) == Ok::<Option<(u64, Seq<u8>)>, RecordError>(
                Some((idx[key], lookup(log, idx, key)->Ok_0->Some_0)),
            )
        }),
{
    lemma_scan_matches_replay(log, 0, key, None);
    lemma_replay_points_to_records(log, 0, Map::empty());
}

/// A replay into an index whose keys lead to sound records leaves one whose keys do.
pub proof fn lemma_replay_points_to_records(log: Seq<u8>, pos: int, idx: Map<Seq<u8>, u64>)
    requires
        0 <= pos,
        log.len() <= u64::MAX,
        points_to_records(log, idx),
    ensures
        points_to_records(log, replay(log, pos, idx).0),
    decreases log.len() - pos,
{
    match parse(log, pos) {
        Ok(kv) => {
            let i2 = idx.insert(kv.0, pos as u64);
            assert(points_to_records(log, i2));
            lemma_replay_points_to_records(log, record_end(log, pos), i2);
        },
        Err(e) => {},
    }
}

} // verus!
