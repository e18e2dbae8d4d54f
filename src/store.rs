//! The storage engine: a log image and the index over it.

use vstd::prelude::*;
use vstd::slice::{slice_subrange, slice_to_vec};

use crate::codec::{
    checksum, decoded, encode, lemma_parse_extend, lemma_parse_record, parse, read_u32_le, record_bytes, record_end,
    KeyValuePair, RecordError, HEADER_LEN,
};
use crate::index::{entries_view, lists_exactly, KeyIndex};
use crate::snapshot::{bincode_of_entries, serialize_entries, SnapshotError};
use crate::replay::{lookup, points_to_records, replay, scan};

verus! {

/// A key-value store over one append-only log. The log's bytes are held here;
/// whoever persists them appends what each write adds to its end.
pub struct ActionKV {
    log: Vec<u8>,
    pub index: KeyIndex,
}

/// What a lookup result says, as a value.
pub open spec fn looked_up(r: Result<Option<Vec<u8>>, RecordError>) -> Result<Option<Seq<u8>>, RecordError> {
    match r {
        Ok(Some(v)) => Ok(Some(v@)),
        Ok(None) => Ok(None),
        Err(e) => Err(e),
    }
}

/// What a scan result says, as offset and value.
pub open spec fn scanned(r: Result<Option<(u64, Vec<u8>)>, RecordError>) -> Result<
    Option<(u64, Seq<u8>)>,
    RecordError,
> {
    match r {
        Ok(Some(f)) => Ok(Some((f.0, f.1@))),
        Ok(None) => Ok(None),
        Err(e) => Err(e),
    }
}

/// A record that reads correctly spans its header, key and value.
proof fn lemma_record_len(log: Seq<u8>, pos: int)
    requires
        parse(log, pos) is Ok,
    ensures
        record_end(log, pos) == pos + HEADER_LEN + parse(log, pos)->Ok_0.0.len() + parse(log, pos)->Ok_0.1.len(),
        record_end(log, pos) <= log.len(),
{
}

impl ActionKV {
    /// The bytes of the log.
    pub closed spec fn log_seq(&self) -> Seq<u8> {
        self.log@
    }

    /// The index, as a map from keys to offsets.
    pub closed spec fn index_map(&self) -> Map<Seq<u8>, u64> {
        self.index@
    }

    /// The index's own entries are consistent.
    pub closed spec fn index_wf(&self) -> bool {
        self.index.wf()
    }

    /// The index is consistent and each of its keys leads to a sound record
    /// of that key.
    pub closed spec fn wf(&self) -> bool {
        &&& self.index_wf()
        &&& points_to_records(self.log_seq(), self.index_map())
    }

    /// What the store's invariant is made of.
    pub proof fn lemma_wf_parts(&self)
        ensures
            self.wf() == (self.index_wf() && points_to_records(self.log_seq(), self.index_map())),
    {
    }

    /// A store over the log bytes `contents`, with an empty index.
    pub fn open(contents: Vec<u8>) -> (r: ActionKV)
        ensures
            r.wf(),
            r.log_seq() == contents@,
            r.index_map() == Map::<Seq<u8>, u64>::empty(),
    {
        ActionKV { log: contents, index: KeyIndex::new() }
    }

    /// The bytes of the log.
    pub fn log(&self) -> (r: &[u8])
        ensures
            r@ == self.log_seq(),
    {
        self.log.as_slice()
    }

    /// Reads the record that starts at offset `pos` of `log`.
    pub fn process_record(log: &[u8], pos: usize) -> (r: Result<KeyValuePair, RecordError>)
        ensures
            decoded(r) == parse(log@, pos as int),
    {
        let n = log.len();
        if pos > n || n - pos < HEADER_LEN {
            return Err(RecordError::Truncated);
        }
        let saved = read_u32_le(log, pos);
        let klen = read_u32_le(log, pos + 4) as usize;
        let vlen = read_u32_le(log, pos + 8) as usize;
        let start = pos + HEADER_LEN;
        if klen > n - start || vlen > n - start - klen {
            return Err(RecordError::Truncated);
        }
        let mid = start + klen;
        let end = mid + vlen;
        let payload = slice_subrange(log, start, end);
        if checksum(payload) != saved {
            return Err(RecordError::Corruption);
        }
        let key = slice_to_vec(slice_subrange(log, start, mid));
        let value = slice_to_vec(slice_subrange(log, mid, end));
        assert(key@ =~= payload@.subrange(0, klen as int));
        assert(value@ =~= payload@.subrange(klen as int, payload@.len() as int));
        Ok(KeyValuePair { key, value })
    }

    /// Replays the whole log into the index, from offset 0: each record sets
    /// its key to its offset. Stops at the end of the log, or with
    /// `Corruption` at a corrupt record, keeping what it set before.
    pub fn load(&mut self) -> (r: Result<(), RecordError>)
        requires
            old(self).wf(),
        ensures
            final(self).wf(),
            final(self).log_seq() == old(self).log_seq(),
            final(self).index_map() == replay(old(self).log_seq(), 0, old(self).index_map()).0,
            r == (match replay(old(self).log_seq(), 0, old(self).index_map()).1 {
                None => Ok(()),
                Some(e) => Err(e),
            }),
    {
        let ghost log = self.log@;
        let ghost start = self.index@;
        let mut pos: usize = 0;
        loop
            invariant
                self.wf(),
                self.log@ == log,
                log == old(self).log@,
                start == old(self).index@,
                pos <= log.len(),
                replay(log, pos as int, self.index@) == replay(log, 0, start),
            decreases log.len() - pos,
        {
            let n = self.log.len();
            let rec = ActionKV::process_record(self.log.as_slice(), pos);
            match rec {
                Ok(kv) => {
                    proof {
                        lemma_record_len(log, pos as int);
                        assert(decoded(rec) == Ok::<(Seq<u8>, Seq<u8>), RecordError>((kv.key@, kv.value@)));
                        assert(pos + HEADER_LEN + kv.key@.len() + kv.value@.len() <= n);
                    }
                    let end = pos + HEADER_LEN + kv.key.len() + kv.value.len();
                    self.index.insert(kv.key, pos as u64);
                    pos = end;
                },
                Err(RecordError::Truncated) => {
                    return Ok(());
                },
                Err(RecordError::Corruption) => {
                    return Err(RecordError::Corruption);
                },
            }
        }
    }

    /// Appends a record of `key` and `value` to the log and returns its
    /// offset, leaving the index as it is.
    pub fn insert_but_ignore_index(&mut self, key: &[u8], value: &[u8]) -> (r: u64)
        requires
            old(self).wf(),
            key@.len() <= u32::MAX,
            value@.len() <= u32::MAX,
            old(self).log_seq().len() + HEADER_LEN + key@.len() + value@.len() <= usize::MAX,
        ensures
            final(self).wf(),
            r == old(self).log_seq().len(),
            final(self).log_seq() == old(self).log_seq() + record_bytes(key@, value@),
            parse(final(self).log_seq(), old(self).log_seq().len() as int) == Ok::<(Seq<u8>, Seq<u8>), RecordError>(
                (key@, value@),
            ),
            final(self).index_map() == old(self).index_map(),
    {
        let ghost before = self.log@;
        let position = self.log.len() as u64;
        let mut rec = encode(key, value);
        self.log.append(&mut rec);
        proof {
            lemma_parse_record(before, key@, value@);
            assert forall|k: Seq<u8>| #[trigger] self.index@.contains_key(k) implies parse(
                self.log@,
                self.index@[k] as int,
            ) is Ok && parse(self.log@, self.index@[k] as int)->Ok_0.0 == k by {
                lemma_parse_extend(before, record_bytes(key@, value@), self.index@[k] as int);
            }
        }
        position
    }

    /// Appends a record of `key` and `value` and points the index at it.
    pub fn insert(&mut self, key: &[u8], value: &[u8])
        requires
            old(self).wf(),
            key@.len() <= u32::MAX,
            value@.len() <= u32::MAX,
            old(self).log_seq().len() + HEADER_LEN + key@.len() + value@.len() <= usize::MAX,
        ensures
            final(self).wf(),
            final(self).log_seq() == old(self).log_seq() + record_bytes(key@, value@),
            parse(final(self).log_seq(), old(self).log_seq().len() as int) == Ok::<(Seq<u8>, Seq<u8>), RecordError>(
                (key@, value@),
            ),
            final(self).index_map() == old(self).index_map().insert(key@, old(self).log_seq().len() as u64),
    {
        let position = self.insert_but_ignore_index(key, value);
        proof {
            lemma_parse_record(old(self).log@, key@, value@);
        }
        self.index.insert(slice_to_vec(key), position);
    }

    /// Writes a new version of `key`: the same as `insert`.
    pub fn update(&mut self, key: &[u8], value: &[u8])
        requires
            old(self).wf(),
            key@.len() <= u32::MAX,
            value@.len() <= u32::MAX,
            old(self).log_seq().len() + HEADER_LEN + key@.len() + value@.len() <= usize::MAX,
        ensures
            final(self).wf(),
            final(self).log_seq() == old(self).log_seq() + record_bytes(key@, value@),
            parse(final(self).log_seq(), old(self).log_seq().len() as int) == Ok::<(Seq<u8>, Seq<u8>), RecordError>(
                (key@, value@),
            ),
            final(self).index_map() == old(self).index_map().insert(key@, old(self).log_seq().len() as u64),
    {
        self.insert(key, value)
    }

    /// Deletes `key` by writing it with an empty value; the key stays in the
    /// index, pointing at that record.
    pub fn delete(&mut self, key: &[u8])
        requires
            old(self).wf(),
            key@.len() <= u32::MAX,
            old(self).log_seq().len() + HEADER_LEN + key@.len() <= usize::MAX,
        ensures
            final(self).wf(),
            final(self).log_seq() == old(self).log_seq() + record_bytes(key@, Seq::empty()),
            parse(final(self).log_seq(), old(self).log_seq().len() as int) == Ok::<(Seq<u8>, Seq<u8>), RecordError>(
                (key@, Seq::empty()),
            ),
            final(self).index_map() == old(self).index_map().insert(key@, old(self).log_seq().len() as u64),
    {
        let empty: [u8; 0] = [];
        assert(empty@ =~= Seq::<u8>::empty());
        self.insert(key, &empty)
    }

    /// Reads the record at offset `position` of the log.
    pub fn get_at(&self, position: u64) -> (r: Result<KeyValuePair, RecordError>)
        ensures
            decoded(r) == parse(self.log_seq(), position as int),
    {
        if position > self.log.len() as u64 {
            return Err(RecordError::Truncated);
        }
        ActionKV::process_record(self.log.as_slice(), position as usize)
    }

    /// The value of `key`, read at the offset the index gives it; `None`
    /// where the index has no such key.
    pub fn get(&self, key: &[u8]) -> (r: Result<Option<Vec<u8>>, RecordError>)
        requires
            self.index_wf(),
        ensures
            looked_up(r) == lookup(self.log_seq(), self.index_map(), key@),
            self.wf() ==> r is Ok,
    {
        match self.index.get(key) {
            None => Ok(None),
            Some(position) => {
                let kv = self.get_at(position)?;
                Ok(Some(kv.value))
            },
        }
    }

    /// Scans the whole log for `target`, ignoring the index, and returns the
    /// offset and value of its last record.
    pub fn find(&self, target: &[u8]) -> (r: Result<Option<(u64, Vec<u8>)>, RecordError>)
        ensures
            scanned(r) == scan(self.log_seq(), 0, target@, None),
    {
        let ghost log = self.log@;
        let mut found: Option<(u64, Vec<u8>)> = None;
        let mut pos: usize = 0;
        loop
            invariant
                pos <= log.len(),
                self.log@ == log,
                scan(log, pos as int, target@, scanned(Ok(found))->Ok_0) == scan(log, 0, target@, None),
            decreases log.len() - pos,
        {
            let n = self.log.len();
            let rec = ActionKV::process_record(self.log.as_slice(), pos);
            match rec {
                Ok(kv) => {
                    proof {
                        lemma_record_len(log, pos as int);
                        assert(decoded(rec) == Ok::<(Seq<u8>, Seq<u8>), RecordError>((kv.key@, kv.value@)));
                        assert(pos + HEADER_LEN + kv.key@.len() + kv.value@.len() <= n);
                    }
                    let end = pos + HEADER_LEN + kv.key.len() + kv.value.len();
                    if crate::index::slice_eq(kv.key.as_slice(), target) {
                        found = Some((pos as u64, kv.value));
                    }
                    pos = end;
                },
                Err(RecordError::Truncated) => {
                    return Ok(found);
                },
                Err(RecordError::Corruption) => {
                    return Err(RecordError::Corruption);
                },
            }
        }
    }
    /// Replaces the whole index by one record of `blob` under `index_key`,
    /// the only entry the index keeps. Refuses, changing nothing, where the
    /// record would not fit.
    pub fn store_snapshot(&mut self, index_key: &[u8], blob: &[u8]) -> (r: Result<(), SnapshotError>)
        requires
            old(self).wf(),
        ensures
            final(self).wf(),
            ({
                let fits = index_key@.len() <= u32::MAX && blob@.len() <= u32::MAX && old(self).log_seq().len()
                    + HEADER_LEN + index_key@.len() + blob@.len() <= usize::MAX;
                if fits {
                    &&& r is Ok
                    &&& final(self).log_seq() == old(self).log_seq() + record_bytes(index_key@, blob@)
                    &&& final(self).index_map() == Map::<Seq<u8>, u64>::empty().insert(
                        index_key@,
                        old(self).log_seq().len() as u64,
                    )
                } else {
                    r == Err::<(), SnapshotError>(SnapshotError::TooLarge) && *final(self) == *old(self)
                }
            }),
    {
        let max32 = u32::MAX as usize;
        if index_key.len() > max32 || blob.len() > max32 || self.log.len() > usize::MAX - HEADER_LEN
            || index_key.len() > usize::MAX - HEADER_LEN - self.log.len() || blob.len() > usize::MAX - HEADER_LEN - self.log.len() - index_key.len() {
            return Err(SnapshotError::TooLarge);
        }
        self.index = KeyIndex::new();
        self.insert(index_key, blob);
        Ok(())
    }
}

/// Persists the index inside the log: drops `index_key` from it, encodes
/// the rest, empties the index and writes the encoding as the record of
/// `index_key`. Fails, changing nothing, where the encoding fails or does not
/// fit in a record.
pub fn store_index_on_disk(a: &mut ActionKV, index_key: &[u8]) -> (r: Result<(), SnapshotError>)
    requires
        old(a).wf(),
    ensures
        final(a).wf(),
        r is Ok ==> exists|e: Seq<(Seq<u8>, u64)>|
            #![trigger bincode_of_entries(e)]
            {
                &&& lists_exactly(e, old(a).index_map().remove(index_key@))
                &&& final(a).log_seq() == old(a).log_seq() + record_bytes(index_key@, bincode_of_entries(e))
                &&& final(a).index_map() == Map::<Seq<u8>, u64>::empty().insert(
                    index_key@,
                    old(a).log_seq().len() as u64,
                )
            },
        r is Err ==> *final(a) == *old(a) && r == Err::<(), SnapshotError>(SnapshotError::TooLarge) && exists|
            e: Seq<(Seq<u8>, u64)>,
        |
            #![trigger bincode_of_entries(e)]
            {
                &&& lists_exactly(e, old(a).index_map().remove(index_key@))
                &&& !(index_key@.len() <= u32::MAX && bincode_of_entries(e).len() <= u32::MAX && old(
                    a,
                ).log_seq().len() + HEADER_LEN + index_key@.len() + bincode_of_entries(e).len() <= usize::MAX)
            },
{
    let entries = a.index.entries_except(index_key);
    match serialize_entries(&entries) {
        Err(_) => vstd::pervasive::unreached(),
        Ok(blob) => {
            let r = a.store_snapshot(index_key, blob.as_slice());
            assert(lists_exactly(entries_view(entries@), old(a).index_map().remove(index_key@)));
            r
        },
    }
}

} // verus!
