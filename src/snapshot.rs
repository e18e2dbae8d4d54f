//! Persisting the index as an ordinary record under a reserved key, and
//! looking a key up through such a snapshot.

use vstd::prelude::*;

use crate::codec::{parse, RecordError};
use crate::index::{entries_view, slice_eq};
use crate::replay::lookup;
use crate::store::{looked_up, ActionKV};

verus! {

/// bincode's error, carried through unread.
#[verifier::external_type_specification]
#[verifier::external_body]
pub struct ExBincodeErrorKind(bincode::ErrorKind);

/// Why a snapshot could not be written or used.
#[derive(Debug, Clone, Copy, PartialEq, Eq, Structural)]
pub enum SnapshotError {
    /// A record could not be read.
    Record(RecordError),
    /// The store holds no snapshot under the reserved key.
    Missing,
    /// The snapshot's bytes are not a list of entries.
    Decode,
    /// The snapshot does not fit in one record or in the log.
    TooLarge,
}

/// The bytes `bincode::serialize` gives for a list of entries.
pub uninterp spec fn bincode_of_entries(e: Seq<(Seq<u8>, u64)>) -> Seq<u8>;

/// The entries `bincode::deserialize` reads from bytes, or `None` where it fails.
pub uninterp spec fn entries_of_bincode(b: Seq<u8>) -> Option<Seq<(Seq<u8>, u64)>>;

/// Relies on `bincode::serialize`: encodes the entries, and the bytes depend
/// on the entries alone. A sequence and a map of the same pairs encode alike.
/// With the default options (no size limit) and a `Vec` as the writer, a
/// sequence of byte strings and integers, whose length is known, always encodes.
#[verifier::external_body]
pub(crate) fn serialize_entries(entries: &Vec<(Vec<u8>, u64)>) -> (r: Result<Vec<u8>, Box<bincode::ErrorKind>>)
    ensures
        r is Ok,
        r matches Ok(b) ==> b@ == bincode_of_entries(entries_view(entries@)),
{
    bincode::serialize(entries)
}

/// Relies on `bincode::deserialize`: whether it succeeds, and what it reads,
/// depend on the bytes alone.
#[verifier::external_body]
fn deserialize_entries(bytes: &[u8]) -> (r: Result<Vec<(Vec<u8>, u64)>, Box<bincode::ErrorKind>>)
    ensures
        match r {
            Ok(e) => entries_of_bincode(bytes@) == Some(entries_view(e@)),
            Err(_) => entries_of_bincode(bytes@) is None,
        },
{
    bincode::deserialize(bytes)
}

/// The offset of the last entry of `key`, if any.
pub open spec fn last_offset(e: Seq<(Seq<u8>, u64)>, key: Seq<u8>) -> Option<u64>
    decreases e.len(),
{
    if e.len() == 0 {
        None
    } else if e.last().0 == key {
        Some(e.last().1)
    } else {
        last_offset(e.drop_last(), key)
    }
}

/// The value of the record at `off`, if there is an offset.
pub open spec fn value_at(log: Seq<u8>, off: Option<u64>) -> Result<Option<Seq<u8>>, RecordError> {
    match off {
        None => Ok(None),
        Some(p) => match parse(log, p as int) {
            Ok(kv) => Ok(Some(kv.1)),
            Err(e) => Err(e),
        },
    }
}

/// What a lookup of `key` through the snapshot stored under `index_key` gives.
pub open spec fn snapshot_lookup(log: Seq<u8>, idx: Map<Seq<u8>, u64>, index_key: Seq<u8>, key: Seq<u8>) -> Result<
    Option<Seq<u8>>,
    SnapshotError,
> {
    match lookup(log, idx, index_key) {
        Err(e) => Err(SnapshotError::Record(e)),
        Ok(None) => Err(SnapshotError::Missing),
        Ok(Some(blob)) => match entries_of_bincode(blob) {
            None => Err(SnapshotError::Decode),
            Some(es) => match value_at(log, last_offset(es, key)) {
                Ok(v) => Ok(v),
                Err(e) => Err(SnapshotError::Record(e)),
            },
        },
    }
}

/// What a snapshot lookup result says, as a value.
pub open spec fn snapshot_looked_up(r: Result<Option<Vec<u8>>, SnapshotError>) -> Result<Option<Seq<u8>>, SnapshotError> {
    match r {
        Ok(Some(v)) => Ok(Some(v@)),
        Ok(None) => Ok(None),
        Err(e) => Err(e),
    }
}

/// The offset of the last entry of `key` in `entries`, if any.
pub fn last_offset_of(entries: &Vec<(Vec<u8>, u64)>, key: &[u8]) -> (r: Option<u64>)
    ensures
        r == last_offset(entries_view(entries@), key@),
{
    let ghost e = entries_view(entries@);
    let mut i: usize = entries.len();
    assert(e.subrange(0, i as int) =~= e);
    while i > 0
        invariant
            i <= entries@.len(),
            e == entries_view(entries@),
            last_offset(e, key@) == last_offset(e.subrange(0, i as int), key@),
        decreases i,
    {
        let ghost pre = e.subrange(0, i as int);
        assert(pre.drop_last() =~= e.subrange(0, i - 1));
        i = i - 1;
        if slice_eq(entries[i].0.as_slice(), key) {
            return Some(entries[i].1);
        }
    }
    assert(e.subrange(0, 0) =~= Seq::<(Seq<u8>, u64)>::empty());
    None
}

impl ActionKV {
    /// The value of `key` at the offset that `entries` gives it last.
    pub fn get_with_entries(&self, entries: &Vec<(Vec<u8>, u64)>, key: &[u8]) -> (r: Result<
        Option<Vec<u8>>,
        RecordError,
    >)
        ensures
            looked_up(r) == value_at(self.log_seq(), last_offset(entries_view(entries@), key@)),
    {
        match last_offset_of(entries, key) {
            None => Ok(None),
            Some(position) => match self.get_at(position) {
                Ok(kv) => Ok(Some(kv.value)),
                Err(e) => Err(e),
            },
        }
    }

    /// Looks `key` up through the snapshot stored under `index_key`: reads
    /// that record, decodes the entries it holds, and reads the record at the
    /// offset they give `key`.
    pub fn get_via_snapshot(&self, index_key: &[u8], key: &[u8]) -> (r: Result<Option<Vec<u8>>, SnapshotError>)
        requires
            self.index_wf(),
        ensures
            snapshot_looked_up(r) == snapshot_lookup(self.log_seq(), self.index_map(), index_key@, key@),
    {
        let blob = match self.get(index_key) {
            Ok(Some(b)) => b,
            Ok(None) => {
                return Err(SnapshotError::Missing);
            },
            Err(e) => {
                return Err(SnapshotError::Record(e));
            },
        };
        let entries = match deserialize_entries(blob.as_slice()) {
            Ok(e) => e,
            Err(_) => {
                return Err(SnapshotError::Decode);
            },
        };
        match self.get_with_entries(&entries, key) {
            Ok(v) => Ok(v),
            Err(e) => Err(SnapshotError::Record(e)),
        }
    }
}

} // verus!
