//! Immutable table files and the store that holds them. A table file is the
//! sequence of encoded records a flush wrote, in file order; the physical
//! block layout below that sequence is the storage layer's business and out
//! of scope here. A record's position in the sequence is the offset that a
//! table address points at.

use vstd::prelude::*;
use crate::codec::record_decoding;
use crate::keys::lex_lt;

verus! {

/// One immutable, disk-resident table file: its encoded records in file order.
#[derive(Clone)]
pub struct TableFile {
    pub records: Vec<Vec<u8>>,
}

impl View for TableFile {
    type V = Seq<Seq<u8>>;

    open spec fn view(&self) -> Seq<Seq<u8>> {
        self.records@.map_values(|r: Vec<u8>| r@)
    }
}

/// All table files of one storage directory, ordered by generation: the file
/// at position `g` was written by the `g`-th flush.
#[derive(Clone)]
pub struct TableStore {
    pub tables: Vec<TableFile>,
}

impl View for TableStore {
    type V = Seq<Seq<Seq<u8>>>;

    open spec fn view(&self) -> Seq<Seq<Seq<u8>>> {
        self.tables@.map_values(|t: TableFile| t@)
    }
}

impl TableStore {
    /// A store with no table files yet.
    pub fn new() -> (r: TableStore)
        ensures
            r@ =~= Seq::<Seq<Seq<u8>>>::empty(),
    {
        TableStore { tables: Vec::new() }
    }
}

/// The key of the record at position `i` of table `t`, where it decodes.
pub open spec fn key_at(t: Seq<Seq<u8>>, i: int) -> Seq<u8> {
    record_decoding(t[i]).unwrap().0
}

/// The value of the record at position `i` of table `t`, where it decodes.
pub open spec fn value_at(t: Seq<Seq<u8>>, i: int) -> Seq<u8> {
    record_decoding(t[i]).unwrap().1
}

/// Whether every record of the table decodes.
pub open spec fn table_decodes(t: Seq<Seq<u8>>) -> bool {
    forall|i: int| 0 <= i < t.len() ==> (#[trigger] record_decoding(t[i])) is Some
}

/// Whether the table decodes throughout and its keys ascend strictly: the
/// invariant every table file written from a well-formed batch satisfies.
pub open spec fn table_sorted(t: Seq<Seq<u8>>) -> bool {
    table_decodes(t) && forall|i: int, j: int|
        0 <= i < j < t.len() ==> lex_lt(#[trigger] key_at(t, i), #[trigger] key_at(t, j))
}

/// Whether table `t` is the record-by-record encoding of `batch`.
pub open spec fn table_decodes_to(t: Seq<Seq<u8>>, batch: Seq<(Seq<u8>, Seq<u8>)>) -> bool {
    t.len() == batch.len() && forall|i: int|
        0 <= i < t.len() ==> #[trigger] record_decoding(t[i]) == Some(batch[i])
}

/// Whether some record of table `t` decodes to the key.
pub open spec fn table_contains(t: Seq<Seq<u8>>, key: Seq<u8>) -> bool {
    exists|i: int|
        0 <= i < t.len() && (#[trigger] record_decoding(t[i])) is Some && key_at(t, i) == key
}

/// The result of scanning table `t` forward from position `off` for `key`,
/// exactly as a point lookup does: a record that fails to decode, a record
/// with a greater key, and the end of the file all stop the scan as absence.
pub open spec fn scan_from(t: Seq<Seq<u8>>, key: Seq<u8>, off: int) -> Option<Seq<u8>>
    decreases t.len() - off,
{
    if off < 0 || off >= t.len() {
        None
    } else {
        match record_decoding(t[off]) {
            None => None,
            Some(kv) => if kv.0 == key {
                Some(kv.1)
            } else if lex_lt(kv.0, key) {
                scan_from(t, key, off + 1)
            } else {
                None
            },
        }
    }
}

/// In a table whose records decode and whose keys below position `i` are all
/// smaller than the key at `i`, a scan started at or before `i` reaches the
/// record at `i`.
pub proof fn lemma_scan_reaches(t: Seq<Seq<u8>>, from: int, i: int)
    requires
        0 <= from <= i < t.len(),
        forall|j: int| from <= j <= i ==> (#[trigger] record_decoding(t[j])) is Some,
        forall|j: int| from <= j < i ==> lex_lt(#[trigger] key_at(t, j), key_at(t, i)),
    ensures
        scan_from(t, key_at(t, i), from) == Some(value_at(t, i)),
    decreases i - from,
{
    if from < i {
        crate::keys::lemma_lex_irrefl(key_at(t, from));
        lemma_scan_reaches(t, from + 1, i);
    }
}

} // verus!
