//! The persistence orchestrator: bootstraps the sparse index from the table
//! files, serves point lookups by floor-then-scan, records writes and
//! tombstones in the write-ahead log, and materializes flushed batches as
//! new immutable table files.

use vstd::prelude::*;
use crate::codec::{record_decoding, record_encoding, encode_record, decode_record};
use crate::table::{TableFile, TableStore, scan_from, table_decodes_to};
use crate::index::{SparseIndex, TableAddress, IndexEntry, updated, floor_entry};
use crate::keys::{KeyOrdering, compare_keys, lemma_lex_asym};

verus! {

/// Engine configuration: the table-file block size (owned by the storage
/// layer below this core) and the sparse-index sampling rate. Every Nth
/// record of a table file is indexed, where N is the rate; the rate must be
/// at least 1, and a rate of 1 indexes every record.
#[derive(Clone, Copy, PartialEq, Eq, Structural, Debug)]
pub struct DharmaOpts {
    pub block_size_in_bytes: usize,
    pub sparse_index_sampling_rate: usize,
}

/// The error kinds this core reports. Each failure is surfaced once,
/// synchronously, to the immediate caller; none is retried internally.
#[allow(non_camel_case_types)]
#[derive(Clone, Copy, PartialEq, Eq, Structural, Debug)]
pub enum Errors {
    DB_LOG_INITIALIZATION_FAILED,
    DB_INDEX_INITIALIZATION_FAILED,
    DB_INDEX_UPDATE_FAILED,
    DB_WRITE_FAILED,
    SSTABLE_CREATION_FAILED,
    SSTABLE_READ_FAILED,
}

/// The write-ahead log: the ordered record of writes not yet flushed into a
/// table file. An entry pairs a key with `Some` value for an insert and with
/// `None` for a tombstone. The durable file behind the log is the storage
/// layer's business; this core owns the log's contents and lifecycle.
pub struct WriteAheadLog {
    pub entries: Vec<(Vec<u8>, Option<Vec<u8>>)>,
}

impl View for WriteAheadLog {
    type V = Seq<(Seq<u8>, Option<Seq<u8>>)>;

    open spec fn view(&self) -> Seq<(Seq<u8>, Option<Seq<u8>>)> {
        self.entries@.map_values(
            |p: (Vec<u8>, Option<Vec<u8>>)|
                (
                    p.0@,
                    match p.1 {
                        Some(v) => Some(v@),
                        None => None,
                    },
                ),
        )
    }
}

impl WriteAheadLog {
    /// A fresh, empty log.
    pub fn new() -> (r: WriteAheadLog)
        ensures
            r@ =~= Seq::<(Seq<u8>, Option<Seq<u8>>)>::empty(),
    {
        WriteAheadLog { entries: Vec::new() }
    }

    /// Appends one write durably at the end of the log.
    pub fn append(&mut self, key: Vec<u8>, value: Vec<u8>) -> (r: Result<(), Errors>)
        ensures
            r is Ok,
            final(self)@ == old(self)@.push((key@, Some(value@))),
    {
        self.entries.push((key, Some(value)));
        proof {
            assert(self@ =~= old(self)@.push((self.entries@.last().0@, Some(
                self.entries@.last().1.unwrap()@,
            ))));
        }
        Ok(())
    }

    /// Appends one tombstone durably at the end of the log.
    pub fn append_tombstone(&mut self, key: Vec<u8>) -> (r: Result<(), Errors>)
        ensures
            r is Ok,
            final(self)@ == old(self)@.push((key@, None::<Seq<u8>>)),
    {
        self.entries.push((key, None));
        proof {
            assert(self@ =~= old(self)@.push((self.entries@.last().0@, None::<Seq<u8>>)));
        }
        Ok(())
    }
}

/// The index entries after registering the sampled records among positions
/// `[0, end)` of table `table_id`: position `p` is sampled when `p` is a
/// multiple of the rate, and a sampled record that decodes overwrites the
/// entry its key had before.
pub open spec fn populate_prefix(
    e: Seq<IndexEntry>,
    table_id: usize,
    t: Seq<Seq<u8>>,
    rate: int,
    end: int,
) -> Seq<IndexEntry>
    decreases end,
{
    if end <= 0 {
        e
    } else {
        let prev = populate_prefix(e, table_id, t, rate, end - 1);
        if (end - 1) % rate == 0 {
            match record_decoding(t[end - 1]) {
                Some(kv) => updated(
                    prev,
                    kv.0,
                    (TableAddress { table: table_id, offset: (end - 1) as usize }),
                ),
                None => prev,
            }
        } else {
            prev
        }
    }
}

/// Whether every sampled record of the table decodes: exactly then does an
/// index scan of the table succeed.
pub open spec fn table_scan_ok(t: Seq<Seq<u8>>, rate: int) -> bool {
    forall|i: int|
        0 <= i < t.len() && i % rate == 0 ==> (#[trigger] record_decoding(t[i])) is Some
}

/// Whether every table file of the store scans cleanly.
pub open spec fn store_scan_ok(tables: Seq<Seq<Seq<u8>>>, rate: int) -> bool {
    forall|t: int| 0 <= t < tables.len() ==> table_scan_ok(#[trigger] tables[t], rate)
}

/// The index that bootstrap builds from the first `upto` table files, in
/// discovery order: a later file overwrites entries for keys it samples.
pub open spec fn bootstrap_entries(tables: Seq<Seq<Seq<u8>>>, rate: int, upto: int) -> Seq<
    IndexEntry,
>
    decreases upto,
{
    if upto <= 0 {
        Seq::empty()
    } else {
        populate_prefix(
            bootstrap_entries(tables, rate, upto - 1),
            (upto - 1) as usize,
            tables[upto - 1],
            rate,
            tables[upto - 1].len() as int,
        )
    }
}

/// The index that bootstrap builds from all table files of the store.
pub open spec fn bootstrap_index(tables: Seq<Seq<Seq<u8>>>, rate: int) -> Seq<IndexEntry> {
    bootstrap_entries(tables, rate, tables.len() as int)
}

/// What a point lookup returns on the given index entries and table files:
/// the floor entry names one table file and an offset, and a bounded forward
/// scan of that single file decides. A floor miss, an address past the
/// store, and a scan that stops are all absence.
pub open spec fn lookup_spec(
    e: Seq<IndexEntry>,
    tables: Seq<Seq<Seq<u8>>>,
    key: Seq<u8>,
) -> Option<Seq<u8>> {
    match floor_entry(e, key) {
        None => None,
        Some(ent) => if (ent.1.table as int) < tables.len() {
            scan_from(tables[ent.1.table as int], key, ent.1.offset as int)
        } else {
            None
        },
    }
}

/// The view of an optional owned value.
pub open spec fn value_view(v: Option<Vec<u8>>) -> Option<Seq<u8>> {
    match v {
        Some(x) => Some(x@),
        None => None,
    }
}

/// The view of a batch of key-value pairs.
pub open spec fn batch_view(vs: Seq<(Vec<u8>, Vec<u8>)>) -> Seq<(Seq<u8>, Seq<u8>)> {
    vs.map_values(|p: (Vec<u8>, Vec<u8>)| (p.0@, p.1@))
}

/// The table file a flush writes for a batch: the records' encodings in
/// batch order.
pub open spec fn encoded_table(batch: Seq<(Seq<u8>, Seq<u8>)>) -> Seq<Seq<u8>> {
    batch.map_values(|p: (Seq<u8>, Seq<u8>)| record_encoding(p.0, p.1))
}

/// Encapsulates all functionality that involves reading and writing the
/// storage state: the single mutable sparse index and write-ahead log, and
/// the immutable table files, owned for the engine's lifetime.
pub struct Persistence {
    pub options: DharmaOpts,
    pub index: SparseIndex,
    pub log: WriteAheadLog,
    pub store: TableStore,
}

impl Persistence {
    /// Bootstrap: opens a fresh write-ahead log, then replays every table
    /// file of the store in discovery order to populate a fresh sparse
    /// index. A table file whose sampled records do not all decode aborts
    /// the whole bootstrap; a partial index is never returned.
    pub fn create(options: DharmaOpts, store: TableStore) -> (r: Result<Persistence, Errors>)
        requires
            options.sparse_index_sampling_rate >= 1,
        ensures
            match r {
                Ok(p) => store_scan_ok(store@, options.sparse_index_sampling_rate as int)
                    && p.options == options && p.store == store && p.log@ == Seq::<
                    (Seq<u8>, Option<Seq<u8>>),
                >::empty() && p.index@ == bootstrap_index(
                    store@,
                    options.sparse_index_sampling_rate as int,
                ),
                Err(e) => e == Errors::DB_INDEX_INITIALIZATION_FAILED && !store_scan_ok(
                    store@,
                    options.sparse_index_sampling_rate as int,
                ),
            },
    {
        let log = WriteAheadLog::new();
        let mut index = SparseIndex::new();
        let mut t: usize = 0;
        while t < store.tables.len()
            invariant
                options.sparse_index_sampling_rate >= 1,
                0 <= t <= store.tables.len(),
                index@ == bootstrap_entries(
                    store@,
                    options.sparse_index_sampling_rate as int,
                    t as int,
                ),
                forall|j: int|
                    0 <= j < t ==> table_scan_ok(
                        #[trigger] store@[j],
                        options.sparse_index_sampling_rate as int,
                    ),
            decreases store.tables.len() - t,
        {
            let load_result = Persistence::populate_index_from_table(
                &options,
                &store.tables[t],
                t,
                &mut index,
            );
            proof {
                assert(store@[t as int] == store.tables@[t as int]@);
            }
            if load_result.is_err() {
                return Err(Errors::DB_INDEX_INITIALIZATION_FAILED);
            }
            t = t + 1;
        }
        Ok(Persistence { log, options, index, store })
    }

    /// Point lookup: asks the index for the nearest sampled address at or
    /// below the key, then scans that single table file forward from the
    /// address. The write-ahead log is not consulted. An address past the
    /// store and a record that fails to decode end the lookup as absence
    /// (index/table desynchronization is tolerated, not propagated).
    pub fn get(&mut self, key: &Vec<u8>) -> (r: Result<Option<Vec<u8>>, Errors>)
        ensures
            *final(self) == *old(self),
            r matches Ok(v) && value_view(v) == lookup_spec(
                old(self).index@,
                old(self).store@,
                key@,
            ),
    {
        let maybe_address = self.index.get_nearest_address(key);
        if let Some(address) = maybe_address {
            if address.table < self.store.tables.len() {
                let table = &self.store.tables[address.table];
                proof {
                    assert(table@ == old(self).store@[address.table as int]);
                }
                let mut pos: usize = address.offset;
                while pos < table.records.len()
                    invariant
                        (address.table as int) < old(self).store@.len(),
                        table@ == old(self).store@[address.table as int],
                        lookup_spec(old(self).index@, old(self).store@, key@) == scan_from(
                            table@,
                            key@,
                            pos as int,
                        ),
                    decreases table.records.len() - pos,
                {
                    proof {
                        assert(table@[pos as int] == table.records@[pos as int]@);
                    }
                    match decode_record(&table.records[pos]) {
                        None => {
                            return Ok(None);
                        },
                        Some(record) => {
                            match compare_keys(&record.0, key) {
                                KeyOrdering::Less => {
                                    pos = pos + 1;
                                },
                                KeyOrdering::Equal => {
                                    return Ok(Some(record.1));
                                },
                                KeyOrdering::Greater => {
                                    proof {
                                        lemma_lex_asym(key@, record.0@);
                                    }
                                    return Ok(None);
                                },
                            }
                        },
                    }
                }
                Ok(None)
            } else {
                Ok(None)
            }
        } else {
            Ok(None)
        }
    }

    /// Write: appends the pair durably to the write-ahead log. No table file
    /// and no index entry is touched either way.
    pub fn insert(&mut self, key: Vec<u8>, value: Vec<u8>) -> (r: Result<(), Errors>)
        ensures
            r is Ok,
            final(self).log@ == old(self).log@.push((key@, Some(value@))),
            final(self).index == old(self).index,
            final(self).store == old(self).store,
            final(self).options == old(self).options,
    {
        let log_write_result = self.log.append(key, value);
        if log_write_result.is_ok() {
            return Ok(());
        }
        Err(Errors::DB_WRITE_FAILED)
    }

    /// Flush: materializes the batch as the next table file generation (the
    /// count of existing files names it), then registers its sampled records
    /// in the live index, overwriting prior mappings for the same keys. The
    /// caller is responsible for pre-sorting the batch; the batch is written
    /// in the order given. The write-ahead log is left as it stands: this
    /// design never truncates it, a known gap.
    pub fn flush(&mut self, values: &Vec<(Vec<u8>, Vec<u8>)>) -> (r: Result<(), Errors>)
        requires
            old(self).options.sparse_index_sampling_rate >= 1,
        ensures
            r is Ok,
            final(self).options == old(self).options,
            final(self).log == old(self).log,
            final(self).store@ == old(self).store@.push(encoded_table(batch_view(values@))),
            table_decodes_to(final(self).store@.last(), batch_view(values@)),
            final(self).index@ == populate_prefix(
                old(self).index@,
                old(self).store@.len() as usize,
                encoded_table(batch_view(values@)),
                old(self).options.sparse_index_sampling_rate as int,
                values@.len() as int,
            ),
    {
        let generation = self.store.tables.len();
        let mut records: Vec<Vec<u8>> = Vec::new();
        let mut i: usize = 0;
        while i < values.len()
            invariant
                records@.len() == i,
                0 <= i <= values@.len(),
                forall|j: int|
                    0 <= j < i ==> (#[trigger] records@[j])@ == record_encoding(
                        values@[j].0@,
                        values@[j].1@,
                    ),
                forall|j: int|
                    0 <= j < i ==> record_decoding((#[trigger] records@[j])@) == Some(
                        (values@[j].0@, values@[j].1@),
                    ),
            decreases values@.len() - i,
        {
            let pair = &values[i];
            let bytes = encode_record(&pair.0, &pair.1);
            records.push(bytes);
            i = i + 1;
        }
        let new_table = TableFile { records };
        proof {
            assert(new_table@ =~= encoded_table(batch_view(values@)));
            assert(table_scan_ok(new_table@, self.options.sparse_index_sampling_rate as int));
        }
        self.store.tables.push(new_table);
        proof {
            assert(self.store@ =~= old(self).store@.push(encoded_table(batch_view(values@))));
        }
        let index_update_result = Persistence::populate_index_from_table(
            &self.options,
            &self.store.tables[generation],
            generation,
            &mut self.index,
        );
        proof {
            assert(self.store.tables@[generation as int]@ == encoded_table(batch_view(values@)));
        }
        if index_update_result.is_err() {
            return Err(Errors::DB_INDEX_UPDATE_FAILED);
        }
        Ok(())
    }

    /// Delete: records a tombstone for the key durably in the write-ahead
    /// log, so the pending-write stream marks the key as logically deleted.
    /// Carrying tombstones into table files is the business of the caller
    /// that assembles flush batches from the log. No table file and no index
    /// entry is touched.
    pub fn delete(&mut self, key: &Vec<u8>) -> (r: Result<(), Errors>)
        ensures
            r is Ok,
            final(self).log@ == old(self).log@.push((key@, None::<Seq<u8>>)),
            final(self).index == old(self).index,
            final(self).store == old(self).store,
            final(self).options == old(self).options,
    {
        let owned_key = vstd::slice::slice_to_vec(key.as_slice());
        let log_write_result = self.log.append_tombstone(owned_key);
        if log_write_result.is_ok() {
            return Ok(());
        }
        Err(Errors::DB_WRITE_FAILED)
    }

    /// Scans one table file front to back and registers every sampled record
    /// in the index. A sampled record that fails to decode stops the scan
    /// with a read failure; the records between sample points are not
    /// decoded.
    fn populate_index_from_table(
        options: &DharmaOpts,
        table: &TableFile,
        table_id: usize,
        index: &mut SparseIndex,
    ) -> (r: Result<(), Errors>)
        requires
            options.sparse_index_sampling_rate >= 1,
        ensures
            r is Ok <==> table_scan_ok(table@, options.sparse_index_sampling_rate as int),
            r is Ok ==> final(index)@ == populate_prefix(
                old(index)@,
                table_id,
                table@,
                options.sparse_index_sampling_rate as int,
                table@.len() as int,
            ),
    {
        let rate = options.sparse_index_sampling_rate;
        let mut counter: usize = 0;
        while counter < table.records.len()
            invariant
                rate == options.sparse_index_sampling_rate,
                rate >= 1,
                0 <= counter <= table.records.len(),
                index@ == populate_prefix(
                    old(index)@,
                    table_id,
                    table@,
                    rate as int,
                    counter as int,
                ),
                forall|j: int|
                    0 <= j < counter && j % (rate as int) == 0 ==> (#[trigger] record_decoding(
                        table@[j],
                    )) is Some,
            decreases table.records.len() - counter,
        {
            proof {
                assert(table@[counter as int] == table.records@[counter as int]@);
            }
            if counter % rate == 0 {
                match decode_record(&table.records[counter]) {
                    Some(record) => {
                        let address = TableAddress::new(table_id, counter);
                        index.update(record.0, address);
                    },
                    None => {
                        return Err(Errors::SSTABLE_READ_FAILED);
                    },
                }
            }
            counter = counter + 1;
        }
        Ok(())
    }
}

} // verus!
