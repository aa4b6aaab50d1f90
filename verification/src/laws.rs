//! The laws of the storage core, proved once and for all: what flush writes
//! is sorted, lookups never read the log, a dense index finds every stored
//! key, the floor-then-scan lookup is correct within one table file, a flush
//! makes its sampled records discoverable, and reopening the engine rebuilds
//! exactly the live index.

use vstd::prelude::*;
use crate::keys::{lex_lt, lex_le, lemma_lex_irrefl, lemma_lex_asym};
use crate::codec::record_decoding;
use crate::table::{
    table_sorted,
    table_decodes_to,
    table_contains,
    key_at,
    value_at,
    lemma_scan_reaches,
};
use crate::index::{
    IndexEntry,
    TableAddress,
    index_sorted,
    updated,
    lemma_updated_props,
    lemma_floor_at,
};
use crate::persistence::{
    populate_prefix,
    bootstrap_entries,
    bootstrap_index,
    lookup_spec,
    Persistence,
};
use vstd::arithmetic::div_mod::{
    lemma_fundamental_div_mod,
    lemma_mod_multiples_basic,
    lemma_mod_bound,
    lemma_div_is_ordered,
};
use vstd::arithmetic::mul::lemma_mul_inequality;

verus! {

/// Sorted invariant: a table file written from a batch whose keys ascend
/// strictly is itself strictly ascending under decoding.
pub proof fn lemma_flush_table_sorted(t: Seq<Seq<u8>>, batch: Seq<(Seq<u8>, Seq<u8>)>)
    requires
        table_decodes_to(t, batch),
        forall|i: int, j: int|
            0 <= i < j < batch.len() ==> lex_lt((#[trigger] batch[i]).0, (#[trigger] batch[j]).0),
    ensures
        table_sorted(t),
{
    assert forall|i: int, j: int| 0 <= i < j < t.len() implies lex_lt(
        #[trigger] key_at(t, i),
        #[trigger] key_at(t, j),
    ) by {
        assert(record_decoding(t[i]) == Some(batch[i]));
        assert(record_decoding(t[j]) == Some(batch[j]));
    }
}

/// A point lookup reads only the index entries and the table files: two
/// engine states that agree on them return the same result for every key,
/// whatever their write-ahead logs hold. In particular an insert or a
/// delete, which only appends to the log, changes no lookup result.
pub proof fn lemma_lookup_ignores_log(a: Persistence, b: Persistence, key: Seq<u8>)
    requires
        a.index@ == b.index@,
        a.store@ == b.store@,
    ensures
        lookup_spec(a.index@, a.store@, key) == lookup_spec(b.index@, b.store@, key),
{
}

/// Two stores that agree on their first `upto` table files bootstrap the
/// same index entries from them.
proof fn lemma_bootstrap_prefix(
    a: Seq<Seq<Seq<u8>>>,
    b: Seq<Seq<Seq<u8>>>,
    rate: int,
    upto: int,
)
    requires
        0 <= upto <= a.len(),
        upto <= b.len(),
        forall|k: int| 0 <= k < upto ==> a[k] == b[k],
    ensures
        bootstrap_entries(a, rate, upto) == bootstrap_entries(b, rate, upto),
    decreases upto,
{
    if upto > 0 {
        lemma_bootstrap_prefix(a, b, rate, upto - 1);
    }
}

/// Bootstrap equivalence: rebuilding the index over the store as it stands
/// after one more flushed table file yields exactly the index the live
/// engine holds after that flush, so a reopened engine answers every lookup
/// as the engine answered before closing.
pub proof fn lemma_bootstrap_after_flush(tables: Seq<Seq<Seq<u8>>>, t: Seq<Seq<u8>>, rate: int)
    requires
        tables.len() < usize::MAX,
    ensures
        bootstrap_index(tables.push(t), rate) == populate_prefix(
            bootstrap_index(tables, rate),
            tables.len() as usize,
            t,
            rate,
            t.len() as int,
        ),
{
    let tables2 = tables.push(t);
    lemma_bootstrap_prefix(tables2, tables, rate, tables.len() as int);
    assert(tables2[tables.len() as int] == t);
}

/// Registering one table file's sampled records keeps the index sorted,
/// registers every sampled record under its key at its own position, leaves
/// entries for keys the table does not sample in place, and adds nothing
/// else.
pub proof fn lemma_populate_registers(
    e: Seq<IndexEntry>,
    table_id: usize,
    t: Seq<Seq<u8>>,
    rate: int,
    end: int,
)
    requires
        rate >= 1,
        0 <= end <= t.len(),
        t.len() <= usize::MAX,
        table_sorted(t),
        index_sorted(e),
    ensures
        index_sorted(populate_prefix(e, table_id, t, rate, end)),
        forall|i: int|
            0 <= i < end && i % rate == 0 ==> populate_prefix(e, table_id, t, rate, end).contains(
                ((#[trigger] key_at(t, i)), (TableAddress { table: table_id, offset: i as usize })),
            ),
        forall|j: int|
            0 <= j < e.len() && !(exists|i: int|
                0 <= i < end && i % rate == 0 && #[trigger] key_at(t, i) == e[j].0)
                ==> populate_prefix(e, table_id, t, rate, end).contains(#[trigger] e[j]),
        forall|j: int|
            0 <= j < populate_prefix(e, table_id, t, rate, end).len() ==> e.contains(
                #[trigger] populate_prefix(e, table_id, t, rate, end)[j],
            ) || (exists|i: int|
                0 <= i < end && i % rate == 0 && populate_prefix(e, table_id, t, rate, end)[j] == (
                    key_at(t, i),
                    (TableAddress { table: table_id, offset: i as usize }),
                )),
    decreases end,
{
    if end > 0 {
        lemma_populate_registers(e, table_id, t, rate, end - 1);
        let prev = populate_prefix(e, table_id, t, rate, end - 1);
        let e2 = populate_prefix(e, table_id, t, rate, end);
        let pos = end - 1;
        if pos % rate == 0 {
            assert(record_decoding(t[pos]) is Some);
            let kv = record_decoding(t[pos]).unwrap();
            let addr = TableAddress { table: table_id, offset: pos as usize };
            assert(e2 == updated(prev, kv.0, addr));
            lemma_updated_props(prev, kv.0, addr);
            assert(kv.0 == key_at(t, pos));
            assert forall|i: int| 0 <= i < end && i % rate == 0 implies e2.contains(
                ((#[trigger] key_at(t, i)), (TableAddress { table: table_id, offset: i as usize })),
            ) by {
                if i == pos {
                    assert(e2.contains((kv.0, addr)));
                } else {
                    let entry = (key_at(t, i), (TableAddress { table: table_id, offset: i as usize }));
                    assert(prev.contains(entry));
                    let m = choose|m: int| 0 <= m < prev.len() && prev[m] == entry;
                    assert(lex_lt(key_at(t, i), key_at(t, pos)));
                    lemma_lex_irrefl(key_at(t, pos));
                    assert(prev[m].0 != kv.0);
                    assert(e2.contains(prev[m]));
                }
            }
            assert forall|j: int|
                0 <= j < e.len() && !(exists|i: int|
                    0 <= i < end && i % rate == 0 && #[trigger] key_at(t, i) == e[j].0) implies e2
                .contains(e[j]) by {
                assert(!(exists|i: int|
                    0 <= i < end - 1 && i % rate == 0 && #[trigger] key_at(t, i) == e[j].0));
                assert(prev.contains(e[j]));
                let m = choose|m: int| 0 <= m < prev.len() && prev[m] == e[j];
                assert(key_at(t, pos) != e[j].0);
                assert(prev[m].0 != kv.0);
                assert(e2.contains(prev[m]));
            }
            assert forall|j: int| 0 <= j < e2.len() implies e.contains(#[trigger] e2[j]) || (
            exists|i: int|
                0 <= i < end && i % rate == 0 && e2[j] == (
                    key_at(t, i),
                    (TableAddress { table: table_id, offset: i as usize }),
                )) by {
                if e2[j] == (kv.0, addr) {
                    assert(0 <= pos < end && pos % rate == 0 && e2[j] == (
                        key_at(t, pos),
                        (TableAddress { table: table_id, offset: pos as usize }),
                    ));
                } else {
                    assert(prev.contains(e2[j]));
                    let m = choose|m: int| 0 <= m < prev.len() && prev[m] == e2[j];
                    assert(e.contains(prev[m]) || (exists|i: int|
                        0 <= i < end - 1 && i % rate == 0 && prev[m] == (
                            key_at(t, i),
                            (TableAddress { table: table_id, offset: i as usize }),
                        )));
                }
            }
        } else {
            assert(e2 == prev);
            assert forall|i: int| 0 <= i < end && i % rate == 0 implies e2.contains(
                ((#[trigger] key_at(t, i)), (TableAddress { table: table_id, offset: i as usize })),
            ) by {
                assert(i != pos);
            }
            assert forall|j: int|
                0 <= j < e.len() && !(exists|i: int|
                    0 <= i < end && i % rate == 0 && #[trigger] key_at(t, i) == e[j].0) implies e2
                .contains(e[j]) by {
                assert(!(exists|i: int|
                    0 <= i < end - 1 && i % rate == 0 && #[trigger] key_at(t, i) == e[j].0));
            }
        }
    }
}

/// The index the bootstrap builds is sorted at every stage.
proof fn lemma_bootstrap_sorted(tables: Seq<Seq<Seq<u8>>>, rate: int, upto: int)
    requires
        rate >= 1,
        0 <= upto <= tables.len(),
        forall|k: int|
            0 <= k < tables.len() ==> table_sorted(#[trigger] tables[k]) && tables[k].len()
                <= usize::MAX,
    ensures
        index_sorted(bootstrap_entries(tables, rate, upto)),
    decreases upto,
{
    if upto > 0 {
        lemma_bootstrap_sorted(tables, rate, upto - 1);
        lemma_populate_registers(
            bootstrap_entries(tables, rate, upto - 1),
            (upto - 1) as usize,
            tables[upto - 1],
            rate,
            tables[upto - 1].len() as int,
        );
    }
}

/// The bootstrap registers a sampled record of table `tid` at its own
/// position, provided no later table file holds its key.
proof fn lemma_bootstrap_contains(
    tables: Seq<Seq<Seq<u8>>>,
    rate: int,
    tid: int,
    pos: int,
    upto: int,
)
    requires
        rate >= 1,
        tables.len() <= usize::MAX,
        forall|k: int|
            0 <= k < tables.len() ==> table_sorted(#[trigger] tables[k]) && tables[k].len()
                <= usize::MAX,
        0 <= tid < upto <= tables.len(),
        0 <= pos < tables[tid].len(),
        pos % rate == 0,
        forall|k: int|
            tid < k < upto ==> !table_contains(#[trigger] tables[k], key_at(tables[tid], pos)),
    ensures
        bootstrap_entries(tables, rate, upto).contains(
            (
                key_at(tables[tid], pos),
                (TableAddress { table: tid as usize, offset: pos as usize }),
            ),
        ),
    decreases upto,
{
    let key = key_at(tables[tid], pos);
    let addr = TableAddress { table: tid as usize, offset: pos as usize };
    lemma_bootstrap_sorted(tables, rate, upto - 1);
    if upto - 1 == tid {
        lemma_populate_registers(
            bootstrap_entries(tables, rate, tid),
            tid as usize,
            tables[tid],
            rate,
            tables[tid].len() as int,
        );
    } else {
        lemma_bootstrap_contains(tables, rate, tid, pos, upto - 1);
        let prev = bootstrap_entries(tables, rate, upto - 1);
        let tk = tables[upto - 1];
        lemma_populate_registers(prev, (upto - 1) as usize, tk, rate, tk.len() as int);
        let m = choose|m: int| 0 <= m < prev.len() && prev[m] == (key, addr);
        assert(prev[m].0 == key);
        if exists|i: int| 0 <= i < tk.len() && i % rate == 0 && #[trigger] key_at(tk, i) == key {
            let i = choose|i: int|
                0 <= i < tk.len() && i % rate == 0 && #[trigger] key_at(tk, i) == key;
            assert(record_decoding(tk[i]) is Some);
            assert(table_contains(tk, key));
            assert(false);
        }
        assert(bootstrap_entries(tables, rate, upto).contains(prev[m]));
    }
}

/// Sampling correctness: with sampling rate 1 the bootstrap indexes every
/// record, and a lookup for a stored key whose newest occurrence sits in
/// table `tid` at position `pos` returns exactly that occurrence's value.
pub proof fn lemma_dense_bootstrap_finds_newest(tables: Seq<Seq<Seq<u8>>>, tid: int, pos: int)
    requires
        tables.len() <= usize::MAX,
        forall|k: int|
            0 <= k < tables.len() ==> table_sorted(#[trigger] tables[k]) && tables[k].len()
                <= usize::MAX,
        0 <= tid < tables.len(),
        0 <= pos < tables[tid].len(),
        forall|k: int|
            tid < k < tables.len() ==> !table_contains(
                #[trigger] tables[k],
                key_at(tables[tid], pos),
            ),
    ensures
        lookup_spec(bootstrap_index(tables, 1), tables, key_at(tables[tid], pos)) == Some(
            value_at(tables[tid], pos),
        ),
{
    let key = key_at(tables[tid], pos);
    let addr = TableAddress { table: tid as usize, offset: pos as usize };
    let e = bootstrap_index(tables, 1);
    assert(pos % 1 == 0);
    lemma_bootstrap_sorted(tables, 1, tables.len() as int);
    lemma_bootstrap_contains(tables, 1, tid, pos, tables.len() as int);
    let j = choose|j: int| 0 <= j < e.len() && e[j] == (key, addr);
    assert(lex_le(e[j].0, key));
    lemma_floor_at(e, key, j);
    lemma_scan_reaches(tables[tid], pos, pos);
}

/// Flush discoverability: after registering a sorted table file's sampled
/// records, a lookup for the key of any sampled record of that file returns
/// its value — whatever the index held before, the overwritten entry for
/// that key now points at the new file.
pub proof fn lemma_flush_finds_sampled(
    e: Seq<IndexEntry>,
    tables: Seq<Seq<Seq<u8>>>,
    t: Seq<Seq<u8>>,
    rate: int,
    i: int,
)
    requires
        rate >= 1,
        index_sorted(e),
        table_sorted(t),
        t.len() <= usize::MAX,
        tables.len() <= usize::MAX,
        0 <= i < t.len(),
        i % rate == 0,
    ensures
        lookup_spec(
            populate_prefix(e, tables.len() as usize, t, rate, t.len() as int),
            tables.push(t),
            key_at(t, i),
        ) == Some(value_at(t, i)),
{
    let tid = tables.len() as usize;
    let e2 = populate_prefix(e, tid, t, rate, t.len() as int);
    lemma_populate_registers(e, tid, t, rate, t.len() as int);
    let key = key_at(t, i);
    let addr = TableAddress { table: tid, offset: i as usize };
    assert(e2.contains((key, addr)));
    let j = choose|j: int| 0 <= j < e2.len() && e2[j] == (key, addr);
    assert(lex_le(e2[j].0, key));
    lemma_floor_at(e2, key, j);
    assert(tables.push(t)[tid as int] == t);
    lemma_scan_reaches(t, i, i);
}

/// Floor-then-scan correctness: over a single sorted table file, a lookup
/// for the key stored at any position succeeds whatever the sampling rate —
/// the floor lands on the nearest sampled position at or below it, and the
/// forward scan walks the rest.
pub proof fn lemma_single_table_lookup(t: Seq<Seq<u8>>, rate: int, i: int)
    requires
        rate >= 1,
        table_sorted(t),
        t.len() <= usize::MAX,
        0 <= i < t.len(),
    ensures
        lookup_spec(bootstrap_index(seq![t], rate), seq![t], key_at(t, i)) == Some(
            value_at(t, i),
        ),
{
    let tables = seq![t];
    assert(tables[0] == t);
    let e0 = Seq::<IndexEntry>::empty();
    let e2 = populate_prefix(e0, 0usize, t, rate, t.len() as int);
    assert(bootstrap_entries(tables, rate, 0) == e0);
    assert(bootstrap_index(tables, rate) == e2);
    lemma_populate_registers(e0, 0usize, t, rate, t.len() as int);
    let key = key_at(t, i);
    let s0 = i - (i % rate);
    lemma_mod_bound(i, rate);
    lemma_fundamental_div_mod(i, rate);
    assert(s0 == rate * (i / rate));
    lemma_mod_multiples_basic(i / rate, rate);
    assert(s0 % rate == 0);
    assert(0 <= s0 <= i);
    let anchor = key_at(t, s0);
    let addr = TableAddress { table: 0usize, offset: s0 as usize };
    assert(e2.contains((anchor, addr)));
    let j = choose|j: int| 0 <= j < e2.len() && e2[j] == (anchor, addr);
    assert(lex_le(e2[j].0, key)) by {
        if s0 < i {
            assert(lex_lt(key_at(t, s0), key_at(t, i)));
        }
    }
    assert forall|m: int| 0 <= m < e2.len() && lex_le((#[trigger] e2[m]).0, key) implies lex_le(
        e2[m].0,
        e2[j].0,
    ) by {
        assert(e0.len() == 0);
        let ip = choose|ip: int|
            0 <= ip < t.len() && ip % rate == 0 && e2[m] == (
                key_at(t, ip),
                (TableAddress { table: 0usize, offset: ip as usize }),
            );
        assert(e2[m].0 == key_at(t, ip));
        if ip > i {
            assert(lex_lt(key_at(t, i), key_at(t, ip)));
            lemma_lex_asym(key_at(t, i), key_at(t, ip));
            lemma_lex_irrefl(key_at(t, ip));
            assert(false);
        } else {
            // a sampled position at or below i is at or below the anchor
            lemma_fundamental_div_mod(ip, rate);
            lemma_div_is_ordered(ip, i, rate);
            lemma_mul_inequality(ip / rate, i / rate, rate);
            assert(ip == rate * (ip / rate));
            assert(rate * (ip / rate) == (ip / rate) * rate) by (nonlinear_arith);
            assert(rate * (i / rate) == (i / rate) * rate) by (nonlinear_arith);
            assert((ip / rate) * rate <= (i / rate) * rate);
            assert(ip <= s0);
            if ip < s0 {
                assert(lex_lt(key_at(t, ip), key_at(t, s0)));
            }
        }
    }
    lemma_floor_at(e2, key, j);
    lemma_scan_reaches(t, s0, i);
}

} // verus!
