//! The sparse index: an ordered in-memory mapping from sampled keys to table
//! addresses. Updating an existing key overwrites its address, so the index
//! always points at the newest table-file occurrence of a sampled key.

use vstd::prelude::*;
use crate::keys::{lex_lt, lex_le, compare_keys, KeyOrdering};
use crate::keys::{lemma_lex_irrefl, lemma_lex_total, lemma_lex_asym, lemma_lex_trans};

verus! {

/// A pointer to the approximate location of a key: the table file (by
/// generation) and the record position inside it.
#[derive(Clone, Copy, PartialEq, Eq, Structural, Debug)]
pub struct TableAddress {
    pub table: usize,
    pub offset: usize,
}

impl TableAddress {
    /// An address for position `offset` of table `table`.
    pub fn new(table: usize, offset: usize) -> (r: TableAddress)
        ensures
            r == (TableAddress { table, offset }),
    {
        TableAddress { table, offset }
    }
}

/// One index entry: a key and the address it points at.
pub type IndexEntry = (Seq<u8>, TableAddress);

/// The index entries stand in strictly ascending key order; in particular
/// every key appears at most once.
pub open spec fn index_sorted(e: Seq<IndexEntry>) -> bool {
    forall|i: int, j: int| 0 <= i < j < e.len() ==> lex_lt(#[trigger] e[i].0, #[trigger] e[j].0)
}

/// The entries after an update: a present key has its address overwritten, an
/// absent key is inserted at its ordered position.
pub open spec fn updated(e: Seq<IndexEntry>, key: Seq<u8>, address: TableAddress) -> Seq<
    IndexEntry,
>
    decreases e.len(),
{
    if e.len() == 0 {
        seq![(key, address)]
    } else if lex_lt(e[0].0, key) {
        seq![e[0]] + updated(e.skip(1), key, address)
    } else if e[0].0 == key {
        e.update(0, (key, address))
    } else {
        seq![(key, address)] + e
    }
}

/// The last entry whose key is at or below `key`: on a sorted index, the
/// greatest indexed key at or below `key`.
pub open spec fn floor_entry(e: Seq<IndexEntry>, key: Seq<u8>) -> Option<IndexEntry>
    decreases e.len(),
{
    if e.len() == 0 {
        None
    } else if lex_le(e.last().0, key) {
        Some(e.last())
    } else {
        floor_entry(e.drop_last(), key)
    }
}

/// An update keeps the index sorted, registers the new entry, and leaves
/// every entry for another key exactly in place.
pub proof fn lemma_updated_props(e: Seq<IndexEntry>, key: Seq<u8>, address: TableAddress)
    requires
        index_sorted(e),
    ensures
        index_sorted(updated(e, key, address)),
        updated(e, key, address).contains((key, address)),
        forall|j: int|
            0 <= j < updated(e, key, address).len() ==> (#[trigger] updated(e, key, address)[j]
                == (key, address) || (e.contains(updated(e, key, address)[j]) && updated(
                e,
                key,
                address,
            )[j].0 != key)),
        forall|j: int|
            0 <= j < e.len() && (#[trigger] e[j]).0 != key ==> updated(e, key, address).contains(
                e[j],
            ),
    decreases e.len(),
{
    let e2 = updated(e, key, address);
    if e.len() == 0 {
        assert(e2 =~= seq![(key, address)]);
        assert(e2[0] == (key, address));
    } else if lex_lt(e[0].0, key) {
        let tail = e.skip(1);
        assert forall|i: int, j: int| 0 <= i < j < tail.len() implies lex_lt(
            #[trigger] tail[i].0,
            #[trigger] tail[j].0,
        ) by {
            assert(tail[i] == e[i + 1] && tail[j] == e[j + 1]);
        }
        lemma_updated_props(tail, key, address);
        let t2 = updated(tail, key, address);
        assert(e2 =~= seq![e[0]] + t2);
        assert(forall|j: int| 0 <= j < t2.len() ==> e2[j + 1] == t2[j]);
        // every entry of t2 either is the new one or sits somewhere in the tail
        assert forall|j: int| 0 <= j < e2.len() implies (#[trigger] e2[j] == (key, address) || (
        e.contains(e2[j]) && e2[j].0 != key)) by {
            if j == 0 {
                assert(e2[0] == e[0]);
                assert(e.contains(e[0]));
                lemma_lex_irrefl(key);
            } else {
                assert(e2[j] == t2[j - 1]);
                if t2[j - 1] != (key, address) {
                    assert(tail.contains(t2[j - 1]));
                    let m = choose|m: int| 0 <= m < tail.len() && tail[m] == t2[j - 1];
                    assert(e[m + 1] == t2[j - 1]);
                    assert(e.contains(t2[j - 1]));
                }
            }
        }
        // sortedness of the combined sequence
        assert forall|i: int, j: int| 0 <= i < j < e2.len() implies lex_lt(
            #[trigger] e2[i].0,
            #[trigger] e2[j].0,
        ) by {
            if i == 0 {
                assert(e2[j] == t2[j - 1]);
                if t2[j - 1] == (key, address) {
                    assert(lex_lt(e[0].0, key));
                } else {
                    assert(tail.contains(t2[j - 1]));
                    let m = choose|m: int| 0 <= m < tail.len() && tail[m] == t2[j - 1];
                    assert(e[m + 1] == t2[j - 1]);
                    assert(lex_lt(e[0].0, e[m + 1].0));
                }
            } else {
                assert(e2[i] == t2[i - 1] && e2[j] == t2[j - 1]);
            }
        }
        assert(t2.contains((key, address)));
        let m = choose|m: int| 0 <= m < t2.len() && t2[m] == (key, address);
        assert(e2[m + 1] == (key, address));
        assert(e2.contains((key, address)));
        assert forall|j: int| 0 <= j < e.len() && (#[trigger] e[j]).0 != key implies e2.contains(
            e[j],
        ) by {
            if j == 0 {
                assert(e2[0] == e[0]);
            } else {
                assert(tail[j - 1] == e[j]);
                assert(t2.contains(e[j]));
                let m2 = choose|m2: int| 0 <= m2 < t2.len() && t2[m2] == e[j];
                assert(e2[m2 + 1] == e[j]);
            }
        }
    } else if e[0].0 == key {
        assert(e2 =~= e.update(0, (key, address)));
        assert(e2[0] == (key, address));
        assert forall|j: int| 0 <= j < e2.len() implies (#[trigger] e2[j] == (key, address) || (
        e.contains(e2[j]) && e2[j].0 != key)) by {
            if j > 0 {
                assert(e2[j] == e[j]);
                assert(e.contains(e[j]));
                assert(lex_lt(e[0].0, e[j].0));
                lemma_lex_irrefl(e[j].0);
            }
        }
        assert forall|i: int, j: int| 0 <= i < j < e2.len() implies lex_lt(
            #[trigger] e2[i].0,
            #[trigger] e2[j].0,
        ) by {
            assert(e2[i].0 == e[i].0 && e2[j].0 == e[j].0);
        }
        assert forall|j: int| 0 <= j < e.len() && (#[trigger] e[j]).0 != key implies e2.contains(
            e[j],
        ) by {
            assert(j != 0);
            assert(e2[j] == e[j]);
        }
    } else {
        lemma_lex_total(e[0].0, key);
        assert(lex_lt(key, e[0].0));
        assert(e2 =~= seq![(key, address)] + e);
        assert(e2[0] == (key, address));
        assert(forall|j: int| 0 < j < e2.len() ==> #[trigger] e2[j] == e[j - 1]);
        assert forall|j: int| 0 <= j < e2.len() implies (#[trigger] e2[j] == (key, address) || (
        e.contains(e2[j]) && e2[j].0 != key)) by {
            if j > 0 {
                assert(e2[j] == e[j - 1]);
                assert(e.contains(e[j - 1]));
                if j == 1 {
                    lemma_lex_irrefl(key);
                } else {
                    lemma_lex_trans(key, e[0].0, e[j - 1].0);
                    lemma_lex_irrefl(key);
                }
            }
        }
        assert forall|i: int, j: int| 0 <= i < j < e2.len() implies lex_lt(
            #[trigger] e2[i].0,
            #[trigger] e2[j].0,
        ) by {
            if i == 0 {
                if j == 1 {
                    assert(e2[j].0 == e[0].0);
                } else {
                    assert(e2[j].0 == e[j - 1].0);
                    lemma_lex_trans(key, e[0].0, e[j - 1].0);
                }
            } else {
                assert(e2[i].0 == e[i - 1].0 && e2[j].0 == e[j - 1].0);
            }
        }
        assert forall|j: int| 0 <= j < e.len() && (#[trigger] e[j]).0 != key implies e2.contains(
            e[j],
        ) by {
            assert(e2[j + 1] == e[j]);
        }
    }
}

/// Updating with a key above every present key appends the entry at the end.
pub proof fn lemma_updated_append(e: Seq<IndexEntry>, key: Seq<u8>, address: TableAddress)
    requires
        forall|j: int| 0 <= j < e.len() ==> lex_lt((#[trigger] e[j]).0, key),
    ensures
        updated(e, key, address) == e.push((key, address)),
    decreases e.len(),
{
    if e.len() == 0 {
        assert(updated(e, key, address) =~= e.push((key, address)));
    } else {
        let tail = e.skip(1);
        assert(forall|j: int| 0 <= j < tail.len() ==> tail[j] == e[j + 1]);
        lemma_updated_append(tail, key, address);
        assert(updated(e, key, address) =~= e.push((key, address)));
    }
}

/// Where the update lands positionally: scanning from the front, the first
/// position whose key is not below the new key either matches it (overwrite)
/// or receives the inserted entry.
proof fn lemma_updated_at(e: Seq<IndexEntry>, key: Seq<u8>, address: TableAddress, i: int)
    requires
        0 <= i <= e.len(),
        forall|j: int| 0 <= j < i ==> lex_lt((#[trigger] e[j]).0, key),
        i < e.len() ==> !lex_lt(e[i].0, key),
    ensures
        updated(e, key, address) == if i < e.len() && e[i].0 == key {
            e.update(i, (key, address))
        } else {
            e.insert(i, (key, address))
        },
    decreases i,
{
    if i == 0 {
        if e.len() == 0 {
            assert(updated(e, key, address) =~= e.insert(0, (key, address)));
        } else if e[0].0 == key {
            lemma_lex_irrefl(key);
        } else {
            assert(updated(e, key, address) =~= e.insert(0, (key, address)));
        }
    } else {
        let tail = e.skip(1);
        assert(forall|j: int| 0 <= j < tail.len() ==> tail[j] == e[j + 1]);
        lemma_updated_at(tail, key, address, i - 1);
        if i < e.len() && e[i].0 == key {
            assert(seq![e[0]] + tail.update(i - 1, (key, address)) =~= e.update(
                i,
                (key, address),
            ));
        } else {
            assert(seq![e[0]] + tail.insert(i - 1, (key, address)) =~= e.insert(
                i,
                (key, address),
            ));
        }
    }
}

/// On a sorted index, the entry at `j` whose key dominates every indexed key
/// at or below `key` is exactly what the floor lookup returns.
pub proof fn lemma_floor_at(e: Seq<IndexEntry>, key: Seq<u8>, j: int)
    requires
        index_sorted(e),
        0 <= j < e.len(),
        lex_le(e[j].0, key),
        forall|m: int|
            0 <= m < e.len() && lex_le((#[trigger] e[m]).0, key) ==> lex_le(e[m].0, e[j].0),
    ensures
        floor_entry(e, key) == Some(e[j]),
    decreases e.len(),
{
    let last = e.last();
    if j == e.len() - 1 {
        assert(lex_le(last.0, key));
    } else {
        assert(lex_lt(e[j].0, last.0));
        if lex_le(last.0, key) {
            assert(lex_le(last.0, e[j].0));
            lemma_lex_asym(e[j].0, last.0);
            lemma_lex_irrefl(last.0);
            assert(false);
        }
        let front = e.drop_last();
        assert(forall|m: int| 0 <= m < front.len() ==> front[m] == e[m]);
        lemma_floor_at(front, key, j);
    }
}

/// Extending the entries by one changes the floor exactly when the new
/// entry's key is at or below the probed key.
pub proof fn lemma_floor_push(e: Seq<IndexEntry>, x: IndexEntry, key: Seq<u8>)
    ensures
        floor_entry(e.push(x), key) == if lex_le(x.0, key) {
            Some(x)
        } else {
            floor_entry(e, key)
        },
{
    assert(e.push(x).drop_last() =~= e);
    assert(e.push(x).last() == x);
}

/// The in-memory sparse index: entries in strictly ascending key order.
pub struct SparseIndex {
    pub entries: Vec<(Vec<u8>, TableAddress)>,
}

impl View for SparseIndex {
    type V = Seq<IndexEntry>;

    open spec fn view(&self) -> Seq<IndexEntry> {
        self.entries@.map_values(|p: (Vec<u8>, TableAddress)| (p.0@, p.1))
    }
}

impl SparseIndex {
    /// An empty index.
    pub fn new() -> (r: SparseIndex)
        ensures
            r@ =~= Seq::<IndexEntry>::empty(),
    {
        SparseIndex { entries: Vec::new() }
    }

    /// How many keys are indexed.
    pub fn len(&self) -> (r: usize)
        ensures
            r == self@.len(),
    {
        self.entries.len()
    }

    /// Registers `address` for `key`, overwriting the address a present key
    /// pointed at and keeping the entries in key order.
    pub fn update(&mut self, key: Vec<u8>, address: TableAddress)
        ensures
            final(self)@ == updated(old(self)@, key@, address),
    {
        let mut i: usize = 0;
        while i < self.entries.len()
            invariant
                *self == *old(self),
                0 <= i <= self.entries.len(),
                forall|j: int| 0 <= j < i ==> lex_lt((#[trigger] self@[j]).0, key@),
            decreases self.entries.len() - i,
        {
            let ord = compare_keys(&self.entries[i].0, &key);
            proof {
                assert(self@[i as int] == (self.entries@[i as int].0@, self.entries@[i as int].1));
            }
            match ord {
                KeyOrdering::Less => {
                    i = i + 1;
                },
                KeyOrdering::Equal => {
                    proof {
                        crate::keys::lemma_lex_irrefl(key@);
                        lemma_updated_at(old(self)@, key@, address, i as int);
                    }
                    self.entries.remove(i);
                    self.entries.insert(i, (key, address));
                    proof {
                        assert(final(self)@ =~= updated(old(self)@, key@, address));
                    }
                    return ;
                },
                KeyOrdering::Greater => {
                    proof {
                        crate::keys::lemma_lex_irrefl(key@);
                        lemma_updated_at(old(self)@, key@, address, i as int);
                    }
                    self.entries.insert(i, (key, address));
                    proof {
                        assert(final(self)@ =~= updated(old(self)@, key@, address));
                    }
                    return ;
                },
            }
        }
        proof {
            lemma_updated_at(old(self)@, key@, address, self@.len() as int);
        }
        self.entries.push((key, address));
        proof {
            assert(final(self)@ =~= updated(old(self)@, key@, address));
        }
    }

    /// The address of the greatest indexed key at or below `key`, or `None`
    /// where no indexed key is at or below it.
    pub fn get_nearest_address(&self, key: &Vec<u8>) -> (r: Option<TableAddress>)
        ensures
            r == match floor_entry(self@, key@) {
                None => None::<TableAddress>,
                Some(ent) => Some(ent.1),
            },
    {
        let mut best: Option<TableAddress> = None;
        let mut i: usize = 0;
        while i < self.entries.len()
            invariant
                0 <= i <= self.entries.len(),
                best == match floor_entry(self@.take(i as int), key@) {
                    None => None::<TableAddress>,
                    Some(ent) => Some(ent.1),
                },
            decreases self.entries.len() - i,
        {
            let ord = compare_keys(&self.entries[i].0, key);
            proof {
                assert(self@[i as int] == (self.entries@[i as int].0@, self.entries@[i as int].1));
                lemma_floor_push(self@.take(i as int), self@[i as int], key@);
                assert(self@.take(i as int + 1) =~= self@.take(i as int).push(self@[i as int]));
            }
            match ord {
                KeyOrdering::Less => {
                    best = Some(self.entries[i].1);
                },
                KeyOrdering::Equal => {
                    best = Some(self.entries[i].1);
                },
                KeyOrdering::Greater => {
                },
            }
            i = i + 1;
        }
        proof {
            assert(self@.take(self@.len() as int) =~= self@);
        }
        best
    }
}

} // verus!
