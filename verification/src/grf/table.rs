//! The in-memory entry table: a list of entries with pairwise distinct
//! case-insensitive keys, viewed as a map from lower-cased path to entry.
//! Insertion replaces in place on a key match (so a later occurrence wins)
//! and appends otherwise.

use crate::codec::{ascii_lower, bytes_eq, spec_lower};
use crate::grf::format::{lemma_table_bytes_push, table_bytes};
use crate::grf::types::{entry_key, entry_wf, GrfEntry, GrfEntryModel};
use vstd::prelude::*;

verus! {

/// The models of a list of entries.
pub open spec fn models(s: Seq<GrfEntry>) -> Seq<GrfEntryModel> {
    s.map_values(|e: GrfEntry| e@)
}

/// The map folded from a list of entries; a later occurrence of a key wins.
pub open spec fn table_map(es: Seq<GrfEntryModel>) -> Map<Seq<u8>, GrfEntryModel>
    decreases es.len(),
{
    if es.len() == 0 {
        Map::empty()
    } else {
        table_map(es.drop_last()).insert(entry_key(es.last()), es.last())
    }
}

/// Pairwise distinct case-insensitive keys.
pub open spec fn keys_unique(es: Seq<GrfEntryModel>) -> bool {
    forall|i: int, j: int|
        0 <= i < j < es.len() ==> entry_key(#[trigger] es[i]) != entry_key(#[trigger] es[j])
}

/// Index of the first entry stored under key `k`, or `-1`.
pub open spec fn key_index(es: Seq<GrfEntryModel>, k: Seq<u8>) -> int
    decreases es.len(),
{
    if es.len() == 0 {
        -1
    } else if entry_key(es[0]) == k {
        0
    } else if key_index(es.skip(1), k) < 0 {
        -1
    } else {
        1 + key_index(es.skip(1), k)
    }
}

/// Inserting into the list: replace the keyed entry in place, else append.
pub open spec fn spec_list_insert(es: Seq<GrfEntryModel>, e: GrfEntryModel) -> Seq<GrfEntryModel> {
    let i = key_index(es, entry_key(e));
    if i >= 0 {
        es.update(i, e)
    } else {
        es.push(e)
    }
}

/// The list built by inserting each entry in order, starting empty.
pub open spec fn spec_build_list(es: Seq<GrfEntryModel>) -> Seq<GrfEntryModel>
    decreases es.len(),
{
    if es.len() == 0 {
        Seq::empty()
    } else {
        spec_list_insert(spec_build_list(es.drop_last()), es.last())
    }
}

/// Removing from the list: drop the keyed entry, else leave the list alone.
pub open spec fn spec_list_remove(es: Seq<GrfEntryModel>, k: Seq<u8>) -> Seq<GrfEntryModel> {
    let i = key_index(es, k);
    if i >= 0 {
        es.remove(i)
    } else {
        es
    }
}

/// `key_index` finds the first match: a negative result means no match, a
/// non-negative one points at a match with none before it.
pub proof fn lemma_key_index(es: Seq<GrfEntryModel>, k: Seq<u8>)
    ensures
        key_index(es, k) < 0 ==> forall|i: int| 0 <= i < es.len() ==> entry_key(
            #[trigger] es[i],
        ) != k,
        key_index(es, k) >= 0 ==> {
            &&& key_index(es, k) < es.len()
            &&& entry_key(es[key_index(es, k)]) == k
            &&& forall|i: int| 0 <= i < key_index(es, k) ==> entry_key(#[trigger] es[i]) != k
        },
    decreases es.len(),
{
    if es.len() == 0 {
    } else if entry_key(es[0]) == k {
    } else {
        lemma_key_index(es.skip(1), k);
        let r = key_index(es.skip(1), k);
        if r < 0 {
            assert forall|i: int| 0 <= i < es.len() implies entry_key(#[trigger] es[i]) != k by {
                if i > 0 {
                    assert(es[i] == es.skip(1)[i - 1]);
                }
            }
        } else {
            assert(es[1 + r] == es.skip(1)[r]);
            assert forall|i: int| 0 <= i < 1 + r implies entry_key(#[trigger] es[i]) != k by {
                if i > 0 {
                    assert(es[i] == es.skip(1)[i - 1]);
                }
            }
        }
    }
}

/// The folded map holds a key iff some entry carries it.
pub proof fn lemma_table_map_contains(es: Seq<GrfEntryModel>, k: Seq<u8>)
    ensures
        table_map(es).contains_key(k) <==> exists|i: int|
            0 <= i < es.len() && entry_key(#[trigger] es[i]) == k,
    decreases es.len(),
{
    if es.len() == 0 {
    } else {
        lemma_table_map_contains(es.drop_last(), k);
        if entry_key(es.last()) == k {
            assert(entry_key(es[es.len() - 1]) == k);
        } else {
            if table_map(es).contains_key(k) {
                let i = choose|i: int|
                    0 <= i < es.drop_last().len() && entry_key(#[trigger] es.drop_last()[i]) == k;
                assert(entry_key(es[i]) == k);
            }
            if exists|i: int| 0 <= i < es.len() && entry_key(#[trigger] es[i]) == k {
                let i = choose|i: int| 0 <= i < es.len() && entry_key(#[trigger] es[i]) == k;
                assert(i < es.len() - 1);
                assert(entry_key(es.drop_last()[i]) == k);
            }
        }
    }
}

/// With pairwise distinct keys, the folded map sends each entry's key to it.
pub proof fn lemma_table_map_index(es: Seq<GrfEntryModel>, i: int)
    requires
        keys_unique(es),
        0 <= i < es.len(),
    ensures
        table_map(es).contains_key(entry_key(es[i])),
        table_map(es)[entry_key(es[i])] == es[i],
    decreases es.len(),
{
    if i == es.len() - 1 {
    } else {
        assert(keys_unique(es.drop_last()));
        lemma_table_map_index(es.drop_last(), i);
        assert(es.drop_last()[i] == es[i]);
        assert(entry_key(es[i]) != entry_key(es[es.len() - 1]));
    }
}

/// Replacing the entry that holds a key updates the folded map at that key.
pub proof fn lemma_table_map_update(es: Seq<GrfEntryModel>, i: int, e: GrfEntryModel)
    requires
        keys_unique(es),
        0 <= i < es.len(),
        entry_key(e) == entry_key(es[i]),
    ensures
        table_map(es.update(i, e)) == table_map(es).insert(entry_key(e), e),
        keys_unique(es.update(i, e)),
    decreases es.len(),
{
    let k = entry_key(e);
    if i == es.len() - 1 {
        assert(es.update(i, e).drop_last() =~= es.drop_last());
        assert(es.update(i, e).last() == e);
        assert(table_map(es.update(i, e)) == table_map(es.drop_last()).insert(k, e));
        assert(table_map(es.drop_last()).insert(entry_key(es.last()), es.last()).insert(k, e)
            =~= table_map(es.drop_last()).insert(k, e));
    } else {
        assert(keys_unique(es.drop_last()));
        assert(es.drop_last()[i] == es[i]);
        lemma_table_map_update(es.drop_last(), i, e);
        assert(es.update(i, e).drop_last() =~= es.drop_last().update(i, e));
        assert(es.update(i, e).last() == es.last());
        let kl = entry_key(es.last());
        assert(kl != k) by {
            assert(entry_key(es[i]) != entry_key(es[es.len() - 1]));
        }
        assert(table_map(es.update(i, e)) == table_map(es.drop_last()).insert(k, e).insert(
            kl,
            es.last(),
        ));
        assert(table_map(es.drop_last()).insert(k, e).insert(kl, es.last()) =~= table_map(
            es.drop_last(),
        ).insert(kl, es.last()).insert(k, e));
    }
}

/// Removing the entry that holds a key removes that key from the folded map.
pub proof fn lemma_table_map_remove(es: Seq<GrfEntryModel>, i: int)
    requires
        keys_unique(es),
        0 <= i < es.len(),
    ensures
        table_map(es.remove(i)) == table_map(es).remove(entry_key(es[i])),
        keys_unique(es.remove(i)),
    decreases es.len(),
{
    let k = entry_key(es[i]);
    assert forall|a: int, b: int| 0 <= a < b < es.remove(i).len() implies entry_key(
        #[trigger] es.remove(i)[a],
    ) != entry_key(#[trigger] es.remove(i)[b]) by {
        let a2: int = if a < i {
            a
        } else {
            a + 1
        };
        let b2: int = if b < i {
            b
        } else {
            b + 1
        };
        assert(es.remove(i)[a] == es[a2]);
        assert(es.remove(i)[b] == es[b2]);
    }
    if i == es.len() - 1 {
        assert(es.remove(i) =~= es.drop_last());
        lemma_table_map_contains(es.drop_last(), k);
        assert(!table_map(es.drop_last()).contains_key(k)) by {
            if exists|j: int|
                0 <= j < es.drop_last().len() && entry_key(#[trigger] es.drop_last()[j]) == k {
                let j = choose|j: int|
                    0 <= j < es.drop_last().len() && entry_key(#[trigger] es.drop_last()[j]) == k;
                assert(entry_key(es[j]) == entry_key(es[i]));
            }
        }
        assert(table_map(es.drop_last()).insert(k, es.last()).remove(k) =~= table_map(
            es.drop_last(),
        ));
    } else {
        assert(keys_unique(es.drop_last()));
        assert(es.drop_last()[i] == es[i]);
        lemma_table_map_remove(es.drop_last(), i);
        assert(es.remove(i).drop_last() =~= es.drop_last().remove(i));
        assert(es.remove(i).last() == es.last());
        let kl = entry_key(es.last());
        assert(kl != k) by {
            assert(entry_key(es[i]) != entry_key(es[es.len() - 1]));
        }
        assert(table_map(es.remove(i)) == table_map(es.drop_last()).remove(k).insert(
            kl,
            es.last(),
        ));
        assert(table_map(es.drop_last()).remove(k).insert(kl, es.last()) =~= table_map(
            es.drop_last(),
        ).insert(kl, es.last()).remove(k));
    }
}

/// The entry table of one container: entries under pairwise distinct
/// case-insensitive keys, with NUL-free paths.
#[derive(Debug)]
pub struct EntryTable {
    pub entries: Vec<GrfEntry>,
}

impl View for EntryTable {
    type V = Map<Seq<u8>, GrfEntryModel>;

    open spec fn view(&self) -> Map<Seq<u8>, GrfEntryModel> {
        table_map(models(self.entries@))
    }
}

impl EntryTable {
    /// Well-formedness: distinct keys and NUL-free paths.
    pub open spec fn wf(&self) -> bool {
        &&& keys_unique(models(self.entries@))
        &&& forall|i: int|
            0 <= i < self.entries@.len() ==> entry_wf(#[trigger] models(self.entries@)[i])
    }

    /// An empty table.
    pub fn new() -> (r: EntryTable)
        ensures
            r.wf(),
            r.entries@.len() == 0,
            r@ == Map::<Seq<u8>, GrfEntryModel>::empty(),
    {
        EntryTable { entries: Vec::new() }
    }

    /// Number of entries.
    pub fn len(&self) -> (n: usize)
        ensures
            n == self.entries@.len(),
    {
        self.entries.len()
    }

    /// Index of the entry stored under the key of `key_lower`, scanning for
    /// the first match.
    fn find_key(&self, key_lower: &Vec<u8>) -> (r: Option<usize>)
        ensures
            match r {
                Some(i) => i == key_index(models(self.entries@), key_lower@) && i
                    < self.entries@.len(),
                None => key_index(models(self.entries@), key_lower@) < 0,
            },
    {
        let ghost es = models(self.entries@);
        proof {
            lemma_key_index(es, key_lower@);
        }
        let mut i: usize = 0;
        while i < self.entries.len()
            invariant
                i <= self.entries@.len(),
                es == models(self.entries@),
                forall|j: int| 0 <= j < i ==> entry_key(#[trigger] es[j]) != key_lower@,
            decreases self.entries@.len() - i,
        {
            let ki = ascii_lower(self.entries[i].filename.as_slice());
            if bytes_eq(ki.as_slice(), key_lower.as_slice()) {
                proof {
                    assert(entry_key(es[i as int]) == key_lower@);
                    lemma_key_index_first(es, key_lower@, i as int);
                }
                return Some(i);
            }
            i = i + 1;
        }
        proof {
            if key_index(es, key_lower@) >= 0 {
                assert(entry_key(es[key_index(es, key_lower@)]) == key_lower@);
            }
        }
        None
    }

    /// Inserts `e`, replacing the entry under the same case-insensitive key
    /// if there is one (the later occurrence wins) and appending otherwise.
    pub fn insert(&mut self, e: GrfEntry)
        requires
            old(self).wf(),
            entry_wf(e@),
        ensures
            final(self).wf(),
            models(final(self).entries@) == spec_list_insert(models(old(self).entries@), e@),
            final(self)@ == old(self)@.insert(entry_key(e@), e@),
            final(self).entries@.len() <= old(self).entries@.len() + 1,
    {
        let ghost es = models(self.entries@);
        let key = ascii_lower(e.filename.as_slice());
        proof {
            assert(key@ == entry_key(e@));
        }
        match self.find_key(&key) {
            Some(i) => {
                proof {
                    lemma_key_index(es, key@);
                    lemma_table_map_update(es, i as int, e@);
                }
                self.entries.set(i, e);
                proof {
                    assert(models(self.entries@) =~= es.update(i as int, e@));
                    assert forall|j: int| 0 <= j < self.entries@.len() implies entry_wf(
                        #[trigger] models(self.entries@)[j],
                    ) by {
                        if j != i as int {
                            assert(models(self.entries@)[j] == es[j]);
                        }
                    }
                }
            },
            None => {
                proof {
                    lemma_key_index(es, key@);
                }
                self.entries.push(e);
                proof {
                    assert(models(self.entries@) =~= es.push(e@));
                    assert(models(self.entries@).drop_last() =~= es);
                    assert forall|a: int, b: int|
                        0 <= a < b < models(self.entries@).len() implies entry_key(
                        #[trigger] models(self.entries@)[a],
                    ) != entry_key(#[trigger] models(self.entries@)[b]) by {
                        if b == models(self.entries@).len() - 1 {
                            assert(models(self.entries@)[a] == es[a]);
                            assert(entry_key(es[a]) != key@);
                        }
                    }
                    assert forall|j: int| 0 <= j < self.entries@.len() implies entry_wf(
                        #[trigger] models(self.entries@)[j],
                    ) by {
                        if j < es.len() {
                            assert(models(self.entries@)[j] == es[j]);
                        }
                    }
                }
            },
        }
    }

    /// Removes the entry stored under the case-insensitive key of `name`, if
    /// any.
    pub fn remove(&mut self, name: &Vec<u8>)
        requires
            old(self).wf(),
        ensures
            final(self).wf(),
            models(final(self).entries@) == spec_list_remove(
                models(old(self).entries@),
                spec_lower(name@),
            ),
            final(self)@ == old(self)@.remove(spec_lower(name@)),
    {
        let ghost es = models(self.entries@);
        let key = ascii_lower(name.as_slice());
        match self.find_key(&key) {
            Some(i) => {
                proof {
                    lemma_key_index(es, key@);
                    lemma_table_map_remove(es, i as int);
                    assert(entry_key(es[i as int]) == key@);
                }
                self.entries.remove(i);
                proof {
                    assert(models(self.entries@) =~= es.remove(i as int));
                    assert forall|j: int| 0 <= j < self.entries@.len() implies entry_wf(
                        #[trigger] models(self.entries@)[j],
                    ) by {
                        let j2: int = if j < i as int {
                            j
                        } else {
                            j + 1
                        };
                        assert(models(self.entries@)[j] == es[j2]);
                    }
                }
            },
            None => {
                proof {
                    lemma_key_index(es, key@);
                    lemma_table_map_contains(es, key@);
                    assert(!table_map(es).contains_key(key@));
                    assert(table_map(es).remove(key@) =~= table_map(es));
                }
            },
        }
    }

    /// Looks an entry up under the case-insensitive key of `name`.
    pub fn get(&self, name: &Vec<u8>) -> (r: Option<&GrfEntry>)
        requires
            self.wf(),
        ensures
            match r {
                Some(e) => self@.contains_key(spec_lower(name@)) && e@ == self@[spec_lower(name@)],
                None => !self@.contains_key(spec_lower(name@)),
            },
    {
        let ghost es = models(self.entries@);
        let key = ascii_lower(name.as_slice());
        match self.find_key(&key) {
            Some(i) => {
                proof {
                    lemma_key_index(es, key@);
                    lemma_table_map_index(es, i as int);
                }
                Some(&self.entries[i])
            },
            None => {
                proof {
                    lemma_key_index(es, key@);
                    lemma_table_map_contains(es, key@);
                }
                None
            },
        }
    }

    /// Serializes the table to its byte layout, one entry after another in
    /// list order.
    pub fn serialize(&self) -> (r: Vec<u8>)
        ensures
            r@ == table_bytes(models(self.entries@)),
    {
        let ghost es = models(self.entries@);
        let mut out: Vec<u8> = Vec::new();
        let mut i: usize = 0;
        while i < self.entries.len()
            invariant
                i <= self.entries@.len(),
                es == models(self.entries@),
                out@ == table_bytes(es.take(i as int)),
            decreases self.entries@.len() - i,
        {
            let e = &self.entries[i];
            crate::codec::push_bytes(&mut out, e.filename.as_slice());
            out.push(0u8);
            crate::codec::push_i32_le(&mut out, e.compressed_size);
            crate::codec::push_i32_le(&mut out, e.compressed_size_aligned);
            crate::codec::push_i32_le(&mut out, e.real_size);
            out.push(e.flags);
            crate::codec::push_i32_le(&mut out, e.offset);
            proof {
                lemma_table_bytes_push(es.take(i as int), es[i as int]);
                assert(es.take(i + 1 as int) =~= es.take(i as int).push(es[i as int]));
                assert(out@ =~= table_bytes(es.take(i as int)) + entry_bytes_of(es[i as int]));
            }
            i = i + 1;
        }
        proof {
            assert(es.take(es.len() as int) =~= es);
        }
        out
    }
}

/// Alias used in the serializer's proof.
pub open spec fn entry_bytes_of(e: GrfEntryModel) -> Seq<u8> {
    crate::grf::format::entry_bytes(e)
}

/// A first match at `i` with no earlier match pins `key_index` to `i`.
proof fn lemma_key_index_first(es: Seq<GrfEntryModel>, k: Seq<u8>, i: int)
    requires
        0 <= i < es.len(),
        entry_key(es[i]) == k,
        forall|j: int| 0 <= j < i ==> entry_key(#[trigger] es[j]) != k,
    ensures
        key_index(es, k) == i,
    decreases es.len(),
{
    if i == 0 {
    } else {
        assert(entry_key(es[0]) != k);
        assert(es.skip(1)[i - 1] == es[i]);
        assert forall|j: int| 0 <= j < i - 1 implies entry_key(#[trigger] es.skip(1)[j]) != k by {
            assert(es.skip(1)[j] == es[j + 1]);
        }
        lemma_key_index_first(es.skip(1), k, i - 1);
    }
}

} // verus!
