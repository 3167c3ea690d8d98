//! The table of keys and values that the server keeps: a list of entries in
//! which no key occurs twice, seen as a map from keys to values.
use vstd::prelude::*;
use crate::protocol::{RedisKey, RedisValue};

verus! {

/// The map that results from inserting `entries` into `m` in order, a
/// later entry replacing an earlier one with the same key.
pub open spec fn insert_all(
    m: Map<Seq<u8>, Seq<u8>>,
    entries: Seq<(Seq<u8>, Seq<u8>)>,
) -> Map<Seq<u8>, Seq<u8>>
    decreases entries.len(),
{
    if entries.len() == 0 {
        m
    } else {
        insert_all(m, entries.drop_last()).insert(entries.last().0, entries.last().1)
    }
}

/// Inserting finitely many entries into a finite map leaves it finite.
pub proof fn lemma_insert_all_finite(m: Map<Seq<u8>, Seq<u8>>, entries: Seq<(Seq<u8>, Seq<u8>)>)
    requires
        m.dom().finite(),
    ensures
        insert_all(m, entries).dom().finite(),
    decreases entries.len(),
{
    if entries.len() > 0 {
        lemma_insert_all_finite(m, entries.drop_last());
    }
}

/// The map that a list of entries describes.
pub open spec fn entries_map(entries: Seq<(Seq<u8>, Seq<u8>)>) -> Map<Seq<u8>, Seq<u8>> {
    insert_all(Map::empty(), entries)
}

/// Does no key occur twice among `entries`?
pub open spec fn distinct_keys(entries: Seq<(Seq<u8>, Seq<u8>)>) -> bool {
    forall|i: int, j: int|
        0 <= i < entries.len() && 0 <= j < entries.len() && i != j ==> (#[trigger] entries[i]).0
            != (#[trigger] entries[j]).0
}

/// A key that no entry has is not in the map, and the map's keys are
/// those of the entries.
pub proof fn lemma_entries_map_keys(entries: Seq<(Seq<u8>, Seq<u8>)>, k: Seq<u8>)
    ensures
        entries_map(entries).contains_key(k) <==> exists|i: int|
            0 <= i < entries.len() && (#[trigger] entries[i]).0 == k,
    decreases entries.len(),
{
    if entries.len() > 0 {
        let init = entries.drop_last();
        lemma_entries_map_keys(init, k);
        if entries_map(init).contains_key(k) {
            let i = choose|i: int| 0 <= i < init.len() && (#[trigger] init[i]).0 == k;
            assert(entries[i] == init[i]);
        }
        if exists|i: int| 0 <= i < entries.len() && (#[trigger] entries[i]).0 == k {
            let i = choose|i: int| 0 <= i < entries.len() && (#[trigger] entries[i]).0 == k;
            if i < init.len() {
                assert(init[i] == entries[i]);
            }
        }
    }
}

/// Where keys are distinct, the value of an entry's key is that entry's value.
pub proof fn lemma_entries_map_value(entries: Seq<(Seq<u8>, Seq<u8>)>, i: int)
    requires
        distinct_keys(entries),
        0 <= i < entries.len(),
    ensures
        entries_map(entries).contains_key(entries[i].0),
        entries_map(entries)[entries[i].0] == entries[i].1,
    decreases entries.len(),
{
    let init = entries.drop_last();
    if i < entries.len() - 1 {
        assert(init[i] == entries[i]);
        assert(distinct_keys(init)) by {
            assert forall|a: int, b: int|
                0 <= a < init.len() && 0 <= b < init.len() && a != b implies (#[trigger] init[a]).0
                != (#[trigger] init[b]).0 by {
                assert(init[a] == entries[a] && init[b] == entries[b]);
            }
        }
        lemma_entries_map_value(init, i);
        assert(entries[entries.len() - 1].0 != entries[i].0);
    }
}

/// Replacing the value of the entry at `i` replaces the value of its key.
pub proof fn lemma_entries_map_update(entries: Seq<(Seq<u8>, Seq<u8>)>, i: int, v: Seq<u8>)
    requires
        distinct_keys(entries),
        0 <= i < entries.len(),
    ensures
        entries_map(entries.update(i, (entries[i].0, v))) == entries_map(entries).insert(
            entries[i].0,
            v,
        ),
        distinct_keys(entries.update(i, (entries[i].0, v))),
    decreases entries.len(),
{
    let k = entries[i].0;
    let updated = entries.update(i, (k, v));
    let init = entries.drop_last();
    assert(distinct_keys(updated)) by {
        assert forall|a: int, b: int|
            0 <= a < updated.len() && 0 <= b < updated.len() && a != b implies (#[trigger] updated[a]).0
            != (#[trigger] updated[b]).0 by {
            assert(updated[a].0 == entries[a].0 && updated[b].0 == entries[b].0);
        }
    }
    if i == entries.len() - 1 {
        assert(updated.drop_last() =~= init);
        assert(entries_map(updated) =~= entries_map(entries).insert(k, v));
    } else {
        assert(distinct_keys(init)) by {
            assert forall|a: int, b: int|
                0 <= a < init.len() && 0 <= b < init.len() && a != b implies (#[trigger] init[a]).0
                != (#[trigger] init[b]).0 by {
                assert(init[a] == entries[a] && init[b] == entries[b]);
            }
        }
        assert(init[i] == entries[i]);
        lemma_entries_map_update(init, i, v);
        assert(updated.drop_last() =~= init.update(i, (k, v)));
        assert(updated.last() == entries.last());
        assert(entries.last().0 != k);
        assert(entries_map(updated) =~= entries_map(entries).insert(k, v));
    }
}

/// Removing the entry at `i` removes its key.
pub proof fn lemma_entries_map_remove(entries: Seq<(Seq<u8>, Seq<u8>)>, i: int)
    requires
        distinct_keys(entries),
        0 <= i < entries.len(),
    ensures
        entries_map(entries.remove(i)) == entries_map(entries).remove(entries[i].0),
        distinct_keys(entries.remove(i)),
    decreases entries.len(),
{
    let k = entries[i].0;
    let removed = entries.remove(i);
    let init = entries.drop_last();
    assert(distinct_keys(removed)) by {
        assert forall|a: int, b: int|
            0 <= a < removed.len() && 0 <= b < removed.len() && a != b implies (#[trigger] removed[a]).0
            != (#[trigger] removed[b]).0 by {
            let a2 = if a < i { a } else { a + 1 };
            let b2 = if b < i { b } else { b + 1 };
            assert(removed[a] == entries[a2] && removed[b] == entries[b2]);
        }
    }
    assert(distinct_keys(init)) by {
        assert forall|a: int, b: int|
            0 <= a < init.len() && 0 <= b < init.len() && a != b implies (#[trigger] init[a]).0
            != (#[trigger] init[b]).0 by {
            assert(init[a] == entries[a] && init[b] == entries[b]);
        }
    }
    if i == entries.len() - 1 {
        assert(removed =~= init);
        lemma_entries_map_keys(init, k);
        assert forall|j: int| 0 <= j < init.len() implies (#[trigger] init[j]).0 != k by {
            assert(init[j] == entries[j]);
        }
        assert(entries_map(removed) =~= entries_map(entries).remove(k));
    } else {
        assert(init[i] == entries[i]);
        lemma_entries_map_remove(init, i);
        assert(removed =~= init.remove(i).push(entries.last()));
        assert(removed.drop_last() =~= init.remove(i));
        assert(entries.last().0 != k);
        assert(entries_map(removed) =~= entries_map(entries).remove(k));
    }
}

/// Can each key and value state its length in a `u64`?
pub open spec fn lengths_fit(entries: Seq<(Seq<u8>, Seq<u8>)>) -> bool {
    forall|i: int|
        0 <= i < entries.len() ==> (#[trigger] entries[i]).0.len() <= u64::MAX && entries[i].1.len()
            <= u64::MAX
}

/// Does some entry have the key `k`?
pub open spec fn has_key(entries: Seq<(Seq<u8>, Seq<u8>)>, k: Seq<u8>) -> bool {
    exists|i: int| 0 <= i < entries.len() && (#[trigger] entries[i]).0 == k
}

/// Where the entry with key `k` stands (given that there is one).
pub open spec fn index_of_key(entries: Seq<(Seq<u8>, Seq<u8>)>, k: Seq<u8>) -> int {
    choose|i: int| 0 <= i < entries.len() && (#[trigger] entries[i]).0 == k
}

/// The entries after giving `k` the value `v`: the entry with that key
/// takes the new value in its place, or a new entry goes at the end.
pub open spec fn entries_after_insert(
    entries: Seq<(Seq<u8>, Seq<u8>)>,
    k: Seq<u8>,
    v: Seq<u8>,
) -> Seq<(Seq<u8>, Seq<u8>)> {
    if has_key(entries, k) {
        entries.update(index_of_key(entries, k), (k, v))
    } else {
        entries.push((k, v))
    }
}

/// The entries after removing the key `k`: the others keep their order.
pub open spec fn entries_after_remove(entries: Seq<(Seq<u8>, Seq<u8>)>, k: Seq<u8>) -> Seq<
    (Seq<u8>, Seq<u8>),
> {
    if has_key(entries, k) {
        entries.remove(index_of_key(entries, k))
    } else {
        entries
    }
}

/// With distinct keys, the entry with a key is the one at `i` where `i`
/// has it.
proof fn lemma_index_of_key(entries: Seq<(Seq<u8>, Seq<u8>)>, i: int)
    requires
        distinct_keys(entries),
        0 <= i < entries.len(),
    ensures
        has_key(entries, entries[i].0),
        index_of_key(entries, entries[i].0) == i,
{
    let k = entries[i].0;
    assert(entries[i].0 == k);
    let j = index_of_key(entries, k);
    if j != i {
        assert(entries[j].0 != entries[i].0);
    }
}

/// A table of keys and their values.
pub struct Store {
    entries: Vec<(RedisKey, RedisValue)>,
}

impl Store {
    /// The entries, in the order the table keeps them.
    pub closed spec fn entries(&self) -> Seq<(Seq<u8>, Seq<u8>)> {
        self.entries@.map_values(|e: (RedisKey, RedisValue)| (e.0@, e.1@))
    }

    /// No key occurs twice, and every length fits a `u64`.
    #[verifier::type_invariant]
    pub open spec fn well_formed(&self) -> bool {
        &&& distinct_keys(self.entries())
        &&& lengths_fit(self.entries())
    }
}

impl View for Store {
    type V = Map<Seq<u8>, Seq<u8>>;

    open spec fn view(&self) -> Map<Seq<u8>, Seq<u8>> {
        entries_map(self.entries())
    }
}

/// Are the two byte strings equal?
fn bytes_equal(a: &[u8], b: &[u8]) -> (r: bool)
    ensures
        r == (a@ == b@),
{
    if a.len() != b.len() {
        return false;
    }
    let mut i: usize = 0;
    while i < a.len()
        invariant
            a@.len() == b@.len(),
            0 <= i <= a@.len(),
            forall|j: int| 0 <= j < i ==> a@[j] == b@[j],
        decreases a@.len() - i,
    {
        if a[i] != b[i] {
            return false;
        }
        i = i + 1;
    }
    assert(a@ =~= b@);
    true
}

impl Store {
    /// An empty table.
    pub fn new() -> (s: Store)
        ensures
            s@ == Map::<Seq<u8>, Seq<u8>>::empty(),
            s.entries() == Seq::<(Seq<u8>, Seq<u8>)>::empty(),
    {
        let s = Store { entries: Vec::new() };
        assert(s.entries() =~= Seq::<(Seq<u8>, Seq<u8>)>::empty());
        s
    }

    /// Where the entry with `key` stands, if there is one.
    fn position(&self, key: &[u8]) -> (r: Option<usize>)
        ensures
            r matches Some(i) ==> i < self.entries().len() && self.entries()[i as int].0 == key@,
            r is None ==> forall|i: int| 0 <= i < self.entries().len() ==> (#[trigger] self.entries()[i]).0 != key@,
    {
        let n = self.entries.len();
        let mut i: usize = 0;
        while i < n
            invariant
                0 <= i <= n,
                n == self.entries().len(),
                forall|j: int| 0 <= j < i ==> (#[trigger] self.entries()[j]).0 != key@,
            decreases n - i,
        {
            if bytes_equal(self.entries[i].0.as_slice(), key) {
                return Some(i);
            }
            i = i + 1;
        }
        None
    }

    /// The value of `key`, if it has one.
    pub fn get(&self, key: &[u8]) -> (r: Option<&RedisValue>)
        ensures
            r matches Some(v) ==> self@.contains_key(key@) && v@ == self@[key@],
            r is None ==> !self@.contains_key(key@),
    {
        proof {
            use_type_invariant(self);
        }
        match self.position(key) {
            Some(i) => {
                proof {
                    lemma_entries_map_value(self.entries(), i as int);
                }
                Some(&self.entries[i].1)
            },
            None => {
                proof {
                    lemma_entries_map_keys(self.entries(), key@);
                }
                None
            },
        }
    }

    /// Gives `key` the value `value`, in place of any it had.
    pub fn insert(&mut self, key: RedisKey, value: RedisValue)
        ensures
            final(self)@ == old(self)@.insert(key@, value@),
            final(self).entries() == entries_after_insert(old(self).entries(), key@, value@),
    {
        proof {
            use_type_invariant(&*self);
        }
        // Lengths of vectors in memory fit a `usize`, and so a `u64`.
        let key_len = key.len();
        let value_len = match &value {
            RedisValue::Str(v) => v.len(),
        };
        assert(key_len as nat <= u64::MAX && value_len as nat <= u64::MAX);
        let ghost before = self.entries();
        match self.position(key.as_slice()) {
            Some(i) => {
                proof {
                    lemma_entries_map_update(before, i as int, value@);
                    lemma_index_of_key(before, i as int);
                }
                let ghost k = key@;
                let ghost v = value@;
                let mut es: Vec<(RedisKey, RedisValue)> = Vec::new();
                std::mem::swap(&mut es, &mut self.entries);
                es.set(i, (key, value));
                let ghost after = es@.map_values(|e: (RedisKey, RedisValue)| (e.0@, e.1@));
                assert(after =~= before.update(i as int, (k, v)));
                assert(lengths_fit(after)) by {
                    assert forall|a: int| 0 <= a < after.len() implies (#[trigger] after[a]).0.len()
                        <= u64::MAX && after[a].1.len() <= u64::MAX by {
                        if a != i {
                            assert(after[a] == before[a]);
                        }
                    }
                }
                self.entries = es;
            },
            None => {
                let ghost k = key@;
                let ghost v = value@;
                assert(!has_key(before, k));
                let mut es: Vec<(RedisKey, RedisValue)> = Vec::new();
                std::mem::swap(&mut es, &mut self.entries);
                es.push((key, value));
                let ghost after = es@.map_values(|e: (RedisKey, RedisValue)| (e.0@, e.1@));
                assert(after =~= before.push((k, v)));
                assert(after.drop_last() =~= before);
                assert(lengths_fit(after)) by {
                    assert forall|a: int| 0 <= a < after.len() implies (#[trigger] after[a]).0.len()
                        <= u64::MAX && after[a].1.len() <= u64::MAX by {
                        if a < before.len() {
                            assert(after[a] == before[a]);
                        }
                    }
                }
                assert(distinct_keys(after)) by {
                    assert forall|a: int, b: int|
                        0 <= a < after.len() && 0 <= b < after.len() && a != b implies (
                        #[trigger] after[a]).0 != (#[trigger] after[b]).0 by {
                        if a < before.len() && b < before.len() {
                            assert(after[a] == before[a] && after[b] == before[b]);
                        } else if a < before.len() {
                            assert(after[a] == before[a]);
                        } else {
                            assert(after[b] == before[b]);
                        }
                    }
                }
                self.entries = es;
            },
        }
    }

    /// Removes `key`; says whether it was there.
    pub fn remove(&mut self, key: &[u8]) -> (r: bool)
        ensures
            r == old(self)@.contains_key(key@),
            final(self)@ == old(self)@.remove(key@),
            final(self).entries() == entries_after_remove(old(self).entries(), key@),
    {
        proof {
            use_type_invariant(&*self);
        }
        let ghost before = self.entries();
        match self.position(key) {
            Some(i) => {
                proof {
                    lemma_entries_map_remove(before, i as int);
                    lemma_entries_map_value(before, i as int);
                    lemma_index_of_key(before, i as int);
                }
                let mut es: Vec<(RedisKey, RedisValue)> = Vec::new();
                std::mem::swap(&mut es, &mut self.entries);
                es.remove(i);
                let ghost after = es@.map_values(|e: (RedisKey, RedisValue)| (e.0@, e.1@));
                assert(after =~= before.remove(i as int));
                assert(lengths_fit(after)) by {
                    assert forall|a: int| 0 <= a < after.len() implies (#[trigger] after[a]).0.len()
                        <= u64::MAX && after[a].1.len() <= u64::MAX by {
                        if a < i {
                            assert(after[a] == before[a]);
                        } else {
                            assert(after[a] == before[a + 1]);
                        }
                    }
                }
                self.entries = es;
                true
            },
            None => {
                proof {
                    lemma_entries_map_keys(before, key@);
                    assert(!has_key(before, key@));
                    assert(entries_map(before).remove(key@) =~= entries_map(before));
                }
                false
            },
        }
    }
}

impl Store {
    /// The number of entries; no key occurs twice among them.
    pub fn len(&self) -> (n: usize)
        ensures
            n == self.entries().len(),
            distinct_keys(self.entries()),
    {
        proof {
            use_type_invariant(self);
        }
        self.entries.len()
    }

    /// The entry at `i`.
    pub fn entry(&self, i: usize) -> (r: (&RedisKey, &RedisValue))
        requires
            i < self.entries().len(),
        ensures
            (r.0@, r.1@) == self.entries()[i as int],
    {
        (&self.entries[i].0, &self.entries[i].1)
    }
}

} // verus!
