use vstd::prelude::*;

verus! {

/// One entry of an [`OrderedMap`]: a key and what is stored under it.
#[derive(Debug, Clone, PartialEq)]
pub struct Entry<T> {
    pub key: u64,
    pub value: T,
}

/// Whether the keys of `entries` strictly increase from front to back, so that
/// no key occurs twice.
pub open spec fn keys_ascending<T>(entries: Seq<Entry<T>>) -> bool {
    forall|i: int, j: int| 0 <= i < j < entries.len() ==> entries[i].key < entries[j].key
}

/// The number of entries whose key is below `key`. Where the keys ascend this
/// is the position at which `key` stands, or at which it would have to be
/// inserted.
pub open spec fn rank<T>(entries: Seq<Entry<T>>, key: u64) -> nat
    decreases entries.len(),
{
    if entries.len() == 0 {
        0
    } else {
        rank(entries.drop_last(), key) + if entries.last().key < key {
            1nat
        } else {
            0nat
        }
    }
}

/// Whether the entry at the rank of `key` has that key. Where the keys
/// ascend this tells whether any entry stands under `key`.
pub open spec fn has_key<T>(entries: Seq<Entry<T>>, key: u64) -> bool {
    let at = rank(entries, key) as int;
    at < entries.len() && entries[at].key == key
}

/// What the entry at the rank of `key` holds, if it has that key. Where the
/// keys ascend this is what is stored under `key`, if anything.
pub open spec fn lookup<T>(entries: Seq<Entry<T>>, key: u64) -> Option<T> {
    if has_key(entries, key) {
        Some(entries[rank(entries, key) as int].value)
    } else {
        None
    }
}

/// `entries` with an entry under `key`: as they are where the entry at the
/// rank of `key` has that key, else with `value` inserted at that rank, which
/// is the place that keeps ascending keys ascending.
pub open spec fn with_key<T>(entries: Seq<Entry<T>>, key: u64, value: T) -> Seq<Entry<T>> {
    if has_key(entries, key) {
        entries
    } else {
        entries.insert(rank(entries, key) as int, Entry { key, value })
    }
}

/// Each entry of `entries` with its value replaced by the value's view.
pub open spec fn entries_view<V: View>(entries: Seq<Entry<V>>) -> Seq<Entry<V::V>> {
    Seq::new(entries.len(), |i: int| Entry { key: entries[i].key, value: entries[i].value@ })
}

/// The rank of `key` is the one position that parts the keys below `key` from
/// the others.
pub proof fn lemma_rank_is<T>(entries: Seq<Entry<T>>, key: u64, at: int)
    requires
        0 <= at <= entries.len(),
        forall|i: int| 0 <= i < at ==> entries[i].key < key,
        forall|i: int| at <= i < entries.len() ==> entries[i].key >= key,
    ensures
        rank(entries, key) == at,
    decreases entries.len(),
{
    if entries.len() > 0 {
        let front = entries.drop_last();
        if at == entries.len() {
            lemma_rank_is(front, key, at - 1);
        } else {
            lemma_rank_is(front, key, at);
        }
    }
}

/// Among ascending keys, every entry in front of the rank of `key` has a
/// smaller key and every entry from the rank on has a key that is at least
/// `key`.
pub proof fn lemma_rank_parts<T>(entries: Seq<Entry<T>>, key: u64)
    requires
        keys_ascending(entries),
    ensures
        rank(entries, key) <= entries.len(),
        forall|i: int| 0 <= i < rank(entries, key) ==> entries[i].key < key,
        forall|i: int| rank(entries, key) <= i < entries.len() ==> entries[i].key >= key,
    decreases entries.len(),
{
    if entries.len() > 0 {
        let front = entries.drop_last();
        lemma_rank_parts(front, key);
        assert forall|i: int| 0 <= i < rank(entries, key) implies entries[i].key < key by {
            if i < front.len() {
                if i >= rank(front, key) {
                    assert(entries[i].key < entries.last().key);
                } else {
                    assert(front[i].key < key);
                }
            }
        }
        assert forall|i: int| rank(entries, key) <= i < entries.len() implies entries[i].key
            >= key by {
            if i < front.len() {
                assert(front[i].key >= key);
            }
        }
    }
}

/// An entry stands under `key` exactly where some position holds that key.
pub proof fn lemma_has_key<T>(entries: Seq<Entry<T>>, key: u64)
    requires
        keys_ascending(entries),
    ensures
        has_key(entries, key) <==> exists|i: int| 0 <= i < entries.len() && entries[i].key == key,
{
    lemma_rank_parts(entries, key);
    if has_key(entries, key) {
        assert(entries[rank(entries, key) as int].key == key);
    }
    if exists|i: int| 0 <= i < entries.len() && entries[i].key == key {
        let i = choose|i: int| 0 <= i < entries.len() && entries[i].key == key;
        assert(i >= rank(entries, key));
        if i > rank(entries, key) {
            assert(entries[rank(entries, key) as int].key < entries[i].key);
        }
    }
}

/// Among ascending keys, looking up the key of an entry finds that entry.
pub proof fn lemma_lookup_at<T>(entries: Seq<Entry<T>>, at: int)
    requires
        keys_ascending(entries),
        0 <= at < entries.len(),
    ensures
        rank(entries, entries[at].key) == at,
        lookup(entries, entries[at].key) == Some(entries[at].value),
{
    assert forall|i: int| 0 <= i < at implies entries[i].key < entries[at].key by {}
    assert forall|i: int| at <= i < entries.len() implies entries[i].key >= entries[at].key by {
        if i > at {
            assert(entries[at].key < entries[i].key);
        }
    }
    lemma_rank_is(entries, entries[at].key, at);
}

/// Among ascending keys, looking up a key that no entry has finds nothing.
pub proof fn lemma_lookup_none<T>(entries: Seq<Entry<T>>, key: u64)
    requires
        keys_ascending(entries),
        forall|i: int| 0 <= i < entries.len() ==> entries[i].key != key,
    ensures
        lookup(entries, key) is None,
{
    lemma_has_key(entries, key);
}

/// Ensuring a key keeps the keys ascending, and leaves the key at its rank.
pub proof fn lemma_with_key<T>(entries: Seq<Entry<T>>, key: u64, value: T)
    requires
        keys_ascending(entries),
    ensures
        keys_ascending(with_key(entries, key, value)),
        rank(entries, key) < with_key(entries, key, value).len(),
        with_key(entries, key, value)[rank(entries, key) as int].key == key,
        rank(with_key(entries, key, value), key) == rank(entries, key),
{
    lemma_rank_parts(entries, key);
    let at = rank(entries, key) as int;
    let after = with_key(entries, key, value);
    if !has_key(entries, key) {
        assert forall|i: int, j: int| 0 <= i < j < after.len() implies after[i].key
            < after[j].key by {
            if j < at {
                assert(entries[i].key < entries[j].key);
            } else if j == at {
                assert(entries[i].key < key);
            } else if i < at {
                assert(entries[i].key < key);
                assert(entries[j - 1].key >= key);
            } else if i == at {
                assert(entries[j - 1].key >= key);
            } else {
                assert(entries[i - 1].key < entries[j - 1].key);
            }
        }
    }
    lemma_rank_is(after, key, at);
}

/// Replacing the value of one entry keeps the keys ascending.
pub proof fn lemma_set_value<T>(entries: Seq<Entry<T>>, at: int, value: T)
    requires
        keys_ascending(entries),
        0 <= at < entries.len(),
    ensures
        keys_ascending(entries.update(at, Entry { key: entries[at].key, value })),
{
    let after = entries.update(at, Entry { key: entries[at].key, value });
    assert forall|i: int, j: int| 0 <= i < j < after.len() implies after[i].key
        < after[j].key by {
        assert(entries[i].key < entries[j].key);
    }
}

/// A map from `u64` keys to values, held as a vector of entries in ascending
/// order of their keys.
#[derive(Debug, Clone, PartialEq)]
pub struct OrderedMap<V> {
    entries: Vec<Entry<V>>,
}

impl<V: View> View for OrderedMap<V> {
    type V = Seq<Entry<V::V>>;

    closed spec fn view(&self) -> Seq<Entry<V::V>> {
        entries_view(self.entries@)
    }
}

impl<V: View> OrderedMap<V> {
    /// The invariant of the map: its keys ascend strictly.
    pub open spec fn wf(&self) -> bool {
        keys_ascending(self@)
    }

    /// A map without entries.
    pub fn new() -> (map: Self)
        ensures
            map@ == Seq::<Entry<V::V>>::empty(),
            map.wf(),
    {
        let map = OrderedMap { entries: Vec::new() };
        assert(map@ =~= Seq::<Entry<V::V>>::empty());
        map
    }

    /// The number of entries.
    pub fn len(&self) -> (len: usize)
        ensures
            len == self@.len(),
    {
        self.entries.len()
    }

    /// Whether the map has no entry. Nothing is said of what the entries
    /// hold.
    pub fn is_empty(&self) -> (empty: bool)
        ensures
            empty <==> self@.len() == 0,
    {
        self.entries.len() == 0
    }

    /// The key of the entry at `index`, counted from the smallest key.
    pub fn key_at(&self, index: usize) -> (key: u64)
        requires
            index < self@.len(),
        ensures
            key == self@[index as int].key,
    {
        self.entries[index].key
    }

    /// The value of the entry at `index`, counted from the smallest key.
    pub fn value_at(&self, index: usize) -> (value: &V)
        requires
            index < self@.len(),
        ensures
            value@ == self@[index as int].value,
    {
        &self.entries[index].value
    }

    /// The value of the entry at `index`, open for mutation in place. The key
    /// stays, and so does every other entry.
    pub fn value_at_mut(&mut self, index: usize) -> (value: &mut V)
        requires
            index < old(self)@.len(),
        ensures
            value@ == old(self)@[index as int].value,
            final(self)@ == old(self)@.update(
                index as int,
                Entry { key: old(self)@[index as int].key, value: final(value)@ },
            ),
            old(self).wf() ==> final(self).wf(),
    {
        let entry = &mut self.entries[index];
        let value = &mut entry.value;
        proof {
            if old(self).wf() {
                lemma_set_value(old(self)@, index as int, final(value)@);
            }
        }
        value
    }

    /// Binary search for `key`: `Ok` with its position where it is present,
    /// `Err` with the position at which it would have to be inserted where it
    /// is not.
    pub fn search(&self, key: u64) -> (found: Result<usize, usize>)
        requires
            self.wf(),
        ensures
            found is Ok <==> has_key(self@, key),
            match found {
                Ok(at) => at == rank(self@, key),
                Err(at) => at == rank(self@, key),
            },
    {
        let mut low: usize = 0;
        let mut high: usize = self.entries.len();
        while low < high
            invariant
                self.wf(),
                low <= high <= self@.len(),
                self@.len() == self.entries@.len(),
                forall|i: int| 0 <= i < self@.len() ==> self@[i].key == self.entries@[i].key,
                forall|i: int| 0 <= i < low ==> self@[i].key < key,
                forall|i: int| high <= i < self@.len() ==> self@[i].key >= key,
            decreases high - low,
        {
            let middle: usize = low + (high - low) / 2;
            if self.entries[middle].key < key {
                assert forall|i: int| 0 <= i < middle + 1 implies self@[i].key < key by {
                    if i < middle {
                        assert(self@[i].key < self@[middle as int].key);
                    }
                }
                low = middle + 1;
            } else {
                assert forall|i: int| middle <= i < self@.len() implies self@[i].key >= key by {
                    if i > middle {
                        assert(self@[middle as int].key < self@[i].key);
                    }
                }
                high = middle;
            }
        }
        proof {
            lemma_rank_is(self@, key, low as int);
        }
        if low < self.entries.len() && self.entries[low].key == key {
            Ok(low)
        } else {
            Err(low)
        }
    }

    /// What is stored under `key`, if anything.
    pub fn get(&self, key: &u64) -> (value: Option<&V>)
        requires
            self.wf(),
        ensures
            match value {
                Some(value) => lookup(self@, *key) == Some(value@),
                None => lookup(self@, *key) is None,
            },
    {
        match self.search(*key) {
            Ok(at) => Some(&self.entries[at].value),
            Err(_) => None,
        }
    }

    /// The value under `key`, open for mutation in place. Where the map has no
    /// entry under `key` yet, one is made first, holding `value`.
    pub fn get_or_insert(&mut self, key: u64, value: V) -> (slot: &mut V)
        requires
            old(self).wf(),
        ensures
            slot@ == with_key(old(self)@, key, value@)[rank(old(self)@, key) as int].value,
            final(self)@ == with_key(old(self)@, key, value@).update(
                rank(old(self)@, key) as int,
                Entry { key, value: final(slot)@ },
            ),
            final(self).wf(),
    {
        proof {
            lemma_rank_parts(self@, key);
            lemma_with_key(self@, key, value@);
        }
        let at: usize = match self.search(key) {
            Ok(at) => at,
            Err(at) => {
                self.entries.insert(at, Entry { key, value });
                assert(self@ =~= with_key(old(self)@, key, value@));
                at
            },
        };
        let entry = &mut self.entries[at];
        let slot = &mut entry.value;
        proof {
            let base = with_key(old(self)@, key, value@);
            lemma_set_value(base, at as int, final(slot)@);
            assert(after_borrow(self)@ == base.update(
                at as int,
                Entry { key, value: final(slot)@ },
            ));
        }
        slot
    }

    /// Adds an entry whose key is above every key of the map.
    pub fn push_last(&mut self, key: u64, value: V)
        requires
            old(self).wf(),
            old(self)@.len() > 0 ==> old(self)@.last().key < key,
        ensures
            final(self)@ == old(self)@.push(Entry { key, value: value@ }),
            final(self).wf(),
    {
        self.entries.push(Entry { key, value });
        assert(self@ =~= old(self)@.push(Entry { key, value: value@ }));
        assert forall|i: int, j: int| 0 <= i < j < self@.len() implies self@[i].key
            < self@[j].key by {
            if j == self@.len() - 1 {
                assert(old(self)@[i].key <= old(self)@.last().key);
            } else {
                assert(old(self)@[i].key < old(self)@[j].key);
            }
        }
    }

    /// Takes the entry with the largest key out of the map, if there is one.
    pub fn pop_last(&mut self) -> (last: Option<Entry<V>>)
        ensures
            match last {
                Some(entry) => {
                    &&& old(self)@.len() > 0
                    &&& entry.key == old(self)@.last().key
                    &&& entry.value@ == old(self)@.last().value
                    &&& final(self)@ == old(self)@.drop_last()
                },
                None => old(self)@.len() == 0 && final(self)@ == old(self)@,
            },
            old(self).wf() ==> final(self).wf(),
    {
        let last: Option<Entry<V>> = self.entries.pop();
        assert(last is Some ==> self@ =~= old(self)@.drop_last());
        last
    }

    /// Takes every entry out of the map, in ascending order of the keys, and
    /// leaves the map empty.
    pub fn take_entries(&mut self) -> (entries: Vec<Entry<V>>)
        ensures
            entries_view(entries@) == old(self)@,
            final(self)@ == Seq::<Entry<V::V>>::empty(),
            final(self).wf(),
    {
        let mut entries: Vec<Entry<V>> = Vec::new();
        core::mem::swap(&mut self.entries, &mut entries);
        assert(self@ =~= Seq::<Entry<V::V>>::empty());
        entries
    }
}

} // verus!
