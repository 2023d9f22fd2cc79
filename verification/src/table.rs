use vstd::prelude::*;

verus! {

/// The map that pairs each key with the value at the same position. Where a
/// key occurs more than once, one of its positions is meant; a [`Table`] never
/// holds such keys.
pub open spec fn map_of<V>(keys: Seq<Seq<char>>, values: Seq<V>) -> Map<Seq<char>, V> {
    Map::new(|k: Seq<char>| keys.contains(k), |k: Seq<char>| values[keys.index_of(k)])
}

/// Looking a key up by its position: with distinct keys, the key at
/// position `i` is mapped to the value at position `i`.
pub proof fn lemma_map_of_index<V>(keys: Seq<Seq<char>>, values: Seq<V>, i: int)
    requires
        keys.no_duplicates(),
        0 <= i < keys.len(),
    ensures
        map_of(keys, values).dom().contains(keys[i]),
        map_of(keys, values)[keys[i]] == values[i],
{
    assert(keys.contains(keys[i]));
    let j = keys.index_of(keys[i]);
    assert(0 <= j < keys.len() && keys[j] == keys[i]);
}

/// Appending a fresh key with its value inserts the pair into the map.
pub proof fn lemma_map_of_push<V>(keys: Seq<Seq<char>>, values: Seq<V>, key: Seq<char>, value: V)
    requires
        keys.no_duplicates(),
        keys.len() == values.len(),
        !keys.contains(key),
    ensures
        keys.push(key).no_duplicates(),
        map_of(keys.push(key), values.push(value)) == map_of(keys, values).insert(key, value),
{
    let keys2 = keys.push(key);
    let values2 = values.push(value);
    assert(keys2.no_duplicates()) by {
        assert forall|i: int, j: int|
            0 <= i < keys2.len() && 0 <= j < keys2.len() && i != j implies keys2[i] != keys2[j] by {
            if i < keys.len() {
                assert(keys.contains(keys[i]));
            }
            if j < keys.len() {
                assert(keys.contains(keys[j]));
            }
        }
    }
    assert forall|k: Seq<char>| keys2.contains(k) <==> (k == key || keys.contains(k)) by {
        if keys2.contains(k) {
            let i = choose|i: int| 0 <= i < keys2.len() && keys2[i] == k;
            if i < keys.len() {
                assert(keys[i] == k);
            }
        }
        if keys.contains(k) {
            let i = choose|i: int| 0 <= i < keys.len() && keys[i] == k;
            assert(keys2[i] == k);
        }
        assert(keys2[keys.len() as int] == key);
    }
    assert forall|k: Seq<char>| keys2.contains(k) implies #[trigger] map_of(keys2, values2)[k]
        == map_of(keys, values).insert(key, value)[k] by {
        let i = keys2.index_of(k);
        lemma_map_of_index(keys2, values2, i);
        if i < keys.len() {
            assert(keys[i] == k);
            lemma_map_of_index(keys, values, i);
        }
    }
    assert(map_of(keys2, values2) =~= map_of(keys, values).insert(key, value));
}

/// Replacing the value at one position replaces what its key is mapped to.
pub proof fn lemma_map_of_update<V>(keys: Seq<Seq<char>>, values: Seq<V>, i: int, value: V)
    requires
        keys.no_duplicates(),
        keys.len() == values.len(),
        0 <= i < keys.len(),
    ensures
        map_of(keys, values.update(i, value)) == map_of(keys, values).insert(keys[i], value),
{
    let values2 = values.update(i, value);
    assert(keys.contains(keys[i]));
    assert forall|k: Seq<char>| keys.contains(k) implies #[trigger] map_of(keys, values2)[k]
        == map_of(keys, values).insert(keys[i], value)[k] by {
        let j = keys.index_of(k);
        lemma_map_of_index(keys, values2, j);
        lemma_map_of_index(keys, values, j);
    }
    assert(map_of(keys, values2) =~= map_of(keys, values).insert(keys[i], value));
}

/// Deleting one position deletes its key from the map.
pub proof fn lemma_map_of_remove<V>(keys: Seq<Seq<char>>, values: Seq<V>, i: int)
    requires
        keys.no_duplicates(),
        keys.len() == values.len(),
        0 <= i < keys.len(),
    ensures
        keys.remove(i).no_duplicates(),
        !keys.remove(i).contains(keys[i]),
        map_of(keys.remove(i), values.remove(i)) == map_of(keys, values).remove(keys[i]),
{
    let keys2 = keys.remove(i);
    let values2 = values.remove(i);
    assert forall|a: int| 0 <= a < keys2.len() implies keys2[a] == keys[if a < i { a } else { a + 1 }]
        && values2[a] == values[if a < i { a } else { a + 1 }] by {}
    assert(keys2.no_duplicates());
    assert forall|k: Seq<char>| keys2.contains(k) <==> (k != keys[i] && keys.contains(k)) by {
        if keys2.contains(k) {
            let a = choose|a: int| 0 <= a < keys2.len() && keys2[a] == k;
            let b = if a < i { a } else { a + 1 };
            assert(keys[b] == k);
        }
        if k != keys[i] && keys.contains(k) {
            let b = choose|b: int| 0 <= b < keys.len() && keys[b] == k;
            let a = if b < i { b } else { b - 1 };
            assert(keys2[a] == k);
        }
    }
    assert forall|k: Seq<char>| keys2.contains(k) implies #[trigger] map_of(keys2, values2)[k]
        == map_of(keys, values).remove(keys[i])[k] by {
        let a = keys2.index_of(k);
        let b = if a < i { a } else { a + 1 };
        lemma_map_of_index(keys2, values2, a);
        lemma_map_of_index(keys, values, b);
    }
    assert(map_of(keys2, values2) =~= map_of(keys, values).remove(keys[i]));
}

/// The map that a list of pairs stands for: each key is mapped to the value
/// of the last pair that names it.
pub open spec fn pairs_map<V>(pairs: Seq<(String, V)>) -> Map<Seq<char>, V>
    decreases pairs.len(),
{
    if pairs.len() == 0 {
        Map::empty()
    } else {
        pairs_map(pairs.drop_last()).insert(pairs.last().0@, pairs.last().1)
    }
}

/// The keys of a list of pairs, each once, in the order in which they first
/// occur.
pub open spec fn pairs_keys<V>(pairs: Seq<(String, V)>) -> Seq<Seq<char>>
    decreases pairs.len(),
{
    if pairs.len() == 0 {
        Seq::empty()
    } else if pairs_keys(pairs.drop_last()).contains(pairs.last().0@) {
        pairs_keys(pairs.drop_last())
    } else {
        pairs_keys(pairs.drop_last()).push(pairs.last().0@)
    }
}

/// The keys of a list of pairs are the keys of the map it stands for.
pub proof fn lemma_pairs_keys<V>(pairs: Seq<(String, V)>)
    ensures
        forall|k: Seq<char>| #[trigger] pairs_keys(pairs).contains(k) <==> pairs_map(pairs).dom().contains(k),
    decreases pairs.len(),
{
    if pairs.len() > 0 {
        let front = pairs.drop_last();
        let key = pairs.last().0@;
        lemma_pairs_keys(front);
        assert forall|k: Seq<char>| #[trigger]
            pairs_keys(pairs).contains(k) <==> pairs_map(pairs).dom().contains(k) by {
            assert(pairs_keys(front).contains(k) <==> pairs_map(front).dom().contains(k));
            if !pairs_keys(front).contains(key) {
                let keys = pairs_keys(front).push(key);
                if keys.contains(k) {
                    let i = choose|i: int| 0 <= i < keys.len() && keys[i] == k;
                    if i < pairs_keys(front).len() {
                        assert(pairs_keys(front)[i] == k);
                    }
                }
                if pairs_keys(front).contains(k) {
                    let i = choose|i: int| 0 <= i < pairs_keys(front).len() && pairs_keys(front)[i] == k;
                    assert(keys[i] == k);
                }
                assert(keys[keys.len() - 1] == key);
            }
        }
    }
}

/// Pairs with distinct keys stand for the map that pairs each key with its
/// value, and their keys come in the order of the pairs.
pub proof fn lemma_pairs_of_distinct_keys<V>(pairs: Seq<(String, V)>, keys: Seq<Seq<char>>)
    requires
        keys.no_duplicates(),
        pairs.len() == keys.len(),
        forall|k: int| 0 <= k < pairs.len() ==> (#[trigger] pairs[k]).0@ == keys[k],
    ensures
        pairs_keys(pairs) == keys,
        forall|key: Seq<char>| #[trigger] pairs_map(pairs).dom().contains(key) <==> keys.contains(key),
        forall|k: int| 0 <= k < pairs.len() ==> pairs_map(pairs)[#[trigger] keys[k]] == pairs[k].1,
    decreases pairs.len(),
{
    if pairs.len() == 0 {
        assert(keys =~= Seq::<Seq<char>>::empty());
    } else {
        let n = pairs.len() - 1;
        let front = pairs.drop_last();
        let front_keys = keys.drop_last();
        assert forall|k: int| 0 <= k < front.len() implies (#[trigger] front[k]).0@
            == front_keys[k] by {
            assert(front[k] == pairs[k]);
        }
        lemma_pairs_of_distinct_keys(front, front_keys);
        assert(pairs.last() == pairs[n]);
        if front_keys.contains(keys[n]) {
            let i = choose|i: int| 0 <= i < front_keys.len() && front_keys[i] == keys[n];
            assert(keys[i] == keys[n]);
        }
        assert(front_keys.push(keys[n]) =~= keys);
        assert forall|key: Seq<char>| #[trigger]
            pairs_map(pairs).dom().contains(key) <==> keys.contains(key) by {
            assert(pairs_map(front).dom().contains(key) <==> front_keys.contains(key));
            if front_keys.contains(key) {
                let i = choose|i: int| 0 <= i < front_keys.len() && front_keys[i] == key;
                assert(keys[i] == key);
            }
            if keys.contains(key) {
                let i = choose|i: int| 0 <= i < keys.len() && keys[i] == key;
                if i < n {
                    assert(front_keys[i] == key);
                }
            }
            assert(keys[n] == pairs[n].0@);
        }
        assert forall|k: int| 0 <= k < pairs.len() implies pairs_map(pairs)[#[trigger] keys[k]]
            == pairs[k].1 by {
            if k < n {
                assert(front_keys[k] == keys[k]);
                assert(pairs_map(front)[front_keys[k]] == front[k].1);
            }
        }
    }
}

/// A map from strings to values that remembers the order in which its keys
/// were inserted. Lookup walks the keys in that order.
pub struct Table<V> {
    names: Vec<String>,
    values: Vec<V>,
}

impl<V> View for Table<V> {
    type V = Map<Seq<char>, V>;

    open spec fn view(&self) -> Map<Seq<char>, V> {
        map_of(self.keys(), self.values())
    }
}

impl<V> Table<V> {
    /// The keys in insertion order.
    pub closed spec fn keys(&self) -> Seq<Seq<char>> {
        self.names.deep_view()
    }

    /// The values, each at the position of its key.
    pub closed spec fn values(&self) -> Seq<V> {
        self.values@
    }

    /// No key occurs twice, and every key has its value.
    #[verifier::type_invariant]
    pub open spec fn valid(&self) -> bool {
        &&& self.keys().no_duplicates()
        &&& self.keys().len() == self.values().len()
    }

    /// An empty table.
    pub fn new() -> (table: Self)
        ensures
            table.keys() == Seq::<Seq<char>>::empty(),
            table.values() == Seq::<V>::empty(),
            table@ == Map::<Seq<char>, V>::empty(),
    {
        let table = Table { names: Vec::new(), values: Vec::new() };
        assert(table.keys() =~= Seq::<Seq<char>>::empty());
        assert(table@ =~= Map::<Seq<char>, V>::empty());
        table
    }

    /// The number of entries.
    pub fn len(&self) -> (n: usize)
        ensures
            n == self.keys().len(),
            n == self.values().len(),
    {
        proof {
            use_type_invariant(self);
        }
        self.names.len()
    }

    /// The position of `key`, if the table holds it.
    pub fn position(&self, key: &String) -> (found: Option<usize>)
        ensures
            found is Some <==> self@.dom().contains(key@),
            found matches Some(i) ==> i < self.keys().len() && self.keys()[i as int] == key@
                && self@[key@] == self.values()[i as int],
    {
        proof {
            use_type_invariant(self);
        }
        let mut i: usize = 0;
        while i < self.names.len()
            invariant
                self.valid(),
                i <= self.names.len(),
                forall|j: int| 0 <= j < i ==> self.keys()[j] != key@,
            decreases self.names.len() - i,
        {
            if self.names[i] == *key {
                proof {
                    lemma_map_of_index(self.keys(), self.values(), i as int);
                }
                return Some(i);
            }
            i += 1;
        }
        None
    }

    /// The key at position `i`.
    pub fn key(&self, i: usize) -> (key: &String)
        requires
            i < self.keys().len(),
        ensures
            key@ == self.keys()[i as int],
    {
        &self.names[i]
    }

    /// The value at position `i`.
    pub fn value(&self, i: usize) -> (value: &V)
        requires
            i < self.keys().len(),
        ensures
            *value == self.values()[i as int],
    {
        proof {
            use_type_invariant(self);
        }
        &self.values[i]
    }

    /// The value at position `i`, to be changed in place. Keys and the other
    /// values stay as they are.
    pub fn value_mut(&mut self, i: usize) -> (value: &mut V)
        requires
            i < old(self).keys().len(),
        ensures
            *value == old(self).values()[i as int],
            final(self).keys() == old(self).keys(),
            final(self).values() == old(self).values().update(i as int, *final(value)),
            final(self)@ == old(self)@.insert(old(self).keys()[i as int], *final(value)),
    {
        proof {
            use_type_invariant(&*self);
            assert forall|v: V|
                map_of(self.keys(), #[trigger] self.values().update(i as int, v)) == map_of(
                    self.keys(),
                    self.values(),
                ).insert(self.keys()[i as int], v) by {
                lemma_map_of_update(self.keys(), self.values(), i as int, v);
            }
        }
        &mut self.values[i]
    }

    /// Maps `key` to `value`. A key that the table holds keeps its position
    /// and hands back the value it had; a new key goes to the end.
    pub fn insert(&mut self, key: String, value: V) -> (previous: Option<V>)
        ensures
            final(self)@ == old(self)@.insert(key@, value),
            previous == if old(self)@.dom().contains(key@) {
                Some(old(self)@[key@])
            } else {
                None::<V>
            },
            old(self)@.dom().contains(key@) ==> final(self).keys() == old(self).keys()
                && final(self).values() == old(self).values().update(
                old(self).keys().index_of(key@),
                value,
            ),
            !old(self)@.dom().contains(key@) ==> final(self).keys() == old(self).keys().push(key@)
                && final(self).values() == old(self).values().push(value),
    {
        proof {
            use_type_invariant(&*self);
        }
        match self.position(&key) {
            Some(i) => {
                let mut held = value;
                let slot = self.value_mut(i);
                core::mem::swap(slot, &mut held);
                Some(held)
            },
            None => {
                let mut taken = Table::new();
                core::mem::swap(self, &mut taken);
                let Table { mut names, mut values } = taken;
                proof {
                    lemma_map_of_push(names.deep_view(), values@, key@, value);
                }
                let ghost before = names.deep_view();
                names.push(key);
                values.push(value);
                assert(names.deep_view() =~= before.push(key@));
                *self = Table { names, values };
                None
            },
        }
    }

    /// Deletes `key` and hands back the value it was mapped to. The other
    /// entries keep their order.
    pub fn remove(&mut self, key: &String) -> (previous: Option<V>)
        ensures
            final(self)@ == old(self)@.remove(key@),
            previous == if old(self)@.dom().contains(key@) {
                Some(old(self)@[key@])
            } else {
                None::<V>
            },
            old(self)@.dom().contains(key@) ==> final(self).keys() == old(self).keys().remove(
                old(self).keys().index_of(key@),
            ) && final(self).values() == old(self).values().remove(
                old(self).keys().index_of(key@),
            ),
            !old(self)@.dom().contains(key@) ==> final(self).keys() == old(self).keys()
                && final(self).values() == old(self).values(),
    {
        proof {
            use_type_invariant(&*self);
        }
        match self.position(key) {
            Some(i) => {
                let mut taken = Table::new();
                core::mem::swap(self, &mut taken);
                let Table { mut names, mut values } = taken;
                let ghost before = names.deep_view();
                proof {
                    lemma_map_of_remove(before, values@, i as int);
                    assert(before.index_of(key@) == i as int);
                }
                names.remove(i);
                let value = values.remove(i);
                assert(names.deep_view() =~= before.remove(i as int));
                *self = Table { names, values };
                Some(value)
            },
            None => {
                assert(self@.remove(key@) =~= self@);
                None
            },
        }
    }

    /// The table that a list of pairs stands for. Where a key occurs more
    /// than once, its last value counts, at the place of its first
    /// occurrence.
    pub fn from_pairs(pairs: Vec<(String, V)>) -> (table: Self)
        ensures
            table@ == pairs_map(pairs@),
            table.keys() == pairs_keys(pairs@),
    {
        let mut table = Table::new();
        assert(pairs@.take(0) =~= Seq::<(String, V)>::empty());
        for pair in it: pairs
            invariant
                it.seq() == pairs@,
                table@ == pairs_map(pairs@.take(it.index() as int)),
                table.keys() == pairs_keys(pairs@.take(it.index() as int)),
        {
            let ghost i = it.index() as int;
            proof {
                assert(pairs@.take(i + 1).drop_last() =~= pairs@.take(i));
                lemma_pairs_keys(pairs@.take(i));
                assert(table.keys().contains(pair.0@) <==> table@.dom().contains(pair.0@));
            }
            let (key, value) = pair;
            table.insert(key, value);
        }
        assert(pairs@.take(pairs@.len() as int) =~= pairs@);
        table
    }
}

impl<V: Clone> Clone for Table<V> {
    /// A table with the same keys in the same order, each with a clone of
    /// its value.
    fn clone(&self) -> (res: Self)
        ensures
            res.keys() == self.keys(),
            res.values().len() == self.values().len(),
            forall|i: int|
                0 <= i < self.values().len() ==> cloned::<V>(
                    #[trigger] self.values()[i],
                    res.values()[i],
                ),
    {
        proof {
            use_type_invariant(self);
        }
        let names = self.names.clone();
        let values = self.values.clone();
        assert(names.deep_view() =~= self.names.deep_view());
        Table { names, values }
    }
}

} // verus!
