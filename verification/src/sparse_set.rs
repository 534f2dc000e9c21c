//! A sparse set: a partial map from `usize` keys to values with constant-time
//! lookup and a dense, ascending list of the keys that are present.
use vstd::prelude::*;

verus! {

/// A partial map from `usize` keys to values. `sparse` finds the position of
/// a key in the dense vectors, which list the keys that are present, in
/// ascending order, and their values.
pub struct SparseSet<V> {
    /// For each key below `sparse.len()`, its position in the dense vectors.
    sparse: Vec<Option<usize>>,
    dense_keys: Vec<usize>,
    dense_values: Vec<V>,
}

/// `keys` ascends strictly.
pub open spec fn strictly_ascending(keys: Seq<usize>) -> bool {
    forall|i: int, j: int| 0 <= i < j < keys.len() ==> keys[i] < keys[j]
}

/// Every key before `pos` is below `key`, every key from `pos` on above it.
pub open spec fn splits_at(keys: Seq<usize>, pos: int, key: usize) -> bool {
    &&& 0 <= pos <= keys.len()
    &&& forall|i: int| 0 <= i < pos ==> keys[i] < key
    &&& forall|i: int| pos <= i < keys.len() ==> keys[i] > key
}

/// The map that parallel sequences of keys and values stand for.
pub open spec fn map_of<V>(keys: Seq<usize>, values: Seq<V>) -> Map<usize, V> {
    Map::new(|k: usize| keys.contains(k), |k: usize| values[keys.index_of(k)])
}

/// The slot of key `k` while the positions `pos + 1 .. q` of the dense
/// vectors have been written back after an insertion of `key` at `pos`.
spec fn shifted_slot(slot: Option<usize>, k: int, key: usize, pos: usize, q: usize) -> Option<
    usize,
> {
    if k == key {
        Some(pos)
    } else {
        match slot {
            Some(p) => if pos <= p < q - 1 {
                Some((p + 1) as usize)
            } else {
                Some(p)
            },
            None => None,
        }
    }
}

/// Keys that ascend strictly below a bound are at most as many as the bound.
pub proof fn lemma_ascending_count(keys: Seq<usize>, bound: int)
    requires
        0 <= bound,
        strictly_ascending(keys),
        forall|i: int| 0 <= i < keys.len() ==> (#[trigger] keys[i]) < bound,
    ensures
        keys.len() <= bound,
    decreases keys.len(),
{
    if keys.len() > 0 {
        let shorter = keys.drop_last();
        let top = keys[keys.len() - 1];
        assert forall|i: int| 0 <= i < shorter.len() implies (#[trigger] shorter[i]) < top by {
            assert(keys[i] < keys[keys.len() - 1]);
        }
        assert(strictly_ascending(shorter)) by {
            assert forall|i: int, j: int| 0 <= i < j < shorter.len() implies shorter[i] < shorter[j] by {
                assert(keys[i] < keys[j]);
            }
        }
        lemma_ascending_count(shorter, top as int);
    }
}

/// A key that is entered between the keys below it and those above it
/// leaves the keys in ascending order.
proof fn lemma_insert_ascending(keys: Seq<usize>, pos: int, key: usize)
    requires
        strictly_ascending(keys),
        splits_at(keys, pos, key),
    ensures
        strictly_ascending(keys.insert(pos, key)),
{
    let after = keys.insert(pos, key);
    assert forall|i: int, j: int| 0 <= i < j < after.len() implies after[i] < after[j] by {
        if j < pos {
            assert(after[i] == keys[i] && after[j] == keys[j]);
        } else if j == pos {
            assert(after[i] == keys[i]);
        } else if i < pos {
            assert(after[i] == keys[i] && after[j] == keys[j - 1]);
        } else if i == pos {
            assert(after[j] == keys[j - 1]);
        } else {
            assert(after[i] == keys[i - 1] && after[j] == keys[j - 1]);
        }
    }
}

/// Among ascending keys each key is found at its own position.
proof fn lemma_index_of_ascending(keys: Seq<usize>, i: int)
    requires
        strictly_ascending(keys),
        0 <= i < keys.len(),
    ensures
        keys.contains(keys[i]),
        keys.index_of(keys[i]) == i,
{
    assert(keys.contains(keys[i]));
    let j = keys.index_of(keys[i]);
    assert(0 <= j < keys.len() && keys[j] == keys[i]);
    if j < i {
        assert(keys[j] < keys[i]);
    }
    if i < j {
        assert(keys[i] < keys[j]);
    }
}

/// A new value at the position of a key is a new value under that key.
proof fn lemma_map_of_update<V>(keys: Seq<usize>, values: Seq<V>, p: int, value: V)
    requires
        strictly_ascending(keys),
        keys.len() == values.len(),
        0 <= p < keys.len(),
    ensures
        map_of(keys, values.update(p, value)) == map_of(keys, values).insert(keys[p], value),
{
    let after = map_of(keys, values.update(p, value));
    let expected = map_of(keys, values).insert(keys[p], value);
    lemma_index_of_ascending(keys, p);
    assert forall|k: usize| after.contains_key(k) implies #[trigger] after[k] == expected[k] by {
        let i = keys.index_of(k);
        assert(0 <= i < keys.len() && keys[i] == k);
    }
    assert(after =~= expected);
}

/// A key and a value that are entered at the same position, the key in
/// its place among the keys, are a new entry of the map.
proof fn lemma_map_of_insert<V>(keys: Seq<usize>, values: Seq<V>, pos: int, key: usize, value: V)
    requires
        strictly_ascending(keys),
        keys.len() == values.len(),
        splits_at(keys, pos, key),
    ensures
        map_of(keys.insert(pos, key), values.insert(pos, value)) == map_of(keys, values).insert(
            key,
            value,
        ),
{
    let keys2 = keys.insert(pos, key);
    let values2 = values.insert(pos, value);
    let after = map_of(keys2, values2);
    let expected = map_of(keys, values).insert(key, value);
    lemma_insert_ascending(keys, pos, key);
    assert forall|k: usize| after.contains_key(k) <==> expected.contains_key(k) by {
        if keys2.contains(k) {
            let i = keys2.index_of(k);
            assert(0 <= i < keys2.len() && keys2[i] == k);
            if i < pos {
                assert(keys[i] == k);
            } else if i > pos {
                assert(keys[i - 1] == k);
            }
        }
        if keys.contains(k) {
            let i = keys.index_of(k);
            assert(0 <= i < keys.len() && keys[i] == k);
            if i < pos {
                assert(keys2[i] == k);
            } else {
                assert(keys2[i + 1] == k);
            }
        }
        if k == key {
            assert(keys2[pos] == k);
        }
    }
    assert forall|k: usize| after.contains_key(k) implies #[trigger] after[k] == expected[k] by {
        let i = keys2.index_of(k);
        assert(0 <= i < keys2.len() && keys2[i] == k);
        lemma_index_of_ascending(keys2, i);
        if i < pos {
            assert(keys[i] == k);
            lemma_index_of_ascending(keys, i);
        } else if i > pos {
            assert(keys[i - 1] == k);
            lemma_index_of_ascending(keys, i - 1);
        }
    }
    assert(after =~= expected);
}

impl<V> SparseSet<V> {
    /// The keys that are present, in dense order.
    pub closed spec fn keys(&self) -> Seq<usize> {
        self.dense_keys@
    }

    /// The values, parallel to `keys`.
    pub closed spec fn values(&self) -> Seq<V> {
        self.dense_values@
    }

    /// The partial map that the set stands for.
    pub open spec fn view(&self) -> Map<usize, V> {
        map_of(self.keys(), self.values())
    }

    /// Keys and values are parallel, the keys ascend, and `sparse` and the
    /// dense keys point at each other.
    pub closed spec fn wf(&self) -> bool {
        &&& self.dense_keys@.len() == self.dense_values@.len()
        &&& strictly_ascending(self.dense_keys@)
        &&& forall|k: int|
            0 <= k < self.sparse@.len() ==> match #[trigger] self.sparse@[k] {
                Some(p) => p < self.dense_keys@.len() && self.dense_keys@[p as int] == k,
                None => true,
            }
        &&& forall|p: int|
            0 <= p < self.dense_keys@.len() ==> {
                &&& (#[trigger] self.dense_keys@[p]) < self.sparse@.len()
                &&& self.sparse@[self.dense_keys@[p] as int] == Some(p as usize)
            }
    }

    /// What well-formedness says of the dense order: keys and values are
    /// parallel and the keys ascend strictly, so each key has one position.
    pub proof fn lemma_dense_order(&self)
        requires
            self.wf(),
        ensures
            self.keys().len() == self.values().len(),
            strictly_ascending(self.keys()),
            forall|i: int|
                0 <= i < self.keys().len() ==> self@.contains_key(#[trigger] self.keys()[i])
                    && self@[self.keys()[i]] == self.values()[i],
    {
        assert forall|i: int| 0 <= i < self.keys().len() implies self@.contains_key(
            #[trigger] self.keys()[i],
        ) && self@[self.keys()[i]] == self.values()[i] by {
            let k = self.keys()[i];
            assert(self.keys().contains(k));
            let j = self.keys().index_of(k);
            assert(0 <= j < self.keys().len() && self.keys()[j] == k);
            if j < i {
                assert(self.keys()[j] < self.keys()[i]);
            }
            if i < j {
                assert(self.keys()[i] < self.keys()[j]);
            }
        }
    }

    /// A set without keys.
    pub fn new() -> (set: Self)
        ensures
            set.wf(),
            set.keys() == Seq::<usize>::empty(),
            set@ == Map::<usize, V>::empty(),
    {
        let set = SparseSet { sparse: Vec::new(), dense_keys: Vec::new(), dense_values: Vec::new() };
        assert(set@ =~= Map::<usize, V>::empty());
        set
    }

    /// Number of keys present.
    pub fn len(&self) -> (n: usize)
        ensures
            n == self.keys().len(),
    {
        self.dense_keys.len()
    }

    /// The value stored under `key`, if any.
    pub fn get(&self, key: usize) -> (value: Option<&V>)
        requires
            self.wf(),
        ensures
            match value {
                Some(v) => self@.contains_key(key) && *v == self@[key],
                None => !self@.contains_key(key),
            },
    {
        if key < self.sparse.len() {
            match self.sparse[key] {
                Some(p) => {
                    proof {
                        self.lemma_dense_order();
                        assert(self.keys()[p as int] == key);
                    }
                    Some(&self.dense_values[p])
                },
                None => {
                    proof {
                        if self.keys().contains(key) {
                            let p = self.keys().index_of(key);
                            assert(self.dense_keys@[p] == key);
                        }
                    }
                    None
                },
            }
        } else {
            proof {
                if self.keys().contains(key) {
                    let p = self.keys().index_of(key);
                    assert(self.dense_keys@[p] == key);
                }
            }
            None
        }
    }

    /// Lengthens `sparse` until it has a slot for `key`.
    fn reserve_slot(&mut self, key: usize)
        requires
            old(self).wf(),
            key < usize::MAX,
        ensures
            final(self).wf(),
            final(self).dense_keys == old(self).dense_keys,
            final(self).dense_values == old(self).dense_values,
            key < final(self).sparse@.len(),
    {
        while self.sparse.len() <= key
            invariant
                self.wf(),
                self.dense_keys == old(self).dense_keys,
                self.dense_values == old(self).dense_values,
                key < usize::MAX,
            decreases key + 1 - self.sparse.len(),
        {
            self.sparse.push(None);
        }
    }

    /// The number of keys below `key`, for a key that is absent.
    fn rank_of_absent(&self, key: usize) -> (pos: usize)
        requires
            self.wf(),
            !self.keys().contains(key),
        ensures
            splits_at(self.keys(), pos as int, key),
    {
        let mut pos: usize = self.dense_keys.len();
        while pos > 0 && self.dense_keys[pos - 1] > key
            invariant
                pos <= self.dense_keys.len(),
                forall|i: int| pos <= i < self.dense_keys@.len() ==> self.dense_keys@[i] > key,
            decreases pos,
        {
            pos -= 1;
        }
        proof {
            if pos > 0 {
                assert(self.keys().contains(self.dense_keys@[pos - 1]));
                assert forall|i: int| 0 <= i < pos implies self.dense_keys@[i] < key by {
                    if i < pos - 1 {
                        assert(self.dense_keys@[i] < self.dense_keys@[pos - 1]);
                    }
                }
            }
        }
        pos
    }

    /// Stores `value` under `key`, in place of the value that `key` had, if
    /// any. The keys stay in ascending order: a key above all keys present
    /// goes to the end of the dense vectors, any other new key to its place
    /// among them.
    pub fn insert(&mut self, key: usize, value: V)
        requires
            old(self).wf(),
            key < usize::MAX,
        ensures
            final(self).wf(),
            final(self)@ == old(self)@.insert(key, value),
    {
        self.reserve_slot(key);
        match self.sparse[key] {
            Some(p) => {
                self.dense_values[p] = value;
                proof {
                    lemma_map_of_update(old(self).keys(), old(self).values(), p as int, value);
                }
            },
            None => {
                proof {
                    if self.dense_keys@.contains(key) {
                        let i = self.dense_keys@.index_of(key);
                        assert(self.dense_keys@[i] == key);
                    }
                }
                let pos = self.rank_of_absent(key);
                let ghost before = *self;
                self.dense_keys.insert(pos, key);
                self.dense_values.insert(pos, value);
                self.sparse[key] = Some(pos);
                proof {
                    lemma_insert_ascending(before.dense_keys@, pos as int, key);
                }
                assert(pos < self.dense_keys.len());
                let mut q: usize = pos + 1;
                while q < self.dense_keys.len()
                    invariant
                        pos < q <= self.dense_keys.len(),
                        pos <= before.dense_keys@.len(),
                        self.dense_keys@ == before.dense_keys@.insert(pos as int, key),
                        self.dense_values@ == before.dense_values@.insert(pos as int, value),
                        self.sparse@.len() == before.sparse@.len(),
                        before.wf(),
                        key < before.sparse@.len(),
                        before.sparse@[key as int] is None,
                        forall|k: int|
                            0 <= k < self.sparse@.len() ==> (#[trigger] self.sparse@[k])
                                == shifted_slot(before.sparse@[k], k, key, pos, q),
                    decreases self.dense_keys.len() - q,
                {
                    let k = self.dense_keys[q];
                    assert(k == before.dense_keys@[q - 1]);
                    assert(before.sparse@[k as int] == Some((q - 1) as usize));
                    let ghost prior = self.sparse@;
                    self.sparse[k] = Some(q);
                    q += 1;
                    assert forall|j: int| 0 <= j < self.sparse@.len() implies (
                    #[trigger] self.sparse@[j]) == shifted_slot(before.sparse@[j], j, key, pos, q) by {
                        assert(prior[j] == shifted_slot(before.sparse@[j], j, key, pos, (q - 1) as usize));
                        if j != k {
                            match before.sparse@[j] {
                                Some(p) => {
                                    assert(before.dense_keys@[p as int] == j);
                                },
                                None => {},
                            }
                        }
                    }
                }
                proof {
                    assert forall|k: int| 0 <= k < self.sparse@.len()
                        implies match #[trigger] self.sparse@[k] {
                        Some(p) => p < self.dense_keys@.len() && self.dense_keys@[p as int] == k,
                        None => true,
                    } by {
                        assert(self.sparse@[k] == shifted_slot(before.sparse@[k], k, key, pos, q));
                        if k != key {
                            match before.sparse@[k] {
                                Some(p) => {
                                    assert(before.dense_keys@[p as int] == k);
                                },
                                None => {},
                            }
                        }
                    }
                    assert forall|p: int| 0 <= p < self.dense_keys@.len() implies {
                        &&& (#[trigger] self.dense_keys@[p]) < self.sparse@.len()
                        &&& self.sparse@[self.dense_keys@[p] as int] == Some(p as usize)
                    } by {
                        if p < pos {
                            assert(self.dense_keys@[p] == before.dense_keys@[p]);
                            let k = before.dense_keys@[p];
                            assert(before.sparse@[k as int] == Some(p as usize));
                            assert(self.sparse@[k as int]
                                == shifted_slot(before.sparse@[k as int], k as int, key, pos, q));
                        } else if p > pos {
                            assert(self.dense_keys@[p] == before.dense_keys@[p - 1]);
                            let k = before.dense_keys@[p - 1];
                            assert(before.sparse@[k as int] == Some((p - 1) as usize));
                            assert(self.sparse@[k as int]
                                == shifted_slot(before.sparse@[k as int], k as int, key, pos, q));
                        } else {
                            assert(self.sparse@[key as int]
                                == shifted_slot(before.sparse@[key as int], key as int, key, pos, q));
                        }
                    }
                    lemma_map_of_insert(before.dense_keys@, before.dense_values@, pos as int, key, value);
                }
            },
        }
    }

    /// The keys that are present, in ascending order, each with its value.
    pub fn ordered_keys_and_values(&self) -> (pairs: Vec<(usize, &V)>)
        requires
            self.wf(),
        ensures
            pairs@.len() == self.keys().len(),
            forall|i: int|
                0 <= i < pairs@.len() ==> (#[trigger] pairs@[i]).0 == self.keys()[i] && *pairs@[i].1
                    == self.values()[i],
            strictly_ascending(self.keys()),
    {
        let mut pairs: Vec<(usize, &V)> = Vec::new();
        let mut i: usize = 0;
        while i < self.dense_keys.len()
            invariant
                self.wf(),
                i <= self.dense_keys@.len(),
                pairs@.len() == i,
                forall|j: int|
                    0 <= j < i ==> (#[trigger] pairs@[j]).0 == self.keys()[j] && *pairs@[j].1
                        == self.values()[j],
            decreases self.dense_keys@.len() - i,
        {
            pairs.push((self.dense_keys[i], &self.dense_values[i]));
            i += 1;
        }
        pairs
    }

    /// The `position`-th smallest key.
    pub fn key_at(&self, position: usize) -> (key: usize)
        requires
            position < self.keys().len(),
        ensures
            key == self.keys()[position as int],
    {
        self.dense_keys[position]
    }

    /// The value of the `position`-th smallest key.
    pub fn value_at(&self, position: usize) -> (value: &V)
        requires
            self.wf(),
            position < self.keys().len(),
        ensures
            *value == self.values()[position as int],
    {
        &self.dense_values[position]
    }
}

} // verus!
