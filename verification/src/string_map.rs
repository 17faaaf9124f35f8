//! A map from strings to values that keeps its entries in the order in which
//! their keys were first inserted.

use vstd::prelude::*;

verus! {

/// The map that a sequence of key-value pairs stands for: each pair is
/// inserted in turn, so that of two pairs with one key the later one stays.
pub open spec fn map_of<T>(pairs: Seq<(Seq<char>, T)>) -> Map<Seq<char>, T>
    decreases pairs.len(),
{
    if pairs.len() == 0 {
        Map::empty()
    } else {
        map_of(pairs.drop_last()).insert(pairs.last().0, pairs.last().1)
    }
}

/// No key occurs twice among the pairs.
pub open spec fn distinct_keys<T>(pairs: Seq<(Seq<char>, T)>) -> bool {
    forall|i: int, j: int|
        0 <= i < pairs.len() && 0 <= j < pairs.len() && i != j ==> (#[trigger] pairs[i]).0 != (
        #[trigger] pairs[j]).0
}

/// The keys of `map_of` are the keys of the pairs.
pub proof fn lemma_map_of_keys<T>(pairs: Seq<(Seq<char>, T)>, key: Seq<char>)
    ensures
        map_of(pairs).contains_key(key) <==> exists|i: int|
            0 <= i < pairs.len() && (#[trigger] pairs[i]).0 == key,
    decreases pairs.len(),
{
    if pairs.len() > 0 {
        let front = pairs.drop_last();
        lemma_map_of_keys(front, key);
        if pairs.last().0 == key {
            assert(pairs[pairs.len() - 1].0 == key);
        } else if map_of(pairs).contains_key(key) {
            let i = choose|i: int| 0 <= i < front.len() && (#[trigger] front[i]).0 == key;
            assert(pairs[i].0 == key);
        } else if exists|i: int| 0 <= i < pairs.len() && (#[trigger] pairs[i]).0 == key {
            let i = choose|i: int| 0 <= i < pairs.len() && (#[trigger] pairs[i]).0 == key;
            assert(front[i].0 == key);
        }
    }
}

/// The value under a key of `map_of` is that of the last pair with the key.
pub proof fn lemma_map_of_last_wins<T>(pairs: Seq<(Seq<char>, T)>, i: int)
    requires
        0 <= i < pairs.len(),
        forall|j: int| i < j < pairs.len() ==> (#[trigger] pairs[j]).0 != pairs[i].0,
    ensures
        map_of(pairs).contains_key(pairs[i].0),
        map_of(pairs)[pairs[i].0] == pairs[i].1,
    decreases pairs.len(),
{
    if i < pairs.len() - 1 {
        let front = pairs.drop_last();
        assert(front[i] == pairs[i]);
        assert forall|j: int| i < j < front.len() implies (#[trigger] front[j]).0
            != front[i].0 by {
            assert(front[j] == pairs[j]);
        }
        lemma_map_of_last_wins(front, i);
        assert(pairs[pairs.len() - 1].0 != pairs[i].0);
    }
}

/// Among pairs with distinct keys, each pair's value is the value under its
/// key.
pub proof fn lemma_map_of_distinct<T>(pairs: Seq<(Seq<char>, T)>, i: int)
    requires
        distinct_keys(pairs),
        0 <= i < pairs.len(),
    ensures
        map_of(pairs).contains_key(pairs[i].0),
        map_of(pairs)[pairs[i].0] == pairs[i].1,
{
    lemma_map_of_last_wins(pairs, i);
}

/// Among pairs with distinct keys, replacing the value of one pair puts that
/// value under its key and changes nothing else.
pub proof fn lemma_map_of_update<T>(pairs: Seq<(Seq<char>, T)>, i: int, value: T)
    requires
        distinct_keys(pairs),
        0 <= i < pairs.len(),
    ensures
        distinct_keys(pairs.update(i, (pairs[i].0, value))),
        map_of(pairs.update(i, (pairs[i].0, value))) == map_of(pairs).insert(pairs[i].0, value),
{
    let key = pairs[i].0;
    let updated = pairs.update(i, (key, value));
    assert(distinct_keys(updated)) by {
        assert forall|a: int, b: int|
            0 <= a < updated.len() && 0 <= b < updated.len() && a != b implies (
        #[trigger] updated[a]).0 != (#[trigger] updated[b]).0 by {
            assert(updated[a].0 == pairs[a].0);
            assert(updated[b].0 == pairs[b].0);
        }
    }
    assert forall|k: Seq<char>|
        map_of(updated).contains_key(k) == map_of(pairs).insert(key, value).contains_key(
            k,
        ) by {
        lemma_map_of_keys(updated, k);
        lemma_map_of_keys(pairs, k);
        if map_of(updated).contains_key(k) {
            let a = choose|a: int| 0 <= a < updated.len() && (#[trigger] updated[a]).0 == k;
            assert(pairs[a].0 == k);
        }
        if map_of(pairs).contains_key(k) {
            let a = choose|a: int| 0 <= a < pairs.len() && (#[trigger] pairs[a]).0 == k;
            assert(updated[a].0 == k);
        }
        if k == key {
            assert(updated[i].0 == k);
        }
    }
    assert forall|k: Seq<char>| map_of(updated).contains_key(k) implies map_of(updated)[k]
        == map_of(pairs).insert(key, value)[k] by {
        lemma_map_of_keys(updated, k);
        let a = choose|a: int| 0 <= a < updated.len() && (#[trigger] updated[a]).0 == k;
        lemma_map_of_distinct(updated, a);
        if a != i {
            assert(pairs[a] == updated[a]);
            lemma_map_of_distinct(pairs, a);
        }
    }
    assert(map_of(updated) =~= map_of(pairs).insert(key, value));
}

/// Pairs with distinct keys stand for a map with as many keys as there are
/// pairs.
pub proof fn lemma_map_of_len<T>(pairs: Seq<(Seq<char>, T)>)
    requires
        distinct_keys(pairs),
    ensures
        map_of(pairs).dom().finite(),
        map_of(pairs).dom().len() == pairs.len(),
    decreases pairs.len(),
{
    if pairs.len() > 0 {
        let front = pairs.drop_last();
        let last = pairs.len() - 1;
        assert(distinct_keys(front)) by {
            assert forall|i: int, j: int|
                0 <= i < front.len() && 0 <= j < front.len() && i != j implies (
            #[trigger] front[i]).0 != (#[trigger] front[j]).0 by {
                assert(front[i] == pairs[i] && front[j] == pairs[j]);
            }
        }
        lemma_map_of_len(front);
        lemma_map_of_keys(front, pairs.last().0);
        if map_of(front).contains_key(pairs.last().0) {
            let i = choose|i: int| 0 <= i < front.len() && (#[trigger] front[i]).0
                == pairs.last().0;
            assert(pairs[i] == front[i]);
            assert(pairs[last] == pairs.last());
        }
    }
}

/// One entry of a [`StringMap`].
#[derive(Debug)]
struct Entry<V> {
    key: String,
    value: V,
}

/// A map from strings to values.
///
/// No key occurs twice. The entries keep the order in which their keys were
/// first inserted, so that the map can be walked by index. Looking a key up
/// walks the entries, which takes time in proportion to their number.
#[derive(Debug)]
pub struct StringMap<V: View> {
    entries: Vec<Entry<V>>,
}

impl<V: View> View for StringMap<V> {
    type V = Map<Seq<char>, V::V>;

    open spec fn view(&self) -> Map<Seq<char>, V::V> {
        map_of(self.pairs())
    }
}

impl<V: View> StringMap<V> {
    /// The keys and values of the map, as values, in the order of the
    /// entries.
    pub closed spec fn pairs(&self) -> Seq<(Seq<char>, V::V)> {
        Seq::new(self.entries@.len(), |i: int| (self.entries@[i].key@, self.entries@[i].value@))
    }

    #[verifier::type_invariant]
    spec fn keys_are_distinct(&self) -> bool {
        distinct_keys(self.pairs())
    }

    /// The empty map.
    pub fn new() -> (map: StringMap<V>)
        ensures
            map.pairs() == Seq::<(Seq<char>, V::V)>::empty(),
            map@ == Map::<Seq<char>, V::V>::empty(),
    {
        let map = StringMap { entries: Vec::new() };
        assert(map.pairs() =~= Seq::<(Seq<char>, V::V)>::empty());
        map
    }

    /// The number of entries, which is the number of keys.
    pub fn len(&self) -> (len: usize)
        ensures
            len == self.pairs().len(),
            distinct_keys(self.pairs()),
            self@.dom().finite(),
            len == self@.dom().len(),
    {
        proof {
            use_type_invariant(self);
            lemma_map_of_len(self.pairs());
        }
        self.entries.len()
    }

    /// The position of the entry with the given key, if there is one.
    fn position(&self, key: &String) -> (position: Option<usize>)
        ensures
            distinct_keys(self.pairs()),
            match position {
                Some(i) => i < self.pairs().len() && self.pairs()[i as int].0 == key@,
                None => forall|i: int|
                    0 <= i < self.pairs().len() ==> (#[trigger] self.pairs()[i]).0 != key@,
            },
    {
        proof {
            use_type_invariant(self);
        }
        let mut i: usize = 0;
        while i < self.entries.len()
            invariant
                i <= self.entries.len(),
                self.entries@.len() == self.pairs().len(),
                distinct_keys(self.pairs()),
                forall|j: int| 0 <= j < i ==> (#[trigger] self.pairs()[j]).0 != key@,
            decreases self.entries.len() - i,
        {
            if self.entries[i].key == *key {
                return Some(i);
            }
            i += 1;
        }
        None
    }

    /// The value under the given key, if there is one.
    pub fn get(&self, key: &String) -> (value: Option<&V>)
        ensures
            match value {
                Some(v) => self@.contains_key(key@) && self@[key@] == v@,
                None => !self@.contains_key(key@),
            },
    {
        proof {
            lemma_map_of_keys(self.pairs(), key@);
        }
        match self.position(key) {
            Some(i) => {
                proof {
                    lemma_map_of_distinct(self.pairs(), i as int);
                }
                Some(&self.entries[i].value)
            },
            None => None,
        }
    }

    /// Tells whether there is a value under the given key.
    pub fn contains_key(&self, key: &String) -> (found: bool)
        ensures
            found == self@.contains_key(key@),
    {
        self.get(key).is_some()
    }

    /// Puts the value under the key. The value that was under the key before,
    /// if any, is replaced where it stood; a new key goes to the end.
    pub fn insert(&mut self, key: String, value: V)
        ensures
            final(self)@ == old(self)@.insert(key@, value@),
            final(self).pairs() == inserted(old(self).pairs(), key@, value@),
    {
        let found = self.position(&key);
        let ghost before = self.pairs();
        let mut taken = StringMap { entries: Vec::new() };
        assert(taken.pairs() =~= Seq::<(Seq<char>, V::V)>::empty());
        std::mem::swap(self, &mut taken);
        let mut entries = taken.entries;
        match found {
            Some(i) => {
                proof {
                    lemma_map_of_update(before, i as int, value@);
                    lemma_inserted_present(before, key@, value@, i as int);
                }
                entries.set(i, Entry { key, value });
            },
            None => {
                proof {
                    lemma_inserted_absent(before, key@, value@);
                }
                entries.push(Entry { key, value });
            },
        }
        let ghost after = Seq::new(entries@.len(), |i: int| (entries@[i].key@, entries@[i].value@));
        proof {
            match found {
                Some(i) => {
                    assert(after =~= before.update(i as int, (key@, value@)));
                },
                None => {
                    assert(after =~= before.push((key@, value@)));
                    assert(after.drop_last() =~= before);
                    assert forall|a: int, b: int|
                        0 <= a < after.len() && 0 <= b < after.len() && a != b implies (
                    #[trigger] after[a]).0 != (#[trigger] after[b]).0 by {
                        if a < before.len() {
                            assert(after[a] == before[a]);
                        }
                        if b < before.len() {
                            assert(after[b] == before[b]);
                        }
                    }
                },
            }
        }
        *self = StringMap { entries };
    }

    /// The key and the value of the entry at the given position, if the
    /// position is below the number of entries.
    pub fn entry(&self, position: usize) -> (entry: Option<(&String, &V)>)
        ensures
            match entry {
                Some((key, value)) => position < self.pairs().len() && key@
                    == self.pairs()[position as int].0 && value@
                    == self.pairs()[position as int].1,
                None => position >= self.pairs().len(),
            },
    {
        if position < self.entries.len() {
            Some((&self.entries[position].key, &self.entries[position].value))
        } else {
            None
        }
    }
}

/// The position of the first pair with the given key, or the number of pairs
/// if there is none.
pub open spec fn position_of<T>(pairs: Seq<(Seq<char>, T)>, key: Seq<char>) -> int
    decreases pairs.len(),
{
    if pairs.len() == 0 {
        0
    } else if pairs.first().0 == key {
        0
    } else {
        1 + position_of(pairs.drop_first(), key)
    }
}

/// The pairs after `value` has been put under `key`: the first pair with that
/// key gets the value, or, if there is none, a new pair is added at the end.
pub open spec fn inserted<T>(pairs: Seq<(Seq<char>, T)>, key: Seq<char>, value: T) -> Seq<
    (Seq<char>, T),
> {
    let position = position_of(pairs, key);
    if position < pairs.len() {
        pairs.update(position, (key, value))
    } else {
        pairs.push((key, value))
    }
}

/// `position_of` names the first pair with the key, or the end.
pub proof fn lemma_position_of<T>(pairs: Seq<(Seq<char>, T)>, key: Seq<char>)
    ensures
        0 <= position_of(pairs, key) <= pairs.len(),
        position_of(pairs, key) < pairs.len() ==> pairs[position_of(pairs, key)].0 == key,
        forall|i: int| 0 <= i < position_of(pairs, key) ==> (#[trigger] pairs[i]).0 != key,
    decreases pairs.len(),
{
    if pairs.len() > 0 && pairs.first().0 != key {
        let rest = pairs.drop_first();
        lemma_position_of(rest, key);
        assert forall|i: int| 0 <= i < position_of(pairs, key) implies (#[trigger] pairs[i]).0
            != key by {
            if i > 0 {
                assert(rest[i - 1] == pairs[i]);
            }
        }
    }
}

proof fn lemma_inserted_present<T>(pairs: Seq<(Seq<char>, T)>, key: Seq<char>, value: T, i: int)
    requires
        distinct_keys(pairs),
        0 <= i < pairs.len(),
        pairs[i].0 == key,
    ensures
        inserted(pairs, key, value) == pairs.update(i, (key, value)),
{
    lemma_position_of(pairs, key);
    let p = position_of(pairs, key);
    if p != i {
        if p < pairs.len() {
            assert(pairs[p].0 != pairs[i].0);
        }
    }
}

proof fn lemma_inserted_absent<T>(pairs: Seq<(Seq<char>, T)>, key: Seq<char>, value: T)
    requires
        forall|i: int| 0 <= i < pairs.len() ==> (#[trigger] pairs[i]).0 != key,
    ensures
        inserted(pairs, key, value) == pairs.push((key, value)),
{
    lemma_position_of(pairs, key);
}

} // verus!
