//! A map from texts to values, kept as two parallel vectors.

use vstd::prelude::*;

verus! {

/// The map that a list of keys and the list of their values stand for. An
/// entry replaces every earlier entry with the same key.
pub open spec fn map_of<T>(keys: Seq<Seq<char>>, values: Seq<T>) -> Map<Seq<char>, T>
    decreases keys.len(),
{
    if keys.len() == 0 || keys.len() != values.len() {
        Map::empty()
    } else {
        map_of(keys.drop_last(), values.drop_last()).insert(keys.last(), values.last())
    }
}

/// No text occurs twice in `keys`.
pub open spec fn distinct_keys(keys: Seq<Seq<char>>) -> bool {
    forall|i: int, j: int| 0 <= i < j < keys.len() ==> #[trigger] keys[i] != #[trigger] keys[j]
}

/// The keys of `map_of` are the listed keys, and a key that is listed once
/// has the value listed with it.
pub proof fn lemma_map_of<T>(keys: Seq<Seq<char>>, values: Seq<T>)
    requires
        keys.len() == values.len(),
    ensures
        forall|k: Seq<char>| #[trigger] map_of(keys, values).contains_key(k) <==> keys.contains(k),
        distinct_keys(keys) ==> forall|i: int|
            0 <= i < keys.len() ==> map_of(keys, values)[#[trigger] keys[i]] == values[i],
    decreases keys.len(),
{
    if keys.len() > 0 {
        let front = keys.drop_last();
        lemma_map_of(front, values.drop_last());
        assert forall|k: Seq<char>| #[trigger]
            map_of(keys, values).contains_key(k) <==> keys.contains(k) by {
            let inner = map_of(front, values.drop_last());
            assert(inner.contains_key(k) <==> front.contains(k));
            assert(map_of(keys, values) == inner.insert(keys.last(), values.last()));
            if front.contains(k) {
                let i = choose|i: int| 0 <= i < front.len() && front[i] == k;
                assert(keys[i] == k);
            }
            if keys.contains(k) && k != keys.last() {
                let i = choose|i: int| 0 <= i < keys.len() && keys[i] == k;
                assert(front[i] == k);
            }
            if k == keys.last() {
                assert(keys[keys.len() - 1] == k);
            }
        }
        if distinct_keys(keys) {
            assert forall|i: int| 0 <= i < keys.len() implies map_of(keys, values)[
                #[trigger] keys[i]] == values[i] by {
                if i < keys.len() - 1 {
                    assert(front[i] == keys[i]);
                    assert(values.drop_last()[i] == values[i]);
                }
            }
        }
    }
}

proof fn lemma_map_of_update<T>(keys: Seq<Seq<char>>, values: Seq<T>, i: int, v: T)
    requires
        keys.len() == values.len(),
        distinct_keys(keys),
        0 <= i < keys.len(),
    ensures
        map_of(keys, values.update(i, v)) == map_of(keys, values).insert(keys[i], v),
    decreases keys.len(),
{
    let changed = values.update(i, v);
    if i == keys.len() - 1 {
        assert(changed.drop_last() =~= values.drop_last());
        assert(map_of(keys, changed) =~= map_of(keys, values).insert(keys[i], v));
    } else {
        lemma_map_of_update(keys.drop_last(), values.drop_last(), i, v);
        assert(changed.drop_last() =~= values.drop_last().update(i, v));
        assert(keys.drop_last()[i] == keys[i]);
        assert(map_of(keys, changed) =~= map_of(keys, values).insert(keys[i], v));
    }
}

proof fn lemma_map_of_remove<T>(keys: Seq<Seq<char>>, values: Seq<T>, i: int)
    requires
        keys.len() == values.len(),
        distinct_keys(keys),
        0 <= i < keys.len(),
    ensures
        map_of(keys.remove(i), values.remove(i)) == map_of(keys, values).remove(keys[i]),
        distinct_keys(keys.remove(i)),
    decreases keys.len(),
{
    let front = keys.drop_last();
    let front_values = values.drop_last();
    if i == keys.len() - 1 {
        assert(keys.remove(i) =~= front);
        assert(values.remove(i) =~= front_values);
        lemma_map_of(front, front_values);
        if front.contains(keys[i]) {
            let j = choose|j: int| 0 <= j < front.len() && front[j] == keys[i];
            assert(keys[j] == keys[i]);
        }
        assert(map_of(front, front_values) =~= map_of(keys, values).remove(keys[i]));
    } else {
        lemma_map_of_remove(front, front_values, i);
        assert(keys.remove(i).drop_last() =~= front.remove(i));
        assert(values.remove(i).drop_last() =~= front_values.remove(i));
        assert(keys.remove(i).last() == keys.last());
        assert(values.remove(i).last() == values.last());
        assert(front[i] == keys[i]);
        assert(map_of(keys.remove(i), values.remove(i)) =~= map_of(keys, values).remove(keys[i]));
    }
    assert forall|a: int, b: int| 0 <= a < b < keys.remove(i).len() implies #[trigger] keys.remove(
        i,
    )[a] != #[trigger] keys.remove(i)[b] by {
        let a0 = if a < i {
            a
        } else {
            a + 1
        };
        let b0 = if b < i {
            b
        } else {
            b + 1
        };
        assert(keys.remove(i)[a] == keys[a0] && keys.remove(i)[b] == keys[b0]);
    }
}

/// A finite map keyed by text. No key occurs twice.
pub struct TextMap<V> {
    keys: Vec<String>,
    values: Vec<V>,
}

impl<V: DeepView> View for TextMap<V> {
    type V = Map<Seq<char>, V::V>;

    closed spec fn view(&self) -> Map<Seq<char>, V::V> {
        map_of(self.keys.deep_view(), self.values.deep_view())
    }
}

impl<V: DeepView> TextMap<V> {
    /// The keys are pairwise different, and each has its value.
    pub closed spec fn wf(&self) -> bool {
        &&& self.keys.len() == self.values.len()
        &&& distinct_keys(self.keys.deep_view())
    }

    /// The empty map.
    pub fn new() -> (r: Self)
        ensures
            r.wf(),
            r@ == Map::<Seq<char>, V::V>::empty(),
    {
        TextMap { keys: Vec::new(), values: Vec::new() }
    }

    fn position(&self, key: &String) -> (r: Option<usize>)
        requires
            self.wf(),
        ensures
            match r {
                Some(i) => i < self.keys.len() && self.keys.deep_view()[i as int] == key@
                    && self@.contains_key(key@) && self@[key@] == self.values.deep_view()[i as int],
                None => !self@.contains_key(key@),
            },
    {
        proof {
            lemma_map_of(self.keys.deep_view(), self.values.deep_view());
        }
        let mut i: usize = 0;
        while i < self.keys.len()
            invariant
                self.wf(),
                i <= self.keys.len(),
                forall|j: int| 0 <= j < i ==> #[trigger] self.keys.deep_view()[j] != key@,
            decreases self.keys.len() - i,
        {
            if self.keys[i] == *key {
                proof {
                    lemma_map_of(self.keys.deep_view(), self.values.deep_view());
                    assert(self.keys.deep_view()[i as int] == key@);
                    assert(self.keys.deep_view().contains(key@));
                }
                return Some(i);
            }
            i += 1;
        }
        None
    }

    /// Whether `key` has a value.
    pub fn contains_key(&self, key: &String) -> (r: bool)
        requires
            self.wf(),
        ensures
            r == self@.contains_key(key@),
    {
        self.position(key).is_some()
    }

    /// The value of `key`, if it has one.
    pub fn get(&self, key: &String) -> (r: Option<&V>)
        requires
            self.wf(),
        ensures
            match r {
                Some(v) => self@.contains_key(key@) && v.deep_view() == self@[key@],
                None => !self@.contains_key(key@),
            },
    {
        match self.position(key) {
            Some(i) => Some(&self.values[i]),
            None => None,
        }
    }

    /// Gives `key` the value `value`, in place of the one it had, if any.
    pub fn insert(&mut self, key: String, value: V)
        requires
            old(self).wf(),
        ensures
            final(self).wf(),
            final(self)@ == old(self)@.insert(key@, value.deep_view()),
    {
        let ghost keys = self.keys.deep_view();
        let ghost values = self.values.deep_view();
        let ghost added = value.deep_view();
        match self.position(&key) {
            Some(i) => {
                self.values.set(i, value);
                proof {
                    assert(self.values.deep_view() =~= values.update(i as int, added));
                    lemma_map_of_update(keys, values, i as int, added);
                }
            },
            None => {
                self.keys.push(key);
                self.values.push(value);
                proof {
                    lemma_map_of(keys, values);
                    assert(self.keys.deep_view() =~= keys.push(key@));
                    assert(self.values.deep_view() =~= values.push(added));
                    assert(keys.push(key@).drop_last() =~= keys);
                    assert(values.push(added).drop_last() =~= values);
                    assert forall|a: int, b: int| 0 <= a < b < keys.len() + 1 implies #[trigger]
                        keys.push(key@)[a] != #[trigger] keys.push(key@)[b] by {
                        if b == keys.len() {
                            assert(keys.contains(keys[a]));
                        }
                    }
                }
            },
        }
    }

    /// Takes `key` and its value out. Returns whether `key` had a value.
    pub fn remove(&mut self, key: &String) -> (r: bool)
        requires
            old(self).wf(),
        ensures
            final(self).wf(),
            final(self)@ == old(self)@.remove(key@),
            r == old(self)@.contains_key(key@),
    {
        let ghost keys = self.keys.deep_view();
        let ghost values = self.values.deep_view();
        match self.position(key) {
            Some(i) => {
                self.keys.remove(i);
                self.values.remove(i);
                proof {
                    assert(self.keys.deep_view() =~= keys.remove(i as int));
                    assert(self.values.deep_view() =~= values.remove(i as int));
                    lemma_map_of_remove(keys, values, i as int);
                }
                true
            },
            None => {
                assert(self@ =~= self@.remove(key@));
                false
            },
        }
    }

    /// Takes the map apart into its keys and their values.
    pub fn into_parts(self) -> (r: (Vec<String>, Vec<V>))
        requires
            self.wf(),
        ensures
            r.0.len() == r.1.len(),
            distinct_keys(r.0.deep_view()),
            map_of(r.0.deep_view(), r.1.deep_view()) == self@,
    {
        (self.keys, self.values)
    }
}

} // verus!
