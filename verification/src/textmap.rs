//! Maps from texts that keep the order in which their keys came.

use crate::text::same_text;
use vstd::prelude::*;

verus! {

/// What a map holds: keys and values in the order in which the keys came.
pub type Pairs<T> = Seq<(Seq<char>, T)>;

/// Whether no key occurs twice.
pub open spec fn distinct_keys<T>(pairs: Pairs<T>) -> bool {
    forall|i: int, j: int|
        0 <= i < j < pairs.len() ==> (#[trigger] pairs[i]).0 != (#[trigger] pairs[j]).0
}

/// The position of `key`, counted from `from` on, or the number of pairs.
pub open spec fn key_position<T>(pairs: Pairs<T>, key: Seq<char>, from: int) -> int
    decreases pairs.len() - from,
{
    if from >= pairs.len() {
        pairs.len() as int
    } else if pairs[from].0 == key {
        from
    } else {
        key_position(pairs, key, from + 1)
    }
}

/// The value under `key`, if there is one.
pub open spec fn value_of<T>(pairs: Pairs<T>, key: Seq<char>) -> Option<T> {
    let at = key_position(pairs, key, 0);
    if at < pairs.len() {
        Some(pairs[at].1)
    } else {
        None
    }
}

/// The pairs with `value` under `key`: in the place of the value there, or at
/// the end.
pub open spec fn with_pair<T>(pairs: Pairs<T>, key: Seq<char>, value: T) -> Pairs<T> {
    let at = key_position(pairs, key, 0);
    if at < pairs.len() {
        pairs.update(at, (key, value))
    } else {
        pairs.push((key, value))
    }
}

/// Where `key_position` lies.
pub proof fn lemma_key_position<T>(pairs: Pairs<T>, key: Seq<char>, from: int)
    requires
        0 <= from <= pairs.len(),
    ensures
        from <= key_position(pairs, key, from) <= pairs.len(),
        key_position(pairs, key, from) < pairs.len() ==> pairs[key_position(pairs, key, from)].0
            == key,
        forall|i: int|
            from <= i < key_position(pairs, key, from) ==> (#[trigger] pairs[i]).0 != key,
    decreases pairs.len() - from,
{
    if from < pairs.len() && pairs[from].0 != key {
        lemma_key_position(pairs, key, from + 1);
    }
}

/// What `key_position` is, given a place that has the key and no earlier one.
pub proof fn lemma_key_position_is<T>(pairs: Pairs<T>, key: Seq<char>, from: int, at: int)
    requires
        0 <= from <= at <= pairs.len(),
        at < pairs.len() ==> pairs[at].0 == key,
        forall|i: int| from <= i < at ==> (#[trigger] pairs[i]).0 != key,
    ensures
        key_position(pairs, key, from) == at,
    decreases at - from,
{
    if from < at {
        lemma_key_position_is(pairs, key, from + 1, at);
    }
}

/// A value that was put under a key is found under it, every other key keeps
/// its value, and no key occurs twice.
pub proof fn putting_is_found<T>(pairs: Pairs<T>, key: Seq<char>, value: T, other: Seq<char>)
    requires
        distinct_keys(pairs),
    ensures
        value_of(with_pair(pairs, key, value), key) == Some(value),
        other != key ==> value_of(with_pair(pairs, key, value), other) == value_of(pairs, other),
        distinct_keys(with_pair(pairs, key, value)),
{
    let at = key_position(pairs, key, 0);
    let after = with_pair(pairs, key, value);
    lemma_key_position(pairs, key, 0);
    lemma_key_position(pairs, other, 0);
    assert forall|i: int| 0 <= i < at implies (#[trigger] after[i]).0 != key by {
        assert(after[i] == pairs[i]);
    }
    lemma_key_position_is(after, key, 0, at);
    if other != key {
        let o = key_position(pairs, other, 0);
        let end = if o < pairs.len() {
            o
        } else {
            after.len() as int
        };
        assert forall|i: int| 0 <= i < end implies (#[trigger] after[i]).0 != other by {
            if i < pairs.len() && i != at {
                assert(after[i] == pairs[i]);
            }
        }
        if o < pairs.len() {
            assert(pairs[o].0 == other);
            assert(o != at);
            assert(after[o] == pairs[o]);
        }
        lemma_key_position_is(after, other, 0, end);
    }
    assert forall|i: int, j: int| 0 <= i < j < after.len() implies (#[trigger] after[i]).0 != (
    #[trigger] after[j]).0 by {
        if at < pairs.len() {
            assert(pairs[i].0 == after[i].0);
            assert(pairs[j].0 == after[j].0);
        } else if j < pairs.len() {
            assert(pairs[i].0 == after[i].0);
            assert(pairs[j].0 == after[j].0);
        } else {
            assert(pairs[i].0 == after[i].0);
        }
    }
}

/// A map from texts to values.
pub struct TextMap<V: View> {
    entries: Vec<(String, V)>,
}

/// What a list of entries stands for.
pub closed spec fn pairs_of<V: View>(entries: Seq<(String, V)>) -> Pairs<V::V> {
    entries.map_values(|e: (String, V)| (e.0@, e.1@))
}

impl<V: View> View for TextMap<V> {
    type V = Pairs<V::V>;

    closed spec fn view(&self) -> Pairs<V::V> {
        pairs_of(self.entries@)
    }
}

impl<V: View> TextMap<V> {
    #[verifier::type_invariant]
    spec fn keys_differ(self) -> bool {
        distinct_keys(pairs_of(self.entries@))
    }

    /// A map that holds nothing.
    pub fn new() -> (r: Self)
        ensures
            r@ == Seq::<(Seq<char>, V::V)>::empty(),
            distinct_keys(r@),
    {
        let entries: Vec<(String, V)> = Vec::new();
        proof {
            assert(pairs_of(entries@) =~= Seq::empty());
        }
        TextMap { entries }
    }

    /// The number of keys.
    pub fn len(&self) -> (r: usize)
        ensures
            r == self@.len(),
            distinct_keys(self@),
    {
        proof {
            use_type_invariant(self);
        }
        self.entries.len()
    }

    /// The key at position `i`.
    pub fn key_at(&self, i: usize) -> (r: &String)
        requires
            i < self@.len(),
        ensures
            r@ == self@[i as int].0,
    {
        &self.entries[i].0
    }

    /// The value at position `i`.
    pub fn value_at(&self, i: usize) -> (r: &V)
        requires
            i < self@.len(),
        ensures
            r@ == self@[i as int].1,
    {
        &self.entries[i].1
    }

    fn position(&self, key: &str) -> (r: usize)
        ensures
            r == key_position(self@, key@, 0),
            r <= self@.len(),
    {
        let mut i: usize = 0;
        while i < self.entries.len()
            invariant
                i <= self.entries@.len(),
                self@ == pairs_of(self.entries@),
                key_position(self@, key@, 0) == key_position(self@, key@, i as int),
            decreases self.entries@.len() - i,
        {
            if same_text(self.entries[i].0.as_str(), key) {
                return i;
            }
            i = i + 1;
        }
        i
    }

    /// The value under `key`, if there is one.
    pub fn get(&self, key: &str) -> (r: Option<&V>)
        ensures
            match r {
                Some(v) => value_of(self@, key@) == Some(v@),
                None => value_of(self@, key@) is None,
            },
            distinct_keys(self@),
    {
        proof {
            use_type_invariant(self);
        }
        let at = self.position(key);
        if at < self.entries.len() {
            Some(&self.entries[at].1)
        } else {
            None
        }
    }

    /// Puts `value` under `key`, in the place of the value there.
    pub fn insert(&mut self, key: String, value: V)
        ensures
            final(self)@ == with_pair(old(self)@, key@, value@),
            distinct_keys(final(self)@),
    {
        proof {
            use_type_invariant(&*self);
            putting_is_found(self@, key@, value@, key@);
        }
        let ghost before = self@;
        let at = self.position(key.as_str());
        let mut entries: Vec<(String, V)> = Vec::new();
        std::mem::swap(&mut entries, &mut self.entries);
        let ghost held = entries@;
        let ghost pair = (key, value);
        if at < entries.len() {
            entries[at] = (key, value);
            proof {
                assert(pairs_of(entries@) =~= with_pair(before, pair.0@, pair.1@));
            }
        } else {
            entries.push((key, value));
            proof {
                assert(pairs_of(entries@) =~= with_pair(before, pair.0@, pair.1@));
            }
        }
        self.entries = entries;
    }
}

impl TextMap<String> {
    /// A second map that holds the same.
    pub fn copy(&self) -> (r: Self)
        ensures
            r@ == self@,
    {
        proof {
            use_type_invariant(self);
        }
        let mut entries: Vec<(String, String)> = Vec::new();
        let mut i: usize = 0;
        while i < self.entries.len()
            invariant
                i <= self.entries@.len(),
                pairs_of(entries@) == pairs_of(self.entries@).take(i as int),
            decreases self.entries@.len() - i,
        {
            let ghost before = entries@;
            let key = self.entries[i].0.clone();
            let value = self.entries[i].1.clone();
            entries.push((key, value));
            proof {
                assert(pairs_of(entries@) =~= pairs_of(before).push((key@, value@)));
                assert(pairs_of(self.entries@)[i as int] == (key@, value@));
                assert(pairs_of(entries@) =~= pairs_of(self.entries@).take(i + 1));
            }
            i = i + 1;
        }
        proof {
            assert(pairs_of(entries@) =~= pairs_of(self.entries@));
        }
        TextMap { entries }
    }
}

/// What is under a key is what its pair says, wherever the pair stands; a key
/// without a pair has nothing.
pub proof fn pairs_are_found_by_their_keys<T>(pairs: Pairs<T>, key: Seq<char>, i: int)
    requires
        distinct_keys(pairs),
    ensures
        0 <= i < pairs.len() && pairs[i].0 == key ==> value_of(pairs, key) == Some(pairs[i].1),
        (forall|k: int| 0 <= k < pairs.len() ==> (#[trigger] pairs[k]).0 != key) ==> value_of(
            pairs,
            key,
        ) is None,
        value_of(Seq::<(Seq<char>, T)>::empty(), key) is None,
{
    lemma_key_position(pairs, key, 0);
    let at = key_position(pairs, key, 0);
    if 0 <= i < pairs.len() && pairs[i].0 == key && at != i {
        if at < i {
            assert(pairs[at].0 != pairs[i].0);
        } else {
            assert(pairs[i].0 != key);
        }
    }
}

/// Putting a value under a new key adds a pair at the end, and under a known key
/// changes that pair's value only; all other pairs stay in their places.
pub proof fn putting_keeps_the_places<T>(pairs: Pairs<T>, key: Seq<char>, value: T, i: int)
    requires
        distinct_keys(pairs),
    ensures
        value_of(pairs, key) is None ==> with_pair(pairs, key, value) == pairs.push((key, value)),
        value_of(pairs, key) is Some ==> with_pair(pairs, key, value).len() == pairs.len(),
        0 <= i < pairs.len() && pairs[i].0 != key ==> with_pair(pairs, key, value)[i] == pairs[i],
        0 <= i < pairs.len() && pairs[i].0 == key ==> with_pair(pairs, key, value)[i] == (
            key,
            value,
        ),
{
    lemma_key_position(pairs, key, 0);
    let at = key_position(pairs, key, 0);
    if 0 <= i < pairs.len() && pairs[i].0 == key && at != i {
        if at < i {
            assert(pairs[at].0 != pairs[i].0);
        } else {
            assert(pairs[i].0 != key);
        }
    }
}

} // verus!
