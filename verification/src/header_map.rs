//! Keyword → value lookup for one header.
use vstd::prelude::*;
use crate::text::{chars_of, same_chars};

verus! {

/// The value stored for `key` among `(keyword, value)` pairs: the first pair
/// with that keyword.
pub open spec fn lookup(pairs: Seq<(Seq<char>, Seq<char>)>, key: Seq<char>) -> Option<Seq<char>>
    decreases pairs.len(),
{
    if pairs.len() == 0 {
        None
    } else if pairs[0].0 == key {
        Some(pairs[0].1)
    } else {
        lookup(pairs.drop_first(), key)
    }
}

/// The pairs after `key` is set to `value`: its pair replaced, or a new pair
/// at the end.
pub open spec fn store(pairs: Seq<(Seq<char>, Seq<char>)>, key: Seq<char>, value: Seq<char>) -> Seq<
    (Seq<char>, Seq<char>),
>
    decreases pairs.len(),
{
    if pairs.len() == 0 {
        seq![(key, value)]
    } else if pairs[0].0 == key {
        pairs.update(0, (key, value))
    } else {
        seq![pairs[0]] + store(pairs.drop_first(), key, value)
    }
}

/// The keyword → value table of a header. Setting a keyword again replaces
/// its value, as a map does.
#[derive(Clone, Debug)]
pub struct HeaderMap {
    entries: Vec<(Vec<char>, String)>,
}

impl HeaderMap {
    pub closed spec fn pairs(&self) -> Seq<(Seq<char>, Seq<char>)> {
        Seq::new(self.entries@.len(), |i: int| (self.entries@[i].0@, self.entries@[i].1@))
    }

    /// The value stored for a keyword.
    pub open spec fn get_spec(&self, key: Seq<char>) -> Option<Seq<char>> {
        lookup(self.pairs(), key)
    }

    pub open spec fn is_empty_spec(&self) -> bool {
        self.pairs().len() == 0
    }

    pub fn new() -> (r: Self)
        ensures
            r.pairs() == Seq::<(Seq<char>, Seq<char>)>::empty(),
    {
        let r = HeaderMap { entries: Vec::new() };
        assert(r.pairs() =~= Seq::<(Seq<char>, Seq<char>)>::empty());
        r
    }

    pub fn is_empty(&self) -> (r: bool)
        ensures
            r == self.is_empty_spec(),
    {
        self.entries.len() == 0
    }

    pub fn len(&self) -> (r: usize)
        ensures
            r == self.pairs().len(),
    {
        self.entries.len()
    }

    fn position(&self, key: &[char]) -> (r: Option<usize>)
        ensures
            match r {
                Some(i) => i < self.pairs().len() && self.pairs()[i as int].0 == key@ && forall|
                    j: int,
                | 0 <= j < i ==> #[trigger] self.pairs()[j].0 != key@,
                None => forall|j: int|
                    0 <= j < self.pairs().len() ==> #[trigger] self.pairs()[j].0 != key@,
            },
    {
        let mut i: usize = 0;
        while i < self.entries.len()
            invariant
                0 <= i <= self.entries@.len(),
                forall|j: int| 0 <= j < i ==> #[trigger] self.pairs()[j].0 != key@,
            decreases self.entries.len() - i,
        {
            if same_chars(self.entries[i].0.as_slice(), key) {
                return Some(i);
            }
            i = i + 1;
        }
        None
    }

    pub fn get_chars(&self, key: &[char]) -> (r: Option<&String>)
        ensures
            match r {
                Some(v) => self.get_spec(key@) == Some(v@),
                None => self.get_spec(key@) is None,
            },
    {
        proof {
            lemma_lookup_first(self.pairs(), key@);
        }
        match self.position(key) {
            Some(i) => Some(&self.entries[i].1),
            None => None,
        }
    }

    /// The value stored for a keyword (`BTreeMap::get`).
    pub fn get(&self, key: &str) -> (r: Option<&String>)
        ensures
            match r {
                Some(v) => self.get_spec(key@) == Some(v@),
                None => self.get_spec(key@) is None,
            },
    {
        let k = chars_of(key);
        self.get_chars(k.as_slice())
    }

    /// Whether a keyword has a value (`BTreeMap::contains_key`).
    pub fn contains_key(&self, key: &str) -> (r: bool)
        ensures
            r == self.get_spec(key@) is Some,
    {
        let k = chars_of(key);
        self.get_chars(k.as_slice()).is_some()
    }

    pub fn contains_chars(&self, key: &[char]) -> (r: bool)
        ensures
            r == self.get_spec(key@) is Some,
    {
        self.get_chars(key).is_some()
    }

    /// Sets a keyword's value (`BTreeMap::insert`).
    pub fn insert_chars(&mut self, key: &[char], value: String)
        ensures
            final(self).pairs() == store(old(self).pairs(), key@, value@),
    {
        proof {
            lemma_store_first(self.pairs(), key@, value@);
        }
        match self.position(key) {
            Some(i) => {
                let mut k: Vec<char> = Vec::new();
                crate::text::append_chars(&mut k, key);
                self.entries.set(i, (k, value));
                assert(self.pairs() =~= old(self).pairs().update(i as int, (key@, value@)));
            },
            None => {
                let mut k: Vec<char> = Vec::new();
                crate::text::append_chars(&mut k, key);
                self.entries.push((k, value));
                assert(self.pairs() =~= old(self).pairs().push((key@, value@)));
            },
        }
    }

    pub fn insert(&mut self, key: String, value: String)
        ensures
            final(self).pairs() == store(old(self).pairs(), key@, value@),
    {
        let k = chars_of(key.as_str());
        self.insert_chars(k.as_slice(), value);
    }
}

/// The first pair with the keyword decides a lookup.
pub proof fn lemma_lookup_first(pairs: Seq<(Seq<char>, Seq<char>)>, key: Seq<char>)
    ensures
        forall|i: int|
            0 <= i < pairs.len() && pairs[i].0 == key && (forall|j: int|
                0 <= j < i ==> #[trigger] pairs[j].0 != key) ==> lookup(pairs, key) == Some(
                pairs[i].1,
            ),
        (forall|j: int| 0 <= j < pairs.len() ==> #[trigger] pairs[j].0 != key) ==> lookup(
            pairs,
            key,
        ) is None,
    decreases pairs.len(),
{
    if pairs.len() > 0 {
        lemma_lookup_first(pairs.drop_first(), key);
        assert forall|i: int|
            0 <= i < pairs.len() && pairs[i].0 == key && (forall|j: int|
                0 <= j < i ==> #[trigger] pairs[j].0 != key) implies lookup(pairs, key) == Some(
            pairs[i].1,
        ) by {
            if i > 0 {
                assert(pairs[0].0 != key);
                assert(pairs.drop_first()[i - 1] == pairs[i]);
                assert forall|j: int| 0 <= j < i - 1 implies #[trigger] pairs.drop_first()[j].0
                    != key by {
                    assert(pairs.drop_first()[j] == pairs[j + 1]);
                }
            }
        }
        if forall|j: int| 0 <= j < pairs.len() ==> #[trigger] pairs[j].0 != key {
            assert(pairs[0].0 != key);
            assert forall|j: int| 0 <= j < pairs.drop_first().len() implies #[trigger] pairs.drop_first()[j].0
                != key by {
                assert(pairs.drop_first()[j] == pairs[j + 1]);
            }
        }
    }
}

/// `store` replaces the first pair with the keyword, or appends.
pub proof fn lemma_store_first(
    pairs: Seq<(Seq<char>, Seq<char>)>,
    key: Seq<char>,
    value: Seq<char>,
)
    ensures
        forall|i: int|
            0 <= i < pairs.len() && pairs[i].0 == key && (forall|j: int|
                0 <= j < i ==> #[trigger] pairs[j].0 != key) ==> store(pairs, key, value)
                == pairs.update(i, (key, value)),
        (forall|j: int| 0 <= j < pairs.len() ==> #[trigger] pairs[j].0 != key) ==> store(
            pairs,
            key,
            value,
        ) == pairs.push((key, value)),
    decreases pairs.len(),
{
    if pairs.len() > 0 {
        let rest = pairs.drop_first();
        lemma_store_first(rest, key, value);
        assert forall|i: int|
            0 <= i < pairs.len() && pairs[i].0 == key && (forall|j: int|
                0 <= j < i ==> #[trigger] pairs[j].0 != key) implies store(pairs, key, value)
            == pairs.update(i, (key, value)) by {
            if i > 0 {
                assert(pairs[0].0 != key);
                assert(rest[i - 1] == pairs[i]);
                assert forall|j: int| 0 <= j < i - 1 implies #[trigger] rest[j].0 != key by {
                    assert(rest[j] == pairs[j + 1]);
                }
                assert(seq![pairs[0]] + rest.update(i - 1, (key, value)) =~= pairs.update(
                    i,
                    (key, value),
                ));
            }
        }
        if forall|j: int| 0 <= j < pairs.len() ==> #[trigger] pairs[j].0 != key {
            assert(pairs[0].0 != key);
            assert forall|j: int| 0 <= j < rest.len() implies #[trigger] rest[j].0 != key by {
                assert(rest[j] == pairs[j + 1]);
            }
            assert(seq![pairs[0]] + rest.push((key, value)) =~= pairs.push((key, value)));
        }
    } else {
        assert(seq![(key, value)] =~= pairs.push((key, value)));
    }
}

/// Setting a keyword gives its new value back, and leaves other keywords'
/// values as they were.
pub proof fn lemma_store_lookup(
    pairs: Seq<(Seq<char>, Seq<char>)>,
    key: Seq<char>,
    value: Seq<char>,
    other: Seq<char>,
)
    ensures
        lookup(store(pairs, key, value), key) == Some(value),
        other != key ==> lookup(store(pairs, key, value), other) == lookup(pairs, other),
    decreases pairs.len(),
{
    if pairs.len() > 0 {
        lemma_store_lookup(pairs.drop_first(), key, value, other);
        if pairs[0].0 == key {
            assert(pairs.update(0, (key, value)).drop_first() =~= pairs.drop_first());
            assert(pairs.update(0, (key, value))[0] == (key, value));
            assert(other != key ==> lookup(pairs.update(0, (key, value)), other) == lookup(
                pairs.drop_first(),
                other,
            ));
        } else {
            let s = seq![pairs[0]] + store(pairs.drop_first(), key, value);
            assert(s.drop_first() =~= store(pairs.drop_first(), key, value));
            assert(s[0] == pairs[0]);
        }
    } else {
        let s = seq![(key, value)];
        assert(s[0] == (key, value));
        assert(s.drop_first() =~= Seq::<(Seq<char>, Seq<char>)>::empty());
        assert(lookup(s.drop_first(), other) is None);
        assert(other != key ==> lookup(s, other) == lookup(s.drop_first(), other));
    }
}

} // verus!
