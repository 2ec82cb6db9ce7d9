//! A small map keyed by text that also lists its keys.

use vstd::prelude::*;

use crate::text;
use crate::text::texts;

verus! {

/// The values of a map of strings, by their views.
pub open spec fn text_map(m: Map<Seq<char>, String>) -> Map<Seq<char>, Seq<char>> {
    m.map_values(|v: String| v@)
}

/// A map from text to values. Every key occurs once; a new key goes to the
/// end, and a new value for a known key takes the place of the old one.
pub struct StrMap<V> {
    entries: Vec<(String, V)>,
}

/// The entry at `i` is the one for `k`.
spec fn holds_at<V>(entries: Seq<(String, V)>, k: Seq<char>, i: int) -> bool {
    0 <= i < entries.len() && entries[i].0@ == k
}

impl<V> View for StrMap<V> {
    type V = Map<Seq<char>, V>;

    closed spec fn view(&self) -> Map<Seq<char>, V> {
        Map::new(
            |k: Seq<char>| exists|i: int| holds_at(self.entries@, k, i),
            |k: Seq<char>| self.entries@[choose|i: int| holds_at(self.entries@, k, i)].1,
        )
    }
}

impl<V> StrMap<V> {
    #[verifier::type_invariant]
    spec fn distinct(self) -> bool {
        forall|k: Seq<char>, i: int, j: int|
            holds_at(self.entries@, k, i) && holds_at(self.entries@, k, j) ==> i == j
    }

    /// The keys, in the order in which they were first inserted.
    pub closed spec fn key_seq(&self) -> Seq<Seq<char>> {
        self.entries@.map_values(|e: (String, V)| e.0@)
    }

    /// An empty map.
    pub fn new() -> (r: Self)
        ensures
            r@ == Map::<Seq<char>, V>::empty(),
            r.key_seq() == Seq::<Seq<char>>::empty(),
    {
        let r = StrMap { entries: Vec::new() };
        assert(r@ =~= Map::empty());
        assert(r.key_seq() =~= Seq::empty());
        r
    }

    /// Where `k` stands among the entries.
    fn position(&self, k: &str) -> (r: Option<usize>)
        ensures
            r matches Some(i) ==> holds_at(self.entries@, k@, i as int),
            r is None ==> forall|i: int| !holds_at(self.entries@, k@, i),
    {
        for i in 0..self.entries.len()
            invariant
                forall|j: int| j < i ==> !holds_at(self.entries@, k@, j),
        {
            if text::same(self.entries[i].0.as_str(), k) {
                return Some(i);
            }
        }
        None
    }

    /// The value for `k`.
    pub fn get(&self, k: &str) -> (r: Option<&V>)
        ensures
            match r {
                Some(v) => self@.contains_key(k@) && *v == self@[k@],
                None => !self@.contains_key(k@),
            },
    {
        proof {
            use_type_invariant(self);
        }
        match self.position(k) {
            Some(i) => Some(&self.entries[i].1),
            None => None,
        }
    }

    /// Makes `v` the value for `k`.
    pub fn insert(&mut self, k: String, v: V)
        ensures
            final(self)@ == old(self)@.insert(k@, v),
            final(self).key_seq() == if old(self)@.contains_key(k@) {
                old(self).key_seq()
            } else {
                old(self).key_seq().push(k@)
            },
    {
        proof {
            use_type_invariant(&*self);
        }
        let ghost was = *self;
        let ghost key = k@;
        let at = self.position(k.as_str());
        let mut entries: Vec<(String, V)> = Vec::new();
        std::mem::swap(&mut entries, &mut self.entries);
        match at {
            Some(i) => {
                entries[i] = (k, v);
                proof {
                    assert forall|q: Seq<char>, j: int|
                        #[trigger] holds_at(entries@, q, j) == holds_at(was.entries@, q, j) by {}
                    assert(holds_at(entries@, key, i as int));
                }
            },
            None => {
                entries.push((k, v));
                proof {
                    assert forall|q: Seq<char>, j: int|
                        #[trigger] holds_at(entries@, q, j) == (holds_at(was.entries@, q, j) || (j
                            == was.entries@.len() && q == key)) by {}
                    assert(holds_at(entries@, key, was.entries@.len() as int));
                }
            },
        }
        assert(forall|q: Seq<char>, i: int, j: int|
            holds_at(entries@, q, i) && holds_at(entries@, q, j) ==> i == j);
        self.entries = entries;
        proof {
            assert forall|q: Seq<char>| self@.contains_key(q) == was@.insert(key, v).contains_key(q) by {
                if was@.contains_key(q) {
                    let i = choose|i: int| holds_at(was.entries@, q, i);
                    assert(holds_at(self.entries@, q, i));
                }
            }
            assert forall|q: Seq<char>| self@.contains_key(q) implies self@[q] == was@.insert(key, v)[q] by {
                let i = choose|i: int| holds_at(self.entries@, q, i);
                if q != key {
                    assert(holds_at(was.entries@, q, i));
                }
            }
            assert(self@ =~= was@.insert(key, v));
            assert(self.key_seq() =~= if was@.contains_key(key) {
                was.key_seq()
            } else {
                was.key_seq().push(key)
            });
        }
    }

    /// How many keys there are.
    pub fn len(&self) -> (r: usize)
        ensures
            r == self.key_seq().len(),
    {
        self.entries.len()
    }

    /// The `i`th key with its value.
    pub fn entry(&self, i: usize) -> (r: (&String, &V))
        requires
            i < self.key_seq().len(),
        ensures
            r.0@ == self.key_seq()[i as int],
            self@.contains_key(r.0@),
            *r.1 == self@[r.0@],
    {
        proof {
            use_type_invariant(self);
            assert(holds_at(self.entries@, self.entries@[i as int].0@, i as int));
        }
        let e = &self.entries[i];
        (&e.0, &e.1)
    }

    /// All keys: each once, in the order in which they were first inserted.
    pub fn keys(&self) -> (r: Vec<String>)
        ensures
            texts(r@) == self.key_seq(),
            self.key_seq().no_duplicates(),
            forall|k: Seq<char>| self@.contains_key(k) <==> self.key_seq().contains(k),
    {
        let mut r: Vec<String> = Vec::new();
        assert(texts(r@) =~= self.key_seq().take(0));
        for i in 0..self.entries.len()
            invariant
                texts(r@) == self.key_seq().take(i as int),
        {
            broadcast use text::lemma_texts_push;

            r.push(self.entries[i].0.clone());
            assert(self.key_seq().take(i + 1) =~= self.key_seq().take(i as int).push(
                self.entries@[i as int].0@,
            ));
        }
        proof {
            use_type_invariant(self);
            assert(self.key_seq().take(self.entries@.len() as int) =~= self.key_seq());
            let ks = self.key_seq();
            assert forall|i: int, j: int| 0 <= i < ks.len() && 0 <= j < ks.len() && i != j implies ks[i]
                != ks[j] by {
                assert(holds_at(self.entries@, ks[i], i) && holds_at(self.entries@, ks[j], j));
            }
            assert forall|k: Seq<char>| self@.contains_key(k) implies ks.contains(k) by {
                let i = choose|i: int| holds_at(self.entries@, k, i);
                assert(ks[i] == k);
            }
            assert forall|k: Seq<char>| ks.contains(k) implies self@.contains_key(k) by {
                let i = choose|i: int| 0 <= i < ks.len() && ks[i] == k;
                assert(holds_at(self.entries@, k, i));
            }
        }
        r
    }
}

} // verus!
