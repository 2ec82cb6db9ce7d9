//! The formula index, and when a cached copy of it may be used.

use vstd::hash_map::StringHashMap;
use vstd::prelude::*;

use crate::formula::Formula;
use crate::text::texts;

verus! {

/// For how many seconds a cached index stays fresh.
pub const CACHE_TTL: u64 = 86400;

/// What is known of the age of the cached index.
pub enum CacheAge {
    /// There is no cached index, or its modification time cannot be read.
    Missing,
    /// The modification time lies in the future.
    Unknown,
    /// Whole seconds since the last modification.
    Seconds(u64),
}

/// Whether the cached index may be used instead of fetching a new one.
pub fn cache_is_fresh(force: bool, age: CacheAge) -> (r: bool)
    ensures
        r == (!force && age is Seconds && age->Seconds_0 < 24 * 60 * 60),
{
    if force {
        return false;
    }
    match age {
        CacheAge::Seconds(s) => s < CACHE_TTL,
        _ => false,
    }
}

/// The further names of a formula: its aliases and its old names.
pub open spec fn further_names(f: Formula) -> Seq<Seq<char>> {
    texts(f.aliases@) + texts(f.oldnames@)
}

/// The formula at `i` has the name `k`.
pub open spec fn named(fs: Seq<Formula>, k: Seq<char>, i: int) -> bool {
    0 <= i < fs.len() && fs[i].name@ == k
}

/// The formula at `i` has `k` among its further names.
pub open spec fn known_as(fs: Seq<Formula>, k: Seq<char>, i: int) -> bool {
    0 <= i < fs.len() && further_names(fs[i]).contains(k)
}

/// `k` stands for the formula at `i`: the last formula of that name, or, where
/// no formula has that name, the first that lists it as an alias or old name.
pub open spec fn stands_for(fs: Seq<Formula>, k: Seq<char>, i: int) -> bool {
    ||| named(fs, k, i) && forall|j: int| j > i ==> !named(fs, k, j)
    ||| (forall|j: int| !named(fs, k, j)) && known_as(fs, k, i) && forall|j: int|
        j < i ==> !known_as(fs, k, j)
}

/// The position of the formula that `k` stands for.
pub open spec fn lookup(fs: Seq<Formula>, k: Seq<char>) -> Option<int> {
    if exists|i: int| stands_for(fs, k, i) {
        Some(choose|i: int| stands_for(fs, k, i))
    } else {
        None
    }
}

/// A name stands for at most one formula.
pub proof fn lemma_lookup(fs: Seq<Formula>, k: Seq<char>)
    ensures
        forall|i: int| stands_for(fs, k, i) ==> lookup(fs, k) == Some(i),
        lookup(fs, k) matches Some(i) ==> stands_for(fs, k, i) && 0 <= i < fs.len(),
{
    assert forall|i: int| stands_for(fs, k, i) implies lookup(fs, k) == Some(i) by {
        let j = choose|j: int| stands_for(fs, k, j);
        assert(stands_for(fs, k, j));
    }
}

/// A table with `k` entered for `i` unless it has `k` already, for each `k`.
spec fn absorbed(m: Map<Seq<char>, usize>, ks: Seq<Seq<char>>, i: usize) -> Map<Seq<char>, usize> {
    Map::new(
        |k: Seq<char>| m.contains_key(k) || ks.contains(k),
        |k: Seq<char>|
            if m.contains_key(k) {
                m[k]
            } else {
                i
            },
    )
}

/// `m` tells of every name which of the formulae it stands for.
spec fn tells(m: Map<Seq<char>, usize>, fs: Seq<Formula>) -> bool {
    forall|k: Seq<char>|
        (#[trigger] m.contains_key(k) <==> lookup(fs, k) is Some) && (m.contains_key(k) ==> m[k]
            == lookup(fs, k)->0)
}

/// Entering one more formula.
proof fn lemma_tells_push(m: Map<Seq<char>, usize>, fs: Seq<Formula>, f: Formula)
    requires
        tells(m, fs),
        fs.len() < usize::MAX,
    ensures
        tells(
            absorbed(m.insert(f.name@, fs.len() as usize), further_names(f), fs.len() as usize),
            fs.push(f),
        ),
{
    let n = fs.len() as int;
    let gs = fs.push(f);
    let m2 = absorbed(m.insert(f.name@, n as usize), further_names(f), n as usize);
    assert forall|k: Seq<char>|
        (#[trigger] m2.contains_key(k) <==> lookup(gs, k) is Some) && (m2.contains_key(k) ==> m2[k]
            == lookup(gs, k)->0) by {
        lemma_lookup(fs, k);
        lemma_lookup(gs, k);
        assert forall|j: int| named(gs, k, j) == (named(fs, k, j) || (j == n && f.name@ == k)) by {}
        assert forall|j: int| known_as(gs, k, j) == (known_as(fs, k, j) || (j == n && further_names(
            f,
        ).contains(k))) by {}
        if f.name@ == k {
            assert(named(gs, k, n));
            assert(stands_for(gs, k, n));
        } else if m.contains_key(k) {
            let i = lookup(fs, k)->0;
            assert(stands_for(fs, k, i));
            assert(stands_for(gs, k, i));
        } else if further_names(f).contains(k) {
            assert(known_as(gs, k, n));
            assert(forall|j: int| !stands_for(fs, k, j));
            lemma_absent(fs, k);
            assert(stands_for(gs, k, n));
        } else {
            lemma_absent(fs, k);
            assert(forall|j: int| !stands_for(gs, k, j));
        }
    }
}

/// A name that stands for no formula is no formula's name or further name.
proof fn lemma_absent(fs: Seq<Formula>, k: Seq<char>)
    ensures
        lookup(fs, k) is None ==> forall|j: int| !named(fs, k, j) && !known_as(fs, k, j),
    decreases fs.len(),
{
    lemma_lookup(fs, k);
    if lookup(fs, k) is None {
        if exists|j: int| named(fs, k, j) {
            lemma_last_named(fs, k, fs.len() as int - 1);
        } else if exists|j: int| known_as(fs, k, j) {
            lemma_first_known(fs, k, 0);
        }
    }
}

proof fn lemma_last_named(fs: Seq<Formula>, k: Seq<char>, i: int)
    requires
        exists|j: int| named(fs, k, j),
        forall|j: int| j > i ==> !named(fs, k, j),
        i < fs.len(),
    ensures
        exists|j: int| stands_for(fs, k, j),
    decreases i + 1,
{
    let w = choose|j: int| named(fs, k, j);
    if named(fs, k, i) {
        assert(stands_for(fs, k, i));
    } else {
        assert(w <= i);
        lemma_last_named(fs, k, i - 1);
    }
}

proof fn lemma_first_known(fs: Seq<Formula>, k: Seq<char>, i: int)
    requires
        forall|j: int| !named(fs, k, j),
        exists|j: int| known_as(fs, k, j),
        forall|j: int| j < i ==> !known_as(fs, k, j),
        0 <= i,
    ensures
        exists|j: int| stands_for(fs, k, j),
    decreases fs.len() - i,
{
    let w = choose|j: int| known_as(fs, k, j);
    if known_as(fs, k, i) {
        assert(stands_for(fs, k, i));
    } else {
        assert(w >= i);
        lemma_first_known(fs, k, i + 1);
    }
}

/// The formula index: name -> formula, with aliases and old names folded in
/// so that `python` finds python@3.x.
pub struct Index {
    formulae: Vec<Formula>,
    by_name: StringHashMap<usize>,
}

impl View for Index {
    type V = Seq<Formula>;

    closed spec fn view(&self) -> Seq<Formula> {
        self.formulae@
    }
}

/// Enters `k` for `i` unless it is there already.
fn enter(m: &mut StringHashMap<usize>, k: &String, i: usize)
    ensures
        final(m)@ == (if old(m)@.contains_key(k@) {
            old(m)@
        } else {
            old(m)@.insert(k@, i)
        }),
{
    if !m.contains_key(k.as_str()) {
        m.insert(k.clone(), i);
    }
}

/// Enters each of `ks` for `i` unless it is there already.
fn enter_all(m: &mut StringHashMap<usize>, ks: &Vec<String>, i: usize)
    ensures
        final(m)@ == absorbed(old(m)@, texts(ks@), i),
{
    let ghost m0 = m@;
    assert(m@ =~= absorbed(m0, texts(ks@).take(0), i));
    for j in 0..ks.len()
        invariant
            m@ == absorbed(m0, texts(ks@).take(j as int), i),
    {
        enter(m, &ks[j], i);
        proof {
            let a = texts(ks@).take(j as int);
            let b = texts(ks@).take(j + 1);
            assert(b =~= a.push(ks@[j as int]@));
            assert(forall|k: Seq<char>| b.contains(k) <==> a.contains(k) || k == ks@[j as int]@) by {
                assert(b[j as int] == ks@[j as int]@);
                assert forall|k: Seq<char>| a.contains(k) implies b.contains(k) by {
                    let p = choose|p: int| 0 <= p < a.len() && a[p] == k;
                    assert(b[p] == k);
                }
            }
            assert(m@ =~= absorbed(m0, b, i));
        }
    }
    assert(texts(ks@).take(ks@.len() as int) =~= texts(ks@));
}

impl Index {
    #[verifier::type_invariant]
    spec fn consistent(self) -> bool {
        tells(self.by_name@, self.formulae@)
    }

    /// The index of the given formulae.
    pub fn from_formulae(formulae: Vec<Formula>) -> (r: Index)
        ensures
            r@ == formulae@,
    {
        let mut by_name: StringHashMap<usize> = StringHashMap::new();
        assert(tells(by_name@, formulae@.take(0))) by {
            assert forall|k: Seq<char>| lookup(formulae@.take(0), k) is None by {
                lemma_lookup(formulae@.take(0), k);
            }
        }
        for i in 0..formulae.len()
            invariant
                tells(by_name@, formulae@.take(i as int)),
        {
            let ghost m0 = by_name@;
            let f = &formulae[i];
            by_name.insert(f.name.clone(), i);
            let ghost m1 = by_name@;
            enter_all(&mut by_name, &f.aliases, i);
            enter_all(&mut by_name, &f.oldnames, i);
            proof {
                let a = texts(f.aliases@);
                let b = texts(f.oldnames@);
                assert(forall|k: Seq<char>| (a + b).contains(k) <==> a.contains(k) || b.contains(k)) by {
                    assert forall|k: Seq<char>| a.contains(k) implies (a + b).contains(k) by {
                        let p = choose|p: int| 0 <= p < a.len() && a[p] == k;
                        assert((a + b)[p] == k);
                    }
                    assert forall|k: Seq<char>| b.contains(k) implies (a + b).contains(k) by {
                        let p = choose|p: int| 0 <= p < b.len() && b[p] == k;
                        assert((a + b)[a.len() + p] == k);
                    }
                }
                assert(by_name@ =~= absorbed(m1, further_names(*f), i));
                lemma_tells_push(m0, formulae@.take(i as int), *f);
                assert(formulae@.take(i + 1) =~= formulae@.take(i as int).push(*f));
            }
        }
        assert(formulae@.take(formulae@.len() as int) =~= formulae@);
        Index { formulae, by_name }
    }

    /// The position of the formula that `name` stands for.
    pub fn position(&self, name: &str) -> (r: Option<usize>)
        ensures
            r is Some == lookup(self@, name@) is Some,
            r matches Some(i) ==> i < self@.len() && lookup(self@, name@) == Some(i as int),
    {
        proof {
            use_type_invariant(self);
            lemma_lookup(self@, name@);
        }
        match self.by_name.get(name) {
            Some(i) => Some(*i),
            None => None,
        }
    }

    /// The formula that `name` stands for.
    pub fn get(&self, name: &str) -> (r: Option<&Formula>)
        ensures
            match lookup(self@, name@) {
                Some(i) => 0 <= i < self@.len() && r == Some(&self@[i]),
                None => r is None,
            },
    {
        match self.position(name) {
            Some(i) => Some(&self.formulae[i]),
            None => None,
        }
    }

    /// All formulae, in the order in which they were given.
    pub fn all(&self) -> (r: &Vec<Formula>)
        ensures
            r@ == self@,
    {
        &self.formulae
    }
}

/// Law: the name of a formula stands for the last formula of that name, whatever
/// aliases there are; any other name for the first formula that has it as an
/// alias or an old name; and a name that no formula has in any of these ways
/// stands for none.
pub proof fn law_names_go_before_aliases(fs: Seq<Formula>, k: Seq<char>)
    ensures
        forall|i: int|
            0 <= i < fs.len() && (#[trigger] fs[i]).name@ == k && (forall|j: int|
                i < j < fs.len() ==> (#[trigger] fs[j]).name@ != k) ==> lookup(fs, k) == Some(i),
        (forall|j: int| 0 <= j < fs.len() ==> (#[trigger] fs[j]).name@ != k) ==> {
            &&& forall|i: int|
                0 <= i < fs.len() && (texts((#[trigger] fs[i]).aliases@).contains(k) || texts(
                    fs[i].oldnames@,
                ).contains(k)) && (forall|j: int|
                    0 <= j < i ==> !texts((#[trigger] fs[j]).aliases@).contains(k) && !texts(
                        fs[j].oldnames@,
                    ).contains(k)) ==> lookup(fs, k) == Some(i)
            &&& (forall|j: int|
                0 <= j < fs.len() ==> !texts((#[trigger] fs[j]).aliases@).contains(k) && !texts(
                    fs[j].oldnames@,
                ).contains(k)) ==> lookup(fs, k) is None
        },
        lookup(fs, k) matches Some(i) ==> 0 <= i < fs.len() && (fs[i].name@ == k || texts(
            fs[i].aliases@,
        ).contains(k) || texts(fs[i].oldnames@).contains(k)),
        (exists|i: int|
            0 <= i < fs.len() && ((#[trigger] fs[i]).name@ == k || texts(fs[i].aliases@).contains(k) || texts(
                fs[i].oldnames@,
            ).contains(k))) ==> lookup(fs, k) is Some,
{
    lemma_lookup(fs, k);
    lemma_absent(fs, k);
    assert forall|i: int| 0 <= i < fs.len() implies #[trigger] known_as(fs, k, i) == (texts(
        fs[i].aliases@,
    ).contains(k) || texts(fs[i].oldnames@).contains(k)) by {
        let a = texts(fs[i].aliases@);
        let b = texts(fs[i].oldnames@);
        if a.contains(k) {
            let q = choose|q: int| 0 <= q < a.len() && a[q] == k;
            assert((a + b)[q] == k);
        }
        if b.contains(k) {
            let q = choose|q: int| 0 <= q < b.len() && b[q] == k;
            assert((a + b)[a.len() + q] == k);
        }
        if (a + b).contains(k) {
            let q = choose|q: int| 0 <= q < (a + b).len() && (a + b)[q] == k;
            if q < a.len() {
                assert(a[q] == k);
            } else {
                assert(b[q - a.len()] == k);
            }
        }
    }
    assert forall|i: int|
        0 <= i < fs.len() && (#[trigger] fs[i]).name@ == k && (forall|j: int|
            i < j < fs.len() ==> (#[trigger] fs[j]).name@ != k) implies lookup(fs, k) == Some(i) by {
        assert(named(fs, k, i));
        assert forall|j: int| j > i implies !named(fs, k, j) by {}
        assert(stands_for(fs, k, i));
    }
    if forall|j: int| 0 <= j < fs.len() ==> (#[trigger] fs[j]).name@ != k {
        assert forall|i: int|
            0 <= i < fs.len() && (texts((#[trigger] fs[i]).aliases@).contains(k) || texts(
                fs[i].oldnames@,
            ).contains(k)) && (forall|j: int|
                0 <= j < i ==> !texts((#[trigger] fs[j]).aliases@).contains(k) && !texts(
                    fs[j].oldnames@,
                ).contains(k)) implies lookup(fs, k) == Some(i) by {
            assert(known_as(fs, k, i));
            assert forall|j: int| j < i implies !known_as(fs, k, j) by {
                if 0 <= j {
                    assert(fs[j].name@ != k);
                }
            }
            assert(stands_for(fs, k, i));
        }
        if forall|j: int|
            0 <= j < fs.len() ==> !texts((#[trigger] fs[j]).aliases@).contains(k) && !texts(
                fs[j].oldnames@,
            ).contains(k) {
            assert forall|i: int| !stands_for(fs, k, i) by {
                if 0 <= i < fs.len() {
                    assert(fs[i].name@ != k);
                    assert(!known_as(fs, k, i));
                }
            }
        }
    }
    if let Some(i) = lookup(fs, k) {
        assert(stands_for(fs, k, i));
        assert(named(fs, k, i) || known_as(fs, k, i));
    } else {
        assert forall|i: int| 0 <= i < fs.len() implies !((#[trigger] fs[i]).name@ == k || texts(
            fs[i].aliases@,
        ).contains(k) || texts(fs[i].oldnames@).contains(k)) by {
            assert(!named(fs, k, i) && !known_as(fs, k, i));
        }
    }
}

} // verus!
