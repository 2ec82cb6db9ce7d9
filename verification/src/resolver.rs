//! Dependency resolution: from requested names to an install order.

use vstd::hash_set::StringHashSet;
use vstd::prelude::*;

use crate::api::{lemma_lookup, lookup, Index};
use crate::formula::Formula;
use crate::text;
use crate::text::{positions, texts};

verus! {

/// Why a set of names cannot be resolved.
pub enum ResolveError {
    /// A requested name stands for no formula.
    UnknownRoot(String),
    /// A formula depends on a name that stands for no formula.
    UnknownDep { name: String, dep: String },
    /// A formula depends on itself, directly or through others.
    Cycle(String),
}

/// The meaning of a `ResolveError`.
pub enum ResolveErrorV {
    UnknownRoot(Seq<char>),
    UnknownDep { name: Seq<char>, dep: Seq<char> },
    Cycle(Seq<char>),
}

impl View for ResolveError {
    type V = ResolveErrorV;

    open spec fn view(&self) -> ResolveErrorV {
        match self {
            ResolveError::UnknownRoot(n) => ResolveErrorV::UnknownRoot(n@),
            ResolveError::UnknownDep { name, dep } => ResolveErrorV::UnknownDep {
                name: name@,
                dep: dep@,
            },
            ResolveError::Cycle(n) => ResolveErrorV::Cycle(n@),
        }
    }
}

impl ResolveErrorV {
    /// What the user is told.
    pub open spec fn message(self) -> Seq<char> {
        match self {
            ResolveErrorV::UnknownRoot(n) => "no such formula: "@ + n,
            ResolveErrorV::UnknownDep { name, dep } => name + " depends on unknown formula "@ + dep,
            ResolveErrorV::Cycle(n) => "dependency cycle involving "@ + n,
        }
    }
}

impl ResolveError {
    /// What the user is told.
    pub fn message(&self) -> (r: String)
        ensures
            r@ == self@.message(),
    {
        match self {
            ResolveError::UnknownRoot(n) => "no such formula: ".to_string().concat(n.as_str()),
            ResolveError::UnknownDep { name, dep } => name.clone().concat(
                " depends on unknown formula ",
            ).concat(dep.as_str()),
            ResolveError::Cycle(n) => "dependency cycle involving ".to_string().concat(n.as_str()),
        }
    }
}

/// The names of all formulae.
pub open spec fn all_names(fs: Seq<Formula>) -> Set<Seq<char>> {
    fs.map_values(|f: Formula| f.name@).to_set()
}

/// The names of the formulae at the given positions.
pub open spec fn names_of(fs: Seq<Formula>, order: Seq<int>) -> Seq<Seq<char>> {
    order.map_values(|i: int| fs[i].name@)
}

/// The dependencies of the formula at `i`.
pub open spec fn deps_of(fs: Seq<Formula>, i: int) -> Seq<Seq<char>> {
    texts(fs[i].dependencies@)
}

/// Taking one more name onto the path leaves fewer names off it.
pub proof fn lemma_path_grows(fs: Seq<Formula>, path: Set<Seq<char>>, i: int)
    requires
        0 <= i < fs.len(),
        !path.contains(fs[i].name@),
    ensures
        all_names(fs).difference(path.insert(fs[i].name@)).len() < all_names(fs).difference(
            path,
        ).len(),
{
    let ns = fs.map_values(|f: Formula| f.name@);
    let n = fs[i].name@;
    assert(ns[i] == n);
    vstd::seq_lib::seq_to_set_is_finite(ns);
    assert(all_names(fs).contains(n));
    assert(all_names(fs).difference(path.insert(n)) =~= all_names(fs).difference(path).remove(n));
}

/// Visits the formulae that `ds` stand for one after another, each after its
/// own dependencies, and appends them to `order` unless a formula of that name
/// is in it. `owner` is the formula that lists `ds` (none for the requested
/// names themselves), and `path` holds the names that are being visited.
pub open spec fn walk(
    fs: Seq<Formula>,
    owner: Option<Seq<char>>,
    ds: Seq<Seq<char>>,
    path: Set<Seq<char>>,
    order: Seq<int>,
) -> Result<Seq<int>, ResolveErrorV>
    decreases all_names(fs).difference(path).len(), ds.len(),
{
    proof {
        if ds.len() > 0 {
            lemma_lookup(fs, ds[0]);
            if lookup(fs, ds[0]) is Some && !path.contains(fs[lookup(fs, ds[0])->0].name@) {
                lemma_path_grows(fs, path, lookup(fs, ds[0])->0);
            }
        }
    }
    if ds.len() == 0 {
        Ok(order)
    } else {
        match lookup(fs, ds[0]) {
            None => Err(
                match owner {
                    None => ResolveErrorV::UnknownRoot(ds[0]),
                    Some(name) => ResolveErrorV::UnknownDep { name, dep: ds[0] },
                },
            ),
            Some(i) => {
                let name = fs[i].name@;
                if names_of(fs, order).contains(name) {
                    walk(fs, owner, ds.skip(1), path, order)
                } else if path.contains(name) {
                    Err(ResolveErrorV::Cycle(name))
                } else {
                    match walk(fs, Some(name), deps_of(fs, i), path.insert(name), order) {
                        Err(e) => Err(e),
                        Ok(o) => walk(fs, owner, ds.skip(1), path, o.push(i)),
                    }
                }
            },
        }
    }
}

/// The install order for the requested names, as positions in the index.
pub open spec fn resolution(fs: Seq<Formula>, roots: Seq<Seq<char>>) -> Result<
    Seq<int>,
    ResolveErrorV,
> {
    walk(fs, None, roots, Set::empty(), Seq::empty())
}

/// The name of the owner of a list of dependencies.
pub open spec fn owner_name(fs: Seq<Formula>, owner: Option<usize>) -> Option<Seq<char>> {
    match owner {
        Some(i) => Some(fs[i as int].name@),
        None => None,
    }
}

/// Visits the formulae that `ds` stand for, as `walk` says.
fn visit(
    index: &Index,
    owner: Option<usize>,
    ds: &Vec<String>,
    done: &mut StringHashSet,
    in_progress: &mut StringHashSet,
    order: &mut Vec<usize>,
) -> (r: Result<(), ResolveError>)
    requires
        owner matches Some(i) ==> i < index@.len(),
        old(done)@ == names_of(index@, positions(old(order)@)).to_set(),
        forall|p: int| 0 <= p < old(order)@.len() ==> #[trigger] old(order)@[p] < index@.len(),
    ensures
        match walk(
            index@,
            owner_name(index@, owner),
            texts(ds@),
            old(in_progress)@,
            positions(old(order)@),
        ) {
            Ok(o) => {
                &&& r is Ok
                &&& positions(final(order)@) == o
                &&& final(in_progress)@ == old(in_progress)@
                &&& final(done)@ == names_of(index@, o).to_set()
                &&& forall|p: int|
                    0 <= p < final(order)@.len() ==> #[trigger] final(order)@[p] < index@.len()
            },
            Err(e) => r is Err && r->Err_0@ == e,
        },
    decreases all_names(index@).difference(old(in_progress)@).len(),
{
    let ghost fs = index@;
    let ghost who = owner_name(fs, owner);
    let ghost path = in_progress@;
    let ghost order0 = positions(order@);
    let ghost all = texts(ds@);
    assert(all.skip(0) =~= all);
    for k in 0..ds.len()
        invariant
            fs == index@,
            who == owner_name(fs, owner),
            owner matches Some(i) ==> i < index@.len(),
            all == texts(ds@),
            path == old(in_progress)@,
            in_progress@ == path,
            done@ == names_of(fs, positions(order@)).to_set(),
            forall|p: int| 0 <= p < order@.len() ==> #[trigger] order@[p] < index@.len(),
            order0 == positions(old(order)@),
            walk(fs, who, all.skip(k as int), path, positions(order@)) == walk(fs, who, all, path, order0),
    {
        let ghost rest = all.skip(k as int);
        proof {
            lemma_lookup(fs, rest[0]);
            assert(rest.skip(1) =~= all.skip(k + 1));
        }
        let i = match index.position(ds[k].as_str()) {
            Some(i) => i,
            None => {
                return Err(
                    match owner {
                        None => ResolveError::UnknownRoot(ds[k].clone()),
                        Some(o) => ResolveError::UnknownDep {
                            name: index.all()[o].name.clone(),
                            dep: ds[k].clone(),
                        },
                    },
                );
            },
        };
        let f = &index.all()[i];
        let ghost name = f.name@;
        if !done.contains(f.name.as_str()) {
            if in_progress.contains(f.name.as_str()) {
                return Err(ResolveError::Cycle(f.name.clone()));
            }
            proof {
                lemma_path_grows(fs, path, i as int);
            }
            in_progress.insert(f.name.clone());
            visit(index, Some(i), &f.dependencies, done, in_progress, order)?;
            let ghost o = positions(order@);
            in_progress.remove(f.name.as_str());
            done.insert(f.name.clone());
            order.push(i);
            proof {
                assert(in_progress@ =~= path);
                assert(positions(order@) =~= o.push(i as int));
                assert(names_of(fs, positions(order@)) =~= names_of(fs, o).push(name));
                text::lemma_push_to_set(names_of(fs, o), name);
            }
        }
    }
    Ok(())
}

/// Resolves the runtime dependency closure of `roots` into install order:
/// dependencies before dependents.
pub fn resolve<'a>(index: &'a Index, roots: &Vec<String>) -> (r: Result<
    Vec<&'a Formula>,
    ResolveError,
>)
    ensures
        match resolution(index@, texts(roots@)) {
            Ok(o) => r is Ok && r->Ok_0@.len() == o.len() && forall|p: int|
                0 <= p < o.len() ==> 0 <= o[p] < index@.len() && *(#[trigger] r->Ok_0@[p])
                    == index@[o[p]],
            Err(e) => r is Err && r->Err_0@ == e,
        },
{
    let mut done = StringHashSet::new();
    let mut in_progress = StringHashSet::new();
    let mut order: Vec<usize> = Vec::new();
    proof {
        assert(positions(order@) =~= Seq::empty());
        assert(names_of(index@, positions(order@)).to_set() =~= Set::empty());
    }
    visit(index, None, roots, &mut done, &mut in_progress, &mut order)?;
    let mut plan: Vec<&'a Formula> = Vec::new();
    for p in 0..order.len()
        invariant
            forall|q: int| 0 <= q < order@.len() ==> #[trigger] order@[q] < index@.len(),
            plan@.len() == p,
            forall|q: int| 0 <= q < p ==> *(#[trigger] plan@[q]) == index@[order@[q] as int],
    {
        plan.push(&index.all()[order[p]]);
    }
    proof {
        let o = positions(order@);
        assert forall|q: int| 0 <= q < o.len() implies 0 <= o[q] < index@.len() && *(
        #[trigger] plan@[q]) == index@[o[q]] by {
            assert(order@[q] < index@.len());
        }
    }
    Ok(plan)
}

/// The name `d` stands for a formula whose name occurs in `order` before `p`.
pub open spec fn settled(fs: Seq<Formula>, order: Seq<int>, p: int, d: Seq<char>) -> bool {
    lookup(fs, d) is Some && names_of(fs, order.take(p)).contains(fs[lookup(fs, d)->0].name@)
}

/// Every dependency of every formula in `order` is settled before it, and no
/// name occurs twice.
pub open spec fn ordered(fs: Seq<Formula>, order: Seq<int>) -> bool {
    &&& forall|p: int| 0 <= p < order.len() ==> 0 <= #[trigger] order[p] < fs.len()
    &&& forall|p: int, k: int|
        0 <= p < order.len() && 0 <= k < deps_of(fs, order[p]).len() ==> settled(
            fs,
            order,
            p,
            #[trigger] deps_of(fs, order[p])[k],
        )
    &&& names_of(fs, order).no_duplicates()
}

/// What one walk adds, given an order that is sound so far.
proof fn lemma_walk_ordered(
    fs: Seq<Formula>,
    owner: Option<Seq<char>>,
    ds: Seq<Seq<char>>,
    path: Set<Seq<char>>,
    order: Seq<int>,
)
    requires
        ordered(fs, order),
    ensures
        walk(fs, owner, ds, path, order) matches Ok(o) ==> {
            &&& ordered(fs, o)
            &&& order.len() <= o.len() && o.take(order.len() as int) == order
            &&& forall|p: int| order.len() <= p < o.len() ==> !path.contains(fs[#[trigger] o[p]].name@)
            &&& forall|k: int| 0 <= k < ds.len() ==> settled(fs, o, o.len() as int, #[trigger] ds[k])
        },
    decreases all_names(fs).difference(path).len(), ds.len(),
{
    if ds.len() == 0 {
        assert(order.take(order.len() as int) =~= order);
    } else {
        lemma_lookup(fs, ds[0]);
        if let Some(i) = lookup(fs, ds[0]) {
            let name = fs[i].name@;
            let rest = ds.skip(1);
            if names_of(fs, order).contains(name) {
                lemma_walk_ordered(fs, owner, rest, path, order);
                if let Ok(o) = walk(fs, owner, ds, path, order) {
                    lemma_settled_stays(fs, order, o, ds[0]);
                    lemma_settled_first(fs, o, ds);
                }
            } else if !path.contains(name) {
                lemma_path_grows(fs, path, i);
                lemma_walk_ordered(fs, Some(name), deps_of(fs, i), path.insert(name), order);
                if let Ok(o1) = walk(fs, Some(name), deps_of(fs, i), path.insert(name), order) {
                    let o2 = o1.push(i);
                    lemma_push_ordered(fs, order, o1, i, path.insert(name));
                    lemma_walk_ordered(fs, owner, rest, path, o2);
                    if let Ok(o) = walk(fs, owner, ds, path, order) {
                        assert(o.take(order.len() as int) =~= o.take(o2.len() as int).take(order.len() as int));
                        assert(o2.take(order.len() as int) =~= o1.take(order.len() as int));
                        assert forall|p: int| order.len() <= p < o.len() implies !path.contains(fs[#[trigger] o[p]].name@) by {
                            if p < o2.len() {
                                assert(o.take(o2.len() as int)[p] == o[p]);
                                assert(o[p] == o2[p]);
                                if p < o1.len() {
                                    assert(!path.insert(name).contains(fs[o1[p]].name@));
                                }
                            }
                        }
                        assert(names_of(fs, o2).contains(name)) by {
                            assert(names_of(fs, o2)[o1.len() as int] == name);
                        }
                        lemma_settled_stays(fs, o2, o, ds[0]);
                        lemma_settled_first(fs, o, ds);
                    }
                }
            }
        }
    }
}

proof fn lemma_settled_first(fs: Seq<Formula>, o: Seq<int>, ds: Seq<Seq<char>>)
    requires
        ds.len() > 0,
        settled(fs, o, o.len() as int, ds[0]),
        forall|k: int| 0 <= k < ds.skip(1).len() ==> settled(fs, o, o.len() as int, #[trigger] ds.skip(1)[k]),
    ensures
        forall|k: int| 0 <= k < ds.len() ==> settled(fs, o, o.len() as int, #[trigger] ds[k]),
{
    assert forall|k: int| 0 <= k < ds.len() implies settled(fs, o, o.len() as int, #[trigger] ds[k]) by {
        if k > 0 {
            assert(ds.skip(1)[k - 1] == ds[k]);
        }
    }
}

/// What is settled by an order is settled by every extension of it.
proof fn lemma_settled_stays(fs: Seq<Formula>, a: Seq<int>, b: Seq<int>, d: Seq<char>)
    requires
        a.len() <= b.len(),
        b.take(a.len() as int) == a,
        lookup(fs, d) is Some,
        names_of(fs, a).contains(fs[lookup(fs, d)->0].name@),
    ensures
        settled(fs, b, b.len() as int, d),
{
    let n = fs[lookup(fs, d)->0].name@;
    let q = choose|q: int| 0 <= q < a.len() && names_of(fs, a)[q] == n;
    assert(b.take(a.len() as int)[q] == b[q]);
    assert(b.take(b.len() as int) =~= b);
    assert(names_of(fs, b)[q] == n);
}

/// Appending a formula whose dependencies are settled keeps an order sound.
proof fn lemma_push_ordered(fs: Seq<Formula>, order: Seq<int>, o1: Seq<int>, i: int, path: Set<Seq<char>>)
    requires
        ordered(fs, o1),
        0 <= i < fs.len(),
        order.len() <= o1.len(),
        o1.take(order.len() as int) == order,
        path.contains(fs[i].name@),
        !names_of(fs, order).contains(fs[i].name@),
        forall|p: int| order.len() <= p < o1.len() ==> !path.contains(fs[#[trigger] o1[p]].name@),
        forall|k: int| 0 <= k < deps_of(fs, i).len() ==> settled(fs, o1, o1.len() as int, #[trigger] deps_of(fs, i)[k]),
    ensures
        ordered(fs, o1.push(i)),
{
    let o2 = o1.push(i);
    let name = fs[i].name@;
    assert forall|p: int, k: int| 0 <= p < o2.len() && 0 <= k < deps_of(fs, o2[p]).len() implies settled(
        fs, o2, p, #[trigger] deps_of(fs, o2[p])[k]) by {
        assert(o2.take(p) =~= o1.take(p));
        if p < o1.len() {
            assert(settled(fs, o1, p, deps_of(fs, o1[p])[k]));
        } else {
            assert(settled(fs, o1, o1.len() as int, deps_of(fs, i)[k]));
        }
    }
    assert(names_of(fs, o2) =~= names_of(fs, o1).push(name));
    assert forall|p: int| 0 <= p < o1.len() implies names_of(fs, o1)[p] != name by {
        if p < order.len() {
            assert(o1.take(order.len() as int)[p] == o1[p]);
            assert(names_of(fs, order)[p] == names_of(fs, o1)[p]);
        } else {
            assert(!path.contains(fs[o1[p]].name@));
        }
    }
}

/// Law: in an install order every dependency stands before its dependents, no
/// formula occurs twice, and every requested formula occurs.
pub proof fn law_deps_before_dependents(fs: Seq<Formula>, roots: Seq<Seq<char>>, order: Seq<int>)
    requires
        resolution(fs, roots) == Ok::<Seq<int>, ResolveErrorV>(order),
    ensures
        ordered(fs, order),
        forall|k: int| 0 <= k < roots.len() ==> settled(fs, order, order.len() as int, #[trigger] roots[k]),
{
    lemma_walk_ordered(fs, None, roots, Set::empty(), Seq::empty());
}

/// A dependency of the formula at `i` stands for the formula at `j`.
pub open spec fn needs(fs: Seq<Formula>, i: int, j: int) -> bool {
    exists|k: int| 0 <= k < deps_of(fs, i).len() && lookup(fs, #[trigger] deps_of(fs, i)[k]) == Some(j)
}

/// Each formula of the chain needs the next.
pub open spec fn chained(fs: Seq<Formula>, chain: Seq<int>) -> bool {
    forall|k: int| 0 <= k < chain.len() - 1 ==> needs(fs, #[trigger] chain[k], chain[k + 1])
}

/// The formula at `j` is requested, or needed by requested ones through a
/// chain of dependencies.
pub open spec fn reached(fs: Seq<Formula>, roots: Seq<Seq<char>>, j: int) -> bool {
    exists|chain: Seq<int>| #[trigger] reaches(fs, roots, chain, j)
}

/// `chain` leads from a requested formula to the one at `j`.
pub open spec fn reaches(fs: Seq<Formula>, roots: Seq<Seq<char>>, chain: Seq<int>, j: int) -> bool {
    &&& chain.len() > 0
    &&& chain.last() == j
    &&& exists|k: int| 0 <= k < roots.len() && lookup(fs, #[trigger] roots[k]) == Some(chain[0])
    &&& chained(fs, chain)
}

/// A chain of needed formulae leads from a formula back to its name.
pub open spec fn cyclic(fs: Seq<Formula>, roots: Seq<Seq<char>>, name: Seq<char>) -> bool {
    exists|chain: Seq<int>| #[trigger] loops_back(fs, roots, chain, name)
}

/// `chain` is such a chain.
pub open spec fn loops_back(fs: Seq<Formula>, roots: Seq<Seq<char>>, chain: Seq<int>, name: Seq<char>) -> bool {
    &&& chain.len() >= 2
    &&& chained(fs, chain)
    &&& fs[chain[0]].name@ == name
    &&& fs[chain.last()].name@ == name
    &&& forall|k: int| 0 <= k < chain.len() ==> reached(fs, roots, #[trigger] chain[k])
}

/// A formula that is reached depends on a name that stands for no formula.
pub open spec fn dangling(fs: Seq<Formula>, roots: Seq<Seq<char>>, name: Seq<char>, dep: Seq<char>) -> bool {
    lookup(fs, dep) is None && exists|i: int|
        #[trigger] reached(fs, roots, i) && fs[i].name@ == name && deps_of(fs, i).contains(dep)
}

/// What is needed by a formula that is reached is reached.
proof fn lemma_reached_step(fs: Seq<Formula>, roots: Seq<Seq<char>>, i: int, j: int)
    requires
        reached(fs, roots, i),
        needs(fs, i, j),
    ensures
        reached(fs, roots, j),
{
    let chain = choose|chain: Seq<int>| #[trigger] reaches(fs, roots, chain, i);
    let longer = chain.push(j);
    assert forall|k: int| 0 <= k < longer.len() - 1 implies needs(fs, #[trigger] longer[k], longer[k + 1]) by {
        if k < chain.len() - 1 {
            assert(needs(fs, chain[k], chain[k + 1]));
        }
    }
    assert(reaches(fs, roots, longer, j));
}

/// The list of names that is being visited at the end of `trail`.
spec fn listed(fs: Seq<Formula>, roots: Seq<Seq<char>>, trail: Seq<int>) -> Seq<Seq<char>> {
    if trail.len() == 0 {
        roots
    } else {
        deps_of(fs, trail.last())
    }
}

/// The formulae that are being visited, outermost first.
spec fn trail_of(
    fs: Seq<Formula>,
    roots: Seq<Seq<char>>,
    trail: Seq<int>,
    owner: Option<Seq<char>>,
    path: Set<Seq<char>>,
) -> bool {
    &&& path == names_of(fs, trail).to_set()
    &&& owner == if trail.len() == 0 {
        None
    } else {
        Some(fs[trail.last()].name@)
    }
    &&& chained(fs, trail)
    &&& forall|k: int| 0 <= k < trail.len() ==> reached(fs, roots, #[trigger] trail[k])
}

/// What an error tells.
pub open spec fn justified(fs: Seq<Formula>, roots: Seq<Seq<char>>, e: ResolveErrorV) -> bool {
    match e {
        ResolveErrorV::UnknownRoot(n) => roots.contains(n) && lookup(fs, n) is None,
        ResolveErrorV::UnknownDep { name, dep } => dangling(fs, roots, name, dep),
        ResolveErrorV::Cycle(n) => cyclic(fs, roots, n),
    }
}

/// A formula whose name is listed at the end of a trail extends the trail.
proof fn lemma_trail_extends(
    fs: Seq<Formula>,
    roots: Seq<Seq<char>>,
    trail: Seq<int>,
    owner: Option<Seq<char>>,
    path: Set<Seq<char>>,
    d: Seq<char>,
    i: int,
)
    requires
        trail_of(fs, roots, trail, owner, path),
        listed(fs, roots, trail).contains(d),
        lookup(fs, d) == Some(i),
    ensures
        trail_of(fs, roots, trail.push(i), Some(fs[i].name@), path.insert(fs[i].name@)),
        reached(fs, roots, i),
{
    let k = choose|k: int| 0 <= k < listed(fs, roots, trail).len() && listed(fs, roots, trail)[k] == d;
    if trail.len() == 0 {
        assert(lookup(fs, roots[k]) == Some(i));
        assert(reaches(fs, roots, seq![i], i));
    } else {
        assert(lookup(fs, deps_of(fs, trail.last())[k]) == Some(i));
        assert(needs(fs, trail.last(), i));
        assert(reached(fs, roots, trail[trail.len() - 1]));
        lemma_reached_step(fs, roots, trail.last(), i);
    }
    let longer = trail.push(i);
    assert forall|q: int| 0 <= q < longer.len() - 1 implies needs(fs, #[trigger] longer[q], longer[q + 1]) by {
        if q < trail.len() - 1 {
            assert(needs(fs, trail[q], trail[q + 1]));
        }
    }
    assert forall|q: int| 0 <= q < longer.len() implies reached(fs, roots, #[trigger] longer[q]) by {
        if q < trail.len() {
            assert(reached(fs, roots, trail[q]));
        }
    }
    assert(names_of(fs, longer) =~= names_of(fs, trail).push(fs[i].name@));
    text::lemma_push_to_set(names_of(fs, trail), fs[i].name@);
}

/// A trail that comes back to a name on it holds a circle.
proof fn lemma_trail_circle(fs: Seq<Formula>, roots: Seq<Seq<char>>, longer: Seq<int>, path: Set<Seq<char>>)
    requires
        longer.len() > 0,
        trail_of(fs, roots, longer, Some(fs[longer.last()].name@), path),
        names_of(fs, longer.drop_last()).contains(fs[longer.last()].name@),
    ensures
        cyclic(fs, roots, fs[longer.last()].name@),
{
    let name = fs[longer.last()].name@;
    let trail = longer.drop_last();
    let q = choose|q: int| 0 <= q < trail.len() && names_of(fs, trail)[q] == name;
    let round = longer.skip(q);
    assert forall|k: int| 0 <= k < round.len() - 1 implies needs(fs, #[trigger] round[k], round[k + 1]) by {
        assert(needs(fs, longer[q + k], longer[q + k + 1]));
    }
    assert forall|k: int| 0 <= k < round.len() implies reached(fs, roots, #[trigger] round[k]) by {
        assert(reached(fs, roots, longer[q + k]));
    }
    assert(loops_back(fs, roots, round, name));
}

/// A walk appends only what is reached, and fails only for a reason.
#[verifier::rlimit(30)]
proof fn lemma_walk_reached(
    fs: Seq<Formula>,
    roots: Seq<Seq<char>>,
    trail: Seq<int>,
    owner: Option<Seq<char>>,
    ds: Seq<Seq<char>>,
    path: Set<Seq<char>>,
    order: Seq<int>,
)
    requires
        trail_of(fs, roots, trail, owner, path),
        forall|k: int| 0 <= k < ds.len() ==> listed(fs, roots, trail).contains(#[trigger] ds[k]),
        forall|p: int| 0 <= p < order.len() ==> reached(fs, roots, #[trigger] order[p]),
    ensures
        match walk(fs, owner, ds, path, order) {
            Ok(o) => forall|p: int| 0 <= p < o.len() ==> reached(fs, roots, #[trigger] o[p]),
            Err(e) => justified(fs, roots, e),
        },
    decreases all_names(fs).difference(path).len(), ds.len(),
{
    if ds.len() > 0 {
        lemma_lookup(fs, ds[0]);
        let rest = ds.skip(1);
        assert forall|k: int| 0 <= k < rest.len() implies listed(fs, roots, trail).contains(#[trigger] rest[k]) by {
            assert(rest[k] == ds[k + 1]);
        }
        assert(listed(fs, roots, trail).contains(ds[0]));
        if let Some(i) = lookup(fs, ds[0]) {
            let name = fs[i].name@;
            lemma_trail_extends(fs, roots, trail, owner, path, ds[0], i);
            if names_of(fs, order).contains(name) {
                lemma_walk_reached(fs, roots, trail, owner, rest, path, order);
            } else if path.contains(name) {
                assert(trail.push(i).drop_last() =~= trail);
                lemma_trail_circle(fs, roots, trail.push(i), path.insert(name));
            } else {
                lemma_path_grows(fs, path, i);
                let deps = deps_of(fs, i);
                assert(listed(fs, roots, trail.push(i)) == deps);
                lemma_walk_reached(fs, roots, trail.push(i), Some(name), deps, path.insert(name), order);
                if let Ok(o) = walk(fs, Some(name), deps, path.insert(name), order) {
                    assert forall|p: int| 0 <= p < o.push(i).len() implies reached(fs, roots, #[trigger] o.push(i)[p]) by {
                        if p < o.len() {
                            assert(reached(fs, roots, o[p]));
                        }
                    }
                    lemma_walk_reached(fs, roots, trail, owner, rest, path, o.push(i));
                }
            }
        } else if trail.len() > 0 {
            assert(reached(fs, roots, trail[trail.len() - 1]));
        }
    }
}

/// Law: an install order holds nothing but the requested formulae and what
/// they need, and resolution fails only for a reason: a requested name or a
/// needed dependency stands for no formula, or the dependencies run in a
/// circle.
pub proof fn law_only_what_is_needed(fs: Seq<Formula>, roots: Seq<Seq<char>>)
    ensures
        match resolution(fs, roots) {
            Ok(order) => forall|p: int| 0 <= p < order.len() ==> reached(fs, roots, #[trigger] order[p]),
            Err(e) => justified(fs, roots, e),
        },
{
    assert(names_of(fs, Seq::empty()).to_set() =~= Set::empty());
    lemma_walk_reached(fs, roots, Seq::empty(), None, roots, Set::empty(), Seq::empty());
}

/// No two of the formulae that are reached share a name.
pub open spec fn unambiguous(fs: Seq<Formula>, roots: Seq<Seq<char>>) -> bool {
    forall|i: int, j: int| #[trigger]
        reached(fs, roots, i) && #[trigger] reached(fs, roots, j) && fs[i].name@ == fs[j].name@ ==> i == j
}

/// What is reached is the position of a formula.
proof fn lemma_reached_valid(fs: Seq<Formula>, roots: Seq<Seq<char>>, j: int)
    requires
        reached(fs, roots, j),
    ensures
        0 <= j < fs.len(),
{
    let chain = choose|chain: Seq<int>| #[trigger] reaches(fs, roots, chain, j);
    if chain.len() == 1 {
        let k = choose|k: int| 0 <= k < roots.len() && lookup(fs, #[trigger] roots[k]) == Some(chain[0]);
        lemma_lookup(fs, roots[k]);
    } else {
        let i = chain[chain.len() - 2];
        assert(needs(fs, i, chain[chain.len() - 2 + 1]));
        let k = choose|k: int| 0 <= k < deps_of(fs, i).len() && lookup(fs, #[trigger] deps_of(fs, i)[k]) == Some(j);
        lemma_lookup(fs, deps_of(fs, i)[k]);
    }
}

/// Law: where no two formulae of an index share a name, no two formulae that
/// are reached do.
pub proof fn law_distinct_names_are_unambiguous(fs: Seq<Formula>, roots: Seq<Seq<char>>)
    requires
        fs.map_values(|f: Formula| f.name@).no_duplicates(),
    ensures
        unambiguous(fs, roots),
{
    let ns = fs.map_values(|f: Formula| f.name@);
    assert forall|i: int, j: int| #[trigger]
        reached(fs, roots, i) && #[trigger] reached(fs, roots, j) && fs[i].name@ == fs[j].name@ implies i
        == j by {
        lemma_reached_valid(fs, roots, i);
        lemma_reached_valid(fs, roots, j);
        assert(ns[i] == ns[j]);
    }
}

/// Where nothing is ambiguous, an install order holds all that is reached.
pub proof fn lemma_reached_in_order(fs: Seq<Formula>, roots: Seq<Seq<char>>, order: Seq<int>, chain: Seq<int>, j: int)
    requires
        unambiguous(fs, roots),
        resolution(fs, roots) == Ok::<Seq<int>, ResolveErrorV>(order),
        reaches(fs, roots, chain, j),
    ensures
        order.contains(j),
    decreases chain.len(),
{
    law_deps_before_dependents(fs, roots, order);
    law_only_what_is_needed(fs, roots);
    let o = resolution(fs, roots)->Ok_0;
    assert forall|p: int| 0 <= p < order.len() implies reached(fs, roots, #[trigger] order[p]) by {
        assert(reached(fs, roots, o[p]));
    }
    let n = order.len() as int;
    assert(order.take(n) =~= order);
    if chain.len() == 1 {
        let k = choose|k: int| 0 <= k < roots.len() && lookup(fs, #[trigger] roots[k]) == Some(chain[0]);
        assert(settled(fs, order, n, roots[k]));
        let q = choose|q: int| 0 <= q < n && names_of(fs, order)[q] == fs[j].name@;
        assert(reached(fs, roots, order[q]) && reached(fs, roots, j));
    } else {
        let shorter = chain.drop_last();
        let i = shorter.last();
        assert(chained(fs, shorter)) by {
            assert forall|k: int| 0 <= k < shorter.len() - 1 implies needs(fs, #[trigger] shorter[k], shorter[k + 1]) by {
                assert(needs(fs, chain[k], chain[k + 1]));
            }
        }
        assert(reaches(fs, roots, shorter, i));
        lemma_reached_in_order(fs, roots, order, shorter, i);
        let p = choose|p: int| 0 <= p < n && order[p] == i;
        assert(needs(fs, chain[chain.len() - 2], chain[chain.len() - 2 + 1]));
        lemma_needed_earlier(fs, roots, order, p, j);
    }
}

/// What the formula at place `p` needs stands at an earlier place.
proof fn lemma_needed_earlier(fs: Seq<Formula>, roots: Seq<Seq<char>>, order: Seq<int>, p: int, j: int) -> (q: int)
    requires
        unambiguous(fs, roots),
        ordered(fs, order),
        forall|p: int| 0 <= p < order.len() ==> reached(fs, roots, #[trigger] order[p]),
        0 <= p < order.len(),
        needs(fs, order[p], j),
    ensures
        0 <= q < p,
        order[q] == j,
{
    let k = choose|k: int| 0 <= k < deps_of(fs, order[p]).len() && lookup(fs, #[trigger] deps_of(fs, order[p])[k]) == Some(j);
    let d = deps_of(fs, order[p])[k];
    assert(settled(fs, order, p, d));
    let q = choose|q: int| 0 <= q < order.take(p).len() && names_of(fs, order.take(p))[q] == fs[j].name@;
    lemma_reached_step(fs, roots, order[p], j);
    assert(reached(fs, roots, order[q]) && reached(fs, roots, j));
    q
}

/// Along a chain the places in an install order fall.
proof fn lemma_chain_falls(fs: Seq<Formula>, roots: Seq<Seq<char>>, order: Seq<int>, chain: Seq<int>, p: int) -> (q: int)
    requires
        unambiguous(fs, roots),
        ordered(fs, order),
        forall|p: int| 0 <= p < order.len() ==> reached(fs, roots, #[trigger] order[p]),
        chained(fs, chain),
        chain.len() > 0,
        0 <= p < order.len(),
        order[p] == chain[0],
    ensures
        0 <= q <= p - (chain.len() - 1),
        order[q] == chain.last(),
    decreases chain.len(),
{
    if chain.len() == 1 {
        p
    } else {
        assert(needs(fs, chain[0], chain[1]));
        let r = lemma_needed_earlier(fs, roots, order, p, chain[1]);
        let rest = chain.skip(1);
        assert(chained(fs, rest)) by {
            assert forall|k: int| 0 <= k < rest.len() - 1 implies needs(fs, #[trigger] rest[k], rest[k + 1]) by {
                assert(needs(fs, chain[k + 1], chain[k + 1 + 1]));
            }
        }
        lemma_chain_falls(fs, roots, order, rest, r)
    }
}

/// Law: where no two formulae that are reached share a name, resolution
/// succeeds exactly when every requested name and every needed dependency
/// stands for a formula and no dependencies run in a circle.
pub proof fn law_resolves_unless_unknown_or_cyclic(fs: Seq<Formula>, roots: Seq<Seq<char>>)
    requires
        unambiguous(fs, roots),
    ensures
        resolution(fs, roots) is Ok <==> {
            &&& forall|n: Seq<char>| roots.contains(n) ==> lookup(fs, n) is Some
            &&& forall|n: Seq<char>, d: Seq<char>| !dangling(fs, roots, n, d)
            &&& forall|n: Seq<char>| !cyclic(fs, roots, n)
        },
{
    law_only_what_is_needed(fs, roots);
    if let Ok(order) = resolution(fs, roots) {
        law_deps_before_dependents(fs, roots, order);
        assert forall|n: Seq<char>| roots.contains(n) implies lookup(fs, n) is Some by {
            let k = choose|k: int| 0 <= k < roots.len() && roots[k] == n;
            assert(settled(fs, order, order.len() as int, roots[k]));
        }
        assert forall|n: Seq<char>, d: Seq<char>| !dangling(fs, roots, n, d) by {
            if dangling(fs, roots, n, d) {
                let i = choose|i: int| #[trigger] reached(fs, roots, i) && fs[i].name@ == n && deps_of(fs, i).contains(d);
                let chain = choose|chain: Seq<int>| #[trigger] reaches(fs, roots, chain, i);
                lemma_reached_in_order(fs, roots, order, chain, i);
                let p = choose|p: int| 0 <= p < order.len() && order[p] == i;
                let k = choose|k: int| 0 <= k < deps_of(fs, i).len() && deps_of(fs, i)[k] == d;
                assert(settled(fs, order, p, deps_of(fs, order[p])[k]));
            }
        }
        assert forall|n: Seq<char>| !cyclic(fs, roots, n) by {
            if cyclic(fs, roots, n) {
                let round = choose|c: Seq<int>| #[trigger] loops_back(fs, roots, c, n);
                assert(reached(fs, roots, round[0]));
                assert(reached(fs, roots, round[round.len() - 1]));
                let c0 = choose|c: Seq<int>| #[trigger] reaches(fs, roots, c, round[0]);
                lemma_reached_in_order(fs, roots, order, c0, round[0]);
                let p = choose|p: int| 0 <= p < order.len() && order[p] == round[0];
                let q = lemma_chain_falls(fs, roots, order, round, p);
                assert(names_of(fs, order)[p] == n && names_of(fs, order)[q] == n);
            }
        }
    }
}

/// Law: an install order holds every requested formula, and with each formula
/// all that its dependencies stand for, before it; no two formulae in it share a
/// name.
pub proof fn law_orders_are_complete(fs: Seq<Formula>, roots: Seq<Seq<char>>, order: Seq<int>)
    requires
        resolution(fs, roots) == Ok::<Seq<int>, ResolveErrorV>(order),
    ensures
        forall|p: int| 0 <= p < order.len() ==> 0 <= #[trigger] order[p] < fs.len(),
        forall|p: int, q: int|
            0 <= p < order.len() && 0 <= q < order.len() && p != q ==> fs[#[trigger] order[p]].name@
                != fs[#[trigger] order[q]].name@,
        forall|p: int, k: int|
            #![trigger order[p], fs[order[p]].dependencies@[k]]
            0 <= p < order.len() && 0 <= k < fs[order[p]].dependencies@.len() ==> {
                &&& lookup(fs, fs[order[p]].dependencies@[k]@) is Some
                &&& stands_before(fs, order, p, fs[order[p]].dependencies@[k]@)
            },
        forall|k: int|
            0 <= k < roots.len() ==> lookup(fs, #[trigger] roots[k]) is Some && stands_before(
                fs,
                order,
                order.len() as int,
                roots[k],
            ),
{
    law_deps_before_dependents(fs, roots, order);
    assert forall|p: int, q: int|
        0 <= p < order.len() && 0 <= q < order.len() && p != q implies fs[#[trigger] order[p]].name@
        != fs[#[trigger] order[q]].name@ by {
        assert(names_of(fs, order)[p] != names_of(fs, order)[q]);
    }
    assert forall|p: int, k: int|
        #![trigger order[p], fs[order[p]].dependencies@[k]]
        0 <= p < order.len() && 0 <= k < fs[order[p]].dependencies@.len() implies {
        &&& lookup(fs, fs[order[p]].dependencies@[k]@) is Some
        &&& stands_before(fs, order, p, fs[order[p]].dependencies@[k]@)
    } by {
        let d = deps_of(fs, order[p])[k];
        assert(d == fs[order[p]].dependencies@[k]@);
        assert(settled(fs, order, p, d));
        lemma_stands_before(fs, order, p, d);
    }
    assert forall|k: int| 0 <= k < roots.len() implies lookup(fs, #[trigger] roots[k]) is Some && stands_before(
        fs,
        order,
        order.len() as int,
        roots[k],
    ) by {
        assert(settled(fs, order, order.len() as int, roots[k]));
        lemma_stands_before(fs, order, order.len() as int, roots[k]);
    }
}

/// A formula with the name of the one that `d` stands for is in the order before
/// `p`.
pub open spec fn stands_before(fs: Seq<Formula>, order: Seq<int>, p: int, d: Seq<char>) -> bool {
    exists|q: int|
        0 <= q < p && q < order.len() && fs[#[trigger] order[q]].name@ == fs[lookup(fs, d)->0].name@
}

proof fn lemma_stands_before(fs: Seq<Formula>, order: Seq<int>, p: int, d: Seq<char>)
    requires
        0 <= p <= order.len(),
        settled(fs, order, p, d),
    ensures
        stands_before(fs, order, p, d),
{
    let ns = names_of(fs, order.take(p));
    let n = fs[lookup(fs, d)->0].name@;
    let q = choose|q: int| 0 <= q < ns.len() && ns[q] == n;
    assert(order.take(p)[q] == order[q]);
}

/// Law: nothing is in an install order that is not needed: every formula in it
/// was requested, or is a dependency of one that is needed itself.
pub proof fn law_orders_hold_nothing_else(fs: Seq<Formula>, roots: Seq<Seq<char>>, order: Seq<int>, p: int)
    requires
        resolution(fs, roots) == Ok::<Seq<int>, ResolveErrorV>(order),
        0 <= p < order.len(),
    ensures
        asked_or_needed(fs, roots, order, p),
{
    law_only_what_is_needed(fs, roots);
    law_deps_before_dependents(fs, roots, order);
    let o = resolution(fs, roots)->Ok_0;
    assert(reached(fs, roots, o[p]));
    let chain = choose|c: Seq<int>| #[trigger] reaches(fs, roots, c, order[p]);
    if chain.len() == 1 {
        let k = choose|k: int| 0 <= k < roots.len() && lookup(fs, #[trigger] roots[k]) == Some(chain[0]);
        assert(lookup(fs, roots[k]) == Some(order[p]));
    } else {
        let i = chain[chain.len() - 2];
        assert(needs(fs, chain[chain.len() - 2], chain[chain.len() - 2 + 1]));
        let k = choose|k: int|
            0 <= k < deps_of(fs, i).len() && lookup(fs, #[trigger] deps_of(fs, i)[k]) == Some(order[p]);
        assert(deps_of(fs, i)[k] == fs[i].dependencies@[k]@);
        let short = chain.drop_last();
        assert(reaches(fs, roots, short, i)) by {
            assert forall|q: int| 0 <= q < short.len() - 1 implies needs(fs, #[trigger] short[q], short[q + 1]) by {
                assert(needs(fs, chain[q], chain[q + 1]));
            }
        }
        assert(reached(fs, roots, i));
        crate::api::lemma_lookup(fs, deps_of(fs, i)[k]);
    }
}

/// The formula at `p` of an order was requested, or is a dependency of one that
/// is needed itself.
pub open spec fn asked_or_needed(fs: Seq<Formula>, roots: Seq<Seq<char>>, order: Seq<int>, p: int) -> bool {
    ||| exists|k: int| 0 <= k < roots.len() && lookup(fs, #[trigger] roots[k]) == Some(order[p])
    ||| exists|i: int, k: int|
        #![trigger fs[i].dependencies@[k]]
        reached(fs, roots, i) && 0 <= k < fs[i].dependencies@.len() && lookup(fs, fs[i].dependencies@[k]@)
            == Some(order[p])
}

/// What one walk finds, another with fewer names on its path finds too.
proof fn lemma_walk_any_path(
    fs: Seq<Formula>,
    owner: Option<Seq<char>>,
    other: Option<Seq<char>>,
    ds: Seq<Seq<char>>,
    path: Set<Seq<char>>,
    fewer: Set<Seq<char>>,
    order: Seq<int>,
)
    requires
        fewer.subset_of(path),
        walk(fs, owner, ds, path, order) is Ok,
    ensures
        walk(fs, other, ds, fewer, order) == walk(fs, owner, ds, path, order),
    decreases all_names(fs).difference(path).len(), ds.len(),
{
    if ds.len() > 0 {
        lemma_lookup(fs, ds[0]);
        let i = lookup(fs, ds[0])->0;
        let name = fs[i].name@;
        if names_of(fs, order).contains(name) {
            lemma_walk_any_path(fs, owner, other, ds.skip(1), path, fewer, order);
        } else {
            lemma_path_grows(fs, path, i);
            lemma_walk_any_path(
                fs,
                Some(name),
                Some(name),
                deps_of(fs, i),
                path.insert(name),
                fewer.insert(name),
                order,
            );
            let o = walk(fs, Some(name), deps_of(fs, i), path.insert(name), order)->Ok_0;
            lemma_walk_any_path(fs, owner, other, ds.skip(1), path, fewer, o.push(i));
        }
    }
}

/// A walk over two lists is a walk over the one and then over the other.
proof fn lemma_walk_halves(
    fs: Seq<Formula>,
    owner: Option<Seq<char>>,
    a: Seq<Seq<char>>,
    b: Seq<Seq<char>>,
    path: Set<Seq<char>>,
    order: Seq<int>,
)
    ensures
        walk(fs, owner, a + b, path, order) == match walk(fs, owner, a, path, order) {
            Ok(o) => walk(fs, owner, b, path, o),
            Err(e) => Err(e),
        },
    decreases a.len(),
{
    if a.len() == 0 {
        assert(a + b =~= b);
    } else {
        let all = a + b;
        assert(all[0] == a[0]);
        assert(all.skip(1) =~= a.skip(1) + b);
        match lookup(fs, a[0]) {
            None => {},
            Some(i) => {
                let name = fs[i].name@;
                if names_of(fs, order).contains(name) {
                    lemma_walk_halves(fs, owner, a.skip(1), b, path, order);
                } else if !path.contains(name) {
                    match walk(fs, Some(name), deps_of(fs, i), path.insert(name), order) {
                        Err(e) => {},
                        Ok(o) => {
                            lemma_walk_halves(fs, owner, a.skip(1), b, path, o.push(i));
                        },
                    }
                }
            },
        }
    }
}

/// Law: the order is that of the requests, and before each formula that of its
/// dependencies: what more requests bring comes behind what the first ones
/// bring, and a formula that is requested alone comes right behind all that its
/// dependencies, requested in their order, would bring.
pub proof fn law_orders_follow_the_requests(
    fs: Seq<Formula>,
    a: Seq<Seq<char>>,
    b: Seq<Seq<char>>,
    root: Seq<char>,
)
    ensures
        resolution(fs, Seq::empty()) == Ok::<Seq<int>, ResolveErrorV>(Seq::empty()),
        resolution(fs, a + b) matches Ok(o) ==> (resolution(fs, a) matches Ok(first) && first.len() <= o.len()
            && o.take(first.len() as int) == first),
        resolution(fs, seq![root]) matches Ok(o) ==> (lookup(fs, root) matches Some(i) && o.len() > 0 && o.last()
            == i && resolution(fs, texts(fs[i].dependencies@)) == Ok::<Seq<int>, ResolveErrorV>(o.drop_last())),
{
    let none = Seq::<int>::empty();
    let off = Set::<Seq<char>>::empty();
    lemma_walk_halves(fs, None, a, b, off, none);
    if let Ok(o) = resolution(fs, a + b) {
        let first = resolution(fs, a)->Ok_0;
        law_deps_before_dependents(fs, a, first);
        lemma_walk_ordered(fs, None, b, off, first);
    }
    if let Ok(o) = resolution(fs, seq![root]) {
        let i = lookup(fs, root)->0;
        let name = fs[i].name@;
        assert(names_of(fs, none) =~= Seq::empty());
        assert(!names_of(fs, none).contains(name));
        let inner = walk(fs, Some(name), deps_of(fs, i), off.insert(name), none)->Ok_0;
        assert(seq![root].skip(1) =~= Seq::empty());
        assert(walk(fs, None, seq![root].skip(1), off, inner.push(i)) == Ok::<Seq<int>, ResolveErrorV>(
            inner.push(i),
        ));
        assert(o == inner.push(i));
        assert(o.drop_last() =~= inner);
        lemma_walk_any_path(fs, Some(name), None, deps_of(fs, i), off.insert(name), off, none);
    }
}

/// Law: what is told of an error names the formula, and the name that stands for
/// none.
pub proof fn law_resolution_errors_are_explained(n: Seq<char>, d: Seq<char>)
    ensures
        ResolveErrorV::UnknownRoot(n).message() == "no such formula: "@ + n,
        (ResolveErrorV::UnknownDep { name: n, dep: d }).message() == n + " depends on unknown formula "@ + d,
        ResolveErrorV::Cycle(n).message() == "dependency cycle involving "@ + n,
{
}

/// Law: what is said of an error is what its fields hold.
pub proof fn law_resolution_errors_are_read_as_they_are(e: ResolveError)
    ensures
        e matches ResolveError::UnknownRoot(n) ==> e@ == ResolveErrorV::UnknownRoot(n@),
        e matches ResolveError::UnknownDep { name, dep } ==> e@ == (ResolveErrorV::UnknownDep {
            name: name@,
            dep: dep@,
        }),
        e matches ResolveError::Cycle(n) ==> e@ == ResolveErrorV::Cycle(n@),
{
}

} // verus!
