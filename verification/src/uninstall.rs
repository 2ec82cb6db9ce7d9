//! What is removed together with the named formulae, and how that is shown.

use vstd::hash_set::StringHashSet;
use vstd::prelude::*;

use crate::installed::{
    installed_as, installed_views, law_every_receipt_counts, scanned, shared_receipt, CellarEntry,
    Installed, InstalledV, KegEntry,
};
use crate::picks;
use crate::picks::picks;
use crate::text;
use crate::text::{joined, last_position, positions, texts};
use crate::ui::label;

verus! {

broadcast use text::lemma_texts_push;

/// The receipt of an installed formula lists `name` as a dependency.
pub open spec fn depends(i: InstalledV, name: Seq<char>) -> bool {
    i.receipt matches Some(r) && r.deps.contains(name)
}

/// A formula of that name is installed.
pub open spec fn is_installed(all: Seq<InstalledV>, name: Seq<char>) -> bool {
    exists|k: int| 0 <= k < all.len() && (#[trigger] all[k]).name == name
}

/// The installed formulae, other than those that are going, that depend on
/// `name`.
pub open spec fn dependents(all: Seq<InstalledV>, going: Set<Seq<char>>, name: Seq<char>) -> Seq<Seq<char>>
    decreases all.len(),
{
    if all.len() == 0 {
        Seq::empty()
    } else if !going.contains(all.last().name) && depends(all.last(), name) {
        dependents(all.drop_last(), going, name).push(all.last().name)
    } else {
        dependents(all.drop_last(), going, name)
    }
}

/// Why formulae cannot be removed.
pub enum UninstallError {
    /// No formula of that name is installed.
    NotInstalled(String),
    /// Others, which are listed, need the formula.
    Required { name: String, dependents: Vec<String> },
}

/// What an `UninstallError` says.
pub enum UninstallErrorV {
    NotInstalled(Seq<char>),
    Required { name: Seq<char>, dependents: Seq<Seq<char>> },
}

impl View for UninstallError {
    type V = UninstallErrorV;

    open spec fn view(&self) -> UninstallErrorV {
        match self {
            UninstallError::NotInstalled(name) => UninstallErrorV::NotInstalled(name@),
            UninstallError::Required { name, dependents } => UninstallErrorV::Required {
                name: name@,
                dependents: texts(dependents@),
            },
        }
    }
}

impl UninstallErrorV {
    /// What the user is told.
    pub open spec fn message(self) -> Seq<char> {
        match self {
            UninstallErrorV::NotInstalled(name) => name + " is not installed"@,
            UninstallErrorV::Required { name, dependents } => name + " is required by "@ + joined(
                dependents,
                ", "@,
            ) + " (use --force-remove/-f to remove anyway)"@,
        }
    }
}

impl UninstallError {
    /// What the user is told.
    pub fn message(&self) -> (r: String)
        ensures
            r@ == self@.message(),
    {
        match self {
            UninstallError::NotInstalled(name) => name.clone().concat(" is not installed"),
            UninstallError::Required { name, dependents } => name.clone().concat(
                " is required by ",
            ).concat(text::join(dependents, ", ").as_str()).concat(
                " (use --force-remove/-f to remove anyway)",
            ),
        }
    }
}

/// The warning that others may break.
pub open spec fn may_break(name: Seq<char>, dependents: Seq<Seq<char>>) -> Seq<char> {
    "\x1b[33m!\x1b[0m removing "@ + name + " even though "@ + joined(dependents, ", "@) + if dependents.len()
        == 1 {
        " depends"@
    } else {
        " depend"@
    } + " on it — they may break"@
}

/// What there is to say about the removal of the named formulae, one after the
/// other: warnings, and the first error.
pub open spec fn verdict(
    all: Seq<InstalledV>,
    going: Set<Seq<char>>,
    names: Seq<Seq<char>>,
    force: bool,
) -> (Seq<Seq<char>>, Option<UninstallErrorV>)
    decreases names.len(),
{
    if names.len() == 0 {
        (Seq::empty(), None)
    } else {
        let (warnings, error) = verdict(all, going, names.drop_last(), force);
        let name = names.last();
        let ds = dependents(all, going, name);
        if error is Some {
            (warnings, error)
        } else if !is_installed(all, name) {
            (warnings, Some(UninstallErrorV::NotInstalled(name)))
        } else if ds.len() == 0 {
            (warnings, None)
        } else if force {
            (warnings.push(may_break(name, ds)), None)
        } else {
            (warnings, Some(UninstallErrorV::Required { name, dependents: ds }))
        }
    }
}

/// A receipt that marks a formula as neither asked for nor pinned, so that it
/// may be swept away.
pub open spec fn sweepable(i: InstalledV) -> bool {
    i.receipt matches Some(r) && !r.requested && !r.protected
}

/// An installed formula that nobody asked for, that is not being removed, and
/// that nothing but itself and what is being removed depends on.
pub open spec fn orphaned(all: Seq<InstalledV>, removing: Set<Seq<char>>, k: int) -> bool {
    &&& 0 <= k < all.len()
    &&& !removing.contains(all[k].name)
    &&& sweepable(all[k])
    &&& forall|o: int|
        0 <= o < all.len() && (#[trigger] all[o]).name != all[k].name && !removing.contains(all[o].name)
            ==> !depends(all[o], all[k].name)
}

/// Nothing is left to sweep away.
pub open spec fn tidy(all: Seq<InstalledV>, removing: Set<Seq<char>>) -> bool {
    forall|k: int| !orphaned(all, removing, k)
}

/// The set holds the names, and nothing is left to sweep away beside it.
pub open spec fn suffices(all: Seq<InstalledV>, names: Set<Seq<char>>, set: Set<Seq<char>>) -> bool {
    names.subset_of(set) && tidy(all, set)
}

/// All that is removed: the least set that holds the names and leaves nothing
/// to sweep away.
pub open spec fn swept(all: Seq<InstalledV>, names: Set<Seq<char>>) -> Set<Seq<char>> {
    Set::new(|n: Seq<char>| forall|set: Set<Seq<char>>| suffices(all, names, set) ==> set.contains(n))
}

/// Removing more leaves no formula needed that was not.
proof fn lemma_orphans_stay(all: Seq<InstalledV>, a: Set<Seq<char>>, b: Set<Seq<char>>, k: int)
    requires
        a.subset_of(b),
        orphaned(all, a, k),
        !b.contains(all[k].name),
    ensures
        orphaned(all, b, k),
{
    assert forall|o: int|
        0 <= o < all.len() && (#[trigger] all[o]).name != all[k].name && !b.contains(all[o].name)
            implies !depends(all[o], all[k].name) by {
        assert(!a.contains(all[o].name));
    }
}

/// The least set suffices.
proof fn lemma_swept_suffices(all: Seq<InstalledV>, names: Set<Seq<char>>)
    ensures
        suffices(all, names, swept(all, names)),
{
    let r = swept(all, names);
    assert(names.subset_of(r));
    assert forall|k: int| !orphaned(all, r, k) by {
        if orphaned(all, r, k) {
            assert forall|set: Set<Seq<char>>| suffices(all, names, set) implies set.contains(all[k].name) by {
                if !set.contains(all[k].name) {
                    assert(r.subset_of(set));
                    lemma_orphans_stay(all, r, set, k);
                }
            }
            assert(r.contains(all[k].name));
        }
    }
}

/// Whether an installed formula is swept away with what is being removed.
fn is_orphan(all: &Vec<Installed>, removing: &StringHashSet, k: usize) -> (r: bool)
    requires
        k < all@.len(),
    ensures
        r == orphaned(installed_views(all@), removing@, k as int),
{
    let ghost vs = installed_views(all@);
    let one = &all[k];
    assert(vs[k as int] == one@);
    if removing.contains(one.name.as_str()) {
        return false;
    }
    let free = match &one.receipt {
        Some(r) => !r.requested && !r.protected,
        None => false,
    };
    if !free {
        return false;
    }
    for o in 0..all.len()
        invariant
            k < all@.len(),
            vs == installed_views(all@),
            one@ == vs[k as int],
            forall|q: int|
                0 <= q < o && (#[trigger] vs[q]).name != one.name@ && !removing@.contains(vs[q].name)
                    ==> !depends(vs[q], one.name@),
    {
        let other = &all[o];
        assert(vs[o as int] == other@);
        if !text::same(other.name.as_str(), one.name.as_str()) && !removing.contains(
            other.name.as_str(),
        ) && lists(other, one.name.as_str()) {
            return false;
        }
    }
    true
}

/// Whether the receipt of an installed formula lists `name`.
fn lists(i: &Installed, name: &str) -> (r: bool)
    ensures
        r == depends(i@, name@),
{
    match &i.receipt {
        Some(receipt) => {
            assert(texts(receipt.deps@).to_set().contains(name@) == texts(receipt.deps@).contains(name@));
            text::among(name, &receipt.deps)
        },
        None => false,
    }
}

/// How many installed formulae are not being removed.
spec fn staying(all: Seq<InstalledV>, removing: Set<Seq<char>>) -> nat
    decreases all.len(),
{
    if all.len() == 0 {
        0
    } else {
        staying(all.drop_last(), removing) + if removing.contains(all.last().name) {
            0nat
        } else {
            1nat
        }
    }
}

/// Removing one more installed formula leaves fewer.
proof fn lemma_staying_falls(all: Seq<InstalledV>, removing: Set<Seq<char>>, name: Seq<char>)
    ensures
        staying(all, removing.insert(name)) <= staying(all, removing),
        is_installed(all, name) && !removing.contains(name) ==> staying(all, removing.insert(name))
            < staying(all, removing),
    decreases all.len(),
{
    if all.len() > 0 {
        lemma_staying_falls(all.drop_last(), removing, name);
        if is_installed(all, name) && all.last().name != name {
            let k = choose|k: int| 0 <= k < all.len() && (#[trigger] all[k]).name == name;
            assert(all.drop_last()[k].name == name);
        }
    }
}

/// All that is removed together with the names: a dependency that nobody asked
/// for is swept away once nothing that stays needs it, and so on, because
/// removing one can orphan another.
fn sweep(all: &Vec<Installed>, names: &Vec<String>) -> (r: StringHashSet)
    ensures
        r@ == swept(installed_views(all@), texts(names@).to_set()),
{
    let ghost vs = installed_views(all@);
    let ghost ns = texts(names@).to_set();
    let mut removing = StringHashSet::new();
    for i in 0..names.len()
        invariant
            removing@ == texts(names@).take(i as int).to_set(),
    {
        removing.insert(names[i].clone());
        proof {
            let a = texts(names@).take(i as int);
            let b = texts(names@).take(i + 1);
            assert(b =~= a.push(names@[i as int]@));
            text::lemma_push_to_set(a, names@[i as int]@);
        }
    }
    proof {
        assert(texts(names@).take(names@.len() as int) =~= texts(names@));
        assert(texts(names@).take(0).to_set() =~= Set::empty());
        assert(removing@.subset_of(swept(vs, ns)));
    }
    loop
        invariant
            vs == installed_views(all@),
            ns == texts(names@).to_set(),
            ns.subset_of(removing@),
            removing@.subset_of(swept(vs, ns)),
        decreases staying(vs, removing@),
    {
        let mut found: Option<usize> = None;
        let mut k: usize = 0;
        while k < all.len() && found.is_none()
            invariant
                vs == installed_views(all@),
                k <= all@.len(),
                found is None ==> forall|q: int| 0 <= q < k ==> !orphaned(vs, removing@, q),
                found matches Some(q) ==> q < all@.len() && orphaned(vs, removing@, q as int),
            decreases all@.len() - k,
        {
            if is_orphan(all, &removing, k) {
                found = Some(k);
            }
            k = k + 1;
        }
        match found {
            Some(q) => {
                proof {
                    let n = vs[q as int].name;
                    lemma_swept_suffices(vs, ns);
                    if !swept(vs, ns).contains(n) {
                        lemma_orphans_stay(vs, removing@, swept(vs, ns), q as int);
                    }
                    lemma_staying_falls(vs, removing@, n);
                    assert(is_installed(vs, n));
                }
                removing.insert(all[q].name.clone());
            },
            None => {
                proof {
                    assert(tidy(vs, removing@));
                    assert(suffices(vs, ns, removing@));
                    assert(removing@ =~= swept(vs, ns));
                }
                return removing;
            },
        }
    }
}

/// Law: what is swept away beyond the named formulae is installed, was never
/// asked for and is not pinned, nothing that stays needs it, and nothing that
/// could be swept away is left.
pub proof fn law_autoremove_spares_what_is_needed(all: Seq<InstalledV>, names: Set<Seq<char>>, n: Seq<char>)
    requires
        swept(all, names).contains(n),
        !names.contains(n),
    ensures
        exists|k: int| 0 <= k < all.len() && (#[trigger] all[k]).name == n && sweepable(all[k]),
        forall|o: int|
            0 <= o < all.len() && (#[trigger] all[o]).name != n && !swept(all, names).contains(all[o].name)
                ==> !depends(all[o], n),
        tidy(all, swept(all, names)),
{
    let r = swept(all, names);
    lemma_swept_suffices(all, names);
    let s = r.remove(n);
    assert(names.subset_of(s));
    assert(!suffices(all, names, s)) by {
        assert(forall|set: Set<Seq<char>>| suffices(all, names, set) ==> set.contains(n));
        assert(!s.contains(n));
    }
    let k = choose|k: int| orphaned(all, s, k);
    if all[k].name != n {
        assert forall|o: int|
            0 <= o < all.len() && (#[trigger] all[o]).name != all[k].name && !r.contains(all[o].name)
                implies !depends(all[o], all[k].name) by {
            assert(!s.contains(all[o].name));
        }
        assert(orphaned(all, r, k));
    }
    assert forall|o: int|
        0 <= o < all.len() && (#[trigger] all[o]).name != n && !r.contains(all[o].name) implies !depends(
        all[o],
        n,
    ) by {
        assert(!s.contains(all[o].name));
    }
}

/// Each installed formula is read off a directory of the Cellar.
proof fn lemma_scanned_from(entries: Seq<CellarEntry>, k: int) -> (i: int)
    requires
        0 <= k < scanned(entries).len(),
    ensures
        0 <= i < entries.len(),
        entries[i].is_dir,
        scanned(entries)[k] == installed_as(entries[i]),
    decreases entries.len(),
{
    let before = scanned(entries.drop_last());
    if k < before.len() {
        lemma_scanned_from(entries.drop_last(), k)
    } else {
        entries.len() - 1
    }
}

/// The receipt of some version of a formula says that the user asked for it or
/// that a lockfile pins it, or no version has a receipt.
pub open spec fn wanted(e: CellarEntry) -> bool {
    ||| exists|k: int|
        0 <= k < e.kegs@.len() && (#[trigger] e.kegs@[k]).is_dir && (e.kegs@[k].receipt matches Some(r) && (
        r.requested || r.protected))
    ||| forall|k: int| 0 <= k < e.kegs@.len() && (#[trigger] e.kegs@[k]).is_dir ==> e.kegs@[k].receipt is None
}

/// What the receipts of a wanted formula say together keeps it.
proof fn lemma_wanted_stays(e: CellarEntry)
    requires
        wanted(e),
    ensures
        !sweepable(installed_as(e)),
{
    let kegs = e.kegs@;
    if exists|k: int|
        0 <= k < kegs.len() && (#[trigger] kegs[k]).is_dir && (kegs[k].receipt matches Some(r) && (r.requested
            || r.protected)) {
        let k = choose|k: int|
            0 <= k < kegs.len() && (#[trigger] kegs[k]).is_dir && (kegs[k].receipt matches Some(r) && (
            r.requested || r.protected));
        law_every_receipt_counts(kegs, k);
    } else {
        lemma_no_receipt(kegs);
    }
}

/// Where no version has a receipt, there is none to share.
proof fn lemma_no_receipt(kegs: Seq<KegEntry>)
    requires
        forall|k: int| 0 <= k < kegs.len() && (#[trigger] kegs[k]).is_dir ==> kegs[k].receipt is None,
    ensures
        shared_receipt(kegs) is None,
    decreases kegs.len(),
{
    if kegs.len() > 0 {
        let init = kegs.drop_last();
        assert forall|k: int| 0 <= k < init.len() && (#[trigger] init[k]).is_dir implies init[k].receipt is None by {
            assert(init[k] == kegs[k]);
        }
        lemma_no_receipt(init);
        assert(kegs[kegs.len() - 1] == kegs.last());
    }
}

/// Law: autoremove never takes a formula of which the user asked for some
/// version or a lockfile pins some version, nor one without a receipt.
pub proof fn law_autoremove_never_takes_what_is_wanted(
    entries: Seq<CellarEntry>,
    names: Set<Seq<char>>,
    n: Seq<char>,
)
    requires
        !names.contains(n),
        forall|i: int|
            0 <= i < entries.len() && (#[trigger] entries[i]).is_dir && entries[i].name@ == n ==> wanted(
                entries[i],
            ),
    ensures
        !swept(scanned(entries), names).contains(n),
{
    let all = scanned(entries);
    if swept(all, names).contains(n) {
        law_autoremove_spares_what_is_needed(all, names, n);
        let k = choose|k: int| 0 <= k < all.len() && (#[trigger] all[k]).name == n && sweepable(all[k]);
        let i = lemma_scanned_from(entries, k);
        assert(entries[i].is_dir && entries[i].name@ == n);
        lemma_wanted_stays(entries[i]);
    }
}

/// The names of installed formulae.
pub open spec fn all_names(all: Seq<InstalledV>) -> Seq<Seq<char>> {
    all.map_values(|i: InstalledV| i.name)
}

/// The names of the installed formulae at the given positions.
pub open spec fn names_at(all: Seq<InstalledV>, ks: Seq<int>) -> Seq<Seq<char>> {
    ks.map_values(|k: int| all[k].name)
}

/// The dependencies that the receipt of an installed formula lists.
pub open spec fn deps_at(all: Seq<InstalledV>, k: int) -> Seq<Seq<char>> {
    match all[k].receipt {
        Some(r) => r.deps,
        None => Seq::empty(),
    }
}

/// All names that are taken: those taken before, those on the path, and those
/// that were collected.
pub open spec fn taken_by(
    all: Seq<InstalledV>,
    base: Set<Seq<char>>,
    path: Set<Seq<char>>,
    out: Seq<int>,
) -> Set<Seq<char>> {
    base.union(path).union(names_at(all, out).to_set())
}

/// The formula that the dependency `d` claims: it is swept away, and its name
/// is not taken.
pub open spec fn claimed(
    all: Seq<InstalledV>,
    auto: Set<Seq<char>>,
    taken: Set<Seq<char>>,
    d: Seq<char>,
) -> Option<int> {
    match last_position(all_names(all), d) {
        Some(j) if auto.contains(d) && !taken.contains(all[j].name) => Some(j),
        _ => None,
    }
}

/// Collects the swept formulae that `ds` and their dependencies stand for,
/// each behind its own dependencies, that are not taken. `path` holds the
/// names that are being visited.
pub open spec fn gathered(
    all: Seq<InstalledV>,
    auto: Set<Seq<char>>,
    base: Set<Seq<char>>,
    ds: Seq<Seq<char>>,
    path: Set<Seq<char>>,
    out: Seq<int>,
) -> Seq<int>
    decreases all_names(all).to_set().difference(path).len(), ds.len(),
{
    proof {
        if ds.len() > 0 {
            lemma_claim(all, auto, taken_by(all, base, path, out), ds[0]);
            if let Some(j) = claimed(all, auto, taken_by(all, base, path, out), ds[0]) {
                text::lemma_fewer_names(all_names(all), path, all[j].name);
            }
        }
    }
    if ds.len() == 0 {
        out
    } else {
        match claimed(all, auto, taken_by(all, base, path, out), ds[0]) {
            None => gathered(all, auto, base, ds.skip(1), path, out),
            Some(j) => {
                let inner = gathered(all, auto, base, deps_at(all, j), path.insert(all[j].name), out);
                gathered(all, auto, base, ds.skip(1), path, inner.push(j))
            },
        }
    }
}

/// What a claim says.
pub proof fn lemma_claim(all: Seq<InstalledV>, auto: Set<Seq<char>>, taken: Set<Seq<char>>, d: Seq<char>)
    ensures
        claimed(all, auto, taken, d) matches Some(j) ==> 0 <= j < all.len() && all[j].name == d
            && !taken.contains(d) && auto.contains(d) && all_names(all).contains(d),
{
    text::lemma_last_position(all_names(all), d);
    if let Some(j) = claimed(all, auto, taken, d) {
        assert(all_names(all)[j] == all[j].name);
    }
}

/// A formula with the dependencies that go with it.
pub struct Group {
    pub root: int,
    pub deps: Seq<int>,
}

/// Each named formula with the swept dependencies that are shown beneath it,
/// and all names that are taken then. The first root to claim a dependency
/// wins.
pub open spec fn grouped(
    all: Seq<InstalledV>,
    auto: Set<Seq<char>>,
    going: Set<Seq<char>>,
    names: Seq<Seq<char>>,
) -> (Seq<Group>, Set<Seq<char>>)
    decreases names.len(),
{
    if names.len() == 0 {
        (Seq::empty(), going)
    } else {
        let (groups, taken) = grouped(all, auto, going, names.drop_last());
        let root = last_position(all_names(all), names.last())->0;
        let deps = gathered(all, auto, taken, deps_at(all, root), Set::empty(), Seq::empty());
        (groups.push(Group { root, deps }), taken.union(names_at(all, deps).to_set()))
    }
}

/// The first `n` installed formulae as far as they are removed and their names
/// are not taken, and all names that are taken then.
pub open spec fn strays(
    all: Seq<InstalledV>,
    removing: Set<Seq<char>>,
    taken: Set<Seq<char>>,
    n: nat,
) -> (Seq<Group>, Set<Seq<char>>)
    decreases n,
{
    if n == 0 {
        (Seq::empty(), taken)
    } else {
        let (groups, t) = strays(all, removing, taken, (n - 1) as nat);
        let name = all[n - 1].name;
        if removing.contains(name) && !t.contains(name) {
            (groups.push(Group { root: n - 1, deps: Seq::empty() }), t.insert(name))
        } else {
            (groups, t)
        }
    }
}

/// A row of the tree of what is removed.
pub struct RowV {
    pub name: Seq<char>,
    pub version: Seq<char>,
    pub branch: Seq<char>,
}

/// The row of an installed formula.
pub open spec fn row_of(i: InstalledV, branch: Seq<char>) -> RowV {
    RowV { name: i.name, version: i.version, branch }
}

/// The rows of the dependencies in a group: the last one ends the branch.
pub open spec fn branch_rows(all: Seq<InstalledV>, deps: Seq<int>) -> Seq<RowV> {
    Seq::new(
        deps.len(),
        |i: int|
            row_of(
                all[deps[i]],
                if i + 1 == deps.len() {
                    "└─"@
                } else {
                    "├─"@
                },
            ),
    )
}

/// The rows of groups: each root, then its dependencies.
pub open spec fn group_rows(all: Seq<InstalledV>, groups: Seq<Group>) -> Seq<RowV>
    decreases groups.len(),
{
    if groups.len() == 0 {
        Seq::empty()
    } else {
        group_rows(all, groups.drop_last()).push(row_of(all[groups.last().root], ""@)) + branch_rows(
            all,
            groups.last().deps,
        )
    }
}

/// All groups: the named formulae with what goes with them, then what cannot
/// be reached through their receipts.
pub open spec fn removal_groups(all: Seq<InstalledV>, names: Seq<Seq<char>>) -> Seq<Group> {
    let going = names.to_set();
    let removing = swept(all, going);
    let (groups, taken) = grouped(all, removing.difference(going), going, names);
    groups + strays(all, removing, taken, all.len()).0
}

/// The rows of the tree of what is removed with the named formulae.
pub open spec fn removal_rows(all: Seq<InstalledV>, names: Seq<Seq<char>>) -> Seq<RowV> {
    group_rows(all, removal_groups(all, names))
}

/// The columns that the widest row takes up.
pub open spec fn widest_row(rows: Seq<RowV>) -> nat
    decreases rows.len(),
{
    if rows.len() == 0 {
        0
    } else {
        let before = widest_row(rows.drop_last());
        let this = label(rows.last().branch, rows.last().name, rows.last().version).len();
        if before < this {
            this
        } else {
            before
        }
    }
}

/// A row of the tree of what is removed.
pub struct Row {
    pub name: String,
    pub version: String,
    pub branch: &'static str,
}

impl View for Row {
    type V = RowV;

    open spec fn view(&self) -> RowV {
        RowV { name: self.name@, version: self.version@, branch: self.branch@ }
    }
}

/// What rows say.
pub open spec fn row_views(v: Seq<Row>) -> Seq<RowV> {
    v.map_values(|r: Row| r@)
}

/// The names of the installed formulae, in order.
fn list_names(all: &Vec<Installed>) -> (r: Vec<String>)
    ensures
        texts(r@) == all_names(installed_views(all@)),
{
    let mut r: Vec<String> = Vec::new();
    for i in 0..all.len()
        invariant
            r@.len() == i,
            forall|k: int| 0 <= k < i ==> (#[trigger] r@[k])@ == all@[k].name@,
    {
        r.push(all[i].name.clone());
    }
    assert(texts(r@) =~= all_names(installed_views(all@)));
    r
}

/// Post-order walk over the dependencies that receipts record, collecting
/// those in the autoremove set that no earlier root has claimed.
fn receipt_closure(
    all: &Vec<Installed>,
    known: &Vec<String>,
    k: usize,
    auto: &StringHashSet,
    taken: &mut StringHashSet,
    out: &mut Vec<usize>,
    Ghost(base): Ghost<Set<Seq<char>>>,
    Ghost(path): Ghost<Set<Seq<char>>>,
)
    requires
        texts(known@) == all_names(installed_views(all@)),
        k < all@.len(),
        old(taken)@ == taken_by(installed_views(all@), base, path, positions(old(out)@)),
    ensures
        positions(final(out)@) == gathered(
            installed_views(all@),
            auto@,
            base,
            deps_at(installed_views(all@), k as int),
            path,
            positions(old(out)@),
        ),
        final(taken)@ == taken_by(installed_views(all@), base, path, positions(final(out)@)),
    decreases all_names(installed_views(all@)).to_set().difference(path).len(),
{
    let ghost vs = installed_views(all@);
    let ghost start = positions(out@);
    assert(vs[k as int] == all@[k as int]@);
    if let Some(receipt) = &all[k].receipt {
        let ghost ds = texts(receipt.deps@);
        assert(ds.skip(0) =~= ds);
        assert(ds == deps_at(vs, k as int));
        for i in 0..receipt.deps.len()
            invariant
                vs == installed_views(all@),
                texts(known@) == all_names(vs),
                ds == texts(receipt.deps@),
                taken@ == taken_by(vs, base, path, positions(out@)),
                gathered(vs, auto@, base, ds.skip(i as int), path, positions(out@)) == gathered(
                    vs,
                    auto@,
                    base,
                    ds,
                    path,
                    start,
                ),
            decreases receipt.deps@.len() - i,
        {
            let ghost before = positions(out@);
            let d = &receipt.deps[i];
            proof {
                assert(ds.skip(i as int)[0] == d@);
                assert(ds.skip(i as int).skip(1) =~= ds.skip(i + 1));
                lemma_claim(vs, auto@, taken@, d@);
            }
            if auto.contains(d.as_str()) {
                if let Some(j) = text::find_last(known, d.as_str()) {
                    assert(texts(known@).len() == all_names(vs).len());
                    assert(all_names(vs)[j as int] == vs[j as int].name) by {
                        text::lemma_last_position(all_names(vs), d@);
                    }
                    let name = all[j].name.clone();
                    let ghost n = name@;
                    let ghost t0 = taken@;
                    if taken.insert(name) {
                        proof {
                            assert(claimed(vs, auto@, t0, d@) == Some(j as int));
                            text::lemma_fewer_names(all_names(vs), path, n);
                            assert(taken@ =~= taken_by(vs, base, path.insert(n), positions(out@)));
                        }
                        receipt_closure(all, known, j, auto, taken, out, Ghost(base), Ghost(path.insert(n)));
                        let ghost inner = positions(out@);
                        out.push(j);
                        proof {
                            assert(positions(out@) =~= inner.push(j as int));
                            assert(names_at(vs, inner.push(j as int)) =~= names_at(vs, inner).push(n));
                            text::lemma_push_to_set(names_at(vs, inner), n);
                            assert(taken@ =~= taken_by(vs, base, path, positions(out@)));
                        }
                    } else {
                        assert(taken@ =~= t0);
                    }
                }
            }
        }
        assert(ds.skip(receipt.deps@.len() as int) =~= Seq::empty());
    }
}

/// Whether a formula of that name is installed.
fn is_there(all: &Vec<Installed>, name: &str) -> (r: bool)
    ensures
        r == is_installed(installed_views(all@), name@),
{
    let ghost vs = installed_views(all@);
    for k in 0..all.len()
        invariant
            vs == installed_views(all@),
            forall|q: int| 0 <= q < k ==> (#[trigger] vs[q]).name != name@,
    {
        assert(vs[k as int] == all@[k as int]@);
        if text::same(all[k].name.as_str(), name) {
            return true;
        }
    }
    false
}

/// The installed formulae, other than those that are going, that depend on
/// `name`.
fn find_dependents(all: &Vec<Installed>, going: &Vec<String>, name: &str) -> (r: Vec<String>)
    ensures
        texts(r@) == dependents(installed_views(all@), texts(going@).to_set(), name@),
{
    let ghost vs = installed_views(all@);
    let ghost gs = texts(going@).to_set();
    let mut r: Vec<String> = Vec::new();
    assert(texts(r@) =~= dependents(vs.take(0), gs, name@));
    for k in 0..all.len()
        invariant
            vs == installed_views(all@),
            gs == texts(going@).to_set(),
            texts(r@) == dependents(vs.take(k as int), gs, name@),
    {
        let one = &all[k];
        proof {
            assert(vs.take(k + 1).drop_last() =~= vs.take(k as int));
            assert(vs.take(k + 1).last() == one@);
        }
        if !text::among(one.name.as_str(), going) && lists(one, name) {
            r.push(one.name.clone());
        }
    }
    assert(vs.take(all@.len() as int) =~= vs);
    r
}

/// The warning that others may break.
fn warn_break(name: &str, ds: &Vec<String>) -> (r: String)
    ensures
        r@ == may_break(name@, texts(ds@)),
{
    "\x1b[33m!\x1b[0m removing ".to_string().concat(name).concat(" even though ").concat(
        text::join(ds, ", ").as_str(),
    ).concat(
        if ds.len() == 1 {
            " depends"
        } else {
            " depend"
        },
    ).concat(" on it — they may break")
}

/// The first error about some of the names is the first error about all.
proof fn lemma_verdict_prefix(
    all: Seq<InstalledV>,
    going: Set<Seq<char>>,
    names: Seq<Seq<char>>,
    force: bool,
    n: int,
)
    requires
        0 <= n <= names.len(),
        verdict(all, going, names.take(n), force).1 is Some,
    ensures
        verdict(all, going, names, force) == verdict(all, going, names.take(n), force),
    decreases names.len(),
{
    if n < names.len() {
        assert(names.drop_last().take(n) =~= names.take(n));
        lemma_verdict_prefix(all, going, names.drop_last(), force, n);
    } else {
        assert(names.take(n) =~= names);
    }
}

/// What there is to say about the removal of the named formulae: they have to
/// be installed, and nothing that stays may depend on them unless `force` is
/// set.
fn check(all: &Vec<Installed>, names: &Vec<String>, force: bool) -> (r: (
    Vec<String>,
    Option<UninstallError>,
))
    ensures
        ({
            let v = verdict(installed_views(all@), texts(names@).to_set(), texts(names@), force);
            &&& texts(r.0@) == v.0
            &&& match v.1 {
                Some(e) => r.1 matches Some(x) && x@ == e,
                None => r.1 is None,
            }
        }),
{
    let ghost vs = installed_views(all@);
    let ghost ns = texts(names@);
    let ghost gs = ns.to_set();
    let mut warnings: Vec<String> = Vec::new();
    assert(texts(warnings@) =~= verdict(vs, gs, ns.take(0), force).0);
    for i in 0..names.len()
        invariant
            vs == installed_views(all@),
            ns == texts(names@),
            gs == ns.to_set(),
            texts(warnings@) == verdict(vs, gs, ns.take(i as int), force).0,
            verdict(vs, gs, ns.take(i as int), force).1 is None,
    {
        let name = names[i].as_str();
        proof {
            assert(ns.take(i + 1).drop_last() =~= ns.take(i as int));
            assert(ns.take(i + 1).last() == name@);
            if verdict(vs, gs, ns.take(i + 1), force).1 is Some {
                lemma_verdict_prefix(vs, gs, ns, force, i + 1);
            }
        }
        if !is_there(all, name) {
            return (warnings, Some(UninstallError::NotInstalled(name.to_string())));
        }
        let ds = find_dependents(all, names, name);
        assert(texts(ds@).len() == ds@.len());
        if ds.len() > 0 {
            if force {
                warnings.push(warn_break(name, &ds));
            } else {
                return (
                    warnings,
                    Some(UninstallError::Required { name: name.to_string(), dependents: ds }),
                );
            }
        }
    }
    assert(ns.take(names@.len() as int) =~= ns);
    (warnings, None)
}

/// Appends the rows of one group.
fn push_group(all: &Vec<Installed>, root: usize, deps: &Vec<usize>, rows: &mut Vec<Row>)
    requires
        root < all@.len(),
        forall|i: int| 0 <= i < deps@.len() ==> #[trigger] deps@[i] < all@.len(),
    ensures
        row_views(final(rows)@) == row_views(old(rows)@).push(
            row_of(installed_views(all@)[root as int], ""@),
        ) + branch_rows(installed_views(all@), positions(deps@)),
{
    let ghost vs = installed_views(all@);
    let ghost before = row_views(rows@);
    let ghost ds = positions(deps@);
    let one = &all[root];
    rows.push(Row { name: one.name.clone(), version: one.version.clone(), branch: "" });
    let ghost head = before.push(row_of(vs[root as int], ""@));
    assert(row_views(rows@) =~= head);
    assert(row_views(rows@) =~= head + branch_rows(vs, ds).take(0));
    for i in 0..deps.len()
        invariant
            vs == installed_views(all@),
            ds == positions(deps@),
            forall|k: int| 0 <= k < deps@.len() ==> #[trigger] deps@[k] < all@.len(),
            row_views(rows@) == head + branch_rows(vs, ds).take(i as int),
    {
        let ghost so_far = rows@;
        let d = &all[deps[i]];
        let branch = if i == deps.len() - 1 {
            "└─"
        } else {
            "├─"
        };
        let row = Row { name: d.name.clone(), version: d.version.clone(), branch };
        rows.push(row);
        proof {
            assert(branch_rows(vs, ds)[i as int] == row@);
            assert(row_views(rows@) =~= row_views(so_far).push(row@));
            assert(row_views(rows@) =~= head + branch_rows(vs, ds).take(i + 1));
        }
    }
    assert(branch_rows(vs, ds).take(deps@.len() as int) =~= branch_rows(vs, ds));
}

/// Positions below `n`.
spec fn below(s: Seq<int>, n: nat) -> bool {
    forall|i: int| 0 <= i < s.len() ==> 0 <= #[trigger] s[i] < n
}

/// What is collected stands in the list of installed formulae.
proof fn lemma_gathered_valid(
    all: Seq<InstalledV>,
    auto: Set<Seq<char>>,
    base: Set<Seq<char>>,
    ds: Seq<Seq<char>>,
    path: Set<Seq<char>>,
    out: Seq<int>,
)
    requires
        below(out, all.len()),
    ensures
        below(gathered(all, auto, base, ds, path, out), all.len()),
    decreases all_names(all).to_set().difference(path).len(), ds.len(),
{
    if ds.len() > 0 {
        let taken = taken_by(all, base, path, out);
        lemma_claim(all, auto, taken, ds[0]);
        match claimed(all, auto, taken, ds[0]) {
            None => {
                lemma_gathered_valid(all, auto, base, ds.skip(1), path, out);
            },
            Some(j) => {
                text::lemma_fewer_names(all_names(all), path, all[j].name);
                lemma_gathered_valid(all, auto, base, deps_at(all, j), path.insert(all[j].name), out);
                let inner = gathered(all, auto, base, deps_at(all, j), path.insert(all[j].name), out);
                lemma_gathered_valid(all, auto, base, ds.skip(1), path, inner.push(j));
            },
        }
    }
}

/// The rows of two lists of groups.
proof fn lemma_rows_concat(all: Seq<InstalledV>, a: Seq<Group>, b: Seq<Group>)
    ensures
        group_rows(all, a + b) == group_rows(all, a) + group_rows(all, b),
    decreases b.len(),
{
    if b.len() == 0 {
        assert(a + b =~= a);
        assert(group_rows(all, a) + group_rows(all, b) =~= group_rows(all, a));
    } else {
        assert((a + b).drop_last() =~= a + b.drop_last());
        assert((a + b).last() == b.last());
        lemma_rows_concat(all, a, b.drop_last());
        assert(group_rows(all, a + b) =~= group_rows(all, a) + group_rows(all, b));
    }
}

/// The rows of the tree of what is removed with the named formulae.
fn tree(all: &Vec<Installed>, names: &Vec<String>) -> (r: Vec<Row>)
    requires
        forall|i: int|
            0 <= i < names@.len() ==> is_installed(installed_views(all@), #[trigger] texts(names@)[i]),
    ensures
        row_views(r@) == removal_rows(installed_views(all@), texts(names@)),
{
    let ghost vs = installed_views(all@);
    let ghost ns = texts(names@);
    let ghost going = ns.to_set();
    let removing = sweep(all, names);
    let mut auto = StringHashSet::new();
    let ghost autos = removing@.difference(going);
    for k in 0..all.len()
        invariant
            vs == installed_views(all@),
            ns == texts(names@),
            going == ns.to_set(),
            autos == removing@.difference(going),
            forall|n: Seq<char>|
                #[trigger] auto@.contains(n) <==> autos.contains(n) && exists|q: int|
                    0 <= q < k && (#[trigger] vs[q]).name == n,
    {
        let one = &all[k];
        assert(vs[k as int] == one@);
        if removing.contains(one.name.as_str()) && !text::among(one.name.as_str(), names) {
            auto.insert(one.name.clone());
        }
    }
    proof {
        assert forall|n: Seq<char>| autos.contains(n) implies auto@.contains(n) by {
            law_autoremove_spares_what_is_needed(vs, going, n);
            let q = choose|q: int| 0 <= q < vs.len() && (#[trigger] vs[q]).name == n && sweepable(vs[q]);
            assert(vs[q].name == n);
        }
        assert(auto@ =~= autos);
    }
    let mut taken = StringHashSet::new();
    for i in 0..names.len()
        invariant
            ns == texts(names@),
            taken@ == ns.take(i as int).to_set(),
    {
        taken.insert(names[i].clone());
        proof {
            assert(ns.take(i + 1) =~= ns.take(i as int).push(names@[i as int]@));
            text::lemma_push_to_set(ns.take(i as int), names@[i as int]@);
        }
    }
    proof {
        assert(ns.take(names@.len() as int) =~= ns);
        assert(ns.take(0).to_set() =~= Set::empty());
    }
    let known = list_names(all);
    let mut rows: Vec<Row> = Vec::new();
    assert(row_views(rows@) =~= group_rows(vs, grouped(vs, autos, going, ns.take(0)).0));
    for i in 0..names.len()
        invariant
            vs == installed_views(all@),
            texts(known@) == all_names(vs),
            ns == texts(names@),
            going == ns.to_set(),
            auto@ == autos,
            forall|k: int| 0 <= k < names@.len() ==> is_installed(vs, #[trigger] ns[k]),
            taken@ == grouped(vs, autos, going, ns.take(i as int)).1,
            row_views(rows@) == group_rows(vs, grouped(vs, autos, going, ns.take(i as int)).0),
    {
        let ghost base = taken@;
        proof {
            assert(ns[i as int] == names@[i as int]@);
            assert(is_installed(vs, ns[i as int]));
            assert(ns.take(i + 1).drop_last() =~= ns.take(i as int));
            assert(ns.take(i + 1).last() == ns[i as int]);
            text::lemma_last_position(all_names(vs), ns[i as int]);
            let q = choose|q: int| 0 <= q < vs.len() && (#[trigger] vs[q]).name == ns[i as int];
            assert(all_names(vs)[q] == ns[i as int]);
        }
        if let Some(root) = text::find_last(&known, names[i].as_str()) {
            assert(texts(known@).len() == all_names(vs).len());
            let mut deps: Vec<usize> = Vec::new();
            proof {
                assert(positions(deps@) =~= Seq::empty());
                assert(taken@ =~= taken_by(vs, base, Set::empty(), positions(deps@)));
                lemma_gathered_valid(vs, autos, base, deps_at(vs, root as int), Set::empty(), Seq::empty());
            }
            receipt_closure(
                all,
                &known,
                root,
                &auto,
                &mut taken,
                &mut deps,
                Ghost(base),
                Ghost(Set::empty()),
            );
            proof {
                let ds = positions(deps@);
                assert forall|k: int| 0 <= k < deps@.len() implies #[trigger] deps@[k] < all@.len() by {
                    assert(ds[k] == deps@[k]);
                }
                let was = grouped(vs, autos, going, ns.take(i as int)).0;
                let now = grouped(vs, autos, going, ns.take(i + 1)).0;
                assert(now.drop_last() =~= was);
                assert(taken@ =~= base.union(names_at(vs, ds).to_set()));
            }
            push_group(all, root, &deps, &mut rows);
        }
    }
    assert(ns.take(names@.len() as int) =~= ns);
    let ghost (groups, base) = grouped(vs, autos, going, ns);
    assert(row_views(rows@) =~= group_rows(vs, groups) + group_rows(
        vs,
        strays(vs, removing@, base, 0).0,
    ));
    for k in 0..all.len()
        invariant
            vs == installed_views(all@),
            taken@ == strays(vs, removing@, base, k as nat).1,
            row_views(rows@) == group_rows(vs, groups) + group_rows(
                vs,
                strays(vs, removing@, base, k as nat).0,
            ),
    {
        let one = &all[k];
        let ghost was = strays(vs, removing@, base, k as nat).0;
        let ghost rows0 = rows@;
        assert(vs[k as int] == one@);
        if removing.contains(one.name.as_str()) {
            if taken.insert(one.name.clone()) {
                let none: Vec<usize> = Vec::new();
                push_group(all, k, &none, &mut rows);
                proof {
                    let now = strays(vs, removing@, base, (k + 1) as nat).0;
                    assert(now.drop_last() =~= was);
                    assert(positions(none@) =~= Seq::empty());
                    assert(row_views(rows@) =~= group_rows(vs, groups) + group_rows(vs, now));
                }
            } else {
                assert(taken@ =~= strays(vs, removing@, base, k as nat).1);
            }
        }
    }
    proof {
        lemma_rows_concat(vs, groups, strays(vs, removing@, base, vs.len()).0);
    }
    rows
}

/// The columns that the widest row takes up.
fn row_width(rows: &Vec<Row>) -> (r: usize)
    ensures
        r == widest_row(row_views(rows@)),
{
    let ghost vs = row_views(rows@);
    let mut r: usize = 0;
    for i in 0..rows.len()
        invariant
            vs == row_views(rows@),
            r == widest_row(vs.take(i as int)),
    {
        let row = &rows[i];
        let shown = if row.branch.is_empty() {
            row.name.clone().concat(" ").concat(row.version.as_str())
        } else {
            row.branch.to_string().concat(" ").concat(row.name.as_str()).concat(" ").concat(
                row.version.as_str(),
            )
        };
        let used = text::chars_of(shown.as_str()).len();
        proof {
            assert(vs.take(i + 1).drop_last() =~= vs.take(i as int));
            assert(vs.take(i + 1).last() == row@);
            assert(used == label(row.branch@, row.name@, row.version@).len());
        }
        if r < used {
            r = used;
        }
    }
    assert(vs.take(rows@.len() as int) =~= vs);
    r
}

/// What is removed, as the rows of a tree, with the columns that the widest of
/// them takes up.
pub struct Removal {
    pub rows: Vec<Row>,
    pub width: usize,
}

/// Decides what is removed when `names` are uninstalled: refuses if anything
/// that stays depends on them (unless `force` is set, which makes a warning of
/// it), then takes along the dependencies that nothing needs any more.
pub fn uninstall(all: &Vec<Installed>, names: &Vec<String>, force: bool) -> (r: (
    Vec<String>,
    Result<Removal, UninstallError>,
))
    ensures
        ({
            let vs = installed_views(all@);
            let ns = texts(names@);
            let v = verdict(vs, ns.to_set(), ns, force);
            &&& texts(r.0@) == v.0
            &&& match v.1 {
                Some(e) => r.1 matches Err(x) && x@ == e,
                None => r.1 matches Ok(removal) && row_views(removal.rows@) == removal_rows(vs, ns)
                    && removal.width == widest_row(removal_rows(vs, ns)),
            }
        }),
{
    let ghost vs = installed_views(all@);
    let ghost ns = texts(names@);
    let (warnings, error) = check(all, names, force);
    if let Some(e) = error {
        return (warnings, Err(e));
    }
    assert forall|i: int| 0 <= i < names@.len() implies is_installed(vs, #[trigger] ns[i]) by {
        lemma_all_installed(vs, ns.to_set(), ns, force, i);
    }
    let rows = tree(all, names);
    let width = row_width(&rows);
    (warnings, Ok(Removal { rows, width }))
}

/// Where there is no error, all named formulae are installed.
proof fn lemma_all_installed(
    all: Seq<InstalledV>,
    going: Set<Seq<char>>,
    names: Seq<Seq<char>>,
    force: bool,
    i: int,
)
    requires
        verdict(all, going, names, force).1 is None,
        0 <= i < names.len(),
    ensures
        is_installed(all, names[i]),
    decreases names.len(),
{
    if i < names.len() - 1 {
        lemma_all_installed(all, going, names.drop_last(), force, i);
    }
}

/// Where nothing is listed as a dependent, nothing that stays depends on the
/// name.
proof fn lemma_no_dependents(all: Seq<InstalledV>, going: Set<Seq<char>>, name: Seq<char>, o: int)
    requires
        dependents(all, going, name).len() == 0,
        0 <= o < all.len(),
        !going.contains(all[o].name),
    ensures
        !depends(all[o], name),
    decreases all.len(),
{
    if o < all.len() - 1 {
        lemma_no_dependents(all.drop_last(), going, name, o);
    }
}

/// Where there is no error without force, no named formula has dependents.
proof fn lemma_none_required(all: Seq<InstalledV>, going: Set<Seq<char>>, names: Seq<Seq<char>>, i: int)
    requires
        verdict(all, going, names, false).1 is None,
        0 <= i < names.len(),
    ensures
        dependents(all, going, names[i]).len() == 0,
    decreases names.len(),
{
    if i < names.len() - 1 {
        lemma_none_required(all, going, names.drop_last(), i);
    }
}

/// Law: a removal that is not forced breaks nothing: no formula that stays
/// depends on one that is removed.
pub proof fn law_removals_break_nothing(all: Seq<InstalledV>, names: Seq<Seq<char>>, n: Seq<char>, o: int)
    requires
        verdict(all, names.to_set(), names, false).1 is None,
        swept(all, names.to_set()).contains(n),
        0 <= o < all.len(),
        !swept(all, names.to_set()).contains(all[o].name),
    ensures
        !depends(all[o], n),
{
    let going = names.to_set();
    lemma_swept_suffices(all, going);
    if going.contains(n) {
        let i = choose|i: int| 0 <= i < names.len() && names[i] == n;
        lemma_none_required(all, going, names, i);
        lemma_no_dependents(all, going, n, o);
    } else {
        law_autoremove_spares_what_is_needed(all, going, n);
    }
}

/// What two sequences hold together, and when nothing occurs twice in it.
proof fn lemma_concat(a: Seq<Seq<char>>, b: Seq<Seq<char>>)
    ensures
        forall|x: Seq<char>| #[trigger] (a + b).contains(x) <==> a.contains(x) || b.contains(x),
        a.no_duplicates() && b.no_duplicates() && (forall|x: Seq<char>|
            #[trigger] a.contains(x) ==> !b.contains(x)) ==> (a + b).no_duplicates(),
{
    assert forall|x: Seq<char>| #[trigger] (a + b).contains(x) <==> a.contains(x) || b.contains(x) by {
        if a.contains(x) {
            let k = choose|k: int| 0 <= k < a.len() && a[k] == x;
            assert((a + b)[k] == x);
        }
        if b.contains(x) {
            let k = choose|k: int| 0 <= k < b.len() && b[k] == x;
            assert((a + b)[a.len() + k] == x);
        }
        if (a + b).contains(x) {
            let k = choose|k: int| 0 <= k < (a + b).len() && (a + b)[k] == x;
            if k < a.len() {
                assert(a[k] == x);
            } else {
                assert(b[k - a.len()] == x);
            }
        }
    }
    if a.no_duplicates() && b.no_duplicates() && (forall|x: Seq<char>|
        #[trigger] a.contains(x) ==> !b.contains(x)) {
        assert forall|i: int, j: int|
            0 <= i < (a + b).len() && 0 <= j < (a + b).len() && i != j implies (a + b)[i] != (a + b)[j] by {
            if i < a.len() && j >= a.len() {
                assert(a.contains(a[i]));
                assert(b.contains(b[j - a.len()]));
            } else if j < a.len() && i >= a.len() {
                assert(a.contains(a[j]));
                assert(b.contains(b[i - a.len()]));
            } else if i < a.len() {
                assert(a[i] != a[j]);
            } else {
                assert(b[i - a.len()] != b[j - a.len()]);
            }
        }
    }
}

/// Names of formulae that are swept away, each once, and none of them taken.
spec fn fresh(
    all: Seq<InstalledV>,
    auto: Set<Seq<char>>,
    base: Set<Seq<char>>,
    path: Set<Seq<char>>,
    out: Seq<int>,
) -> bool {
    &&& names_at(all, out).no_duplicates()
    &&& forall|x: Seq<char>|
        #[trigger] names_at(all, out).contains(x) ==> auto.contains(x) && !base.contains(x)
            && !path.contains(x)
}

/// What is collected is fresh.
proof fn lemma_gathered_fresh(
    all: Seq<InstalledV>,
    auto: Set<Seq<char>>,
    base: Set<Seq<char>>,
    ds: Seq<Seq<char>>,
    path: Set<Seq<char>>,
    out: Seq<int>,
)
    requires
        fresh(all, auto, base, path, out),
    ensures
        fresh(all, auto, base, path, gathered(all, auto, base, ds, path, out)),
    decreases all_names(all).to_set().difference(path).len(), ds.len(),
{
    if ds.len() > 0 {
        let taken = taken_by(all, base, path, out);
        lemma_claim(all, auto, taken, ds[0]);
        match claimed(all, auto, taken, ds[0]) {
            None => {
                lemma_gathered_fresh(all, auto, base, ds.skip(1), path, out);
            },
            Some(j) => {
                let n = all[j].name;
                let deeper = path.insert(n);
                text::lemma_fewer_names(all_names(all), path, n);
                assert(!names_at(all, out).contains(n)) by {
                    assert(names_at(all, out).to_set().contains(n) == names_at(all, out).contains(n));
                }
                assert(fresh(all, auto, base, deeper, out));
                lemma_gathered_fresh(all, auto, base, deps_at(all, j), deeper, out);
                let inner = gathered(all, auto, base, deps_at(all, j), deeper, out);
                assert(names_at(all, inner.push(j)) =~= names_at(all, inner).push(n));
                text::lemma_push_contains(names_at(all, inner), n);
                assert(!names_at(all, inner).contains(n));
                assert(fresh(all, auto, base, path, inner.push(j)));
                lemma_gathered_fresh(all, auto, base, ds.skip(1), path, inner.push(j));
            },
        }
    }
}

/// `ds` names the formula at `j`, which is swept away and whose name is not
/// taken.
pub open spec fn pulls(
    all: Seq<InstalledV>,
    auto: Set<Seq<char>>,
    base: Set<Seq<char>>,
    ds: Seq<Seq<char>>,
    j: int,
) -> bool {
    exists|d: Seq<char>| #[trigger] ds.contains(d) && claimed(all, auto, base, d) == Some(j)
}

/// `ds` names the first formula of the chain, and the receipt of each names the
/// next.
pub open spec fn pulls_along(
    all: Seq<InstalledV>,
    auto: Set<Seq<char>>,
    base: Set<Seq<char>>,
    ds: Seq<Seq<char>>,
    chain: Seq<int>,
) -> bool {
    &&& chain.len() > 0
    &&& pulls(all, auto, base, ds, chain[0])
    &&& forall|k: int|
        0 <= k < chain.len() - 1 ==> pulls(all, auto, base, deps_at(all, #[trigger] chain[k]), chain[k + 1])
}

/// A chain of dependencies leads from `ds` to the formula at `j`.
pub open spec fn pulled(
    all: Seq<InstalledV>,
    auto: Set<Seq<char>>,
    base: Set<Seq<char>>,
    ds: Seq<Seq<char>>,
    j: int,
) -> bool {
    exists|chain: Seq<int>| #[trigger] pulls_along(all, auto, base, ds, chain) && chain.last() == j
}

/// What is named at once is reached.
proof fn lemma_pulled_at_once(
    all: Seq<InstalledV>,
    auto: Set<Seq<char>>,
    base: Set<Seq<char>>,
    ds: Seq<Seq<char>>,
    j: int,
)
    requires
        pulls(all, auto, base, ds, j),
    ensures
        pulled(all, auto, base, ds, j),
{
    assert(pulls_along(all, auto, base, ds, seq![j]));
    assert(seq![j].last() == j);
}

/// What is reached from a formula that is named is reached.
proof fn lemma_pulled_through(
    all: Seq<InstalledV>,
    auto: Set<Seq<char>>,
    base: Set<Seq<char>>,
    ds: Seq<Seq<char>>,
    i: int,
    j: int,
)
    requires
        pulls(all, auto, base, ds, i),
        pulled(all, auto, base, deps_at(all, i), j),
    ensures
        pulled(all, auto, base, ds, j),
{
    let chain = choose|chain: Seq<int>| #[trigger]
        pulls_along(all, auto, base, deps_at(all, i), chain) && chain.last() == j;
    let longer = seq![i] + chain;
    assert forall|k: int| 0 <= k < longer.len() - 1 implies pulls(
        all,
        auto,
        base,
        deps_at(all, #[trigger] longer[k]),
        longer[k + 1],
    ) by {
        if k > 0 {
            assert(longer[k] == chain[k - 1]);
            assert(longer[k + 1] == chain[k - 1 + 1]);
        }
    }
    assert(pulls_along(all, auto, base, ds, longer));
    assert(longer.last() == j);
}

/// What is reached from a part of the names is reached from all.
proof fn lemma_pulled_by_more(
    all: Seq<InstalledV>,
    auto: Set<Seq<char>>,
    base: Set<Seq<char>>,
    ds: Seq<Seq<char>>,
    j: int,
)
    requires
        ds.len() > 0,
        pulled(all, auto, base, ds.skip(1), j),
    ensures
        pulled(all, auto, base, ds, j),
{
    let chain = choose|chain: Seq<int>| #[trigger]
        pulls_along(all, auto, base, ds.skip(1), chain) && chain.last() == j;
    let d = choose|d: Seq<char>| #[trigger]
        ds.skip(1).contains(d) && claimed(all, auto, base, d) == Some(chain[0]);
    let k = choose|k: int| 0 <= k < ds.skip(1).len() && ds.skip(1)[k] == d;
    assert(ds[k + 1] == d);
    assert(ds.contains(d));
    assert(pulls(all, auto, base, ds, chain[0]));
    assert(pulls_along(all, auto, base, ds, chain));
}

/// Every position is the one that its name stands for.
spec fn canonical(all: Seq<InstalledV>, auto: Set<Seq<char>>, base: Set<Seq<char>>, out: Seq<int>) -> bool {
    forall|i: int|
        0 <= i < out.len() ==> claimed(all, auto, base, all[#[trigger] out[i]].name) == Some(out[i])
}

/// Whatever `ds` names stands in `out` or is being visited.
spec fn covered(
    all: Seq<InstalledV>,
    auto: Set<Seq<char>>,
    base: Set<Seq<char>>,
    ds: Seq<Seq<char>>,
    path: Set<Seq<char>>,
    out: Seq<int>,
) -> bool {
    forall|q: int| #[trigger]
        pulls(all, auto, base, ds, q) ==> out.contains(q) || path.contains(all[q].name)
}

/// The formula at `j` is reached from itself.
pub open spec fn circular(all: Seq<InstalledV>, auto: Set<Seq<char>>, base: Set<Seq<char>>, j: int) -> bool {
    pulled(all, auto, base, deps_at(all, j), j)
}

/// The formulae of `r` from the position `from` on are reached, their own
/// dependencies stand in `r` or are being visited, and stand before them where
/// they are not part of a circle.
spec fn settled(
    all: Seq<InstalledV>,
    auto: Set<Seq<char>>,
    base: Set<Seq<char>>,
    ds: Seq<Seq<char>>,
    path: Set<Seq<char>>,
    r: Seq<int>,
    from: int,
) -> bool {
    forall|a: int|
        from <= a < r.len() ==> {
            &&& pulled(all, auto, base, ds, #[trigger] r[a])
            &&& covered(all, auto, base, deps_at(all, r[a]), path, r)
            &&& covered(all, auto, base, deps_at(all, r[a]), path, r.take(a)) || circular(
                all,
                auto,
                base,
                r[a],
            )
        }
}

/// A formula that is named under the name at `j` is the one at `j`.
proof fn lemma_pulls_by_name(
    all: Seq<InstalledV>,
    auto: Set<Seq<char>>,
    base: Set<Seq<char>>,
    ds: Seq<Seq<char>>,
    q: int,
    j: int,
)
    requires
        pulls(all, auto, base, ds, q),
        claimed(all, auto, base, all[j].name) == Some(j),
        all[q].name == all[j].name,
    ensures
        q == j,
{
    let d = choose|d: Seq<char>| #[trigger] ds.contains(d) && claimed(all, auto, base, d) == Some(q);
    lemma_claim(all, auto, base, d);
}

/// A visit that has ended no longer counts, once the formula is in the list.
proof fn lemma_visit_ends(
    all: Seq<InstalledV>,
    auto: Set<Seq<char>>,
    base: Set<Seq<char>>,
    ds: Seq<Seq<char>>,
    path: Set<Seq<char>>,
    out: Seq<int>,
    r: Seq<int>,
    j: int,
)
    requires
        covered(all, auto, base, ds, path.insert(all[j].name), out),
        claimed(all, auto, base, all[j].name) == Some(j),
        forall|q: int| #[trigger] out.contains(q) ==> r.contains(q),
        r.contains(j) || !pulls(all, auto, base, ds, j),
    ensures
        covered(all, auto, base, ds, path, r),
{
    assert forall|q: int| #[trigger] pulls(all, auto, base, ds, q) implies r.contains(q) || path.contains(
        all[q].name,
    ) by {
        if all[q].name == all[j].name {
            lemma_pulls_by_name(all, auto, base, ds, q, j);
        }
    }
}

/// What a sequence begins with is in it.
proof fn lemma_begins(s: Seq<int>, p: Seq<int>)
    requires
        p.len() <= s.len(),
        s.take(p.len() as int) == p,
    ensures
        forall|q: int| #[trigger] p.contains(q) ==> s.contains(q),
        forall|i: int| 0 <= i < p.len() ==> #[trigger] s[i] == p[i],
        forall|i: int| 0 <= i <= p.len() ==> s.take(i) == #[trigger] p.take(i),
{
    assert forall|i: int| 0 <= i < p.len() implies #[trigger] s[i] == p[i] by {
        assert(s.take(p.len() as int)[i] == s[i]);
    }
    assert forall|q: int| #[trigger] p.contains(q) implies s.contains(q) by {
        let k = choose|k: int| 0 <= k < p.len() && p[k] == q;
        assert(s[k] == q);
    }
    assert forall|i: int| 0 <= i <= p.len() implies s.take(i) == #[trigger] p.take(i) by {
        assert(s.take(i) =~= p.take(i));
    }
}

/// What collecting adds to the list.
proof fn lemma_gathered_settled(
    all: Seq<InstalledV>,
    auto: Set<Seq<char>>,
    base: Set<Seq<char>>,
    ds: Seq<Seq<char>>,
    path: Set<Seq<char>>,
    out: Seq<int>,
)
    requires
        canonical(all, auto, base, out),
    ensures
        ({
            let r = gathered(all, auto, base, ds, path, out);
            &&& canonical(all, auto, base, r)
            &&& out.len() <= r.len()
            &&& r.take(out.len() as int) == out
            &&& covered(all, auto, base, ds, path, r)
            &&& settled(all, auto, base, ds, path, r, out.len() as int)
        }),
    decreases all_names(all).to_set().difference(path).len(), ds.len(),
{
    let r = gathered(all, auto, base, ds, path, out);
    if ds.len() == 0 {
        assert(r.take(out.len() as int) =~= out);
    } else {
        let taken = taken_by(all, base, path, out);
        let d0 = ds[0];
        lemma_claim(all, auto, taken, d0);
        lemma_claim(all, auto, base, d0);
        assert(names_at(all, out).to_set().contains(d0) == names_at(all, out).contains(d0));
        match claimed(all, auto, taken, d0) {
            None => {
                lemma_gathered_settled(all, auto, base, ds.skip(1), path, out);
                lemma_begins(r, out);
                if let Some(q) = claimed(all, auto, base, d0) {
                    if !path.contains(d0) {
                        let i = choose|i: int| 0 <= i < names_at(all, out).len() && names_at(all, out)[i] == d0;
                        assert(all[out[i]].name == d0);
                        assert(out.contains(out[i]));
                        assert(r.contains(q));
                    }
                }
                lemma_first_covered(all, auto, base, ds, path, r);
                lemma_settled_by_more(all, auto, base, ds, path, r, out.len() as int);
            },
            Some(j) => {
                let n = all[j].name;
                let deeper = path.insert(n);
                text::lemma_fewer_names(all_names(all), path, n);
                assert(claimed(all, auto, base, n) == Some(j));
                assert(pulls(all, auto, base, ds, j)) by {
                    assert(ds.contains(d0));
                }
                lemma_gathered_settled(all, auto, base, deps_at(all, j), deeper, out);
                let inner = gathered(all, auto, base, deps_at(all, j), deeper, out);
                let grown = inner.push(j);
                assert(canonical(all, auto, base, grown));
                lemma_gathered_settled(all, auto, base, ds.skip(1), path, grown);
                lemma_begins(r, grown);
                lemma_begins(inner, out);
                assert(grown.take(inner.len() as int) =~= inner);
                lemma_begins(grown, inner);
                assert(grown.take(out.len() as int) == inner.take(out.len() as int));
                assert(r.take(out.len() as int) == grown.take(out.len() as int));
                assert(grown[inner.len() as int] == j);
                assert(grown.contains(j));
                assert(r.contains(j));
                lemma_first_covered(all, auto, base, ds, path, r);
                lemma_settled_by_more(all, auto, base, ds, path, r, grown.len() as int);
                lemma_settled_below(all, auto, base, ds, path, out.len() as int, inner, j, r);
            },
        }
    }
}

/// Where the first name and the others are covered, all are.
proof fn lemma_first_covered(
    all: Seq<InstalledV>,
    auto: Set<Seq<char>>,
    base: Set<Seq<char>>,
    ds: Seq<Seq<char>>,
    path: Set<Seq<char>>,
    r: Seq<int>,
)
    requires
        ds.len() > 0,
        covered(all, auto, base, ds.skip(1), path, r),
        claimed(all, auto, base, ds[0]) matches Some(q) ==> r.contains(q) || path.contains(ds[0]),
    ensures
        covered(all, auto, base, ds, path, r),
{
    assert forall|q: int| #[trigger] pulls(all, auto, base, ds, q) implies r.contains(q) || path.contains(
        all[q].name,
    ) by {
        let d = choose|d: Seq<char>| #[trigger] ds.contains(d) && claimed(all, auto, base, d) == Some(q);
        lemma_claim(all, auto, base, d);
        if d != ds[0] {
            let k = choose|k: int| 0 <= k < ds.len() && ds[k] == d;
            assert(ds.skip(1)[k - 1] == d);
            assert(ds.skip(1).contains(d));
            assert(pulls(all, auto, base, ds.skip(1), q));
        }
    }
}

/// What is settled for a part of the names is settled for all.
proof fn lemma_settled_by_more(
    all: Seq<InstalledV>,
    auto: Set<Seq<char>>,
    base: Set<Seq<char>>,
    ds: Seq<Seq<char>>,
    path: Set<Seq<char>>,
    r: Seq<int>,
    from: int,
)
    requires
        ds.len() > 0,
        settled(all, auto, base, ds.skip(1), path, r, from),
    ensures
        settled(all, auto, base, ds, path, r, from),
{
    assert forall|a: int| from <= a < r.len() implies {
        &&& pulled(all, auto, base, ds, #[trigger] r[a])
        &&& covered(all, auto, base, deps_at(all, r[a]), path, r)
        &&& covered(all, auto, base, deps_at(all, r[a]), path, r.take(a)) || circular(all, auto, base, r[a])
    } by {
        lemma_pulled_by_more(all, auto, base, ds, r[a]);
    }
}

/// What was settled below a visit stays so, and the visited formula is settled
/// behind it.
proof fn lemma_settled_below(
    all: Seq<InstalledV>,
    auto: Set<Seq<char>>,
    base: Set<Seq<char>>,
    ds: Seq<Seq<char>>,
    path: Set<Seq<char>>,
    from: int,
    inner: Seq<int>,
    j: int,
    r: Seq<int>,
)
    requires
        0 <= from <= inner.len() < r.len(),
        r.take(inner.len() as int + 1) == inner.push(j),
        pulls(all, auto, base, ds, j),
        claimed(all, auto, base, all[j].name) == Some(j),
        covered(all, auto, base, deps_at(all, j), path.insert(all[j].name), inner),
        settled(all, auto, base, deps_at(all, j), path.insert(all[j].name), inner, from),
        settled(all, auto, base, ds, path, r, inner.len() as int + 1),
    ensures
        settled(all, auto, base, ds, path, r, from),
{
    let grown = inner.push(j);
    lemma_begins(r, grown);
    assert(grown.take(inner.len() as int) =~= inner);
    lemma_begins(grown, inner);
    assert(grown[inner.len() as int] == j);
    assert(r[inner.len() as int] == j);
    assert(r.contains(j));
    assert forall|a: int| from <= a < r.len() implies {
        &&& pulled(all, auto, base, ds, #[trigger] r[a])
        &&& covered(all, auto, base, deps_at(all, r[a]), path, r)
        &&& covered(all, auto, base, deps_at(all, r[a]), path, r.take(a)) || circular(all, auto, base, r[a])
    } by {
        let own = deps_at(all, r[a]);
        if a < inner.len() {
            assert(grown[a] == inner[a]);
            assert(r[a] == inner[a]);
            lemma_pulled_through(all, auto, base, ds, j, inner[a]);
            lemma_visit_ends(all, auto, base, own, path, inner, r, j);
            assert(grown.take(a) == inner.take(a));
            assert(r.take(a) == grown.take(a));
            if pulls(all, auto, base, own, j) {
                lemma_pulled_through(all, auto, base, own, j, r[a]);
            } else if !circular(all, auto, base, r[a]) {
                lemma_visit_ends(all, auto, base, own, path, inner.take(a), r.take(a), j);
            }
        } else if a == inner.len() {
            lemma_pulled_at_once(all, auto, base, ds, j);
            lemma_visit_ends(all, auto, base, own, path, inner, r, j);
            assert(r.take(a) == grown.take(a));
            if pulls(all, auto, base, own, j) {
                lemma_pulled_at_once(all, auto, base, own, j);
            } else {
                lemma_visit_ends(all, auto, base, own, path, inner, r.take(a), j);
            }
        }
    }
}

/// What a chain leads to is in a list that holds what is named and, with each
/// formula, its dependencies.
proof fn lemma_chain_collected(
    all: Seq<InstalledV>,
    auto: Set<Seq<char>>,
    base: Set<Seq<char>>,
    ds: Seq<Seq<char>>,
    r: Seq<int>,
    chain: Seq<int>,
    k: int,
)
    requires
        covered(all, auto, base, ds, Set::empty(), r),
        settled(all, auto, base, ds, Set::empty(), r, 0),
        pulls_along(all, auto, base, ds, chain),
        0 <= k < chain.len(),
    ensures
        r.contains(chain[k]),
    decreases k,
{
    if k > 0 {
        lemma_chain_collected(all, auto, base, ds, r, chain, k - 1);
        let a = choose|a: int| 0 <= a < r.len() && r[a] == chain[k - 1];
        assert(covered(all, auto, base, deps_at(all, r[a]), Set::empty(), r));
        assert(pulls(all, auto, base, deps_at(all, chain[k - 1]), chain[k - 1 + 1]));
    }
}

/// Law: what is collected below a formula is exactly what a chain of
/// dependencies leads to, through formulae that are swept away and whose names
/// are not taken, each of them once.
pub proof fn law_all_that_is_pulled_is_collected(
    all: Seq<InstalledV>,
    auto: Set<Seq<char>>,
    base: Set<Seq<char>>,
    ds: Seq<Seq<char>>,
)
    ensures
        ({
            let r = gathered(all, auto, base, ds, Set::empty(), Seq::empty());
            &&& forall|j: int| #[trigger] r.contains(j) <==> pulled(all, auto, base, ds, j)
            &&& names_at(all, r).no_duplicates()
            &&& forall|n: Seq<char>| #[trigger]
                names_at(all, r).contains(n) ==> auto.contains(n) && !base.contains(n)
        }),
{
    let none = Seq::<int>::empty();
    let r = gathered(all, auto, base, ds, Set::empty(), none);
    lemma_gathered_settled(all, auto, base, ds, Set::empty(), none);
    assert(names_at(all, none) =~= Seq::empty());
    lemma_gathered_fresh(all, auto, base, ds, Set::empty(), none);
    assert forall|j: int| #[trigger] r.contains(j) <==> pulled(all, auto, base, ds, j) by {
        if r.contains(j) {
            let a = choose|a: int| 0 <= a < r.len() && r[a] == j;
            assert(pulled(all, auto, base, ds, r[a]));
        }
        if pulled(all, auto, base, ds, j) {
            let chain = choose|chain: Seq<int>| #[trigger]
                pulls_along(all, auto, base, ds, chain) && chain.last() == j;
            lemma_chain_collected(all, auto, base, ds, r, chain, chain.len() - 1);
        }
    }
}

/// Law: each formula that is collected comes after all of its own dependencies
/// that are collected, unless it depends on itself through a circle.
pub proof fn law_dependencies_are_collected_first(
    all: Seq<InstalledV>,
    auto: Set<Seq<char>>,
    base: Set<Seq<char>>,
    ds: Seq<Seq<char>>,
    a: int,
    q: int,
)
    requires
        ({
            let r = gathered(all, auto, base, ds, Set::empty(), Seq::empty());
            &&& 0 <= a < r.len()
            &&& !circular(all, auto, base, r[a])
            &&& pulls(all, auto, base, deps_at(all, r[a]), q)
        }),
    ensures
        gathered(all, auto, base, ds, Set::empty(), Seq::empty()).take(a).contains(q),
{
    let r = gathered(all, auto, base, ds, Set::empty(), Seq::empty());
    lemma_gathered_settled(all, auto, base, ds, Set::empty(), Seq::empty());
    assert(covered(all, auto, base, deps_at(all, r[a]), Set::empty(), r.take(a)));
}

/// The names in groups.
spec fn group_names(all: Seq<InstalledV>, groups: Seq<Group>) -> Seq<Seq<char>>
    decreases groups.len(),
{
    if groups.len() == 0 {
        Seq::empty()
    } else {
        group_names(all, groups.drop_last()).push(all[groups.last().root].name) + names_at(
            all,
            groups.last().deps,
        )
    }
}

/// The names in rows.
pub open spec fn row_names(rows: Seq<RowV>) -> Seq<Seq<char>> {
    rows.map_values(|r: RowV| r.name)
}

proof fn lemma_row_names(all: Seq<InstalledV>, groups: Seq<Group>)
    ensures
        row_names(group_rows(all, groups)) == group_names(all, groups),
    decreases groups.len(),
{
    if groups.len() == 0 {
        assert(row_names(group_rows(all, groups)) =~= group_names(all, groups));
    } else {
        lemma_row_names(all, groups.drop_last());
        assert(row_names(group_rows(all, groups)) =~= group_names(all, groups));
    }
}

/// What the groups of the named formulae hold.
proof fn lemma_grouped(all: Seq<InstalledV>, auto: Set<Seq<char>>, going: Set<Seq<char>>, names: Seq<Seq<char>>)
    requires
        names.no_duplicates(),
        forall|i: int| 0 <= i < names.len() ==> going.contains(#[trigger] names[i]),
        forall|i: int| 0 <= i < names.len() ==> is_installed(all, #[trigger] names[i]),
        forall|x: Seq<char>| #[trigger] auto.contains(x) ==> !going.contains(x),
    ensures
        ({
            let (groups, taken) = grouped(all, auto, going, names);
            let held = group_names(all, groups);
            &&& held.no_duplicates()
            &&& forall|x: Seq<char>| #[trigger] taken.contains(x) <==> going.contains(x) || held.contains(x)
            &&& forall|x: Seq<char>| #[trigger] held.contains(x) ==> names.contains(x) || auto.contains(x)
            &&& forall|x: Seq<char>| #[trigger] names.contains(x) ==> held.contains(x)
        }),
    decreases names.len(),
{
    let (groups, taken) = grouped(all, auto, going, names);
    let held = group_names(all, groups);
    if names.len() > 0 {
        let init = names.drop_last();
        let n = names.last();
        assert forall|i: int| 0 <= i < init.len() implies going.contains(#[trigger] init[i]) by {
            assert(init[i] == names[i]);
        }
        assert forall|i: int| 0 <= i < init.len() implies is_installed(all, #[trigger] init[i]) by {
            assert(init[i] == names[i]);
        }
        assert(init.no_duplicates());
        lemma_grouped(all, auto, going, init);
        let (groups0, taken0) = grouped(all, auto, going, init);
        let held0 = group_names(all, groups0);
        let root = last_position(all_names(all), n)->0;
        assert(is_installed(all, names[names.len() - 1]));
        let q = choose|q: int| 0 <= q < all.len() && (#[trigger] all[q]).name == n;
        assert(all_names(all)[q] == n);
        text::lemma_last_position(all_names(all), n);
        assert(all[root].name == n) by {
            assert(all_names(all)[root] == all[root].name);
        }
        let deps = gathered(all, auto, taken0, deps_at(all, root), Set::empty(), Seq::empty());
        assert(names_at(all, Seq::empty()) =~= Seq::empty());
        lemma_gathered_fresh(all, auto, taken0, deps_at(all, root), Set::empty(), Seq::empty());
        let new = names_at(all, deps);
        assert(groups.drop_last() =~= groups0);
        assert(held =~= held0.push(n) + new);
        assert(!init.contains(n)) by {
            if init.contains(n) {
                let k = choose|k: int| 0 <= k < init.len() && init[k] == n;
                assert(names[k] == names[names.len() - 1]);
            }
        }
        assert(going.contains(names[names.len() - 1]));
        assert(!held0.contains(n));
        text::lemma_push_contains(held0, n);
        assert forall|x: Seq<char>| #[trigger] held0.push(n).contains(x) implies !new.contains(x) by {
            if new.contains(x) {
                assert(!taken0.contains(x));
            }
        }
        lemma_concat(held0.push(n), new);
        assert forall|x: Seq<char>| #[trigger] taken.contains(x) <==> going.contains(x) || held.contains(x) by {
            assert(new.to_set().contains(x) == new.contains(x));
            assert(taken.contains(x) <==> taken0.contains(x) || new.contains(x));
        }
        assert(names =~= init.push(n));
        text::lemma_push_contains(init, n);
        assert forall|x: Seq<char>| #[trigger] held.contains(x) implies names.contains(x) || auto.contains(x) by {
            assert(held0.push(n).contains(x) || new.contains(x));
        }
        assert forall|x: Seq<char>| #[trigger] names.contains(x) implies held.contains(x) by {
            assert(init.contains(x) || x == n);
            assert(held0.push(n).contains(x));
        }
    }
}

/// What the groups of the strays hold.
proof fn lemma_strays(all: Seq<InstalledV>, removing: Set<Seq<char>>, taken: Set<Seq<char>>, n: nat)
    requires
        n <= all.len(),
    ensures
        ({
            let (groups, t) = strays(all, removing, taken, n);
            let held = group_names(all, groups);
            &&& held.no_duplicates()
            &&& forall|x: Seq<char>| #[trigger] t.contains(x) <==> taken.contains(x) || held.contains(x)
            &&& forall|x: Seq<char>| #[trigger] held.contains(x) ==> removing.contains(x) && !taken.contains(x)
            &&& forall|k: int|
                0 <= k < n && removing.contains((#[trigger] all[k]).name) ==> t.contains(all[k].name)
        }),
    decreases n,
{
    if n > 0 {
        lemma_strays(all, removing, taken, (n - 1) as nat);
        let (groups0, t0) = strays(all, removing, taken, (n - 1) as nat);
        let (groups, t) = strays(all, removing, taken, n);
        let held0 = group_names(all, groups0);
        let name = all[n - 1].name;
        if removing.contains(name) && !t0.contains(name) {
            assert(groups.drop_last() =~= groups0);
            assert(names_at(all, Seq::empty()) =~= Seq::empty());
            assert(group_names(all, groups) =~= held0.push(name));
            text::lemma_push_contains(held0, name);
        }
    }
}

/// Law: the tree shows every formula that is removed, each in one row, and no
/// other.
pub proof fn law_each_removal_has_one_row(all: Seq<InstalledV>, names: Seq<Seq<char>>)
    requires
        names.no_duplicates(),
        forall|i: int| 0 <= i < names.len() ==> is_installed(all, #[trigger] names[i]),
    ensures
        row_names(removal_rows(all, names)).no_duplicates(),
        forall|n: Seq<char>| #[trigger]
            row_names(removal_rows(all, names)).contains(n) <==> swept(all, names.to_set()).contains(n),
{
    let going = names.to_set();
    let removing = swept(all, going);
    let auto = removing.difference(going);
    let (groups, taken) = grouped(all, auto, going, names);
    let (more, last) = strays(all, removing, taken, all.len());
    let held = group_names(all, groups);
    let rest = group_names(all, more);
    assert forall|i: int| 0 <= i < names.len() implies going.contains(#[trigger] names[i]) by {
        assert(names.contains(names[i]));
    }
    lemma_grouped(all, auto, going, names);
    lemma_strays(all, removing, taken, all.len());
    lemma_swept_suffices(all, going);
    lemma_row_names(all, groups);
    lemma_row_names(all, more);
    lemma_rows_concat(all, groups, more);
    let rows = removal_rows(all, names);
    assert(row_names(rows) =~= held + rest);
    assert forall|x: Seq<char>| #[trigger] held.contains(x) implies !rest.contains(x) by {
        assert(taken.contains(x));
    }
    lemma_concat(held, rest);
    assert forall|n: Seq<char>| #[trigger] row_names(rows).contains(n) <==> removing.contains(n) by {
        assert(going.contains(n) == names.contains(n));
        if removing.contains(n) && !going.contains(n) {
            law_autoremove_spares_what_is_needed(all, going, n);
            let k = choose|k: int| 0 <= k < all.len() && (#[trigger] all[k]).name == n && sweepable(all[k]);
            assert(last.contains(all[k].name));
        }
    }
}

/// The receipt of the formula lists `name` as a dependency.
pub open spec fn lists_dep(i: InstalledV, name: Seq<char>) -> bool {
    i.receipt is Some && (i.receipt->0).deps.contains(name)
}

/// The formulae that stay and depend on `name`.
pub open spec fn dependent_at(all: Seq<InstalledV>, going: Set<Seq<char>>, name: Seq<char>) -> spec_fn(
    int,
    Seq<char>,
) -> bool {
    |i: int, n: Seq<char>| n == all[i].name && !going.contains(all[i].name) && lists_dep(all[i], name)
}

/// The dependents among the first formulae.
proof fn lemma_dependents(all: Seq<InstalledV>, going: Set<Seq<char>>, name: Seq<char>, n: int)
    requires
        0 <= n <= all.len(),
    ensures
        picks(n, dependent_at(all, going, name), dependents(all.take(n), going, name)),
    decreases n,
{
    let p = dependent_at(all, going, name);
    if n == 0 {
        assert(all.take(0) =~= Seq::empty());
        picks::lemma_pick_start(p);
    } else {
        lemma_dependents(all, going, name, n - 1);
        assert(all.take(n).drop_last() =~= all.take(n - 1));
        let before = dependents(all.take(n - 1), going, name);
        let i = all[n - 1];
        if !going.contains(i.name) && lists_dep(i, name) {
            assert(p(n - 1, i.name));
            picks::lemma_pick_one(n - 1, p, before, i.name);
        } else {
            picks::lemma_pick_none(n - 1, p, before);
        }
    }
}

/// Law: the dependents of a formula are all installed formulae that stay and
/// whose receipt lists it, in order.
pub proof fn law_dependents_are_what_receipts_say(
    all: Seq<InstalledV>,
    going: Set<Seq<char>>,
    name: Seq<char>,
)
    ensures
        picks(all.len() as int, dependent_at(all, going, name), dependents(all, going, name)),
        dependents(all, going, name).len() == 0 <==> forall|i: int|
            0 <= i < all.len() && !going.contains((#[trigger] all[i]).name) ==> !lists_dep(all[i], name),
{
    lemma_dependents(all, going, name, all.len() as int);
    assert(all.take(all.len() as int) =~= all);
    let p = dependent_at(all, going, name);
    let r = dependents(all, going, name);
    let at = choose|at: Seq<int>| #[trigger] picks::picked_at(all.len() as int, p, r, at);
    if r.len() > 0 {
        assert(p(at[0], r[0]));
        assert(lists_dep(all[at[0]], name));
    } else {
        assert forall|i: int| 0 <= i < all.len() && !going.contains((#[trigger] all[i]).name) implies !lists_dep(
            all[i],
            name,
        ) by {
            if lists_dep(all[i], name) {
                assert(p(i, all[i].name));
                assert(at.contains(i));
            }
        }
    }
}

/// The removal of the named formula is refused: it is not installed, or
/// something that stays depends on it and nobody insists.
pub open spec fn is_refused(all: Seq<InstalledV>, going: Set<Seq<char>>, name: Seq<char>, force: bool) -> bool {
    ||| forall|k: int| 0 <= k < all.len() ==> (#[trigger] all[k]).name != name
    ||| !force && exists|k: int|
        0 <= k < all.len() && !going.contains((#[trigger] all[k]).name) && lists_dep(all[k], name)
}

/// The warnings about names that are removed though others depend on them.
pub open spec fn warned_at(all: Seq<InstalledV>, going: Set<Seq<char>>, names: Seq<Seq<char>>) -> spec_fn(
    int,
    Seq<char>,
) -> bool {
    |i: int, w: Seq<char>|
        {
            let ds = dependents(all, going, names[i]);
            &&& ds.len() > 0
            &&& w == "\x1b[33m!\x1b[0m removing "@ + names[i] + " even though "@ + joined(ds, ", "@) + if ds.len()
                == 1 {
                " depends"@
            } else {
                " depend"@
            } + " on it — they may break"@
        }
}

/// What is said of the first names.
proof fn lemma_verdict(
    all: Seq<InstalledV>,
    going: Set<Seq<char>>,
    names: Seq<Seq<char>>,
    force: bool,
    n: int,
)
    requires
        0 <= n <= names.len(),
    ensures
        ({
            let v = verdict(all, going, names.take(n), force);
            match v.1 {
                None => (forall|i: int| 0 <= i < n ==> !is_refused(all, going, #[trigger] names[i], force))
                    && said(all, going, names, force, n, v.0),
                Some(e) => exists|i: int|
                    0 <= i < n && is_refused(all, going, #[trigger] names[i], force) && (forall|j: int|
                        0 <= j < i ==> !is_refused(all, going, #[trigger] names[j], force)) && said(
                        all,
                        going,
                        names,
                        force,
                        i,
                        v.0,
                    ) && e == why_refused(all, going, names[i]),
            }
        }),
    decreases n,
{
    let p = warned_at(all, going, names);
    let v = verdict(all, going, names.take(n), force);
    if n == 0 {
        assert(names.take(0) =~= Seq::empty());
        picks::lemma_pick_start(p);
    } else {
        let m = n - 1;
        lemma_verdict(all, going, names, force, m);
        assert(names.take(n).drop_last() =~= names.take(m));
        let b = verdict(all, going, names.take(m), force);
        let name = names[m];
        law_dependents_are_what_receipts_say(all, going, name);
        let ds = dependents(all, going, name);
        if b.1 is None {
            let there = is_installed(all, name);
            if there && ds.len() == 0 {
                assert(!is_refused(all, going, names[m], force));
                if force {
                    picks::lemma_pick_none(m, p, b.0);
                }
            } else if there && force {
                assert(!is_refused(all, going, names[m], force));
                let w = may_break(name, ds);
                assert(p(m, w));
                picks::lemma_pick_one(m, p, b.0, w);
            } else {
                assert(is_refused(all, going, names[m], force));
            }
        } else {
            let i = choose|i: int|
                0 <= i < m && is_refused(all, going, #[trigger] names[i], force) && (forall|j: int|
                    0 <= j < i ==> !is_refused(all, going, #[trigger] names[j], force)) && said(
                    all,
                    going,
                    names,
                    force,
                    i,
                    b.0,
                ) && b.1->0 == why_refused(all, going, names[i]);
            assert(is_refused(all, going, names[i], force));
        }
    }
}

/// `warnings` is what is said of the first `n` names: nothing unless somebody
/// insists.
pub open spec fn said(
    all: Seq<InstalledV>,
    going: Set<Seq<char>>,
    names: Seq<Seq<char>>,
    force: bool,
    n: int,
    warnings: Seq<Seq<char>>,
) -> bool {
    if force {
        picks(n, warned_at(all, going, names), warnings)
    } else {
        warnings.len() == 0
    }
}

/// Why the removal of a formula is refused.
pub open spec fn why_refused(all: Seq<InstalledV>, going: Set<Seq<char>>, name: Seq<char>) -> UninstallErrorV {
    if forall|k: int| 0 <= k < all.len() ==> (#[trigger] all[k]).name != name {
        UninstallErrorV::NotInstalled(name)
    } else {
        UninstallErrorV::Required { name, dependents: dependents(all, going, name) }
    }
}

/// Law: a removal is refused for the first name that is not installed, or that
/// something which stays depends on; in the latter case it goes on, with a
/// warning that names the dependents, where somebody insists.
pub proof fn law_removals_are_refused_for_a_reason(
    all: Seq<InstalledV>,
    going: Set<Seq<char>>,
    names: Seq<Seq<char>>,
    force: bool,
)
    ensures
        ({
            let v = verdict(all, going, names, force);
            match v.1 {
                None => (forall|i: int|
                    0 <= i < names.len() ==> !is_refused(all, going, #[trigger] names[i], force)) && said(
                    all,
                    going,
                    names,
                    force,
                    names.len() as int,
                    v.0,
                ),
                Some(e) => exists|i: int|
                    0 <= i < names.len() && is_refused(all, going, #[trigger] names[i], force) && (forall|j: int|
                        0 <= j < i ==> !is_refused(all, going, #[trigger] names[j], force)) && said(
                        all,
                        going,
                        names,
                        force,
                        i,
                        v.0,
                    ) && e == why_refused(all, going, names[i]),
            }
        }),
{
    lemma_verdict(all, going, names, force, names.len() as int);
    assert(names.take(names.len() as int) =~= names);
}

/// Law: what is told of a refusal names the formula and what depends on it, and
/// how to insist.
pub proof fn law_refusals_are_explained(name: Seq<char>, ds: Seq<Seq<char>>)
    ensures
        UninstallErrorV::NotInstalled(name).message() == name + " is not installed"@,
        (UninstallErrorV::Required { name, dependents: ds }).message() == name + " is required by "@ + joined(
            ds,
            ", "@,
        ) + " (use --force-remove/-f to remove anyway)"@,
{
}

/// Law: nothing that could go is left: an installed formula that stays was asked
/// for, or is pinned, or has no receipt, or something else that stays depends on
/// it.
pub proof fn law_nothing_useless_is_left(all: Seq<InstalledV>, names: Set<Seq<char>>, k: int)
    requires
        0 <= k < all.len(),
        !swept(all, names).contains(all[k].name),
    ensures
        ({
            ||| all[k].receipt is None
            ||| (all[k].receipt->0).requested
            ||| (all[k].receipt->0).protected
            ||| exists|o: int|
                0 <= o < all.len() && (#[trigger] all[o]).name != all[k].name && !swept(all, names).contains(
                    all[o].name,
                ) && lists_dep(all[o], all[k].name)
        }),
{
    lemma_swept_suffices(all, names);
    assert(!orphaned(all, swept(all, names), k));
    if sweepable(all[k]) {
        let o = choose|o: int|
            0 <= o < all.len() && (#[trigger] all[o]).name != all[k].name && !swept(all, names).contains(
                all[o].name,
            ) && depends(all[o], all[k].name);
        assert(lists_dep(all[o], all[k].name));
    }
}

/// Law: what goes along was neither asked for nor pinned, and nothing that stays
/// depends on it.
pub proof fn law_what_goes_along_is_useless(all: Seq<InstalledV>, names: Set<Seq<char>>, n: Seq<char>)
    requires
        swept(all, names).contains(n),
        !names.contains(n),
    ensures
        exists|k: int|
            0 <= k < all.len() && (#[trigger] all[k]).name == n && all[k].receipt is Some && !(
            all[k].receipt->0).requested && !(all[k].receipt->0).protected,
        forall|o: int|
            0 <= o < all.len() && (#[trigger] all[o]).name != n && !swept(all, names).contains(all[o].name)
                ==> !lists_dep(all[o], n),
{
    law_autoremove_spares_what_is_needed(all, names, n);
    let k = choose|k: int| 0 <= k < all.len() && (#[trigger] all[k]).name == n && sweepable(all[k]);
    assert(all[k].name == n);
    assert forall|o: int|
        0 <= o < all.len() && (#[trigger] all[o]).name != n && !swept(all, names).contains(
            all[o].name,
        ) implies !lists_dep(all[o], n) by {
        assert(!depends(all[o], n));
    }
}

/// Law: the named formulae go, and formulae that need each other stay as long as
/// none of them is named.
pub proof fn law_what_is_needed_in_turn_stays(
    all: Seq<InstalledV>,
    names: Set<Seq<char>>,
    ring: Set<Seq<char>>,
)
    requires
        ring.disjoint(names),
        forall|g: Seq<char>| #[trigger]
            ring.contains(g) ==> exists|o: int|
                0 <= o < all.len() && (#[trigger] all[o]).name != g && ring.contains(all[o].name) && lists_dep(
                    all[o],
                    g,
                ),
    ensures
        names.subset_of(swept(all, names)),
        ring.disjoint(swept(all, names)),
{
    lemma_swept_suffices(all, names);
    let rest = ring.complement();
    assert(suffices(all, names, rest)) by {
        assert forall|k: int| !orphaned(all, rest, k) by {
            if orphaned(all, rest, k) {
                let g = all[k].name;
                assert(ring.contains(g));
                let o = choose|o: int|
                    0 <= o < all.len() && (#[trigger] all[o]).name != g && ring.contains(all[o].name) && lists_dep(
                        all[o],
                        g,
                    );
                assert(depends(all[o], g));
            }
        }
    }
    assert forall|g: Seq<char>| ring.contains(g) implies !swept(all, names).contains(g) by {
        if swept(all, names).contains(g) {
            assert(rest.contains(g));
        }
    }
}

/// Law: there is a group for each name, in order, whose root is the installed
/// formula of that name.
pub proof fn law_named_formulae_are_roots(
    all: Seq<InstalledV>,
    auto: Set<Seq<char>>,
    going: Set<Seq<char>>,
    names: Seq<Seq<char>>,
    i: int,
)
    requires
        0 <= i < names.len(),
        is_installed(all, names[i]),
    ensures
        grouped(all, auto, going, names).0.len() == names.len(),
        ({
            let root = grouped(all, auto, going, names).0[i].root;
            0 <= root < all.len() && all[root].name == names[i]
        }),
    decreases names.len(),
{
    lemma_as_many_groups(all, auto, going, names.drop_last());
    if i < names.len() - 1 {
        law_named_formulae_are_roots(all, auto, going, names.drop_last(), i);
    } else {
        text::lemma_last_position(all_names(all), names[i]);
        let k = choose|k: int| 0 <= k < all.len() && (#[trigger] all[k]).name == names[i];
        assert(all_names(all)[k] == names[i]);
        let root = last_position(all_names(all), names[i])->0;
        assert(all_names(all)[root] == all[root].name);
    }
}

proof fn lemma_as_many_groups(
    all: Seq<InstalledV>,
    auto: Set<Seq<char>>,
    going: Set<Seq<char>>,
    names: Seq<Seq<char>>,
)
    ensures
        grouped(all, auto, going, names).0.len() == names.len(),
    decreases names.len(),
{
    if names.len() > 0 {
        lemma_as_many_groups(all, auto, going, names.drop_last());
    }
}

/// Law: a group is shown as its root without a branch and then its dependencies,
/// in order, on branches, the last of which ends; groups follow one another.
pub proof fn law_groups_are_trees(all: Seq<InstalledV>, groups: Seq<Group>, g: Group)
    ensures
        group_rows(all, Seq::empty()) == Seq::<RowV>::empty(),
        ({
            let before = group_rows(all, groups);
            let rows = group_rows(all, groups.push(g));
            let n = before.len() as int;
            &&& rows.len() == n + 1 + g.deps.len()
            &&& rows.take(n) == before
            &&& rows[n] == (RowV { name: all[g.root].name, version: all[g.root].version, branch: ""@ })
            &&& forall|k: int|
                0 <= k < g.deps.len() ==> #[trigger] rows[n + 1 + k] == (RowV {
                    name: all[g.deps[k]].name,
                    version: all[g.deps[k]].version,
                    branch: if k == g.deps.len() - 1 {
                        "└─"@
                    } else {
                        "├─"@
                    },
                })
        }),
{
    assert(groups.push(g).drop_last() =~= groups);
    let before = group_rows(all, groups);
    let rows = group_rows(all, groups.push(g));
    assert(rows.take(before.len() as int) =~= before);
}

/// Law: the rows are as wide as the widest of their labels.
pub proof fn law_rows_share_the_widest_label(rows: Seq<RowV>)
    ensures
        forall|i: int|
            0 <= i < rows.len() ==> label((#[trigger] rows[i]).branch, rows[i].name, rows[i].version).len()
                <= widest_row(rows),
        rows.len() == 0 ==> widest_row(rows) == 0,
        rows.len() > 0 ==> exists|i: int|
            0 <= i < rows.len() && label((#[trigger] rows[i]).branch, rows[i].name, rows[i].version).len()
                == widest_row(rows),
    decreases rows.len(),
{
    if rows.len() > 0 {
        let init = rows.drop_last();
        law_rows_share_the_widest_label(init);
        assert forall|i: int| 0 <= i < rows.len() implies label(
            (#[trigger] rows[i]).branch,
            rows[i].name,
            rows[i].version,
        ).len() <= widest_row(rows) by {
            if i < init.len() {
                assert(init[i] == rows[i]);
            }
        }
        let last = rows[rows.len() - 1];
        if widest_row(init) < label(last.branch, last.name, last.version).len() || init.len() == 0 {
            assert(label(last.branch, last.name, last.version).len() == widest_row(rows));
        } else {
            let i = choose|i: int|
                0 <= i < init.len() && label((#[trigger] init[i]).branch, init[i].name, init[i].version).len()
                    == widest_row(init);
            assert(rows[i] == init[i]);
        }
    }
}

/// Formulae that go, whose names were not taken before.
pub open spec fn stray_at(all: Seq<InstalledV>, removing: Set<Seq<char>>, taken: Set<Seq<char>>) -> spec_fn(
    int,
    Group,
) -> bool {
    |i: int, g: Group|
        {
            &&& removing.contains(all[i].name)
            &&& !taken.contains(all[i].name)
            &&& forall|j: int| 0 <= j < i ==> (#[trigger] all[j]).name != all[i].name
            &&& g.root == i
            &&& g.deps == Seq::<int>::empty()
        }
}

/// The strays among the first formulae.
proof fn lemma_stray_at(all: Seq<InstalledV>, removing: Set<Seq<char>>, taken: Set<Seq<char>>, n: int)
    requires
        0 <= n <= all.len(),
    ensures
        picks(n, stray_at(all, removing, taken), strays(all, removing, taken, n as nat).0),
        forall|x: Seq<char>| #[trigger]
            strays(all, removing, taken, n as nat).1.contains(x) <==> taken.contains(x) || removing.contains(x)
                && exists|j: int| 0 <= j < n && (#[trigger] all[j]).name == x,
    decreases n,
{
    let p = stray_at(all, removing, taken);
    if n == 0 {
        picks::lemma_pick_start(p);
    } else {
        let m = n - 1;
        lemma_stray_at(all, removing, taken, m);
        let (groups, t) = strays(all, removing, taken, m as nat);
        let now = strays(all, removing, taken, n as nat).1;
        let name = all[m].name;
        if removing.contains(name) && !t.contains(name) {
            let g = Group { root: m, deps: Seq::empty() };
            assert(p(m, g)) by {
                assert forall|j: int| 0 <= j < m implies (#[trigger] all[j]).name != all[m].name by {
                    if all[j].name == all[m].name {
                        assert(t.contains(all[m].name));
                    }
                }
            }
            picks::lemma_pick_one(m, p, groups, g);
        } else {
            assert forall|g: Group| !#[trigger] p(m, g) by {
                if p(m, g) {
                    assert(t.contains(name));
                    let j = choose|j: int| 0 <= j < m && (#[trigger] all[j]).name == name;
                    assert(all[j].name != all[m].name);
                }
            }
            picks::lemma_pick_none(m, p, groups);
        }
        assert forall|x: Seq<char>| #[trigger]
            now.contains(x) <==> taken.contains(x) || removing.contains(x) && exists|j: int|
                0 <= j < n && (#[trigger] all[j]).name == x by {
            if now.contains(x) && !taken.contains(x) {
                if x == name {
                    assert(all[m].name == x);
                } else {
                    assert(t.contains(x));
                    let j = choose|j: int| 0 <= j < m && (#[trigger] all[j]).name == x;
                    assert(all[j].name == x);
                }
            }
            if removing.contains(x) && exists|j: int| 0 <= j < n && (#[trigger] all[j]).name == x {
                let j = choose|j: int| 0 <= j < n && (#[trigger] all[j]).name == x;
                if j < m {
                    assert(t.contains(x));
                }
            }
        }
    }
}

/// Law: what goes and is shown below no named formula has a group of its own, in
/// the order in which the formulae are listed, one for each name.
pub proof fn law_the_rest_is_shown_alone(all: Seq<InstalledV>, removing: Set<Seq<char>>, taken: Set<Seq<char>>)
    ensures
        picks(all.len() as int, stray_at(all, removing, taken), strays(all, removing, taken, all.len()).0),
{
    lemma_stray_at(all, removing, taken, all.len() as int);
}

/// Law: what is said of a row, and of a refusal, is what the fields hold.
pub proof fn law_rows_are_read_as_they_are(v: Seq<Row>, i: int, e: UninstallError)
    ensures
        row_views(v).len() == v.len(),
        0 <= i < v.len() ==> row_views(v)[i].name == v[i].name@ && row_views(v)[i].version == v[i].version@
            && row_views(v)[i].branch == v[i].branch@,
        e matches UninstallError::NotInstalled(name) ==> e@ == UninstallErrorV::NotInstalled(name@),
        e matches UninstallError::Required { name, dependents } ==> e@ == (UninstallErrorV::Required {
            name: name@,
            dependents: texts(dependents@),
        }),
{
}

/// Law: a dependency claims the last installed formula of its name, if and only
/// if that is swept away and the name is not taken.
pub proof fn law_dependencies_claim_what_is_swept(
    all: Seq<InstalledV>,
    auto: Set<Seq<char>>,
    taken: Set<Seq<char>>,
    d: Seq<char>,
    j: int,
)
    ensures
        claimed(all, auto, taken, d) == Some(j) <==> 0 <= j < all.len() && all[j].name == d && auto.contains(d)
            && !taken.contains(d) && forall|k: int| j < k < all.len() ==> (#[trigger] all[k]).name != d,
{
    let ns = all_names(all);
    text::lemma_last_position(ns, d);
    assert(forall|k: int| 0 <= k < all.len() ==> #[trigger] ns[k] == all[k].name);
    if 0 <= j < all.len() && all[j].name == d && forall|k: int|
        j < k < all.len() ==> (#[trigger] all[k]).name != d {
        assert(ns[j] == d);
        assert(ns.contains(d));
        let l = last_position(ns, d)->0;
        assert(ns[l] == d);
        assert(all[l].name == d);
        assert(l == j) by {
            if l < j {
                assert(ns[j] != d);
            }
        }
    }
    if claimed(all, auto, taken, d) == Some(j) {
        assert forall|k: int| j < k < all.len() implies (#[trigger] all[k]).name != d by {
            assert(ns[k] != d);
        }
    }
}

/// What is taken was going anyway or is below one of the groups.
proof fn lemma_taken_by_groups(
    all: Seq<InstalledV>,
    auto: Set<Seq<char>>,
    going: Set<Seq<char>>,
    names: Seq<Seq<char>>,
    n: Seq<char>,
)
    requires
        grouped(all, auto, going, names).1.contains(n),
        !going.contains(n),
    ensures
        exists|g: int|
            0 <= g < names.len() && names_at(all, (#[trigger] grouped(all, auto, going, names).0[g]).deps).contains(
                n,
            ),
    decreases names.len(),
{
    if names.len() > 0 {
        let init = names.drop_last();
        lemma_as_many_groups(all, auto, going, init);
        lemma_as_many_groups(all, auto, going, names);
        let groups = grouped(all, auto, going, names).0;
        if grouped(all, auto, going, init).1.contains(n) {
            lemma_taken_by_groups(all, auto, going, init, n);
            let g = choose|g: int|
                0 <= g < init.len() && names_at(
                    all,
                    (#[trigger] grouped(all, auto, going, init).0[g]).deps,
                ).contains(n);
            assert(groups[g] == grouped(all, auto, going, init).0[g]);
        } else {
            assert(names_at(all, groups[names.len() - 1].deps).contains(n));
        }
    }
}

/// Law: what the receipt of a named formula lists and what is swept away is shown
/// below that formula, or below one that was named before it.
pub proof fn law_dependencies_go_with_the_first_root(
    all: Seq<InstalledV>,
    auto: Set<Seq<char>>,
    going: Set<Seq<char>>,
    names: Seq<Seq<char>>,
    k: int,
    root: int,
    d: Seq<char>,
)
    requires
        0 <= k < names.len(),
        0 <= root < all.len(),
        all[root].name == names[k],
        forall|i: int| root < i < all.len() ==> (#[trigger] all[i]).name != names[k],
        all[root].receipt matches Some(r) && r.deps.contains(d),
        auto.contains(d),
        !going.contains(d),
        exists|i: int| 0 <= i < all.len() && (#[trigger] all[i]).name == d,
    ensures
        exists|g: int|
            0 <= g <= k && names_at(all, (#[trigger] grouped(all, auto, going, names).0[g]).deps).contains(d),
    decreases names.len(),
{
    let init = names.drop_last();
    lemma_as_many_groups(all, auto, going, init);
    lemma_as_many_groups(all, auto, going, names);
    let groups = grouped(all, auto, going, names).0;
    let (before, taken) = grouped(all, auto, going, init);
    if k < init.len() {
        law_dependencies_go_with_the_first_root(all, auto, going, init, k, root, d);
        let g = choose|g: int| 0 <= g <= k && names_at(all, (#[trigger] before[g]).deps).contains(d);
        assert(groups[g] == before[g]);
    } else if taken.contains(d) {
        lemma_taken_by_groups(all, auto, going, init, d);
        let g = choose|g: int| 0 <= g < init.len() && names_at(all, (#[trigger] before[g]).deps).contains(d);
        assert(groups[g] == before[g]);
    } else {
        let ns = all_names(all);
        law_dependencies_claim_what_is_swept(all, set![names[k]], Set::empty(), names[k], root);
        assert(last_position(ns, names.last()) == Some(root));
        let ds = deps_at(all, root);
        text::lemma_last_position(ns, d);
        let i = choose|i: int| 0 <= i < all.len() && (#[trigger] all[i]).name == d;
        assert(ns[i] == d);
        assert(ns.contains(d));
        let j = last_position(ns, d)->0;
        assert(ns[j] == all[j].name);
        assert(claimed(all, auto, taken, d) == Some(j));
        assert(ds.contains(d));
        lemma_pulled_at_once(all, auto, taken, ds, j);
        law_all_that_is_pulled_is_collected(all, auto, taken, ds);
        let deps = gathered(all, auto, taken, ds, Set::empty(), Seq::empty());
        assert(deps.contains(j));
        let a = choose|a: int| 0 <= a < deps.len() && deps[a] == j;
        assert(names_at(all, deps)[a] == d);
        assert(groups[k].deps == deps);
    }
}

} // verus!
