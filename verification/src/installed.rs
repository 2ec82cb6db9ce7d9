//! What is installed, read from a listing of the Cellar.

use vstd::prelude::*;

use crate::api::{lookup, Index};
use crate::formula::Formula;
use crate::install::{opt_receipt, Receipt, ReceiptV};
use crate::picks;
use crate::picks::picks;
use crate::text;
use crate::text::{arranged, merged, positions, ranking, texts};

verus! {

broadcast use text::lemma_texts_push;

/// An entry of the directory of a formula: a keg where it is a directory, with
/// the receipt in it where there is one that can be read.
pub struct KegEntry {
    pub name: String,
    pub is_dir: bool,
    pub receipt: Option<Receipt>,
}

/// An entry of the Cellar: a formula where it is a directory.
pub struct CellarEntry {
    pub name: String,
    pub is_dir: bool,
    pub kegs: Vec<KegEntry>,
}

/// An installed formula. Its receipt is what those of all versions say
/// together.
pub struct Installed {
    pub name: String,
    pub version: String,
    pub versions: Vec<String>,
    pub receipt: Option<Receipt>,
}

/// What an `Installed` says.
pub struct InstalledV {
    pub name: Seq<char>,
    pub version: Seq<char>,
    pub versions: Seq<Seq<char>>,
    pub receipt: Option<ReceiptV>,
}

impl View for Installed {
    type V = InstalledV;

    open spec fn view(&self) -> InstalledV {
        InstalledV {
            name: self.name@,
            version: self.version@,
            versions: texts(self.versions@),
            receipt: opt_receipt(self.receipt),
        }
    }
}

/// What a list of installed formulae says.
pub open spec fn installed_views(v: Seq<Installed>) -> Seq<InstalledV> {
    v.map_values(|i: Installed| i@)
}

/// The versions among the entries.
pub open spec fn versions_in(kegs: Seq<KegEntry>) -> Seq<Seq<char>>
    decreases kegs.len(),
{
    if kegs.len() == 0 {
        Seq::empty()
    } else if kegs.last().is_dir {
        versions_in(kegs.drop_last()).push(kegs.last().name@)
    } else {
        versions_in(kegs.drop_last())
    }
}

/// What two receipts of a formula say together: it counts as asked for and as
/// protected where either says so, and it depends on all that either lists.
pub open spec fn together(a: ReceiptV, b: ReceiptV) -> ReceiptV {
    ReceiptV {
        requested: a.requested || b.requested,
        protected: a.protected || b.protected,
        deps: merged(a.deps, b.deps),
    }
}

/// What the receipts of all versions say together; none where there is none.
pub open spec fn shared_receipt(kegs: Seq<KegEntry>) -> Option<ReceiptV>
    decreases kegs.len(),
{
    if kegs.len() == 0 {
        None
    } else {
        let before = shared_receipt(kegs.drop_last());
        match kegs.last().receipt {
            Some(r) if kegs.last().is_dir => match before {
                Some(b) => Some(together(b, r@)),
                None => Some(r@),
            },
            _ => before,
        }
    }
}

/// Law: the receipt of every version counts: what the user asked for in any
/// version is asked for, what a lockfile pins in any version is protected, and
/// what any version depends on is listed.
pub proof fn law_every_receipt_counts(kegs: Seq<KegEntry>, k: int)
    requires
        0 <= k < kegs.len(),
        kegs[k].is_dir,
        kegs[k].receipt is Some,
    ensures
        ({
            let own = (kegs[k].receipt->0)@;
            shared_receipt(kegs) matches Some(r) && (own.requested ==> r.requested) && (own.protected
                ==> r.protected) && forall|d: Seq<char>| #[trigger] own.deps.contains(d) ==> r.deps.contains(d)
        }),
    decreases kegs.len(),
{
    if k < kegs.len() - 1 {
        law_every_receipt_counts(kegs.drop_last(), k);
    }
    if let Some(b) = shared_receipt(kegs.drop_last()) {
        if let Some(r) = kegs.last().receipt {
            text::lemma_merged(b.deps, r@.deps);
        }
    }
}

/// Law: a formula counts as asked for or as protected only where the receipt
/// of some version says so.
pub proof fn law_no_receipt_is_made_up(kegs: Seq<KegEntry>)
    ensures
        shared_receipt(kegs) matches Some(r) ==> {
            &&& r.requested ==> exists|k: int|
                0 <= k < kegs.len() && (#[trigger] kegs[k]).is_dir && (kegs[k].receipt matches Some(x)
                    && x.requested)
            &&& r.protected ==> exists|k: int|
                0 <= k < kegs.len() && (#[trigger] kegs[k]).is_dir && (kegs[k].receipt matches Some(x)
                    && x.protected)
        },
    decreases kegs.len(),
{
    if kegs.len() > 0 {
        let init = kegs.drop_last();
        law_no_receipt_is_made_up(init);
        assert(kegs[kegs.len() - 1] == kegs.last());
        assert(forall|k: int| 0 <= k < init.len() ==> #[trigger] init[k] == kegs[k]);
        if let Some(r) = shared_receipt(init) {
            if r.requested {
                let k = choose|k: int|
                    0 <= k < init.len() && (#[trigger] init[k]).is_dir && (init[k].receipt matches Some(x)
                        && x.requested);
                assert(kegs[k].is_dir);
            }
            if r.protected {
                let k = choose|k: int|
                    0 <= k < init.len() && (#[trigger] init[k]).is_dir && (init[k].receipt matches Some(x)
                        && x.protected);
                assert(kegs[k].is_dir);
            }
        }
    }
}

/// The formula that an entry of the Cellar is.
pub open spec fn installed_as(e: CellarEntry) -> InstalledV {
    let versions = versions_in(e.kegs@);
    InstalledV {
        name: e.name@,
        version: if versions.len() > 0 {
            versions[0]
        } else {
            Seq::empty()
        },
        versions,
        receipt: shared_receipt(e.kegs@),
    }
}

/// The formulae that the entries of the Cellar are.
pub open spec fn scanned(entries: Seq<CellarEntry>) -> Seq<InstalledV>
    decreases entries.len(),
{
    if entries.len() == 0 {
        Seq::empty()
    } else if entries.last().is_dir {
        scanned(entries.drop_last()).push(installed_as(entries.last()))
    } else {
        scanned(entries.drop_last())
    }
}

/// What two receipts of a formula say together.
fn join_receipts(a: Receipt, b: &Receipt) -> (r: Receipt)
    ensures
        r@ == together(a@, b@),
{
    Receipt {
        requested: a.requested || b.requested,
        protected: a.protected || b.protected,
        deps: text::merge(a.deps, &b.deps),
    }
}

/// Reads one entry of the Cellar.
fn scan_entry(e: &CellarEntry) -> (r: Installed)
    ensures
        r@ == installed_as(*e),
{
    let mut versions: Vec<String> = Vec::new();
    let mut receipt: Option<Receipt> = None;
    let ghost ks = e.kegs@;
    assert(texts(versions@) =~= versions_in(ks.take(0)));
    for i in 0..e.kegs.len()
        invariant
            ks == e.kegs@,
            texts(versions@) == versions_in(ks.take(i as int)),
            opt_receipt(receipt) == shared_receipt(ks.take(i as int)),
    {
        let k = &e.kegs[i];
        proof {
            assert(ks.take(i + 1).drop_last() =~= ks.take(i as int));
            assert(ks.take(i + 1).last() == *k);
        }
        if k.is_dir {
            versions.push(k.name.clone());
            if let Some(own) = &k.receipt {
                receipt = Some(
                    match receipt {
                        Some(before) => join_receipts(before, own),
                        None => own.clone(),
                    },
                );
            }
        }
    }
    assert(ks.take(ks.len() as int) =~= ks);
    let version = if versions.len() > 0 {
        assert(texts(versions@)[0] == versions@[0]@);
        versions[0].clone()
    } else {
        String::new()
    };
    Installed { name: e.name.clone(), version, versions, receipt }
}

/// Reads the formulae off the entries of the Cellar.
pub fn scan_installed(entries: &Vec<CellarEntry>) -> (r: Vec<Installed>)
    ensures
        installed_views(r@) == scanned(entries@),
{
    let mut r: Vec<Installed> = Vec::new();
    assert(installed_views(r@) =~= scanned(entries@.take(0)));
    for i in 0..entries.len()
        invariant
            installed_views(r@) == scanned(entries@.take(i as int)),
    {
        let ghost before = r@;
        let e = &entries[i];
        proof {
            assert(entries@.take(i + 1).drop_last() =~= entries@.take(i as int));
            assert(entries@.take(i + 1).last() == *e);
        }
        if e.is_dir {
            let one = scan_entry(e);
            r.push(one);
            assert(installed_views(r@) =~= installed_views(before).push(one@));
        }
    }
    assert(entries@.take(entries@.len() as int) =~= entries@);
    r
}

/// The names of the formulae that the user asked for.
pub open spec fn requested_of(all: Seq<InstalledV>) -> Seq<Seq<char>>
    decreases all.len(),
{
    if all.len() == 0 {
        Seq::empty()
    } else if all.last().receipt matches Some(r) && r.requested {
        requested_of(all.drop_last()).push(all.last().name)
    } else {
        requested_of(all.drop_last())
    }
}

/// Names of formulae that the user explicitly asked for, i.e. the set that a
/// Dramfile dump should contain.
pub fn requested_names(all: &Vec<Installed>) -> (r: Vec<String>)
    ensures
        texts(r@) == requested_of(installed_views(all@)),
{
    let mut r: Vec<String> = Vec::new();
    let ghost vs = installed_views(all@);
    assert(texts(r@) =~= requested_of(vs.take(0)));
    for i in 0..all.len()
        invariant
            vs == installed_views(all@),
            texts(r@) == requested_of(vs.take(i as int)),
    {
        let one = &all[i];
        proof {
            assert(vs.take(i + 1).drop_last() =~= vs.take(i as int));
            assert(vs.take(i + 1).last() == one@);
        }
        let asked = match &one.receipt {
            Some(receipt) => receipt.requested,
            None => false,
        };
        if asked {
            r.push(one.name.clone());
        }
    }
    assert(vs.take(all@.len() as int) =~= vs);
    r
}

/// An installed formula whose latest version in the index is not poured.
pub struct Outdated {
    pub name: String,
    pub installed: Vec<String>,
    pub latest: String,
}

/// What an `Outdated` says.
pub struct OutdatedV {
    pub name: Seq<char>,
    pub installed: Seq<Seq<char>>,
    pub latest: Seq<char>,
}

impl View for Outdated {
    type V = OutdatedV;

    open spec fn view(&self) -> OutdatedV {
        OutdatedV {
            name: self.name@,
            installed: texts(self.installed@),
            latest: self.latest@,
        }
    }
}

/// What a list of outdated formulae says.
pub open spec fn outdated_views(v: Seq<Outdated>) -> Seq<OutdatedV> {
    v.map_values(|o: Outdated| o@)
}

/// What is outdated about an installed formula: the index has a version that
/// is not poured.
pub open spec fn behind(fs: Seq<Formula>, i: InstalledV) -> Option<OutdatedV> {
    match lookup(fs, i.name) {
        Some(k) => if i.versions.contains(fs[k].keg_dir()) {
            None
        } else {
            Some(OutdatedV { name: i.name, installed: i.versions, latest: fs[k].keg_dir() })
        },
        None => None,
    }
}

/// What is outdated of the installed formulae, in their order.
pub open spec fn behind_all(fs: Seq<Formula>, all: Seq<InstalledV>) -> Seq<OutdatedV>
    decreases all.len(),
{
    if all.len() == 0 {
        Seq::empty()
    } else {
        match behind(fs, all.last()) {
            Some(o) => behind_all(fs, all.drop_last()).push(o),
            None => behind_all(fs, all.drop_last()),
        }
    }
}

/// The names of outdated formulae.
pub open spec fn outdated_names(v: Seq<OutdatedV>) -> Seq<Seq<char>> {
    v.map_values(|o: OutdatedV| o.name)
}

/// A copy that says the same.
pub fn copy_outdated(o: &Outdated) -> (r: Outdated)
    ensures
        r@ == o@,
{
    Outdated {
        name: o.name.clone(),
        installed: text::copy_all(&o.installed),
        latest: o.latest.clone(),
    }
}

/// Installed formulae whose latest index version is not poured yet, by name.
pub fn outdated_list(all: &Vec<Installed>, index: &Index) -> (r: Vec<Outdated>)
    ensures
        ({
            let found = behind_all(index@, installed_views(all@));
            exists|p: Seq<int>| #[trigger]
                ranking(outdated_names(found), p) && outdated_views(r@) == arranged(found, p)
        }),
{
    let mut found: Vec<Outdated> = Vec::new();
    let mut names: Vec<String> = Vec::new();
    let ghost vs = installed_views(all@);
    assert(outdated_views(found@) =~= behind_all(index@, vs.take(0)));
    assert(texts(names@) =~= outdated_names(outdated_views(found@)));
    for i in 0..all.len()
        invariant
            vs == installed_views(all@),
            outdated_views(found@) == behind_all(index@, vs.take(i as int)),
            texts(names@) == outdated_names(outdated_views(found@)),
    {
        let one = &all[i];
        let ghost before = found@;
        let ghost names0 = names@;
        proof {
            assert(vs.take(i + 1).drop_last() =~= vs.take(i as int));
            assert(vs.take(i + 1).last() == one@);
        }
        if let Some(f) = index.get(one.name.as_str()) {
            let latest = f.keg_version();
            assert(texts(one.versions@).to_set().contains(latest@) == texts(one.versions@).contains(latest@));
            if !text::among(latest.as_str(), &one.versions) {
                let o = Outdated {
                    name: one.name.clone(),
                    installed: text::copy_all(&one.versions),
                    latest,
                };
                found.push(o);
                names.push(one.name.clone());
                proof {
                    assert(outdated_views(found@) =~= outdated_views(before).push(o@));
                    assert(outdated_names(outdated_views(found@)) =~= outdated_names(
                        outdated_views(before),
                    ).push(one.name@));
                }
            }
        }
    }
    assert(vs.take(all@.len() as int) =~= vs);
    let order = text::rank(&names);
    let ghost p = positions(order@);
    let mut r: Vec<Outdated> = Vec::new();
    for i in 0..order.len()
        invariant
            p == positions(order@),
            p.len() == found@.len(),
            forall|k: int| 0 <= k < p.len() ==> 0 <= #[trigger] p[k] < found@.len(),
            r@.len() == i,
            forall|k: int| 0 <= k < i ==> (#[trigger] r@[k])@ == found@[p[k]]@,
    {
        assert(p[i as int] == order@[i as int]);
        r.push(copy_outdated(&found[order[i]]));
    }
    assert(outdated_views(r@) =~= arranged(outdated_views(found@), p));
    r
}

/// The version that the index has of a formula: its stable version, followed by
/// an underscore and the revision where that is above zero.
pub open spec fn current_version(f: Formula, v: Seq<char>) -> bool {
    let stable = match f.versions.stable {
        Some(s) => s@,
        None => "unknown"@,
    };
    if f.revision == 0 {
        v == stable
    } else {
        v == stable + "_"@ + text::decimal(f.revision as nat)
    }
}

/// `o` tells of the formula `i` that it is installed in versions other than the
/// one that the index has.
pub open spec fn tells_outdated(fs: Seq<Formula>, i: InstalledV, o: OutdatedV) -> bool {
    &&& o.name == i.name
    &&& o.installed == i.versions
    &&& !i.versions.contains(o.latest)
    &&& lookup(fs, i.name) matches Some(k) && current_version(fs[k], o.latest)
}

/// The installed formulae that are outdated.
pub open spec fn outdated_at(fs: Seq<Formula>, all: Seq<InstalledV>) -> spec_fn(int, OutdatedV) -> bool {
    |i: int, o: OutdatedV| tells_outdated(fs, all[i], o)
}

/// What is outdated of the first formulae.
proof fn lemma_behind(fs: Seq<Formula>, all: Seq<InstalledV>, n: int)
    requires
        0 <= n <= all.len(),
    ensures
        picks(n, outdated_at(fs, all), behind_all(fs, all.take(n))),
    decreases n,
{
    let p = outdated_at(fs, all);
    if n == 0 {
        assert(all.take(0) =~= Seq::empty());
        picks::lemma_pick_start(p);
    } else {
        lemma_behind(fs, all, n - 1);
        assert(all.take(n).drop_last() =~= all.take(n - 1));
        let i = all[n - 1];
        let before = behind_all(fs, all.take(n - 1));
        match behind(fs, i) {
            Some(o) => {
                assert(p(n - 1, o));
                picks::lemma_pick_one(n - 1, p, before, o);
            },
            None => {
                assert forall|o: OutdatedV| !#[trigger] p(n - 1, o) by {
                    if p(n - 1, o) {
                        assert(fs[lookup(fs, i.name)->0].keg_dir() == o.latest);
                    }
                }
                picks::lemma_pick_none(n - 1, p, before);
            },
        }
    }
}

/// Law: an installed formula is reported as outdated if and only if its name
/// stands for a formula of the index and the version that the index has of that
/// is none of the installed ones. The report is in the order of the names.
pub proof fn law_outdated_is_what_lacks_the_current_version(
    fs: Seq<Formula>,
    all: Seq<InstalledV>,
    p: Seq<int>,
    r: Seq<OutdatedV>,
)
    requires
        ranking(outdated_names(behind_all(fs, all)), p),
        r == arranged(behind_all(fs, all), p),
    ensures
        forall|i: int, o: OutdatedV|
            0 <= i < all.len() && #[trigger] tells_outdated(fs, all[i], o) ==> r.contains(o),
        forall|q: int|
            0 <= q < r.len() ==> exists|i: int|
                0 <= i < all.len() && tells_outdated(fs, #[trigger] all[i], #[trigger] r[q]),
        picks(all.len() as int, outdated_at(fs, all), behind_all(fs, all)),
        r.len() == behind_all(fs, all).len(),
        forall|a: int, b: int|
            0 <= a < b < r.len() ==> text::lex_le((#[trigger] r[a]).name, (#[trigger] r[b]).name),
{
    let found = behind_all(fs, all);
    let c = outdated_at(fs, all);
    lemma_behind(fs, all, all.len() as int);
    assert(all.take(all.len() as int) =~= all);
    text::law_one_ranking(outdated_names(found), p, p);
    let at = choose|at: Seq<int>| #[trigger] picks::picked_at(all.len() as int, c, found, at);
    assert forall|i: int, o: OutdatedV|
        0 <= i < all.len() && #[trigger] tells_outdated(fs, all[i], o) implies r.contains(o) by {
        assert(c(i, o));
        let q = choose|q: int| 0 <= q < at.len() && at[q] == i;
        assert(c(at[q], found[q]));
        assert(found[q] == o);
        assert(p.contains(q));
        let w = choose|w: int| 0 <= w < p.len() && p[w] == q;
        assert(r[w] == o);
    }
    assert forall|q: int| 0 <= q < r.len() implies exists|i: int|
        0 <= i < all.len() && tells_outdated(fs, #[trigger] all[i], #[trigger] r[q]) by {
        let i = at[p[q]];
        assert(c(i, found[p[q]]));
        assert(tells_outdated(fs, all[i], r[q]));
    }
    assert forall|a: int, b: int| 0 <= a < b < r.len() implies text::lex_le(
        (#[trigger] r[a]).name,
        (#[trigger] r[b]).name,
    ) by {
        assert(text::precedes(outdated_names(found), p[a], p[b]));
    }
}

/// The kegs among the entries of the directory of a formula.
pub open spec fn keg_at(kegs: Seq<KegEntry>) -> spec_fn(int, Seq<char>) -> bool {
    |i: int, v: Seq<char>| kegs[i].is_dir && v == kegs[i].name@
}

/// The versions among the first entries.
proof fn lemma_versions_in(kegs: Seq<KegEntry>, n: int)
    requires
        0 <= n <= kegs.len(),
    ensures
        picks(n, keg_at(kegs), versions_in(kegs.take(n))),
    decreases n,
{
    let p = keg_at(kegs);
    if n == 0 {
        assert(kegs.take(0) =~= Seq::empty());
        picks::lemma_pick_start(p);
    } else {
        lemma_versions_in(kegs, n - 1);
        assert(kegs.take(n).drop_last() =~= kegs.take(n - 1));
        let before = versions_in(kegs.take(n - 1));
        if kegs[n - 1].is_dir {
            assert(p(n - 1, kegs[n - 1].name@));
            picks::lemma_pick_one(n - 1, p, before, kegs[n - 1].name@);
        } else {
            picks::lemma_pick_none(n - 1, p, before);
        }
    }
}

/// `i` is the formula that the entry `e` of the Cellar is: its versions are the
/// directories in it, the version that is shown is the first of them, and its
/// receipt joins theirs.
pub open spec fn read_from(e: CellarEntry, i: InstalledV) -> bool {
    &&& e.is_dir
    &&& i.name == e.name@
    &&& picks(e.kegs@.len() as int, keg_at(e.kegs@), i.versions)
    &&& i.versions.len() > 0 ==> i.version == i.versions[0]
    &&& i.versions.len() == 0 ==> i.version == Seq::<char>::empty()
    &&& i.receipt == shared_receipt(e.kegs@)
}

/// The formulae among the entries of the Cellar.
pub open spec fn formula_at(entries: Seq<CellarEntry>) -> spec_fn(int, InstalledV) -> bool {
    |k: int, i: InstalledV| read_from(entries[k], i)
}

/// The formulae among the first entries.
proof fn lemma_scanned(entries: Seq<CellarEntry>, n: int)
    requires
        0 <= n <= entries.len(),
    ensures
        picks(n, formula_at(entries), scanned(entries.take(n))),
    decreases n,
{
    let p = formula_at(entries);
    if n == 0 {
        assert(entries.take(0) =~= Seq::empty());
        picks::lemma_pick_start(p);
    } else {
        lemma_scanned(entries, n - 1);
        assert(entries.take(n).drop_last() =~= entries.take(n - 1));
        let before = scanned(entries.take(n - 1));
        let e = entries[n - 1];
        if e.is_dir {
            lemma_versions_in(e.kegs@, e.kegs@.len() as int);
            assert(e.kegs@.take(e.kegs@.len() as int) =~= e.kegs@);
            assert(p(n - 1, installed_as(e)));
            picks::lemma_pick_one(n - 1, p, before, installed_as(e));
        } else {
            picks::lemma_pick_none(n - 1, p, before);
        }
    }
}

/// Law: every directory of the Cellar is an installed formula, in order, with
/// the directories in it as its versions, and nothing else is.
pub proof fn law_every_keg_is_seen(entries: Seq<CellarEntry>)
    ensures
        picks(entries.len() as int, formula_at(entries), scanned(entries)),
{
    lemma_scanned(entries, entries.len() as int);
    assert(entries.take(entries.len() as int) =~= entries);
}

/// The formulae whose receipt says that the user asked for them.
pub open spec fn asked_at(all: Seq<InstalledV>) -> spec_fn(int, Seq<char>) -> bool {
    |i: int, n: Seq<char>| all[i].receipt is Some && (all[i].receipt->0).requested && n == all[i].name
}

/// The requested ones of the first formulae.
proof fn lemma_requested(all: Seq<InstalledV>, n: int)
    requires
        0 <= n <= all.len(),
    ensures
        picks(n, asked_at(all), requested_of(all.take(n))),
    decreases n,
{
    let p = asked_at(all);
    if n == 0 {
        assert(all.take(0) =~= Seq::empty());
        picks::lemma_pick_start(p);
    } else {
        lemma_requested(all, n - 1);
        assert(all.take(n).drop_last() =~= all.take(n - 1));
        let before = requested_of(all.take(n - 1));
        if all[n - 1].receipt is Some && (all[n - 1].receipt->0).requested {
            assert(p(n - 1, all[n - 1].name));
            picks::lemma_pick_one(n - 1, p, before, all[n - 1].name);
        } else {
            picks::lemma_pick_none(n - 1, p, before);
        }
    }
}

/// Law: the requested names are those of the formulae whose receipt says that
/// the user asked for them, in order.
pub proof fn law_requested_is_what_receipts_say(all: Seq<InstalledV>)
    ensures
        picks(all.len() as int, asked_at(all), requested_of(all)),
{
    lemma_requested(all, all.len() as int);
    assert(all.take(all.len() as int) =~= all);
}

/// Law: a formula has a receipt if and only if some version of it has one, and
/// depends on nothing that the receipt of no version lists.
pub proof fn law_no_dependency_is_made_up(kegs: Seq<KegEntry>)
    ensures
        shared_receipt(kegs) is Some <==> exists|k: int|
            0 <= k < kegs.len() && (#[trigger] kegs[k]).is_dir && kegs[k].receipt is Some,
        shared_receipt(kegs) matches Some(r) ==> forall|d: Seq<char>| #[trigger]
            r.deps.contains(d) ==> exists|k: int|
                0 <= k < kegs.len() && (#[trigger] kegs[k]).is_dir && kegs[k].receipt is Some && texts(
                    (kegs[k].receipt->0).deps@,
                ).contains(d),
    decreases kegs.len(),
{
    if kegs.len() > 0 {
        let init = kegs.drop_last();
        let last = kegs[kegs.len() - 1];
        law_no_dependency_is_made_up(init);
        assert(forall|k: int| 0 <= k < init.len() ==> #[trigger] init[k] == kegs[k]);
        if shared_receipt(init) is Some {
            let k = choose|k: int|
                0 <= k < init.len() && (#[trigger] init[k]).is_dir && init[k].receipt is Some;
            assert(kegs[k].is_dir);
        }
        if last.is_dir && last.receipt is Some {
            assert(kegs[kegs.len() - 1].is_dir);
        }
        if exists|k: int| 0 <= k < kegs.len() && (#[trigger] kegs[k]).is_dir && kegs[k].receipt is Some {
            let k = choose|k: int|
                0 <= k < kegs.len() && (#[trigger] kegs[k]).is_dir && kegs[k].receipt is Some;
            if k < init.len() {
                assert(init[k].is_dir);
            }
        }
        if let Some(r) = shared_receipt(kegs) {
            if let Some(b) = shared_receipt(init) {
                if let Some(own) = last.receipt {
                    text::lemma_merged(b.deps, own@.deps);
                }
            }
            assert forall|d: Seq<char>| #[trigger] r.deps.contains(d) implies exists|k: int|
                0 <= k < kegs.len() && (#[trigger] kegs[k]).is_dir && kegs[k].receipt is Some && texts(
                    (kegs[k].receipt->0).deps@,
                ).contains(d) by {
                if last.is_dir && last.receipt is Some && texts((last.receipt->0).deps@).contains(d) {
                    assert(kegs[kegs.len() - 1].is_dir);
                } else {
                    let b = shared_receipt(init)->0;
                    assert(b.deps.contains(d));
                    let k = choose|k: int|
                        0 <= k < init.len() && (#[trigger] init[k]).is_dir && init[k].receipt is Some && texts(
                            (init[k].receipt->0).deps@,
                        ).contains(d);
                    assert(kegs[k].is_dir);
                }
            }
        }
    }
}

/// Law: what is said of what is installed, and of what is outdated, is what the
/// fields hold.
pub proof fn law_lists_are_read_as_they_are(v: Seq<Installed>, o: Seq<Outdated>, i: int)
    ensures
        installed_views(v).len() == v.len(),
        0 <= i < v.len() ==> installed_views(v)[i].name == v[i].name@ && installed_views(v)[i].version
            == v[i].version@ && installed_views(v)[i].versions == texts(v[i].versions@)
            && installed_views(v)[i].receipt == opt_receipt(v[i].receipt),
        outdated_views(o).len() == o.len(),
        0 <= i < o.len() ==> outdated_views(o)[i].name == o[i].name@ && outdated_views(o)[i].installed
            == texts(o[i].installed@) && outdated_views(o)[i].latest == o[i].latest@,
{
}

} // verus!
