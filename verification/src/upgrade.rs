//! Which installed formulae are upgraded, and what becomes of their old kegs.
//!
//! New versions pour alongside the old; an old keg is deleted only when
//! nothing else could still pin it. Relocation pins exact versions, so
//! dependents reference the exact old path until they are poured again
//! themselves. What was asked for and what is protected stays so.

use vstd::prelude::*;

use crate::api::{lookup, Index};
use crate::bottle;
use crate::bottle::{choice, refused, Arch, PickError};
use crate::ctx::Ctx;
use crate::formula::Formula;
use crate::install::{
    missing, planned, pouring_of, todo, InstallItem, ItemV, PourSpec, Receipt, ReceiptV,
};
use crate::installed::{
    copy_outdated, installed_views, outdated_views, Installed, InstalledV, Outdated, OutdatedV,
};
use crate::picks;
use crate::picks::picks;
use crate::text;
use crate::text::{joined, texts};
use crate::ui;
use crate::ui::{dimmed, summary_line};

verus! {

broadcast use text::lemma_texts_push;

/// The first outdated formula of the given name.
pub open spec fn first_outdated(all: Seq<OutdatedV>, name: Seq<char>) -> Option<OutdatedV>
    decreases all.len(),
{
    if all.len() == 0 {
        None
    } else if all[0].name == name {
        Some(all[0])
    } else {
        first_outdated(all.skip(1), name)
    }
}

/// What is upgraded of the named formulae.
pub open spec fn chosen(all: Seq<OutdatedV>, names: Seq<Seq<char>>) -> Seq<OutdatedV>
    decreases names.len(),
{
    if names.len() == 0 {
        Seq::empty()
    } else {
        match first_outdated(all, names.last()) {
            Some(o) => chosen(all, names.drop_last()).push(o),
            None => chosen(all, names.drop_last()),
        }
    }
}

/// What the user is told of the named formulae that are not upgraded.
pub open spec fn passed_over(all: Seq<OutdatedV>, names: Seq<Seq<char>>) -> Seq<Seq<char>>
    decreases names.len(),
{
    if names.len() == 0 {
        Seq::empty()
    } else {
        match first_outdated(all, names.last()) {
            Some(_) => passed_over(all, names.drop_last()),
            None => passed_over(all, names.drop_last()).push(
                dimmed("  · "@ + names.last() + ": already up to date (or not installed)"@),
            ),
        }
    }
}

/// What is upgraded: the named formulae, or everything outdated where none is
/// named.
pub open spec fn targets_of(all: Seq<OutdatedV>, names: Seq<Seq<char>>) -> Seq<OutdatedV> {
    if names.len() == 0 {
        all
    } else {
        chosen(all, names)
    }
}

/// The first outdated formula of the given name.
fn find_outdated<'a>(all: &'a Vec<Outdated>, name: &str) -> (r: Option<&'a Outdated>)
    ensures
        match first_outdated(outdated_views(all@), name@) {
            Some(o) => r matches Some(x) && x@ == o,
            None => r is None,
        },
{
    let ghost vs = outdated_views(all@);
    assert(vs.skip(0) =~= vs);
    for i in 0..all.len()
        invariant
            vs == outdated_views(all@),
            first_outdated(vs.skip(i as int), name@) == first_outdated(vs, name@),
    {
        assert(vs.skip(i as int)[0] == all@[i as int]@);
        if text::same(all[i].name.as_str(), name) {
            return Some(&all[i]);
        }
        assert(vs.skip(i as int).skip(1) =~= vs.skip(i + 1));
    }
    None
}

/// What is upgraded, and what the user is told of the named formulae that are
/// not.
pub fn upgrade_targets(all: &Vec<Outdated>, names: &Vec<String>) -> (r: (Vec<Outdated>, Vec<String>))
    ensures
        outdated_views(r.0@) == targets_of(outdated_views(all@), texts(names@)),
        texts(r.1@) == passed_over(outdated_views(all@), texts(names@)),
{
    let ghost vs = outdated_views(all@);
    let ghost ns = texts(names@);
    let mut targets: Vec<Outdated> = Vec::new();
    let mut notes: Vec<String> = Vec::new();
    assert(outdated_views(targets@) =~= Seq::empty());
    assert(texts(notes@) =~= Seq::empty());
    if names.len() == 0 {
        for i in 0..all.len()
            invariant
                targets@.len() == i,
                forall|k: int| 0 <= k < i ==> (#[trigger] targets@[k])@ == all@[k]@,
        {
            targets.push(copy_outdated(&all[i]));
        }
        assert(outdated_views(targets@) =~= vs);
        return (targets, notes);
    }
    assert(ns.take(0) =~= Seq::empty());
    for i in 0..names.len()
        invariant
            vs == outdated_views(all@),
            ns == texts(names@),
            outdated_views(targets@) == chosen(vs, ns.take(i as int)),
            texts(notes@) == passed_over(vs, ns.take(i as int)),
    {
        let name = names[i].as_str();
        let ghost before = targets@;
        proof {
            assert(ns.take(i + 1).drop_last() =~= ns.take(i as int));
            assert(ns.take(i + 1).last() == name@);
        }
        match find_outdated(all, name) {
            Some(o) => {
                let copy = copy_outdated(o);
                targets.push(copy);
                assert(outdated_views(targets@) =~= outdated_views(before).push(copy@));
            },
            None => {
                let note = "  · ".to_string().concat(name).concat(
                    ": already up to date (or not installed)",
                );
                notes.push(ui::dim(note.as_str()));
            },
        }
    }
    assert(ns.take(names@.len() as int) =~= ns);
    (targets, notes)
}

/// The names of what is upgraded.
pub fn target_names(targets: &Vec<Outdated>) -> (r: Vec<String>)
    ensures
        texts(r@) == outdated_views(targets@).map_values(|o: OutdatedV| o.name),
{
    let mut r: Vec<String> = Vec::new();
    for i in 0..targets.len()
        invariant
            r@.len() == i,
            forall|k: int| 0 <= k < i ==> (#[trigger] r@[k])@ == targets@[k].name@,
    {
        r.push(targets[i].name.clone());
    }
    assert(texts(r@) =~= outdated_views(targets@).map_values(|o: OutdatedV| o.name));
    r
}

/// The receipt of the last installed formula of the given name that has one.
pub open spec fn receipt_of(all: Seq<InstalledV>, name: Seq<char>) -> Option<ReceiptV>
    decreases all.len(),
{
    if all.len() == 0 {
        None
    } else if all.last().name == name && all.last().receipt is Some {
        all.last().receipt
    } else {
        receipt_of(all.drop_last(), name)
    }
}

/// The user asked for the installed formula of the given name.
pub open spec fn asked_for(all: Seq<InstalledV>, name: Seq<char>) -> bool {
    receipt_of(all, name) matches Some(r) && r.requested
}

/// A lockfile pins the installed formula of the given name.
pub open spec fn is_protected(all: Seq<InstalledV>, name: Seq<char>) -> bool {
    receipt_of(all, name) matches Some(r) && r.protected
}

/// Some receipt lists `name` as a dependency, so that its keg may be pinned.
pub open spec fn is_pinned(all: Seq<InstalledV>, name: Seq<char>) -> bool {
    exists|k: int|
        0 <= k < all.len() && (receipt_of(all, (#[trigger] all[k]).name) matches Some(r)
            && r.deps.contains(name))
}

/// The receipt of the last installed formula of the given name that has one.
fn find_receipt<'a>(all: &'a Vec<Installed>, name: &str) -> (r: Option<&'a Receipt>)
    ensures
        match receipt_of(installed_views(all@), name@) {
            Some(v) => r matches Some(x) && x@ == v,
            None => r is None,
        },
{
    let ghost vs = installed_views(all@);
    let mut n: usize = all.len();
    assert(vs.take(n as int) =~= vs);
    while n > 0
        invariant
            vs == installed_views(all@),
            n <= all@.len(),
            receipt_of(vs.take(n as int), name@) == receipt_of(vs, name@),
        decreases n,
    {
        proof {
            assert(vs.take(n as int).last() == all@[n - 1]@);
            assert(vs.take(n as int).drop_last() =~= vs.take(n - 1));
        }
        n = n - 1;
        let one = &all[n];
        if text::same(one.name.as_str(), name) {
            if let Some(receipt) = &one.receipt {
                return Some(receipt);
            }
        }
    }
    None
}

/// Whether some receipt lists `name` as a dependency.
fn find_pin(all: &Vec<Installed>, name: &str) -> (r: bool)
    ensures
        r == is_pinned(installed_views(all@), name@),
{
    let ghost vs = installed_views(all@);
    for k in 0..all.len()
        invariant
            vs == installed_views(all@),
            forall|q: int|
                0 <= q < k ==> !(receipt_of(vs, (#[trigger] vs[q]).name) matches Some(r) && r.deps.contains(
                    name@,
                )),
    {
        assert(vs[k as int] == all@[k as int]@);
        if let Some(receipt) = find_receipt(all, all[k].name.as_str()) {
            assert(texts(receipt.deps@).to_set().contains(name@) == texts(receipt.deps@).contains(name@));
            if text::among(name, &receipt.deps) {
                return true;
            }
        }
    }
    false
}

/// How one formula is upgraded: as much asked for as before.
pub open spec fn upgraded(arch: Arch, all: Seq<InstalledV>, f: Formula) -> ItemV {
    ItemV {
        spec: pouring_of(f, asked_for(all, f.name@)),
        file: (choice(arch, f)->0).1,
        via: None,
    }
}

/// How the formulae of a plan that are not there are poured for an upgrade.
/// The first formula without a bottle is an error.
pub fn upgrade(
    arch: Arch,
    ctx: &Ctx,
    all: &Vec<Installed>,
    plan: &Vec<&Formula>,
    existing: &Vec<String>,
) -> (r: Result<Vec<InstallItem>, PickError>)
    ensures
        ({
            let work = missing(*ctx, planned(plan@), texts(existing@).to_set());
            match r {
                Ok(items) => items@.len() == work.len() && forall|i: int|
                    0 <= i < work.len() ==> choice(arch, #[trigger] work[i]) is Some && items@[i]@
                        == upgraded(arch, installed_views(all@), work[i]),
                Err(e) => exists|i: int|
                    0 <= i < work.len() && refused(arch, work[i], e) && forall|j: int|
                        0 <= j < i ==> choice(arch, #[trigger] work[j]) is Some,
            }
        }),
{
    let work = todo(ctx, plan, existing);
    let ghost fs = planned(work@);
    let mut items: Vec<InstallItem> = Vec::new();
    for i in 0..work.len()
        invariant
            fs == planned(work@),
            fs == missing(*ctx, planned(plan@), texts(existing@).to_set()),
            items@.len() == i,
            forall|k: int|
                0 <= k < i ==> choice(arch, #[trigger] fs[k]) is Some && items@[k]@ == upgraded(
                    arch,
                    installed_views(all@),
                    fs[k],
                ),
    {
        let f = work[i];
        assert(fs[i as int] == *f);
        match bottle::pick(arch, f) {
            Ok(picked) => {
                let requested = match find_receipt(all, f.name.as_str()) {
                    Some(receipt) => receipt.requested,
                    None => false,
                };
                items.push(
                    InstallItem {
                        spec: PourSpec::from_formula(f, requested),
                        file: picked.file.clone(),
                        via: None,
                    },
                );
            },
            Err(e) => {
                assert(refused(arch, fs[i as int], e));
                return Err(e);
            },
        }
    }
    Ok(items)
}

/// What becomes of an upgraded formula: the dependencies to protect its new
/// keg with where the old one was protected, what the user is told of old kegs
/// that stay, and the versions that are deleted.
pub struct Cleanup {
    pub protect: Option<Vec<String>>,
    pub kept: Vec<String>,
    pub removed: Vec<String>,
}

/// The versions other than the latest.
pub open spec fn old_versions(versions: Seq<Seq<char>>, latest: Seq<char>) -> Seq<Seq<char>>
    decreases versions.len(),
{
    if versions.len() == 0 {
        Seq::empty()
    } else if versions.last() == latest {
        old_versions(versions.drop_last(), latest)
    } else {
        old_versions(versions.drop_last(), latest).push(versions.last())
    }
}

/// What the user is told of an old keg that stays.
pub open spec fn kept_note(name: Seq<char>, version: Seq<char>) -> Seq<char> {
    dimmed("  · kept "@ + name + " "@ + version + " (other kegs still pin it)"@)
}

/// The versions that are deleted after an upgrade: the old ones, unless the
/// formula may be pinned.
pub open spec fn deleted(all: Seq<InstalledV>, t: OutdatedV) -> Seq<Seq<char>> {
    if is_pinned(all, t.name) {
        Seq::empty()
    } else {
        old_versions(t.installed, t.latest)
    }
}

/// The dependencies of the formula that `name` stands for.
pub open spec fn index_deps(fs: Seq<Formula>, name: Seq<char>) -> Seq<Seq<char>> {
    match lookup(fs, name) {
        Some(k) => texts(fs[k].dependencies@),
        None => Seq::empty(),
    }
}

/// What becomes of an upgraded formula, given the installed formulae before
/// the upgrade. Anything that appears as a dependency in some receipt may be
/// pinned at its old version by that dependent.
pub fn upgrade_cleanup(index: &Index, all: &Vec<Installed>, t: &Outdated) -> (r: Cleanup)
    ensures
        match r.protect {
            Some(deps) => is_protected(installed_views(all@), t.name@) && texts(deps@) == index_deps(
                index@,
                t.name@,
            ),
            None => !is_protected(installed_views(all@), t.name@),
        },
        texts(r.removed@) == deleted(installed_views(all@), t@),
        texts(r.kept@) == if is_pinned(installed_views(all@), t.name@) {
            old_versions(t@.installed, t@.latest).map_values(|v: Seq<char>| kept_note(t.name@, v))
        } else {
            Seq::empty()
        },
{
    let protected = match find_receipt(all, t.name.as_str()) {
        Some(receipt) => receipt.protected,
        None => false,
    };
    let protect = if protected {
        match index.get(t.name.as_str()) {
            Some(f) => Some(text::copy_all(&f.dependencies)),
            None => {
                let none: Vec<String> = Vec::new();
                assert(texts(none@) =~= Seq::empty());
                Some(none)
            },
        }
    } else {
        None
    };
    let pinned = find_pin(all, t.name.as_str());
    let mut kept: Vec<String> = Vec::new();
    let mut removed: Vec<String> = Vec::new();
    let ghost vs = texts(t.installed@);
    let ghost note = |v: Seq<char>| kept_note(t.name@, v);
    assert(texts(removed@) =~= Seq::empty());
    assert(texts(kept@) =~= Seq::empty());
    assert(old_versions(vs.take(0), t.latest@).map_values(note) =~= Seq::empty());
    for i in 0..t.installed.len()
        invariant
            vs == texts(t.installed@),
            note == (|v: Seq<char>| kept_note(t.name@, v)),
            texts(removed@) == if pinned {
                Seq::empty()
            } else {
                old_versions(vs.take(i as int), t.latest@)
            },
            texts(kept@) == if pinned {
                old_versions(vs.take(i as int), t.latest@).map_values(note)
            } else {
                Seq::empty()
            },
    {
        let v = t.installed[i].as_str();
        let ghost before = old_versions(vs.take(i as int), t.latest@);
        proof {
            assert(vs.take(i + 1).drop_last() =~= vs.take(i as int));
            assert(vs.take(i + 1).last() == v@);
            assert(before.push(v@).map_values(note) =~= before.map_values(note).push(note(v@)));
        }
        if !text::same(v, t.latest.as_str()) {
            if pinned {
                let line = "  · kept ".to_string().concat(t.name.as_str()).concat(" ").concat(v).concat(
                    " (other kegs still pin it)",
                );
                kept.push(ui::dim(line.as_str()));
            } else {
                removed.push(v.to_string());
            }
        }
    }
    assert(vs.take(t.installed@.len() as int) =~= vs);
    Cleanup { protect, kept, removed }
}

/// Law: an upgrade deletes no keg that another keg may pin, never the latest
/// version, and only versions that were installed.
pub proof fn law_upgrades_keep_what_is_pinned(all: Seq<InstalledV>, t: OutdatedV, v: Seq<char>)
    requires
        deleted(all, t).contains(v),
    ensures
        v != t.latest,
        t.installed.contains(v),
        forall|k: int|
            0 <= k < all.len() ==> !(receipt_of(all, (#[trigger] all[k]).name) matches Some(r)
                && r.deps.contains(t.name)),
{
    lemma_old_versions(t.installed, t.latest, v);
}

proof fn lemma_old_versions(versions: Seq<Seq<char>>, latest: Seq<char>, v: Seq<char>)
    requires
        old_versions(versions, latest).contains(v),
    ensures
        v != latest,
        versions.contains(v),
    decreases versions.len(),
{
    let before = old_versions(versions.drop_last(), latest);
    let all = old_versions(versions, latest);
    let k = choose|k: int| 0 <= k < all.len() && all[k] == v;
    if k < before.len() {
        assert(before[k] == v);
        lemma_old_versions(versions.drop_last(), latest, v);
        let q = choose|q: int| 0 <= q < versions.drop_last().len() && versions.drop_last()[q] == v;
        assert(versions[q] == v);
    } else {
        assert(versions[versions.len() - 1] == v);
    }
}

/// How an upgrade is shown.
pub open spec fn change(o: OutdatedV) -> Seq<char> {
    o.name + " "@ + joined(o.installed, "/"@) + " → "@ + o.latest
}

/// The line after an upgrade that took `seconds`.
pub fn upgrade_note(targets: &Vec<Outdated>, seconds: &str) -> (r: String)
    ensures
        r@ == summary_line("upgraded"@, targets@.len(), seconds@) + ": "@ + joined(
            outdated_views(targets@).map_values(|o: OutdatedV| change(o)),
            ", "@,
        ),
{
    let mut parts: Vec<String> = Vec::new();
    for i in 0..targets.len()
        invariant
            parts@.len() == i,
            forall|k: int| 0 <= k < i ==> (#[trigger] parts@[k])@ == change(targets@[k]@),
    {
        let t = &targets[i];
        parts.push(
            t.name.clone().concat(" ").concat(text::join(&t.installed, "/").as_str()).concat(
                " → ",
            ).concat(t.latest.as_str()),
        );
    }
    assert(texts(parts@) =~= outdated_views(targets@).map_values(|o: OutdatedV| change(o)));
    ui::summary("upgraded", targets.len(), seconds).concat(": ").concat(
        text::join(&parts, ", ").as_str(),
    )
}

/// The line for an outdated formula.
pub fn outdated_line(o: &Outdated) -> (r: String)
    ensures
        r@ == o.name@ + " "@ + dimmed(joined(texts(o.installed@), "/"@)) + " → "@ + o.latest@,
{
    o.name.clone().concat(" ").concat(
        ui::dim(text::join(&o.installed, "/").as_str()).as_str(),
    ).concat(" → ").concat(o.latest.as_str())
}

/// `o` is the first outdated formula with the name.
pub open spec fn is_first(all: Seq<OutdatedV>, name: Seq<char>, o: OutdatedV) -> bool {
    exists|k: int|
        0 <= k < all.len() && #[trigger] all[k] == o && o.name == name && forall|j: int|
            0 <= j < k ==> (#[trigger] all[j]).name != name
}

/// The first outdated formula of a name.
proof fn lemma_first_outdated(all: Seq<OutdatedV>, name: Seq<char>)
    ensures
        match first_outdated(all, name) {
            Some(o) => is_first(all, name, o),
            None => forall|k: int| 0 <= k < all.len() ==> (#[trigger] all[k]).name != name,
        },
    decreases all.len(),
{
    if all.len() > 0 && all[0].name != name {
        let rest = all.skip(1);
        lemma_first_outdated(rest, name);
        match first_outdated(rest, name) {
            Some(o) => {
                let k = choose|k: int|
                    0 <= k < rest.len() && #[trigger] rest[k] == o && o.name == name && forall|j: int|
                        0 <= j < k ==> (#[trigger] rest[j]).name != name;
                assert(all[k + 1] == o);
                assert forall|j: int| 0 <= j < k + 1 implies (#[trigger] all[j]).name != name by {
                    if j > 0 {
                        assert(rest[j - 1] == all[j]);
                    }
                }
            },
            None => {
                assert forall|k: int| 0 <= k < all.len() implies (#[trigger] all[k]).name != name by {
                    if k > 0 {
                        assert(rest[k - 1] == all[k]);
                    }
                }
            },
        }
    } else if all.len() > 0 {
        assert(all[0] == first_outdated(all, name)->0);
    }
}

/// What is upgraded for the names.
pub open spec fn target_at(all: Seq<OutdatedV>, names: Seq<Seq<char>>) -> spec_fn(int, OutdatedV) -> bool {
    |i: int, o: OutdatedV| is_first(all, names[i], o)
}

/// What is told of the names that nothing is upgraded for.
pub open spec fn note_at(all: Seq<OutdatedV>, names: Seq<Seq<char>>) -> spec_fn(int, Seq<char>) -> bool {
    |i: int, note: Seq<char>|
        (forall|k: int| 0 <= k < all.len() ==> (#[trigger] all[k]).name != names[i]) && note == dimmed(
            "  · "@ + names[i] + ": already up to date (or not installed)"@,
        )
}

/// What comes of the first names.
proof fn lemma_chosen(all: Seq<OutdatedV>, names: Seq<Seq<char>>, n: int)
    requires
        0 <= n <= names.len(),
    ensures
        picks(n, target_at(all, names), chosen(all, names.take(n))),
        picks(n, note_at(all, names), passed_over(all, names.take(n))),
    decreases n,
{
    let p = target_at(all, names);
    let q = note_at(all, names);
    if n == 0 {
        assert(names.take(0) =~= Seq::empty());
        picks::lemma_pick_start(p);
        picks::lemma_pick_start(q);
    } else {
        let m = n - 1;
        lemma_chosen(all, names, m);
        assert(names.take(n).drop_last() =~= names.take(m));
        let some = chosen(all, names.take(m));
        let notes = passed_over(all, names.take(m));
        lemma_first_outdated(all, names[m]);
        match first_outdated(all, names[m]) {
            Some(o) => {
                assert(p(m, o));
                picks::lemma_pick_one(m, p, some, o);
                let k = choose|k: int| 0 <= k < all.len() && #[trigger] all[k] == o && o.name == names[m]
                    && forall|j: int| 0 <= j < k ==> (#[trigger] all[j]).name != names[m];
                assert(all[k].name == names[m]);
                picks::lemma_pick_none(m, q, notes);
            },
            None => {
                assert forall|o: OutdatedV| !#[trigger] p(m, o) by {
                    if p(m, o) {
                        let k = choose|k: int| 0 <= k < all.len() && #[trigger] all[k] == o && o.name == names[m]
                            && forall|j: int| 0 <= j < k ==> (#[trigger] all[j]).name != names[m];
                        assert(all[k].name != names[m]);
                    }
                }
                picks::lemma_pick_none(m, p, some);
                let note = dimmed("  · "@ + names[m] + ": already up to date (or not installed)"@);
                assert(q(m, note));
                picks::lemma_pick_one(m, q, notes, note);
            },
        }
    }
}

/// Law: without names everything outdated is upgraded; with names exactly those
/// that are outdated, in the order of the names, and the user is told of each of
/// the others.
pub proof fn law_upgrades_go_by_name(all: Seq<OutdatedV>, names: Seq<Seq<char>>)
    ensures
        names.len() == 0 ==> targets_of(all, names) == all,
        names.len() > 0 ==> picks(names.len() as int, target_at(all, names), targets_of(all, names)),
        picks(names.len() as int, note_at(all, names), passed_over(all, names)),
{
    lemma_chosen(all, names, names.len() as int);
    assert(names.take(names.len() as int) =~= names);
}

/// All formulae have names of their own.
pub open spec fn own_names(all: Seq<InstalledV>) -> bool {
    forall|i: int, j: int|
        0 <= i < all.len() && 0 <= j < all.len() && (#[trigger] all[i]).name == (#[trigger] all[j]).name ==> i
            == j
}

/// The receipt that a name leads to.
proof fn lemma_receipt_of(all: Seq<InstalledV>, k: int)
    requires
        own_names(all),
        0 <= k < all.len(),
    ensures
        receipt_of(all, all[k].name) == all[k].receipt,
    decreases all.len(),
{
    let init = all.drop_last();
    assert(own_names(init)) by {
        assert forall|i: int, j: int|
            0 <= i < init.len() && 0 <= j < init.len() && (#[trigger] init[i]).name == (
            #[trigger] init[j]).name implies i == j by {
            assert(all[i].name == all[j].name);
        }
    }
    if k < all.len() - 1 {
        lemma_receipt_of(init, k);
        assert(init[k] == all[k]);
        if all.last().name == all[k].name {
            assert(all[all.len() - 1].name == all[k].name);
        }
    } else if all.last().receipt is None {
        lemma_no_receipt_of(init, all.last().name);
    }
}

/// A name that no formula has leads to no receipt.
proof fn lemma_no_receipt_of(all: Seq<InstalledV>, name: Seq<char>)
    ensures
        (forall|i: int| 0 <= i < all.len() ==> (#[trigger] all[i]).name != name) ==> receipt_of(all, name) is None,
    decreases all.len(),
{
    if all.len() > 0 && forall|i: int| 0 <= i < all.len() ==> (#[trigger] all[i]).name != name {
        let init = all.drop_last();
        assert forall|i: int| 0 <= i < init.len() implies (#[trigger] init[i]).name != name by {
            assert(all[i] == init[i]);
        }
        lemma_no_receipt_of(init, name);
        assert(all[all.len() - 1] == all.last());
    }
}

/// Law: an upgrade reads the receipts of what is installed: a formula stays
/// requested and protected where its own receipt says so, and its old kegs may
/// be pinned if and only if some receipt lists it as a dependency.
pub proof fn law_upgrades_read_the_receipts(all: Seq<InstalledV>, k: int, name: Seq<char>)
    requires
        own_names(all),
        0 <= k < all.len(),
    ensures
        asked_for(all, all[k].name) == (all[k].receipt is Some && (all[k].receipt->0).requested),
        is_protected(all, all[k].name) == (all[k].receipt is Some && (all[k].receipt->0).protected),
        is_pinned(all, name) <==> exists|i: int|
            0 <= i < all.len() && (#[trigger] all[i]).receipt is Some && (all[i].receipt->0).deps.contains(name),
{
    lemma_receipt_of(all, k);
    if is_pinned(all, name) {
        let i = choose|i: int|
            0 <= i < all.len() && (receipt_of(all, (#[trigger] all[i]).name) matches Some(r) && r.deps.contains(
                name,
            ));
        lemma_receipt_of(all, i);
    }
    if exists|i: int|
        0 <= i < all.len() && (#[trigger] all[i]).receipt is Some && (all[i].receipt->0).deps.contains(name) {
        let i = choose|i: int|
            0 <= i < all.len() && (#[trigger] all[i]).receipt is Some && (all[i].receipt->0).deps.contains(name);
        lemma_receipt_of(all, i);
        assert(receipt_of(all, all[i].name) is Some);
    }
}

/// Law: a formula is upgraded as the index describes it, from the bottle for
/// this processor, and counts as requested as much as before.
pub proof fn law_upgrades_pour_as_described(arch: Arch, all: Seq<InstalledV>, f: Formula)
    ensures
        ({
            let it = upgraded(arch, all, f);
            &&& it.spec.name == f.name@
            &&& crate::installed::current_version(f, it.spec.version)
            &&& it.spec.deps == texts(f.dependencies@)
            &&& it.spec.keg_only == f.keg_only
            &&& it.spec.post_install == crate::json::models(f.post_install_steps@)
            &&& it.spec.requested == asked_for(all, f.name@)
            &&& choice(arch, f) matches Some((_, file)) ==> it.file == file
            &&& it.via is None
        }),
{
}

/// Versions other than the latest.
pub open spec fn old_at(versions: Seq<Seq<char>>, latest: Seq<char>) -> spec_fn(int, Seq<char>) -> bool {
    |i: int, v: Seq<char>| v == versions[i] && v != latest
}

/// The old ones of the first versions.
proof fn lemma_old_at(versions: Seq<Seq<char>>, latest: Seq<char>, n: int)
    requires
        0 <= n <= versions.len(),
    ensures
        picks(n, old_at(versions, latest), old_versions(versions.take(n), latest)),
    decreases n,
{
    let p = old_at(versions, latest);
    if n == 0 {
        assert(versions.take(0) =~= Seq::empty());
        picks::lemma_pick_start(p);
    } else {
        lemma_old_at(versions, latest, n - 1);
        assert(versions.take(n).drop_last() =~= versions.take(n - 1));
        let before = old_versions(versions.take(n - 1), latest);
        if versions[n - 1] != latest {
            assert(p(n - 1, versions[n - 1]));
            picks::lemma_pick_one(n - 1, p, before, versions[n - 1]);
        } else {
            picks::lemma_pick_none(n - 1, p, before);
        }
    }
}

/// Law: after an upgrade all old versions are deleted where nothing may pin
/// them, and none where something may.
pub proof fn law_old_versions_go_unless_pinned(all: Seq<InstalledV>, t: OutdatedV)
    ensures
        !is_pinned(all, t.name) ==> picks(t.installed.len() as int, old_at(t.installed, t.latest), deleted(all, t)),
        is_pinned(all, t.name) ==> deleted(all, t).len() == 0,
        picks(t.installed.len() as int, old_at(t.installed, t.latest), old_versions(t.installed, t.latest)),
{
    lemma_old_at(t.installed, t.latest, t.installed.len() as int);
    assert(t.installed.take(t.installed.len() as int) =~= t.installed);
}

/// Law: what is told of an upgrade names the formula and its versions, the old
/// ones and then the new one.
pub proof fn law_upgrade_notes(o: OutdatedV, version: Seq<char>, fs: Seq<Formula>, name: Seq<char>)
    ensures
        change(o) == o.name + " "@ + joined(o.installed, "/"@) + " → "@ + o.latest,
        kept_note(o.name, version) == dimmed(
            "  · kept "@ + o.name + " "@ + version + " (other kegs still pin it)"@,
        ),
        lookup(fs, name) matches Some(k) ==> index_deps(fs, name) == texts(fs[k].dependencies@),
        lookup(fs, name) is None ==> index_deps(fs, name).len() == 0,
{
}

} // verus!
