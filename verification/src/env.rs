//! Per-project environments.
//!
//! `dram.toml` declares what a project wants; `dram lock` resolves it against
//! the live index and pins exact versions and bottle digests into `dram.lock`;
//! `dram sync` materializes the environment. Because bottles are fetched by
//! locked URL and digest, a sync reproduces the same environment even after
//! the formula index has moved on. Kegs land in the shared Cellar; the
//! environment itself is just `.dram/bin` full of links.

use vstd::prelude::*;

use crate::bottle;
use crate::bottle::{best_tag, choice, Arch};
use crate::ctx::Ctx;
use crate::formula::{BottleFile, Formula};
use crate::install::{planned, InstallItem, ItemV, PourSpec, PourSpecV};
use crate::json;
use crate::json::{models, Json, JsonV};
use crate::path;
use crate::path::below;
use crate::picks;
use crate::picks::picks;
use crate::resolver;
use crate::resolver::{resolution, ResolveErrorV};
use crate::schedule;
use crate::schedule::{forward, rising, waits_of};
use crate::step_ops::{op_views, Op, OpV};
use crate::strmap::{text_map, StrMap};
use crate::text;
use crate::text::{decimal, joined, merged, texts};
use crate::ui;
use crate::ui::{dimmed, formulae_word, CHECK};

verus! {

broadcast use text::lemma_texts_push;

/// The file that declares what a project wants.
pub const MANIFEST: &'static str = "dram.toml";

/// The file that pins what a project gets.
pub const LOCKFILE: &'static str = "dram.lock";

/// The directory that holds an environment.
pub const ENV_DIR: &'static str = ".dram";

/// The version of the lockfile format.
pub const LOCK_VERSION: u32 = 1;

/// What a project wants.
pub struct Manifest {
    pub packages: Vec<String>,
}

/// What a project gets.
pub struct Lockfile {
    pub version: u32,
    /// Dependencies stand before their dependents.
    pub packages: Vec<LockedPackage>,
}

/// One pinned formula.
pub struct LockedPackage {
    pub name: String,
    pub version: String,
    /// Named in dram.toml, as opposed to pulled in as a dependency.
    pub requested: bool,
    pub keg_only: bool,
    pub deps: Vec<String>,
    /// Declarative post-install steps, as JSON text, so that a sync replays
    /// them exactly as locked; empty where there are none.
    pub post_install: String,
    /// Platform tag -> pinned bottle. All tags are recorded so that one
    /// lockfile works across machines.
    pub bottles: StrMap<LockedBottle>,
}

/// One pinned bottle.
pub struct LockedBottle {
    pub url: String,
    pub sha256: String,
}

/// What a `LockedPackage` says. A bottle is its URL and its digest.
pub struct LockedV {
    pub name: Seq<char>,
    pub version: Seq<char>,
    pub requested: bool,
    pub keg_only: bool,
    pub deps: Seq<Seq<char>>,
    pub post_install: Seq<char>,
    pub bottles: Map<Seq<char>, (Seq<char>, Seq<char>)>,
}

/// The URLs and digests of pinned bottles.
pub open spec fn pinned_bottles(m: Map<Seq<char>, LockedBottle>) -> Map<
    Seq<char>,
    (Seq<char>, Seq<char>),
> {
    m.map_values(|b: LockedBottle| (b.url@, b.sha256@))
}

/// The URLs and digests of bottle files.
pub open spec fn file_digests(m: Map<Seq<char>, BottleFile>) -> Map<Seq<char>, (Seq<char>, Seq<char>)> {
    m.map_values(|b: BottleFile| (b.url@, b.sha256@))
}

impl View for LockedPackage {
    type V = LockedV;

    open spec fn view(&self) -> LockedV {
        LockedV {
            name: self.name@,
            version: self.version@,
            requested: self.requested,
            keg_only: self.keg_only,
            deps: texts(self.deps@),
            post_install: self.post_install@,
            bottles: pinned_bottles(self.bottles@),
        }
    }
}

/// What pinned formulae say.
pub open spec fn locked_views(v: Seq<LockedPackage>) -> Seq<LockedV> {
    v.map_values(|p: LockedPackage| p@)
}

/// Adds names to a manifest.
pub fn init(manifest: Manifest, names: &Vec<String>) -> (r: Manifest)
    ensures
        texts(r.packages@) == merged(texts(manifest.packages@), texts(names@)),
{
    Manifest { packages: text::merge(manifest.packages, names) }
}

/// Adding names that are there changes nothing.
proof fn lemma_merged_known(packages: Seq<Seq<char>>, names: Seq<Seq<char>>)
    requires
        forall|i: int| 0 <= i < names.len() ==> packages.contains(#[trigger] names[i]),
    ensures
        merged(packages, names) == packages,
    decreases names.len(),
{
    if names.len() > 0 {
        assert forall|i: int| 0 <= i < names.drop_last().len() implies packages.contains(
            #[trigger] names.drop_last()[i],
        ) by {
            assert(names.drop_last()[i] == names[i]);
        }
        lemma_merged_known(packages, names.drop_last());
        assert(packages.contains(names[names.len() - 1]));
    }
}

/// Law: extending a manifest keeps what is in it, adds all names, each once,
/// and doing it again changes nothing.
pub proof fn law_init_extends_once(packages: Seq<Seq<char>>, names: Seq<Seq<char>>)
    ensures
        text::has_prefix_of(merged(packages, names), packages),
        forall|n: Seq<char>| #[trigger]
            merged(packages, names).contains(n) <==> packages.contains(n) || names.contains(n),
        packages.no_duplicates() ==> merged(packages, names).no_duplicates(),
        merged(merged(packages, names), names) == merged(packages, names),
{
    text::lemma_merged(packages, names);
    let all = merged(packages, names);
    assert forall|i: int| 0 <= i < names.len() implies all.contains(#[trigger] names[i]) by {
        assert(names.contains(names[i]));
    }
    lemma_merged_known(all, names);
}

/// What is shown after a manifest was written.
pub fn init_note(manifest: &Manifest) -> (r: String)
    ensures
        r@ == CHECK@ + " wrote dram.toml ("@ + if manifest.packages@.len() == 0 {
            "empty — add packages to it"@
        } else {
            joined(texts(manifest.packages@), ", "@)
        } + ")"@,
{
    let listed = if manifest.packages.len() == 0 {
        "empty — add packages to it".to_string()
    } else {
        text::join(&manifest.packages, ", ")
    };
    CHECK.to_string().concat(" wrote dram.toml (").concat(listed.as_str()).concat(")")
}

/// The tip after a manifest was written.
pub fn init_tip() -> (r: String)
    ensures
        r@ == dimmed("  · tip: add .dram/ to .gitignore; commit dram.toml and dram.lock"@),
{
    ui::dim("  · tip: add .dram/ to .gitignore; commit dram.toml and dram.lock")
}

/// Why a project cannot be locked.
pub enum LockError {
    /// The manifest lists nothing.
    NoPackages,
    /// The formula of that name has no stable bottle.
    NoStable(String),
}

impl LockError {
    /// What the user is told.
    pub fn message(&self) -> (r: String)
        ensures
            r@ == match self {
                LockError::NoPackages => "dram.toml lists no packages"@,
                LockError::NoStable(name) => name@ + " has no stable bottle"@,
            },
    {
        match self {
            LockError::NoPackages => "dram.toml lists no packages".to_string(),
            LockError::NoStable(name) => name.clone().concat(" has no stable bottle"),
        }
    }
}

/// The packages of a manifest that can be locked: one at least.
pub fn wanted(manifest: &Manifest) -> (r: Result<&Vec<String>, LockError>)
    ensures
        match r {
            Ok(ps) => manifest.packages@.len() > 0 && *ps == manifest.packages,
            Err(e) => manifest.packages@.len() == 0 && e is NoPackages,
        },
{
    if manifest.packages.len() == 0 {
        Err(LockError::NoPackages)
    } else {
        Ok(&manifest.packages)
    }
}

/// How a formula with a stable bottle is pinned, given its post-install steps
/// as text.
pub open spec fn locked_as(f: Formula, requested: bool, steps: Seq<char>) -> LockedV {
    LockedV {
        name: f.name@,
        version: f.keg_dir(),
        requested,
        keg_only: f.keg_only,
        deps: texts(f.dependencies@),
        post_install: if f.post_install_steps@.len() == 0 {
            Seq::empty()
        } else {
            steps
        },
        bottles: file_digests(f.bottle@["stable"@].files@),
    }
}

/// Pins bottle files.
fn lock_files(files: &StrMap<BottleFile>) -> (r: StrMap<LockedBottle>)
    ensures
        pinned_bottles(r@) == file_digests(files@),
{
    let keys = files.keys();
    let ghost ks = files.key_seq();
    let ghost want = file_digests(files@);
    let mut r: StrMap<LockedBottle> = StrMap::new();
    assert(keys@.len() == ks.len()) by {
        assert(texts(keys@).len() == keys@.len());
    }
    for i in 0..keys.len()
        invariant
            ks == files.key_seq(),
            keys@.len() == ks.len(),
            want == file_digests(files@),
            forall|k: Seq<char>| #[trigger] files@.contains_key(k) <==> ks.contains(k),
            forall|k: Seq<char>|
                #[trigger] r@.contains_key(k) <==> exists|q: int| 0 <= q < i && #[trigger] ks[q] == k,
            forall|k: Seq<char>|
                #[trigger] r@.contains_key(k) ==> (r@[k].url@, r@[k].sha256@) == want[k],
    {
        let ghost before = r@;
        let (tag, b) = files.entry(i);
        r.insert(tag.clone(), LockedBottle { url: b.url.clone(), sha256: b.sha256.clone() });
        assert forall|k: Seq<char>|
            #[trigger] r@.contains_key(k) <==> exists|q: int| 0 <= q < i + 1 && #[trigger] ks[q] == k by {
            if before.contains_key(k) {
                let q = choose|q: int| 0 <= q < i && #[trigger] ks[q] == k;
                assert(ks[q] == k);
            }
            if k == tag@ {
                assert(ks[i as int] == k);
            }
        }
    }
    assert forall|k: Seq<char>| r@.contains_key(k) <==> files@.contains_key(k) by {
        if files@.contains_key(k) {
            let q = choose|q: int| 0 <= q < ks.len() && ks[q] == k;
            assert(ks[q] == k);
        }
    }
    assert(pinned_bottles(r@) =~= file_digests(files@));
    r
}

/// Pins a plan. The first formula without a stable bottle is an error. `steps`
/// holds the post-install steps of each formula as text.
pub fn lock(plan: &Vec<&Formula>, requested: &Vec<String>, steps: &Vec<String>) -> (r: Result<
    Lockfile,
    LockError,
>)
    requires
        steps@.len() == plan@.len(),
    ensures
        ({
            let fs = planned(plan@);
            match r {
                Ok(lockfile) => lockfile.version == LOCK_VERSION && lockfile.packages@.len() == fs.len()
                    && forall|i: int|
                    0 <= i < fs.len() ==> (#[trigger] fs[i]).bottle@.contains_key("stable"@)
                        && lockfile.packages@[i]@ == locked_as(
                        fs[i],
                        texts(requested@).contains(fs[i].name@),
                        steps@[i]@,
                    ),
                Err(e) => e matches LockError::NoStable(name) && exists|i: int|
                    0 <= i < fs.len() && !(#[trigger] fs[i]).bottle@.contains_key("stable"@) && name@
                        == fs[i].name@ && forall|j: int|
                        0 <= j < i ==> (#[trigger] fs[j]).bottle@.contains_key("stable"@),
            }
        }),
{
    let ghost fs = planned(plan@);
    let ghost rs = texts(requested@);
    let mut packages: Vec<LockedPackage> = Vec::new();
    for i in 0..plan.len()
        invariant
            fs == planned(plan@),
            rs == texts(requested@),
            steps@.len() == plan@.len(),
            packages@.len() == i,
            forall|k: int|
                0 <= k < i ==> (#[trigger] fs[k]).bottle@.contains_key("stable"@) && packages@[k]@
                    == locked_as(fs[k], rs.contains(fs[k].name@), steps@[k]@),
    {
        let f = plan[i];
        assert(fs[i as int] == *f);
        let spec = match f.bottle.get("stable") {
            Some(spec) => spec,
            None => {
                return Err(LockError::NoStable(f.name.clone()));
            },
        };
        let post_install = if f.post_install_steps.len() == 0 {
            String::new()
        } else {
            steps[i].clone()
        };
        assert(rs.to_set().contains(f.name@) == rs.contains(f.name@));
        packages.push(
            LockedPackage {
                name: f.name.clone(),
                version: f.keg_version(),
                requested: text::among(f.name.as_str(), requested),
                keg_only: f.keg_only,
                deps: text::copy_all(&f.dependencies),
                post_install,
                bottles: lock_files(&spec.files),
            },
        );
    }
    Ok(Lockfile { version: LOCK_VERSION, packages })
}

/// What is shown after a lockfile was written.
pub fn lock_note(n: usize) -> (r: String)
    ensures
        r@ == CHECK@ + " locked "@ + decimal(n as nat) + " "@ + formulae_word(n as nat) + " -> dram.lock"@,
{
    CHECK.to_string().concat(" locked ").concat(text::show(n as u64).as_str()).concat(" ").concat(
        ui::formulae(n),
    ).concat(" -> dram.lock")
}

/// The versions by which relocation pins the dependencies.
pub open spec fn locked_pins(ps: Seq<LockedV>) -> Map<Seq<char>, Seq<char>>
    decreases ps.len(),
{
    if ps.len() == 0 {
        Map::empty()
    } else {
        locked_pins(ps.drop_last()).insert(ps.last().name, ps.last().version)
    }
}

/// The versions by which relocation pins the dependencies.
pub fn locked_versions(lockfile: &Lockfile) -> (r: StrMap<String>)
    ensures
        text_map(r@) == locked_pins(locked_views(lockfile.packages@)),
{
    let ghost ps = locked_views(lockfile.packages@);
    let mut r: StrMap<String> = StrMap::new();
    assert(text_map(r@) =~= locked_pins(ps.take(0)));
    for i in 0..lockfile.packages.len()
        invariant
            ps == locked_views(lockfile.packages@),
            text_map(r@) == locked_pins(ps.take(i as int)),
    {
        let ghost before = r@;
        let p = &lockfile.packages[i];
        r.insert(p.name.clone(), p.version.clone());
        proof {
            assert(ps.take(i + 1).drop_last() =~= ps.take(i as int));
            assert(ps.take(i + 1).last() == p@);
            assert(text_map(r@) =~= text_map(before).insert(p.name@, p.version@));
        }
    }
    assert(ps.take(lockfile.packages@.len() as int) =~= ps);
    r
}

/// A pinned formula has no bottle for this platform; the tags that it has are
/// listed.
pub struct NoLockedBottle {
    pub name: String,
    pub have: Vec<String>,
}

impl NoLockedBottle {
    /// What the user is told.
    pub fn message(&self) -> (r: String)
        ensures
            r@ == self.name@ + ": no locked bottle for this platform (have: "@ + joined(
                texts(self.have@),
                ", "@,
            ) + ")"@,
    {
        self.name.clone().concat(": no locked bottle for this platform (have: ").concat(
            text::join(&self.have, ", ").as_str(),
        ).concat(")")
    }
}

/// The keg of a pinned formula.
pub open spec fn locked_keg(ctx: Ctx, p: LockedV) -> Seq<char> {
    ctx.keg_dir(p.name, p.version)
}

/// The kegs of the pinned formulae, in order.
pub fn locked_kegs(ctx: &Ctx, lockfile: &Lockfile) -> (r: Vec<String>)
    ensures
        texts(r@) == locked_views(lockfile.packages@).map_values(|p: LockedV| locked_keg(*ctx, p)),
{
    let mut r: Vec<String> = Vec::new();
    for i in 0..lockfile.packages.len()
        invariant
            r@.len() == i,
            forall|k: int|
                0 <= k < i ==> (#[trigger] r@[k])@ == locked_keg(*ctx, lockfile.packages@[k]@),
    {
        let p = &lockfile.packages[i];
        r.push(ctx.keg(p.name.as_str(), p.version.as_str()));
    }
    assert(texts(r@) =~= locked_views(lockfile.packages@).map_values(|p: LockedV| locked_keg(*ctx, p)));
    r
}

/// What is to be poured of one pinned formula: its name, version, dependencies
/// and steps as locked, from the bottle that is pinned for this platform.
pub open spec fn synced(arch: Arch, p: LockedV, steps: Seq<JsonV>, it: ItemV) -> bool {
    let tag = best_tag(arch, p.bottles.dom());
    &&& tag is Some
    &&& it.spec == PourSpecV {
        name: p.name,
        version: p.version,
        deps: p.deps,
        keg_only: p.keg_only,
        requested: false,
        post_install: if p.post_install.len() == 0 {
            Seq::empty()
        } else {
            steps
        },
    }
    &&& it.file.cellar@ == Seq::<char>::empty()
    &&& (it.file.url@, it.file.sha256@) == p.bottles[tag->0]
    &&& it.via is None
}

/// The positions of the pinned formulae whose kegs are not there.
pub open spec fn unpoured(ctx: Ctx, ps: Seq<LockedV>, existing: Set<Seq<char>>) -> Seq<int>
    decreases ps.len(),
{
    if ps.len() == 0 {
        Seq::empty()
    } else if existing.contains(locked_keg(ctx, ps.last())) {
        unpoured(ctx, ps.drop_last(), existing)
    } else {
        unpoured(ctx, ps.drop_last(), existing).push(ps.len() - 1)
    }
}

/// What is to be poured of one pinned formula.
fn sync_package(arch: Arch, p: &LockedPackage, steps: &Vec<Json>) -> (r: Result<
    InstallItem,
    NoLockedBottle,
>)
    ensures
        match r {
            Ok(it) => synced(arch, p@, models(steps@), it@),
            Err(e) => best_tag(arch, p@.bottles.dom()) is None && e.name@ == p.name@ && texts(e.have@)
                == p.bottles.key_seq(),
        },
{
    assert(p@.bottles.dom() =~= p.bottles@.dom());
    let locked = match bottle::pick_tag(arch, &p.bottles) {
        Some((_, locked)) => locked,
        None => {
            return Err(NoLockedBottle { name: p.name.clone(), have: p.bottles.keys() });
        },
    };
    let none: Vec<Json> = Vec::new();
    assert(models(none@) =~= Seq::empty());
    let post_install = if p.post_install.as_str().is_empty() {
        none
    } else {
        json::copy_all(steps)
    };
    Ok(
        InstallItem {
            spec: PourSpec {
                name: p.name.clone(),
                version: p.version.clone(),
                deps: text::copy_all(&p.deps),
                keg_only: p.keg_only,
                requested: false,
                post_install,
            },
            file: BottleFile {
                cellar: String::new(),
                url: locked.url.clone(),
                sha256: locked.sha256.clone(),
            },
            via: None,
        },
    )
}

/// What is to be poured so that the environment matches the lockfile exactly.
/// `steps` holds the post-install steps of each pinned formula, read from
/// their text. The first formula without a bottle for this platform is an
/// error.
pub fn sync(
    arch: Arch,
    ctx: &Ctx,
    lockfile: &Lockfile,
    steps: &Vec<Vec<Json>>,
    existing: &Vec<String>,
) -> (r: Result<Vec<InstallItem>, NoLockedBottle>)
    requires
        steps@.len() == lockfile.packages@.len(),
    ensures
        ({
            let ps = locked_views(lockfile.packages@);
            let work = unpoured(*ctx, ps, texts(existing@).to_set());
            match r {
                Ok(items) => items@.len() == work.len() && forall|i: int|
                    0 <= i < work.len() ==> synced(
                        arch,
                        ps[#[trigger] work[i]],
                        models(steps@[work[i]]@),
                        items@[i]@,
                    ),
                Err(e) => exists|i: int|
                    0 <= i < work.len() && best_tag(arch, ps[#[trigger] work[i]].bottles.dom()) is None
                        && e.name@ == ps[work[i]].name && texts(e.have@)
                        == lockfile.packages@[work[i]].bottles.key_seq() && forall|j: int|
                        0 <= j < i ==> best_tag(arch, ps[#[trigger] work[j]].bottles.dom()) is Some,
            }
        }),
{
    let ghost ps = locked_views(lockfile.packages@);
    let ghost ex = texts(existing@).to_set();
    let ghost work = unpoured(*ctx, ps, ex);
    let ghost mut done = unpoured(*ctx, ps.take(0), ex);
    let mut items: Vec<InstallItem> = Vec::new();
    for i in 0..lockfile.packages.len()
        invariant
            ps == locked_views(lockfile.packages@),
            ex == texts(existing@).to_set(),
            work == unpoured(*ctx, ps, ex),
            steps@.len() == lockfile.packages@.len(),
            done == unpoured(*ctx, ps.take(i as int), ex),
            items@.len() == done.len(),
            forall|k: int|
                0 <= k < done.len() ==> synced(
                    arch,
                    ps[#[trigger] done[k]],
                    models(steps@[done[k]]@),
                    items@[k]@,
                ),
    {
        let p = &lockfile.packages[i];
        let ghost was = done;
        proof {
            done = unpoured(*ctx, ps.take(i + 1), ex);
            assert(ps.take(i + 1).drop_last() =~= ps.take(i as int));
            assert(ps.take(i + 1).last() == p@);
            assert(ps[i as int] == p@);
        }
        if !text::among(ctx.keg(p.name.as_str(), p.version.as_str()).as_str(), existing) {
            assert(done == was.push(i as int));
            match sync_package(arch, p, &steps[i]) {
                Ok(it) => {
                    items.push(it);
                },
                Err(e) => {
                    proof {
                        lemma_unpoured_prefix(*ctx, ps, ex, i + 1);
                        assert(work[was.len() as int] == done[was.len() as int]);
                        assert forall|j: int| 0 <= j < was.len() implies best_tag(
                            arch,
                            ps[#[trigger] work[j]].bottles.dom(),
                        ) is Some by {
                            assert(work[j] == done[j] && done[j] == was[j]);
                            assert(synced(arch, ps[was[j]], models(steps@[was[j]]@), items@[j]@));
                        }
                    }
                    return Err(e);
                },
            }
        }
    }
    assert(ps.take(lockfile.packages@.len() as int) =~= ps);
    Ok(items)
}

/// The first unpoured formulae are those among the first formulae.
proof fn lemma_unpoured_prefix(ctx: Ctx, ps: Seq<LockedV>, existing: Set<Seq<char>>, n: int)
    requires
        0 <= n <= ps.len(),
    ensures
        unpoured(ctx, ps.take(n), existing).len() <= unpoured(ctx, ps, existing).len(),
        forall|k: int|
            0 <= k < unpoured(ctx, ps.take(n), existing).len() ==> #[trigger] unpoured(
                ctx,
                ps.take(n),
                existing,
            )[k] == unpoured(ctx, ps, existing)[k],
    decreases ps.len(),
{
    if n < ps.len() {
        lemma_unpoured_prefix(ctx, ps.drop_last(), existing, n);
        assert(ps.drop_last().take(n) =~= ps.take(n));
    } else {
        assert(ps.take(n) =~= ps);
    }
}

/// Law: a lockfile reproduces what was locked on every machine: a formula that
/// has a bottle for a processor is synced there from the same URL with the
/// same digest, under the same name and version with the same dependencies and
/// the steps that its text stands for, and one that has none cannot be synced
/// there.
pub proof fn law_lock_reproduces_the_formula(
    arch: Arch,
    f: Formula,
    requested: bool,
    text: Seq<char>,
    steps: Seq<JsonV>,
    it: ItemV,
)
    requires
        f.bottle@.contains_key("stable"@),
    ensures
        choice(arch, f) is Some <==> best_tag(arch, locked_as(f, requested, text).bottles.dom()) is Some,
        synced(arch, locked_as(f, requested, text), steps, it) ==> {
            &&& choice(arch, f) is Some
            &&& it.file.url@ == (choice(arch, f)->0).1.url@
            &&& it.file.sha256@ == (choice(arch, f)->0).1.sha256@
            &&& it.spec.name == f.name@
            &&& it.spec.version == f.keg_dir()
            &&& it.spec.deps == texts(f.dependencies@)
            &&& it.spec.keg_only == f.keg_only
            &&& it.spec.post_install == if f.post_install_steps@.len() == 0 || text.len() == 0 {
                Seq::empty()
            } else {
                steps
            }
        },
{
    let files = f.bottle@["stable"@].files@;
    assert(locked_as(f, requested, text).bottles.dom() =~= files.dom());
    bottle::law_newest_tag_is_picked(arch, files.dom());
}

/// Unpoured formulae are listed in order.
proof fn lemma_unpoured_rises(ctx: Ctx, ps: Seq<LockedV>, existing: Set<Seq<char>>)
    ensures
        rising(unpoured(ctx, ps, existing)),
        forall|i: int|
            0 <= i < unpoured(ctx, ps, existing).len() ==> 0 <= #[trigger] unpoured(ctx, ps, existing)[i]
                < ps.len(),
    decreases ps.len(),
{
    if ps.len() > 0 {
        lemma_unpoured_rises(ctx, ps.drop_last(), existing);
    }
}

/// Law: a lockfile of an install order lists dependencies before their
/// dependents, so that pouring what is missing of it never stalls.
pub proof fn law_lockfiles_run_forward(
    fs: Seq<Formula>,
    roots: Seq<Seq<char>>,
    order: Seq<int>,
    ps: Seq<LockedV>,
    ctx: Ctx,
    existing: Set<Seq<char>>,
    items: Seq<ItemV>,
)
    requires
        resolution(fs, roots) == Ok::<Seq<int>, ResolveErrorV>(order),
        ps.len() == order.len(),
        forall|i: int|
            0 <= i < ps.len() ==> (#[trigger] ps[i]).name == fs[order[i]].name@ && ps[i].deps == texts(
                fs[order[i]].dependencies@,
            ),
        items.len() == unpoured(ctx, ps, existing).len(),
        forall|i: int|
            0 <= i < items.len() ==> (#[trigger] items[i]).spec.name == ps[unpoured(
                ctx,
                ps,
                existing,
            )[i]].name && items[i].spec.deps == ps[unpoured(ctx, ps, existing)[i]].deps,
    ensures
        forward(waits_of(items)),
        schedule::sound(schedule::unstarted(waits_of(items))),
{
    let at = unpoured(ctx, ps, existing);
    resolver::law_deps_before_dependents(fs, roots, order);
    lemma_unpoured_rises(ctx, ps, existing);
    assert forall|i: int| 0 <= i < items.len() implies (#[trigger] items[i]).spec.name
        == fs[order[at[i]]].name@ && items[i].spec.deps == texts(fs[order[at[i]]].dependencies@) by {
        assert(ps[at[i]].name == fs[order[at[i]]].name@);
    }
    schedule::lemma_forward(fs, order, at, items);
    schedule::lemma_waits_valid(items);
    schedule::lemma_unstarted(waits_of(items));
}

/// Where the executables of those of the pinned formulae are that the manifest
/// names.
pub open spec fn requested_bins(ctx: Ctx, ps: Seq<LockedV>) -> Seq<Seq<char>>
    decreases ps.len(),
{
    if ps.len() == 0 {
        Seq::empty()
    } else if ps.last().requested {
        requested_bins(ctx, ps.drop_last()).push(below(locked_keg(ctx, ps.last()), "bin"@))
    } else {
        requested_bins(ctx, ps.drop_last())
    }
}

/// The directories whose entries are linked into the environment: those of the
/// formulae that the manifest names, at the locked versions.
pub fn env_bins(ctx: &Ctx, lockfile: &Lockfile) -> (r: Vec<String>)
    ensures
        texts(r@) == requested_bins(*ctx, locked_views(lockfile.packages@)),
{
    let ghost ps = locked_views(lockfile.packages@);
    let mut r: Vec<String> = Vec::new();
    assert(texts(r@) =~= requested_bins(*ctx, ps.take(0)));
    for i in 0..lockfile.packages.len()
        invariant
            ps == locked_views(lockfile.packages@),
            texts(r@) == requested_bins(*ctx, ps.take(i as int)),
    {
        let p = &lockfile.packages[i];
        proof {
            assert(ps.take(i + 1).drop_last() =~= ps.take(i as int));
            assert(ps.take(i + 1).last() == p@);
        }
        if p.requested {
            r.push(path::join(ctx.keg(p.name.as_str(), p.version.as_str()).as_str(), "bin"));
        }
    }
    assert(ps.take(lockfile.packages@.len() as int) =~= ps);
    r
}

/// Links the executable `name` in `bin` into the environment.
pub open spec fn env_link(bin: Seq<char>, env_bin: Seq<char>, name: Seq<char>) -> OpV {
    OpV::Link { source: below(bin, name), target: below(env_bin, name) }
}

/// Links the executables in `bin`, whose names are given, into the environment.
pub fn env_links(bin: &str, env_bin: &str, names: &Vec<String>) -> (r: Vec<Op>)
    ensures
        op_views(r@) == texts(names@).map_values(|n: Seq<char>| env_link(bin@, env_bin@, n)),
{
    let mut r: Vec<Op> = Vec::new();
    for i in 0..names.len()
        invariant
            r@.len() == i,
            forall|k: int| 0 <= k < i ==> (#[trigger] r@[k])@ == env_link(bin@, env_bin@, names@[k]@),
    {
        let name = names[i].as_str();
        r.push(Op::Link { source: path::join(bin, name), target: path::join(env_bin, name) });
    }
    assert(op_views(r@) =~= texts(names@).map_values(|n: Seq<char>| env_link(bin@, env_bin@, n)));
    r
}

/// What is shown after a sync.
pub fn sync_note(poured: usize, linked: usize, env_bin: &str) -> (r: String)
    ensures
        r@ == CHECK@ + " env synced: "@ + decimal(poured as nat) + " poured, "@ + decimal(linked as nat)
            + if linked == 1 {
            " executable in "@
        } else {
            " executables in "@
        } + env_bin@,
{
    CHECK.to_string().concat(" env synced: ").concat(text::show(poured as u64).as_str()).concat(
        " poured, ",
    ).concat(text::show(linked as u64).as_str()).concat(
        if linked == 1 {
            " executable in "
        } else {
            " executables in "
        },
    ).concat(env_bin)
}

/// A search path with the environment in front.
pub fn shell_path(env_bin: &str, search: &str) -> (r: String)
    ensures
        r@ == env_bin@ + ":"@ + search@,
{
    env_bin.to_string().concat(":").concat(search)
}

/// Shell code that puts the environment of the project in `dir` on the search
/// path.
pub fn print_env(dir: &str) -> (r: String)
    ensures
        r@ == "export PATH=\""@ + below(below(dir@, ".dram"@), "bin"@) + ":$PATH\""@,
{
    let env_bin = path::join(path::join(dir, ".dram").as_str(), "bin");
    "export PATH=\"".to_string().concat(env_bin.as_str()).concat(":$PATH\"")
}

/// The directories with the executables of the pinned formulae that the
/// manifest names.
pub open spec fn bin_at(ctx: Ctx, ps: Seq<LockedV>) -> spec_fn(int, Seq<char>) -> bool {
    |i: int, bin: Seq<char>|
        ps[i].requested && bin == below(ctx.keg_dir(ps[i].name, ps[i].version), "bin"@)
}

/// The directories for the first formulae.
proof fn lemma_requested_bins(ctx: Ctx, ps: Seq<LockedV>, n: int)
    requires
        0 <= n <= ps.len(),
    ensures
        picks(n, bin_at(ctx, ps), requested_bins(ctx, ps.take(n))),
    decreases n,
{
    let p = bin_at(ctx, ps);
    if n == 0 {
        assert(ps.take(0) =~= Seq::empty());
        picks::lemma_pick_start(p);
    } else {
        lemma_requested_bins(ctx, ps, n - 1);
        assert(ps.take(n).drop_last() =~= ps.take(n - 1));
        let before = requested_bins(ctx, ps.take(n - 1));
        if ps[n - 1].requested {
            let bin = below(ctx.keg_dir(ps[n - 1].name, ps[n - 1].version), "bin"@);
            assert(p(n - 1, bin));
            picks::lemma_pick_one(n - 1, p, before, bin);
        } else {
            picks::lemma_pick_none(n - 1, p, before);
        }
    }
}

/// Law: an environment has the executables of every formula that the manifest
/// names, each from its keg at the locked version, and of no other.
pub proof fn law_environments_hold_what_is_requested(ctx: Ctx, ps: Seq<LockedV>)
    ensures
        picks(ps.len() as int, bin_at(ctx, ps), requested_bins(ctx, ps)),
        forall|i: int|
            0 <= i < ps.len() && (#[trigger] ps[i]).requested ==> requested_bins(ctx, ps).contains(
                below(ctx.keg_dir(ps[i].name, ps[i].version), "bin"@),
            ),
        forall|bin: Seq<char>| #[trigger]
            requested_bins(ctx, ps).contains(bin) ==> exists|i: int|
                0 <= i < ps.len() && (#[trigger] ps[i]).requested && bin == below(
                    ctx.keg_dir(ps[i].name, ps[i].version),
                    "bin"@,
                ),
        requested_bins(ctx, ps).len() == ps.filter(|p: LockedV| p.requested).len(),
{
    let r = requested_bins(ctx, ps);
    let c = bin_at(ctx, ps);
    lemma_requested_bins(ctx, ps, ps.len() as int);
    assert(ps.take(ps.len() as int) =~= ps);
    let at = choose|at: Seq<int>| #[trigger] picks::picked_at(ps.len() as int, c, r, at);
    assert forall|i: int| 0 <= i < ps.len() && (#[trigger] ps[i]).requested implies r.contains(
        below(ctx.keg_dir(ps[i].name, ps[i].version), "bin"@),
    ) by {
        let bin = below(ctx.keg_dir(ps[i].name, ps[i].version), "bin"@);
        assert(c(i, bin));
        let q = choose|q: int| 0 <= q < at.len() && at[q] == i;
        assert(c(at[q], r[q]));
        assert(r[q] == bin);
    }
    assert forall|bin: Seq<char>| #[trigger] r.contains(bin) implies exists|i: int|
        0 <= i < ps.len() && (#[trigger] ps[i]).requested && bin == below(
            ctx.keg_dir(ps[i].name, ps[i].version),
            "bin"@,
        ) by {
        let q = choose|q: int| 0 <= q < r.len() && r[q] == bin;
        assert(c(at[q], r[q]));
        assert(ps[at[q]].requested);
    }
    lemma_requested_count(ctx, ps);
}

/// There are as many directories as there are requested formulae.
proof fn lemma_requested_count(ctx: Ctx, ps: Seq<LockedV>)
    ensures
        requested_bins(ctx, ps).len() == ps.filter(|p: LockedV| p.requested).len(),
    decreases ps.len(),
{
    reveal(Seq::filter);
    if ps.len() > 0 {
        lemma_requested_count(ctx, ps.drop_last());
    }
}

/// Positions of pinned formulae whose kegs are not there.
pub open spec fn unpoured_at(ctx: Ctx, ps: Seq<LockedV>, existing: Set<Seq<char>>) -> spec_fn(
    int,
    int,
) -> bool {
    |i: int, k: int| k == i && !existing.contains(ctx.keg_dir(ps[i].name, ps[i].version))
}

/// The positions among the first formulae.
proof fn lemma_unpoured(ctx: Ctx, ps: Seq<LockedV>, existing: Set<Seq<char>>, n: int)
    requires
        0 <= n <= ps.len(),
    ensures
        picks(n, unpoured_at(ctx, ps, existing), unpoured(ctx, ps.take(n), existing)),
    decreases n,
{
    let p = unpoured_at(ctx, ps, existing);
    if n == 0 {
        assert(ps.take(0) =~= Seq::empty());
        picks::lemma_pick_start(p);
    } else {
        lemma_unpoured(ctx, ps, existing, n - 1);
        assert(ps.take(n).drop_last() =~= ps.take(n - 1));
        let before = unpoured(ctx, ps.take(n - 1), existing);
        if !existing.contains(ctx.keg_dir(ps[n - 1].name, ps[n - 1].version)) {
            assert(p(n - 1, n - 1));
            picks::lemma_pick_one(n - 1, p, before, n - 1);
        } else {
            picks::lemma_pick_none(n - 1, p, before);
        }
    }
}

/// Law: a sync pours exactly the pinned formulae whose kegs at the locked
/// version are not there, in the order of the lockfile.
pub proof fn law_syncs_pour_what_is_missing(ctx: Ctx, ps: Seq<LockedV>, existing: Set<Seq<char>>)
    ensures
        picks(ps.len() as int, unpoured_at(ctx, ps, existing), unpoured(ctx, ps, existing)),
{
    lemma_unpoured(ctx, ps, existing, ps.len() as int);
    assert(ps.take(ps.len() as int) =~= ps);
}

/// Law: a pinned formula is poured as it was pinned: under its name and
/// version, with its dependencies, its steps where it has any, linked only
/// where it is not keg-only, never as if the user had asked for it, from one of
/// the bottles that are pinned for it.
pub proof fn law_syncs_pour_as_pinned(arch: Arch, p: LockedV, steps: Seq<JsonV>, it: ItemV)
    requires
        synced(arch, p, steps, it),
    ensures
        it.spec.name == p.name,
        it.spec.version == p.version,
        it.spec.deps == p.deps,
        it.spec.keg_only == p.keg_only,
        !it.spec.requested,
        it.via is None,
        p.post_install.len() == 0 ==> it.spec.post_install == Seq::<JsonV>::empty(),
        p.post_install.len() > 0 ==> it.spec.post_install == steps,
        exists|tag: Seq<char>| #[trigger]
            p.bottles.contains_key(tag) && p.bottles[tag] == (it.file.url@, it.file.sha256@),
{
    bottle::law_newest_tag_is_picked(arch, p.bottles.dom());
    let tag = best_tag(arch, p.bottles.dom())->0;
    assert(p.bottles.contains_key(tag));
}

/// Law: what is pinned of a formula is what the formula says: its name, its
/// version, its dependencies, whether it is keg-only, and the URL and digest of
/// every one of its stable bottles, for all platforms.
pub proof fn law_locks_pin_the_formula(f: Formula, requested: bool, steps: Seq<char>)
    requires
        f.bottle@.contains_key("stable"@),
    ensures
        ({
            let p = locked_as(f, requested, steps);
            let files = f.bottle@["stable"@].files@;
            &&& p.name == f.name@
            &&& crate::installed::current_version(f, p.version)
            &&& p.requested == requested
            &&& p.keg_only == f.keg_only
            &&& p.deps == texts(f.dependencies@)
            &&& f.post_install_steps@.len() == 0 ==> p.post_install.len() == 0
            &&& f.post_install_steps@.len() > 0 ==> p.post_install == steps
            &&& forall|tag: Seq<char>| #[trigger] p.bottles.contains_key(tag) <==> files.contains_key(tag)
            &&& forall|tag: Seq<char>| #[trigger]
                files.contains_key(tag) ==> p.bottles[tag] == (files[tag].url@, files[tag].sha256@)
        }),
{
}

/// Law: relocation pins every formula of a lockfile, where names are distinct at
/// its locked version, and no other.
pub proof fn law_locked_versions_cover_the_lockfile(ps: Seq<LockedV>)
    ensures
        forall|n: Seq<char>| #[trigger]
            locked_pins(ps).contains_key(n) <==> exists|i: int| 0 <= i < ps.len() && (#[trigger] ps[i]).name == n,
        forall|n: Seq<char>| #[trigger]
            locked_pins(ps).contains_key(n) ==> exists|i: int|
                0 <= i < ps.len() && (#[trigger] ps[i]).name == n && ps[i].version == locked_pins(ps)[n]
                    && forall|j: int| i < j < ps.len() ==> (#[trigger] ps[j]).name != n,
    decreases ps.len(),
{
    if ps.len() > 0 {
        let init = ps.drop_last();
        law_locked_versions_cover_the_lockfile(init);
        assert(ps[ps.len() - 1] == ps.last());
        assert forall|n: Seq<char>| #[trigger]
            locked_pins(ps).contains_key(n) <==> exists|i: int|
                0 <= i < ps.len() && (#[trigger] ps[i]).name == n by {
            if locked_pins(init).contains_key(n) {
                let i = choose|i: int| 0 <= i < init.len() && (#[trigger] init[i]).name == n;
                assert(ps[i].name == n);
            }
            if exists|i: int| 0 <= i < ps.len() && (#[trigger] ps[i]).name == n {
                let i = choose|i: int| 0 <= i < ps.len() && (#[trigger] ps[i]).name == n;
                if i < init.len() {
                    assert(init[i].name == n);
                }
            }
        }
        assert forall|n: Seq<char>| #[trigger] locked_pins(ps).contains_key(n) implies exists|i: int|
            0 <= i < ps.len() && (#[trigger] ps[i]).name == n && ps[i].version == locked_pins(ps)[n]
                && forall|j: int| i < j < ps.len() ==> (#[trigger] ps[j]).name != n by {
            if n == ps.last().name {
                assert(ps[ps.len() - 1].name == n);
            } else {
                let i = choose|i: int|
                    0 <= i < init.len() && (#[trigger] init[i]).name == n && init[i].version == locked_pins(
                        init,
                    )[n] && forall|j: int| i < j < init.len() ==> (#[trigger] init[j]).name != n;
                assert(ps[i].name == n);
                assert forall|j: int| i < j < ps.len() implies (#[trigger] ps[j]).name != n by {
                    if j < init.len() {
                        assert(init[j] == ps[j]);
                    }
                }
            }
        }
    }
}

/// Law: each executable is linked into the environment under its own name.
pub proof fn law_environment_links_lead_into_the_keg(
    bin: Seq<char>,
    env_bin: Seq<char>,
    name: Seq<char>,
)
    ensures
        env_link(bin, env_bin, name) == (OpV::Link {
            source: below(bin, name),
            target: below(env_bin, name),
        }),
{
}

/// Law: what is said of pinned formulae is what the fields hold, and of pinned
/// bottles what their URL and their digest are.
pub proof fn law_locks_are_read_as_they_are(v: Seq<LockedPackage>, i: int, tag: Seq<char>)
    requires
        0 <= i < v.len(),
    ensures
        locked_views(v).len() == v.len(),
        ({
            let l = locked_views(v)[i];
            &&& l.name == v[i].name@
            &&& l.version == v[i].version@
            &&& l.requested == v[i].requested
            &&& l.keg_only == v[i].keg_only
            &&& l.deps == texts(v[i].deps@)
            &&& l.post_install == v[i].post_install@
            &&& l.bottles.contains_key(tag) <==> v[i].bottles@.contains_key(tag)
            &&& l.bottles.contains_key(tag) ==> l.bottles[tag] == (
                v[i].bottles@[tag].url@,
                v[i].bottles@[tag].sha256@,
            )
        }),
{
}

} // verus!
