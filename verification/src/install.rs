//! Kegs, their receipts, and what is to be poured.

use vstd::prelude::*;

use crate::api::{lookup, Index};
use crate::bottle;
use crate::bottle::{choice, refused, Arch, PickError};
use crate::ctx::Ctx;
use crate::formula::{BottleFile, Formula};
use crate::json;
use crate::json::{models, Json, JsonV};
use crate::picks;
use crate::picks::picks;
use crate::resolver;
use crate::resolver::{deps_of, names_of, reached, reaches, resolution, ResolveErrorV};
use crate::strmap::{text_map, StrMap};
use crate::text;
use crate::text::{arranged, opt_text, texts};

verus! {

broadcast use text::lemma_texts_push;

/// The name of the receipt in a keg.
pub const RECEIPT: &'static str = ".dram-receipt.json";

/// Written into each keg at pour time. `requested` separates "the user asked
/// for this" from "pulled in as a dependency", the difference between what
/// uninstall autoremoves and what it keeps. `deps` is recorded so that
/// uninstall can check dependents without touching the network or the index.
pub struct Receipt {
    pub requested: bool,
    /// Pinned by a project lockfile: shields from autoremove without claiming
    /// that the user asked for it.
    pub protected: bool,
    pub deps: Vec<String>,
}

/// What a `Receipt` says.
pub struct ReceiptV {
    pub requested: bool,
    pub protected: bool,
    pub deps: Seq<Seq<char>>,
}

impl View for Receipt {
    type V = ReceiptV;

    open spec fn view(&self) -> ReceiptV {
        ReceiptV { requested: self.requested, protected: self.protected, deps: texts(self.deps@) }
    }
}

impl Clone for Receipt {
    /// A copy that says the same.
    fn clone(&self) -> (r: Receipt)
        ensures
            r@ == self@,
    {
        Receipt {
            requested: self.requested,
            protected: self.protected,
            deps: text::copy_all(&self.deps),
        }
    }
}

/// What an optional receipt says.
pub open spec fn opt_receipt(r: Option<Receipt>) -> Option<ReceiptV> {
    match r {
        Some(x) => Some(x@),
        None => None,
    }
}

/// The receipt of a keg that is poured again: an existing protection stays.
pub open spec fn repoured(existing: Option<ReceiptV>, requested: bool, deps: Seq<Seq<char>>) -> ReceiptV {
    ReceiptV {
        requested,
        protected: match existing {
            Some(r) => r.protected,
            None => false,
        },
        deps,
    }
}

/// The receipt of a keg that a lockfile pins: it is protected, and as much
/// asked for as before.
pub open spec fn shielded(existing: Option<ReceiptV>, deps: Seq<Seq<char>>) -> ReceiptV {
    ReceiptV {
        requested: match existing {
            Some(r) => r.requested,
            None => false,
        },
        protected: true,
        deps,
    }
}

/// The receipt to write after a pour, given the one that is in the keg.
pub fn write_receipt(existing: &Option<Receipt>, requested: bool, deps: &Vec<String>) -> (r: Receipt)
    ensures
        r@ == repoured(opt_receipt(*existing), requested, texts(deps@)),
{
    let protected = match existing {
        Some(r) => r.protected,
        None => false,
    };
    Receipt { requested, protected, deps: text::copy_all(deps) }
}

/// The receipt that marks a keg as protected by a lockfile, so that autoremove
/// can never sweep it, without claiming that the user asked for it.
pub fn protect_keg(existing: &Option<Receipt>, deps: &Vec<String>) -> (r: Receipt)
    ensures
        r@ == shielded(opt_receipt(*existing), texts(deps@)),
{
    let requested = match existing {
        Some(r) => r.requested,
        None => false,
    };
    Receipt { requested, protected: true, deps: text::copy_all(deps) }
}

/// Law: protection survives every later pour of the keg, and protecting a keg
/// changes nothing about whether the user asked for it.
pub proof fn law_protection_lasts(
    existing: Option<ReceiptV>,
    deps: Seq<Seq<char>>,
    requested: bool,
    later: Seq<Seq<char>>,
)
    ensures
        repoured(Some(shielded(existing, deps)), requested, later).protected,
        shielded(existing, deps).requested == (existing matches Some(r) && r.requested),
        shielded(Some(shielded(existing, deps)), later) == shielded(existing, later),
{
}

/// Everything that pouring needs to know about one keg, independent of where
/// the metadata came from (live index or lockfile).
pub struct PourSpec {
    pub name: String,
    pub version: String,
    pub deps: Vec<String>,
    pub keg_only: bool,
    pub requested: bool,
    pub post_install: Vec<Json>,
}

/// What a `PourSpec` says.
pub struct PourSpecV {
    pub name: Seq<char>,
    pub version: Seq<char>,
    pub deps: Seq<Seq<char>>,
    pub keg_only: bool,
    pub requested: bool,
    pub post_install: Seq<JsonV>,
}

impl View for PourSpec {
    type V = PourSpecV;

    open spec fn view(&self) -> PourSpecV {
        PourSpecV {
            name: self.name@,
            version: self.version@,
            deps: texts(self.deps@),
            keg_only: self.keg_only,
            requested: self.requested,
            post_install: models(self.post_install@),
        }
    }
}

/// How a formula is poured.
pub open spec fn pouring_of(f: Formula, requested: bool) -> PourSpecV {
    PourSpecV {
        name: f.name@,
        version: f.keg_dir(),
        deps: texts(f.dependencies@),
        keg_only: f.keg_only,
        requested,
        post_install: models(f.post_install_steps@),
    }
}

impl PourSpec {
    /// How a formula is poured.
    pub fn from_formula(f: &Formula, requested: bool) -> (r: PourSpec)
        ensures
            r@ == pouring_of(*f, requested),
    {
        PourSpec {
            name: f.name.clone(),
            version: f.keg_version(),
            deps: text::copy_all(&f.dependencies),
            keg_only: f.keg_only,
            requested,
            post_install: json::copy_all(&f.post_install_steps),
        }
    }
}

impl Clone for PourSpec {
    /// A copy that says the same.
    fn clone(&self) -> (r: PourSpec)
        ensures
            r@ == self@,
    {
        PourSpec {
            name: self.name.clone(),
            version: self.version.clone(),
            deps: text::copy_all(&self.deps),
            keg_only: self.keg_only,
            requested: self.requested,
            post_install: json::copy_all(&self.post_install),
        }
    }
}

/// One unit of work: what to pour, which bottle blob to fetch, and which of
/// the names that the user asked for pulled it in.
pub struct InstallItem {
    pub spec: PourSpec,
    pub file: BottleFile,
    pub via: Option<String>,
}

/// What an `InstallItem` says.
pub struct ItemV {
    pub spec: PourSpecV,
    pub file: BottleFile,
    pub via: Option<Seq<char>>,
}

impl View for InstallItem {
    type V = ItemV;

    open spec fn view(&self) -> ItemV {
        ItemV { spec: self.spec@, file: self.file, via: opt_text(self.via) }
    }
}

/// What a list of items says.
pub open spec fn item_views(v: Seq<InstallItem>) -> Seq<ItemV> {
    v.map_values(|i: InstallItem| i@)
}

/// A plan without the references.
pub open spec fn planned(plan: Seq<&Formula>) -> Seq<Formula> {
    plan.map_values(|f: &Formula| *f)
}

/// The canonical names of those of the names that stand for a formula.
pub open spec fn canonical(fs: Seq<Formula>, names: Seq<Seq<char>>) -> Seq<Seq<char>>
    decreases names.len(),
{
    if names.len() == 0 {
        Seq::empty()
    } else {
        match lookup(fs, names.last()) {
            Some(i) => canonical(fs, names.drop_last()).push(fs[i].name@),
            None => canonical(fs, names.drop_last()),
        }
    }
}

/// The canonical names of what the user typed, who may have used an alias.
pub fn canonical_names(index: &Index, names: &Vec<String>) -> (r: Vec<String>)
    ensures
        texts(r@) == canonical(index@, texts(names@)),
{
    let mut r: Vec<String> = Vec::new();
    let ghost ns = texts(names@);
    assert(texts(r@) =~= canonical(index@, ns.take(0)));
    for i in 0..names.len()
        invariant
            ns == texts(names@),
            texts(r@) == canonical(index@, ns.take(i as int)),
    {
        proof {
            assert(ns.take(i + 1).drop_last() =~= ns.take(i as int));
            assert(ns.take(i + 1).last() == names@[i as int]@);
        }
        if let Some(f) = index.get(names[i].as_str()) {
            r.push(f.name.clone());
        }
    }
    assert(ns.take(names@.len() as int) =~= ns);
    r
}

/// The versions by which relocation pins the dependencies: that of the last
/// formula of each name in the plan.
pub open spec fn pins(fs: Seq<Formula>) -> Map<Seq<char>, Seq<char>>
    decreases fs.len(),
{
    if fs.len() == 0 {
        Map::empty()
    } else {
        pins(fs.drop_last()).insert(fs.last().name@, fs.last().keg_dir())
    }
}

/// The versions by which relocation pins the dependencies. They cover the
/// whole plan: what is installed already keeps its current version.
pub fn dep_versions(plan: &Vec<&Formula>) -> (r: StrMap<String>)
    ensures
        text_map(r@) == pins(planned(plan@)),
{
    let mut r: StrMap<String> = StrMap::new();
    let ghost fs = planned(plan@);
    assert(text_map(r@) =~= pins(fs.take(0)));
    for i in 0..plan.len()
        invariant
            fs == planned(plan@),
            text_map(r@) == pins(fs.take(i as int)),
    {
        let ghost before = r@;
        let f = plan[i];
        let version = f.keg_version();
        let ghost v = version;
        r.insert(f.name.clone(), version);
        proof {
            assert(fs.take(i + 1).drop_last() =~= fs.take(i as int));
            assert(fs.take(i + 1).last() == *f);
            assert(text_map(r@) =~= text_map(before).insert(f.name@, v@));
        }
    }
    assert(fs.take(plan@.len() as int) =~= fs);
    r
}

/// The keg of a formula.
pub open spec fn keg_of(ctx: Ctx, f: Formula) -> Seq<char> {
    ctx.keg_dir(f.name@, f.keg_dir())
}

/// The keg of a formula.
pub fn formula_keg(ctx: &Ctx, f: &Formula) -> (r: String)
    ensures
        r@ == keg_of(*ctx, *f),
{
    ctx.keg(f.name.as_str(), f.keg_version().as_str())
}

/// The kegs of a plan, in order.
pub fn plan_kegs(ctx: &Ctx, plan: &Vec<&Formula>) -> (r: Vec<String>)
    ensures
        texts(r@) == planned(plan@).map_values(|f: Formula| keg_of(*ctx, f)),
{
    let mut r: Vec<String> = Vec::new();
    for i in 0..plan.len()
        invariant
            r@.len() == i,
            forall|k: int| 0 <= k < i ==> (#[trigger] r@[k])@ == keg_of(*ctx, *plan@[k]),
    {
        r.push(formula_keg(ctx, plan[i]));
    }
    assert(texts(r@) =~= planned(plan@).map_values(|f: Formula| keg_of(*ctx, f)));
    r
}

/// The formulae of a plan whose kegs are not there.
pub open spec fn missing(ctx: Ctx, fs: Seq<Formula>, existing: Set<Seq<char>>) -> Seq<Formula> {
    fs.filter(|f: Formula| !existing.contains(keg_of(ctx, f)))
}

/// The formulae of a plan that the user asked for and whose kegs are there.
pub open spec fn promoted(
    ctx: Ctx,
    fs: Seq<Formula>,
    roots: Seq<Seq<char>>,
    existing: Set<Seq<char>>,
) -> Seq<Formula> {
    fs.filter(|f: Formula| roots.contains(f.name@) && existing.contains(keg_of(ctx, f)))
}

/// The formulae of a plan whose kegs are there and become "requested" by being
/// asked for, so that a later autoremove does not take them away.
pub fn promotions<'a>(
    ctx: &Ctx,
    plan: &Vec<&'a Formula>,
    roots: &Vec<String>,
    existing: &Vec<String>,
) -> (r: Vec<&'a Formula>)
    ensures
        planned(r@) == promoted(*ctx, planned(plan@), texts(roots@), texts(existing@).to_set()),
{
    let mut r: Vec<&'a Formula> = Vec::new();
    let ghost fs = planned(plan@);
    let ghost rs = texts(roots@);
    let ghost ex = texts(existing@).to_set();
    let ghost p = |f: Formula| rs.contains(f.name@) && ex.contains(keg_of(*ctx, f));
    assert(fs.take(0).filter(p) =~= Seq::empty()) by {
        reveal(Seq::filter);
    }
    assert(planned(r@) =~= Seq::empty());
    for i in 0..plan.len()
        invariant
            fs == planned(plan@),
            rs == texts(roots@),
            ex == texts(existing@).to_set(),
            p == (|f: Formula| rs.contains(f.name@) && ex.contains(keg_of(*ctx, f))),
            planned(r@) == fs.take(i as int).filter(p),
    {
        let f = plan[i];
        let ghost before = r@;
        proof {
            lemma_filter_step(fs, i as int, p);
            assert(fs[i as int] == *f);
        }
        if text::among(f.name.as_str(), roots) && text::among(formula_keg(ctx, f).as_str(), existing) {
            r.push(f);
            assert(planned(r@) =~= planned(before).push(*f));
        }
    }
    assert(fs.take(plan@.len() as int) =~= fs);
    r
}

/// Filtering one more item.
proof fn lemma_filter_step<T>(s: Seq<T>, i: int, p: spec_fn(T) -> bool)
    requires
        0 <= i < s.len(),
    ensures
        s.take(i + 1).filter(p) == if p(s[i]) {
            s.take(i).filter(p).push(s[i])
        } else {
            s.take(i).filter(p)
        },
{
    reveal(Seq::filter);
    assert(s.take(i + 1).drop_last() =~= s.take(i));
    assert(s.take(i + 1).last() == s[i]);
}

/// The formulae of a plan that are to be poured.
pub fn todo<'a>(ctx: &Ctx, plan: &Vec<&'a Formula>, existing: &Vec<String>) -> (r: Vec<&'a Formula>)
    ensures
        planned(r@) == missing(*ctx, planned(plan@), texts(existing@).to_set()),
{
    let mut r: Vec<&'a Formula> = Vec::new();
    let ghost fs = planned(plan@);
    let ghost ex = texts(existing@).to_set();
    let ghost p = |f: Formula| !ex.contains(keg_of(*ctx, f));
    assert(fs.take(0).filter(p) =~= Seq::empty()) by {
        reveal(Seq::filter);
    }
    assert(planned(r@) =~= Seq::empty());
    for i in 0..plan.len()
        invariant
            fs == planned(plan@),
            ex == texts(existing@).to_set(),
            p == (|f: Formula| !ex.contains(keg_of(*ctx, f))),
            planned(r@) == fs.take(i as int).filter(p),
    {
        let f = plan[i];
        let ghost before = r@;
        proof {
            lemma_filter_step(fs, i as int, p);
            assert(fs[i as int] == *f);
        }
        if !text::among(formula_keg(ctx, f).as_str(), existing) {
            r.push(f);
            assert(planned(r@) =~= planned(before).push(*f));
        }
    }
    assert(fs.take(plan@.len() as int) =~= fs);
    r
}

/// Asking for `root` alone brings in the formula `name`.
pub open spec fn brings(fs: Seq<Formula>, root: Seq<char>, name: Seq<char>) -> bool {
    resolution(fs, seq![root]) matches Ok(order) && names_of(fs, order).contains(name)
}

/// The first of the roots that brings in the formula `name`.
pub open spec fn first_to_bring(fs: Seq<Formula>, roots: Seq<Seq<char>>, name: Seq<char>) -> Option<Seq<char>>
    decreases roots.len(),
{
    if roots.len() == 0 {
        None
    } else if brings(fs, roots[0], name) {
        Some(roots[0])
    } else {
        first_to_bring(fs, roots.skip(1), name)
    }
}

/// Under which root a formula is shown: none for a root itself.
pub open spec fn attributed(fs: Seq<Formula>, roots: Seq<Seq<char>>, name: Seq<char>) -> Option<Seq<char>> {
    if roots.contains(name) {
        None
    } else {
        first_to_bring(fs, roots, name)
    }
}

/// Whether asking for `root` alone brings in the formula `name`.
fn does_bring(index: &Index, root: &str, name: &str) -> (r: bool)
    ensures
        r == brings(index@, root@, name@),
{
    let mut one: Vec<String> = Vec::new();
    one.push(root.to_string());
    assert(texts(one@) =~= seq![root@]);
    match resolver::resolve(index, &one) {
        Ok(plan) => {
            let ghost order = resolution(index@, seq![root@])->Ok_0;
            for i in 0..plan.len()
                invariant
                    resolution(index@, seq![root@]) == Ok::<Seq<int>, resolver::ResolveErrorV>(order),
                    plan@.len() == order.len(),
                    forall|p: int| 0 <= p < order.len() ==> *(#[trigger] plan@[p]) == index@[order[p]],
                    forall|p: int| 0 <= p < i ==> names_of(index@, order)[p] != name@,
            {
                assert(names_of(index@, order)[i as int] == plan@[i as int].name@);
                if text::same(plan[i].name.as_str(), name) {
                    assert(names_of(index@, order).contains(name@));
                    return true;
                }
            }
            false
        },
        Err(_) => false,
    }
}

/// Under which root a formula is shown.
pub fn attribute(index: &Index, roots: &Vec<String>, name: &str) -> (r: Option<String>)
    ensures
        opt_text(r) == attributed(index@, texts(roots@), name@),
{
    assert(texts(roots@).to_set().contains(name@) == texts(roots@).contains(name@));
    if text::among(name, roots) {
        return None;
    }
    let ghost rs = texts(roots@);
    assert(rs.skip(0) =~= rs);
    for i in 0..roots.len()
        invariant
            rs == texts(roots@),
            !rs.contains(name@),
            first_to_bring(index@, rs.skip(i as int), name@) == first_to_bring(index@, rs, name@),
    {
        assert(rs.skip(i as int)[0] == roots@[i as int]@);
        if does_bring(index, roots[i].as_str(), name) {
            return Some(roots[i].clone());
        }
        assert(rs.skip(i as int).skip(1) =~= rs.skip(i + 1));
    }
    None
}

/// How one formula of a plan is installed, where it has a bottle.
pub open spec fn item_for(
    arch: Arch,
    fs: Seq<Formula>,
    roots: Seq<Seq<char>>,
    requested: bool,
    f: Formula,
) -> ItemV {
    ItemV {
        spec: pouring_of(f, requested),
        file: (choice(arch, f)->0).1,
        via: attributed(fs, roots, f.name@),
    }
}

/// How the formulae of a plan that are not there are installed: every one with
/// the bottle for this processor, those that the user asked for as such, the
/// others under the first root that brought them in. The first formula without
/// a bottle is an error.
pub fn install_all(
    arch: Arch,
    ctx: &Ctx,
    index: &Index,
    plan: &Vec<&Formula>,
    roots: &Vec<String>,
    existing: &Vec<String>,
) -> (r: Result<Vec<InstallItem>, PickError>)
    ensures
        ({
            let work = missing(*ctx, planned(plan@), texts(existing@).to_set());
            let rs = texts(roots@);
            match r {
                Ok(items) => items@.len() == work.len() && forall|i: int|
                    0 <= i < work.len() ==> choice(arch, #[trigger] work[i]) is Some && items@[i]@
                        == item_for(arch, index@, rs, rs.contains(work[i].name@), work[i]),
                Err(e) => exists|i: int|
                    0 <= i < work.len() && refused(arch, work[i], e) && forall|j: int|
                        0 <= j < i ==> choice(arch, #[trigger] work[j]) is Some,
            }
        }),
{
    let work = todo(ctx, plan, existing);
    let ghost fs = planned(work@);
    let ghost rs = texts(roots@);
    let mut items: Vec<InstallItem> = Vec::new();
    for i in 0..work.len()
        invariant
            fs == planned(work@),
            fs == missing(*ctx, planned(plan@), texts(existing@).to_set()),
            rs == texts(roots@),
            items@.len() == i,
            forall|k: int|
                0 <= k < i ==> choice(arch, #[trigger] fs[k]) is Some && items@[k]@ == item_for(
                    arch,
                    index@,
                    rs,
                    rs.contains(fs[k].name@),
                    fs[k],
                ),
    {
        let f = work[i];
        assert(fs[i as int] == *f);
        match bottle::pick(arch, f) {
            Ok(picked) => {
                assert(rs.to_set().contains(f.name@) == rs.contains(f.name@));
                let requested = text::among(f.name.as_str(), roots);
                items.push(
                    InstallItem {
                        spec: PourSpec::from_formula(f, requested),
                        file: picked.file.clone(),
                        via: attribute(index, roots, f.name.as_str()),
                    },
                );
            },
            Err(e) => {
                assert(refused(arch, fs[i as int], e));
                return Err(e);
            },
        }
    }
    Ok(items)
}

/// Every formula of a plan is pinned, where names are distinct at its own
/// version.
proof fn lemma_pins(fs: Seq<Formula>, p: int)
    requires
        0 <= p < fs.len(),
    ensures
        pins(fs).contains_key(fs[p].name@),
        fs.map_values(|f: Formula| f.name@).no_duplicates() ==> pins(fs)[fs[p].name@] == fs[p].keg_dir(),
    decreases fs.len(),
{
    if p < fs.len() - 1 {
        let ns = fs.map_values(|f: Formula| f.name@);
        lemma_pins(fs.drop_last(), p);
        assert(fs.drop_last()[p] == fs[p]);
        if ns.no_duplicates() {
            assert(ns[p] != ns[fs.len() - 1]);
            assert(fs.drop_last().map_values(|f: Formula| f.name@) =~= ns.drop_last());
        }
    }
}

/// Law: the pins of an install order cover it: every formula in it is pinned
/// at its own version, and so is every formula that a dependency stands for.
pub proof fn law_pins_cover_the_plan(fs: Seq<Formula>, roots: Seq<Seq<char>>, order: Seq<int>)
    requires
        resolution(fs, roots) == Ok::<Seq<int>, ResolveErrorV>(order),
    ensures
        ({
            let plan = arranged(fs, order);
            &&& forall|p: int|
                0 <= p < plan.len() ==> pins(plan).contains_key((#[trigger] plan[p]).name@) && pins(
                    plan,
                )[plan[p].name@] == plan[p].keg_dir()
            &&& forall|p: int, k: int|
                0 <= p < order.len() && 0 <= k < deps_of(fs, order[p]).len() ==> lookup(
                    fs,
                    #[trigger] deps_of(fs, order[p])[k],
                ) is Some && pins(plan).contains_key(
                    fs[lookup(fs, deps_of(fs, order[p])[k])->0].name@,
                )
        }),
{
    let plan = arranged(fs, order);
    resolver::law_deps_before_dependents(fs, roots, order);
    assert(plan.map_values(|f: Formula| f.name@) =~= names_of(fs, order));
    assert forall|p: int| 0 <= p < plan.len() implies pins(plan).contains_key((#[trigger] plan[p]).name@)
        && pins(plan)[plan[p].name@] == plan[p].keg_dir() by {
        lemma_pins(plan, p);
    }
    assert forall|p: int, k: int|
        0 <= p < order.len() && 0 <= k < deps_of(fs, order[p]).len() implies lookup(
        fs,
        #[trigger] deps_of(fs, order[p])[k],
    ) is Some && pins(plan).contains_key(fs[lookup(fs, deps_of(fs, order[p])[k])->0].name@) by {
        let d = deps_of(fs, order[p])[k];
        assert(resolver::settled(fs, order, p, d));
        let ns = names_of(fs, order.take(p));
        let n = fs[lookup(fs, d)->0].name@;
        let q = choose|q: int| 0 <= q < ns.len() && ns[q] == n;
        assert(plan[q].name@ == n);
        lemma_pins(plan, q);
    }
}

/// The canonical name of each name that stands for a formula is listed.
proof fn lemma_canonical(fs: Seq<Formula>, names: Seq<Seq<char>>, k: int)
    requires
        0 <= k < names.len(),
        lookup(fs, names[k]) is Some,
    ensures
        canonical(fs, names).contains(fs[lookup(fs, names[k])->0].name@),
    decreases names.len(),
{
    let n = fs[lookup(fs, names[k])->0].name@;
    let before = canonical(fs, names.drop_last());
    if k == names.len() - 1 {
        assert(canonical(fs, names)[before.len() as int] == n);
    } else {
        lemma_canonical(fs, names.drop_last(), k);
        let q = choose|q: int| 0 <= q < before.len() && before[q] == n;
        assert(canonical(fs, names)[q] == n);
    }
}

/// If some root brings a formula in, there is a first to do so.
proof fn lemma_first_to_bring(fs: Seq<Formula>, roots: Seq<Seq<char>>, name: Seq<char>, k: int)
    requires
        0 <= k < roots.len(),
        brings(fs, roots[k], name),
    ensures
        first_to_bring(fs, roots, name) matches Some(r) && roots.contains(r) && brings(fs, r, name),
    decreases roots.len(),
{
    if brings(fs, roots[0], name) {
        assert(roots.contains(roots[0]));
    } else {
        lemma_first_to_bring(fs, roots.skip(1), name, k - 1);
        let r = first_to_bring(fs, roots.skip(1), name)->0;
        let q = choose|q: int| 0 <= q < roots.skip(1).len() && roots.skip(1)[q] == r;
        assert(roots[q + 1] == r);
    }
}

/// What is reached from one of the names is reached from all of them.
proof fn lemma_reached_from_one(fs: Seq<Formula>, names: Seq<Seq<char>>, k: int, root: Seq<char>, j: int)
    requires
        0 <= k < names.len(),
        lookup(fs, root) is Some,
        lookup(fs, names[k]) == lookup(fs, root),
        reached(fs, seq![root], j),
    ensures
        reached(fs, names, j),
{
    let chain = choose|c: Seq<int>| #[trigger] reaches(fs, seq![root], c, j);
    assert(lookup(fs, names[k]) == Some(chain[0]));
    assert(reaches(fs, names, chain, j));
}

/// What can be resolved together can be resolved alone.
proof fn lemma_alone_resolves(fs: Seq<Formula>, names: Seq<Seq<char>>, k: int, root: Seq<char>)
    requires
        resolver::unambiguous(fs, names),
        resolution(fs, names) is Ok,
        0 <= k < names.len(),
        lookup(fs, root) is Some,
        lookup(fs, names[k]) == lookup(fs, root),
    ensures
        resolver::unambiguous(fs, seq![root]),
        resolution(fs, seq![root]) is Ok,
{
    let one = seq![root];
    assert forall|i: int, j: int| #[trigger]
        reached(fs, one, i) && #[trigger] reached(fs, one, j) && fs[i].name@ == fs[j].name@ implies i == j by {
        lemma_reached_from_one(fs, names, k, root, i);
        lemma_reached_from_one(fs, names, k, root, j);
    }
    resolver::law_resolves_unless_unknown_or_cyclic(fs, names);
    resolver::law_resolves_unless_unknown_or_cyclic(fs, one);
    assert forall|n: Seq<char>, d: Seq<char>| !resolver::dangling(fs, one, n, d) by {
        if resolver::dangling(fs, one, n, d) {
            let q = choose|q: int|
                #[trigger] reached(fs, one, q) && fs[q].name@ == n && deps_of(fs, q).contains(d);
            lemma_reached_from_one(fs, names, k, root, q);
            assert(resolver::dangling(fs, names, n, d));
        }
    }
    assert forall|n: Seq<char>| !resolver::cyclic(fs, one, n) by {
        if resolver::cyclic(fs, one, n) {
            let round = choose|c: Seq<int>| #[trigger] resolver::loops_back(fs, one, c, n);
            assert forall|q: int| 0 <= q < round.len() implies reached(fs, names, #[trigger] round[q]) by {
                assert(reached(fs, one, round[q]));
                lemma_reached_from_one(fs, names, k, root, round[q]);
            }
            assert(resolver::loops_back(fs, names, round, n));
            assert(resolver::cyclic(fs, names, n));
        }
    }
    assert forall|n: Seq<char>| one.contains(n) implies lookup(fs, n) is Some by {
        assert(n == root);
    }
}

/// What is in an install order is reached.
proof fn lemma_in_order_reached(fs: Seq<Formula>, names: Seq<Seq<char>>, order: Seq<int>, p: int)
    requires
        resolution(fs, names) == Ok::<Seq<int>, ResolveErrorV>(order),
        0 <= p < order.len(),
    ensures
        reached(fs, names, order[p]),
{
    resolver::law_only_what_is_needed(fs, names);
    let o = resolution(fs, names)->Ok_0;
    assert(reached(fs, names, o[p]));
}

/// What a chain of needed formulae leads to is brought in by its start.
proof fn lemma_chain_brings(fs: Seq<Formula>, root: Seq<char>, chain: Seq<int>, j: int)
    requires
        resolver::unambiguous(fs, seq![root]),
        resolution(fs, seq![root]) is Ok,
        lookup(fs, root) == Some(chain[0]),
        chain.len() > 0,
        chain.last() == j,
        resolver::chained(fs, chain),
    ensures
        brings(fs, root, fs[j].name@),
{
    let one = seq![root];
    let alone = resolution(fs, one)->Ok_0;
    assert(lookup(fs, one[0]) == Some(chain[0]));
    assert(reaches(fs, one, chain, j));
    resolver::lemma_reached_in_order(fs, one, alone, chain, j);
    let q = choose|q: int| 0 <= q < alone.len() && alone[q] == j;
    assert(names_of(fs, alone)[q] == fs[j].name@);
}

/// The canonical name of each requested formula stands for that formula.
pub open spec fn self_named(fs: Seq<Formula>, names: Seq<Seq<char>>) -> bool {
    forall|k: int|
        0 <= k < names.len() && lookup(fs, #[trigger] names[k]) is Some ==> lookup(
            fs,
            fs[lookup(fs, names[k])->0].name@,
        ) == lookup(fs, names[k])
}

/// Law: everything in an install order is one of the formulae that the user
/// asked for, or is shown under one of them that brings it in, provided that
/// no two formulae that are reached share a name and that the canonical names
/// of the requested formulae stand for them.
pub proof fn law_dependencies_are_attributed(
    fs: Seq<Formula>,
    names: Seq<Seq<char>>,
    order: Seq<int>,
    p: int,
)
    requires
        resolver::unambiguous(fs, names),
        self_named(fs, names),
        resolution(fs, names) == Ok::<Seq<int>, ResolveErrorV>(order),
        0 <= p < order.len(),
    ensures
        ({
            let roots = canonical(fs, names);
            let name = fs[order[p]].name@;
            roots.contains(name) || (attributed(fs, roots, name) matches Some(r) && roots.contains(r)
                && brings(fs, r, name))
        }),
{
    let roots = canonical(fs, names);
    let j = order[p];
    let name = fs[j].name@;
    lemma_in_order_reached(fs, names, order, p);
    let chain = choose|c: Seq<int>| #[trigger] reaches(fs, names, c, j);
    let k = choose|k: int| 0 <= k < names.len() && lookup(fs, #[trigger] names[k]) == Some(chain[0]);
    crate::api::lemma_lookup(fs, names[k]);
    let root = fs[chain[0]].name@;
    lemma_canonical(fs, names, k);
    lemma_alone_resolves(fs, names, k, root);
    lemma_chain_brings(fs, root, chain, j);
    let at = choose|at: int| 0 <= at < roots.len() && roots[at] == root;
    lemma_first_to_bring(fs, roots, name, at);
}

/// Law: every formula is poured as the index describes it: under its name, in
/// the current version, with its dependencies and its steps, keg-only if and only
/// if it is described so, and requested if and only if the user asked for it.
pub proof fn law_formulae_are_poured_as_described(f: Formula, requested: bool)
    ensures
        ({
            let spec = pouring_of(f, requested);
            &&& spec.name == f.name@
            &&& crate::installed::current_version(f, spec.version)
            &&& spec.deps == texts(f.dependencies@)
            &&& spec.keg_only == f.keg_only
            &&& spec.requested == requested
            &&& spec.post_install == models(f.post_install_steps@)
        }),
{
}

/// Law: the items of an installation are the formulae of the plan whose kegs are
/// not there, in order, each as the index describes it; those that the user
/// named count as requested, the others do not.
pub proof fn law_items_are_the_missing_formulae(
    arch: Arch,
    ctx: Ctx,
    fs: Seq<Formula>,
    plan: Seq<Formula>,
    roots: Seq<Seq<char>>,
    existing: Set<Seq<char>>,
    items: Seq<ItemV>,
)
    requires
        ({
            let work = missing(ctx, plan, existing);
            &&& items.len() == work.len()
            &&& forall|i: int|
                0 <= i < work.len() ==> #[trigger] items[i] == item_for(
                    arch,
                    fs,
                    roots,
                    roots.contains(work[i].name@),
                    work[i],
                )
        }),
    ensures
        picks(plan.len() as int, poured_at(ctx, plan, roots, existing), items.map_values(|i: ItemV| i.spec)),
{
    let work = missing(ctx, plan, existing);
    let p = poured_at(ctx, plan, roots, existing);
    lemma_missing(ctx, plan, roots, existing, plan.len() as int);
    assert(plan.take(plan.len() as int) =~= plan);
    let want = work.map_values(|f: Formula| pouring_of(f, roots.contains(f.name@)));
    assert(items.map_values(|i: ItemV| i.spec) =~= want);
}

/// `spec` is how the formula at `i` of a plan is poured, where its keg is not
/// there.
pub open spec fn poured_at(
    ctx: Ctx,
    plan: Seq<Formula>,
    roots: Seq<Seq<char>>,
    existing: Set<Seq<char>>,
) -> spec_fn(int, PourSpecV) -> bool {
    |i: int, spec: PourSpecV|
        {
            let f = plan[i];
            &&& crate::installed::current_version(f, spec.version)
            &&& !existing.contains(ctx.keg_dir(f.name@, spec.version))
            &&& spec.name == f.name@
            &&& spec.deps == texts(f.dependencies@)
            &&& spec.keg_only == f.keg_only
            &&& spec.requested == roots.contains(f.name@)
            &&& spec.post_install == models(f.post_install_steps@)
        }
}

/// The missing ones of the first formulae.
proof fn lemma_missing(
    ctx: Ctx,
    plan: Seq<Formula>,
    roots: Seq<Seq<char>>,
    existing: Set<Seq<char>>,
    n: int,
)
    requires
        0 <= n <= plan.len(),
    ensures
        picks(
            n,
            poured_at(ctx, plan, roots, existing),
            missing(ctx, plan.take(n), existing).map_values(
                |f: Formula| pouring_of(f, roots.contains(f.name@)),
            ),
        ),
    decreases n,
{
    let p = poured_at(ctx, plan, roots, existing);
    let how = |f: Formula| pouring_of(f, roots.contains(f.name@));
    let keep = |f: Formula| !existing.contains(keg_of(ctx, f));
    let now = missing(ctx, plan.take(n), existing);
    if n == 0 {
        reveal(Seq::filter);
        assert(plan.take(0) =~= Seq::empty());
        assert(now.map_values(how) =~= Seq::empty());
        picks::lemma_pick_start(p);
    } else {
        let m = n - 1;
        lemma_missing(ctx, plan, roots, existing, m);
        let before = missing(ctx, plan.take(m), existing);
        let f = plan[m];
        lemma_filter_step(plan, m, keep);
        assert(now == plan.take(m + 1).filter(keep));
        assert(before == plan.take(m).filter(keep));
        if keep(f) {
            assert(now.map_values(how) =~= before.map_values(how).push(how(f)));
            assert(p(m, how(f)));
            picks::lemma_pick_one(m, p, before.map_values(how), how(f));
        } else {
            assert(now.map_values(how) =~= before.map_values(how));
            assert forall|spec: PourSpecV| !#[trigger] p(m, spec) by {
                if p(m, spec) {
                    assert(spec.version == f.keg_dir());
                }
            }
            picks::lemma_pick_none(m, p, before.map_values(how));
        }
    }
}

/// Law: the formulae that become requested are exactly those of the plan that
/// the user named and whose kegs are there.
pub proof fn law_promotions_are_named_and_there(
    ctx: Ctx,
    plan: Seq<Formula>,
    roots: Seq<Seq<char>>,
    existing: Set<Seq<char>>,
)
    ensures
        forall|f: Formula| #[trigger]
            promoted(ctx, plan, roots, existing).contains(f) <==> plan.contains(f) && roots.contains(f.name@)
                && existing.contains(ctx.keg_dir(f.name@, f.keg_dir())),
{
    let p = |f: Formula| roots.contains(f.name@) && existing.contains(keg_of(ctx, f));
    assert forall|f: Formula| #[trigger]
        promoted(ctx, plan, roots, existing).contains(f) <==> plan.contains(f) && roots.contains(f.name@)
            && existing.contains(ctx.keg_dir(f.name@, f.keg_dir())) by {
        if promoted(ctx, plan, roots, existing).contains(f) {
            let r = plan.filter(p);
            let i = choose|i: int| 0 <= i < r.len() && r[i] == f;
            plan.lemma_filter_contains_rev(p, f);
            plan.lemma_filter_pred(p, i);
        }
        if plan.contains(f) && roots.contains(f.name@) && existing.contains(
            ctx.keg_dir(f.name@, f.keg_dir()),
        ) {
            let i = choose|i: int| 0 <= i < plan.len() && plan[i] == f;
            plan.lemma_filter_contains(p, i);
        }
    }
}

/// Names that stand for a formula, with the name of that formula.
pub open spec fn canonical_at(fs: Seq<Formula>, names: Seq<Seq<char>>) -> spec_fn(int, Seq<char>) -> bool {
    |i: int, n: Seq<char>| lookup(fs, names[i]) is Some && n == fs[lookup(fs, names[i])->0].name@
}

/// The canonical names of the first names.
proof fn lemma_canonical_names(fs: Seq<Formula>, names: Seq<Seq<char>>, n: int)
    requires
        0 <= n <= names.len(),
    ensures
        picks(n, canonical_at(fs, names), canonical(fs, names.take(n))),
    decreases n,
{
    let p = canonical_at(fs, names);
    if n == 0 {
        assert(names.take(0) =~= Seq::empty());
        picks::lemma_pick_start(p);
    } else {
        lemma_canonical_names(fs, names, n - 1);
        assert(names.take(n).drop_last() =~= names.take(n - 1));
        let before = canonical(fs, names.take(n - 1));
        match lookup(fs, names[n - 1]) {
            Some(i) => {
                assert(p(n - 1, fs[i].name@));
                picks::lemma_pick_one(n - 1, p, before, fs[i].name@);
            },
            None => {
                picks::lemma_pick_none(n - 1, p, before);
            },
        }
    }
}

/// Law: every name that stands for a formula becomes the name of that formula,
/// in order.
pub proof fn law_names_become_canonical(fs: Seq<Formula>, names: Seq<Seq<char>>)
    ensures
        picks(names.len() as int, canonical_at(fs, names), canonical(fs, names)),
{
    lemma_canonical_names(fs, names, names.len() as int);
    assert(names.take(names.len() as int) =~= names);
}

/// Law: a keg that is poured again keeps its protection, and otherwise has what
/// the pour says; one that is protected has the dependencies that it is
/// protected with.
pub proof fn law_receipts_say_what_was_poured(
    existing: Option<ReceiptV>,
    requested: bool,
    deps: Seq<Seq<char>>,
)
    ensures
        repoured(existing, requested, deps).requested == requested,
        repoured(existing, requested, deps).deps == deps,
        repoured(existing, requested, deps).protected == (existing is Some && (existing->0).protected),
        shielded(existing, deps).protected,
        shielded(existing, deps).deps == deps,
        shielded(existing, deps).requested == (existing is Some && (existing->0).requested),
{
}

/// Law: a formula is shown under the first of the roots that brings it in when
/// it is asked for alone; a root is shown under none, and neither is a formula
/// that no root brings in.
pub proof fn law_the_first_root_wins(fs: Seq<Formula>, roots: Seq<Seq<char>>, name: Seq<char>)
    ensures
        roots.contains(name) ==> attributed(fs, roots, name) is None,
        !roots.contains(name) ==> match attributed(fs, roots, name) {
            Some(r) => exists|k: int|
                0 <= k < roots.len() && #[trigger] roots[k] == r && comes_with(fs, r, name) && forall|j: int|
                    0 <= j < k ==> !comes_with(fs, #[trigger] roots[j], name),
            None => forall|j: int| 0 <= j < roots.len() ==> !comes_with(fs, #[trigger] roots[j], name),
        },
{
    lemma_first_root(fs, roots, name);
}

/// The install order for `root` alone holds a formula of the given name.
pub open spec fn comes_with(fs: Seq<Formula>, root: Seq<char>, name: Seq<char>) -> bool {
    resolution(fs, seq![root]) is Ok && exists|p: int|
        0 <= p < (resolution(fs, seq![root])->Ok_0).len() && fs[#[trigger] (resolution(
            fs,
            seq![root],
        )->Ok_0)[p]].name@ == name
}

proof fn lemma_comes_with(fs: Seq<Formula>, root: Seq<char>, name: Seq<char>)
    ensures
        comes_with(fs, root, name) == brings(fs, root, name),
{
    if let Ok(o) = resolution(fs, seq![root]) {
        let ns = names_of(fs, o);
        if ns.contains(name) {
            let p = choose|p: int| 0 <= p < ns.len() && ns[p] == name;
            assert(fs[(resolution(fs, seq![root])->Ok_0)[p]].name@ == name);
        }
        if comes_with(fs, root, name) {
            let p = choose|p: int|
                0 <= p < (resolution(fs, seq![root])->Ok_0).len() && fs[#[trigger] (resolution(
                    fs,
                    seq![root],
                )->Ok_0)[p]].name@ == name;
            assert(ns[p] == name);
        }
    }
}

proof fn lemma_first_root(fs: Seq<Formula>, roots: Seq<Seq<char>>, name: Seq<char>)
    ensures
        match first_to_bring(fs, roots, name) {
            Some(r) => exists|k: int|
                0 <= k < roots.len() && #[trigger] roots[k] == r && comes_with(fs, r, name) && forall|j: int|
                    0 <= j < k ==> !comes_with(fs, #[trigger] roots[j], name),
            None => forall|j: int| 0 <= j < roots.len() ==> !comes_with(fs, #[trigger] roots[j], name),
        },
    decreases roots.len(),
{
    if roots.len() > 0 {
        lemma_comes_with(fs, roots[0], name);
        if brings(fs, roots[0], name) {
            assert(roots[0] == first_to_bring(fs, roots, name)->0);
        } else {
            let rest = roots.skip(1);
            lemma_first_root(fs, rest, name);
            match first_to_bring(fs, rest, name) {
                Some(r) => {
                    let k = choose|k: int|
                        0 <= k < rest.len() && #[trigger] rest[k] == r && comes_with(fs, r, name) && forall|j: int|
                            0 <= j < k ==> !comes_with(fs, #[trigger] rest[j], name);
                    assert(roots[k + 1] == r);
                    assert forall|j: int| 0 <= j < k + 1 implies !comes_with(fs, #[trigger] roots[j], name) by {
                        if j > 0 {
                            assert(rest[j - 1] == roots[j]);
                        }
                    }
                },
                None => {
                    assert forall|j: int| 0 <= j < roots.len() implies !comes_with(
                        fs,
                        #[trigger] roots[j],
                        name,
                    ) by {
                        if j > 0 {
                            assert(rest[j - 1] == roots[j]);
                        }
                    }
                },
            }
        }
    }
}

/// Law: exactly the formulae of a plan are pinned, each name at the current
/// version of the last formula that has it.
pub proof fn law_plans_pin_their_formulae(fs: Seq<Formula>)
    ensures
        forall|n: Seq<char>| #[trigger]
            pins(fs).contains_key(n) <==> exists|i: int| 0 <= i < fs.len() && (#[trigger] fs[i]).name@ == n,
        forall|n: Seq<char>| #[trigger]
            pins(fs).contains_key(n) ==> exists|i: int|
                0 <= i < fs.len() && (#[trigger] fs[i]).name@ == n && crate::installed::current_version(
                    fs[i],
                    pins(fs)[n],
                ) && forall|j: int| i < j < fs.len() ==> (#[trigger] fs[j]).name@ != n,
    decreases fs.len(),
{
    if fs.len() > 0 {
        let init = fs.drop_last();
        law_plans_pin_their_formulae(init);
        assert(fs[fs.len() - 1] == fs.last());
        assert forall|n: Seq<char>| #[trigger]
            pins(fs).contains_key(n) <==> exists|i: int| 0 <= i < fs.len() && (#[trigger] fs[i]).name@ == n by {
            if pins(init).contains_key(n) {
                let i = choose|i: int| 0 <= i < init.len() && (#[trigger] init[i]).name@ == n;
                assert(fs[i].name@ == n);
            }
            if exists|i: int| 0 <= i < fs.len() && (#[trigger] fs[i]).name@ == n {
                let i = choose|i: int| 0 <= i < fs.len() && (#[trigger] fs[i]).name@ == n;
                if i < init.len() {
                    assert(init[i].name@ == n);
                }
            }
        }
        assert forall|n: Seq<char>| #[trigger] pins(fs).contains_key(n) implies exists|i: int|
            0 <= i < fs.len() && (#[trigger] fs[i]).name@ == n && crate::installed::current_version(
                fs[i],
                pins(fs)[n],
            ) && forall|j: int| i < j < fs.len() ==> (#[trigger] fs[j]).name@ != n by {
            if n == fs.last().name@ {
                assert(fs[fs.len() - 1].name@ == n);
            } else {
                let i = choose|i: int|
                    0 <= i < init.len() && (#[trigger] init[i]).name@ == n && crate::installed::current_version(
                        init[i],
                        pins(init)[n],
                    ) && forall|j: int| i < j < init.len() ==> (#[trigger] init[j]).name@ != n;
                assert(fs[i].name@ == n);
                assert forall|j: int| i < j < fs.len() implies (#[trigger] fs[j]).name@ != n by {
                    if j < init.len() {
                        assert(init[j] == fs[j]);
                    }
                }
            }
        }
    }
}

/// Law: what is said of a receipt, of how a formula is poured and of an item of
/// an installation is what their fields hold.
pub proof fn law_items_are_read_as_they_are(r: Receipt, o: Option<Receipt>, p: PourSpec, v: Seq<InstallItem>, i: int)
    ensures
        r@.requested == r.requested,
        r@.protected == r.protected,
        r@.deps == texts(r.deps@),
        opt_receipt(o) is Some <==> o is Some,
        o matches Some(x) ==> opt_receipt(o) == Some(x@),
        p@.name == p.name@,
        p@.version == p.version@,
        p@.deps == texts(p.deps@),
        p@.keg_only == p.keg_only,
        p@.requested == p.requested,
        p@.post_install == models(p.post_install@),
        item_views(v).len() == v.len(),
        0 <= i < v.len() ==> item_views(v)[i].spec == v[i].spec@ && item_views(v)[i].file == v[i].file
            && item_views(v)[i].via == opt_text(v[i].via),
{
}

} // verus!
