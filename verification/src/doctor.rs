//! Whether the Cellar is healthy: no dangling links, every prefix-local dylib
//! reference resolves, and signatures are valid.

use vstd::prelude::*;

use crate::ctx::Ctx;
use crate::installed::{CellarEntry, KegEntry};
use crate::path;
use crate::path::below;
use crate::picks;
use crate::picks::picks;
use crate::text;
use crate::text::{decimal, has_part, has_prefix, line_seq, texts, trimmed, until};
use crate::ui::CHECK;

verus! {

broadcast use text::lemma_texts_push;

/// The reference in a line that `otool -L` prints: what stands before the
/// versions in round brackets.
pub open spec fn reference(line: Seq<char>) -> Seq<char> {
    trimmed(until(trimmed(line), " ("@))
}

/// The references in what `otool -L` prints: one in each line but the first.
pub open spec fn references(output: Seq<char>) -> Seq<Seq<char>> {
    let lines = line_seq(output);
    Seq::new(
        if lines.len() == 0 {
            0
        } else {
            (lines.len() - 1) as nat
        },
        |i: int| reference(lines[i + 1]),
    )
}

/// The references in what `otool -L` prints.
pub fn dylib_refs(output: &str) -> (r: Vec<String>)
    ensures
        texts(r@) == references(output@),
{
    let lines = text::lines(output);
    let ghost ls = line_seq(output@);
    let mut r: Vec<String> = Vec::new();
    let mut i: usize = 1;
    assert(texts(lines@).len() == lines@.len());
    while i < lines.len()
        invariant
            ls == texts(lines@),
            ls == line_seq(output@),
            ls.len() == lines@.len(),
            1 <= i,
            lines@.len() > 0 ==> i <= lines@.len() && r@.len() == i - 1,
            lines@.len() == 0 ==> r@.len() == 0,
            forall|k: int| 0 <= k < r@.len() ==> (#[trigger] r@[k])@ == reference(ls[k + 1]),
        decreases lines@.len() - i,
    {
        assert(ls[i as int] == lines@[i as int]@);
        let inner = text::trim(lines[i].as_str());
        r.push(text::trim(text::before(inner.as_str(), " (").as_str()));
        i = i + 1;
    }
    assert(texts(r@) =~= references(output@));
    r
}

/// What is wrong with one reference of the file `p`.
pub open spec fn reference_problems(
    p: Seq<char>,
    prefix: Seq<char>,
    existing: Set<Seq<char>>,
    dep: Seq<char>,
) -> Seq<Seq<char>> {
    (if has_prefix(dep, prefix) && !existing.contains(dep) {
        seq![p + ": missing dylib "@ + dep]
    } else {
        Seq::empty()
    }) + (if has_part(dep, "@@HOMEBREW"@) {
        seq![p + ": unrelocated placeholder "@ + dep]
    } else {
        Seq::empty()
    })
}

/// What is wrong with several references of the file `p`.
pub open spec fn all_problems(
    p: Seq<char>,
    prefix: Seq<char>,
    existing: Set<Seq<char>>,
    deps: Seq<Seq<char>>,
) -> Seq<Seq<char>>
    decreases deps.len(),
{
    if deps.len() == 0 {
        Seq::empty()
    } else {
        all_problems(p, prefix, existing, deps.drop_last()) + reference_problems(
            p,
            prefix,
            existing,
            deps.last(),
        )
    }
}

/// What is wrong with the Mach-O file `p`, given its references, which of them
/// exist, and whether its signature is valid (both as far as they could be
/// found out).
pub fn check_macho(
    p: &str,
    prefix: &str,
    refs: &Vec<String>,
    existing: &Vec<String>,
    signed: Option<bool>,
) -> (r: Vec<String>)
    ensures
        texts(r@) == all_problems(p@, prefix@, texts(existing@).to_set(), texts(refs@)) + if signed
            == Some(false) {
            seq![p@ + ": invalid code signature"@]
        } else {
            Seq::empty()
        },
{
    let ghost ds = texts(refs@);
    let ghost ex = texts(existing@).to_set();
    let mut r: Vec<String> = Vec::new();
    assert(texts(r@) =~= all_problems(p@, prefix@, ex, ds.take(0)));
    for i in 0..refs.len()
        invariant
            ds == texts(refs@),
            ex == texts(existing@).to_set(),
            texts(r@) == all_problems(p@, prefix@, ex, ds.take(i as int)),
    {
        let dep = refs[i].as_str();
        let ghost before = texts(r@);
        proof {
            assert(ds.take(i + 1).drop_last() =~= ds.take(i as int));
            assert(ds.take(i + 1).last() == dep@);
        }
        if text::starts_with(dep, prefix) && !text::among(dep, existing) {
            r.push(p.to_string().concat(": missing dylib ").concat(dep));
        }
        if text::contains(dep, "@@HOMEBREW") {
            r.push(p.to_string().concat(": unrelocated placeholder ").concat(dep));
        }
        assert(texts(r@) =~= before + reference_problems(p@, prefix@, ex, dep@));
    }
    assert(ds.take(refs@.len() as int) =~= ds);
    let ghost found = texts(r@);
    if let Some(valid) = signed {
        if !valid {
            r.push(p.to_string().concat(": invalid code signature"));
        }
    }
    assert(texts(r@) =~= found + if signed == Some(false) {
        seq![p@ + ": invalid code signature"@]
    } else {
        Seq::empty()
    });
    r
}

/// What is wrong with an entry of a shared directory: it is a link to nothing.
pub fn dangling(p: &str, is_link: bool, present: bool) -> (r: Option<String>)
    ensures
        if is_link && !present {
            r matches Some(problem) && problem@ == "dangling symlink: "@ + p@
        } else {
            r is None
        },
{
    if is_link && !present {
        Some("dangling symlink: ".to_string().concat(p))
    } else {
        None
    }
}

/// The directories in which links are looked over: those that all kegs share.
pub fn shared_dirs(ctx: &Ctx) -> (r: Vec<String>)
    ensures
        texts(r@) == seq![ctx.bin_dir(), ctx.opt_dir()],
{
    let mut r: Vec<String> = Vec::new();
    r.push(ctx.bin());
    r.push(ctx.opt());
    assert(texts(r@) =~= seq![ctx.bin_dir(), ctx.opt_dir()]);
    r
}

/// The kegs among the entries of the directory of the formula `name`.
pub open spec fn kegs_in(ctx: Ctx, name: Seq<char>, kegs: Seq<KegEntry>) -> Seq<Seq<char>>
    decreases kegs.len(),
{
    if kegs.len() == 0 {
        Seq::empty()
    } else if kegs.last().is_dir {
        kegs_in(ctx, name, kegs.drop_last()).push(ctx.keg_dir(name, kegs.last().name@))
    } else {
        kegs_in(ctx, name, kegs.drop_last())
    }
}

/// All kegs among the entries of the Cellar: the directories in directories.
pub open spec fn all_kegs(ctx: Ctx, entries: Seq<CellarEntry>) -> Seq<Seq<char>>
    decreases entries.len(),
{
    if entries.len() == 0 {
        Seq::empty()
    } else if entries.last().is_dir {
        all_kegs(ctx, entries.drop_last()) + kegs_in(ctx, entries.last().name@, entries.last().kegs@)
    } else {
        all_kegs(ctx, entries.drop_last())
    }
}

/// The kegs that are looked over: all that are in the Cellar.
pub fn list_kegs(ctx: &Ctx, entries: &Vec<CellarEntry>) -> (r: Vec<String>)
    ensures
        texts(r@) == all_kegs(*ctx, entries@),
{
    let ghost es = entries@;
    let mut r: Vec<String> = Vec::new();
    assert(texts(r@) =~= all_kegs(*ctx, es.take(0)));
    for i in 0..entries.len()
        invariant
            es == entries@,
            texts(r@) == all_kegs(*ctx, es.take(i as int)),
    {
        let e = &entries[i];
        let ghost before = texts(r@);
        proof {
            assert(es.take(i + 1).drop_last() =~= es.take(i as int));
            assert(es.take(i + 1).last() == *e);
        }
        if e.is_dir {
            let ghost ks = e.kegs@;
            assert(before + kegs_in(*ctx, e.name@, ks.take(0)) =~= before);
            for j in 0..e.kegs.len()
                invariant
                    ks == e.kegs@,
                    texts(r@) == before + kegs_in(*ctx, e.name@, ks.take(j as int)),
            {
                let k = &e.kegs[j];
                let ghost so_far = kegs_in(*ctx, e.name@, ks.take(j as int));
                proof {
                    assert(ks.take(j + 1).drop_last() =~= ks.take(j as int));
                    assert(ks.take(j + 1).last() == *k);
                }
                if k.is_dir {
                    let keg = ctx.keg(e.name.as_str(), k.name.as_str());
                    assert((before + so_far).push(keg@) =~= before + so_far.push(keg@));
                    r.push(keg);
                }
            }
            assert(ks.take(ks.len() as int) =~= ks);
        }
    }
    assert(es.take(es.len() as int) =~= es);
    r
}

/// The directories of a keg in which files are looked over.
pub fn keg_dirs(keg: &str) -> (r: Vec<String>)
    ensures
        texts(r@) == seq![below(keg@, "bin"@), below(keg@, "lib"@)],
{
    let mut r: Vec<String> = Vec::new();
    r.push(path::join(keg, "bin"));
    r.push(path::join(keg, "lib"));
    assert(texts(r@) =~= seq![below(keg@, "bin"@), below(keg@, "lib"@)]);
    r
}

/// What is found of an entry of a keg's directory: whether it is, or leads to,
/// a plain file, whether it is a link, and whether it begins as a Mach-O file.
pub struct FileFacts {
    pub path: String,
    pub is_file: bool,
    pub is_link: bool,
    pub is_macho: bool,
}

/// A file is checked: a real file, not a link, and Mach-O.
pub open spec fn is_checked(f: FileFacts) -> bool {
    f.is_file && !f.is_link && f.is_macho
}

/// The paths of the files that are checked, in order.
pub open spec fn checked_paths(files: Seq<FileFacts>) -> Seq<Seq<char>>
    decreases files.len(),
{
    if files.len() == 0 {
        Seq::empty()
    } else if is_checked(files.last()) {
        checked_paths(files.drop_last()).push(files.last().path@)
    } else {
        checked_paths(files.drop_last())
    }
}

/// The files that are checked, among the entries of all directories that are
/// looked over: real files, not links, that are Mach-O. There are as many
/// binaries to report as there are such files.
pub fn files_to_check(files: &Vec<FileFacts>) -> (r: Vec<String>)
    ensures
        texts(r@) == checked_paths(files@),
{
    let ghost fs = files@;
    let mut r: Vec<String> = Vec::new();
    assert(texts(r@) =~= checked_paths(fs.take(0)));
    for i in 0..files.len()
        invariant
            fs == files@,
            texts(r@) == checked_paths(fs.take(i as int)),
    {
        let f = &files[i];
        proof {
            assert(fs.take(i + 1).drop_last() =~= fs.take(i as int));
            assert(fs.take(i + 1).last() == *f);
        }
        if f.is_file && !f.is_link && f.is_macho {
            r.push(f.path.clone());
        }
    }
    assert(fs.take(fs.len() as int) =~= fs);
    r
}

/// Law: a file is checked if and only if it is a real file, not a link, and
/// Mach-O, and no more files are checked than were found.
pub proof fn law_real_binaries_are_checked(files: Seq<FileFacts>, p: Seq<char>)
    ensures
        checked_paths(files).contains(p) <==> exists|i: int|
            0 <= i < files.len() && (#[trigger] files[i]).path@ == p && is_checked(files[i]),
        checked_paths(files).len() <= files.len(),
    decreases files.len(),
{
    if files.len() > 0 {
        let init = files.drop_last();
        law_real_binaries_are_checked(init, p);
        assert(forall|i: int| 0 <= i < init.len() ==> #[trigger] init[i] == files[i]);
        assert(files[files.len() - 1] == files.last());
        text::lemma_push_contains(checked_paths(init), files.last().path@);
        if checked_paths(init).contains(p) {
            let i = choose|i: int| 0 <= i < init.len() && (#[trigger] init[i]).path@ == p && is_checked(init[i]);
            assert(files[i].path@ == p);
        }
        if exists|i: int| 0 <= i < files.len() && (#[trigger] files[i]).path@ == p && is_checked(files[i]) {
            let i = choose|i: int|
                0 <= i < files.len() && (#[trigger] files[i]).path@ == p && is_checked(files[i]);
            if i < init.len() {
                assert(init[i].path@ == p);
            }
        }
    }
}

/// What the user is told.
pub open spec fn diagnosis(problems: Seq<Seq<char>>, kegs: nat, checked: nat) -> Seq<Seq<char>> {
    if problems.len() == 0 {
        seq![
            CHECK@ + " no problems found ("@ + decimal(kegs) + " kegs, "@ + decimal(checked)
                + " binaries checked)"@,
        ]
    } else {
        problems.map_values(|p: Seq<char>| "\x1b[33m!\x1b[0m "@ + p).push(
            decimal(problems.len()) + if problems.len() == 1 {
                " problem found"@
            } else {
                " problems found"@
            },
        )
    }
}

/// What the user is told of the problems that were found in so many kegs and
/// binaries.
pub fn doctor(problems: &Vec<String>, kegs: usize, checked: usize) -> (r: Vec<String>)
    ensures
        texts(r@) == diagnosis(texts(problems@), kegs as nat, checked as nat),
{
    let ghost ps = texts(problems@);
    let mut r: Vec<String> = Vec::new();
    assert(texts(r@) =~= Seq::empty());
    if problems.len() == 0 {
        r.push(
            CHECK.to_string().concat(" no problems found (").concat(
                text::show(kegs as u64).as_str(),
            ).concat(" kegs, ").concat(text::show(checked as u64).as_str()).concat(
                " binaries checked)",
            ),
        );
        assert(texts(r@) =~= diagnosis(ps, kegs as nat, checked as nat));
        return r;
    }
    for i in 0..problems.len()
        invariant
            ps == texts(problems@),
            r@.len() == i,
            forall|k: int| 0 <= k < i ==> (#[trigger] r@[k])@ == "\x1b[33m!\x1b[0m "@ + ps[k],
    {
        assert(ps[i as int] == problems@[i as int]@);
        r.push("\x1b[33m!\x1b[0m ".to_string().concat(problems[i].as_str()));
    }
    r.push(
        text::show(problems.len() as u64).concat(
            if problems.len() == 1 {
                " problem found"
            } else {
                " problems found"
            },
        ),
    );
    assert(texts(r@) =~= diagnosis(ps, kegs as nat, checked as nat));
    r
}

/// Law: there is a reference for each line but the first: what stands before the
/// versions in round brackets.
pub proof fn law_every_reference_is_read(output: Seq<char>, i: int)
    requires
        1 <= i < line_seq(output).len(),
    ensures
        references(output).len() == line_seq(output).len() - 1,
        ({
            let t = trimmed(line_seq(output)[i]);
            &&& has_part(t, " ("@) ==> exists|k: int|
                text::occurs_at(t, " ("@, k) && references(output)[i - 1] == trimmed(#[trigger] t.take(k))
                    && forall|q: int| q < k ==> !text::occurs_at(t, " ("@, q)
            &&& !has_part(t, " ("@) ==> references(output)[i - 1] == trimmed(t)
        }),
{
    let t = trimmed(line_seq(output)[i]);
    text::law_until_stops_at_the_first(t, " ("@);
    let k = until(t, " ("@).len() as int;
    assert(until(t, " ("@) == t.take(k));
}

/// What is wrong with a reference: it leads to nothing below the prefix, or
/// still holds a placeholder.
pub open spec fn is_problem_of(
    p: Seq<char>,
    prefix: Seq<char>,
    existing: Set<Seq<char>>,
    dep: Seq<char>,
    problem: Seq<char>,
) -> bool {
    ||| has_prefix(dep, prefix) && !existing.contains(dep) && problem == p + ": missing dylib "@ + dep
    ||| has_part(dep, "@@HOMEBREW"@) && problem == p + ": unrelocated placeholder "@ + dep
}

/// Law: everything that is wrong with a reference is told, and nothing else; a
/// file without problems is one all of whose references below the prefix exist
/// and none of which holds a placeholder. The problems of the references follow
/// one another.
pub proof fn law_all_problems_are_told(
    p: Seq<char>,
    prefix: Seq<char>,
    existing: Set<Seq<char>>,
    deps: Seq<Seq<char>>,
)
    ensures
        forall|x: Seq<char>| #[trigger]
            all_problems(p, prefix, existing, deps).contains(x) <==> exists|i: int|
                0 <= i < deps.len() && is_problem_of(p, prefix, existing, #[trigger] deps[i], x),
        all_problems(p, prefix, existing, deps).len() == 0 <==> forall|i: int|
            0 <= i < deps.len() ==> (has_prefix(#[trigger] deps[i], prefix) ==> existing.contains(deps[i]))
                && !has_part(deps[i], "@@HOMEBREW"@),
        all_problems(p, prefix, existing, deps).len() <= 2 * deps.len(),
    decreases deps.len(),
{
    let all = all_problems(p, prefix, existing, deps);
    if deps.len() > 0 {
        let init = deps.drop_last();
        let last = deps.last();
        law_all_problems_are_told(p, prefix, existing, init);
        let before = all_problems(p, prefix, existing, init);
        let more = reference_problems(p, prefix, existing, last);
        assert(all == before + more);
        assert(deps[deps.len() - 1] == last);
        assert forall|x: Seq<char>| #[trigger] more.contains(x) <==> is_problem_of(p, prefix, existing, last, x) by {
            if has_prefix(last, prefix) && !existing.contains(last) {
                assert(more[0] == p + ": missing dylib "@ + last);
                if has_part(last, "@@HOMEBREW"@) {
                    assert(more[1] == p + ": unrelocated placeholder "@ + last);
                }
            } else if has_part(last, "@@HOMEBREW"@) {
                assert(more[0] == p + ": unrelocated placeholder "@ + last);
            }
        }
        assert forall|x: Seq<char>| #[trigger] all.contains(x) <==> exists|i: int|
            0 <= i < deps.len() && is_problem_of(p, prefix, existing, #[trigger] deps[i], x) by {
            if before.contains(x) {
                let k = choose|k: int| 0 <= k < before.len() && before[k] == x;
                assert(all[k] == x);
                let i = choose|i: int|
                    0 <= i < init.len() && is_problem_of(p, prefix, existing, #[trigger] init[i], x);
                assert(is_problem_of(p, prefix, existing, deps[i], x));
            }
            if more.contains(x) {
                let k = choose|k: int| 0 <= k < more.len() && more[k] == x;
                assert(all[before.len() + k] == x);
                assert(is_problem_of(p, prefix, existing, deps[deps.len() - 1], x));
            }
            if all.contains(x) {
                let k = choose|k: int| 0 <= k < all.len() && all[k] == x;
                if k < before.len() {
                    assert(before[k] == x);
                } else {
                    assert(more[k - before.len()] == x);
                }
            }
            if exists|i: int| 0 <= i < deps.len() && is_problem_of(p, prefix, existing, #[trigger] deps[i], x) {
                let i = choose|i: int|
                    0 <= i < deps.len() && is_problem_of(p, prefix, existing, #[trigger] deps[i], x);
                if i < init.len() {
                    assert(is_problem_of(p, prefix, existing, init[i], x));
                    assert(before.contains(x));
                } else {
                    assert(more.contains(x));
                }
            }
        }
        if all.len() == 0 {
            assert forall|i: int| 0 <= i < deps.len() implies (has_prefix(#[trigger] deps[i], prefix)
                ==> existing.contains(deps[i])) && !has_part(deps[i], "@@HOMEBREW"@) by {
                if i < init.len() {
                    assert(init[i] == deps[i]);
                }
            }
        } else if forall|i: int|
            0 <= i < deps.len() ==> (has_prefix(#[trigger] deps[i], prefix) ==> existing.contains(deps[i]))
                && !has_part(deps[i], "@@HOMEBREW"@) {
            assert forall|i: int| 0 <= i < init.len() implies (has_prefix(#[trigger] init[i], prefix)
                ==> existing.contains(init[i])) && !has_part(init[i], "@@HOMEBREW"@) by {
                assert(init[i] == deps[i]);
            }
        }
    }
}

/// The kegs in the directory of a formula.
pub open spec fn keg_at(ctx: Ctx, name: Seq<char>, kegs: Seq<KegEntry>) -> spec_fn(int, Seq<char>) -> bool {
    |i: int, d: Seq<char>| kegs[i].is_dir && d == ctx.keg_dir(name, kegs[i].name@)
}

/// The kegs among the first entries.
proof fn lemma_kegs_in(ctx: Ctx, name: Seq<char>, kegs: Seq<KegEntry>, n: int)
    requires
        0 <= n <= kegs.len(),
    ensures
        picks(n, keg_at(ctx, name, kegs), kegs_in(ctx, name, kegs.take(n))),
    decreases n,
{
    let p = keg_at(ctx, name, kegs);
    if n == 0 {
        assert(kegs.take(0) =~= Seq::empty());
        picks::lemma_pick_start(p);
    } else {
        lemma_kegs_in(ctx, name, kegs, n - 1);
        assert(kegs.take(n).drop_last() =~= kegs.take(n - 1));
        let before = kegs_in(ctx, name, kegs.take(n - 1));
        if kegs[n - 1].is_dir {
            let d = ctx.keg_dir(name, kegs[n - 1].name@);
            assert(p(n - 1, d));
            picks::lemma_pick_one(n - 1, p, before, d);
        } else {
            picks::lemma_pick_none(n - 1, p, before);
        }
    }
}

/// Law: all kegs are looked over: those of one formula after those of the other,
/// every directory in the directory of a formula.
pub proof fn law_all_kegs_are_looked_over(ctx: Ctx, entries: Seq<CellarEntry>, e: CellarEntry)
    ensures
        all_kegs(ctx, Seq::empty()) == Seq::<Seq<char>>::empty(),
        !e.is_dir ==> all_kegs(ctx, entries.push(e)) == all_kegs(ctx, entries),
        e.is_dir ==> exists|own: Seq<Seq<char>>|
            #![trigger all_kegs(ctx, entries) + own]
            all_kegs(ctx, entries.push(e)) == all_kegs(ctx, entries) + own && picks(
                e.kegs@.len() as int,
                keg_at(ctx, e.name@, e.kegs@),
                own,
            ),
{
    assert(entries.push(e).drop_last() =~= entries);
    lemma_kegs_in(ctx, e.name@, e.kegs@, e.kegs@.len() as int);
    assert(e.kegs@.take(e.kegs@.len() as int) =~= e.kegs@);
    if e.is_dir {
        let own = kegs_in(ctx, e.name@, e.kegs@);
        assert(all_kegs(ctx, entries.push(e)) == all_kegs(ctx, entries) + own);
    }
}

/// The files that are checked.
pub open spec fn binary_at(files: Seq<FileFacts>) -> spec_fn(int, Seq<char>) -> bool {
    |i: int, p: Seq<char>| files[i].is_file && !files[i].is_link && files[i].is_macho && p == files[i].path@
}

/// The checked ones of the first files.
proof fn lemma_checked(files: Seq<FileFacts>, n: int)
    requires
        0 <= n <= files.len(),
    ensures
        picks(n, binary_at(files), checked_paths(files.take(n))),
    decreases n,
{
    let p = binary_at(files);
    if n == 0 {
        assert(files.take(0) =~= Seq::empty());
        picks::lemma_pick_start(p);
    } else {
        lemma_checked(files, n - 1);
        assert(files.take(n).drop_last() =~= files.take(n - 1));
        let f = files[n - 1];
        let before = checked_paths(files.take(n - 1));
        if f.is_file && !f.is_link && f.is_macho {
            assert(p(n - 1, f.path@));
            picks::lemma_pick_one(n - 1, p, before, f.path@);
        } else {
            picks::lemma_pick_none(n - 1, p, before);
        }
    }
}

/// Law: exactly the plain files that are no links and begin as Mach-O files do
/// are checked, each once, in order.
pub proof fn law_each_binary_is_checked_once(files: Seq<FileFacts>)
    ensures
        picks(files.len() as int, binary_at(files), checked_paths(files)),
{
    lemma_checked(files, files.len() as int);
    assert(files.take(files.len() as int) =~= files);
}

/// Law: the user is told each problem, in order, and then how many there are;
/// where there are none, how many kegs and binaries were looked at.
pub proof fn law_the_diagnosis_tells_all(problems: Seq<Seq<char>>, kegs: nat, checked: nat)
    ensures
        problems.len() == 0 ==> diagnosis(problems, kegs, checked) == seq![
            CHECK@ + " no problems found ("@ + decimal(kegs) + " kegs, "@ + decimal(checked)
                + " binaries checked)"@,
        ],
        problems.len() > 0 ==> {
            let lines = diagnosis(problems, kegs, checked);
            &&& lines.len() == problems.len() + 1
            &&& forall|i: int|
                0 <= i < problems.len() ==> #[trigger] lines[i] == "\x1b[33m!\x1b[0m "@ + problems[i]
            &&& problems.len() == 1 ==> lines.last() == decimal(1) + " problem found"@
            &&& problems.len() > 1 ==> lines.last() == decimal(problems.len()) + " problems found"@
        },
{
}

} // verus!
