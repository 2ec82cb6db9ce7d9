//! What the commands that only look things up show.

use vstd::prelude::*;

use crate::api::Index;
use crate::bottle;
use crate::bottle::{choice, refused, Arch, PickError};
use crate::formula::Formula;
use crate::installed::{CellarEntry, KegEntry};
use crate::picks;
use crate::picks::picks;
use crate::text;
use crate::text::{arranged, decimal, has_part, joined, opt_text, positions, ranking, texts};
use crate::ui;
use crate::ui::{dimmed, CHECK};

verus! {

broadcast use text::lemma_texts_push;

/// How many hits a search shows.
pub const SHOWN_HITS: usize = 25;

/// `s` in lower case.
pub uninterp spec fn lowercased(s: Seq<char>) -> Seq<char>;

/// `str::to_lowercase`: the text in lower case, by the Unicode tables and
/// independent of any locale.
#[verifier::external_body]
fn lowercase(s: &str) -> (r: String)
    ensures
        r@ == lowercased(s@),
{
    s.to_lowercase()
}

/// Where a search finds its term.
#[derive(PartialEq, Eq, Structural, Clone, Copy)]
pub enum Hit {
    Name,
    Description,
    Nowhere,
}

/// Where a search finds its term, given everything in lower case: the name or
/// an alias goes before the description.
pub open spec fn hit(
    term: Seq<char>,
    name: Seq<char>,
    aliases: Seq<Seq<char>>,
    desc: Option<Seq<char>>,
) -> Hit {
    if has_part(name, term) || exists|i: int|
        0 <= i < aliases.len() && has_part(#[trigger] aliases[i], term) {
        Hit::Name
    } else if desc matches Some(d) && has_part(d, term) {
        Hit::Description
    } else {
        Hit::Nowhere
    }
}

/// Where a search finds its term, given everything in lower case.
pub fn find_term(term: &str, name: &str, aliases: &Vec<String>, desc: &Option<String>) -> (r: Hit)
    ensures
        r == hit(term@, name@, texts(aliases@), opt_text(*desc)),
{
    if text::contains(name, term) {
        return Hit::Name;
    }
    let ghost als = texts(aliases@);
    for i in 0..aliases.len()
        invariant
            als == texts(aliases@),
            forall|k: int| 0 <= k < i ==> !has_part(#[trigger] als[k], term@),
    {
        assert(als[i as int] == aliases@[i as int]@);
        if text::contains(aliases[i].as_str(), term) {
            return Hit::Name;
        }
    }
    match desc {
        Some(d) => if text::contains(d.as_str(), term) {
            Hit::Description
        } else {
            Hit::Nowhere
        },
        None => Hit::Nowhere,
    }
}

/// Where a search for `term` finds it in a formula.
pub open spec fn formula_hit(term: Seq<char>, f: Formula) -> Hit {
    hit(
        lowercased(term),
        lowercased(f.name@),
        texts(f.aliases@).map_values(|a: Seq<char>| lowercased(a)),
        match f.desc {
            Some(d) => Some(lowercased(d@)),
            None => None,
        },
    )
}

/// The positions of the formulae in which a search finds its term in the given
/// place.
pub open spec fn hits(term: Seq<char>, fs: Seq<Formula>, place: Hit) -> Seq<int>
    decreases fs.len(),
{
    if fs.len() == 0 {
        Seq::empty()
    } else if formula_hit(term, fs.last()) == place {
        hits(term, fs.drop_last(), place).push(fs.len() - 1)
    } else {
        hits(term, fs.drop_last(), place)
    }
}

/// The positions of all formulae that a search finds: by name, then by
/// description.
pub open spec fn found_by(term: Seq<char>, fs: Seq<Formula>) -> Seq<int> {
    hits(term, fs, Hit::Name) + hits(term, fs, Hit::Description)
}

/// What a search finds: the positions of the formulae that are shown, and how
/// many there are.
pub struct Found {
    pub shown: Vec<usize>,
    pub total: usize,
}

/// Everything of a formula that is searched, in lower case.
fn search_formula(term: &str, f: &Formula) -> (r: Hit)
    ensures
        r == hit(
            term@,
            lowercased(f.name@),
            texts(f.aliases@).map_values(|a: Seq<char>| lowercased(a)),
            match f.desc {
                Some(d) => Some(lowercased(d@)),
                None => None,
            },
        ),
{
    let name = lowercase(f.name.as_str());
    let mut aliases: Vec<String> = Vec::new();
    for i in 0..f.aliases.len()
        invariant
            aliases@.len() == i,
            forall|k: int| 0 <= k < i ==> (#[trigger] aliases@[k])@ == lowercased(f.aliases@[k]@),
    {
        aliases.push(lowercase(f.aliases[i].as_str()));
    }
    assert(texts(aliases@) =~= texts(f.aliases@).map_values(|a: Seq<char>| lowercased(a)));
    let desc = match &f.desc {
        Some(d) => Some(lowercase(d.as_str())),
        None => None,
    };
    find_term(term, name.as_str(), &aliases, &desc)
}

/// Searches formulae by name or description, whatever the case of the letters.
pub fn search(index: &Index, term: &str) -> (r: Found)
    ensures
        ({
            let all = found_by(term@, index@);
            &&& r.total == all.len()
            &&& positions(r.shown@) == if all.len() > SHOWN_HITS {
                all.take(SHOWN_HITS as int)
            } else {
                all
            }
        }),
{
    let t = lowercase(term);
    let fs = index.all();
    let mut by_name: Vec<usize> = Vec::new();
    let mut by_desc: Vec<usize> = Vec::new();
    assert(positions(by_name@) =~= hits(term@, fs@.take(0), Hit::Name));
    assert(positions(by_desc@) =~= hits(term@, fs@.take(0), Hit::Description));
    for i in 0..fs.len()
        invariant
            t@ == lowercased(term@),
            by_name@.len() + by_desc@.len() <= i,
            positions(by_name@) == hits(term@, fs@.take(i as int), Hit::Name),
            positions(by_desc@) == hits(term@, fs@.take(i as int), Hit::Description),
    {
        let ghost names0 = by_name@;
        let ghost descs0 = by_desc@;
        proof {
            assert(fs@.take(i + 1).drop_last() =~= fs@.take(i as int));
            assert(fs@.take(i + 1).last() == fs@[i as int]);
        }
        match search_formula(t.as_str(), &fs[i]) {
            Hit::Name => {
                by_name.push(i);
                assert(positions(by_name@) =~= positions(names0).push(i as int));
            },
            Hit::Description => {
                by_desc.push(i);
                assert(positions(by_desc@) =~= positions(descs0).push(i as int));
            },
            Hit::Nowhere => {},
        }
    }
    assert(fs@.take(fs@.len() as int) =~= fs@);
    let ghost all = found_by(term@, index@);
    let total: usize = by_name.len() + by_desc.len();
    let mut shown: Vec<usize> = Vec::new();
    let n: usize = if total > SHOWN_HITS {
        SHOWN_HITS
    } else {
        total
    };
    for i in 0..n
        invariant
            n <= total,
            total == by_name@.len() + by_desc@.len(),
            all == positions(by_name@) + positions(by_desc@),
            shown@.len() == i,
            forall|k: int| 0 <= k < i ==> (#[trigger] shown@[k]) as int == all[k],
    {
        if i < by_name.len() {
            shown.push(by_name[i]);
        } else {
            shown.push(by_desc[i - by_name.len()]);
        }
    }
    assert(positions(shown@) =~= all.take(n as int));
    assert(all.take(total as int) =~= all);
    Found { shown, total }
}

/// The version of a formula, or a question mark.
pub open spec fn version_or_mark(f: Formula) -> Seq<char> {
    match f.stable() {
        Some(v) => v,
        None => "?"@,
    }
}

/// The line for a formula that a search found.
pub fn search_line(f: &Formula, installed: bool) -> (r: String)
    ensures
        r@ == if installed {
            CHECK@ + " "@
        } else {
            "  "@
        } + f.name@ + " "@ + dimmed(version_or_mark(*f)) + " "@ + dimmed(
            match f.desc {
                Some(d) => d@,
                None => ""@,
            },
        ),
{
    let mark = if installed {
        CHECK.to_string().concat(" ")
    } else {
        "  ".to_string()
    };
    let version = match &f.versions.stable {
        Some(v) => v.as_str(),
        None => "?",
    };
    let desc = match &f.desc {
        Some(d) => d.as_str(),
        None => "",
    };
    mark.concat(f.name.as_str()).concat(" ").concat(ui::dim(version).as_str()).concat(" ").concat(
        ui::dim(desc).as_str(),
    )
}

/// The line after the hits of a search: how many more there are, or that there
/// are none.
pub fn search_note(term: &str, total: usize) -> (r: Option<String>)
    ensures
        if total > SHOWN_HITS {
            r matches Some(n) && n@ == dimmed(
                "  … and "@ + decimal((total - SHOWN_HITS) as nat) + " more"@,
            )
        } else if total == 0 {
            r matches Some(n) && n@ == "no matches for '"@ + term@ + "'"@
        } else {
            r is None
        },
{
    if total > SHOWN_HITS {
        let more = text::show((total - SHOWN_HITS) as u64);
        Some(ui::dim("  … and ".to_string().concat(more.as_str()).concat(" more").as_str()))
    } else if total == 0 {
        Some("no matches for '".to_string().concat(term).concat("'"))
    } else {
        None
    }
}

/// What is shown of the bottle of a formula.
pub open spec fn bottle_line(arch: Arch, f: Formula, line: Seq<char>) -> bool {
    match choice(arch, f) {
        Some((tag, file)) => line == "  bottle: "@ + tag + " (cellar: "@ + file.cellar@ + ")"@,
        None => exists|e: PickError| #[trigger]
            refused(arch, f, e) && line == "  bottle: unavailable ("@ + e.text() + ")"@,
    }
}

/// What is shown of a formula besides its bottle.
pub open spec fn info_lines(f: Formula) -> Seq<Seq<char>> {
    seq![f.name@ + ": "@ + version_or_mark(f)] + match f.desc {
        Some(d) => seq!["  "@ + d@],
        None => Seq::empty(),
    } + seq![
        "  deps: "@ + if f.dependencies@.len() == 0 {
            "none"@
        } else {
            joined(texts(f.dependencies@), ", "@)
        },
        "  keg-only: "@ + if f.keg_only {
            "true"@
        } else {
            "false"@
        },
    ]
}

/// What is shown of a formula: the last line is about its bottle.
pub fn info(arch: Arch, f: &Formula) -> (r: Vec<String>)
    ensures
        r@.len() > 0,
        texts(r@).drop_last() == info_lines(*f),
        bottle_line(arch, *f, texts(r@).last()),
{
    let mut r: Vec<String> = Vec::new();
    assert(texts(r@) =~= Seq::empty());
    let version = match &f.versions.stable {
        Some(v) => v.as_str(),
        None => "?",
    };
    r.push(f.name.clone().concat(": ").concat(version));
    if let Some(d) = &f.desc {
        r.push("  ".to_string().concat(d.as_str()));
    }
    let deps = if f.dependencies.len() == 0 {
        "none".to_string()
    } else {
        text::join(&f.dependencies, ", ")
    };
    r.push("  deps: ".to_string().concat(deps.as_str()));
    let keg_only = if f.keg_only {
        "true"
    } else {
        "false"
    };
    r.push("  keg-only: ".to_string().concat(keg_only));
    let ghost so_far = texts(r@);
    assert(so_far =~= info_lines(*f));
    let last = match bottle::pick(arch, f) {
        Ok(b) => "  bottle: ".to_string().concat(b.tag).concat(" (cellar: ").concat(
            b.file.cellar.as_str(),
        ).concat(")"),
        Err(e) => {
            let why = e.message();
            assert(refused(arch, *f, e));
            "  bottle: unavailable (".to_string().concat(why.as_str()).concat(")")
        },
    };
    r.push(last);
    assert(texts(r@).drop_last() =~= so_far);
    r
}

/// The names of the entries of a directory.
pub open spec fn entry_names(kegs: Seq<KegEntry>) -> Seq<Seq<char>> {
    kegs.map_values(|k: KegEntry| k.name@)
}

/// The line for an entry of the Cellar.
pub open spec fn list_line(e: CellarEntry) -> Seq<char> {
    e.name@ + " "@ + joined(entry_names(e.kegs@), " "@)
}

/// The entries of the Cellar that are directories.
pub open spec fn directories(entries: Seq<CellarEntry>) -> Seq<CellarEntry>
    decreases entries.len(),
{
    if entries.len() == 0 {
        Seq::empty()
    } else if entries.last().is_dir {
        directories(entries.drop_last()).push(entries.last())
    } else {
        directories(entries.drop_last())
    }
}

/// The names of entries of the Cellar.
pub open spec fn cellar_names(entries: Seq<CellarEntry>) -> Seq<Seq<char>> {
    entries.map_values(|e: CellarEntry| e.name@)
}

/// The lines for entries of the Cellar.
pub open spec fn cellar_lines(entries: Seq<CellarEntry>) -> Seq<Seq<char>> {
    entries.map_values(|e: CellarEntry| list_line(e))
}

/// The line for an entry of the Cellar.
fn show_entry(e: &CellarEntry) -> (r: String)
    ensures
        r@ == list_line(*e),
{
    let mut names: Vec<String> = Vec::new();
    for i in 0..e.kegs.len()
        invariant
            names@.len() == i,
            forall|k: int| 0 <= k < i ==> (#[trigger] names@[k])@ == e.kegs@[k].name@,
    {
        names.push(e.kegs[i].name.clone());
    }
    assert(texts(names@) =~= entry_names(e.kegs@));
    e.name.clone().concat(" ").concat(text::join(&names, " ").as_str())
}

/// The installed kegs, a line for each formula, by name.
pub fn list(entries: &Vec<CellarEntry>) -> (r: Vec<String>)
    ensures
        ({
            let dirs = directories(entries@);
            exists|p: Seq<int>| #[trigger]
                ranking(cellar_names(dirs), p) && texts(r@) == arranged(cellar_lines(dirs), p)
        }),
{
    let mut names: Vec<String> = Vec::new();
    let mut lines: Vec<String> = Vec::new();
    let ghost all = entries@;
    assert(texts(names@) =~= cellar_names(directories(all.take(0))));
    assert(texts(lines@) =~= cellar_lines(directories(all.take(0))));
    for i in 0..entries.len()
        invariant
            all == entries@,
            texts(names@) == cellar_names(directories(all.take(i as int))),
            texts(lines@) == cellar_lines(directories(all.take(i as int))),
    {
        let e = &entries[i];
        let ghost before = directories(all.take(i as int));
        proof {
            assert(all.take(i + 1).drop_last() =~= all.take(i as int));
            assert(all.take(i + 1).last() == *e);
            assert(cellar_names(before.push(*e)) =~= cellar_names(before).push(e.name@));
            assert(cellar_lines(before.push(*e)) =~= cellar_lines(before).push(list_line(*e)));
        }
        if e.is_dir {
            names.push(e.name.clone());
            lines.push(show_entry(e));
        }
    }
    assert(all.take(entries@.len() as int) =~= all);
    let order = text::rank(&names);
    let ghost p = positions(order@);
    let mut r: Vec<String> = Vec::new();
    assert(texts(names@).len() == texts(lines@).len());
    for i in 0..order.len()
        invariant
            p == positions(order@),
            texts(lines@).len() == p.len(),
            forall|k: int| 0 <= k < p.len() ==> 0 <= #[trigger] p[k] < texts(lines@).len(),
            r@.len() == i,
            forall|k: int| 0 <= k < i ==> (#[trigger] r@[k])@ == texts(lines@)[p[k]],
    {
        assert(p[i as int] == order@[i as int]);
        assert(texts(lines@)[p[i as int]] == lines@[p[i as int]]@);
        r.push(lines[order[i]].clone());
    }
    assert(texts(r@) =~= arranged(texts(lines@), p));
    r
}

/// A search for `term` finds the formula by its name or one of its aliases.
pub open spec fn named_like(term: Seq<char>, f: Formula) -> bool {
    has_part(lowercased(f.name@), lowercased(term)) || exists|i: int|
        0 <= i < f.aliases@.len() && has_part(lowercased((#[trigger] f.aliases@[i])@), lowercased(term))
}

/// A search for `term` finds it in the description of the formula.
pub open spec fn described_like(term: Seq<char>, f: Formula) -> bool {
    f.desc is Some && has_part(lowercased((f.desc->0)@), lowercased(term))
}

/// The positions of the formulae that are found by name.
pub open spec fn name_hit_at(term: Seq<char>, fs: Seq<Formula>) -> spec_fn(int, int) -> bool {
    |i: int, k: int| k == i && named_like(term, fs[i])
}

/// The positions of the formulae that are found by their description alone.
pub open spec fn desc_hit_at(term: Seq<char>, fs: Seq<Formula>) -> spec_fn(int, int) -> bool {
    |i: int, k: int| k == i && !named_like(term, fs[i]) && described_like(term, fs[i])
}

/// Where a search finds its term in a formula.
proof fn lemma_formula_hit(term: Seq<char>, f: Formula)
    ensures
        (formula_hit(term, f) == Hit::Name) == named_like(term, f),
        (formula_hit(term, f) == Hit::Description) == (!named_like(term, f) && described_like(term, f)),
{
    let aliases = texts(f.aliases@).map_values(|a: Seq<char>| lowercased(a));
    let t = lowercased(term);
    if exists|i: int| 0 <= i < aliases.len() && has_part(#[trigger] aliases[i], t) {
        let i = choose|i: int| 0 <= i < aliases.len() && has_part(#[trigger] aliases[i], t);
        assert(aliases[i] == lowercased(f.aliases@[i]@));
    }
    if exists|i: int| 0 <= i < f.aliases@.len() && has_part(lowercased((#[trigger] f.aliases@[i])@), t) {
        let i = choose|i: int| 0 <= i < f.aliases@.len() && has_part(lowercased((#[trigger] f.aliases@[i])@), t);
        assert(has_part(aliases[i], t));
    }
}

/// The hits among the first formulae.
proof fn lemma_hits(term: Seq<char>, fs: Seq<Formula>, n: int)
    requires
        0 <= n <= fs.len(),
    ensures
        picks(n, name_hit_at(term, fs), hits(term, fs.take(n), Hit::Name)),
        picks(n, desc_hit_at(term, fs), hits(term, fs.take(n), Hit::Description)),
    decreases n,
{
    let p = name_hit_at(term, fs);
    let q = desc_hit_at(term, fs);
    if n == 0 {
        assert(fs.take(0) =~= Seq::empty());
        picks::lemma_pick_start(p);
        picks::lemma_pick_start(q);
    } else {
        let m = n - 1;
        lemma_hits(term, fs, m);
        assert(fs.take(n).drop_last() =~= fs.take(m));
        lemma_formula_hit(term, fs[m]);
        let names = hits(term, fs.take(m), Hit::Name);
        let descs = hits(term, fs.take(m), Hit::Description);
        if named_like(term, fs[m]) {
            assert(p(m, m));
            picks::lemma_pick_one(m, p, names, m);
            picks::lemma_pick_none(m, q, descs);
        } else {
            picks::lemma_pick_none(m, p, names);
            if described_like(term, fs[m]) {
                assert(q(m, m));
                picks::lemma_pick_one(m, q, descs, m);
            } else {
                picks::lemma_pick_none(m, q, descs);
            }
        }
    }
}

/// Law: a search finds every formula that has the term in its name or one of its
/// aliases, in the order of the index, and behind them every other that has it
/// in its description; the case of letters does not matter.
pub proof fn law_searches_find_names_before_descriptions(term: Seq<char>, fs: Seq<Formula>)
    ensures
        exists|a: Seq<int>, b: Seq<int>|
            #![trigger a + b]
            found_by(term, fs) == a + b && picks(fs.len() as int, name_hit_at(term, fs), a) && picks(
                fs.len() as int,
                desc_hit_at(term, fs),
                b,
            ),
{
    lemma_hits(term, fs, fs.len() as int);
    assert(fs.take(fs.len() as int) =~= fs);
    let a = hits(term, fs, Hit::Name);
    let b = hits(term, fs, Hit::Description);
    assert(found_by(term, fs) == a + b);
}

/// Law: the information about a formula begins with its name and version and
/// ends with its dependencies and whether it is keg-only; its description, where
/// it has one, stands in between.
pub proof fn law_information_is_complete(f: Formula)
    ensures
        ({
            let lines = info_lines(f);
            let n = lines.len() as int;
            &&& n == if f.desc is Some {
                4int
            } else {
                3int
            }
            &&& lines[0] == f.name@ + ": "@ + match f.versions.stable {
                Some(v) => v@,
                None => "?"@,
            }
            &&& f.desc matches Some(d) ==> lines[1] == "  "@ + d@
            &&& f.dependencies@.len() == 0 ==> lines[n - 2] == "  deps: "@ + "none"@
            &&& f.dependencies@.len() > 0 ==> lines[n - 2] == "  deps: "@ + joined(
                texts(f.dependencies@),
                ", "@,
            )
            &&& f.keg_only ==> lines[n - 1] == "  keg-only: "@ + "true"@
            &&& !f.keg_only ==> lines[n - 1] == "  keg-only: "@ + "false"@
        }),
{
}

/// Law: the line about a bottle tells the tag that was picked and its cellar, or
/// why there is none.
pub proof fn law_information_tells_of_the_bottle(arch: Arch, f: Formula, line: Seq<char>)
    requires
        bottle_line(arch, f, line),
    ensures
        choice(arch, f) matches Some((tag, file)) ==> line == "  bottle: "@ + tag + " (cellar: "@ + file.cellar@
            + ")"@,
        choice(arch, f) is None ==> exists|e: PickError| #[trigger]
            refused(arch, f, e) && line == "  bottle: unavailable ("@ + e.text() + ")"@,
{
}

/// The directories among the entries.
pub open spec fn dir_at(entries: Seq<CellarEntry>) -> spec_fn(int, CellarEntry) -> bool {
    |i: int, e: CellarEntry| e == entries[i] && entries[i].is_dir
}

/// The directories among the first entries.
proof fn lemma_directories(entries: Seq<CellarEntry>, n: int)
    requires
        0 <= n <= entries.len(),
    ensures
        picks(n, dir_at(entries), directories(entries.take(n))),
    decreases n,
{
    let p = dir_at(entries);
    if n == 0 {
        assert(entries.take(0) =~= Seq::empty());
        picks::lemma_pick_start(p);
    } else {
        lemma_directories(entries, n - 1);
        assert(entries.take(n).drop_last() =~= entries.take(n - 1));
        let before = directories(entries.take(n - 1));
        if entries[n - 1].is_dir {
            assert(p(n - 1, entries[n - 1]));
            picks::lemma_pick_one(n - 1, p, before, entries[n - 1]);
        } else {
            picks::lemma_pick_none(n - 1, p, before);
        }
    }
}

/// Law: every directory of the Cellar has a line, with its name and the names
/// in it, and the lines are in the order of the names.
pub proof fn law_every_formula_has_a_line(entries: Seq<CellarEntry>, p: Seq<int>, r: Seq<Seq<char>>)
    requires
        ranking(cellar_names(directories(entries)), p),
        r == arranged(cellar_lines(directories(entries)), p),
    ensures
        picks(entries.len() as int, dir_at(entries), directories(entries)),
        r.len() == directories(entries).len(),
        forall|i: int| #![trigger r[i]] 0 <= i < r.len() ==> 0 <= p[i] < directories(entries).len() && r[i] == ({
            let e = directories(entries)[p[i]];
            e.name@ + " "@ + joined(e.kegs@.map_values(|k: KegEntry| k.name@), " "@)
        }),
        forall|i: int, j: int|
            0 <= i < j < p.len() ==> text::lex_le(
                directories(entries)[#[trigger] p[i]].name@,
                directories(entries)[#[trigger] p[j]].name@,
            ),
{
    let dirs = directories(entries);
    lemma_directories(entries, entries.len() as int);
    assert(entries.take(entries.len() as int) =~= entries);
    assert forall|i: int, j: int| 0 <= i < j < p.len() implies text::lex_le(
        dirs[#[trigger] p[i]].name@,
        dirs[#[trigger] p[j]].name@,
    ) by {
        assert(text::precedes(cellar_names(dirs), p[i], p[j]));
    }
}

} // verus!
