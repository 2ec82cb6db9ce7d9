//! Dramfile support: chain-install a whole list of formulae from a file, and
//! dump the currently requested set back out.
//!
//! Format: one formula name per line; blank lines and `#` comments ignored.

use vstd::prelude::*;

use crate::installed::{requested_of, InstalledV};
use crate::picks;
use crate::picks::picks;
use crate::text;
use crate::text::{
    arranged, decimal, index_in, line_seq, positions, ranking, texts, trimmed, until, without_cr,
};
use crate::ui;
use crate::ui::{dimmed, formulae_word, CHECK};

verus! {

broadcast use text::lemma_texts_push;

/// The file that is read where none is named.
pub const DEFAULT_FILE: &'static str = "Dramfile";

/// Why a bundle cannot be read or written.
pub enum BundleError {
    /// The file, which is named, lists nothing.
    NoFormulae(String),
    /// No formula was asked for by the user.
    NothingToDump,
}

impl BundleError {
    /// What the user is told.
    pub fn message(&self) -> (r: String)
        ensures
            r@ == match self {
                BundleError::NoFormulae(path) => path@ + " lists no formulae"@,
                BundleError::NothingToDump => "nothing explicitly installed to dump"@,
            },
    {
        match self {
            BundleError::NoFormulae(path) => path.clone().concat(" lists no formulae"),
            BundleError::NothingToDump => "nothing explicitly installed to dump".to_string(),
        }
    }
}

/// What a line says: the text before a comment, without white space around it.
pub open spec fn entry(line: Seq<char>) -> Seq<char> {
    trimmed(until(line, "#"@))
}

/// The entries of the lines that have one.
pub open spec fn entries(lines: Seq<Seq<char>>) -> Seq<Seq<char>>
    decreases lines.len(),
{
    if lines.len() == 0 {
        Seq::empty()
    } else if entry(lines.last()).len() == 0 {
        entries(lines.drop_last())
    } else {
        entries(lines.drop_last()).push(entry(lines.last()))
    }
}

/// The names that a Dramfile lists.
pub open spec fn listed(raw: Seq<char>) -> Seq<Seq<char>> {
    entries(line_seq(raw))
}

/// The names that the contents `raw` of the Dramfile at `path` list, in order.
/// A file that lists none is an error.
pub fn parse(path: &str, raw: &str) -> (r: Result<Vec<String>, BundleError>)
    ensures
        r is Ok <==> listed(raw@).len() > 0,
        r matches Ok(names) ==> texts(names@) == listed(raw@),
        r matches Err(e) ==> e matches BundleError::NoFormulae(p) && p@ == path@,
{
    let lines = text::lines(raw);
    let mut names: Vec<String> = Vec::new();
    assert(texts(names@) =~= entries(texts(lines@).take(0)));
    for i in 0..lines.len()
        invariant
            texts(names@) == entries(texts(lines@).take(i as int)),
    {
        let name = text::trim(text::before(lines[i].as_str(), "#").as_str());
        proof {
            let t = texts(lines@).take(i + 1);
            assert(t.drop_last() =~= texts(lines@).take(i as int));
            assert(t.last() == lines@[i as int]@);
        }
        if !name.as_str().is_empty() {
            names.push(name);
        }
    }
    assert(texts(lines@).take(lines@.len() as int) =~= texts(lines@));
    assert(texts(names@).len() == names@.len());
    if names.len() == 0 {
        Err(BundleError::NoFormulae(path.to_string()))
    } else {
        Ok(names)
    }
}

/// What is shown before a bundle of `n` names is installed.
pub fn install_note(path: &str, n: usize) -> (r: String)
    ensures
        r@ == dimmed("bundle: "@ + path@ + " ("@ + decimal(n as nat) + " formulae)"@),
{
    let line = "bundle: ".to_string().concat(path).concat(" (").concat(
        text::show(n as u64).as_str(),
    ).concat(" formulae)");
    ui::dim(line.as_str())
}

/// The names, each ended by a line feed.
pub open spec fn ended(names: Seq<Seq<char>>) -> Seq<char>
    decreases names.len(),
{
    if names.len() == 0 {
        Seq::empty()
    } else {
        names[0] + "\n"@ + ended(names.skip(1))
    }
}

/// A Dramfile that lists the given names.
pub open spec fn dramfile(names: Seq<Seq<char>>) -> Seq<char> {
    "# Dramfile — install with `dram bundle`\n"@ + ended(names)
}

/// The Dramfile for the formulae that the user asked for (not dependencies;
/// they are resolved again on install): a header, then the names in order.
pub fn dump(names: &Vec<String>) -> (r: Result<String, BundleError>)
    ensures
        r is Ok <==> names@.len() > 0,
        r matches Ok(out) ==> exists|p: Seq<int>| #[trigger]
            ranking(texts(names@), p) && out@ == dramfile(arranged(texts(names@), p)),
        r matches Err(e) ==> e is NothingToDump,
{
    if names.len() == 0 {
        return Err(BundleError::NothingToDump);
    }
    let order = text::rank(names);
    let ghost p = positions(order@);
    let ghost sorted = arranged(texts(names@), p);
    let mut out = "# Dramfile — install with `dram bundle`\n".to_string();
    assert(sorted.skip(0) =~= sorted);
    for i in 0..order.len()
        invariant
            p == positions(order@),
            ranking(texts(names@), p),
            sorted == arranged(texts(names@), p),
            out@ + ended(sorted.skip(i as int)) == dramfile(sorted),
    {
        let ghost before = out@;
        assert(p[i as int] == order@[i as int]);
        let name = &names[order[i]];
        out.append(name.as_str());
        out.append("\n");
        proof {
            let rest = sorted.skip(i as int);
            assert(rest[0] == name@);
            assert(rest.skip(1) =~= sorted.skip(i + 1));
            assert(out@ + ended(rest.skip(1)) =~= before + ended(rest));
        }
    }
    assert(out@ + ended(sorted.skip(order@.len() as int)) =~= out@);
    Ok(out)
}

/// What is shown after `n` names were written to `path`.
pub fn dump_note(n: usize, path: &str) -> (r: String)
    ensures
        r@ == CHECK@ + " wrote "@ + decimal(n as nat) + " "@ + formulae_word(n as nat) + " to "@ + path@,
{
    CHECK.to_string().concat(" wrote ").concat(text::show(n as u64).as_str()).concat(" ").concat(
        ui::formulae(n),
    ).concat(" to ").concat(path)
}

/// A name that fits on a line of a Dramfile: on one line, without a comment
/// sign, and with no white space around it.
pub open spec fn plain(name: Seq<char>) -> bool {
    &&& !name.contains('#')
    &&& !name.contains('\n')
    &&& trimmed(name) == name
}

/// The names that are not empty. A Dramfile takes the line of an empty name
/// for a blank line.
pub open spec fn nonempty(names: Seq<Seq<char>>) -> Seq<Seq<char>>
    decreases names.len(),
{
    if names.len() == 0 {
        Seq::empty()
    } else if names.last().len() == 0 {
        nonempty(names.drop_last())
    } else {
        nonempty(names.drop_last()).push(names.last())
    }
}

/// Which names are not empty.
proof fn lemma_nonempty(names: Seq<Seq<char>>)
    ensures
        forall|n: Seq<char>| #[trigger] nonempty(names).contains(n) <==> names.contains(n) && n.len() > 0,
        (forall|i: int| 0 <= i < names.len() ==> (#[trigger] names[i]).len() > 0) ==> nonempty(names) == names,
    decreases names.len(),
{
    if names.len() > 0 {
        let init = names.drop_last();
        lemma_nonempty(init);
        assert(names =~= init.push(names.last()));
        text::lemma_push_contains(init, names.last());
        text::lemma_push_contains(nonempty(init), names.last());
        if forall|i: int| 0 <= i < names.len() ==> (#[trigger] names[i]).len() > 0 {
            assert(names[names.len() - 1].len() > 0);
            assert forall|i: int| 0 <= i < init.len() implies (#[trigger] init[i]).len() > 0 by {
                assert(init[i] == names[i]);
            }
        }
    }
}

/// Law: reading a dumped Dramfile gives back the names that were dumped, in
/// order, but for an empty one.
pub proof fn law_a_dump_reads_back(names: Seq<Seq<char>>, p: Seq<int>)
    requires
        ranking(names, p),
        forall|i: int| 0 <= i < names.len() ==> plain(#[trigger] names[i]),
    ensures
        listed(dramfile(arranged(names, p))) == nonempty(arranged(names, p)),
        (forall|i: int| 0 <= i < names.len() ==> (#[trigger] names[i]).len() > 0) ==> listed(
            dramfile(arranged(names, p)),
        ) == arranged(names, p),
        forall|n: Seq<char>| #[trigger]
            listed(dramfile(arranged(names, p))).contains(n) <==> names.contains(n) && n.len() > 0,
{
    let sorted = arranged(names, p);
    text::law_one_ranking(names, p, p);
    assert forall|i: int| 0 <= i < sorted.len() implies plain(#[trigger] sorted[i]) by {
        assert(plain(names[p[i]]));
    }
    lemma_dramfile_lists(sorted);
    lemma_nonempty(sorted);
    assert forall|n: Seq<char>| #[trigger] sorted.contains(n) <==> names.contains(n) by {
        if sorted.contains(n) {
            let k = choose|k: int| 0 <= k < sorted.len() && sorted[k] == n;
            assert(names[p[k]] == n);
        }
        if names.contains(n) {
            let i = choose|i: int| 0 <= i < names.len() && names[i] == n;
            assert(p.contains(i));
            let k = choose|k: int| 0 <= k < p.len() && p[k] == i;
            assert(sorted[k] == n);
        }
    }
    if forall|i: int| 0 <= i < names.len() ==> (#[trigger] names[i]).len() > 0 {
        assert forall|i: int| 0 <= i < sorted.len() implies (#[trigger] sorted[i]).len() > 0 by {
            assert(names[p[i]].len() > 0);
        }
    }
}

/// The names of the requested formulae are those whose receipts say so.
proof fn lemma_requested(all: Seq<InstalledV>, n: Seq<char>)
    ensures
        requested_of(all).contains(n) <==> exists|k: int|
            0 <= k < all.len() && (#[trigger] all[k]).name == n && (all[k].receipt matches Some(r)
                && r.requested),
    decreases all.len(),
{
    if all.len() > 0 {
        let init = all.drop_last();
        lemma_requested(init, n);
        assert(forall|k: int| 0 <= k < init.len() ==> #[trigger] init[k] == all[k]);
        assert(all[all.len() - 1] == all.last());
        text::lemma_push_contains(requested_of(init), all.last().name);
        if requested_of(init).contains(n) {
            let k = choose|k: int|
                0 <= k < init.len() && (#[trigger] init[k]).name == n && (init[k].receipt matches Some(r)
                    && r.requested);
            assert(all[k].name == n);
        }
        if exists|k: int|
            0 <= k < all.len() && (#[trigger] all[k]).name == n && (all[k].receipt matches Some(r)
                && r.requested) {
            let k = choose|k: int|
                0 <= k < all.len() && (#[trigger] all[k]).name == n && (all[k].receipt matches Some(r)
                    && r.requested);
            if k < init.len() {
                assert(init[k].name == n);
            }
        }
    }
}

/// Law: a dumped Dramfile lists exactly the installed formulae that the user
/// asked for: no dependency that was not asked for is in it, nor the header.
pub proof fn law_a_dump_lists_what_was_requested(all: Seq<InstalledV>, p: Seq<int>, n: Seq<char>)
    requires
        ranking(requested_of(all), p),
        forall|i: int| 0 <= i < requested_of(all).len() ==> plain(#[trigger] requested_of(all)[i]),
        n.len() > 0,
    ensures
        listed(dramfile(arranged(requested_of(all), p))).contains(n) <==> exists|k: int|
            0 <= k < all.len() && (#[trigger] all[k]).name == n && (all[k].receipt matches Some(r)
                && r.requested),
{
    law_a_dump_reads_back(requested_of(all), p);
    lemma_requested(all, n);
}

/// A Dramfile of plain names lists those that are not empty.
proof fn lemma_dramfile_lists(names: Seq<Seq<char>>)
    requires
        forall|i: int| 0 <= i < names.len() ==> plain(#[trigger] names[i]),
    ensures
        listed(dramfile(names)) == nonempty(names),
{
    reveal_strlit("# Dramfile — install with `dram bundle`\n");
    let head = "# Dramfile — install with `dram bundle`\n"@;
    let title = head.drop_last();
    assert(head.last() == '\n');
    assert(!title.contains('\n'));
    assert(head =~= title.push('\n'));
    assert(title.last() == '`');
    lemma_first_line(title, ended(names));
    assert(title + seq!['\n'] + ended(names) =~= dramfile(names));
    lemma_lines_of_ended(names);
    assert(line_seq(dramfile(names)) =~= seq![title] + names);
    reveal_strlit("#");
    assert(text::has_prefix(title, "#"@)) by {
        assert(title.take(1) =~= seq!['#']);
        assert("#"@ =~= seq!['#']);
    }
    assert(entry(title) =~= Seq::empty());
    lemma_entries_plain(title, names);
}

/// A line feed ends the first line.
proof fn lemma_first_line(line: Seq<char>, rest: Seq<char>)
    requires
        !line.contains('\n'),
    ensures
        line_seq(line + seq!['\n'] + rest) == seq![without_cr(line)] + line_seq(rest),
{
    let s = line + seq!['\n'] + rest;
    text::lemma_index_in(s, '\n');
    let i = index_in(s, '\n') as int;
    assert(s[line.len() as int] == '\n');
    if i < line.len() {
        assert(line[i] == s[i]);
    }
    assert(i == line.len());
    assert(s.take(i) =~= line);
    assert(s.skip(i + 1) =~= rest);
}

/// The lines of ended names are the names.
proof fn lemma_lines_of_ended(names: Seq<Seq<char>>)
    requires
        forall|i: int| 0 <= i < names.len() ==> plain(#[trigger] names[i]),
    ensures
        line_seq(ended(names)) == names,
    decreases names.len(),
{
    if names.len() == 0 {
        assert(line_seq(ended(names)) =~= names);
    } else {
        let n = names[0];
        reveal_strlit("\n");
        assert("\n"@ =~= seq!['\n']);
        lemma_first_line(n, ended(names.skip(1)));
        if n.len() > 0 {
            lemma_trimmed_ends(n);
        }
        lemma_lines_of_ended(names.skip(1));
        assert(seq![n] + names.skip(1) =~= names);
    }
}

/// A trimmed text ends in something else than white space.
proof fn lemma_trimmed_ends(s: Seq<char>)
    requires
        s.len() > 0,
        trimmed(s) == s,
    ensures
        !text::is_space(s.last()),
{
    lemma_left_trimmed_shorter(s);
    let l = text::left_trimmed(s);
    lemma_right_trimmed_shorter(l);
    if l.len() < s.len() {
        assert(trimmed(s).len() < s.len());
    }
    assert(l == s) by {
        if text::is_space(s[0]) {
            lemma_left_trimmed_shorter(s.skip(1));
        }
    }
    if text::is_space(s.last()) {
        lemma_right_trimmed_shorter(s.drop_last());
    }
}

proof fn lemma_left_trimmed_shorter(s: Seq<char>)
    ensures
        text::left_trimmed(s).len() <= s.len(),
    decreases s.len(),
{
    if s.len() > 0 && text::is_space(s[0]) {
        lemma_left_trimmed_shorter(s.skip(1));
    }
}

proof fn lemma_right_trimmed_shorter(s: Seq<char>)
    ensures
        text::right_trimmed(s).len() <= s.len(),
    decreases s.len(),
{
    if s.len() > 0 && text::is_space(s.last()) {
        lemma_right_trimmed_shorter(s.drop_last());
    }
}

/// A text without `#` is all that stands before a `#`.
proof fn lemma_no_comment(s: Seq<char>)
    requires
        !s.contains('#'),
    ensures
        until(s, "#"@) == s,
    decreases s.len(),
{
    reveal_strlit("#");
    if s.len() > 0 {
        assert(s.contains(s[0]));
        if text::has_prefix(s, "#"@) {
            assert(s.take(1)[0] == '#');
        }
        assert(!s.skip(1).contains('#')) by {
            if s.skip(1).contains('#') {
                let k = choose|k: int| 0 <= k < s.skip(1).len() && s.skip(1)[k] == '#';
                assert(s[k + 1] == '#');
            }
        }
        lemma_no_comment(s.skip(1));
        assert(seq![s[0]] + s.skip(1) =~= s);
    }
}

/// A line that says nothing, followed by plain names, lists those that are not
/// empty.
proof fn lemma_entries_plain(title: Seq<char>, names: Seq<Seq<char>>)
    requires
        entry(title).len() == 0,
        forall|i: int| 0 <= i < names.len() ==> plain(#[trigger] names[i]),
    ensures
        entries(seq![title] + names) == nonempty(names),
    decreases names.len(),
{
    let lines = seq![title] + names;
    if names.len() == 0 {
        assert(lines.last() == title);
        assert(entries(lines.drop_last()) =~= nonempty(names));
    } else {
        assert(lines.drop_last() =~= seq![title] + names.drop_last());
        assert(lines.last() == names.last());
        lemma_entries_plain(title, names.drop_last());
        assert(plain(names[names.len() - 1]));
        lemma_no_comment(names.last());
    }
}

/// The lines that say something.
pub open spec fn entry_at(lines: Seq<Seq<char>>) -> spec_fn(int, Seq<char>) -> bool {
    |i: int, e: Seq<char>| e == trimmed(until(lines[i], "#"@)) && e.len() > 0
}

/// The entries of the first lines.
proof fn lemma_entries(lines: Seq<Seq<char>>, n: int)
    requires
        0 <= n <= lines.len(),
    ensures
        picks(n, entry_at(lines), entries(lines.take(n))),
    decreases n,
{
    let p = entry_at(lines);
    if n == 0 {
        assert(lines.take(0) =~= Seq::empty());
        picks::lemma_pick_start(p);
    } else {
        lemma_entries(lines, n - 1);
        assert(lines.take(n).drop_last() =~= lines.take(n - 1));
        let before = entries(lines.take(n - 1));
        let e = trimmed(until(lines[n - 1], "#"@));
        if e.len() > 0 {
            assert(p(n - 1, e));
            picks::lemma_pick_one(n - 1, p, before, e);
        } else {
            picks::lemma_pick_none(n - 1, p, before);
        }
    }
}

/// Law: a Dramfile lists what stands on its lines before the comments, without
/// the white space around it, in order, and nothing for lines that are blank but
/// for a comment.
pub proof fn law_every_line_is_an_entry(raw: Seq<char>)
    ensures
        picks(line_seq(raw).len() as int, entry_at(line_seq(raw)), listed(raw)),
{
    let lines = line_seq(raw);
    lemma_entries(lines, lines.len() as int);
    assert(lines.take(lines.len() as int) =~= lines);
}

/// Law: a dumped Dramfile is a comment on its first line and then the names,
/// each on a line of its own.
pub proof fn law_a_dump_has_a_line_for_each_name(name: Seq<char>, more: Seq<Seq<char>>)
    ensures
        ended(Seq::empty()) == Seq::<char>::empty(),
        ended(seq![name] + more) == name + "\n"@ + ended(more),
        text::has_prefix(dramfile(more), "# Dramfile — install with `dram bundle`\n"@),
        dramfile(more).len() == "# Dramfile — install with `dram bundle`\n"@.len() + ended(more).len(),
        text::has_suffix(dramfile(more), ended(more)),
{
    assert((seq![name] + more).skip(1) =~= more);
    let head = "# Dramfile — install with `dram bundle`\n"@;
    assert(dramfile(more).take(head.len() as int) =~= head);
    assert(dramfile(more).skip(dramfile(more).len() - ended(more).len()) =~= ended(more));
}

} // verus!
