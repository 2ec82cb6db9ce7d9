//! Making sure that `<prefix>/bin` is on the search path.

use vstd::prelude::*;

use crate::ctx::Ctx;
use crate::path;
use crate::path::components;
use crate::text;
use crate::text::{has_part, has_suffix, pieces, replaced, texts};
use crate::ui;
use crate::ui::{dimmed, CHECK};

verus! {

/// One of the directories of a search path is `dir`.
pub open spec fn searched(search: Seq<char>, dir: Seq<char>) -> bool {
    exists|i: int|
        0 <= i < pieces(search, ':').len() && components(#[trigger] pieces(search, ':')[i])
            == components(dir)
}

/// What there is to do about the search path.
pub enum PathStep {
    /// Nothing: it holds the directory.
    Done,
    /// Fail: there is no home directory to find the shell profile in.
    NoHome,
    /// Tell the user to do it.
    Tell(String),
    /// Look into the shell profile at the given path.
    Profile { home: String, rc: String },
}

/// The shell profile of a shell.
pub open spec fn profile_of(home: Seq<char>, shell: Seq<char>) -> Option<Seq<char>> {
    if has_suffix(shell, "/zsh"@) {
        Some(home + "/.zshrc"@)
    } else if has_suffix(shell, "/bash"@) {
        Some(home + "/.bash_profile"@)
    } else {
        None
    }
}

/// Whether one of the directories of a search path is `dir`.
fn is_searched(search: &str, dir: &str) -> (r: bool)
    ensures
        r == searched(search@, dir@),
{
    let dirs = text::split(search, ':');
    for i in 0..dirs.len()
        invariant
            texts(dirs@) == pieces(search@, ':'),
            forall|k: int|
                0 <= k < i ==> components(#[trigger] pieces(search@, ':')[k]) != components(dir@),
    {
        assert(pieces(search@, ':')[i as int] == dirs@[i as int]@);
        if path::same(dirs[i].as_str(), dir) {
            return true;
        }
    }
    false
}

/// What there is to do about the search path, given it, the home directory and
/// the shell.
pub fn path_step(ctx: &Ctx, search: &Option<String>, home: &Option<String>, shell: &str) -> (r: PathStep)
    ensures
        if search matches Some(s) && searched(s@, ctx.bin_dir()) {
            r is Done
        } else {
            match home {
                None => r is NoHome,
                Some(h) => match profile_of(h@, shell@) {
                    Some(p) => r matches PathStep::Profile { home: x, rc } && x@ == h@ && rc@ == p,
                    None => r matches PathStep::Tell(note) && note@ == dimmed("·"@) + " add "@ + ctx.bin_dir()
                        + " to your PATH to use installed formulae"@,
                },
            }
        },
{
    let bin = ctx.bin();
    if let Some(s) = search {
        if is_searched(s.as_str(), bin.as_str()) {
            return PathStep::Done;
        }
    }
    let h = match home {
        Some(h) => h,
        None => {
            return PathStep::NoHome;
        },
    };
    if text::ends_with(shell, "/zsh") {
        PathStep::Profile { home: h.clone(), rc: h.clone().concat("/.zshrc") }
    } else if text::ends_with(shell, "/bash") {
        PathStep::Profile { home: h.clone(), rc: h.clone().concat("/.bash_profile") }
    } else {
        PathStep::Tell(
            ui::dim("·").concat(" add ").concat(bin.as_str()).concat(
                " to your PATH to use installed formulae",
            ),
        )
    }
}

/// The bin directory as it is written in a profile: relative to the home
/// directory, so that the line survives a change of the user's name.
pub open spec fn portable_bin(ctx: Ctx, home: Seq<char>) -> Seq<char> {
    replaced(ctx.bin_dir(), home, "$HOME"@)
}

/// The profile with the search path extended.
pub open spec fn extended(ctx: Ctx, home: Seq<char>, existing: Seq<char>) -> Seq<char> {
    let ended = if existing.len() > 0 && existing.last() != '\n' {
        existing.push('\n')
    } else {
        existing
    };
    ended + "\n# added by dram\nexport PATH=\""@ + portable_bin(ctx, home) + ":$PATH\"\n"@
}

/// What there is to do about a shell profile.
pub enum ProfileStep {
    /// Nothing: it is set up, and the user is told so.
    Configured(String),
    /// Write it, then tell the user.
    Write { content: String, note: String },
}

/// What there is to do about a shell profile, given what is in it.
pub fn ensure_on_path(ctx: &Ctx, home: &str, rc: &str, existing: &str) -> (r: ProfileStep)
    ensures
        if has_part(existing@, portable_bin(*ctx, home@)) {
            r matches ProfileStep::Configured(note) && note@ == CHECK@ + " restart your shell to pick up "@
                + ctx.bin_dir()
        } else {
            r matches ProfileStep::Write { content, note } && content@ == extended(*ctx, home@, existing@)
                && note@ == CHECK@ + " added "@ + ctx.bin_dir() + " to PATH in "@ + rc@
                + " — open a new shell or run: source "@ + rc@
        },
{
    let bin = ctx.bin();
    let portable = text::replace(bin.as_str(), home, "$HOME");
    if text::contains(existing, portable.as_str()) {
        return ProfileStep::Configured(
            CHECK.to_string().concat(" restart your shell to pick up ").concat(bin.as_str()),
        );
    }
    let cs = text::chars_of(existing);
    let mut content = existing.to_string();
    if cs.len() > 0 && cs[cs.len() - 1] != '\n' {
        content.push('\n');
    }
    let content = content.concat("\n# added by dram\nexport PATH=\"").concat(portable.as_str()).concat(
        ":$PATH\"\n",
    );
    let note = CHECK.to_string().concat(" added ").concat(bin.as_str()).concat(" to PATH in ").concat(
        rc,
    ).concat(" — open a new shell or run: source ").concat(rc);
    ProfileStep::Write { content, note }
}

/// Law: a profile is extended once: after that it is found to be set up, and
/// all that was in it is still there.
pub proof fn law_profile_is_extended_once(ctx: Ctx, home: Seq<char>, existing: Seq<char>)
    ensures
        has_part(extended(ctx, home, existing), portable_bin(ctx, home)),
        text::has_prefix(extended(ctx, home, existing), existing),
{
    let ended = if existing.len() > 0 && existing.last() != '\n' {
        existing.push('\n')
    } else {
        existing
    };
    let head = ended + "\n# added by dram\nexport PATH=\""@;
    let bin = portable_bin(ctx, home);
    let all = extended(ctx, home, existing);
    let at = head.len() as int;
    assert(all.subrange(at, at + bin.len()) =~= bin);
    assert(text::occurs_at(all, bin, at));
    assert(all.take(existing.len() as int) =~= existing);
}

/// Law: the profile is that of the user's shell: `.zshrc` for zsh and
/// `.bash_profile` for bash, in the home directory; there is none for others.
pub proof fn law_profiles_belong_to_shells(home: Seq<char>, dir: Seq<char>, shell: Seq<char>)
    ensures
        profile_of(home, dir + "/zsh"@) == Some(home + "/.zshrc"@),
        profile_of(home, dir + "/bash"@) == Some(home + "/.bash_profile"@),
        !has_suffix(shell, "/zsh"@) && !has_suffix(shell, "/bash"@) ==> profile_of(home, shell) is None,
{
    reveal_strlit("/zsh");
    reveal_strlit("/bash");
    let z = dir + "/zsh"@;
    let b = dir + "/bash"@;
    assert(z.skip(z.len() - 4) =~= "/zsh"@);
    assert(b.skip(b.len() - 5) =~= "/bash"@);
    assert(!has_suffix(b, "/zsh"@)) by {
        assert(b.skip(b.len() - 4)[0] == 'b');
        assert("/zsh"@[0] == '/');
    }
}

/// Law: a search path holds a directory if and only if one of the paths between
/// its colons has the components of it.
pub proof fn law_search_paths_hold_what_colons_separate(d: Seq<char>, rest: Seq<char>, dir: Seq<char>)
    requires
        !d.contains(':'),
    ensures
        searched(d, dir) <==> components(d) == components(dir),
        searched(d + seq![':'] + rest, dir) <==> components(d) == components(dir) || searched(rest, dir),
{
    let s = d + seq![':'] + rest;
    text::lemma_index_in(d, ':');
    text::lemma_index_in(s, ':');
    let n = d.len() as int;
    assert(s[n] == ':');
    let i = text::index_in(s, ':') as int;
    if i < n {
        assert(d.contains(s[i])) by {
            assert(d[i] == s[i]);
        }
    }
    if text::index_in(d, ':') < n {
        assert(d.contains(d[text::index_in(d, ':') as int]));
    }
    assert(pieces(d, ':') =~= seq![d]);
    assert(s.take(n) =~= d);
    assert(s.skip(n + 1) =~= rest);
    let more = pieces(rest, ':');
    let all = pieces(s, ':');
    assert(all =~= seq![d] + more);
    if components(d) == components(dir) {
        assert(components(pieces(d, ':')[0]) == components(dir));
        assert(components(all[0]) == components(dir));
    }
    if searched(d, dir) {
        let k = choose|k: int|
            0 <= k < pieces(d, ':').len() && components(#[trigger] pieces(d, ':')[k]) == components(dir);
    }
    if searched(rest, dir) {
        let k = choose|k: int| 0 <= k < more.len() && components(#[trigger] more[k]) == components(dir);
        assert(components(all[k + 1]) == components(dir));
    }
    if searched(s, dir) {
        let k = choose|k: int| 0 <= k < all.len() && components(#[trigger] all[k]) == components(dir);
        if k > 0 {
            assert(components(more[k - 1]) == components(dir));
        }
    }
}

/// Law: the directory is written relative to the home directory where it lies in
/// it, and as it is otherwise.
pub proof fn law_profiles_are_portable(ctx: Ctx, home: Seq<char>, rest: Seq<char>)
    requires
        home.len() > 0,
    ensures
        ctx.bin_dir() == home + rest && !text::has_part(rest, home) ==> portable_bin(ctx, home) == "$HOME"@
            + rest,
        !text::has_part(ctx.bin_dir(), home) ==> portable_bin(ctx, home) == ctx.bin_dir(),
{
    let bin = ctx.bin_dir();
    text::law_replacing_goes_from_left_to_right(bin, home, "$HOME"@);
    if bin == home + rest && !text::has_part(rest, home) {
        assert(bin.take(home.len() as int) =~= home);
        text::lemma_prefix_is_part(bin, home);
        assert(text::until(bin, home) =~= Seq::empty());
        assert(bin.skip(0int + home.len()) =~= rest);
        text::lemma_replaced_absent(rest, home, "$HOME"@);
        assert(Seq::<char>::empty() + "$HOME"@ + rest =~= "$HOME"@ + rest);
    }
}

/// Law: a profile is extended at its end, behind a line feed, by a line that
/// says who added it and one that puts the directory in front of the search path.
pub proof fn law_profiles_are_extended_at_the_end(ctx: Ctx, home: Seq<char>, existing: Seq<char>)
    ensures
        ({
            let added = "\n# added by dram\nexport PATH=\""@ + portable_bin(ctx, home) + ":$PATH\"\n"@;
            extended(ctx, home, existing) == if existing.len() == 0 || existing.last() == '\n' {
                existing + added
            } else {
                existing + seq!['\n'] + added
            }
        }),
{
    let added = "\n# added by dram\nexport PATH=\""@ + portable_bin(ctx, home) + ":$PATH\"\n"@;
    if existing.len() == 0 || existing.last() == '\n' {
        assert(extended(ctx, home, existing) =~= existing + added);
    } else {
        assert(extended(ctx, home, existing) =~= existing + seq!['\n'] + added);
    }
}

} // verus!
