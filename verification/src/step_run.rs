//! What the post-install steps run, what they write, and what the user is
//! told about it.

use vstd::prelude::*;

use crate::path;
use crate::path::last_name;
use crate::step_plan;
use crate::step_plan::warning;
use crate::text;
use crate::text::{clipped, joined, replaced, texts, word_seq};

verus! {

broadcast use text::lemma_texts_push;

/// The note that a step failed.
pub open spec fn failed_step(name: Seq<char>, ty: Seq<char>, error: Seq<char>) -> Seq<char> {
    warning(name, "post-install step '"@ + ty + "' failed: "@ + error)
}

/// What the user is told of a step that failed.
pub fn failure_note(name: &str, ty: &str, error: &str) -> (r: String)
    ensures
        r@ == failed_step(name@, ty@, error@),
{
    let message = "post-install step '".to_string().concat(ty).concat("' failed: ").concat(error);
    step_plan::warn(name, message.as_str())
}

/// The last component of a path, or nothing.
pub open spec fn shown_name(p: Seq<char>) -> Seq<char> {
    match last_name(p) {
        Some(n) => n,
        None => Seq::empty(),
    }
}

/// The last component of a path, or nothing.
fn show_name(p: &str) -> (r: String)
    ensures
        r@ == shown_name(p@),
{
    match path::file_name(p) {
        Some(n) => n,
        None => String::new(),
    }
}

/// What the user is told before a command runs.
pub fn run_note(name: &str, command: &str, args: &Vec<String>) -> (r: String)
    ensures
        r@ == "· "@ + name@ + ": post-install ran "@ + shown_name(command@) + " "@ + joined(
            texts(args@),
            " "@,
        ),
{
    "· ".to_string().concat(name).concat(": post-install ran ").concat(
        show_name(command).as_str(),
    ).concat(" ").concat(text::join(args, " ").as_str())
}

/// What is wrong with a command that ended with `status`: the first part of
/// what it printed.
pub fn run_failure(status: &str, stderr: &str) -> (r: String)
    ensures
        r@ == "exit "@ + status@ + ": "@ + clipped(stderr@, 200),
{
    "exit ".to_string().concat(status).concat(": ").concat(text::clip(stderr, 200).as_str())
}

/// The views of a result over strings.
pub open spec fn outcome(r: Result<String, String>) -> Result<Seq<char>, Seq<char>> {
    match r {
        Ok(s) => Ok(s@),
        Err(e) => Err(e@),
    }
}

/// `content` with every match of a regular expression replaced by what
/// `after` makes of it; what is wrong with the expression where it is none.
pub uninterp spec fn regex_replaced(
    pattern: Seq<char>,
    content: Seq<char>,
    after: Seq<char>,
) -> Result<Seq<char>, Seq<char>>;

/// `regex::Regex::new` on `pattern`, then `Regex::replace_all` on `content`
/// with `after` as the replacement text; where the pattern does not compile,
/// the text of its `regex::Error`. The result depends on the three texts
/// alone.
#[verifier::external_body]
fn regex_replace(pattern: &str, content: &str, after: &str) -> (r: Result<String, String>)
    ensures
        outcome(r) == regex_replaced(pattern@, content@, after@),
{
    match regex::Regex::new(pattern) {
        Ok(re) => Ok(re.replace_all(content, after).into_owned()),
        Err(e) => Err(e.to_string()),
    }
}

/// What is to be written after a replacement: nothing where it changed
/// nothing.
pub open spec fn to_write(content: Seq<char>, after: Seq<char>) -> Option<Seq<char>> {
    if after == content {
        None
    } else {
        Some(after)
    }
}

/// What is to be written after a replacement made `after` of `content`.
pub fn settle(content: &str, after: String) -> (r: Option<String>)
    ensures
        text::opt_text(r) == to_write(content@, after@),
{
    if text::same(after.as_str(), content) {
        None
    } else {
        Some(after)
    }
}

/// What is to be written in the place of `content`, with `before` replaced by
/// `after`; what is wrong with `before` where it is meant as a regular
/// expression and is none.
pub fn inreplace(content: &str, before: &str, after: &str, regexp: bool) -> (r: Result<
    Option<String>,
    String,
>)
    ensures
        ({
            let outcome = if regexp {
                regex_replaced(before@, content@, after@)
            } else {
                Ok(replaced(content@, before@, after@))
            };
            match outcome {
                Ok(t) => r matches Ok(w) && text::opt_text(w) == to_write(content@, t),
                Err(e) => r matches Err(x) && x@ == e,
            }
        }),
{
    let made = if regexp {
        match regex_replace(before, content, after) {
            Ok(t) => t,
            Err(e) => {
                return Err(e);
            },
        }
    } else {
        text::replace(content, before, after)
    };
    Ok(settle(content, made))
}

/// What to do with a gzipped executable.
pub enum Gzipped {
    /// Unpack it.
    Unpack,
    /// Nothing: it is there unpacked.
    Done,
    /// Fail, with a reason.
    Missing(String),
}

/// What to do with a gzipped executable, given which of its two files are
/// there. Some platforms' bottles ship it already unpacked.
pub fn gzipped(src: &str, dst: &str, src_present: bool, dst_present: bool) -> (r: Gzipped)
    ensures
        src_present ==> r is Unpack,
        !src_present && dst_present ==> r is Done,
        !src_present && !dst_present ==> (r matches Gzipped::Missing(m) && m@ == src@
            + " missing and "@ + dst@ + " not present"@),
{
    if src_present {
        Gzipped::Unpack
    } else if dst_present {
        Gzipped::Done
    } else {
        Gzipped::Missing(
            src.to_string().concat(" missing and ").concat(dst).concat(" not present"),
        )
    }
}

/// What gzipped data holds, or what is wrong with it.
pub uninterp spec fn gunzipped(data: Seq<u8>) -> Result<Seq<u8>, Seq<char>>;

/// A `flate2::read::GzDecoder` over `data`, read to its end; where the data
/// is no gzip stream, the text of the error. The result depends on the data
/// alone.
#[verifier::external_body]
fn gunzip(data: &Vec<u8>) -> (r: Result<Vec<u8>, String>)
    ensures
        match gunzipped(data@) {
            Ok(out) => r matches Ok(v) && v@ == out,
            Err(e) => r matches Err(x) && x@ == e,
        },
{
    let mut out = Vec::new();
    match std::io::Read::read_to_end(&mut flate2::read::GzDecoder::new(&data[..]), &mut out) {
        Ok(_) => Ok(out),
        Err(e) => Err(e.to_string()),
    }
}

/// A file to be written, with its mode.
pub struct Unpacked {
    pub data: Vec<u8>,
    pub mode: u32,
}

/// The executable that gzipped data holds: all may run it, the owner may
/// write it.
pub fn unpack(data: &Vec<u8>) -> (r: Result<Unpacked, String>)
    ensures
        match gunzipped(data@) {
            Ok(out) => r matches Ok(u) && u.data@ == out && u.mode == 0o755,
            Err(e) => r matches Err(x) && x@ == e,
        },
{
    match gunzip(data) {
        Ok(out) => Ok(Unpacked { data: out, mode: 0o755 }),
        Err(e) => Err(e),
    }
}

/// The first of the paths that exists.
pub open spec fn first_existing(paths: Seq<Seq<char>>, existing: Set<Seq<char>>) -> Option<Seq<char>>
    decreases paths.len(),
{
    if paths.len() == 0 {
        None
    } else if existing.contains(paths[0]) {
        Some(paths[0])
    } else {
        first_existing(paths.skip(1), existing)
    }
}

/// The first of the tools that exists.
pub fn find_tool(tools: &Vec<String>, existing: &Vec<String>) -> (r: Option<String>)
    ensures
        text::opt_text(r) == first_existing(texts(tools@), texts(existing@).to_set()),
{
    let ghost all = texts(tools@);
    assert(all.skip(0) =~= all);
    for i in 0..tools.len()
        invariant
            all == texts(tools@),
            first_existing(all.skip(i as int), texts(existing@).to_set()) == first_existing(
                all,
                texts(existing@).to_set(),
            ),
    {
        assert(all.skip(i as int)[0] == tools@[i as int]@);
        if text::among(tools[i].as_str(), existing) {
            return Some(tools[i].clone());
        }
        assert(all.skip(i as int).skip(1) =~= all.skip(i + 1));
    }
    None
}

/// A command with its arguments.
pub struct Invocation {
    pub tool: String,
    pub args: Vec<String>,
}

/// The command of a step that runs a helper tool on a directory. A missing
/// tool or a missing directory is a quiet skip: these steps maintain caches
/// that do not exist unless the relevant stack is installed.
pub fn tool_step(
    dir: &Option<String>,
    dir_present: bool,
    tools: &Vec<String>,
    pre_args: &Vec<String>,
    existing: &Vec<String>,
) -> (r: Option<Invocation>)
    ensures
        ({
            let tool = first_existing(texts(tools@), texts(existing@).to_set());
            if (dir is Some && !dir_present) || tool is None {
                r is None
            } else {
                r matches Some(c) && Some(c.tool@) == tool && texts(c.args@) == texts(pre_args@)
                    + match *dir {
                    Some(d) => seq![d@],
                    None => Seq::empty(),
                }
            }
        }),
{
    if dir.is_some() && !dir_present {
        return None;
    }
    let tool = match find_tool(tools, existing) {
        Some(t) => t,
        None => {
            return None;
        },
    };
    let mut args: Vec<String> = Vec::new();
    for i in 0..pre_args.len()
        invariant
            texts(args@) =~= texts(pre_args@).take(i as int),
    {
        args.push(pre_args[i].clone());
    }
    assert(texts(args@) =~= texts(pre_args@) + Seq::empty());
    if let Some(d) = dir {
        args.push(d.clone());
        assert(texts(args@) =~= texts(pre_args@) + seq![d@]);
    }
    Some(Invocation { tool, args })
}

/// What the user is told of a helper tool that failed.
pub fn tool_failure(name: &str, tool: &str, stderr: &str) -> (r: String)
    ensures
        r@ == warning(name@, shown_name(tool@) + " failed: "@ + clipped(stderr@, 120)),
{
    let message = show_name(tool).concat(" failed: ").concat(text::clip(stderr, 120).as_str());
    step_plan::warn(name, message.as_str())
}

/// What to do with a data directory.
pub enum InitStep {
    /// Nothing: there is something in it.
    Keep,
    /// Tell the user that the tool is missing.
    Skip(String),
    /// Tell the user, then run the tool.
    Fill { note: String, run: Invocation },
}

/// The arguments that a data directory is filled with, as one line.
pub open spec fn init_line(using: Seq<char>, dir: Seq<char>) -> Seq<char> {
    if using == "mysql_install_db"@ {
        "--initialize-insecure --datadir="@ + dir
    } else if using == "initdb"@ {
        "--locale=C -E UTF-8 "@ + dir
    } else {
        "--datadir="@ + dir
    }
}

/// A directory counts as empty where it is missing, cannot be read or has no
/// entries.
pub open spec fn counts_as_empty(present: bool, entries: Option<usize>) -> bool {
    !present || entries is None || entries == Some(0usize)
}

/// What to do with the data directory of a formula, given whether it is there,
/// how many entries it has where it can be read, and which tools exist.
pub fn init_data_dir(
    name: &str,
    dir: &str,
    using: &str,
    present: bool,
    entries: Option<usize>,
    tools: &Vec<String>,
    existing: &Vec<String>,
) -> (r: InitStep)
    ensures
        if !counts_as_empty(present, entries) {
            r is Keep
        } else {
            match first_existing(texts(tools@), texts(existing@).to_set()) {
                Some(tool) => r matches InitStep::Fill { note, run } && note@ == "· "@ + name@
                    + ": initializing data dir via "@ + using@ && run.tool@ == tool && texts(run.args@)
                    == word_seq(init_line(using@, dir@)),
                None => r matches InitStep::Skip(note) && note@ == warning(
                    name@,
                    "init_data_dir via '"@ + using@ + "' skipped (tool not installed)"@,
                ),
            }
        },
{
    let empty = !present || match entries {
        Some(n) => n == 0,
        None => true,
    };
    if !empty {
        return InitStep::Keep;
    }
    match find_tool(tools, existing) {
        Some(tool) => {
            let line = if text::same(using, "mysql_install_db") {
                "--initialize-insecure --datadir=".to_string().concat(dir)
            } else if text::same(using, "initdb") {
                "--locale=C -E UTF-8 ".to_string().concat(dir)
            } else {
                "--datadir=".to_string().concat(dir)
            };
            let note = "· ".to_string().concat(name).concat(": initializing data dir via ").concat(using);
            InitStep::Fill { note, run: Invocation { tool, args: text::words(line.as_str()) } }
        },
        None => {
            let message = "init_data_dir via '".to_string().concat(using).concat(
                "' skipped (tool not installed)",
            );
            InitStep::Skip(step_plan::warn(name, message.as_str()))
        },
    }
}

/// What is wrong with a tool that did not fill a data directory.
pub fn init_failure(using: &str, stderr: &str) -> (r: String)
    ensures
        r@ == using@ + " failed: "@ + clipped(stderr@, 200),
{
    using.to_string().concat(" failed: ").concat(text::clip(stderr, 200).as_str())
}

/// Law: the tool that is run is there, and none of those listed before it is; no
/// tool is found only where none is there.
pub proof fn law_the_first_tool_is_run(paths: Seq<Seq<char>>, existing: Set<Seq<char>>)
    ensures
        match first_existing(paths, existing) {
            Some(p) => exists|i: int|
                0 <= i < paths.len() && #[trigger] paths[i] == p && existing.contains(p) && forall|j: int|
                    0 <= j < i ==> !existing.contains(#[trigger] paths[j]),
            None => forall|j: int| 0 <= j < paths.len() ==> !existing.contains(#[trigger] paths[j]),
        },
    decreases paths.len(),
{
    if paths.len() > 0 {
        if existing.contains(paths[0]) {
            assert(paths[0] == first_existing(paths, existing)->0);
        } else {
            let rest = paths.skip(1);
            law_the_first_tool_is_run(rest, existing);
            match first_existing(rest, existing) {
                Some(p) => {
                    let i = choose|i: int|
                        0 <= i < rest.len() && #[trigger] rest[i] == p && existing.contains(p) && forall|j: int|
                            0 <= j < i ==> !existing.contains(#[trigger] rest[j]);
                    assert(paths[i + 1] == p);
                    assert forall|j: int| 0 <= j < i + 1 implies !existing.contains(#[trigger] paths[j]) by {
                        if j > 0 {
                            assert(rest[j - 1] == paths[j]);
                        }
                    }
                },
                None => {
                    assert forall|j: int| 0 <= j < paths.len() implies !existing.contains(
                        #[trigger] paths[j],
                    ) by {
                        if j > 0 {
                            assert(rest[j - 1] == paths[j]);
                        }
                    }
                },
            }
        }
    }
}

/// Law: a file is written after a replacement only where that changed something,
/// and then as it was changed.
pub proof fn law_only_changes_are_written(content: Seq<char>, after: Seq<char>)
    ensures
        after == content <==> to_write(content, after) is None,
        after != content ==> to_write(content, after) == Some(after),
{
}

/// Law: a data directory is filled only where nothing is known to be in it, with
/// the arguments that the tool takes.
pub proof fn law_data_directories_are_not_filled_twice(n: usize, dir: Seq<char>, using: Seq<char>)
    ensures
        !counts_as_empty(true, Some(n)) <==> n > 0,
        counts_as_empty(true, None),
        forall|entries: Option<usize>| #[trigger] counts_as_empty(false, entries),
        init_line("mysql_install_db"@, dir) == "--initialize-insecure --datadir="@ + dir,
        init_line("initdb"@, dir) == "--locale=C -E UTF-8 "@ + dir,
        using != "mysql_install_db"@ && using != "initdb"@ ==> init_line(using, dir) == "--datadir="@ + dir,
{
    reveal_strlit("mysql_install_db");
    reveal_strlit("initdb");
    assert("mysql_install_db"@.len() == 16);
    assert("initdb"@.len() == 6);
}

/// Law: a failed step is told with the name of the formula, the kind of the step
/// and the error; a command is shown by its last component.
pub proof fn law_failures_are_told(name: Seq<char>, ty: Seq<char>, error: Seq<char>, p: Seq<char>)
    ensures
        failed_step(name, ty, error) == "\x1b[33m!\x1b[0m "@ + name + ": "@ + ("post-install step '"@ + ty
            + "' failed: "@ + error),
        last_name(p) matches Some(n) ==> shown_name(p) == n,
        last_name(p) is None ==> shown_name(p).len() == 0,
{
}

} // verus!
