//! What each kind of post-install step asks for, read from its JSON.

use vstd::prelude::*;

use crate::ctx::Ctx;
use crate::json::{models, Json, JsonV};
use crate::path;
use crate::path::below;
use crate::picks;
use crate::picks::picks;
use crate::postinstall;
use crate::postinstall::{expansion, StepCtx};
use crate::text;
use crate::text::{opt_text, texts};

verus! {

broadcast use text::lemma_texts_push;

/// A path, or a glob pattern that stands for all paths that match it.
pub struct Place {
    pub path: String,
    pub glob: bool,
}

/// Paths and whether each is a pattern.
pub open spec fn places(v: Seq<Place>) -> Seq<(Seq<char>, bool)> {
    v.map_values(|p: Place| (p.path@, p.glob))
}

/// The same mark for each path.
pub open spec fn marked(ps: Seq<Seq<char>>, glob: bool) -> Seq<(Seq<char>, bool)> {
    ps.map_values(|p: Seq<char>| (p, glob))
}

/// What a step asks for.
pub enum Action {
    MakeDirs(Vec<Place>),
    Touch(Vec<Place>),
    Remove(Vec<Place>),
    Symlink { sources: Vec<Place>, target: String, force: bool },
    LinkDir { source: String, target: String },
    LinkChildren { source: String, target: String, suffix: String },
    Copy { sources: Vec<Place>, target: String },
    Move { sources: Vec<Place>, target: String, overwrite: bool },
    Write { path: String, content: String, overwrite: bool },
    SetPermissions { paths: Vec<Place>, mode: String, recursive: bool },
    InReplace { path: String, before: String, after: String, regexp: bool },
    InstallGzipped { source: String, target: String },
    Run { command: String, args: Vec<String>, dir: Option<String>, env: Vec<(String, String)> },
    /// Ends the processes whose command line matches.
    Terminate(String),
    /// Runs the first of the tools that is there on a directory.
    Tool { dir: Option<String>, tools: Vec<String>, args: Vec<String> },
    /// Fills an empty data directory with the first of the tools that is there.
    InitDataDir { data: String, using: String, tools: Vec<String> },
    /// Tells the user something.
    Note(String),
    Nothing,
}

/// What an `Action` stands for.
pub enum ActionV {
    MakeDirs(Seq<(Seq<char>, bool)>),
    Touch(Seq<(Seq<char>, bool)>),
    Remove(Seq<(Seq<char>, bool)>),
    Symlink { sources: Seq<(Seq<char>, bool)>, target: Seq<char>, force: bool },
    LinkDir { source: Seq<char>, target: Seq<char> },
    LinkChildren { source: Seq<char>, target: Seq<char>, suffix: Seq<char> },
    Copy { sources: Seq<(Seq<char>, bool)>, target: Seq<char> },
    Move { sources: Seq<(Seq<char>, bool)>, target: Seq<char>, overwrite: bool },
    Write { path: Seq<char>, content: Seq<char>, overwrite: bool },
    SetPermissions { paths: Seq<(Seq<char>, bool)>, mode: Seq<char>, recursive: bool },
    InReplace { path: Seq<char>, before: Seq<char>, after: Seq<char>, regexp: bool },
    InstallGzipped { source: Seq<char>, target: Seq<char> },
    Run {
        command: Seq<char>,
        args: Seq<Seq<char>>,
        dir: Option<Seq<char>>,
        env: Seq<(Seq<char>, Seq<char>)>,
    },
    Terminate(Seq<char>),
    Tool { dir: Option<Seq<char>>, tools: Seq<Seq<char>>, args: Seq<Seq<char>> },
    InitDataDir { data: Seq<char>, using: Seq<char>, tools: Seq<Seq<char>> },
    Note(Seq<char>),
    Nothing,
}

/// The views of pairs of strings.
pub open spec fn text_pairs(v: Seq<(String, String)>) -> Seq<(Seq<char>, Seq<char>)> {
    v.map_values(|p: (String, String)| (p.0@, p.1@))
}

impl View for Action {
    type V = ActionV;

    open spec fn view(&self) -> ActionV {
        match self {
            Action::MakeDirs(ps) => ActionV::MakeDirs(places(ps@)),
            Action::Touch(ps) => ActionV::Touch(places(ps@)),
            Action::Remove(ps) => ActionV::Remove(places(ps@)),
            Action::Symlink { sources, target, force } => ActionV::Symlink {
                sources: places(sources@),
                target: target@,
                force: *force,
            },
            Action::LinkDir { source, target } => ActionV::LinkDir {
                source: source@,
                target: target@,
            },
            Action::LinkChildren { source, target, suffix } => ActionV::LinkChildren {
                source: source@,
                target: target@,
                suffix: suffix@,
            },
            Action::Copy { sources, target } => ActionV::Copy {
                sources: places(sources@),
                target: target@,
            },
            Action::Move { sources, target, overwrite } => ActionV::Move {
                sources: places(sources@),
                target: target@,
                overwrite: *overwrite,
            },
            Action::Write { path, content, overwrite } => ActionV::Write {
                path: path@,
                content: content@,
                overwrite: *overwrite,
            },
            Action::SetPermissions { paths, mode, recursive } => ActionV::SetPermissions {
                paths: places(paths@),
                mode: mode@,
                recursive: *recursive,
            },
            Action::InReplace { path, before, after, regexp } => ActionV::InReplace {
                path: path@,
                before: before@,
                after: after@,
                regexp: *regexp,
            },
            Action::InstallGzipped { source, target } => ActionV::InstallGzipped {
                source: source@,
                target: target@,
            },
            Action::Run { command, args, dir, env } => ActionV::Run {
                command: command@,
                args: texts(args@),
                dir: opt_text(*dir),
                env: text_pairs(env@),
            },
            Action::Terminate(name) => ActionV::Terminate(name@),
            Action::Tool { dir, tools, args } => ActionV::Tool {
                dir: opt_text(*dir),
                tools: texts(tools@),
                args: texts(args@),
            },
            Action::InitDataDir { data, using, tools } => ActionV::InitDataDir {
                data: data@,
                using: using@,
                tools: texts(tools@),
            },
            Action::Note(n) => ActionV::Note(n@),
            Action::Nothing => ActionV::Nothing,
        }
    }
}

/// A step does not say where to do what it asks for.
pub struct MissingPath;

impl MissingPath {
    /// What the user is told.
    pub fn message(&self) -> (r: String)
        ensures
            r@ == "step is missing a required path"@,
    {
        "step is missing a required path".to_string()
    }
}

/// The paths of those of the objects that stand for one.
pub open spec fn located(sc: StepCtx<'_>, vs: Seq<JsonV>) -> Seq<Seq<char>>
    decreases vs.len(),
{
    if vs.len() == 0 {
        Seq::empty()
    } else {
        match sc.location(vs.last()) {
            Some(p) => located(sc, vs.drop_last()).push(p),
            None => located(sc, vs.drop_last()),
        }
    }
}

/// The items of the member `key`, where it is an array.
pub open spec fn list_at(v: JsonV, key: Seq<char>) -> Option<Seq<JsonV>> {
    match v.get(key) {
        Some(m) => m.as_array(),
        None => None,
    }
}

/// The paths that a step names: all of `paths`, or else its `path`.
pub open spec fn named_paths(sc: StepCtx<'_>, step: JsonV) -> Seq<Seq<char>> {
    match list_at(step, "paths"@) {
        Some(vs) => located(sc, vs),
        None => match sc.location_at(step, "path"@) {
            Some(p) => seq![p],
            None => Seq::empty(),
        },
    }
}

/// Paths as they are, and in the place of each that holds an asterisk the
/// patterns that its brace groups stand for.
pub open spec fn with_patterns(ps: Seq<Seq<char>>) -> Seq<(Seq<char>, bool)>
    decreases ps.len(),
{
    if ps.len() == 0 {
        Seq::empty()
    } else {
        with_patterns(ps.drop_last()) + if ps.last().contains('*') {
            marked(expansion(ps.last()), true)
        } else {
            seq![(ps.last(), false)]
        }
    }
}

/// The places that a step works on.
pub open spec fn step_places(sc: StepCtx<'_>, step: JsonV) -> Seq<(Seq<char>, bool)> {
    with_patterns(named_paths(sc, step))
}

/// The places that a source path stands for: patterns where the step sets
/// `source_glob`, the path itself otherwise.
pub open spec fn source_places(src: Seq<char>, step: JsonV) -> Seq<(Seq<char>, bool)> {
    if step.flag_at("source_glob"@, false) {
        marked(expansion(src), true)
    } else {
        seq![(src, false)]
    }
}

/// Where the tools of other formulae may be: in the formula, or linked.
pub open spec fn tool_paths(ctx: Ctx, tools: Seq<(Seq<char>, Seq<char>)>) -> Seq<Seq<char>>
    decreases tools.len(),
{
    if tools.len() == 0 {
        Seq::empty()
    } else {
        let (formula, bin) = tools.last();
        tool_paths(ctx, tools.drop_last()).push(
            below(below(below(ctx.opt_dir(), formula), "bin"@), bin),
        ).push(below(ctx.bin_dir(), bin))
    }
}

/// The template-expanded strings among the values.
pub open spec fn strings(sc: StepCtx<'_>, vs: Seq<JsonV>) -> Seq<Seq<char>>
    decreases vs.len(),
{
    if vs.len() == 0 {
        Seq::empty()
    } else {
        match vs.last().as_str() {
            Some(s) => strings(sc, vs.drop_last()).push(sc.expanded(s)),
            None => strings(sc, vs.drop_last()),
        }
    }
}

/// The members that are strings, with their template-expanded values.
pub open spec fn string_members(sc: StepCtx<'_>, ms: Seq<(Seq<char>, JsonV)>) -> Seq<
    (Seq<char>, Seq<char>),
>
    decreases ms.len(),
{
    if ms.len() == 0 {
        Seq::empty()
    } else {
        match ms.last().1.as_str() {
            Some(s) => string_members(sc, ms.drop_last()).push((ms.last().0, sc.expanded(s))),
            None => string_members(sc, ms.drop_last()),
        }
    }
}

/// The template-expanded text of the member `key`; empty where there is none.
pub open spec fn expanded_at(sc: StepCtx<'_>, step: JsonV, key: Seq<char>) -> Seq<char> {
    match step.str_at(key) {
        Some(s) => sc.expanded(s),
        None => sc.expanded(""@),
    }
}

/// A warning about a formula.
pub open spec fn warning(name: Seq<char>, message: Seq<char>) -> Seq<char> {
    "\x1b[33m!\x1b[0m "@ + name + ": "@ + message
}

/// The kind of a step.
pub open spec fn kind_of(step: JsonV) -> Seq<char> {
    match step.str_at("type"@) {
        Some(t) => t,
        None => "?"@,
    }
}

/// The step kinds that need more than the index tells.
pub open spec fn unsupported(ty: Seq<char>) -> bool {
    ||| ty == "configure_gcc_runtime"@
    ||| ty == "configure_clang_system"@
    ||| ty == "configure_glibc_runtime"@
    ||| ty == "configure_php"@
    ||| ty == "bootstrap_cpython"@
    ||| ty == "bootstrap_pypy"@
}

/// The tools that fill a data directory.
pub open spec fn init_tools(using: Seq<char>) -> Seq<(Seq<char>, Seq<char>)> {
    if using == "mariadb_install_db"@ {
        seq![("mariadb"@, "mariadb-install-db"@)]
    } else if using == "mysql_install_db"@ {
        seq![("mysql"@, "mysqld"@)]
    } else if using == "initdb"@ {
        seq![("postgresql"@, "initdb"@)]
    } else {
        Seq::empty()
    }
}

/// The tools that a kind of step runs on a directory, with the arguments that
/// come before it; none for other kinds.
pub open spec fn helper(ty: Seq<char>) -> Option<(Seq<(Seq<char>, Seq<char>)>, Seq<Seq<char>>)> {
    if ty == "compile_gsettings_schemas"@ {
        Some((seq![("glib"@, "glib-compile-schemas"@)], Seq::empty()))
    } else if ty == "gtk_update_icon_cache"@ {
        Some(
            (
                seq![
                    ("gtk4"@, "gtk4-update-icon-cache"@),
                    ("gtk+3"@, "gtk3-update-icon-cache"@),
                    ("gtk+3"@, "gtk-update-icon-cache"@),
                ],
                seq!["-q"@, "-t"@, "-f"@],
            ),
        )
    } else if ty == "gdk_pixbuf_query_loaders"@ {
        Some((seq![("gdk-pixbuf"@, "gdk-pixbuf-query-loaders"@)], seq!["--update-cache"@]))
    } else if ty == "update_mime_database"@ {
        Some((seq![("shared-mime-info"@, "update-mime-database"@)], Seq::empty()))
    } else if ty == "update_desktop_database"@ {
        Some((seq![("desktop-file-utils"@, "update-desktop-database"@)], seq!["-q"@]))
    } else {
        None
    }
}

/// What a step with a source and a target asks for; none for other kinds.
pub open spec fn transfer(sc: StepCtx<'_>, ty: Seq<char>, step: JsonV, src: Seq<char>, dst: Seq<char>) -> Option<
    ActionV,
> {
    if ty == "symlink"@ {
        Some(
            ActionV::Symlink {
                sources: source_places(src, step),
                target: dst,
                force: step.flag_at("force"@, true),
            },
        )
    } else if ty == "link_dir"@ {
        Some(ActionV::LinkDir { source: src, target: dst })
    } else if ty == "link_children"@ {
        Some(
            ActionV::LinkChildren {
                source: src,
                target: dst,
                suffix: match step.str_at("suffix"@) {
                    Some(s) => sc.expanded(s),
                    None => Seq::empty(),
                },
            },
        )
    } else if ty == "copy"@ {
        Some(ActionV::Copy { sources: source_places(src, step), target: dst })
    } else if ty == "move"@ {
        Some(
            ActionV::Move {
                sources: source_places(src, step),
                target: dst,
                overwrite: step.flag_at("overwrite"@, false),
            },
        )
    } else if ty == "install_gzipped_executable"@ {
        Some(ActionV::InstallGzipped { source: src, target: dst })
    } else {
        None
    }
}

/// The step kinds that have a source and a target.
pub open spec fn transfers(ty: Seq<char>) -> bool {
    ||| ty == "symlink"@
    ||| ty == "link_dir"@
    ||| ty == "link_children"@
    ||| ty == "copy"@
    ||| ty == "move"@
    ||| ty == "install_gzipped_executable"@
}

/// The template-expanded arguments of a command.
pub open spec fn step_args(sc: StepCtx<'_>, step: JsonV) -> Seq<Seq<char>> {
    match list_at(step, "args"@) {
        Some(vs) => strings(sc, vs),
        None => Seq::empty(),
    }
}

/// The environment that a step sets.
pub open spec fn step_env(sc: StepCtx<'_>, step: JsonV) -> Seq<(Seq<char>, Seq<char>)> {
    match step.get("env"@) {
        Some(JsonV::Object(ms)) => string_members(sc, ms),
        _ => Seq::empty(),
    }
}

/// What a step asks for; none where it names no place and needs one.
pub open spec fn planned(sc: StepCtx<'_>, step: JsonV) -> Option<ActionV> {
    let ty = kind_of(step);
    if ty == "mkdir_p"@ {
        Some(ActionV::MakeDirs(step_places(sc, step)))
    } else if ty == "touch"@ {
        Some(ActionV::Touch(step_places(sc, step)))
    } else if ty == "remove"@ {
        Some(ActionV::Remove(step_places(sc, step)))
    } else if transfers(ty) {
        match (sc.location_at(step, "source"@), sc.location_at(step, "target"@)) {
            (Some(src), Some(dst)) => transfer(sc, ty, step, src, dst),
            _ => None,
        }
    } else if ty == "write"@ {
        match sc.location_at(step, "path"@) {
            Some(p) => Some(
                ActionV::Write {
                    path: p,
                    content: expanded_at(sc, step, "content"@),
                    overwrite: step.flag_at("overwrite"@, false),
                },
            ),
            None => None,
        }
    } else if ty == "set_permissions"@ {
        Some(
            ActionV::SetPermissions {
                paths: step_places(sc, step),
                mode: match step.str_at("permissions"@) {
                    Some(m) => m,
                    None => "0755"@,
                },
                recursive: !step.flag_at("non_recursive"@, false),
            },
        )
    } else if ty == "inreplace"@ {
        match sc.location_at(step, "path"@) {
            Some(p) => Some(
                ActionV::InReplace {
                    path: p,
                    before: expanded_at(sc, step, "before"@),
                    after: expanded_at(sc, step, "after"@),
                    regexp: step.flag_at("regexp"@, false),
                },
            ),
            None => None,
        }
    } else if ty == "warn"@ {
        match step.str_at("message"@) {
            Some(m) => Some(ActionV::Note(warning(sc.name@, sc.expanded(m)))),
            None => Some(ActionV::Nothing),
        }
    } else if ty == "run"@ {
        match sc.location_at(step, "command"@) {
            Some(c) => Some(
                ActionV::Run {
                    command: c,
                    args: step_args(sc, step),
                    dir: sc.location_at(step, "chdir"@),
                    env: step_env(sc, step),
                },
            ),
            None => None,
        }
    } else if ty == "terminate_process"@ {
        match step.str_at("name"@) {
            Some(n) => Some(ActionV::Terminate(n)),
            None => Some(ActionV::Nothing),
        }
    } else if ty == "init_data_dir"@ {
        match sc.location_at(step, "path"@) {
            Some(data) => {
                let using = match step.str_at("using"@) {
                    Some(u) => u,
                    None => ""@,
                };
                Some(
                    ActionV::InitDataDir {
                        data,
                        using,
                        tools: tool_paths(*sc.ctx, init_tools(using)),
                    },
                )
            },
            None => Some(ActionV::Nothing),
        }
    } else {
        match helper(ty) {
            Some((tools, args)) => Some(
                ActionV::Tool {
                    dir: sc.location_at(step, "path"@),
                    tools: tool_paths(*sc.ctx, tools),
                    args,
                },
            ),
            None => Some(
                ActionV::Note(
                    if unsupported(ty) {
                        warning(
                            sc.name@,
                            "post-install step '"@ + ty
                                + "' not supported yet — some functionality may be missing"@,
                        )
                    } else {
                        warning(sc.name@, "unknown post-install step '"@ + ty + "' skipped"@)
                    },
                ),
            ),
        }
    }
}

/// The kind of a step; a question mark where it does not say.
pub fn step_type(step: &Json) -> (r: &str)
    ensures
        r@ == kind_of(step@),
{
    match step.str_at("type") {
        Some(t) => t,
        None => "?",
    }
}

/// The places for paths, all patterns or none.
fn mark(ps: Vec<String>, glob: bool) -> (r: Vec<Place>)
    ensures
        places(r@) == marked(texts(ps@), glob),
{
    let mut r: Vec<Place> = Vec::new();
    for i in 0..ps.len()
        invariant
            r@.len() == i,
            forall|k: int| 0 <= k < i ==> (#[trigger] r@[k]).path@ == ps@[k]@ && r@[k].glob == glob,
    {
        r.push(Place { path: ps[i].clone(), glob });
    }
    assert(places(r@) =~= marked(texts(ps@), glob));
    r
}

/// The paths of those of the objects that stand for one.
fn locate_all(sc: &StepCtx<'_>, vs: &Vec<Json>) -> (r: Vec<String>)
    ensures
        texts(r@) == located(*sc, models(vs@)),
{
    let mut r: Vec<String> = Vec::new();
    let ghost ms = models(vs@);
    assert(texts(r@) =~= located(*sc, ms.take(0)));
    for i in 0..vs.len()
        invariant
            ms == models(vs@),
            texts(r@) == located(*sc, ms.take(i as int)),
    {
        proof {
            assert(ms.take(i + 1).drop_last() =~= ms.take(i as int));
            assert(ms.take(i + 1).last() == vs@[i as int]@);
        }
        if let Some(p) = sc.loc(&vs[i]) {
            r.push(p);
        }
    }
    assert(ms.take(vs@.len() as int) =~= ms);
    r
}

/// The items of the member `key`, where it is an array.
fn list_in<'a>(v: &'a Json, key: &str) -> (r: Option<&'a Vec<Json>>)
    ensures
        r is Some == list_at(v@, key@) is Some,
        r matches Some(items) ==> models(items@) == list_at(v@, key@)->0,
{
    match v.get(key) {
        Some(m) => m.as_array(),
        None => None,
    }
}

/// The places that a step works on. Paths may carry glob patterns.
pub fn paths(sc: &StepCtx<'_>, step: &Json) -> (r: Vec<Place>)
    ensures
        places(r@) == step_places(*sc, step@),
{
    let raw = match list_in(step, "paths") {
        Some(vs) => locate_all(sc, vs),
        None => {
            let mut one: Vec<String> = Vec::new();
            assert(texts(one@) =~= Seq::empty());
            if let Some(p) = sc.loc_at(step, "path") {
                one.push(p);
            }
            assert(texts(one@) =~= named_paths(*sc, step@));
            one
        },
    };
    let ghost ps = named_paths(*sc, step@);
    let mut r: Vec<Place> = Vec::new();
    assert(places(r@) =~= with_patterns(ps.take(0)));
    for i in 0..raw.len()
        invariant
            ps == texts(raw@),
            places(r@) == with_patterns(ps.take(i as int)),
    {
        let p = raw[i].as_str();
        let ghost before = r@;
        proof {
            assert(ps.take(i + 1).drop_last() =~= ps.take(i as int));
            assert(ps.take(i + 1).last() == p@);
            lemma_has_star(p@);
        }
        if text::contains(p, "*") {
            let mut more = mark(postinstall::brace_expand(p), true);
            let ghost added = more@;
            r.append(&mut more);
            assert(places(r@) =~= places(before) + places(added));
        } else {
            r.push(Place { path: p.to_string(), glob: false });
            assert(places(r@) =~= places(before) + seq![(p@, false)]);
        }
    }
    assert(ps.take(raw@.len() as int) =~= ps);
    r
}

/// To hold an asterisk as a part is to hold it as a character.
proof fn lemma_has_star(s: Seq<char>)
    ensures
        text::has_part(s, "*"@) == s.contains('*'),
{
    reveal_strlit("*");
    assert("*"@ =~= seq!['*']);
    if s.contains('*') {
        let i = choose|i: int| 0 <= i < s.len() && s[i] == '*';
        assert(s.subrange(i, i + 1) =~= "*"@);
        assert(text::occurs_at(s, "*"@, i));
    }
    if text::has_part(s, "*"@) {
        let i = choose|i: int| text::occurs_at(s, "*"@, i);
        assert(s.subrange(i, i + 1)[0] == s[i]);
    }
}

/// The places that a source path stands for: `{brace}` and `*` expansion when
/// the step sets `source_glob`; otherwise the literal path.
pub fn expand_sources(src: &str, step: &Json) -> (r: Vec<Place>)
    ensures
        places(r@) == source_places(src@, step@),
{
    if step.flag_at("source_glob", false) {
        mark(postinstall::brace_expand(src), true)
    } else {
        let mut r: Vec<Place> = Vec::new();
        r.push(Place { path: src.to_string(), glob: false });
        assert(places(r@) =~= seq![(src@, false)]);
        r
    }
}

/// Pairs of string slices as pairs of texts.
pub open spec fn str_pairs(v: Seq<(&'static str, &'static str)>) -> Seq<(Seq<char>, Seq<char>)> {
    v.map_values(|p: (&'static str, &'static str)| (p.0@, p.1@))
}

/// Where the tools of other formulae may be.
fn tool_candidates(ctx: &Ctx, tools: &Vec<(&'static str, &'static str)>) -> (r: Vec<String>)
    ensures
        texts(r@) == tool_paths(*ctx, str_pairs(tools@)),
{
    let mut r: Vec<String> = Vec::new();
    let ghost ts = str_pairs(tools@);
    assert(texts(r@) =~= tool_paths(*ctx, ts.take(0)));
    for i in 0..tools.len()
        invariant
            ts == str_pairs(tools@),
            texts(r@) == tool_paths(*ctx, ts.take(i as int)),
    {
        let (formula, bin) = tools[i];
        proof {
            assert(ts.take(i + 1).drop_last() =~= ts.take(i as int));
            assert(ts.take(i + 1).last() == (formula@, bin@));
        }
        let opt = path::join(ctx.opt().as_str(), formula);
        r.push(path::join(path::join(opt.as_str(), "bin").as_str(), bin));
        r.push(path::join(ctx.bin().as_str(), bin));
    }
    assert(ts.take(tools@.len() as int) =~= ts);
    r
}

/// The template-expanded strings among the values.
fn collect_strings(sc: &StepCtx<'_>, vs: &Vec<Json>) -> (r: Vec<String>)
    ensures
        texts(r@) == strings(*sc, models(vs@)),
{
    let mut r: Vec<String> = Vec::new();
    let ghost ms = models(vs@);
    assert(texts(r@) =~= strings(*sc, ms.take(0)));
    for i in 0..vs.len()
        invariant
            ms == models(vs@),
            texts(r@) == strings(*sc, ms.take(i as int)),
    {
        proof {
            assert(ms.take(i + 1).drop_last() =~= ms.take(i as int));
            assert(ms.take(i + 1).last() == vs@[i as int]@);
        }
        if let Some(t) = vs[i].as_str() {
            r.push(sc.template(t));
        }
    }
    assert(ms.take(vs@.len() as int) =~= ms);
    r
}

/// The environment that a step sets: the members of `env` that are strings.
fn collect_env(sc: &StepCtx<'_>, step: &Json) -> (r: Vec<(String, String)>)
    ensures
        text_pairs(r@) == step_env(*sc, step@),
{
    let mut r: Vec<(String, String)> = Vec::new();
    assert(text_pairs(r@) =~= Seq::empty());
    let env = match step.get("env") {
        Some(e) => e,
        None => {
            return r;
        },
    };
    let members = match env.as_object() {
        Some(ms) => ms,
        None => {
            return r;
        },
    };
    let ghost ms = env@->Object_0;
    assert(text_pairs(r@) =~= string_members(*sc, ms.take(0)));
    for i in 0..members.len()
        invariant
            members@.len() == ms.len(),
            forall|k: int|
                0 <= k < members@.len() ==> (#[trigger] members@[k]).0@ == ms[k].0 && members@[k].1@
                    == ms[k].1,
            text_pairs(r@) == string_members(*sc, ms.take(i as int)),
    {
        let m = &members[i];
        let ghost before = r@;
        proof {
            assert(ms.take(i + 1).drop_last() =~= ms.take(i as int));
            assert(ms.take(i + 1).last() == ms[i as int]);
        }
        if let Some(t) = m.1.as_str() {
            r.push((m.0.clone(), sc.template(t)));
            assert(text_pairs(r@) =~= text_pairs(before).push((m.0@, sc.expanded(t@))));
        }
    }
    assert(ms.take(members@.len() as int) =~= ms);
    r
}

/// The template-expanded text of the member `key`; empty where there is none.
fn template_at(sc: &StepCtx<'_>, step: &Json, key: &str) -> (r: String)
    ensures
        r@ == expanded_at(*sc, step@, key@),
{
    match step.str_at(key) {
        Some(t) => sc.template(t),
        None => sc.template(""),
    }
}

/// A warning about a formula.
pub fn warn(name: &str, message: &str) -> (r: String)
    ensures
        r@ == warning(name@, message@),
{
    "\x1b[33m!\x1b[0m ".to_string().concat(name).concat(": ").concat(message)
}

/// Where the tools that fill a data directory may be.
fn init_candidates(ctx: &Ctx, using: &str) -> (r: Vec<String>)
    ensures
        texts(r@) == tool_paths(*ctx, init_tools(using@)),
{
    let mut tools: Vec<(&'static str, &'static str)> = Vec::new();
    if text::same(using, "mariadb_install_db") {
        tools.push(("mariadb", "mariadb-install-db"));
    } else if text::same(using, "mysql_install_db") {
        tools.push(("mysql", "mysqld"));
    } else if text::same(using, "initdb") {
        tools.push(("postgresql", "initdb"));
    }
    assert(str_pairs(tools@) =~= init_tools(using@));
    tool_candidates(ctx, &tools)
}

/// What a step that runs a helper tool asks for.
fn plan_tool(sc: &StepCtx<'_>, ty: &str, step: &Json) -> (r: Option<Action>)
    ensures
        match helper(ty@) {
            Some((tools, args)) => r matches Some(a) && a@ == (ActionV::Tool {
                dir: sc.location_at(step@, "path"@),
                tools: tool_paths(*sc.ctx, tools),
                args,
            }),
            None => r is None,
        },
{
    let mut tools: Vec<(&'static str, &'static str)> = Vec::new();
    let mut args: Vec<String> = Vec::new();
    assert(texts(args@) =~= Seq::empty());
    if text::same(ty, "compile_gsettings_schemas") {
        tools.push(("glib", "glib-compile-schemas"));
    } else if text::same(ty, "gtk_update_icon_cache") {
        tools.push(("gtk4", "gtk4-update-icon-cache"));
        tools.push(("gtk+3", "gtk3-update-icon-cache"));
        tools.push(("gtk+3", "gtk-update-icon-cache"));
        args.push("-q".to_string());
        args.push("-t".to_string());
        args.push("-f".to_string());
    } else if text::same(ty, "gdk_pixbuf_query_loaders") {
        tools.push(("gdk-pixbuf", "gdk-pixbuf-query-loaders"));
        args.push("--update-cache".to_string());
    } else if text::same(ty, "update_mime_database") {
        tools.push(("shared-mime-info", "update-mime-database"));
    } else if text::same(ty, "update_desktop_database") {
        tools.push(("desktop-file-utils", "update-desktop-database"));
        args.push("-q".to_string());
    } else {
        return None;
    }
    proof {
        let (ts, pre) = helper(ty@)->0;
        assert(str_pairs(tools@) =~= ts);
        assert(texts(args@) =~= pre);
    }
    Some(
        Action::Tool {
            dir: sc.loc_at(step, "path"),
            tools: tool_candidates(sc.ctx, &tools),
            args,
        },
    )
}

/// Whether a kind of step needs more than the index tells.
fn is_unsupported(ty: &str) -> (r: bool)
    ensures
        r == unsupported(ty@),
{
    text::same(ty, "configure_gcc_runtime") || text::same(ty, "configure_clang_system")
        || text::same(ty, "configure_glibc_runtime") || text::same(ty, "configure_php") || text::same(
        ty,
        "bootstrap_cpython",
    ) || text::same(ty, "bootstrap_pypy")
}

/// Whether a kind of step has a source and a target.
fn is_transfer(ty: &str) -> (r: bool)
    ensures
        r == transfers(ty@),
{
    text::same(ty, "symlink") || text::same(ty, "link_dir") || text::same(ty, "link_children")
        || text::same(ty, "copy") || text::same(ty, "move") || text::same(
        ty,
        "install_gzipped_executable",
    )
}

/// The source and the target of a step.
pub fn source_target(sc: &StepCtx<'_>, step: &Json) -> (r: Result<(String, String), MissingPath>)
    ensures
        match (sc.location_at(step@, "source"@), sc.location_at(step@, "target"@)) {
            (Some(src), Some(dst)) => r is Ok && (r->Ok_0).0@ == src && (r->Ok_0).1@ == dst,
            _ => r is Err,
        },
{
    match (sc.loc_at(step, "source"), sc.loc_at(step, "target")) {
        (Some(src), Some(dst)) => Ok((src, dst)),
        _ => Err(MissingPath),
    }
}

/// What a step with a source and a target asks for.
fn plan_transfer(sc: &StepCtx<'_>, ty: &str, step: &Json) -> (r: Result<Action, MissingPath>)
    requires
        transfers(ty@),
    ensures
        match (sc.location_at(step@, "source"@), sc.location_at(step@, "target"@)) {
            (Some(src), Some(dst)) => r matches Ok(a) && transfer(*sc, ty@, step@, src, dst) == Some(a@),
            _ => r is Err,
        },
{
    let (source, target) = match source_target(sc, step) {
        Ok(both) => both,
        Err(e) => {
            return Err(e);
        },
    };
    Ok(
        if text::same(ty, "symlink") {
            Action::Symlink {
                sources: expand_sources(source.as_str(), step),
                target,
                force: step.flag_at("force", true),
            }
        } else if text::same(ty, "link_dir") {
            Action::LinkDir { source, target }
        } else if text::same(ty, "link_children") {
            let suffix = match step.str_at("suffix") {
                Some(t) => sc.template(t),
                None => String::new(),
            };
            Action::LinkChildren { source, target, suffix }
        } else if text::same(ty, "copy") {
            Action::Copy { sources: expand_sources(source.as_str(), step), target }
        } else if text::same(ty, "move") {
            Action::Move {
                sources: expand_sources(source.as_str(), step),
                target,
                overwrite: step.flag_at("overwrite", false),
            }
        } else {
            Action::InstallGzipped { source, target }
        },
    )
}

/// What a step that writes a file asks for.
fn plan_write(sc: &StepCtx<'_>, step: &Json) -> (r: Result<Action, MissingPath>)
    ensures
        match sc.location_at(step@, "path"@) {
            Some(p) => r matches Ok(a) && a@ == (ActionV::Write {
                path: p,
                content: expanded_at(*sc, step@, "content"@),
                overwrite: step@.flag_at("overwrite"@, false),
            }),
            None => r is Err,
        },
{
    match sc.loc_at(step, "path") {
        Some(path) => Ok(
            Action::Write {
                path,
                content: template_at(sc, step, "content"),
                overwrite: step.flag_at("overwrite", false),
            },
        ),
        None => Err(MissingPath),
    }
}

/// What a step that replaces text in a file asks for.
fn plan_inreplace(sc: &StepCtx<'_>, step: &Json) -> (r: Result<Action, MissingPath>)
    ensures
        match sc.location_at(step@, "path"@) {
            Some(p) => r matches Ok(a) && a@ == (ActionV::InReplace {
                path: p,
                before: expanded_at(*sc, step@, "before"@),
                after: expanded_at(*sc, step@, "after"@),
                regexp: step@.flag_at("regexp"@, false),
            }),
            None => r is Err,
        },
{
    match sc.loc_at(step, "path") {
        Some(path) => Ok(
            Action::InReplace {
                path,
                before: template_at(sc, step, "before"),
                after: template_at(sc, step, "after"),
                regexp: step.flag_at("regexp", false),
            },
        ),
        None => Err(MissingPath),
    }
}

/// What a step that runs a command asks for.
fn plan_run(sc: &StepCtx<'_>, step: &Json) -> (r: Result<Action, MissingPath>)
    ensures
        match sc.location_at(step@, "command"@) {
            Some(c) => r matches Ok(a) && a@ == (ActionV::Run {
                command: c,
                args: step_args(*sc, step@),
                dir: sc.location_at(step@, "chdir"@),
                env: step_env(*sc, step@),
            }),
            None => r is Err,
        },
{
    let command = match sc.loc_at(step, "command") {
        Some(p) => p,
        None => {
            return Err(MissingPath);
        },
    };
    let args = match list_in(step, "args") {
        Some(vs) => collect_strings(sc, vs),
        None => {
            let none: Vec<String> = Vec::new();
            assert(texts(none@) =~= Seq::empty());
            none
        },
    };
    Ok(Action::Run { command, args, dir: sc.loc_at(step, "chdir"), env: collect_env(sc, step) })
}

/// What a step asks for.
pub fn plan(sc: &StepCtx<'_>, step: &Json) -> (r: Result<Action, MissingPath>)
    ensures
        match planned(*sc, step@) {
            Some(a) => r matches Ok(x) && x@ == a,
            None => r is Err,
        },
{
    let ty = step_type(step);
    if text::same(ty, "mkdir_p") {
        return Ok(Action::MakeDirs(paths(sc, step)));
    }
    if text::same(ty, "touch") {
        return Ok(Action::Touch(paths(sc, step)));
    }
    if text::same(ty, "remove") {
        return Ok(Action::Remove(paths(sc, step)));
    }
    if is_transfer(ty) {
        return plan_transfer(sc, ty, step);
    }
    if text::same(ty, "write") {
        return plan_write(sc, step);
    }
    if text::same(ty, "set_permissions") {
        let mode = match step.str_at("permissions") {
            Some(m) => m.to_string(),
            None => "0755".to_string(),
        };
        return Ok(
            Action::SetPermissions {
                paths: paths(sc, step),
                mode,
                recursive: !step.flag_at("non_recursive", false),
            },
        );
    }
    if text::same(ty, "inreplace") {
        return plan_inreplace(sc, step);
    }
    if text::same(ty, "warn") {
        return Ok(
            match step.str_at("message") {
                Some(m) => Action::Note(warn(sc.name, sc.template(m).as_str())),
                None => Action::Nothing,
            },
        );
    }
    if text::same(ty, "run") {
        return plan_run(sc, step);
    }
    if text::same(ty, "terminate_process") {
        return Ok(
            match step.str_at("name") {
                Some(n) => Action::Terminate(n.to_string()),
                None => Action::Nothing,
            },
        );
    }
    if text::same(ty, "init_data_dir") {
        return Ok(
            match sc.loc_at(step, "path") {
                Some(data) => {
                    let using = match step.str_at("using") {
                        Some(u) => u.to_string(),
                        None => "".to_string(),
                    };
                    let tools = init_candidates(sc.ctx, using.as_str());
                    Action::InitDataDir { data, using, tools }
                },
                None => Action::Nothing,
            },
        );
    }
    if let Some(a) = plan_tool(sc, ty, step) {
        return Ok(a);
    }
    let message = if is_unsupported(ty) {
        "post-install step '".to_string().concat(ty).concat(
            "' not supported yet — some functionality may be missing",
        )
    } else {
        "unknown post-install step '".to_string().concat(ty).concat("' skipped")
    };
    Ok(Action::Note(warn(sc.name, message.as_str())))
}

/// The kinds of steps differ in their lengths and first letters.
proof fn lemma_kinds()
    ensures
        "mkdir_p"@.len() == 7 && "mkdir_p"@[0] == 'm',
        "touch"@.len() == 5 && "touch"@[0] == 't',
        "remove"@.len() == 6 && "remove"@[0] == 'r',
        "symlink"@.len() == 7 && "symlink"@[0] == 's',
        "link_dir"@.len() == 8 && "link_dir"@[0] == 'l',
        "link_children"@.len() == 13 && "link_children"@[0] == 'l',
        "copy"@.len() == 4 && "copy"@[0] == 'c',
        "move"@.len() == 4 && "move"@[0] == 'm',
        "install_gzipped_executable"@.len() == 26 && "install_gzipped_executable"@[0] == 'i',
        "write"@.len() == 5 && "write"@[0] == 'w',
        "set_permissions"@.len() == 15 && "set_permissions"@[0] == 's',
        "inreplace"@.len() == 9 && "inreplace"@[0] == 'i',
        "warn"@.len() == 4 && "warn"@[0] == 'w',
        "run"@.len() == 3 && "run"@[0] == 'r',
        "terminate_process"@.len() == 17 && "terminate_process"@[0] == 't',
        "init_data_dir"@.len() == 13 && "init_data_dir"@[0] == 'i',
        "compile_gsettings_schemas"@.len() == 25 && "compile_gsettings_schemas"@[0] == 'c',
        "gtk_update_icon_cache"@.len() == 21 && "gtk_update_icon_cache"@[0] == 'g',
        "gdk_pixbuf_query_loaders"@.len() == 24 && "gdk_pixbuf_query_loaders"@[0] == 'g',
        "update_mime_database"@.len() == 20 && "update_mime_database"@[0] == 'u',
        "update_desktop_database"@.len() == 23 && "update_desktop_database"@[0] == 'u',
        "configure_gcc_runtime"@.len() == 21 && "configure_gcc_runtime"@[0] == 'c',
        "configure_clang_system"@.len() == 22 && "configure_clang_system"@[0] == 'c',
        "configure_glibc_runtime"@.len() == 23 && "configure_glibc_runtime"@[0] == 'c',
        "configure_php"@.len() == 13 && "configure_php"@[0] == 'c',
        "bootstrap_cpython"@.len() == 17 && "bootstrap_cpython"@[0] == 'b',
        "bootstrap_pypy"@.len() == 14 && "bootstrap_pypy"@[0] == 'b',
{
    reveal_strlit("mkdir_p");
    reveal_strlit("touch");
    reveal_strlit("remove");
    reveal_strlit("symlink");
    reveal_strlit("link_dir");
    reveal_strlit("link_children");
    reveal_strlit("copy");
    reveal_strlit("move");
    reveal_strlit("install_gzipped_executable");
    reveal_strlit("write");
    reveal_strlit("set_permissions");
    reveal_strlit("inreplace");
    reveal_strlit("warn");
    reveal_strlit("run");
    reveal_strlit("terminate_process");
    reveal_strlit("init_data_dir");
    reveal_strlit("compile_gsettings_schemas");
    reveal_strlit("gtk_update_icon_cache");
    reveal_strlit("gdk_pixbuf_query_loaders");
    reveal_strlit("update_mime_database");
    reveal_strlit("update_desktop_database");
    reveal_strlit("configure_gcc_runtime");
    reveal_strlit("configure_clang_system");
    reveal_strlit("configure_glibc_runtime");
    reveal_strlit("configure_php");
    reveal_strlit("bootstrap_cpython");
    reveal_strlit("bootstrap_pypy");
}

/// The step is of the given kind.
pub open spec fn is_kind(step: JsonV, kind: Seq<char>) -> bool {
    step.str_at("type"@) == Some(kind)
}

/// Where the sources of an action are that stand for the path `s`: that path
/// alone, or, where the step asks for patterns, all that its brace groups stand
/// for.
pub open spec fn stand_for_source(sources: Seq<(Seq<char>, bool)>, step: JsonV, s: Seq<char>) -> bool {
    if step.get("source_glob"@) == Some(JsonV::Bool(true)) {
        sources.len() == expansion(s).len() && forall|i: int|
            0 <= i < sources.len() ==> #[trigger] sources[i] == (expansion(s)[i], true)
    } else {
        sources == seq![(s, false)]
    }
}

/// Law: a step with a source and a target goes from the one to the other: what
/// its member `source` stands for is the source, and what its member `target`
/// stands for is the target. Links replace what is there unless the step forbids
/// it; moves do only where the step says so.
pub proof fn law_transfers_go_from_source_to_target(
    sc: StepCtx<'_>,
    step: JsonV,
    s: Seq<char>,
    t: Seq<char>,
)
    requires
        sc.location_at(step, "source"@) == Some(s),
        sc.location_at(step, "target"@) == Some(t),
    ensures
        is_kind(step, "copy"@) ==> (planned(sc, step) matches Some(ActionV::Copy { sources, target }) && target
            == t && stand_for_source(sources, step, s)),
        is_kind(step, "symlink"@) ==> (planned(sc, step) matches Some(
            ActionV::Symlink { sources, target, force },
        ) && target == t && stand_for_source(sources, step, s) && force == (step.get("force"@) != Some(
            JsonV::Bool(false),
        ))),
        is_kind(step, "move"@) ==> (planned(sc, step) matches Some(
            ActionV::Move { sources, target, overwrite },
        ) && target == t && stand_for_source(sources, step, s) && overwrite == (step.get("overwrite"@) == Some(
            JsonV::Bool(true),
        ))),
        is_kind(step, "link_dir"@) ==> (planned(sc, step) matches Some(ActionV::LinkDir { source, target })
            && source == s && target == t),
        is_kind(step, "link_children"@) ==> (planned(sc, step) matches Some(
            ActionV::LinkChildren { source, target, suffix },
        ) && source == s && target == t && suffix == match step.str_at("suffix"@) {
            Some(x) => sc.expanded(x),
            None => Seq::<char>::empty(),
        }),
        is_kind(step, "install_gzipped_executable"@) ==> (planned(sc, step) matches Some(
            ActionV::InstallGzipped { source, target },
        ) && source == s && target == t),
{
    lemma_kinds();
}

/// Law: a step with a source and a target that names only one of them, or
/// neither, cannot be planned, nor can one that writes, replaces or runs
/// something without saying what.
pub proof fn law_steps_need_their_places(sc: StepCtx<'_>, step: JsonV)
    ensures
        ({
            let no_source = sc.location_at(step, "source"@) is None;
            let no_target = sc.location_at(step, "target"@) is None;
            let transfer = is_kind(step, "copy"@) || is_kind(step, "symlink"@) || is_kind(step, "move"@) || is_kind(
                step,
                "link_dir"@,
            ) || is_kind(step, "link_children"@) || is_kind(step, "install_gzipped_executable"@);
            planned(sc, step) is None <==> {
                ||| transfer && (no_source || no_target)
                ||| (is_kind(step, "write"@) || is_kind(step, "inreplace"@)) && sc.location_at(step, "path"@) is None
                ||| is_kind(step, "run"@) && sc.location_at(step, "command"@) is None
            }
        }),
{
    lemma_kinds();
    reveal_strlit("?");
    assert("?"@.len() == 1);
}

/// The objects in the list `vs` that stand for places.
pub open spec fn place_at(sc: StepCtx<'_>, vs: Seq<JsonV>) -> spec_fn(int, Seq<char>) -> bool {
    |i: int, p: Seq<char>| sc.location(vs[i]) == Some(p)
}

/// The paths of the first objects.
proof fn lemma_located(sc: StepCtx<'_>, vs: Seq<JsonV>, n: int)
    requires
        0 <= n <= vs.len(),
    ensures
        picks(n, place_at(sc, vs), located(sc, vs.take(n))),
    decreases n,
{
    let p = place_at(sc, vs);
    if n == 0 {
        assert(vs.take(0) =~= Seq::empty());
        picks::lemma_pick_start(p);
    } else {
        lemma_located(sc, vs, n - 1);
        assert(vs.take(n).drop_last() =~= vs.take(n - 1));
        let before = located(sc, vs.take(n - 1));
        match sc.location(vs[n - 1]) {
            Some(x) => {
                assert(p(n - 1, x));
                picks::lemma_pick_one(n - 1, p, before, x);
            },
            None => {
                picks::lemma_pick_none(n - 1, p, before);
            },
        }
    }
}

/// The place `x` comes of the path `p`: the path itself, or one of the patterns
/// that its brace groups stand for where it holds an asterisk.
pub open spec fn comes_of(x: (Seq<char>, bool), p: Seq<char>) -> bool {
    if p.contains('*') {
        x.1 && expansion(p).contains(x.0)
    } else {
        x == (p, false)
    }
}

/// Which places paths stand for.
proof fn lemma_with_patterns(ps: Seq<Seq<char>>)
    ensures
        forall|x: (Seq<char>, bool)| #[trigger]
            with_patterns(ps).contains(x) <==> exists|i: int| 0 <= i < ps.len() && comes_of(x, #[trigger] ps[i]),
        (forall|i: int| 0 <= i < ps.len() ==> !(#[trigger] ps[i]).contains('*')) ==> with_patterns(ps)
            == ps.map_values(|p: Seq<char>| (p, false)),
    decreases ps.len(),
{
    if ps.len() > 0 {
        let init = ps.drop_last();
        lemma_with_patterns(init);
        let before = with_patterns(init);
        let last = ps.last();
        let more = if last.contains('*') {
            marked(expansion(last), true)
        } else {
            seq![(last, false)]
        };
        assert(with_patterns(ps) == before + more);
        assert(ps[ps.len() - 1] == last);
        assert forall|x: (Seq<char>, bool)| #[trigger] more.contains(x) <==> comes_of(x, last) by {
            let es = expansion(last);
            if last.contains('*') {
                if more.contains(x) {
                    let k = choose|k: int| 0 <= k < more.len() && more[k] == x;
                    assert(es[k] == x.0);
                }
                if comes_of(x, last) {
                    let k = choose|k: int| 0 <= k < es.len() && es[k] == x.0;
                    assert(more[k] == x);
                }
            } else {
                assert(more[0] == (last, false));
                if comes_of(x, last) {
                    assert(more[0] == x);
                }
            }
        }
        assert forall|x: (Seq<char>, bool)| #[trigger]
            with_patterns(ps).contains(x) <==> exists|i: int|
                0 <= i < ps.len() && comes_of(x, #[trigger] ps[i]) by {
            if before.contains(x) {
                let k = choose|k: int| 0 <= k < before.len() && before[k] == x;
                assert((before + more)[k] == x);
                let i = choose|i: int| 0 <= i < init.len() && comes_of(x, #[trigger] init[i]);
                assert(comes_of(x, ps[i]));
            }
            if more.contains(x) {
                let k = choose|k: int| 0 <= k < more.len() && more[k] == x;
                assert((before + more)[before.len() + k] == x);
                assert(comes_of(x, ps[ps.len() - 1]));
            }
            if with_patterns(ps).contains(x) {
                let k = choose|k: int| 0 <= k < (before + more).len() && (before + more)[k] == x;
                if k < before.len() {
                    assert(before[k] == x);
                } else {
                    assert(more[k - before.len()] == x);
                }
            }
            if exists|i: int| 0 <= i < ps.len() && comes_of(x, #[trigger] ps[i]) {
                let i = choose|i: int| 0 <= i < ps.len() && comes_of(x, #[trigger] ps[i]);
                if i < init.len() {
                    assert(comes_of(x, init[i]));
                    assert(before.contains(x));
                } else {
                    assert(more.contains(x));
                }
            }
        }
        if forall|i: int| 0 <= i < ps.len() ==> !(#[trigger] ps[i]).contains('*') {
            assert forall|i: int| 0 <= i < init.len() implies !(#[trigger] init[i]).contains('*') by {
                assert(init[i] == ps[i]);
            }
            assert(with_patterns(ps) =~= ps.map_values(|p: Seq<char>| (p, false)));
        }
    }
}

/// The places that a step works on.
pub open spec fn works_on(sc: StepCtx<'_>, step: JsonV, found: Seq<(Seq<char>, bool)>) -> bool {
    exists|ps: Seq<Seq<char>>| #[trigger] names_paths(sc, step, ps) && {
        &&& forall|x: (Seq<char>, bool)| #[trigger]
            found.contains(x) <==> exists|i: int| 0 <= i < ps.len() && comes_of(x, #[trigger] ps[i])
        &&& (forall|i: int| 0 <= i < ps.len() ==> !(#[trigger] ps[i]).contains('*')) ==> found == ps.map_values(
            |p: Seq<char>| (p, false),
        )
    }
}

/// `ps` are the paths that a step names: one for each object in its list `paths`
/// that stands for a place, in order; where it has no such list, the one that
/// its member `path` stands for, if any.
pub open spec fn names_paths(sc: StepCtx<'_>, step: JsonV, ps: Seq<Seq<char>>) -> bool {
    match step.get("paths"@) {
        Some(JsonV::Array(vs)) => picks(vs.len() as int, place_at(sc, vs), ps),
        _ => match sc.location_at(step, "path"@) {
            Some(p) => ps == seq![p],
            None => ps.len() == 0,
        },
    }
}

/// Law: a step that makes, touches or removes files or sets their permissions
/// does so with all paths that it names, and with no other; a path that holds an
/// asterisk stands for patterns. Permissions are those that the step names, or
/// 0755, and apply to all below a directory unless the step forbids it.
pub proof fn law_steps_work_on_the_paths_they_name(sc: StepCtx<'_>, step: JsonV)
    ensures
        is_kind(step, "mkdir_p"@) ==> (planned(sc, step) matches Some(ActionV::MakeDirs(found)) && works_on(
            sc,
            step,
            found,
        )),
        is_kind(step, "touch"@) ==> (planned(sc, step) matches Some(ActionV::Touch(found)) && works_on(
            sc,
            step,
            found,
        )),
        is_kind(step, "remove"@) ==> (planned(sc, step) matches Some(ActionV::Remove(found)) && works_on(
            sc,
            step,
            found,
        )),
        is_kind(step, "set_permissions"@) ==> (planned(sc, step) matches Some(
            ActionV::SetPermissions { paths, mode, recursive },
        ) && works_on(sc, step, paths) && mode == match step.get("permissions"@) {
            Some(JsonV::Str(m)) => m,
            _ => "0755"@,
        } && recursive == (step.get("non_recursive"@) != Some(JsonV::Bool(true)))),
{
    lemma_kinds();
    let ps = named_paths(sc, step);
    lemma_with_patterns(ps);
    if let Some(JsonV::Array(vs)) = step.get("paths"@) {
        lemma_located(sc, vs, vs.len() as int);
        assert(vs.take(vs.len() as int) =~= vs);
        assert(ps == located(sc, vs));
    }
    assert(names_paths(sc, step, ps));
    assert(works_on(sc, step, step_places(sc, step)));
}

/// Law: a step that writes or replaces text does so in the file that it names,
/// with the variables in its texts expanded; a file that is there is written
/// over, and a text is taken for a regular expression, only where the step says
/// so.
pub proof fn law_steps_write_what_they_say(sc: StepCtx<'_>, step: JsonV, p: Seq<char>)
    requires
        sc.location_at(step, "path"@) == Some(p),
    ensures
        is_kind(step, "write"@) ==> (planned(sc, step) matches Some(
            ActionV::Write { path, content, overwrite },
        ) && path == p && content == sc.expanded(
            match step.str_at("content"@) {
                Some(c) => c,
                None => ""@,
            },
        ) && overwrite == (step.get("overwrite"@) == Some(JsonV::Bool(true)))),
        is_kind(step, "inreplace"@) ==> (planned(sc, step) matches Some(
            ActionV::InReplace { path, before, after, regexp },
        ) && path == p && before == sc.expanded(
            match step.str_at("before"@) {
                Some(c) => c,
                None => ""@,
            },
        ) && after == sc.expanded(
            match step.str_at("after"@) {
                Some(c) => c,
                None => ""@,
            },
        ) && regexp == (step.get("regexp"@) == Some(JsonV::Bool(true)))),
{
    lemma_kinds();
}

/// The strings of a list, with variables expanded.
pub open spec fn string_at(sc: StepCtx<'_>, vs: Seq<JsonV>) -> spec_fn(int, Seq<char>) -> bool {
    |i: int, s: Seq<char>| vs[i] is Str && s == sc.expanded(vs[i]->Str_0)
}

/// The members of an object that are strings, with variables expanded.
pub open spec fn setting_at(sc: StepCtx<'_>, ms: Seq<(Seq<char>, JsonV)>) -> spec_fn(
    int,
    (Seq<char>, Seq<char>),
) -> bool {
    |i: int, x: (Seq<char>, Seq<char>)|
        ms[i].1 is Str && x.0 == ms[i].0 && x.1 == sc.expanded(ms[i].1->Str_0)
}

/// The strings among the first values.
proof fn lemma_strings(sc: StepCtx<'_>, vs: Seq<JsonV>, n: int)
    requires
        0 <= n <= vs.len(),
    ensures
        picks(n, string_at(sc, vs), strings(sc, vs.take(n))),
    decreases n,
{
    let p = string_at(sc, vs);
    if n == 0 {
        assert(vs.take(0) =~= Seq::empty());
        picks::lemma_pick_start(p);
    } else {
        lemma_strings(sc, vs, n - 1);
        assert(vs.take(n).drop_last() =~= vs.take(n - 1));
        let before = strings(sc, vs.take(n - 1));
        if vs[n - 1] is Str {
            let s = sc.expanded(vs[n - 1]->Str_0);
            assert(p(n - 1, s));
            picks::lemma_pick_one(n - 1, p, before, s);
        } else {
            picks::lemma_pick_none(n - 1, p, before);
        }
    }
}

/// The settings among the first members.
proof fn lemma_settings(sc: StepCtx<'_>, ms: Seq<(Seq<char>, JsonV)>, n: int)
    requires
        0 <= n <= ms.len(),
    ensures
        picks(n, setting_at(sc, ms), string_members(sc, ms.take(n))),
    decreases n,
{
    let p = setting_at(sc, ms);
    if n == 0 {
        assert(ms.take(0) =~= Seq::empty());
        picks::lemma_pick_start(p);
    } else {
        lemma_settings(sc, ms, n - 1);
        assert(ms.take(n).drop_last() =~= ms.take(n - 1));
        let before = string_members(sc, ms.take(n - 1));
        if ms[n - 1].1 is Str {
            let x = (ms[n - 1].0, sc.expanded(ms[n - 1].1->Str_0));
            assert(p(n - 1, x));
            picks::lemma_pick_one(n - 1, p, before, x);
        } else {
            picks::lemma_pick_none(n - 1, p, before);
        }
    }
}

/// Law: a step that runs a command runs the one that it names, with all strings
/// in its list of arguments, in order, in the directory that it names, and with
/// every setting of its environment that is a string.
pub proof fn law_steps_run_the_command_they_name(sc: StepCtx<'_>, step: JsonV, c: Seq<char>)
    requires
        is_kind(step, "run"@),
        sc.location_at(step, "command"@) == Some(c),
    ensures
        planned(sc, step) matches Some(ActionV::Run { command, args, dir, env }) && {
            &&& command == c
            &&& dir == sc.location_at(step, "chdir"@)
            &&& match step.get("args"@) {
                Some(JsonV::Array(vs)) => picks(vs.len() as int, string_at(sc, vs), args),
                _ => args.len() == 0,
            }
            &&& match step.get("env"@) {
                Some(JsonV::Object(ms)) => picks(ms.len() as int, setting_at(sc, ms), env),
                _ => env.len() == 0,
            }
        },
{
    lemma_kinds();
    if let Some(JsonV::Array(vs)) = step.get("args"@) {
        lemma_strings(sc, vs, vs.len() as int);
        assert(vs.take(vs.len() as int) =~= vs);
    }
    if let Some(JsonV::Object(ms)) = step.get("env"@) {
        lemma_settings(sc, ms, ms.len() as int);
        assert(ms.take(ms.len() as int) =~= ms);
    }
}

/// Law: a warning is shown with the name of the formula and its variables
/// expanded, the processes that a step names are ended, and a step without a
/// message or a name asks for nothing.
pub proof fn law_steps_warn_and_end_processes(sc: StepCtx<'_>, step: JsonV)
    ensures
        is_kind(step, "warn"@) ==> planned(sc, step) == Some(
            match step.str_at("message"@) {
                Some(m) => ActionV::Note("\x1b[33m!\x1b[0m "@ + sc.name@ + ": "@ + sc.expanded(m)),
                None => ActionV::Nothing,
            },
        ),
        is_kind(step, "terminate_process"@) ==> planned(sc, step) == Some(
            match step.str_at("name"@) {
                Some(n) => ActionV::Terminate(n),
                None => ActionV::Nothing,
            },
        ),
{
    lemma_kinds();
}

/// Where a tool of a formula may be: in the formula, and then among the linked
/// executables.
pub open spec fn may_be_at(ctx: Ctx, formula: Seq<char>, bin: Seq<char>) -> Seq<Seq<char>> {
    seq![
        below(below(below(below(ctx.prefix@, "opt"@), formula), "bin"@), bin),
        below(below(ctx.prefix@, "bin"@), bin),
    ]
}

/// Where a list of tools may be.
proof fn lemma_tool_paths(ctx: Ctx, tools: Seq<(Seq<char>, Seq<char>)>)
    ensures
        tool_paths(ctx, Seq::empty()) == Seq::<Seq<char>>::empty(),
        tools.len() > 0 ==> tool_paths(ctx, tools) == tool_paths(ctx, tools.drop_last()) + may_be_at(
            ctx,
            tools.last().0,
            tools.last().1,
        ),
{
    if tools.len() > 0 {
        assert(tool_paths(ctx, tools) =~= tool_paths(ctx, tools.drop_last()) + may_be_at(
            ctx,
            tools.last().0,
            tools.last().1,
        ));
    }
}

/// Where one tool may be.
proof fn lemma_one_tool(ctx: Ctx, formula: Seq<char>, bin: Seq<char>)
    ensures
        tool_paths(ctx, seq![(formula, bin)]) == may_be_at(ctx, formula, bin),
{
    let one = seq![(formula, bin)];
    lemma_tool_paths(ctx, one);
    assert(one.drop_last() =~= Seq::empty());
    assert(tool_paths(ctx, one) =~= may_be_at(ctx, formula, bin));
}

/// Law: steps that keep a cache or an index up to date run the tool for it, on
/// the directory that they name, with the arguments that it takes.
pub proof fn law_helpers_run_their_tools(sc: StepCtx<'_>, step: JsonV)
    ensures
        ({
            let dir = sc.location_at(step, "path"@);
            let ctx = *sc.ctx;
            let none = Seq::<Seq<char>>::empty();
            &&& is_kind(step, "compile_gsettings_schemas"@) ==> planned(sc, step) == Some(
                ActionV::Tool { dir, tools: may_be_at(ctx, "glib"@, "glib-compile-schemas"@), args: none },
            )
            &&& is_kind(step, "gtk_update_icon_cache"@) ==> planned(sc, step) == Some(
                ActionV::Tool {
                    dir,
                    tools: may_be_at(ctx, "gtk4"@, "gtk4-update-icon-cache"@) + may_be_at(
                        ctx,
                        "gtk+3"@,
                        "gtk3-update-icon-cache"@,
                    ) + may_be_at(ctx, "gtk+3"@, "gtk-update-icon-cache"@),
                    args: seq!["-q"@, "-t"@, "-f"@],
                },
            )
            &&& is_kind(step, "gdk_pixbuf_query_loaders"@) ==> planned(sc, step) == Some(
                ActionV::Tool {
                    dir,
                    tools: may_be_at(ctx, "gdk-pixbuf"@, "gdk-pixbuf-query-loaders"@),
                    args: seq!["--update-cache"@],
                },
            )
            &&& is_kind(step, "update_mime_database"@) ==> planned(sc, step) == Some(
                ActionV::Tool {
                    dir,
                    tools: may_be_at(ctx, "shared-mime-info"@, "update-mime-database"@),
                    args: none,
                },
            )
            &&& is_kind(step, "update_desktop_database"@) ==> planned(sc, step) == Some(
                ActionV::Tool {
                    dir,
                    tools: may_be_at(ctx, "desktop-file-utils"@, "update-desktop-database"@),
                    args: seq!["-q"@],
                },
            )
        }),
{
    lemma_kinds();
    let ctx = *sc.ctx;
    lemma_one_tool(ctx, "glib"@, "glib-compile-schemas"@);
    lemma_one_tool(ctx, "gtk4"@, "gtk4-update-icon-cache"@);
    lemma_one_tool(ctx, "gdk-pixbuf"@, "gdk-pixbuf-query-loaders"@);
    lemma_one_tool(ctx, "shared-mime-info"@, "update-mime-database"@);
    lemma_one_tool(ctx, "desktop-file-utils"@, "update-desktop-database"@);
    let gtk = seq![
        ("gtk4"@, "gtk4-update-icon-cache"@),
        ("gtk+3"@, "gtk3-update-icon-cache"@),
        ("gtk+3"@, "gtk-update-icon-cache"@),
    ];
    let two = seq![("gtk4"@, "gtk4-update-icon-cache"@), ("gtk+3"@, "gtk3-update-icon-cache"@)];
    let one = seq![("gtk4"@, "gtk4-update-icon-cache"@)];
    lemma_tool_paths(ctx, gtk);
    lemma_tool_paths(ctx, two);
    assert(gtk.drop_last() =~= two);
    assert(two.drop_last() =~= one);
}

/// Law: an empty data directory is filled by the tool of the database that the
/// step names; a step that names no directory asks for nothing, and one that
/// names another way has no tool.
pub proof fn law_data_directories_are_filled_by_their_tools(sc: StepCtx<'_>, step: JsonV, u: Seq<char>)
    requires
        is_kind(step, "init_data_dir"@),
        step.str_at("using"@) == Some(u),
    ensures
        ({
            let ctx = *sc.ctx;
            match sc.location_at(step, "path"@) {
                None => planned(sc, step) == Some(ActionV::Nothing),
                Some(d) => planned(sc, step) matches Some(ActionV::InitDataDir { data, using, tools }) && {
                    &&& data == d
                    &&& using == u
                    &&& u == "mariadb_install_db"@ ==> tools == may_be_at(ctx, "mariadb"@, "mariadb-install-db"@)
                    &&& u == "mysql_install_db"@ ==> tools == may_be_at(ctx, "mysql"@, "mysqld"@)
                    &&& u == "initdb"@ ==> tools == may_be_at(ctx, "postgresql"@, "initdb"@)
                    &&& u != "mariadb_install_db"@ && u != "mysql_install_db"@ && u != "initdb"@ ==> tools.len()
                        == 0
                },
            }
        }),
{
    lemma_kinds();
    reveal_strlit("mariadb_install_db");
    reveal_strlit("mysql_install_db");
    reveal_strlit("initdb");
    assert("mariadb_install_db"@.len() == 18);
    assert("mysql_install_db"@.len() == 16);
    assert("initdb"@.len() == 6);
    let ctx = *sc.ctx;
    lemma_one_tool(ctx, "mariadb"@, "mariadb-install-db"@);
    lemma_one_tool(ctx, "mysql"@, "mysqld"@);
    lemma_one_tool(ctx, "postgresql"@, "initdb"@);
    lemma_tool_paths(ctx, Seq::empty());
}

/// All kinds of steps that are known.
pub open spec fn known_kinds() -> Seq<Seq<char>> {
    seq![
        "mkdir_p"@,
        "touch"@,
        "remove"@,
        "symlink"@,
        "link_dir"@,
        "link_children"@,
        "copy"@,
        "move"@,
        "install_gzipped_executable"@,
        "write"@,
        "set_permissions"@,
        "inreplace"@,
        "warn"@,
        "run"@,
        "terminate_process"@,
        "init_data_dir"@,
        "compile_gsettings_schemas"@,
        "gtk_update_icon_cache"@,
        "gdk_pixbuf_query_loaders"@,
        "update_mime_database"@,
        "update_desktop_database"@,
        "configure_gcc_runtime"@,
        "configure_clang_system"@,
        "configure_glibc_runtime"@,
        "configure_php"@,
        "bootstrap_cpython"@,
        "bootstrap_pypy"@,
    ]
}

/// Law: the kinds that need more than the index tells, and kinds that are not
/// known, are never carried out: the user is told which it was. A step that does
/// not say its kind counts as one that is not known.
pub proof fn law_other_steps_are_told(sc: StepCtx<'_>, step: JsonV, kind: Seq<char>)
    requires
        is_kind(step, kind) || step.str_at("type"@) is None && kind == "?"@,
    ensures
        kind == "configure_gcc_runtime"@ || kind == "configure_clang_system"@ || kind == "configure_glibc_runtime"@
            || kind == "configure_php"@ || kind == "bootstrap_cpython"@ || kind == "bootstrap_pypy"@ ==> planned(
            sc,
            step,
        ) == Some(
            ActionV::Note(
                "\x1b[33m!\x1b[0m "@ + sc.name@ + ": "@ + ("post-install step '"@ + kind
                    + "' not supported yet — some functionality may be missing"@),
            ),
        ),
        !known_kinds().contains(kind) ==> planned(sc, step) == Some(
            ActionV::Note(
                "\x1b[33m!\x1b[0m "@ + sc.name@ + ": "@ + ("unknown post-install step '"@ + kind + "' skipped"@),
            ),
        ),
{
    lemma_kinds();
    let all = known_kinds();
    if !all.contains(kind) {
        assert(kind != all[0]);
        assert(kind != all[1]);
        assert(kind != all[2]);
        assert(kind != all[3]);
        assert(kind != all[4]);
        assert(kind != all[5]);
        assert(kind != all[6]);
        assert(kind != all[7]);
        assert(kind != all[8]);
        assert(kind != all[9]);
        assert(kind != all[10]);
        assert(kind != all[11]);
        assert(kind != all[12]);
        assert(kind != all[13]);
        assert(kind != all[14]);
        assert(kind != all[15]);
        assert(kind != all[16]);
        assert(kind != all[17]);
        assert(kind != all[18]);
        assert(kind != all[19]);
        assert(kind != all[20]);
        assert(kind != all[21]);
        assert(kind != all[22]);
        assert(kind != all[23]);
        assert(kind != all[24]);
        assert(kind != all[25]);
        assert(kind != all[26]);
    }
}

/// Law: an action stands for what it says: its sources and its target, its paths
/// and its marks are those of its fields.
pub proof fn law_actions_are_read_as_they_are(a: Action, ps: Seq<Place>, i: int)
    ensures
        places(ps).len() == ps.len(),
        0 <= i < ps.len() ==> places(ps)[i] == (ps[i].path@, ps[i].glob),
        a matches Action::Symlink { sources, target, force } ==> a@ == (ActionV::Symlink {
            sources: places(sources@),
            target: target@,
            force,
        }),
        a matches Action::LinkDir { source, target } ==> a@ == (ActionV::LinkDir {
            source: source@,
            target: target@,
        }),
        a matches Action::LinkChildren { source, target, suffix } ==> a@ == (ActionV::LinkChildren {
            source: source@,
            target: target@,
            suffix: suffix@,
        }),
        a matches Action::Copy { sources, target } ==> a@ == (ActionV::Copy {
            sources: places(sources@),
            target: target@,
        }),
        a matches Action::Move { sources, target, overwrite } ==> a@ == (ActionV::Move {
            sources: places(sources@),
            target: target@,
            overwrite,
        }),
        a matches Action::Write { path, content, overwrite } ==> a@ == (ActionV::Write {
            path: path@,
            content: content@,
            overwrite,
        }),
        a matches Action::InReplace { path, before, after, regexp } ==> a@ == (ActionV::InReplace {
            path: path@,
            before: before@,
            after: after@,
            regexp,
        }),
        a matches Action::SetPermissions { paths, mode, recursive } ==> a@ == (ActionV::SetPermissions {
            paths: places(paths@),
            mode: mode@,
            recursive,
        }),
        a matches Action::InstallGzipped { source, target } ==> a@ == (ActionV::InstallGzipped {
            source: source@,
            target: target@,
        }),
        a matches Action::MakeDirs(p) ==> a@ == ActionV::MakeDirs(places(p@)),
        a matches Action::Touch(p) ==> a@ == ActionV::Touch(places(p@)),
        a matches Action::Remove(p) ==> a@ == ActionV::Remove(places(p@)),
{
}

/// Law: a command stands for what it says: the command, its arguments in order,
/// where it runs and in what environment.
pub proof fn law_commands_are_read_as_they_are(a: Action, env: Seq<(String, String)>, i: int)
    ensures
        text_pairs(env).len() == env.len(),
        0 <= i < env.len() ==> text_pairs(env)[i] == (env[i].0@, env[i].1@),
        a matches Action::Run { command, args, dir, env } ==> a@ == (ActionV::Run {
            command: command@,
            args: texts(args@),
            dir: opt_text(dir),
            env: text_pairs(env@),
        }),
        a matches Action::Tool { dir, tools, args } ==> a@ == (ActionV::Tool {
            dir: opt_text(dir),
            tools: texts(tools@),
            args: texts(args@),
        }),
        a matches Action::InitDataDir { data, using, tools } ==> a@ == (ActionV::InitDataDir {
            data: data@,
            using: using@,
            tools: texts(tools@),
        }),
        a matches Action::Terminate(name) ==> a@ == ActionV::Terminate(name@),
        a matches Action::Note(n) ==> a@ == ActionV::Note(n@),
        a matches Action::Nothing ==> a@ == ActionV::Nothing,
{
}

} // verus!
