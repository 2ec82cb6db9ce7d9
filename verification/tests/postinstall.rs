use dram::ctx::Ctx;
use dram::json::Json;
use dram::postinstall::{brace_expand, StepCtx};
use dram::step_ops::{
    copy_ops, into_dir, link_child_ops, link_dir_ops, mkdir_ops, move_ops, remove_ops, symlink_ops,
    takes_along, touch_ops, write_ops, Found, Op,
};
use dram::step_plan::{plan, step_type, Action, Place};
use dram::step_run::{
    failure_note, find_tool, gzipped, init_data_dir, init_failure, inreplace, run_failure, run_note,
    settle, tool_failure, tool_step, unpack, Gzipped, InitStep,
};

fn s(t: &str) -> Json {
    Json::Str(t.to_string())
}

fn obj(members: Vec<(&str, Json)>) -> Json {
    Json::Object(members.into_iter().map(|(k, v)| (k.to_string(), v)).collect())
}

fn at(base: &str, path: &str) -> Json {
    obj(vec![("base", s(base)), ("path", s(path))])
}

fn strings(v: &[&str]) -> Vec<String> {
    v.iter().map(|s| s.to_string()).collect()
}

fn ctx() -> Ctx {
    Ctx { prefix: "/p".to_string() }
}

fn shown(places: &[Place]) -> Vec<(String, bool)> {
    places.iter().map(|p| (p.path.clone(), p.glob)).collect()
}

fn show(op: &Op) -> String {
    match op {
        Op::CreateDirs(p) => format!("mkdir {p}"),
        Op::CreateFile(p) => format!("create {p}"),
        Op::RemoveDir(p) => format!("rmdir {p}"),
        Op::RemoveFile(p) => format!("rm {p}"),
        Op::TryRemoveDir(p) => format!("rmdir? {p}"),
        Op::TryRemoveFile(p) => format!("rm? {p}"),
        Op::Link { source, target } => format!("link {source} {target}"),
        Op::Copy { source, target } => format!("copy {source} {target}"),
        Op::Rename { source, target } => format!("move {source} {target}"),
        Op::Write { path, content } => format!("write {path} {content}"),
    }
}

fn all(ops: Vec<Op>) -> Vec<String> {
    ops.iter().map(show).collect()
}

#[test]
fn brace_expansion() {
    assert_eq!(
        brace_expand("/m/{npm,npx}*"),
        vec!["/m/npm*".to_string(), "/m/npx*".to_string()]
    );
    assert_eq!(brace_expand("/plain/path"), vec!["/plain/path".to_string()]);
    assert_eq!(
        brace_expand("/{a,b}/{c,d}"),
        vec!["/a/c", "/a/d", "/b/c", "/b/d"]
    );
}

#[test]
fn odd_braces() {
    assert_eq!(brace_expand("a{}b"), ["ab"]);
    assert_eq!(brace_expand("a}b{c"), ["a}b{c"]);
    assert_eq!(brace_expand("a{b"), ["a{b"]);
    assert_eq!(brace_expand("{a,}"), ["a", ""]);
    assert_eq!(brace_expand("{a,{b,c}}"), ["a}", "b", "c}"]);
    for t in brace_expand("x{1,2}{3,4}y") {
        assert_eq!(brace_expand(&t), vec![t.clone()]);
    }
}

#[test]
fn into_dir_semantics() {
    assert_eq!(into_dir("/nonexistent/target", false, "/src/npm"), "/nonexistent/target");
    assert_eq!(into_dir("/tmp", true, "/src/npm"), "/tmp/npm");
    assert_eq!(into_dir("/tmp", true, "/"), "/tmp");
    assert_eq!(into_dir("/tmp/", true, "/src/npm/"), "/tmp/npm");
}

#[test]
fn templates_are_expanded() {
    let c = ctx();
    let sc = StepCtx { ctx: &c, name: "node", version: "25.1.0_2" };
    assert_eq!(sc.keg(), "/p/Cellar/node/25.1.0_2");
    assert_eq!(sc.template("{{prefix}}"), "/p/Cellar/node/25.1.0_2");
    assert_eq!(sc.template("{{opt_prefix}}/x"), "/p/opt/node/x");
    assert_eq!(sc.template("{{bin}} {{lib}}"), "/p/Cellar/node/25.1.0_2/bin /p/Cellar/node/25.1.0_2/lib");
    assert_eq!(sc.template("{{libexec}}"), "/p/Cellar/node/25.1.0_2/libexec");
    assert_eq!(sc.template("{{share}}"), "/p/Cellar/node/25.1.0_2/share");
    assert_eq!(sc.template("{{include}}"), "/p/Cellar/node/25.1.0_2/include");
    assert_eq!(sc.template("{{pkgshare}}"), "/p/Cellar/node/25.1.0_2/share/node");
    assert_eq!(sc.template("{{pkgetc}} {{etc}} {{var}}"), "/p/etc/node /p/etc /p/var");
    assert_eq!(sc.template("{{HOMEBREW_PREFIX}} {{HOMEBREW_CELLAR}}"), "/p /p/Cellar");
    assert_eq!(sc.template("{{formula_name}}"), "node");
    assert_eq!(sc.template("{{version}} {{version.major}} {{version.major_minor}}"), "25.1.0 25 25.1");
    assert_eq!(sc.template("no {template} here"), "no {template} here");
    let short = StepCtx { ctx: &c, name: "x", version: "7" };
    assert_eq!(short.template("{{version.major_minor}}"), "7");
}

#[test]
fn locations_are_resolved() {
    let c = ctx();
    let sc = StepCtx { ctx: &c, name: "node", version: "1" };
    let loc = |base: &str, path: &str| sc.loc(&at(base, path));
    assert_eq!(loc("prefix", "a"), Some("/p/Cellar/node/1/a".to_string()));
    assert_eq!(loc("opt_prefix", "a"), Some("/p/opt/node/a".to_string()));
    assert_eq!(loc("homebrew_prefix", "a"), Some("/p/a".to_string()));
    assert_eq!(loc("var", "a"), Some("/p/var/a".to_string()));
    assert_eq!(loc("etc", "a"), Some("/p/etc/a".to_string()));
    assert_eq!(loc("pkgshare", "a"), Some("/p/Cellar/node/1/share/node/a".to_string()));
    assert_eq!(loc("frameworks", "a"), Some("/p/Cellar/node/1/Frameworks/a".to_string()));
    assert_eq!(loc("libexec", "a"), Some("/p/Cellar/node/1/libexec/a".to_string()));
    assert_eq!(loc("libexec", "/abs"), Some("/abs".to_string()));
    assert_eq!(sc.loc(&obj(vec![("base", s("bin"))])), Some("/p/Cellar/node/1/bin".to_string()));
    assert_eq!(sc.loc(&obj(vec![("path", s("{{etc}}/x"))])), Some("/p/etc/x".to_string()));
    assert_eq!(sc.loc(&Json::Null), None);
    assert_eq!(sc.loc(&obj(vec![("path", Json::Bool(true))])), None);
}

#[test]
fn guards_decide_whether_a_step_runs() {
    let c = ctx();
    let sc = StepCtx { ctx: &c, name: "node", version: "1" };
    let none: Vec<String> = Vec::new();
    let guarded = |g: Json| obj(vec![("guards", Json::Array(vec![g]))]);
    let on = |v: &str| guarded(obj(vec![("condition", s("on")), ("value", s(v))]));
    assert!(sc.guards_pass(&on("macos"), &none));
    assert!(!sc.guards_pass(&on("linux"), &none));
    assert!(!sc.guards_pass(&guarded(obj(vec![("condition", s("on"))])), &none));
    let exists = |cond: &str| {
        guarded(obj(vec![("condition", s(cond)), ("base", s("etc")), ("path", s("{a,b}"))]))
    };
    assert_eq!(sc.guard_candidates(&exists("if_exists")), ["/p/etc/a", "/p/etc/b"]);
    assert!(!sc.guards_pass(&exists("if_exists"), &none));
    assert!(sc.guards_pass(&exists("if_exists"), &strings(&["/p/etc/b"])));
    assert!(sc.guards_pass(&exists("unless_exists"), &none));
    assert!(!sc.guards_pass(&exists("unless_exists"), &strings(&["/p/etc/b"])));
    assert!(sc.guards_pass(&guarded(obj(vec![("condition", s("if_exists"))])), &none));
    assert!(sc.guards_pass(&guarded(obj(vec![("condition", s("on_moon"))])), &none));
    assert!(sc.guards_pass(&obj(vec![]), &none));
    let both = obj(vec![(
        "guards",
        Json::Array(vec![
            obj(vec![("condition", s("on")), ("value", s("macos"))]),
            obj(vec![("condition", s("on")), ("value", s("linux"))]),
        ]),
    )]);
    assert!(!sc.guards_pass(&both, &none));
}

#[test]
fn paths_outside_the_candidates_do_not_matter() {
    let c = ctx();
    let sc = StepCtx { ctx: &c, name: "node", version: "1" };
    let step = obj(vec![(
        "guards",
        Json::Array(vec![obj(vec![("condition", s("if_exists")), ("path", s("/x"))])]),
    )]);
    assert_eq!(sc.guard_candidates(&step), ["/x"]);
    assert_eq!(
        sc.guards_pass(&step, &strings(&["/y"])),
        sc.guards_pass(&step, &strings(&["/z", "/w"]))
    );
}

fn planned(step: &Json) -> Action {
    let c = ctx();
    let sc = StepCtx { ctx: &c, name: "node", version: "1" };
    match plan(&sc, step) {
        Ok(a) => a,
        Err(e) => panic!("{}", e.message()),
    }
}

#[test]
fn steps_with_paths() {
    let step = obj(vec![
        ("type", s("mkdir_p")),
        ("paths", Json::Array(vec![at("var", "a"), Json::Null, at("var", "{b,c}/*")])),
        ("path", at("etc", "ignored")),
    ]);
    match planned(&step) {
        Action::MakeDirs(ps) => assert_eq!(
            shown(&ps),
            [
                ("/p/var/a".to_string(), false),
                ("/p/var/b/*".to_string(), true),
                ("/p/var/c/*".to_string(), true)
            ]
        ),
        _ => panic!(),
    }
    match planned(&obj(vec![("type", s("touch")), ("path", at("etc", "{x}"))])) {
        Action::Touch(ps) => assert_eq!(shown(&ps), [("/p/etc/{x}".to_string(), false)]),
        _ => panic!(),
    }
    match planned(&obj(vec![("type", s("remove"))])) {
        Action::Remove(ps) => assert!(ps.is_empty()),
        _ => panic!(),
    }
    let chmod = obj(vec![
        ("type", s("set_permissions")),
        ("path", at("etc", "x")),
        ("permissions", s("u+w")),
        ("non_recursive", Json::Bool(true)),
    ]);
    match planned(&chmod) {
        Action::SetPermissions { paths, mode, recursive } => {
            assert_eq!(shown(&paths), [("/p/etc/x".to_string(), false)]);
            assert_eq!(mode, "u+w");
            assert!(!recursive);
        }
        _ => panic!(),
    }
    match planned(&obj(vec![("type", s("set_permissions"))])) {
        Action::SetPermissions { paths, mode, recursive } => {
            assert!(paths.is_empty());
            assert_eq!(mode, "0755");
            assert!(recursive);
        }
        _ => panic!(),
    }
}

fn transfer(ty: &str, extra: Vec<(&str, Json)>) -> Json {
    let mut members = vec![
        ("type", s(ty)),
        ("source", at("libexec", "{a,b}*")),
        ("target", at("homebrew_prefix", "lib")),
    ];
    members.extend(extra);
    obj(members)
}

#[test]
fn steps_with_a_source_and_a_target() {
    match planned(&transfer("symlink", vec![("source_glob", Json::Bool(true))])) {
        Action::Symlink { sources, target, force } => {
            assert_eq!(
                shown(&sources),
                [
                    ("/p/Cellar/node/1/libexec/a*".to_string(), true),
                    ("/p/Cellar/node/1/libexec/b*".to_string(), true)
                ]
            );
            assert_eq!(target, "/p/lib");
            assert!(force);
        }
        _ => panic!(),
    }
    match planned(&transfer("symlink", vec![("force", Json::Bool(false))])) {
        Action::Symlink { sources, force, .. } => {
            assert_eq!(shown(&sources), [("/p/Cellar/node/1/libexec/{a,b}*".to_string(), false)]);
            assert!(!force);
        }
        _ => panic!(),
    }
    match planned(&transfer("link_children", vec![("suffix", s("-{{version.major}}"))])) {
        Action::LinkChildren { suffix, .. } => assert_eq!(suffix, "-1"),
        _ => panic!(),
    }
    assert!(matches!(planned(&transfer("link_dir", vec![])), Action::LinkDir { .. }));
    assert!(matches!(planned(&transfer("copy", vec![])), Action::Copy { .. }));
    assert!(matches!(
        planned(&transfer("move", vec![("overwrite", Json::Bool(true))])),
        Action::Move { overwrite: true, .. }
    ));
    assert!(matches!(planned(&transfer("move", vec![])), Action::Move { overwrite: false, .. }));
    assert!(matches!(
        planned(&transfer("install_gzipped_executable", vec![])),
        Action::InstallGzipped { .. }
    ));
}

#[test]
fn a_missing_path_is_an_error() {
    let c = ctx();
    let sc = StepCtx { ctx: &c, name: "node", version: "1" };
    for ty in ["symlink", "copy", "write", "inreplace", "run"] {
        match plan(&sc, &obj(vec![("type", s(ty)), ("source", at("bin", "x"))])) {
            Ok(_) => panic!("{ty}"),
            Err(e) => assert_eq!(e.message(), "step is missing a required path"),
        }
    }
}

#[test]
fn steps_that_write_or_run() {
    let write = obj(vec![
        ("type", s("write")),
        ("path", at("etc", "conf")),
        ("content", s("prefix={{HOMEBREW_PREFIX}}\n")),
    ]);
    match planned(&write) {
        Action::Write { path, content, overwrite } => {
            assert_eq!(path, "/p/etc/conf");
            assert_eq!(content, "prefix=/p\n");
            assert!(!overwrite);
        }
        _ => panic!(),
    }
    let edit = obj(vec![
        ("type", s("inreplace")),
        ("path", at("etc", "conf")),
        ("before", s("x")),
        ("after", s("{{etc}}")),
        ("regexp", Json::Bool(true)),
    ]);
    match planned(&edit) {
        Action::InReplace { path, before, after, regexp } => {
            assert_eq!((path, before, after, regexp), ("/p/etc/conf".to_string(), "x".to_string(), "/p/etc".to_string(), true));
        }
        _ => panic!(),
    }
    let run = obj(vec![
        ("type", s("run")),
        ("command", at("bin", "node")),
        ("args", Json::Array(vec![s("--dir={{var}}"), Json::Null, s("x")])),
        ("chdir", at("var", "")),
        ("env", obj(vec![("A", s("{{etc}}")), ("B", Json::Number("1".to_string()))])),
    ]);
    match planned(&run) {
        Action::Run { command, args, dir, env } => {
            assert_eq!(command, "/p/Cellar/node/1/bin/node");
            assert_eq!(args, ["--dir=/p/var", "x"]);
            assert_eq!(dir, Some("/p/var/".to_string()));
            assert_eq!(env, [("A".to_string(), "/p/etc".to_string())]);
        }
        _ => panic!(),
    }
}

#[test]
fn steps_that_tell_or_end_something() {
    match planned(&obj(vec![("type", s("warn")), ("message", s("see {{etc}}"))])) {
        Action::Note(n) => assert_eq!(n, "\x1b[33m!\x1b[0m node: see /p/etc"),
        _ => panic!(),
    }
    assert!(matches!(planned(&obj(vec![("type", s("warn"))])), Action::Nothing));
    match planned(&obj(vec![("type", s("terminate_process")), ("name", s("noded"))])) {
        Action::Terminate(n) => assert_eq!(n, "noded"),
        _ => panic!(),
    }
    assert!(matches!(planned(&obj(vec![("type", s("terminate_process"))])), Action::Nothing));
    match planned(&obj(vec![("type", s("configure_php"))])) {
        Action::Note(n) => assert_eq!(
            n,
            "\x1b[33m!\x1b[0m node: post-install step 'configure_php' not supported yet — some functionality may be missing"
        ),
        _ => panic!(),
    }
    match planned(&obj(vec![])) {
        Action::Note(n) => {
            assert_eq!(n, "\x1b[33m!\x1b[0m node: unknown post-install step '?' skipped")
        }
        _ => panic!(),
    }
    assert_eq!(step_type(&obj(vec![("type", s("run"))])), "run");
    assert_eq!(step_type(&Json::Null), "?");
}

#[test]
fn helper_tools_are_looked_for() {
    match planned(&obj(vec![("type", s("gtk_update_icon_cache")), ("path", at("share", "icons"))])) {
        Action::Tool { dir, tools, args } => {
            assert_eq!(dir, Some("/p/Cellar/node/1/share/icons".to_string()));
            assert_eq!(
                tools,
                [
                    "/p/opt/gtk4/bin/gtk4-update-icon-cache",
                    "/p/bin/gtk4-update-icon-cache",
                    "/p/opt/gtk+3/bin/gtk3-update-icon-cache",
                    "/p/bin/gtk3-update-icon-cache",
                    "/p/opt/gtk+3/bin/gtk-update-icon-cache",
                    "/p/bin/gtk-update-icon-cache"
                ]
            );
            assert_eq!(args, ["-q", "-t", "-f"]);
            let there = strings(&["/p/bin/gtk-update-icon-cache", "/p/bin/gtk3-update-icon-cache"]);
            assert_eq!(find_tool(&tools, &there), Some("/p/bin/gtk3-update-icon-cache".to_string()));
            match tool_step(&dir, true, &tools, &args, &there) {
                Some(c) => {
                    assert_eq!(c.tool, "/p/bin/gtk3-update-icon-cache");
                    assert_eq!(c.args, ["-q", "-t", "-f", "/p/Cellar/node/1/share/icons"]);
                }
                None => panic!(),
            }
            assert!(tool_step(&dir, false, &tools, &args, &there).is_none());
            assert!(tool_step(&dir, true, &tools, &args, &Vec::new()).is_none());
            match tool_step(&None, false, &tools, &args, &there) {
                Some(c) => assert_eq!(c.args, ["-q", "-t", "-f"]),
                None => panic!(),
            }
        }
        _ => panic!(),
    }
    for (ty, tool) in [
        ("compile_gsettings_schemas", "/p/opt/glib/bin/glib-compile-schemas"),
        ("gdk_pixbuf_query_loaders", "/p/opt/gdk-pixbuf/bin/gdk-pixbuf-query-loaders"),
        ("update_mime_database", "/p/opt/shared-mime-info/bin/update-mime-database"),
        ("update_desktop_database", "/p/opt/desktop-file-utils/bin/update-desktop-database"),
    ] {
        match planned(&obj(vec![("type", s(ty))])) {
            Action::Tool { dir, tools, .. } => {
                assert_eq!(dir, None);
                assert_eq!(tools[0], tool);
            }
            _ => panic!("{ty}"),
        }
    }
}

#[test]
fn data_directories_are_filled_once() {
    let step = |using: &str| {
        obj(vec![("type", s("init_data_dir")), ("path", at("var", "db")), ("using", s(using))])
    };
    match planned(&step("initdb")) {
        Action::InitDataDir { data, using, tools } => {
            assert_eq!(data, "/p/var/db");
            assert_eq!(using, "initdb");
            assert_eq!(tools, ["/p/opt/postgresql/bin/initdb", "/p/bin/initdb"]);
            let there = strings(&["/p/bin/initdb"]);
            match init_data_dir("pg", &data, &using, true, Some(0), &tools, &there) {
                InitStep::Fill { note, run } => {
                    assert_eq!(note, "· pg: initializing data dir via initdb");
                    assert_eq!(run.tool, "/p/bin/initdb");
                    assert_eq!(run.args, ["--locale=C", "-E", "UTF-8", "/p/var/db"]);
                }
                _ => panic!(),
            }
            assert!(matches!(
                init_data_dir("pg", &data, &using, true, Some(2), &tools, &there),
                InitStep::Keep
            ));
            assert!(matches!(
                init_data_dir("pg", &data, &using, true, None, &tools, &there),
                InitStep::Fill { .. }
            ));
            match init_data_dir("pg", &data, &using, false, Some(2), &tools, &Vec::new()) {
                InitStep::Skip(note) => assert_eq!(
                    note,
                    "\x1b[33m!\x1b[0m pg: init_data_dir via 'initdb' skipped (tool not installed)"
                ),
                _ => panic!(),
            }
        }
        _ => panic!(),
    }
    match planned(&step("mysql_install_db")) {
        Action::InitDataDir { data, using, tools } => {
            let there = strings(&["/p/opt/mysql/bin/mysqld"]);
            match init_data_dir("my", &data, &using, false, None, &tools, &there) {
                InitStep::Fill { run, .. } => {
                    assert_eq!(run.args, ["--initialize-insecure", "--datadir=/p/var/db"])
                }
                _ => panic!(),
            }
        }
        _ => panic!(),
    }
    match planned(&step("mariadb_install_db")) {
        Action::InitDataDir { tools, .. } => {
            assert_eq!(tools[0], "/p/opt/mariadb/bin/mariadb-install-db");
            match init_data_dir("m", "/a b", "mariadb_install_db", false, None, &tools, &tools) {
                InitStep::Fill { run, .. } => assert_eq!(run.args, ["--datadir=/a", "b"]),
                _ => panic!(),
            }
        }
        _ => panic!(),
    }
    match planned(&step("other")) {
        Action::InitDataDir { tools, .. } => assert!(tools.is_empty()),
        _ => panic!(),
    }
    assert!(matches!(planned(&obj(vec![("type", s("init_data_dir"))])), Action::Nothing));
    assert_eq!(init_failure("initdb", " no\n"), "initdb failed: no");
}

#[test]
fn file_operations() {
    assert_eq!(all(mkdir_ops("/a/b")), ["mkdir /a/b"]);
    assert_eq!(all(touch_ops("/a/b", false)), ["mkdir /a", "create /a/b"]);
    assert_eq!(all(touch_ops("/a/b", true)), ["mkdir /a"]);
    assert_eq!(all(remove_ops("/a", true)), ["rmdir? /a"]);
    assert_eq!(all(remove_ops("/a", false)), ["rm? /a"]);
    assert!(takes_along(true, true));
    assert!(!takes_along(true, false) && !takes_along(false, true) && !takes_along(false, false));
    assert_eq!(
        all(symlink_ops("/s/n", "/d", true, true)),
        ["mkdir /d", "rm? /d/n", "link /s/n /d/n"]
    );
    assert_eq!(all(symlink_ops("/s/n", "/d", false, false)), ["mkdir /", "link /s/n /d"]);
    assert_eq!(all(link_dir_ops("/s", "/d/e")), ["mkdir /d", "rm? /d/e", "link /s /d/e"]);
    assert_eq!(
        all(link_child_ops("/s", "/d", "n", "-2")),
        ["rm? /d/n-2", "link /s/n /d/n-2"]
    );
    assert_eq!(all(copy_ops("/s/n", "/d", true)), ["mkdir /d", "copy /s/n /d/n"]);
    assert_eq!(
        all(move_ops("/s", "/d/e", Found::Dir, true)),
        ["mkdir /d", "rmdir /d/e", "move /s /d/e"]
    );
    assert_eq!(
        all(move_ops("/s", "/d/e", Found::File, true)),
        ["mkdir /d", "rm /d/e", "move /s /d/e"]
    );
    assert_eq!(all(move_ops("/s", "/d/e", Found::File, false)), ["mkdir /d", "move /s /d/e"]);
    assert_eq!(all(move_ops("/s", "/d/e", Found::Nothing, true)), ["mkdir /d", "move /s /d/e"]);
    assert_eq!(all(write_ops("/a/b", "t", false, false)), ["mkdir /a", "write /a/b t"]);
    assert_eq!(all(write_ops("/a/b", "t", true, false)), ["mkdir /a"]);
    assert_eq!(all(write_ops("/a/b", "t", true, true)), ["mkdir /a", "write /a/b t"]);
    assert_eq!(all(touch_ops("/", false)), ["create /"]);
}

#[test]
fn replacing_text_in_files() {
    assert_eq!(inreplace("a.b.c", ".", "-", false), Ok(Some("a-b-c".to_string())));
    assert_eq!(inreplace("abc", "x", "-", false), Ok(None));
    assert_eq!(inreplace("ab", "", "-", false), Ok(Some("-a-b-".to_string())));
    assert_eq!(
        inreplace("k1=v1 k2=v2", r"(\w)(\d)=", "${2}${1}:", true),
        Ok(Some("1k:v1 2k:v2".to_string()))
    );
    assert_eq!(inreplace("abc", "x+", "-", true), Ok(None));
    assert!(inreplace("abc", "(", "-", true).is_err());
    assert_eq!(settle("a", "b".to_string()), Some("b".to_string()));
    assert_eq!(settle("a", "a".to_string()), None);
}

#[test]
fn gzipped_executables() {
    assert!(matches!(gzipped("/s", "/d", true, false), Gzipped::Unpack));
    assert!(matches!(gzipped("/s", "/d", true, true), Gzipped::Unpack));
    assert!(matches!(gzipped("/s", "/d", false, true), Gzipped::Done));
    match gzipped("/s", "/d", false, false) {
        Gzipped::Missing(m) => assert_eq!(m, "/s missing and /d not present"),
        _ => panic!(),
    }
    let mut gz = flate2::write::GzEncoder::new(Vec::new(), flate2::Compression::default());
    std::io::Write::write_all(&mut gz, b"#!/bin/sh\n").expect("in memory");
    let packed = gz.finish().expect("in memory");
    match unpack(&packed) {
        Ok(u) => {
            assert_eq!(u.data, b"#!/bin/sh\n");
            assert_eq!(u.mode, 0o755);
        }
        Err(e) => panic!("{e}"),
    }
    assert!(unpack(&b"not gzip".to_vec()).is_err());
}

#[test]
fn notes_about_steps() {
    assert_eq!(
        failure_note("node", "run", "boom"),
        "\x1b[33m!\x1b[0m node: post-install step 'run' failed: boom"
    );
    assert_eq!(
        run_note("node", "/p/bin/npm", &strings(&["i", "-g"])),
        "· node: post-install ran npm i -g"
    );
    assert_eq!(run_note("node", "/", &Vec::new()), "· node: post-install ran  ");
    assert_eq!(run_failure("exit status: 1", "  bad \n"), "exit exit status: 1: bad");
    let long = "x".repeat(300);
    assert_eq!(run_failure("1", &long), format!("exit 1: {}", "x".repeat(200)));
    assert_eq!(
        tool_failure("gtk", "/p/bin/tool", &long),
        format!("\x1b[33m!\x1b[0m gtk: tool failed: {}", "x".repeat(120))
    );
}
