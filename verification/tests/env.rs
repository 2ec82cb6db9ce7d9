use dram::bottle::Arch;
use dram::ctx::Ctx;
use dram::env::{
    env_bins, env_links, init, init_note, init_tip, lock, lock_note, locked_kegs, locked_versions, print_env,
    shell_path, sync, sync_note, wanted, Lockfile, Manifest,
};
use dram::formula::{BottleFile, BottleSpec, Formula, Versions};
use dram::json::Json;
use dram::profile::{ensure_on_path, path_step, PathStep, ProfileStep};
use dram::step_ops::Op;
use dram::strmap::StrMap;

fn strings(v: &[&str]) -> Vec<String> {
    v.iter().map(|s| s.to_string()).collect()
}

fn f(name: &str, deps: &[&str], tags: &[&str], steps: Vec<Json>) -> Formula {
    let mut files = StrMap::new();
    for t in tags {
        files.insert(
            t.to_string(),
            BottleFile {
                cellar: ":any".to_string(),
                url: format!("https://x/{name}/{t}"),
                sha256: format!("{name}-{t}"),
            },
        );
    }
    let mut bottle = StrMap::new();
    bottle.insert("stable".to_string(), BottleSpec { files });
    Formula {
        name: name.to_string(),
        desc: None,
        aliases: vec![],
        oldnames: vec![],
        versions: Versions { stable: Some("1".to_string()) },
        revision: 2,
        dependencies: strings(deps),
        keg_only: true,
        bottle,
        post_install_steps: steps,
    }
}

fn locked() -> Lockfile {
    let dep = f("oniguruma", &[], &["all"], vec![]);
    let jq = f("jq", &["oniguruma"], &["arm64_tahoe", "sonoma"], vec![Json::Null]);
    let plan = vec![&dep, &jq];
    match lock(&plan, &strings(&["jq"]), &strings(&["[]", "[null]"])) {
        Ok(l) => l,
        Err(e) => panic!("{}", e.message()),
    }
}

#[test]
fn manifests_are_merged() {
    let m = init(Manifest { packages: strings(&["jq"]) }, &strings(&["wget", "jq", "wget"]));
    assert_eq!(m.packages, ["jq", "wget"]);
    assert_eq!(init_note(&m), "\x1b[32m✓\x1b[0m wrote dram.toml (jq, wget)");
    let again = init(m, &strings(&["wget", "jq", "wget"]));
    assert_eq!(again.packages, ["jq", "wget"]);
    let none = Manifest { packages: vec![] };
    assert_eq!(init_note(&none), "\x1b[32m✓\x1b[0m wrote dram.toml (empty — add packages to it)");
    assert_eq!(
        init_tip(),
        "\x1b[2m  · tip: add .dram/ to .gitignore; commit dram.toml and dram.lock\x1b[0m"
    );
    match wanted(&none) {
        Ok(_) => panic!(),
        Err(e) => assert_eq!(e.message(), "dram.toml lists no packages"),
    }
    assert!(wanted(&again).is_ok());
}

#[test]
fn locking_pins_versions_and_bottles() {
    let l = locked();
    assert_eq!(l.version, 1);
    assert_eq!(l.packages.len(), 2);
    let jq = &l.packages[1];
    assert_eq!((jq.name.as_str(), jq.version.as_str()), ("jq", "1_2"));
    assert!(jq.requested && jq.keg_only);
    assert!(!l.packages[0].requested);
    assert_eq!(jq.deps, ["oniguruma"]);
    assert_eq!(jq.post_install, "[null]");
    assert_eq!(l.packages[0].post_install, "");
    match jq.bottles.get("sonoma") {
        Some(b) => assert_eq!((b.url.as_str(), b.sha256.as_str()), ("https://x/jq/sonoma", "jq-sonoma")),
        None => panic!(),
    }
    assert_eq!(jq.bottles.len(), 2);
    assert_eq!(lock_note(2), "\x1b[32m✓\x1b[0m locked 2 formulae -> dram.lock");
    assert_eq!(lock_note(1), "\x1b[32m✓\x1b[0m locked 1 formula -> dram.lock");
}

#[test]
fn locking_needs_a_stable_bottle() {
    let mut bad = f("bad", &[], &[], vec![]);
    bad.bottle = StrMap::new();
    match lock(&vec![&bad], &Vec::new(), &strings(&[""])) {
        Ok(_) => panic!("locked"),
        Err(e) => assert_eq!(e.message(), "bad has no stable bottle"),
    }
}

#[test]
fn a_sync_pours_what_is_locked() {
    let l = locked();
    let c = Ctx { prefix: "/p".to_string() };
    assert_eq!(locked_kegs(&c, &l), ["/p/Cellar/oniguruma/1_2", "/p/Cellar/jq/1_2"]);
    let steps = vec![vec![Json::Bool(true)], vec![Json::Null]];
    match sync(Arch::Aarch64, &c, &l, &steps, &Vec::new()) {
        Ok(items) => {
            assert_eq!(items.len(), 2);
            assert_eq!(items[0].file.url, "https://x/oniguruma/all");
            assert!(items[0].spec.post_install.is_empty());
            assert_eq!(items[1].file.sha256, "jq-arm64_tahoe");
            assert_eq!(items[1].file.cellar, "");
            assert_eq!(items[1].spec.post_install.len(), 1);
            assert!(!items[1].spec.requested && items[1].spec.keg_only);
            assert!(items[1].via.is_none());
        }
        Err(e) => panic!("{}", e.message()),
    }
    match sync(Arch::X86_64, &c, &l, &steps, &strings(&["/p/Cellar/oniguruma/1_2"])) {
        Ok(items) => {
            assert_eq!(items.len(), 1);
            assert_eq!(items[0].file.sha256, "jq-sonoma");
        }
        Err(e) => panic!("{}", e.message()),
    }
    let pins = locked_versions(&l);
    assert_eq!(pins.get("jq"), Some(&"1_2".to_string()));
    assert_eq!(pins.get("curl"), None);
}

#[test]
fn a_sync_needs_a_bottle_for_the_platform() {
    let only_arm = f("jq", &[], &["arm64_tahoe", "x86_64_linux"], vec![]);
    let l = match lock(&vec![&only_arm], &Vec::new(), &strings(&[""])) {
        Ok(l) => l,
        Err(e) => panic!("{}", e.message()),
    };
    let c = Ctx { prefix: "/p".to_string() };
    match sync(Arch::X86_64, &c, &l, &vec![vec![]], &Vec::new()) {
        Ok(_) => panic!("synced"),
        Err(e) => assert_eq!(
            e.message(),
            "jq: no locked bottle for this platform (have: arm64_tahoe, x86_64_linux)"
        ),
    }
}

#[test]
fn the_environment_is_a_directory_of_links() {
    let l = locked();
    let c = Ctx { prefix: "/p".to_string() };
    let bins = env_bins(&c, &l);
    assert_eq!(bins, ["/p/Cellar/jq/1_2/bin"]);
    let ops = env_links(&bins[0], ".dram/bin", &strings(&["jq", "jqq"]));
    assert_eq!(ops.len(), 2);
    match &ops[1] {
        Op::Link { source, target } => {
            assert_eq!(source, "/p/Cellar/jq/1_2/bin/jqq");
            assert_eq!(target, ".dram/bin/jqq");
        }
        _ => panic!(),
    }
    assert_eq!(
        sync_note(2, 1, ".dram/bin"),
        "\x1b[32m✓\x1b[0m env synced: 2 poured, 1 executable in .dram/bin"
    );
    assert_eq!(
        sync_note(0, 3, "x"),
        "\x1b[32m✓\x1b[0m env synced: 0 poured, 3 executables in x"
    );
    assert_eq!(shell_path("/w/.dram/bin", "/bin"), "/w/.dram/bin:/bin");
    assert_eq!(print_env("/w"), "export PATH=\"/w/.dram/bin:$PATH\"");
}

#[test]
fn the_search_path_is_looked_at_first() {
    let c = Ctx { prefix: "/home/u/.dram".to_string() };
    let some = |t: &str| Some(t.to_string());
    let home = some("/home/u");
    assert!(matches!(
        path_step(&c, &some("/bin:/home/u//.dram/bin/:/x"), &None, ""),
        PathStep::Done
    ));
    assert!(matches!(path_step(&c, &some("/bin"), &None, "/bin/zsh"), PathStep::NoHome));
    match path_step(&c, &some("/bin"), &home, "/bin/zsh") {
        PathStep::Profile { home, rc } => {
            assert_eq!((home.as_str(), rc.as_str()), ("/home/u", "/home/u/.zshrc"))
        }
        _ => panic!(),
    }
    match path_step(&c, &None, &home, "/usr/bin/bash") {
        PathStep::Profile { rc, .. } => assert_eq!(rc, "/home/u/.bash_profile"),
        _ => panic!(),
    }
    match path_step(&c, &None, &home, "/usr/bin/fish") {
        PathStep::Tell(note) => assert_eq!(
            note,
            "\x1b[2m·\x1b[0m add /home/u/.dram/bin to your PATH to use installed formulae"
        ),
        _ => panic!(),
    }
}

#[test]
fn a_profile_is_extended_once() {
    let c = Ctx { prefix: "/home/u/.dram".to_string() };
    let content = match ensure_on_path(&c, "/home/u", "/home/u/.zshrc", "alias l=ls") {
        ProfileStep::Write { content, note } => {
            assert_eq!(
                note,
                "\x1b[32m✓\x1b[0m added /home/u/.dram/bin to PATH in /home/u/.zshrc — open a new shell or run: source /home/u/.zshrc"
            );
            content
        }
        _ => panic!(),
    };
    assert_eq!(
        content,
        "alias l=ls\n\n# added by dram\nexport PATH=\"$HOME/.dram/bin:$PATH\"\n"
    );
    match ensure_on_path(&c, "/home/u", "/home/u/.zshrc", &content) {
        ProfileStep::Configured(note) => assert_eq!(
            note,
            "\x1b[32m✓\x1b[0m restart your shell to pick up /home/u/.dram/bin"
        ),
        _ => panic!(),
    }
    match ensure_on_path(&c, "/home/u", "rc", "") {
        ProfileStep::Write { content, .. } => {
            assert_eq!(content, "\n# added by dram\nexport PATH=\"$HOME/.dram/bin:$PATH\"\n")
        }
        _ => panic!(),
    }
}
