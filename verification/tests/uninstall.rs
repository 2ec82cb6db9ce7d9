use dram::ctx::Ctx;
use dram::install::Receipt;
use dram::installed::{scan_installed, CellarEntry, Installed, KegEntry};
use dram::links::{is_linked, link_bin, missing_keg, opt_link_ops, remove_keg, BinLink, LinkError};
use dram::step_ops::Op;
use dram::ui::{row_label, summary};
use dram::uninstall::{uninstall, Removal, UninstallError};

fn strings(v: &[&str]) -> Vec<String> {
    v.iter().map(|s| s.to_string()).collect()
}

fn keg(name: &str, requested: bool, protected: bool, deps: &[&str]) -> Installed {
    Installed {
        name: name.to_string(),
        version: "1".to_string(),
        versions: strings(&["1"]),
        receipt: Some(Receipt { requested, protected, deps: strings(deps) }),
    }
}

fn rows(r: &Removal) -> Vec<(String, String)> {
    r.rows.iter().map(|row| (row.branch.to_string(), row.name.clone())).collect()
}

fn removed(all: &Vec<Installed>, names: &[&str]) -> Vec<(String, String)> {
    match uninstall(all, &strings(names), false) {
        (_, Ok(r)) => rows(&r),
        (_, Err(e)) => panic!("{}", e.message()),
    }
}

fn row(branch: &str, name: &str) -> (String, String) {
    (branch.to_string(), name.to_string())
}

#[test]
fn orphans_go_along_one_after_another() {
    let all = vec![
        keg("wget", true, false, &["libidn2", "openssl"]),
        keg("libidn2", false, false, &["libunistring"]),
        keg("libunistring", false, false, &[]),
        keg("openssl", false, false, &[]),
        keg("curl", true, false, &["openssl"]),
    ];
    assert_eq!(
        removed(&all, &["wget"]),
        [row("", "wget"), row("├─", "libunistring"), row("└─", "libidn2")]
    );
    assert_eq!(
        removed(&all, &["wget", "curl"]),
        [
            row("", "wget"),
            row("├─", "libunistring"),
            row("├─", "libidn2"),
            row("└─", "openssl"),
            row("", "curl")
        ]
    );
}

#[test]
fn requested_and_protected_kegs_stay() {
    let all = vec![
        keg("a", true, false, &["b", "c", "d"]),
        keg("b", true, false, &[]),
        keg("c", false, true, &[]),
        keg("d", false, false, &["d"]),
    ];
    assert_eq!(removed(&all, &["a"]), [row("", "a"), row("└─", "d")]);
}

#[test]
fn orphans_without_a_way_to_them_get_a_row() {
    let mut bare = keg("a", true, false, &[]);
    bare.receipt = None;
    let all = vec![keg("old", false, false, &[]), bare];
    assert_eq!(removed(&all, &["a"]), [row("", "a"), row("", "old")]);
}

#[test]
fn each_removed_keg_has_one_row() {
    let all = vec![
        keg("x", true, false, &["s", "t"]),
        keg("y", true, false, &["s"]),
        keg("s", false, false, &["t"]),
        keg("t", false, false, &["s"]),
    ];
    assert_eq!(removed(&all, &["y", "x"]), [row("", "y"), row("", "x")]);
    let shared = vec![
        keg("x", true, false, &["s", "t"]),
        keg("y", true, false, &["s"]),
        keg("s", false, false, &["t"]),
        keg("t", false, false, &[]),
    ];
    assert_eq!(
        removed(&shared, &["y", "x"]),
        [row("", "y"), row("├─", "t"), row("└─", "s"), row("", "x")]
    );
}

#[test]
fn all_that_is_pulled_is_collected_dependencies_first() {
    let all = vec![
        keg("app", true, false, &["top", "side", "kept", "gone"]),
        keg("top", false, false, &["left", "right"]),
        keg("left", false, false, &["base"]),
        keg("right", false, false, &["base", "right"]),
        keg("base", false, false, &[]),
        keg("side", false, false, &["top", "behind"]),
        keg("kept", true, false, &["behind"]),
        keg("behind", false, false, &[]),
    ];
    assert_eq!(
        removed(&all, &["app"]),
        [
            row("", "app"),
            row("├─", "base"),
            row("├─", "left"),
            row("├─", "right"),
            row("├─", "top"),
            row("└─", "side"),
        ]
    );
}

#[test]
fn every_version_shields_its_formula() {
    let version = |name: &str, requested: bool, protected: bool| KegEntry {
        name: name.to_string(),
        is_dir: true,
        receipt: Some(Receipt { requested, protected, deps: strings(&["dep"]) }),
    };
    let cellar = |kegs: Vec<KegEntry>| {
        scan_installed(&vec![
            CellarEntry { name: "jq".to_string(), is_dir: true, kegs },
            CellarEntry {
                name: "root".to_string(),
                is_dir: true,
                kegs: vec![KegEntry {
                    name: "1".to_string(),
                    is_dir: true,
                    receipt: Some(Receipt { requested: true, protected: false, deps: strings(&["jq"]) }),
                }],
            },
        ])
    };
    let free = cellar(vec![version("1", false, false), version("2", false, false)]);
    assert_eq!(removed(&free, &["root"]), [row("", "root"), row("└─", "jq")]);
    let pinned = cellar(vec![version("1", false, false), version("2", false, true)]);
    assert_eq!(removed(&pinned, &["root"]), [row("", "root")]);
    let asked = cellar(vec![version("1", false, false), version("2", true, false)]);
    assert_eq!(removed(&asked, &["root"]), [row("", "root")]);
}

#[test]
fn dependents_refuse_the_removal() {
    let all = vec![
        keg("openssl", false, false, &[]),
        keg("curl", true, false, &["openssl"]),
        keg("wget", true, false, &["openssl"]),
    ];
    match uninstall(&all, &strings(&["openssl"]), false) {
        (warnings, Err(e)) => {
            assert!(warnings.is_empty());
            assert!(matches!(e, UninstallError::Required { .. }));
            assert_eq!(
                e.message(),
                "openssl is required by curl, wget (use --force-remove/-f to remove anyway)"
            );
        }
        _ => panic!("removed"),
    }
    match uninstall(&all, &strings(&["openssl"]), true) {
        (warnings, Ok(r)) => {
            assert_eq!(
                warnings,
                ["\x1b[33m!\x1b[0m removing openssl even though curl, wget depend on it — they may break"]
            );
            assert_eq!(rows(&r), [row("", "openssl")]);
        }
        _ => panic!("refused"),
    }
    match uninstall(&all, &strings(&["openssl", "curl"]), true) {
        (warnings, Ok(_)) => assert_eq!(
            warnings,
            ["\x1b[33m!\x1b[0m removing openssl even though wget depends on it — they may break"]
        ),
        _ => panic!("refused"),
    }
    match uninstall(&all, &strings(&["openssl", "curl", "wget"]), false) {
        (warnings, Ok(r)) => {
            assert!(warnings.is_empty());
            assert_eq!(r.rows.len(), 3);
        }
        _ => panic!("refused"),
    }
}

#[test]
fn what_is_not_installed_cannot_go() {
    let all = vec![keg("curl", true, false, &["openssl"]), keg("openssl", false, false, &[])];
    match uninstall(&all, &strings(&["openssl", "nope"]), true) {
        (warnings, Err(e)) => {
            assert_eq!(warnings.len(), 1);
            assert_eq!(e.message(), "nope is not installed");
        }
        _ => panic!("removed"),
    }
}

#[test]
fn rows_are_as_wide_as_the_widest() {
    let all = vec![keg("a", true, false, &["longer"]), keg("longer", false, false, &[])];
    match uninstall(&all, &strings(&["a"]), false) {
        (_, Ok(r)) => {
            assert_eq!(r.width, "└─ longer 1".chars().count());
            assert_eq!(
                row_label(r.rows[0].branch, &r.rows[0].name, &r.rows[0].version, r.width),
                format!("a \x1b[2m1\x1b[0m{}", " ".repeat(8))
            );
        }
        _ => panic!(),
    }
    assert_eq!(summary("uninstalled", 2, "0.3"), "\x1b[32m✓\x1b[0m uninstalled 2 formulae in 0.3s");
}

fn show(op: &Op) -> String {
    match op {
        Op::RemoveDir(p) => format!("rmdir {p}"),
        Op::RemoveFile(p) => format!("rm {p}"),
        Op::TryRemoveFile(p) => format!("rm? {p}"),
        Op::Link { source, target } => format!("link {source} {target}"),
        _ => panic!(),
    }
}

#[test]
fn kegs_go_with_their_links() {
    let c = Ctx { prefix: "/p".to_string() };
    let link = |name: &str, dest: &str| BinLink { name: name.to_string(), dest: dest.to_string() };
    let links = vec![
        link("jq", "/p/Cellar/jq/1.8/bin/jq"),
        link("jqx", "/p/Cellar/jqx/1/bin/jqx"),
        link("other", "/usr/bin/other"),
        link("jq2", "/p//Cellar/./jq/1.7/bin/jq"),
    ];
    assert_eq!(
        remove_keg(&c, "jq", &links).iter().map(show).collect::<Vec<_>>(),
        ["rm /p/bin/jq", "rm /p/bin/jq2", "rm? /p/opt/jq", "rmdir /p/Cellar/jq"]
    );
}

#[test]
fn foreign_files_are_never_overwritten() {
    let c = Ctx { prefix: "/p".to_string() };
    let shown = |r: Result<Vec<Op>, LinkError>| match r {
        Ok(ops) => ops.iter().map(show).collect::<Vec<_>>(),
        Err(e) => vec![e.message()],
    };
    let dest = |d: &str| Some(d.to_string());
    assert_eq!(
        shown(link_bin(&c, "/p/Cellar/jq/1", "jq", &None, false)),
        ["link /p/Cellar/jq/1/bin/jq /p/bin/jq"]
    );
    assert_eq!(
        shown(link_bin(&c, "/p/Cellar/jq/1", "jq", &dest("/p/Cellar/jq/0/bin/jq"), true)),
        ["rm /p/bin/jq", "link /p/Cellar/jq/1/bin/jq /p/bin/jq"]
    );
    assert_eq!(
        shown(link_bin(&c, "/p/Cellar/jq/1", "jq", &dest("/usr/bin/jq"), true)),
        ["refusing to overwrite /p/bin/jq"]
    );
    assert_eq!(
        shown(link_bin(&c, "/p/Cellar/jq/1", "jq", &dest("/p/CellarX/jq"), false)),
        ["refusing to overwrite /p/bin/jq"]
    );
    assert_eq!(
        shown(link_bin(&c, "/p/Cellar/jq/1", "jq", &None, true)),
        ["refusing to overwrite non-symlink /p/bin/jq"]
    );
    assert_eq!(
        opt_link_ops(&c, "jq", "/p/Cellar/jq/1").iter().map(show).collect::<Vec<_>>(),
        ["rm? /p/opt/jq", "link /p/Cellar/jq/1 /p/opt/jq"]
    );
    assert!(is_linked(false, true) && !is_linked(true, true) && !is_linked(false, false));
    assert_eq!(missing_keg("jq", "/k"), "jq: tarball did not produce expected keg /k");
}
