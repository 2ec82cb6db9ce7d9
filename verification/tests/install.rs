use dram::api::Index;
use dram::bottle::Arch;
use dram::ctx::Ctx;
use dram::formula::{BottleFile, BottleSpec, Formula, Versions};
use dram::install::{
    attribute, canonical_names, dep_versions, install_all, plan_kegs, promotions, protect_keg,
    write_receipt, PourSpec, Receipt, RECEIPT,
};
use dram::installed::{
    outdated_list, requested_names, scan_installed, CellarEntry, Installed, KegEntry,
};
use dram::json::Json;
use dram::resolver::resolve;
use dram::strmap::StrMap;
use dram::upgrade::{
    outdated_line, target_names, upgrade, upgrade_cleanup, upgrade_note, upgrade_targets,
};

fn strings(v: &[&str]) -> Vec<String> {
    v.iter().map(|s| s.to_string()).collect()
}

fn f(name: &str, version: &str, deps: &[&str]) -> Formula {
    let mut files = StrMap::new();
    files.insert(
        "all".to_string(),
        BottleFile {
            cellar: ":any".to_string(),
            url: format!("https://x/{name}"),
            sha256: format!("d-{name}"),
        },
    );
    let mut bottle = StrMap::new();
    bottle.insert("stable".to_string(), BottleSpec { files });
    Formula {
        name: name.to_string(),
        desc: None,
        aliases: vec![],
        oldnames: vec![],
        versions: Versions { stable: Some(version.to_string()) },
        revision: 0,
        dependencies: strings(deps),
        keg_only: false,
        bottle,
        post_install_steps: vec![Json::Bool(true)],
    }
}

fn receipt(requested: bool, protected: bool, deps: &[&str]) -> Receipt {
    Receipt { requested, protected, deps: strings(deps) }
}

fn keg(name: &str, receipt: Option<Receipt>) -> KegEntry {
    KegEntry { name: name.to_string(), is_dir: true, receipt }
}

fn entry(name: &str, kegs: Vec<KegEntry>) -> CellarEntry {
    CellarEntry { name: name.to_string(), is_dir: true, kegs }
}

fn installed(name: &str, versions: &[&str], receipt: Option<Receipt>) -> Installed {
    Installed {
        name: name.to_string(),
        version: versions[0].to_string(),
        versions: strings(versions),
        receipt,
    }
}

fn ctx() -> Ctx {
    Ctx { prefix: "/p".to_string() }
}

#[test]
fn directories_below_the_prefix() {
    let c = ctx();
    assert_eq!(c.cellar(), "/p/Cellar");
    assert_eq!(c.opt(), "/p/opt");
    assert_eq!(c.bin(), "/p/bin");
    assert_eq!(c.cache(), "/p/cache");
    assert_eq!(c.keg("jq", "1.8"), "/p/Cellar/jq/1.8");
    assert_eq!(c.clone().prefix, "/p");
    assert_eq!(Ctx { prefix: "/p/".to_string() }.bin(), "/p/bin");
}

#[test]
fn receipts_keep_their_protection() {
    assert_eq!(RECEIPT, ".dram-receipt.json");
    let fresh = write_receipt(&None, true, &strings(&["a"]));
    assert!(fresh.requested && !fresh.protected);
    assert_eq!(fresh.deps, ["a"]);
    let shielded = protect_keg(&Some(fresh), &strings(&["b"]));
    assert!(shielded.requested && shielded.protected);
    assert_eq!(shielded.deps, ["b"]);
    let again = write_receipt(&Some(shielded), false, &strings(&["c"]));
    assert!(!again.requested && again.protected);
    let bare = protect_keg(&None, &Vec::new());
    assert!(!bare.requested && bare.protected);
    assert!(bare.clone().protected);
}

#[test]
fn a_formula_says_how_it_is_poured() {
    let spec = PourSpec::from_formula(&f("jq", "1.8", &["oniguruma"]), true);
    assert_eq!(spec.name, "jq");
    assert_eq!(spec.version, "1.8");
    assert_eq!(spec.deps, ["oniguruma"]);
    assert!(spec.requested && !spec.keg_only);
    assert_eq!(spec.post_install.len(), 1);
    assert_eq!(spec.clone().name, "jq");
}

#[test]
fn what_is_missing_is_installed_under_its_root() {
    let mut curl = f("curl", "8", &["zlib"]);
    curl.aliases = vec!["cu".to_string()];
    let index = Index::from_formulae(vec![
        f("jq", "1", &["oniguruma", "zlib"]),
        f("oniguruma", "6", &[]),
        f("zlib", "3", &[]),
        curl,
    ]);
    let names = strings(&["jq", "cu", "nope"]);
    assert_eq!(canonical_names(&index, &names), ["jq", "curl"]);
    let roots = strings(&["jq", "curl"]);
    let plan = match resolve(&index, &roots) {
        Ok(p) => p,
        Err(e) => panic!("{}", e.message()),
    };
    let c = ctx();
    assert_eq!(
        plan_kegs(&c, &plan),
        ["/p/Cellar/oniguruma/6", "/p/Cellar/zlib/3", "/p/Cellar/jq/1", "/p/Cellar/curl/8"]
    );
    let there = strings(&["/p/Cellar/oniguruma/6", "/p/Cellar/curl/8"]);
    let promoted = promotions(&c, &plan, &roots, &there);
    assert_eq!(promoted.iter().map(|f| f.name.clone()).collect::<Vec<_>>(), ["curl"]);
    match install_all(Arch::Aarch64, &c, &index, &plan, &roots, &there) {
        Ok(items) => {
            assert_eq!(items.len(), 2);
            assert_eq!(items[0].spec.name, "zlib");
            assert_eq!(items[0].via, Some("jq".to_string()));
            assert!(!items[0].spec.requested);
            assert_eq!(items[0].file.url, "https://x/zlib");
            assert_eq!(items[1].spec.name, "jq");
            assert_eq!(items[1].via, None);
            assert!(items[1].spec.requested);
        }
        Err(e) => panic!("{}", e.message()),
    }
    assert_eq!(attribute(&index, &strings(&["curl", "jq"]), "zlib"), Some("curl".to_string()));
    assert_eq!(attribute(&index, &strings(&["curl"]), "oniguruma"), None);
    let pins = dep_versions(&plan);
    assert_eq!(pins.get("zlib"), Some(&"3".to_string()));
    assert_eq!(pins.get("curl"), Some(&"8".to_string()));
    assert_eq!(pins.get("cu"), None);
}

#[test]
fn a_formula_without_a_bottle_stops_the_install() {
    let mut bad = f("bad", "1", &[]);
    bad.bottle = StrMap::new();
    let index = Index::from_formulae(vec![f("good", "1", &[]), bad]);
    let roots = strings(&["good", "bad"]);
    let plan = match resolve(&index, &roots) {
        Ok(p) => p,
        Err(e) => panic!("{}", e.message()),
    };
    let c = ctx();
    match install_all(Arch::X86_64, &c, &index, &plan, &roots, &Vec::new()) {
        Ok(_) => panic!("planned"),
        Err(e) => assert_eq!(e.message(), "bad has no stable bottle"),
    }
    let there = strings(&["/p/Cellar/bad/1"]);
    assert!(install_all(Arch::X86_64, &c, &index, &plan, &roots, &there).is_ok());
}

#[test]
fn the_cellar_is_scanned() {
    let entries = vec![
        entry(
            "jq",
            vec![
                KegEntry { name: "notes".to_string(), is_dir: false, receipt: Some(receipt(true, true, &[])) },
                keg("1.7", None),
                keg("1.8", Some(receipt(true, false, &["oniguruma"]))),
                keg("1.9", Some(receipt(false, false, &[]))),
            ],
        ),
        CellarEntry { name: ".DS_Store".to_string(), is_dir: false, kegs: vec![] },
        entry("empty", vec![]),
    ];
    let all = scan_installed(&entries);
    assert_eq!(all.len(), 2);
    assert_eq!(all[0].name, "jq");
    assert_eq!(all[0].version, "1.7");
    assert_eq!(all[0].versions, ["1.7", "1.8", "1.9"]);
    match &all[0].receipt {
        Some(r) => {
            assert!(r.requested && !r.protected);
            assert_eq!(r.deps, ["oniguruma"]);
        }
        None => panic!(),
    }
    assert_eq!(all[1].version, "");
    assert!(all[1].receipt.is_none());
    assert_eq!(requested_names(&all), ["jq"]);
}

#[test]
fn the_receipts_of_all_versions_count() {
    let entries = vec![entry(
        "jq",
        vec![
            keg("1.7", Some(receipt(false, true, &["a", "b"]))),
            keg("1.8", None),
            keg("1.9", Some(receipt(true, false, &["c", "a"]))),
            KegEntry { name: "file".to_string(), is_dir: false, receipt: Some(receipt(false, false, &["d"])) },
        ],
    )];
    let all = scan_installed(&entries);
    match &all[0].receipt {
        Some(r) => {
            assert!(r.requested && r.protected);
            assert_eq!(r.deps, ["a", "b", "c"]);
        }
        None => panic!(),
    }
}

#[test]
fn outdated_formulae_are_listed_by_name() {
    let index = Index::from_formulae(vec![f("b", "2", &[]), f("a", "2", &[]), f("c", "1", &[])]);
    let all = vec![
        installed("c", &["1"], None),
        installed("b", &["1", "0"], None),
        installed("a", &["1"], None),
        installed("gone", &["1"], None),
    ];
    let out = outdated_list(&all, &index);
    assert_eq!(out.iter().map(|o| o.name.clone()).collect::<Vec<_>>(), ["a", "b"]);
    assert_eq!(out[1].installed, ["1", "0"]);
    assert_eq!(out[1].latest, "2");
    assert_eq!(outdated_line(&out[1]), "b \x1b[2m1/0\x1b[0m → 2");
}

#[test]
fn upgrades_carry_flags_across() {
    let index = Index::from_formulae(vec![f("b", "2", &["a"]), f("a", "2", &[])]);
    let all = vec![
        installed("a", &["1"], Some(receipt(false, true, &[]))),
        installed("b", &["1", "2", "0"], Some(receipt(true, false, &["a"]))),
        installed("b2", &["1"], Some(receipt(true, false, &[]))),
    ];
    let out = outdated_list(&all, &index);
    assert_eq!(out.len(), 1);
    let (targets, notes) = upgrade_targets(&out, &strings(&["b", "a"]));
    assert_eq!(target_names(&targets), ["a"]);
    assert_eq!(notes, ["\x1b[2m  · b: already up to date (or not installed)\x1b[0m"]);
    let (everything, none) = upgrade_targets(&out, &Vec::new());
    assert_eq!(everything.len(), 1);
    assert!(none.is_empty());

    let plan = match resolve(&index, &strings(&["b"])) {
        Ok(p) => p,
        Err(e) => panic!("{}", e.message()),
    };
    match upgrade(Arch::X86_64, &ctx(), &all, &plan, &Vec::new()) {
        Ok(items) => {
            assert_eq!(items.len(), 2);
            assert_eq!((items[0].spec.name.as_str(), items[0].spec.requested), ("a", false));
            assert_eq!((items[1].spec.name.as_str(), items[1].spec.requested), ("b", true));
            assert!(items[0].via.is_none());
        }
        Err(e) => panic!("{}", e.message()),
    }

    let a = upgrade_cleanup(&index, &all, &targets[0]);
    assert_eq!(a.protect, Some(Vec::new()));
    assert!(a.removed.is_empty());
    assert_eq!(a.kept, ["\x1b[2m  · kept a 1 (other kegs still pin it)\x1b[0m"]);
    assert_eq!(
        upgrade_note(&targets, "1.5"),
        "\x1b[32m✓\x1b[0m upgraded 1 formula in 1.5s: a 1 → 2"
    );
}

#[test]
fn old_kegs_go_where_nothing_pins_them() {
    let index = Index::from_formulae(vec![f("b", "2", &["a"])]);
    let all = vec![installed("b", &["1", "2", "0"], Some(receipt(true, false, &["a"])))];
    let t = dram::installed::Outdated {
        name: "b".to_string(),
        installed: strings(&["1", "2", "0"]),
        latest: "2".to_string(),
    };
    let done = upgrade_cleanup(&index, &all, &t);
    assert_eq!(done.removed, ["1", "0"]);
    assert!(done.kept.is_empty());
    assert_eq!(done.protect, None);
}

#[test]
fn an_upgrade_without_a_bottle_stops() {
    let mut bad = f("bad", "2", &[]);
    bad.bottle = StrMap::new();
    let index = Index::from_formulae(vec![bad]);
    let plan = match resolve(&index, &strings(&["bad"])) {
        Ok(p) => p,
        Err(e) => panic!("{}", e.message()),
    };
    match upgrade(Arch::X86_64, &ctx(), &Vec::new(), &plan, &Vec::new()) {
        Ok(_) => panic!("planned"),
        Err(e) => assert_eq!(e.message(), "bad has no stable bottle"),
    }
}
