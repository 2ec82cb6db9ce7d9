use dram::api::Index;
use dram::bottle::Arch;
use dram::commands::{find_term, info, list, search, search_line, search_note, Hit};
use dram::ctx::Ctx;
use dram::doctor::{
    check_macho, dangling, doctor, dylib_refs, files_to_check, keg_dirs, list_kegs, shared_dirs,
    FileFacts,
};
use dram::formula::{BottleFile, BottleSpec, Formula, Versions};
use dram::installed::{CellarEntry, KegEntry};
use dram::strmap::StrMap;

fn strings(v: &[&str]) -> Vec<String> {
    v.iter().map(|s| s.to_string()).collect()
}

fn f(name: &str, desc: Option<&str>) -> Formula {
    Formula {
        name: name.to_string(),
        desc: desc.map(|d| d.to_string()),
        aliases: vec![],
        oldnames: vec![],
        versions: Versions { stable: Some("1.0".to_string()) },
        revision: 0,
        dependencies: vec![],
        keg_only: false,
        bottle: StrMap::new(),
        post_install_steps: vec![],
    }
}

#[test]
fn names_are_found_before_descriptions() {
    let mut yq = f("yq", Some("Process YAML"));
    yq.aliases = strings(&["JQ-for-yaml"]);
    let index = Index::from_formulae(vec![
        f("gojq", Some("Pure Go jq")),
        f("fx", Some("A JQ alternative")),
        f("curl", None),
        yq,
        f("JQ", None),
    ]);
    let found = search(&index, "Jq");
    assert_eq!(found.total, 4);
    assert_eq!(found.shown, [0, 3, 4, 1]);
    assert_eq!(search(&index, "zzz").total, 0);
    assert_eq!(search(&index, "").total, 5);
}

#[test]
fn a_search_shows_twenty_five_hits() {
    let index = Index::from_formulae((0..30).map(|i| f(&format!("lib{i}"), None)).collect());
    let found = search(&index, "LIB");
    assert_eq!(found.total, 30);
    assert_eq!(found.shown, (0..25).collect::<Vec<usize>>());
    assert_eq!(search_note("lib", 30), Some("\x1b[2m  … and 5 more\x1b[0m".to_string()));
    assert_eq!(search_note("lib", 25), None);
    assert_eq!(search_note("lib", 0), Some("no matches for 'lib'".to_string()));
}

#[test]
fn terms_are_found_in_lower_case_texts() {
    let desc = Some("fast json".to_string());
    assert!(matches!(find_term("jq", "gojq", &vec![], &desc), Hit::Name));
    assert!(matches!(find_term("jq", "x", &strings(&["a", "jqq"]), &desc), Hit::Name));
    assert!(matches!(find_term("json", "x", &vec![], &desc), Hit::Description));
    assert!(matches!(find_term("JSON", "x", &vec![], &desc), Hit::Nowhere));
    assert!(matches!(find_term("json", "x", &vec![], &None), Hit::Nowhere));
}

#[test]
fn search_lines() {
    let mut jq = f("jq", Some("JSON"));
    assert_eq!(search_line(&jq, true), "\x1b[32m✓\x1b[0m jq \x1b[2m1.0\x1b[0m \x1b[2mJSON\x1b[0m");
    jq.versions.stable = None;
    jq.desc = None;
    assert_eq!(search_line(&jq, false), "  jq \x1b[2m?\x1b[0m \x1b[2m\x1b[0m");
}

#[test]
fn info_about_a_formula() {
    let mut jq = f("jq", Some("JSON"));
    jq.dependencies = strings(&["oniguruma", "zlib"]);
    assert_eq!(
        info(Arch::X86_64, &jq),
        [
            "jq: 1.0",
            "  JSON",
            "  deps: oniguruma, zlib",
            "  keg-only: false",
            "  bottle: unavailable (jq has no stable bottle)"
        ]
    );
    let mut files = StrMap::new();
    files.insert(
        "all".to_string(),
        BottleFile { cellar: ":any".to_string(), url: String::new(), sha256: String::new() },
    );
    let mut bare = f("bare", None);
    bare.keg_only = true;
    bare.versions.stable = None;
    bare.bottle.insert("stable".to_string(), BottleSpec { files });
    assert_eq!(
        info(Arch::Aarch64, &bare),
        ["bare: ?", "  deps: none", "  keg-only: true", "  bottle: all (cellar: :any)"]
    );
}

#[test]
fn kegs_are_listed_by_name() {
    let keg = |name: &str| KegEntry { name: name.to_string(), is_dir: true, receipt: None };
    let entries = vec![
        CellarEntry { name: "wget".to_string(), is_dir: true, kegs: vec![keg("1"), keg("2")] },
        CellarEntry { name: "README".to_string(), is_dir: false, kegs: vec![] },
        CellarEntry { name: "jq".to_string(), is_dir: true, kegs: vec![keg("1.8")] },
    ];
    assert_eq!(list(&entries), ["jq 1.8", "wget 1 2"]);
}

#[test]
fn references_in_otool_output() {
    let out = "/p/bin/jq:\n\t/p/lib/libonig.dylib (compatibility version 9.0.0)\n\t/usr/lib/x (y)\n";
    let refs = dylib_refs(out);
    assert_eq!(refs, ["/p/lib/libonig.dylib", "/usr/lib/x"]);
    assert!(dylib_refs("").is_empty());
    assert!(dylib_refs("only a title").is_empty());
}

#[test]
fn problems_of_a_binary() {
    let refs = strings(&["/p/lib/a", "/p/lib/b", "/usr/lib/c", "@@HOMEBREW_PREFIX@@/d"]);
    let there = strings(&["/p/lib/a"]);
    assert_eq!(
        check_macho("/f", "/p", &refs, &there, Some(false)),
        [
            "/f: missing dylib /p/lib/b",
            "/f: unrelocated placeholder @@HOMEBREW_PREFIX@@/d",
            "/f: invalid code signature"
        ]
    );
    assert!(check_macho("/f", "/p", &there, &there, Some(true)).is_empty());
    assert!(check_macho("/f", "/p", &there, &there, None).is_empty());
}

#[test]
fn reports_of_the_doctor() {
    assert_eq!(
        doctor(&Vec::new(), 3, 12),
        ["\x1b[32m✓\x1b[0m no problems found (3 kegs, 12 binaries checked)"]
    );
    assert_eq!(doctor(&strings(&["x"]), 3, 12), ["\x1b[33m!\x1b[0m x", "1 problem found"]);
    assert_eq!(doctor(&strings(&["x", "y"]), 3, 12)[2], "2 problems found");
    assert_eq!(dangling("/p/bin/x", true, false), Some("dangling symlink: /p/bin/x".to_string()));
    assert_eq!(dangling("/p/bin/x", true, true), None);
    assert_eq!(dangling("/p/bin/x", false, false), None);
}

#[test]
fn what_the_doctor_looks_over() {
    let ctx = Ctx { prefix: "/p".to_string() };
    let keg = |name: &str, is_dir: bool| KegEntry { name: name.to_string(), is_dir, receipt: None };
    let entries = vec![
        CellarEntry { name: "jq".to_string(), is_dir: true, kegs: vec![keg("1", true), keg("n", false), keg("2", true)] },
        CellarEntry { name: "note".to_string(), is_dir: false, kegs: vec![keg("1", true)] },
        CellarEntry { name: "wget".to_string(), is_dir: true, kegs: vec![keg("3", true)] },
    ];
    assert_eq!(
        list_kegs(&ctx, &entries),
        ["/p/Cellar/jq/1", "/p/Cellar/jq/2", "/p/Cellar/wget/3"]
    );
    assert_eq!(keg_dirs("/k"), ["/k/bin", "/k/lib"]);
    assert_eq!(shared_dirs(&ctx), ["/p/bin", "/p/opt"]);
    let file = |path: &str, is_file: bool, is_link: bool, is_macho: bool| FileFacts {
        path: path.to_string(),
        is_file,
        is_link,
        is_macho,
    };
    assert_eq!(
        files_to_check(&vec![
            file("a", true, false, true),
            file("link", true, true, true),
            file("text", true, false, false),
            file("dir", false, false, true),
            file("b", true, false, true),
        ]),
        ["a", "b"]
    );
}
