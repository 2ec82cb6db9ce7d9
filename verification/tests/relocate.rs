use dram::macho::{next_macho_stage, MachoStage};
use dram::relocate::{
    codesign_args, failed_tool, file_head, install_name_args, is_macho, macho_edit, macho_refs,
    missing_tool, relocate_text, substitute, writable,
};
use dram::strmap::StrMap;

fn depmap() -> StrMap<String> {
    let mut m = StrMap::new();
    m.insert("oniguruma".to_string(), "6.9.10".to_string());
    m
}

#[test]
fn opt_reference_pins_to_exact_version() {
    assert_eq!(
        substitute(
            "@@HOMEBREW_PREFIX@@/opt/oniguruma/lib/libonig.5.dylib",
            "/p",
            "/p/Cellar",
            &depmap()
        ),
        "/p/Cellar/oniguruma/6.9.10/lib/libonig.5.dylib"
    );
}

#[test]
fn unknown_dep_falls_back_to_opt() {
    assert_eq!(
        substitute("@@HOMEBREW_PREFIX@@/opt/zzz/lib/x.dylib", "/p", "/p/Cellar", &depmap()),
        "/p/opt/zzz/lib/x.dylib"
    );
}

#[test]
fn plain_prefix_and_cellar() {
    assert_eq!(
        substitute("@@HOMEBREW_PREFIX@@/share/doc", "/p", "/p/Cellar", &depmap()),
        "/p/share/doc"
    );
    assert_eq!(
        substitute("@@HOMEBREW_CELLAR@@/foo/1.0/lib", "/p", "/p/Cellar", &depmap()),
        "/p/Cellar/foo/1.0/lib"
    );
    assert_eq!(
        substitute("@@HOMEBREW_LIBRARY@@/Homebrew", "/p", "/p/Cellar", &depmap()),
        "/p/Library/Homebrew"
    );
}

#[test]
fn multiple_opt_references_in_one_string() {
    let s = "-L@@HOMEBREW_PREFIX@@/opt/oniguruma/lib -I@@HOMEBREW_PREFIX@@/opt/zzz/include";
    assert_eq!(
        substitute(s, "/p", "/p/Cellar", &depmap()),
        "-L/p/Cellar/oniguruma/6.9.10/lib -I/p/opt/zzz/include"
    );
}

#[test]
fn no_placeholder_is_left_and_plain_text_is_kept() {
    let s = "a @@HOMEBREW_CELLAR@@ b @@HOMEBREW_LIBRARY@@ c @@HOMEBREW_PREFIX@@/opt/oniguruma d @@HOMEBREW_PREFIX@@";
    let once = substitute(s, "/p", "/p/Cellar", &depmap());
    assert_eq!(once, "a /p/Cellar b /p/Library c /p/opt/oniguruma d /p");
    assert!(!once.contains("@@HOMEBREW"));
    assert_eq!(substitute(&once, "/p", "/p/Cellar", &depmap()), once);
    assert_eq!(substitute("no marks @@ here", "/p", "/p/Cellar", &depmap()), "no marks @@ here");
}

#[test]
fn an_opt_name_ends_at_a_slash_or_the_end() {
    assert_eq!(
        substitute("@@HOMEBREW_PREFIX@@/opt/oniguruma", "/p", "/p/Cellar", &depmap()),
        "/p/Cellar/oniguruma/6.9.10"
    );
    assert_eq!(
        substitute("@@HOMEBREW_PREFIX@@/opt/oniguruma lib", "/p", "/p/Cellar", &depmap()),
        "/p/opt/oniguruma lib"
    );
}

#[test]
fn text_files_are_rewritten_only_where_needed() {
    let marked = b"prefix=@@HOMEBREW_PREFIX@@\n".to_vec();
    assert_eq!(
        relocate_text(marked, "/p", "/p/Cellar", &depmap()),
        Some("prefix=/p\n".to_string())
    );
    assert_eq!(relocate_text(b"plain".to_vec(), "/p", "/p/Cellar", &depmap()), None);
    assert_eq!(relocate_text(Vec::new(), "/p", "/p/Cellar", &depmap()), None);
    let mut binary = b"@@HOMEBREW_PREFIX@@".to_vec();
    binary.push(0xff);
    assert_eq!(relocate_text(binary, "/p", "/p/Cellar", &depmap()), None);
    assert_eq!(
        relocate_text(b"@@HOMEBREW_OTHER@@".to_vec(), "/p", "/p/Cellar", &depmap()),
        None
    );
    let snow = "@@HOMEBREW_PREFIX@@ \u{2603}".as_bytes().to_vec();
    assert_eq!(
        relocate_text(snow, "/p", "/p/Cellar", &depmap()),
        Some("/p \u{2603}".to_string())
    );
}

#[test]
fn macho_magic_numbers() {
    assert!(is_macho(&[0xfe, 0xed, 0xfa, 0xce]));
    assert!(is_macho(&[0xfe, 0xed, 0xfa, 0xcf]));
    assert!(is_macho(&[0xce, 0xfa, 0xed, 0xfe]));
    assert!(is_macho(&[0xcf, 0xfa, 0xed, 0xfe]));
    assert!(is_macho(&[0xca, 0xfe, 0xba, 0xbe]));
    assert!(is_macho(&[0xca, 0xfe, 0xba, 0xbf]));
    assert!(!is_macho(&[0xca, 0xfe, 0xba, 0xbd]));
    assert!(!is_macho(&[0, 0, 0, 0]));
    assert_eq!(file_head([0xca, 0xfe, 0xba, 0xbe], 3), [0, 0, 0, 0]);
    assert_eq!(file_head([0xca, 0xfe, 0xba, 0xbe], 4), [0xca, 0xfe, 0xba, 0xbe]);
}

#[test]
fn load_commands_are_collected_and_rewritten() {
    let listing = "Load command 3\n          cmd LC_ID_DYLIB\n      cmdsize 72\n         name @@HOMEBREW_PREFIX@@/opt/jq/lib/libjq.1.dylib (offset 24)\n\
Load command 9\n          cmd LC_LOAD_DYLIB\n         name @@HOMEBREW_PREFIX@@/opt/oniguruma/lib/libonig.5.dylib (offset 24)\n\
Load command 10\n          cmd LC_LOAD_DYLIB\n         name /usr/lib/libSystem.B.dylib (offset 24)\n\
Load command 11\n          cmd LC_RPATH\n         path @@HOMEBREW_CELLAR@@/jq/lib (offset 12)\n\
Load command 12\n          cmd LC_UUID\n         name @@HOMEBREW_PREFIX@@/x (offset 12)\n";
    let refs = macho_refs(listing);
    assert_eq!(refs.id, Some("@@HOMEBREW_PREFIX@@/opt/jq/lib/libjq.1.dylib".to_string()));
    assert_eq!(refs.loads, ["@@HOMEBREW_PREFIX@@/opt/oniguruma/lib/libonig.5.dylib"]);
    assert_eq!(refs.rpaths, ["@@HOMEBREW_CELLAR@@/jq/lib"]);
    let args = install_name_args(&refs, "/f", "/p", "/p/Cellar", &depmap());
    assert_eq!(
        args,
        Some(
            vec![
                "-id",
                "/p/opt/jq/lib/libjq.1.dylib",
                "-change",
                "@@HOMEBREW_PREFIX@@/opt/oniguruma/lib/libonig.5.dylib",
                "/p/Cellar/oniguruma/6.9.10/lib/libonig.5.dylib",
                "-rpath",
                "@@HOMEBREW_CELLAR@@/jq/lib",
                "/p/Cellar/jq/lib",
                "/f",
            ]
            .iter()
            .map(|s| s.to_string())
            .collect()
        )
    );
    let none = macho_refs("Load command 1\n cmd LC_LOAD_DYLIB\n name /usr/lib/x (offset 24)\n");
    assert_eq!(install_name_args(&none, "/f", "/p", "/p/Cellar", &depmap()), None);
}

#[test]
fn signing_and_tool_messages() {
    assert_eq!(
        codesign_args("/f"),
        ["--force", "--sign", "-", "--preserve-metadata=entitlements,requirements,flags", "/f"]
    );
    assert_eq!(missing_tool("otool"), "running otool (is Xcode / CLT installed?)");
    assert_eq!(failed_tool("codesign", "  no identity\n"), "codesign failed: no identity");
    assert_eq!(writable(0o555), 0o755);
    assert_eq!(writable(0o755), 0o755);
}

#[test]
fn the_marker_scan_loses_nothing() {
    let texts = [
        "",
        "plain",
        "@HOMEBREW_PREFIX@@",
        "@@HOMEBRE",
        "\u{2603}@@HOMEBREW_CELLAR@@\u{e9}",
        "\u{1f37a}\u{2603}@@@HOMEBREW_LIBRARY@@",
        "@\u{e9}@HOMEBREW_PREFIX@@",
        "-L@@HOMEBREW_PREFIX@@/opt/oniguruma/lib",
        "@@HOMEBREW",
    ];
    for t in texts {
        let rewritten = substitute(t, "/p", "/p/Cellar", &depmap());
        let expected = if rewritten == t { None } else { Some(rewritten) };
        assert_eq!(relocate_text(t.as_bytes().to_vec(), "/p", "/p/Cellar", &depmap()), expected);
    }
    assert_eq!(
        relocate_text(texts[4].as_bytes().to_vec(), "/p", "/p/Cellar", &depmap()),
        Some("\u{2603}/p/Cellar\u{e9}".to_string())
    );
}

#[test]
fn unlistable_files_are_left_alone() {
    assert_eq!(macho_edit(&None, "/f", "/p", "/p/Cellar", &depmap()), None);
    let plain = Some("cmd LC_LOAD_DYLIB\nname /usr/lib/x (offset 24)\n".to_string());
    assert_eq!(macho_edit(&plain, "/f", "/p", "/p/Cellar", &depmap()), None);
    let marked = Some("cmd LC_RPATH\npath @@HOMEBREW_CELLAR@@/jq/lib (offset 12)\n".to_string());
    assert_eq!(
        macho_edit(&marked, "/f", "/p", "/p/Cellar", &depmap()).unwrap(),
        ["-rpath", "@@HOMEBREW_CELLAR@@/jq/lib", "/p/Cellar/jq/lib", "/f"]
    );
}

#[test]
fn edited_files_are_signed_at_once() {
    let trace = |fails_at: Option<usize>| {
        let mut stage = MachoStage::Unlock;
        let mut seen = Vec::new();
        while stage != MachoStage::Done && stage != MachoStage::Failed {
            let ok = fails_at != Some(seen.len());
            seen.push(stage);
            stage = next_macho_stage(stage, ok);
        }
        seen.push(stage);
        seen
    };
    let good = [MachoStage::Unlock, MachoStage::Edit, MachoStage::Sign, MachoStage::Restore];
    assert!(trace(None)[..4] == good && trace(None)[4..] == [MachoStage::Done]);
    for n in 0..4 {
        let t = trace(Some(n));
        assert!(t[..n + 1] == good[..n + 1] && t[n + 1..] == [MachoStage::Failed]);
    }
    assert!(next_macho_stage(MachoStage::Done, false) == MachoStage::Done);
    assert!(next_macho_stage(MachoStage::Failed, true) == MachoStage::Failed);
}
