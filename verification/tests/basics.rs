use dram::json::Json;
use dram::path;
use dram::strmap::StrMap;
use dram::text;
use dram::ui;

fn strings(v: &[&str]) -> Vec<String> {
    v.iter().map(|s| s.to_string()).collect()
}

#[test]
fn paths_are_joined_and_taken_apart() {
    assert_eq!(path::join("/a", "b"), "/a/b");
    assert_eq!(path::join("/a/", "b"), "/a/b");
    assert_eq!(path::join("/a", "/b"), "/b");
    assert_eq!(path::join("", "b"), "b");
    assert_eq!(path::join("/a", ""), "/a/");
    assert_eq!(path::split("/a//b/./c/"), ["/", "a", "b", "c"]);
    assert_eq!(path::split("./a"), [".", "a"]);
    assert!(path::split("").is_empty());
    assert_eq!(path::file_name("/a/b/"), Some("b".to_string()));
    assert_eq!(path::file_name("/a/.."), None);
    assert_eq!(path::file_name("/"), None);
    assert!(path::starts_with("/a/b/c", "/a/b"));
    assert!(!path::starts_with("/a/bc", "/a/b"));
    assert!(path::same("/a//b/", "/a/b"));
    assert!(!path::same("/a/b", "a/b"));
}

#[test]
fn parents_drop_one_component() {
    for p in ["/a/b/c", "/a", "a", "a/b", "./a", "/a//b/./c/", "..", "a/.."] {
        let want: Option<String> = std::path::Path::new(p).parent().map(|d| d.display().to_string());
        let got = path::parent(p);
        match (&got, &want) {
            (Some(g), Some(w)) => assert!(path::same(g, w), "{p}: {g} {w}"),
            _ => assert_eq!(got, want),
        }
    }
    assert_eq!(path::parent("/"), None);
    assert_eq!(path::parent(""), None);
}

#[test]
fn texts_are_split_and_joined() {
    assert_eq!(text::split("a,b,,c", ','), ["a", "b", "", "c"]);
    assert_eq!(text::lines("a\r\nb\n\nc"), ["a", "b", "", "c"]);
    assert_eq!(text::words("  a\tb  c\n"), ["a", "b", "c"]);
    assert!(text::words(" \n").is_empty());
    assert_eq!(text::join(&strings(&["a", "b"]), ", "), "a, b");
    assert_eq!(text::trim("\u{3000} a b \n"), "a b");
    assert_eq!(text::clip("  abcdef ", 3), "abc");
    assert_eq!(text::before("a#b#c", "#"), "a");
    assert_eq!(text::before_last("a (b (c", " ("), Some("a (b".to_string()));
    assert_eq!(text::before_last("a", " ("), None);
    assert_eq!(text::replace("aaa", "aa", "b"), "ba");
    assert_eq!(text::show(0), "0");
    assert_eq!(text::show(u64::MAX), "18446744073709551615");
    assert!(text::starts_with("abc", "ab") && !text::starts_with("ab", "abc"));
    assert!(text::ends_with("abc", "bc") && !text::ends_with("abc", "ab"));
    assert!(text::contains("abc", "") && !text::contains("abc", "ac"));
    assert_eq!(text::strip_prefix("name x", "name "), Some("x".to_string()));
}

#[test]
fn ranking_is_stable() {
    assert_eq!(text::rank(&strings(&["b", "a", "b", "", "a"])), [3, 1, 4, 0, 2]);
    assert!(text::at_or_before("a", "ab") && !text::at_or_before("ab", "a"));
    assert!(text::at_or_before("Z", "a"));
}

#[test]
fn maps_keep_one_value_for_each_key() {
    let mut m: StrMap<u8> = StrMap::new();
    m.insert("a".to_string(), 1);
    m.insert("b".to_string(), 2);
    m.insert("a".to_string(), 3);
    assert_eq!(m.len(), 2);
    assert_eq!(m.get("a"), Some(&3));
    assert_eq!(m.get("c"), None);
    assert_eq!(m.keys(), ["a", "b"]);
    assert_eq!(m.entry(1), (&"b".to_string(), &2));
}

#[test]
fn json_members() {
    let j = Json::Object(vec![
        ("a".to_string(), Json::Str("x".to_string())),
        ("b".to_string(), Json::Bool(true)),
        ("a".to_string(), Json::Null),
        ("c".to_string(), Json::Array(vec![Json::Number("1.5".to_string())])),
    ]);
    assert_eq!(j.str_at("a"), Some("x"));
    assert_eq!(j.str_at("b"), None);
    assert!(j.flag_at("b", false) && j.flag_at("a", true) && !j.flag_at("z", false));
    assert!(j.get("z").is_none() && Json::Null.get("a").is_none());
    assert_eq!(j.get("c").and_then(|c| c.as_array()).map(|v| v.len()), Some(1));
    assert_eq!(j.clone().as_object().map(|m| m.len()), Some(4));
    assert_eq!(Json::Bool(false).as_bool(), Some(false));
}

#[test]
fn rows_are_padded() {
    assert_eq!(ui::dim("x"), "\x1b[2mx\x1b[0m");
    assert_eq!(ui::row_label("", "jq", "1.8", 8), "jq \x1b[2m1.8\x1b[0m  ");
    assert_eq!(ui::row_label("└─", "jq", "1.8", 10), "\x1b[2m└─\x1b[0m jq \x1b[2m1.8\x1b[0m ");
    assert_eq!(ui::row_label("", "jq", "1.8", 2), "jq \x1b[2m1.8\x1b[0m");
    assert_eq!(ui::item_label("jq", "1.8", 10, true), "  jq \x1b[2m1.8\x1b[0m  ");
    assert_eq!(ui::item_label("jq", "1.8", 10, false), "jq \x1b[2m1.8\x1b[0m    ");
}

#[test]
fn flushed_rows_show_size_and_root() {
    assert_eq!(
        ui::flushed_row("ripgrep", "15.2.0", 18, 2118124, None),
        "  ripgrep \x1b[2m15.2.0\x1b[0m       2.02 MiB \x1b[32m✓\x1b[0m"
    );
    assert_eq!(
        ui::flushed_row("libgit2", "1.9.6", 18, 1950351, Some("bat")),
        "    libgit2 \x1b[2m1.9.6\x1b[0m      1.86 MiB \x1b[32m✓\x1b[0m\x1b[2m (bat)\x1b[0m"
    );
    assert_eq!(
        ui::installed_row("a", "1", 3, "12345678901", None),
        "  a \x1b[2m1\x1b[0m 12345678901 \x1b[32m✓\x1b[0m"
    );
    assert_eq!(ui::formulae(1), "formula");
    assert_eq!(ui::formulae(0), "formulae");
}
