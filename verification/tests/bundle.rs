use dram::bundle::{dump, dump_note, install_note, parse, BundleError, DEFAULT_FILE};

fn strings(v: &[&str]) -> Vec<String> {
    v.iter().map(|s| s.to_string()).collect()
}

fn parsed(raw: &str) -> Vec<String> {
    match parse("Dramfile", raw) {
        Ok(names) => names,
        Err(e) => panic!("{}", e.message()),
    }
}

#[test]
fn parses_names_comments_and_blanks() {
    let raw = "# header comment\n\njq  # inline comment\nwget\n   \n";
    assert_eq!(parsed(raw), vec!["jq".to_string(), "wget".to_string()]);
}

#[test]
fn empty_file_is_an_error() {
    assert!(parse("dram-test-Dramfile-empty", "# only comments\n\n").is_err());
    match parse("some/Dramfile", "# only comments\n\n") {
        Ok(_) => panic!("parsed"),
        Err(e) => assert_eq!(e.message(), "some/Dramfile lists no formulae"),
    }
    assert_eq!(DEFAULT_FILE, "Dramfile");
}

#[test]
fn lines_may_end_in_carriage_returns() {
    assert_eq!(parsed("jq\r\nwget\r\n\tcurl"), ["jq", "wget", "curl"]);
}

#[test]
fn a_dump_is_sorted_and_reads_back() {
    let out = match dump(&strings(&["wget", "Zed", "jq", "bat"])) {
        Ok(out) => out,
        Err(e) => panic!("{}", e.message()),
    };
    assert_eq!(out, "# Dramfile — install with `dram bundle`\nZed\nbat\njq\nwget\n");
    assert_eq!(parsed(&out), ["Zed", "bat", "jq", "wget"]);
    match dump(&strings(&["jq", "", "bat"])) {
        Ok(out) => assert_eq!(parsed(&out), ["bat", "jq"]),
        Err(e) => panic!("{}", e.message()),
    }
}

#[test]
fn nothing_to_dump_is_an_error() {
    match dump(&Vec::new()) {
        Ok(_) => panic!("dumped"),
        Err(e) => {
            assert!(matches!(e, BundleError::NothingToDump));
            assert_eq!(e.message(), "nothing explicitly installed to dump");
        }
    }
}

#[test]
fn bundle_notes() {
    assert_eq!(install_note("Dramfile", 3), "\x1b[2mbundle: Dramfile (3 formulae)\x1b[0m");
    assert_eq!(dump_note(1, "x"), "\x1b[32m✓\x1b[0m wrote 1 formula to x");
    assert_eq!(dump_note(12, "x"), "\x1b[32m✓\x1b[0m wrote 12 formulae to x");
}
