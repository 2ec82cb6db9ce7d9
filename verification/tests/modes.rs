use dram::mode::{apply_mode, ModeError};

fn applied(current: u32, spec: &str) -> u32 {
    match apply_mode(current, spec) {
        Ok(m) => m,
        Err(e) => panic!("{}", e.message()),
    }
}

fn refused(spec: &str) -> String {
    match apply_mode(0o100644, spec) {
        Ok(m) => panic!("{m:o}"),
        Err(e) => e.message(),
    }
}

#[test]
fn symbolic_and_octal_modes() {
    let mut mode = 0o100600;
    mode = applied(mode, "0644");
    assert_eq!(mode & 0o7777, 0o644);
    mode = applied(mode, "u+x");
    assert_eq!(mode & 0o7777, 0o744);
    mode = applied(mode, "a+x");
    assert_eq!(mode & 0o7777, 0o755);
    mode = applied(mode, "go-rx");
    assert_eq!(mode & 0o7777, 0o700);
    assert!(apply_mode(mode, "banana").is_err());
    assert_eq!(mode, 0o100700);
}

#[test]
fn no_class_means_all() {
    assert_eq!(applied(0o100000, "+rw"), 0o100666);
    assert_eq!(applied(0o100777, "-w"), 0o100555);
}

#[test]
fn octal_forms() {
    assert_eq!(applied(0o40777, "0o755"), 0o40755);
    assert_eq!(applied(0o40777, "0o0o1755"), 0o41755);
    assert_eq!(applied(0o40777, "+7"), 0o40007);
    assert_eq!(applied(0o40777, "00000000000000755"), 0o40755);
    assert_eq!(applied(0, "37777777777"), 0o37777777777);
}

#[test]
fn modes_that_are_not_understood() {
    assert_eq!(refused("banana"), "unsupported permission spec 'banana'");
    assert_eq!(refused(""), "unsupported permission spec ''");
    assert_eq!(refused("40000000000"), "unsupported permission spec '40000000000'");
    assert_eq!(refused("u+q"), "unsupported permission char 'q' in 'u+q'");
    assert_eq!(refused("z+r"), "unsupported permission class 'z' in 'z+r'");
    assert_eq!(refused("uz+rq"), "unsupported permission class 'z' in 'uz+rq'");
    assert_eq!(refused("u+r-w"), "unsupported permission char '-' in 'u+r-w'");
    assert!(matches!(apply_mode(0, "u+q"), Err(ModeError::Permission('q', _))));
    assert_eq!(applied(0o644, "z+"), 0o644);
}

#[test]
fn the_file_type_is_kept() {
    for spec in ["0755", "u+w", "a-rwx", "+x", "7777"] {
        assert_eq!(applied(0o120640, spec) & !0o7777, 0o120000);
    }
}
