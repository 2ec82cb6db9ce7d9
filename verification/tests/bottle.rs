use dram::bottle::{pick, pick_tag, verify_body, verify_digest, Arch, PickError};
use dram::formula::{BottleFile, BottleSpec, Formula, Versions};
use dram::strmap::StrMap;

fn file(url: &str, sha256: &str) -> BottleFile {
    BottleFile { cellar: ":any".to_string(), url: url.to_string(), sha256: sha256.to_string() }
}

fn formula(tags: &[&str]) -> Formula {
    let mut files = StrMap::new();
    for t in tags {
        files.insert(t.to_string(), file(&format!("https://x/{t}"), "d"));
    }
    let mut bottle = StrMap::new();
    bottle.insert("stable".to_string(), BottleSpec { files });
    Formula {
        name: "jq".to_string(),
        desc: None,
        aliases: vec![],
        oldnames: vec![],
        versions: Versions { stable: Some("1.8".to_string()) },
        revision: 0,
        dependencies: vec![],
        keg_only: false,
        bottle,
        post_install_steps: vec![],
    }
}

#[test]
fn the_newest_tag_for_the_processor_is_picked() {
    let f = formula(&["sonoma", "arm64_ventura", "arm64_sequoia", "all"]);
    match pick(Arch::Aarch64, &f) {
        Ok(p) => {
            assert_eq!(p.tag, "arm64_sequoia");
            assert_eq!(p.file.url, "https://x/arm64_sequoia");
        }
        Err(e) => panic!("{}", e.message()),
    }
    match pick(Arch::X86_64, &f) {
        Ok(p) => assert_eq!(p.tag, "sonoma"),
        Err(e) => panic!("{}", e.message()),
    }
    match pick(Arch::X86_64, &formula(&["all", "arm64_tahoe"])) {
        Ok(p) => assert_eq!(p.tag, "all"),
        Err(e) => panic!("{}", e.message()),
    }
}

#[test]
fn no_bottle_for_the_platform() {
    match pick(Arch::X86_64, &formula(&["arm64_tahoe", "x86_64_linux"])) {
        Ok(_) => panic!("picked"),
        Err(e) => assert_eq!(
            e.message(),
            "jq: no bottle for this platform (available: arm64_tahoe, x86_64_linux)"
        ),
    }
}

#[test]
fn no_stable_bottle() {
    let mut f = formula(&["all"]);
    f.bottle = StrMap::new();
    match pick(Arch::Aarch64, &f) {
        Ok(_) => panic!("picked"),
        Err(e) => {
            assert!(matches!(e, PickError::NoStable(_)));
            assert_eq!(e.message(), "jq has no stable bottle");
        }
    }
}

#[test]
fn any_map_keyed_by_tag_will_do() {
    let mut m = StrMap::new();
    m.insert("big_sur".to_string(), 1u8);
    m.insert("monterey".to_string(), 2u8);
    assert_eq!(pick_tag(Arch::X86_64, &m), Some(("monterey", &2u8)));
    assert_eq!(pick_tag(Arch::Aarch64, &m), None);
}

#[test]
fn a_body_with_the_right_digest_passes() {
    // The digest of "abc" from FIPS 180-4.
    let good = "ba7816bf8f01cfea414140de5dae2223b00361a396177a9cb410ff61f20015ad";
    match verify_body(b"abc".to_vec(), &file("u", good)) {
        Ok(body) => assert_eq!(body, b"abc"),
        Err(e) => panic!("{}", e.message()),
    }
    match verify_body(b"abd".to_vec(), &file("u", good)) {
        Ok(_) => panic!("verified"),
        Err(e) => {
            assert_eq!(e.expected, good);
            assert_ne!(e.got, good);
            assert_eq!(
                e.message(),
                format!("checksum mismatch for u: expected {good}, got {}", e.got)
            );
        }
    }
    match verify_body(Vec::new(), &file("u", "")) {
        Ok(_) => panic!("verified"),
        Err(e) => assert_eq!(
            e.got,
            "e3b0c44298fc1c149afbf4c8996fb92427ae41e4649b934ca495991b7852b855"
        ),
    }
}

#[test]
fn digests_are_compared_as_they_are() {
    assert!(verify_digest("ab", &file("u", "ab")).is_ok());
    assert!(verify_digest("AB", &file("u", "ab")).is_err());
}
