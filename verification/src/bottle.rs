//! Which bottle to fetch, and whether what was fetched is that bottle.

use vstd::prelude::*;

use crate::formula::{BottleFile, Formula};
use crate::strmap::StrMap;
use crate::text;
use crate::text::{joined, texts};

verus! {

/// The processor that bottles are picked for.
#[derive(PartialEq, Eq, Structural, Clone, Copy)]
pub enum Arch {
    Aarch64,
    X86_64,
}

/// Platform tags newest-first. Bottles built for an older macOS run fine on a
/// newer one.
pub open spec fn preference(arch: Arch) -> Seq<Seq<char>> {
    match arch {
        Arch::Aarch64 => seq![
            "arm64_golden_gate"@,
            "arm64_tahoe"@,
            "arm64_sequoia"@,
            "arm64_sonoma"@,
            "arm64_ventura"@,
            "arm64_monterey"@,
            "arm64_big_sur"@,
            "all"@,
        ],
        Arch::X86_64 => seq![
            "golden_gate"@,
            "tahoe"@,
            "sequoia"@,
            "sonoma"@,
            "ventura"@,
            "monterey"@,
            "big_sur"@,
            "all"@,
        ],
    }
}

/// The first of `tags` that is among `present`.
pub open spec fn first_of(tags: Seq<Seq<char>>, present: Set<Seq<char>>) -> Option<Seq<char>>
    decreases tags.len(),
{
    if tags.len() == 0 {
        None
    } else if present.contains(tags[0]) {
        Some(tags[0])
    } else {
        first_of(tags.skip(1), present)
    }
}

/// The best of the present tags for a processor.
pub open spec fn best_tag(arch: Arch, present: Set<Seq<char>>) -> Option<Seq<char>> {
    first_of(preference(arch), present)
}

/// The views of a sequence of string slices.
pub open spec fn strs(v: Seq<&'static str>) -> Seq<Seq<char>> {
    v.map_values(|s: &'static str| s@)
}

/// The tags for a processor, newest first.
fn tag_preference(arch: Arch) -> (r: Vec<&'static str>)
    ensures
        strs(r@) == preference(arch),
{
    let mut r: Vec<&'static str> = Vec::new();
    match arch {
        Arch::Aarch64 => {
            r.push("arm64_golden_gate");
            r.push("arm64_tahoe");
            r.push("arm64_sequoia");
            r.push("arm64_sonoma");
            r.push("arm64_ventura");
            r.push("arm64_monterey");
            r.push("arm64_big_sur");
            r.push("all");
        },
        Arch::X86_64 => {
            r.push("golden_gate");
            r.push("tahoe");
            r.push("sequoia");
            r.push("sonoma");
            r.push("ventura");
            r.push("monterey");
            r.push("big_sur");
            r.push("all");
        },
    }
    assert(strs(r@) =~= preference(arch));
    r
}

/// Picks the best platform tag from any tag-keyed map (a formula's bottle
/// files, or a lockfile's recorded bottles).
pub fn pick_tag<T>(arch: Arch, files: &StrMap<T>) -> (r: Option<(&'static str, &T)>)
    ensures
        match best_tag(arch, files@.dom()) {
            Some(tag) => r is Some && (r->0).0@ == tag && files@.contains_key(tag) && *(r->0).1
                == files@[tag],
            None => r is None,
        },
{
    let tags = tag_preference(arch);
    let ghost all = strs(tags@);
    assert(all.skip(0) =~= all);
    for i in 0..tags.len()
        invariant
            all == strs(tags@),
            all == preference(arch),
            first_of(all.skip(i as int), files@.dom()) == best_tag(arch, files@.dom()),
    {
        assert(all.skip(i as int)[0] == tags@[i as int]@);
        if let Some(f) = files.get(tags[i]) {
            return Some((tags[i], f));
        }
        assert(all.skip(i as int).skip(1) =~= all.skip(i + 1));
    }
    None
}

/// The bottle chosen for a formula.
pub struct Picked<'a> {
    pub tag: &'a str,
    pub file: &'a BottleFile,
}

/// Why no bottle can be chosen for a formula.
pub enum PickError {
    /// The formula has no stable bottle.
    NoStable(String),
    /// None of the tags, which are listed, is for this platform.
    NoPlatform { name: String, available: Vec<String> },
}

impl PickError {
    /// What the user is told.
    pub open spec fn text(self) -> Seq<char> {
        match self {
            PickError::NoStable(name) => name@ + " has no stable bottle"@,
            PickError::NoPlatform { name, available } => name@
                + ": no bottle for this platform (available: "@ + joined(texts(available@), ", "@) + ")"@,
        }
    }

    /// What the user is told.
    pub fn message(&self) -> (r: String)
        ensures
            r@ == self.text(),
    {
        match self {
            PickError::NoStable(name) => name.clone().concat(" has no stable bottle"),
            PickError::NoPlatform { name, available } => name.clone().concat(
                ": no bottle for this platform (available: ",
            ).concat(text::join(available, ", ").as_str()).concat(")"),
        }
    }
}

/// The bottle chosen for a formula: the best tag of its stable bottle, with
/// the file for it.
pub open spec fn choice(arch: Arch, f: Formula) -> Option<(Seq<char>, BottleFile)> {
    if f.bottle@.contains_key("stable"@) {
        let files = f.bottle@["stable"@].files@;
        match best_tag(arch, files.dom()) {
            Some(tag) => Some((tag, files[tag])),
            None => None,
        }
    } else {
        None
    }
}

/// The error `e` says why no bottle can be chosen for `f`.
pub open spec fn refused(arch: Arch, f: Formula, e: PickError) -> bool {
    choice(arch, f) is None && match e {
        PickError::NoStable(name) => !f.bottle@.contains_key("stable"@) && name@ == f.name@,
        PickError::NoPlatform { name, available } => f.bottle@.contains_key("stable"@) && name@ == f.name@
            && texts(available@) == f.bottle@["stable"@].files.key_seq(),
    }
}

/// Picks the bottle of a formula for a processor.
pub fn pick(arch: Arch, f: &Formula) -> (r: Result<Picked<'_>, PickError>)
    ensures
        match choice(arch, *f) {
            Some((tag, file)) => r is Ok && (r->Ok_0).tag@ == tag && *(r->Ok_0).file == file,
            None => r is Err && refused(arch, *f, r->Err_0),
        },
{
    let spec = match f.bottle.get("stable") {
        Some(spec) => spec,
        None => {
            return Err(PickError::NoStable(f.name.clone()));
        },
    };
    match pick_tag(arch, &spec.files) {
        Some((tag, file)) => Ok(Picked { tag, file }),
        None => Err(PickError::NoPlatform { name: f.name.clone(), available: spec.files.keys() }),
    }
}

/// Law: the tag that is picked is present, and no newer tag is.
pub proof fn law_newest_tag_is_picked(arch: Arch, present: Set<Seq<char>>)
    ensures
        match best_tag(arch, present) {
            Some(tag) => present.contains(tag) && exists|i: int|
                0 <= i < preference(arch).len() && preference(arch)[i] == tag && forall|j: int|
                    0 <= j < i ==> !present.contains(#[trigger] preference(arch)[j]),
            None => forall|j: int| 0 <= j < preference(arch).len() ==> !present.contains(#[trigger] preference(arch)[j]),
        },
{
    lemma_first_of(preference(arch), present);
}

proof fn lemma_first_of(tags: Seq<Seq<char>>, present: Set<Seq<char>>)
    ensures
        match first_of(tags, present) {
            Some(tag) => present.contains(tag) && exists|i: int|
                0 <= i < tags.len() && tags[i] == tag && forall|j: int|
                    0 <= j < i ==> !present.contains(#[trigger] tags[j]),
            None => forall|j: int| 0 <= j < tags.len() ==> !present.contains(#[trigger] tags[j]),
        },
    decreases tags.len(),
{
    if tags.len() > 0 {
        if present.contains(tags[0]) {
            assert(tags[0] == tags[0]);
        } else {
            let rest = tags.skip(1);
            lemma_first_of(rest, present);
            match first_of(rest, present) {
                Some(tag) => {
                    let i = choose|i: int| 0 <= i < rest.len() && rest[i] == tag && forall|j: int|
                        0 <= j < i ==> !present.contains(#[trigger] rest[j]);
                    assert(tags[i + 1] == tag);
                    assert forall|j: int| 0 <= j < i + 1 implies !present.contains(#[trigger] tags[j]) by {
                        if j > 0 {
                            assert(rest[j - 1] == tags[j]);
                        }
                    }
                },
                None => {
                    assert forall|j: int| 0 <= j < tags.len() implies !present.contains(#[trigger] tags[j]) by {
                        if j > 0 {
                            assert(rest[j - 1] == tags[j]);
                        }
                    }
                },
            }
        }
    }
}

/// The SHA-256 digest of some bytes.
pub uninterp spec fn sha256_of(data: Seq<u8>) -> Seq<u8>;

/// A `sha2::Sha256` hasher that is fed `data` and finalized: its digest
/// depends on the bytes alone.
#[verifier::external_body]
fn sha256(data: &Vec<u8>) -> (r: Vec<u8>)
    ensures
        r@ == sha256_of(data@),
{
    let mut hasher = <sha2::Sha256 as sha2::Digest>::new();
    sha2::Digest::update(&mut hasher, data);
    sha2::Digest::finalize(hasher).to_vec()
}

/// The hexadecimal digit for `n`, in lower case.
pub open spec fn hex_digit(n: int) -> char {
    if n < 10 {
        (48 + n) as char
    } else {
        (87 + n) as char
    }
}

/// Each byte as two hexadecimal digits.
pub open spec fn hex_text(data: Seq<u8>) -> Seq<char> {
    Seq::new(
        2 * data.len(),
        |i: int|
            hex_digit(
                if i % 2 == 0 {
                    data[i / 2] as int / 16
                } else {
                    data[i / 2] as int % 16
                },
            ),
    )
}

/// `hex::encode` writes each byte as two lower-case hexadecimal digits, the
/// upper four bits first.
#[verifier::external_body]
fn hex_encode(data: &Vec<u8>) -> (r: String)
    ensures
        r@ == hex_text(data@),
{
    hex::encode(data)
}

/// A downloaded blob is not the one that was asked for.
pub struct ChecksumMismatch {
    pub url: String,
    pub expected: String,
    pub got: String,
}

impl ChecksumMismatch {
    /// What the user is told.
    pub fn message(&self) -> (r: String)
        ensures
            r@ == "checksum mismatch for "@ + self.url@ + ": expected "@ + self.expected@ + ", got "@
                + self.got@,
    {
        "checksum mismatch for ".to_string().concat(self.url.as_str()).concat(": expected ").concat(
            self.expected.as_str(),
        ).concat(", got ").concat(self.got.as_str())
    }
}

/// Compares a digest with the one recorded for a bottle.
pub fn verify_digest(digest: &str, file: &BottleFile) -> (r: Result<(), ChecksumMismatch>)
    ensures
        r is Ok <==> digest@ == file.sha256@,
        r matches Err(e) ==> e.url@ == file.url@ && e.expected@ == file.sha256@ && e.got@ == digest@,
{
    if text::same(digest, file.sha256.as_str()) {
        Ok(())
    } else {
        Err(
            ChecksumMismatch {
                url: file.url.clone(),
                expected: file.sha256.clone(),
                got: digest.to_string(),
            },
        )
    }
}

/// Hands out a downloaded blob if its SHA-256 digest is the recorded one.
pub fn verify_body(body: Vec<u8>, file: &BottleFile) -> (r: Result<Vec<u8>, ChecksumMismatch>)
    ensures
        r is Ok <==> hex_text(sha256_of(body@)) == file.sha256@,
        r matches Ok(b) ==> b@ == body@,
        r matches Err(e) ==> e.url@ == file.url@ && e.expected@ == file.sha256@ && e.got@ == hex_text(
            sha256_of(body@),
        ),
{
    let digest = hex_encode(&sha256(&body));
    match verify_digest(digest.as_str(), file) {
        Ok(()) => Ok(body),
        Err(e) => Err(e),
    }
}

/// The releases that bottles are built for, newest first.
pub open spec fn releases() -> Seq<Seq<char>> {
    seq![
        "golden_gate"@,
        "tahoe"@,
        "sequoia"@,
        "sonoma"@,
        "ventura"@,
        "monterey"@,
        "big_sur"@,
    ]
}

/// The tags of the releases: with a mark in front for Apple silicon.
pub open spec fn release_tag(arch: Arch, i: int) -> Seq<char> {
    match arch {
        Arch::Aarch64 => "arm64_"@ + releases()[i],
        Arch::X86_64 => releases()[i],
    }
}

/// What is preferred are the tags of the releases, and last that for all
/// platforms.
proof fn lemma_preference(arch: Arch)
    ensures
        preference(arch).len() == releases().len() + 1,
        forall|i: int| 0 <= i < releases().len() ==> #[trigger] preference(arch)[i] == release_tag(arch, i),
        preference(arch).last() == "all"@,
{
    reveal_strlit("arm64_");
    reveal_strlit("golden_gate");
    reveal_strlit("arm64_golden_gate");
    assert("arm64_"@ + "golden_gate"@ =~= "arm64_golden_gate"@);
    reveal_strlit("tahoe");
    reveal_strlit("arm64_tahoe");
    assert("arm64_"@ + "tahoe"@ =~= "arm64_tahoe"@);
    reveal_strlit("sequoia");
    reveal_strlit("arm64_sequoia");
    assert("arm64_"@ + "sequoia"@ =~= "arm64_sequoia"@);
    reveal_strlit("sonoma");
    reveal_strlit("arm64_sonoma");
    assert("arm64_"@ + "sonoma"@ =~= "arm64_sonoma"@);
    reveal_strlit("ventura");
    reveal_strlit("arm64_ventura");
    assert("arm64_"@ + "ventura"@ =~= "arm64_ventura"@);
    reveal_strlit("monterey");
    reveal_strlit("arm64_monterey");
    assert("arm64_"@ + "monterey"@ =~= "arm64_monterey"@);
    reveal_strlit("big_sur");
    reveal_strlit("arm64_big_sur");
    assert("arm64_"@ + "big_sur"@ =~= "arm64_big_sur"@);
}

/// Law: bottles are looked for under the tags of all releases that run them,
/// newest first, those for Apple silicon with a mark in front, and last under
/// the tag for all platforms; under no other tag is a bottle picked.
pub proof fn law_every_release_has_its_tag(arch: Arch, present: Set<Seq<char>>)
    ensures
        forall|i: int|
            0 <= i < releases().len() && present.contains(#[trigger] release_tag(arch, i)) && (forall|j: int|
                0 <= j < i ==> !present.contains(#[trigger] release_tag(arch, j))) ==> best_tag(arch, present)
                == Some(release_tag(arch, i)),
        (forall|j: int| 0 <= j < releases().len() ==> !present.contains(#[trigger] release_tag(arch, j)))
            ==> best_tag(arch, present) == if present.contains("all"@) {
            Some("all"@)
        } else {
            None
        },
{
    lemma_preference(arch);
    let tags = preference(arch);
    lemma_first_of(tags, present);
    assert forall|i: int|
        0 <= i < tags.len() && present.contains(#[trigger] tags[i]) && (forall|j: int|
            0 <= j < i ==> !present.contains(#[trigger] tags[j])) implies best_tag(arch, present) == Some(
        tags[i],
    ) by {
        match best_tag(arch, present) {
            Some(tag) => {
                let q = choose|q: int| 0 <= q < tags.len() && tags[q] == tag && forall|j: int|
                    0 <= j < q ==> !present.contains(#[trigger] tags[j]);
                if q < i {
                    assert(!present.contains(tags[q]));
                }
                if i < q {
                    assert(!present.contains(tags[i]));
                }
            },
            None => {
                assert(!present.contains(tags[i]));
            },
        }
    }
    let n = releases().len() as int;
    assert forall|i: int|
        0 <= i < releases().len() && present.contains(#[trigger] release_tag(arch, i)) && (forall|j: int|
            0 <= j < i ==> !present.contains(#[trigger] release_tag(arch, j))) implies best_tag(arch, present)
        == Some(release_tag(arch, i)) by {
        assert(tags[i] == release_tag(arch, i));
        assert forall|j: int| 0 <= j < i implies !present.contains(#[trigger] tags[j]) by {
            assert(tags[j] == release_tag(arch, j));
        }
    }
    if forall|j: int| 0 <= j < releases().len() ==> !present.contains(#[trigger] release_tag(arch, j)) {
        assert forall|j: int| 0 <= j < n implies !present.contains(#[trigger] tags[j]) by {
            assert(tags[j] == release_tag(arch, j));
        }
        assert(tags[n] == "all"@);
        if !present.contains("all"@) {
            assert forall|j: int| 0 <= j < tags.len() implies !present.contains(#[trigger] tags[j]) by {}
        }
    }
}

/// Law: the bottle of a formula is the file of its stable bottle under the tag
/// that is picked; there is none exactly where it has no stable bottle, or none
/// under any of the tags.
pub proof fn law_the_stable_bottle_is_chosen(arch: Arch, f: Formula)
    ensures
        choice(arch, f) is Some <==> f.bottle@.contains_key("stable"@) && best_tag(
            arch,
            f.bottle@["stable"@].files@.dom(),
        ) is Some,
        choice(arch, f) matches Some((tag, file)) ==> {
            let files = f.bottle@["stable"@].files@;
            &&& files.contains_key(tag)
            &&& file == files[tag]
            &&& best_tag(arch, files.dom()) == Some(tag)
        },
{
    if f.bottle@.contains_key("stable"@) {
        law_newest_tag_is_picked(arch, f.bottle@["stable"@].files@.dom());
    }
}

/// Law: two hexadecimal digits tell the byte that they were written for.
pub proof fn law_hex_tells_the_bytes(data: Seq<u8>, i: int)
    requires
        0 <= i < data.len(),
    ensures
        hex_text(data).len() == 2 * data.len(),
        exists|hi: int, lo: int|
            0 <= hi < 16 && 0 <= lo < 16 && 16 * hi + lo == data[i] && #[trigger] hex_digit(hi) == hex_text(
                data,
            )[2 * i] && #[trigger] hex_digit(lo) == hex_text(data)[2 * i + 1],
{
    let hi = data[i] as int / 16;
    let lo = data[i] as int % 16;
    assert(hex_digit(hi) == hex_text(data)[2 * i]);
    assert(hex_digit(lo) == hex_text(data)[2 * i + 1]);
}

/// Law: what is told where there is no bottle names the formula, and the tags
/// that it has.
pub proof fn law_missing_bottles_are_explained(e: PickError)
    ensures
        e matches PickError::NoStable(name) ==> e.text() == name@ + " has no stable bottle"@,
        e matches PickError::NoPlatform { name, available } ==> e.text() == name@
            + ": no bottle for this platform (available: "@ + joined(texts(available@), ", "@) + ")"@,
{
}

/// Law: no bottle can be chosen for one of two reasons, which the error tells
/// apart.
pub proof fn law_refusals_of_bottles(arch: Arch, f: Formula, e: PickError)
    requires
        refused(arch, f, e),
    ensures
        choice(arch, f) is None,
        e is NoStable <==> !f.bottle@.contains_key("stable"@),
        e matches PickError::NoStable(name) ==> name@ == f.name@,
        e matches PickError::NoPlatform { name, available } ==> name@ == f.name@ && texts(available@)
            == f.bottle@["stable"@].files.key_seq(),
{
}

/// Law: the digits of a digest are those of "0123456789abcdef": for each byte
/// one for its upper four bits and one for its lower four.
pub proof fn law_digits_are_hexadecimal(data: Seq<u8>, i: int)
    requires
        0 <= i < data.len(),
    ensures
        hex_text(data)[2 * i] == "0123456789abcdef"@[data[i] as int / 16],
        hex_text(data)[2 * i + 1] == "0123456789abcdef"@[data[i] as int % 16],
{
    reveal_strlit("0123456789abcdef");
    assert(hex_text(data)[2 * i] == hex_digit(data[i] as int / 16));
    assert(hex_text(data)[2 * i + 1] == hex_digit(data[i] as int % 16));
}

} // verus!
