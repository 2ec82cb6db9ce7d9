//! Bottle relocation.
//!
//! Bottles ship with `@@HOMEBREW_PREFIX@@`, `@@HOMEBREW_CELLAR@@` and
//! `@@HOMEBREW_LIBRARY@@` placeholders: in text files as literal strings, and
//! inside Mach-O load commands. They are rewritten to the real prefix.

use vstd::prelude::*;
use vstd::utf8::{decode_utf8, encode_utf8, is_ascii_chars, valid_utf8};

use crate::picks;
use crate::picks::picks;
use crate::strmap::{text_map, StrMap};
use crate::text;
use crate::text::{has_part, has_prefix, index_in, lemma_index_in, line_seq, replaced, texts, trimmed,
    until_last};

verus! {

broadcast use text::lemma_texts_push;

/// The placeholder for the prefix.
pub open spec fn prefix_mark() -> Seq<char> {
    "@@HOMEBREW_PREFIX@@"@
}

/// The placeholder for the cellar.
pub open spec fn cellar_mark() -> Seq<char> {
    "@@HOMEBREW_CELLAR@@"@
}

/// The placeholder for the library.
pub open spec fn library_mark() -> Seq<char> {
    "@@HOMEBREW_LIBRARY@@"@
}

/// What stands before the formula name in a reference through `opt/`.
pub open spec fn opt_mark() -> Seq<char> {
    "@@HOMEBREW_PREFIX@@/opt/"@
}

/// What all placeholders begin with.
pub open spec fn any_mark() -> Seq<char> {
    "@@HOMEBREW"@
}

/// Where a reference to `name` through `opt/` leads: to the keg of the version
/// that `deps` gives for it, or to the `opt/` link where it gives none.
pub open spec fn pin(
    name: Seq<char>,
    prefix: Seq<char>,
    cellar: Seq<char>,
    deps: Map<Seq<char>, Seq<char>>,
) -> Seq<char> {
    if deps.contains_key(name) {
        cellar + "/"@ + name + "/"@ + deps[name]
    } else {
        prefix + "/opt/"@ + name
    }
}

/// `s` with every reference through `opt/` led to where `pin` says; the name
/// in a reference goes up to the next slash or the end.
pub open spec fn pinned(
    s: Seq<char>,
    prefix: Seq<char>,
    cellar: Seq<char>,
    deps: Map<Seq<char>, Seq<char>>,
) -> Seq<char>
    decreases s.len(),
{
    proof {
        reveal_strlit("@@HOMEBREW_PREFIX@@/opt/");
        lemma_index_in(s.skip(opt_mark().len() as int), '/');
    }
    if s.len() == 0 {
        s
    } else if has_prefix(s, opt_mark()) {
        let after = s.skip(opt_mark().len() as int);
        let n = index_in(after, '/') as int;
        pin(after.take(n), prefix, cellar, deps) + pinned(after.skip(n), prefix, cellar, deps)
    } else {
        seq![s[0]] + pinned(s.skip(1), prefix, cellar, deps)
    }
}

/// `s` with all placeholders rewritten.
pub open spec fn substituted(
    s: Seq<char>,
    prefix: Seq<char>,
    cellar: Seq<char>,
    deps: Map<Seq<char>, Seq<char>>,
) -> Seq<char> {
    let a = replaced(s, cellar_mark(), cellar);
    let b = replaced(a, library_mark(), prefix + "/Library"@);
    let c = pinned(b, prefix, cellar, deps);
    replaced(c, prefix_mark(), prefix)
}

/// Where a reference to `name` through `opt/` leads.
fn pin_name(name: &str, prefix: &str, cellar: &str, depmap: &StrMap<String>) -> (r: String)
    ensures
        r@ == pin(name@, prefix@, cellar@, text_map(depmap@)),
{
    match depmap.get(name) {
        Some(version) => cellar.to_string().concat("/").concat(name).concat("/").concat(
            version.as_str(),
        ),
        None => prefix.to_string().concat("/opt/").concat(name),
    }
}

/// `s` with every reference through `opt/` led to where it belongs.
fn pin_all(s: &str, prefix: &str, cellar: &str, depmap: &StrMap<String>) -> (r: String)
    ensures
        r@ == pinned(s@, prefix@, cellar@, text_map(depmap@)),
{
    let cs = text::chars_of(s);
    let opt = text::chars_of("@@HOMEBREW_PREFIX@@/opt/");
    proof {
        reveal_strlit("@@HOMEBREW_PREFIX@@/opt/");
    }
    let ghost deps = text_map(depmap@);
    let mut out = String::new();
    let mut i: usize = 0;
    assert(cs@.skip(0) =~= cs@);
    assert(out@ + pinned(cs@, prefix@, cellar@, deps) =~= pinned(cs@, prefix@, cellar@, deps));
    while i < cs.len()
        invariant
            cs@ == s@,
            opt@ == opt_mark(),
            opt@.len() > 0,
            deps == text_map(depmap@),
            i <= cs@.len(),
            out@ + pinned(cs@.skip(i as int), prefix@, cellar@, deps) == pinned(
                s@,
                prefix@,
                cellar@,
                deps,
            ),
        decreases cs@.len() - i,
    {
        let ghost was = out@;
        let ghost rest = cs@.skip(i as int);
        if text::stands_at(&cs, i, &opt) {
            let start: usize = i + opt.len();
            let end = text::index_of(&cs, start, '/');
            let name = text::part(&cs, start, end);
            let target = pin_name(name.as_str(), prefix, cellar, depmap);
            out.append(target.as_str());
            proof {
                let after = rest.skip(opt@.len() as int);
                assert(after =~= cs@.skip(start as int));
                assert(after.take(end - start) =~= name@);
                assert(after.skip(end - start) =~= cs@.skip(end as int));
                assert(out@ + pinned(cs@.skip(end as int), prefix@, cellar@, deps) =~= was + pinned(
                    rest,
                    prefix@,
                    cellar@,
                    deps,
                ));
            }
            i = end;
        } else {
            out.push(cs[i]);
            proof {
                assert(rest.skip(1) =~= cs@.skip(i + 1));
                assert(out@ + pinned(rest.skip(1), prefix@, cellar@, deps) =~= was + pinned(
                    rest,
                    prefix@,
                    cellar@,
                    deps,
                ));
            }
            i = i + 1;
        }
    }
    assert(out@ + cs@.skip(i as int) =~= out@);
    out
}

/// Rewrites the placeholders in one string. `depmap` (formula name to keg
/// version) makes relocation version-pinned: a reference through `opt/<dep>`
/// goes to the exact keg rather than through the mutable `opt/` link. A
/// formula that is not in the map falls back to `opt/`.
pub fn substitute(s: &str, prefix: &str, cellar: &str, depmap: &StrMap<String>) -> (r: String)
    ensures
        r@ == substituted(s@, prefix@, cellar@, text_map(depmap@)),
{
    let a = text::replace(s, "@@HOMEBREW_CELLAR@@", cellar);
    let library = prefix.to_string().concat("/Library");
    let b = text::replace(a.as_str(), "@@HOMEBREW_LIBRARY@@", library.as_str());
    let c = pin_all(b.as_str(), prefix, cellar, depmap);
    text::replace(c.as_str(), "@@HOMEBREW_PREFIX@@", prefix)
}

/// The first four bytes of a file, of which `n` could be read; zeros where
/// there are fewer than four.
pub fn file_head(buf: [u8; 4], n: usize) -> (r: [u8; 4])
    ensures
        r@ == (if n < 4 {
            seq![0u8, 0u8, 0u8, 0u8]
        } else {
            buf@
        }),
{
    if n < 4 {
        let r: [u8; 4] = [0, 0, 0, 0];
        assert(r@ =~= seq![0u8, 0u8, 0u8, 0u8]);
        r
    } else {
        buf
    }
}

/// The number that four bytes stand for, most significant first.
pub open spec fn big_endian(b: Seq<u8>) -> int {
    b[0] * 0x1000000 + b[1] * 0x10000 + b[2] * 0x100 + b[3]
}

/// The magic numbers of Mach-O files: 32 and 64 bit in either byte order, and
/// both kinds of fat files.
pub open spec fn macho_magic(m: int) -> bool {
    m == 0xfeedface || m == 0xfeedfacf || m == 0xcefaedfe || m == 0xcffaedfe || m == 0xcafebabe || m
        == 0xcafebabf
}

/// Whether a file that begins with these bytes is taken for a Mach-O file.
pub fn is_macho(head: &[u8; 4]) -> (r: bool)
    ensures
        r == macho_magic(big_endian(head@)),
{
    let m: u32 = head[0] as u32 * 0x1000000 + head[1] as u32 * 0x10000 + head[2] as u32 * 0x100
        + head[3] as u32;
    m == 0xfeedface || m == 0xfeedfacf || m == 0xcefaedfe || m == 0xcffaedfe || m == 0xcafebabe || m
        == 0xcafebabf
}

/// The bytes of "@@HOMEBREW".
pub open spec fn marker_bytes() -> Seq<u8> {
    seq![64u8, 64u8, 72u8, 79u8, 77u8, 69u8, 66u8, 82u8, 69u8, 87u8]
}

/// The bytes of "@@HOMEBREW" stand in `bytes` at `i`.
pub open spec fn marked_at(bytes: Seq<u8>, i: int) -> bool {
    0 <= i <= bytes.len() - 10 && bytes.subrange(i, i + 10) == marker_bytes()
}

/// `String::from_utf8` takes valid UTF-8, and nothing else, to the text that
/// it encodes.
#[verifier::external_body]
fn text_from_utf8(bytes: Vec<u8>) -> (r: Option<String>)
    ensures
        r is Some == valid_utf8(bytes@),
        r matches Some(s) ==> s@ == decode_utf8(bytes@),
{
    String::from_utf8(bytes).ok()
}

/// Whether the bytes of "@@HOMEBREW" stand somewhere in `bytes`.
fn has_marker(bytes: &Vec<u8>) -> (r: bool)
    ensures
        r == exists|i: int| marked_at(bytes@, i),
{
    let marker: [u8; 10] = [64, 64, 72, 79, 77, 69, 66, 82, 69, 87];
    assert(marker@ =~= marker_bytes());
    if bytes.len() < 10 {
        return false;
    }
    for i in 0..bytes.len() - 9
        invariant
            bytes@.len() >= 10,
            marker@ == marker_bytes(),
            forall|k: int| k < i ==> !marked_at(bytes@, k),
    {
        let mut n: usize = 0;
        while n < 10 && bytes[i + n] == marker[n as usize]
            invariant
                n <= 10,
                i + 10 <= bytes.len(),
                marker@ == marker_bytes(),
                bytes@.subrange(i as int, i + n) == marker@.take(n as int),
            decreases 10 - n,
        {
            assert(bytes@.subrange(i as int, i + n + 1) =~= bytes@.subrange(i as int, i + n).push(bytes@[i + n]));
            assert(marker@.take(n + 1) =~= marker@.take(n as int).push(marker@[n as int]));
            n = n + 1;
        }
        if n == 10 {
            assert(marker@.take(10) =~= marker@);
            assert(marked_at(bytes@, i as int));
            return true;
        }
        assert(bytes@.subrange(i as int, i + 10)[n as int] == bytes@[i + n]);
    }
    false
}

/// The new content of a text file, where relocation changes it: the file has a
/// placeholder, is valid UTF-8, and its text differs once rewritten.
pub open spec fn relocated_text(
    bytes: Seq<u8>,
    prefix: Seq<char>,
    cellar: Seq<char>,
    deps: Map<Seq<char>, Seq<char>>,
) -> Option<Seq<char>> {
    let content = decode_utf8(bytes);
    if (exists|i: int| marked_at(bytes, i)) && valid_utf8(bytes) && substituted(content, prefix, cellar, deps)
        != content {
        Some(substituted(content, prefix, cellar, deps))
    } else {
        None
    }
}

/// The new content of a text file (pkg-config files, scripts, cmake configs),
/// or none where the file is to be left alone.
pub fn relocate_text(bytes: Vec<u8>, prefix: &str, cellar: &str, depmap: &StrMap<String>) -> (r: Option<
    String,
>)
    ensures
        text::opt_text(r) == relocated_text(bytes@, prefix@, cellar@, text_map(depmap@)),
{
    if !has_marker(&bytes) {
        return None;
    }
    let content = match text_from_utf8(bytes) {
        Some(content) => content,
        None => {
            return None;
        },
    };
    let rewritten = substitute(content.as_str(), prefix, cellar, depmap);
    if rewritten == content {
        None
    } else {
        Some(rewritten)
    }
}

/// File permissions with write access for the owner.
pub fn writable(mode: u32) -> (r: u32)
    ensures
        r == mode | 0o200,
{
    mode | 0o200
}

/// Which load command is being listed.
#[derive(PartialEq, Eq, Structural, Clone, Copy)]
pub enum LoadCommand {
    Id,
    Load,
    Rpath,
    Other,
}

/// The placeholder-bearing paths of a Mach-O file's load commands.
pub struct MachoRefs {
    pub id: Option<String>,
    pub loads: Vec<String>,
    pub rpaths: Vec<String>,
}

/// The meaning of `MachoRefs`.
pub struct MachoRefsV {
    pub id: Option<Seq<char>>,
    pub loads: Seq<Seq<char>>,
    pub rpaths: Seq<Seq<char>>,
}

impl View for MachoRefs {
    type V = MachoRefsV;

    open spec fn view(&self) -> MachoRefsV {
        MachoRefsV {
            id: text::opt_text(self.id),
            loads: texts(self.loads@),
            rpaths: texts(self.rpaths@),
        }
    }
}

/// The load command that `otool -l` calls `cmd`.
pub open spec fn command_of(cmd: Seq<char>) -> LoadCommand {
    if cmd == "LC_ID_DYLIB"@ {
        LoadCommand::Id
    } else if cmd == "LC_LOAD_DYLIB"@ || cmd == "LC_LOAD_WEAK_DYLIB"@ || cmd == "LC_REEXPORT_DYLIB"@ {
        LoadCommand::Load
    } else if cmd == "LC_RPATH"@ {
        LoadCommand::Rpath
    } else {
        LoadCommand::Other
    }
}

/// The path in a line "name <path> (offset 24)" or "path <path> (offset 12)".
pub open spec fn listed_path(line: Seq<char>) -> Option<Seq<char>> {
    match text::stripped(line, "name "@) {
        Some(v) => until_last(v, " (offset"@),
        None => match text::stripped(line, "path "@) {
            Some(v) => until_last(v, " (offset"@),
            None => None,
        },
    }
}

/// What is known after the given lines of `otool -l` output: the load command
/// being listed, and the paths with placeholders so far.
pub open spec fn scanned(lines: Seq<Seq<char>>) -> (LoadCommand, MachoRefsV)
    decreases lines.len(),
{
    if lines.len() == 0 {
        (LoadCommand::Other, MachoRefsV { id: None, loads: Seq::empty(), rpaths: Seq::empty() })
    } else {
        let (current, refs) = scanned(lines.drop_last());
        let line = trimmed(lines.last());
        match text::stripped(line, "cmd "@) {
            Some(cmd) => (command_of(cmd), refs),
            None => match listed_path(line) {
                Some(v) if has_part(v, any_mark()) => (
                    current,
                    match current {
                        LoadCommand::Id => MachoRefsV { id: Some(v), ..refs },
                        LoadCommand::Load => MachoRefsV { loads: refs.loads.push(v), ..refs },
                        LoadCommand::Rpath => MachoRefsV { rpaths: refs.rpaths.push(v), ..refs },
                        LoadCommand::Other => refs,
                    },
                ),
                _ => (current, refs),
            },
        }
    }
}

/// The path in a line of `otool -l` output.
fn path_in(line: &str) -> (r: Option<String>)
    ensures
        text::opt_text(r) == listed_path(line@),
{
    match text::strip_prefix(line, "name ") {
        Some(v) => text::before_last(v.as_str(), " (offset"),
        None => match text::strip_prefix(line, "path ") {
            Some(v) => text::before_last(v.as_str(), " (offset"),
            None => None,
        },
    }
}

/// The load command that `otool -l` calls `cmd`.
fn load_command(cmd: &str) -> (r: LoadCommand)
    ensures
        r == command_of(cmd@),
{
    if text::same(cmd, "LC_ID_DYLIB") {
        LoadCommand::Id
    } else if text::same(cmd, "LC_LOAD_DYLIB") || text::same(cmd, "LC_LOAD_WEAK_DYLIB") || text::same(
        cmd,
        "LC_REEXPORT_DYLIB",
    ) {
        LoadCommand::Load
    } else if text::same(cmd, "LC_RPATH") {
        LoadCommand::Rpath
    } else {
        LoadCommand::Other
    }
}

/// Collects every placeholder-bearing path of the load commands out of the
/// output of `otool -l`.
pub fn macho_refs(output: &str) -> (r: MachoRefs)
    ensures
        r@ == scanned(line_seq(output@)).1,
{
    let lines = text::lines(output);
    let mut id: Option<String> = None;
    let mut loads: Vec<String> = Vec::new();
    let mut rpaths: Vec<String> = Vec::new();
    let mut current = LoadCommand::Other;
    let ghost all = texts(lines@);
    proof {
        assert(texts(loads@) =~= Seq::empty());
    }
    for i in 0..lines.len()
        invariant
            all == texts(lines@),
            ({
                let (c, refs) = scanned(all.take(i as int));
                &&& current == c
                &&& text::opt_text(id) == refs.id
                &&& texts(loads@) == refs.loads
                &&& texts(rpaths@) == refs.rpaths
            }),
    {
        proof {
            assert(all.take(i + 1).drop_last() =~= all.take(i as int));
            assert(all.take(i + 1).last() == lines@[i as int]@);
        }
        let line = text::trim(lines[i].as_str());
        match text::strip_prefix(line.as_str(), "cmd ") {
            Some(cmd) => {
                current = load_command(cmd.as_str());
            },
            None => {
                if let Some(v) = path_in(line.as_str()) {
                    if text::contains(v.as_str(), "@@HOMEBREW") {
                        match current {
                            LoadCommand::Id => {
                                id = Some(v);
                            },
                            LoadCommand::Load => {
                                loads.push(v);
                            },
                            LoadCommand::Rpath => {
                                rpaths.push(v);
                            },
                            LoadCommand::Other => {},
                        }
                    }
                }
            },
        }
    }
    assert(all.take(all.len() as int) =~= all);
    MachoRefs { id, loads, rpaths }
}

/// For each path an option, the path as it is and the path rewritten.
pub open spec fn renamings(
    flag: Seq<char>,
    paths: Seq<Seq<char>>,
    prefix: Seq<char>,
    cellar: Seq<char>,
    deps: Map<Seq<char>, Seq<char>>,
) -> Seq<Seq<char>>
    decreases paths.len(),
{
    if paths.len() == 0 {
        Seq::empty()
    } else {
        renamings(flag, paths.drop_last(), prefix, cellar, deps) + seq![
            flag,
            paths.last(),
            substituted(paths.last(), prefix, cellar, deps),
        ]
    }
}

/// The arguments for `install_name_tool` that rewrite the given paths in the
/// file `path`; none where there is nothing to rewrite.
pub open spec fn rename_args(
    refs: MachoRefsV,
    path: Seq<char>,
    prefix: Seq<char>,
    cellar: Seq<char>,
    deps: Map<Seq<char>, Seq<char>>,
) -> Option<Seq<Seq<char>>> {
    if refs.id is None && refs.loads.len() == 0 && refs.rpaths.len() == 0 {
        None
    } else {
        let id = match refs.id {
            Some(old_id) => seq!["-id"@, substituted(old_id, prefix, cellar, deps)],
            None => Seq::empty(),
        };
        Some(
            id + renamings("-change"@, refs.loads, prefix, cellar, deps) + renamings(
                "-rpath"@,
                refs.rpaths,
                prefix,
                cellar,
                deps,
            ) + seq![path],
        )
    }
}

/// Appends an option, a path and the path rewritten for each path.
fn push_renamings(
    args: &mut Vec<String>,
    flag: &str,
    paths: &Vec<String>,
    prefix: &str,
    cellar: &str,
    depmap: &StrMap<String>,
)
    ensures
        texts(final(args)@) == texts(old(args)@) + renamings(
            flag@,
            texts(paths@),
            prefix@,
            cellar@,
            text_map(depmap@),
        ),
{
    let ghost was = texts(args@);
    let ghost all = texts(paths@);
    let ghost deps = text_map(depmap@);
    assert(was + renamings(flag@, all.take(0), prefix@, cellar@, deps) =~= was);
    for i in 0..paths.len()
        invariant
            all == texts(paths@),
            deps == text_map(depmap@),
            texts(args@) == was + renamings(flag@, all.take(i as int), prefix@, cellar@, deps),
    {
        let ghost before = texts(args@);
        let new_path = substitute(paths[i].as_str(), prefix, cellar, depmap);
        let ghost added = seq![flag@, paths@[i as int]@, new_path@];
        args.push(flag.to_string());
        args.push(paths[i].clone());
        args.push(new_path);
        proof {
            assert(texts(args@) =~= before + added);
            assert(all.take(i + 1).drop_last() =~= all.take(i as int));
            assert(all.take(i + 1).last() == paths@[i as int]@);
            assert(texts(args@) =~= was + (renamings(flag@, all.take(i as int), prefix@, cellar@, deps) + added));
        }
    }
    assert(all.take(all.len() as int) =~= all);
}

/// The arguments for `install_name_tool`, or none where there is nothing to
/// rewrite.
pub fn install_name_args(
    refs: &MachoRefs,
    path: &str,
    prefix: &str,
    cellar: &str,
    depmap: &StrMap<String>,
) -> (r: Option<Vec<String>>)
    ensures
        r is Some == rename_args(refs@, path@, prefix@, cellar@, text_map(depmap@)) is Some,
        r matches Some(args) ==> texts(args@) == rename_args(
            refs@,
            path@,
            prefix@,
            cellar@,
            text_map(depmap@),
        )->0,
{
    if refs.id.is_none() && refs.loads.is_empty() && refs.rpaths.is_empty() {
        return None;
    }
    let mut args: Vec<String> = Vec::new();
    assert(texts(args@) =~= Seq::empty());
    if let Some(old_id) = &refs.id {
        let new_id = substitute(old_id.as_str(), prefix, cellar, depmap);
        let ghost id = seq!["-id"@, new_id@];
        args.push("-id".to_string());
        args.push(new_id);
        assert(texts(args@) =~= id);
    }
    push_renamings(&mut args, "-change", &refs.loads, prefix, cellar, depmap);
    push_renamings(&mut args, "-rpath", &refs.rpaths, prefix, cellar, depmap);
    let ghost before = texts(args@);
    args.push(path.to_string());
    assert(texts(args@) =~= before + seq![path@]);
    Some(args)
}

/// The arguments for `install_name_tool` that a file with the given listing of
/// its load commands is edited with. A file that cannot be listed is no Mach-O
/// file, though it begins like one, as Java class files do: it is left alone,
/// as is one with nothing to rewrite.
pub open spec fn edit_args(
    listing: Option<Seq<char>>,
    path: Seq<char>,
    prefix: Seq<char>,
    cellar: Seq<char>,
    deps: Map<Seq<char>, Seq<char>>,
) -> Option<Seq<Seq<char>>> {
    match listing {
        Some(output) => rename_args(scanned(line_seq(output)).1, path, prefix, cellar, deps),
        None => None,
    }
}

/// The arguments for `install_name_tool`, or none where the file is to be left
/// alone. `listing` is what `otool -l` prints, where it takes the file.
pub fn macho_edit(
    listing: &Option<String>,
    path: &str,
    prefix: &str,
    cellar: &str,
    depmap: &StrMap<String>,
) -> (r: Option<Vec<String>>)
    ensures
        ({
            let args = edit_args(text::opt_text(*listing), path@, prefix@, cellar@, text_map(depmap@));
            &&& r is Some == args is Some
            &&& r matches Some(v) ==> texts(v@) == args->0
        }),
{
    match listing {
        Some(output) => {
            let refs = macho_refs(output.as_str());
            install_name_args(&refs, path, prefix, cellar, depmap)
        },
        None => None,
    }
}

/// The arguments for `codesign`: sign anew, ad hoc, and keep the metadata.
pub fn codesign_args(path: &str) -> (r: Vec<String>)
    ensures
        texts(r@) == seq![
            "--force"@,
            "--sign"@,
            "-"@,
            "--preserve-metadata=entitlements,requirements,flags"@,
            path@,
        ],
{
    let mut r: Vec<String> = Vec::new();
    r.push("--force".to_string());
    r.push("--sign".to_string());
    r.push("-".to_string());
    r.push("--preserve-metadata=entitlements,requirements,flags".to_string());
    r.push(path.to_string());
    assert(texts(r@) =~= seq![
        "--force"@,
        "--sign"@,
        "-"@,
        "--preserve-metadata=entitlements,requirements,flags"@,
        path@,
    ]);
    r
}

/// What is reported when a tool cannot be started.
pub fn missing_tool(cmd: &str) -> (r: String)
    ensures
        r@ == "running "@ + cmd@ + " (is Xcode / CLT installed?)"@,
{
    "running ".to_string().concat(cmd).concat(" (is Xcode / CLT installed?)")
}

/// What is reported when a tool fails.
pub fn failed_tool(cmd: &str, stderr: &str) -> (r: String)
    ensures
        r@ == cmd@ + " failed: "@ + trimmed(stderr@),
{
    cmd.to_string().concat(" failed: ").concat(text::trim(stderr).as_str())
}

/// A placeholder begins with two at signs and has no slash.
spec fn markish(p: Seq<char>) -> bool {
    p.len() >= 2 && p[0] == '@' && p[1] == '@' && !p.contains('/')
}

/// A text between two others.
pub open spec fn between(a: Seq<char>, t: Seq<char>, b: Seq<char>) -> Seq<char> {
    a + t + b
}

/// Putting `t` between two texts makes no `p` appear.
pub open spec fn neutral(t: Seq<char>, p: Seq<char>) -> bool {
    forall|a: Seq<char>, b: Seq<char>| #[trigger]
        has_part(between(a, t, b), p) ==> has_part(a, p) || has_part(b, p)
}

/// Putting `t` between two texts makes no placeholder appear.
pub open spec fn inert(t: Seq<char>) -> bool {
    neutral(t, prefix_mark()) && neutral(t, cellar_mark()) && neutral(t, library_mark())
}

proof fn lemma_marks()
    ensures
        markish(prefix_mark()),
        markish(cellar_mark()),
        markish(library_mark()),
        has_prefix(opt_mark(), prefix_mark()),
        opt_mark().len() > 0,
        opt_mark()[0] == '@',
{
    reveal_strlit("@@HOMEBREW_PREFIX@@");
    reveal_strlit("@@HOMEBREW_CELLAR@@");
    reveal_strlit("@@HOMEBREW_LIBRARY@@");
    reveal_strlit("@@HOMEBREW_PREFIX@@/opt/");
    assert(prefix_mark() =~= seq!['@','@','H','O','M','E','B','R','E','W','_','P','R','E','F','I','X','@','@']);
    assert(cellar_mark() =~= seq!['@','@','H','O','M','E','B','R','E','W','_','C','E','L','L','A','R','@','@']);
    assert(library_mark() =~= seq!['@','@','H','O','M','E','B','R','E','W','_','L','I','B','R','A','R','Y','@','@']);
    assert(opt_mark().take(19) =~= prefix_mark());
}

/// A part without a slash lies on one side of a slash.
proof fn lemma_beside_slash(x: Seq<char>, y: Seq<char>, p: Seq<char>)
    requires
        p.len() > 0,
        !p.contains('/'),
        has_part(x + seq!['/'] + y, p),
    ensures
        has_part(x, p) || has_part(y, p),
{
    let w = x + seq!['/'] + y;
    let k = choose|k: int| text::occurs_at(w, p, k);
    if k <= x.len() < k + p.len() {
        assert(w.subrange(k, k + p.len())[x.len() - k] == w[x.len() as int]);
        assert(p[x.len() - k] == '/');
    } else if k > x.len() {
        assert(w.subrange(k, k + p.len()) =~= y.subrange(k - x.len() - 1, k - x.len() - 1 + p.len()));
        assert(text::occurs_at(y, p, k - x.len() - 1));
    } else {
        assert(w.subrange(k, k + p.len()) =~= x.subrange(k, k + p.len()));
        assert(text::occurs_at(x, p, k));
    }
}

/// A part of one of two texts is a part of both together.
proof fn lemma_part_of_either(a: Seq<char>, b: Seq<char>, p: Seq<char>)
    ensures
        has_part(a, p) ==> has_part(a + b, p),
        has_part(b, p) ==> has_part(a + b, p),
{
    if has_part(a, p) {
        let k = choose|k: int| text::occurs_at(a, p, k);
        assert((a + b).subrange(k, k + p.len()) =~= a.subrange(k, k + p.len()));
        assert(text::occurs_at(a + b, p, k));
    }
    if has_part(b, p) {
        assert((a + b).skip(a.len() as int) =~= b);
        text::lemma_part_of_rest(a + b, p, a.len() as int);
    }
}

/// Where `p` stands first.
proof fn lemma_first_place(s: Seq<char>, p: Seq<char>) -> (i: int)
    requires
        has_part(s, p),
        p.len() > 0,
    ensures
        text::occurs_at(s, p, i),
        forall|k: int| k < i ==> !text::occurs_at(s, p, k),
    decreases s.len(),
{
    let k = choose|k: int| text::occurs_at(s, p, k);
    if has_prefix(s, p) {
        assert(s.subrange(0, p.len() as int) =~= s.take(p.len() as int));
        0
    } else {
        let rest = s.skip(1);
        assert(k != 0) by {
            assert(s.subrange(0, p.len() as int) =~= s.take(p.len() as int));
        }
        assert(rest.subrange(k - 1, k - 1 + p.len()) =~= s.subrange(k, k + p.len()));
        assert(text::occurs_at(rest, p, k - 1));
        let i = lemma_first_place(rest, p);
        assert(s.subrange(i + 1, i + 1 + p.len()) =~= rest.subrange(i, i + p.len()));
        assert forall|m: int| m < i + 1 implies !text::occurs_at(s, p, m) by {
            if text::occurs_at(s, p, m) {
                if m == 0 {
                    assert(s.subrange(0, p.len() as int) =~= s.take(p.len() as int));
                } else {
                    assert(rest.subrange(m - 1, m - 1 + p.len()) =~= s.subrange(m, m + p.len()));
                    assert(text::occurs_at(rest, p, m - 1));
                }
            }
        }
        i + 1
    }
}

/// Rewriting a text at the first place.
proof fn lemma_replaced_at(s: Seq<char>, from: Seq<char>, to: Seq<char>, i: int)
    requires
        from.len() > 0,
        text::occurs_at(s, from, i),
        forall|k: int| k < i ==> !text::occurs_at(s, from, k),
    ensures
        replaced(s, from, to) == s.take(i) + to + replaced(s.skip(i + from.len()), from, to),
    decreases i,
{
    assert(s.subrange(0, from.len() as int) =~= s.take(from.len() as int));
    if i == 0 {
        assert(s.take(0) + to =~= to);
    } else {
        assert(!text::occurs_at(s, from, 0));
        let rest = s.skip(1);
        assert(rest.subrange(i - 1, i - 1 + from.len()) =~= s.subrange(i, i + from.len()));
        assert forall|k: int| k < i - 1 implies !text::occurs_at(rest, from, k) by {
            if text::occurs_at(rest, from, k) {
                assert(s.subrange(k + 1, k + 1 + from.len()) =~= rest.subrange(k, k + from.len()));
                assert(text::occurs_at(s, from, k + 1));
            }
        }
        lemma_replaced_at(rest, from, to, i - 1);
        assert(rest.skip(i - 1 + from.len()) =~= s.skip(i + from.len()));
        assert(seq![s[0]] + rest.take(i - 1) =~= s.take(i));
        assert(replaced(s, from, to) =~= s.take(i) + to + replaced(s.skip(i + from.len()), from, to));
    }
}

/// Rewriting one placeholder makes no other appear, and leaves none of its own.
proof fn lemma_rewritten(s: Seq<char>, from: Seq<char>, to: Seq<char>, p: Seq<char>)
    requires
        from.len() > 0,
        p.len() > 0,
        neutral(to, p),
        has_part(replaced(s, from, to), p),
    ensures
        has_part(s, p),
        p != from,
    decreases s.len(),
{
    if !has_part(s, from) {
        text::lemma_replaced_absent(s, from, to);
    } else {
        let i = lemma_first_place(s, from);
        lemma_replaced_at(s, from, to, i);
        let x = s.take(i);
        let tail = s.skip(i + from.len());
        assert(has_part(between(x, to, replaced(tail, from, to)), p));
        if has_part(x, p) {
            assert(x + s.skip(i) =~= s);
            lemma_part_of_either(x, s.skip(i), p);
            if p == from {
                let k = choose|k: int| text::occurs_at(x, p, k);
                assert(s.subrange(k, k + p.len()) =~= x.subrange(k, k + p.len()));
                assert(text::occurs_at(s, from, k));
            }
        } else {
            lemma_rewritten(tail, from, to, p);
            text::lemma_part_of_rest(s, p, i + from.len());
        }
    }
}

/// What is put behind a text makes no placeholder appear.
proof fn lemma_behind(x: Seq<char>, t: Seq<char>, p: Seq<char>)
    requires
        p.len() > 0,
        neutral(t, p),
        has_part(x + t, p),
    ensures
        has_part(x, p),
{
    let none = Seq::<char>::empty();
    assert(between(x, t, none) =~= x + t);
    assert(has_part(between(x, t, none), p));
    if has_part(none, p) {
        let k = choose|k: int| text::occurs_at(none, p, k);
    }
}

/// Where a reference leads, behind a text and before a slash or the end: no
/// placeholder appears.
proof fn lemma_pin_parts(
    x: Seq<char>,
    name: Seq<char>,
    tail: Seq<char>,
    prefix: Seq<char>,
    cellar: Seq<char>,
    deps: Map<Seq<char>, Seq<char>>,
    p: Seq<char>,
)
    requires
        neutral(prefix, p),
        neutral(cellar, p),
        markish(p),
        deps.contains_key(name) ==> !has_part(deps[name], p),
        tail.len() == 0 || tail[0] == '/',
        has_part(x + pin(name, prefix, cellar, deps) + tail, p),
    ensures
        has_part(x, p) || has_part(name, p) || has_part(tail, p),
{
    reveal_strlit("/");
    reveal_strlit("/opt/");
    let slash = seq!['/'];
    assert("/"@ =~= slash);
    let target = pin(name, prefix, cellar, deps);
    let front = x + target;
    if tail.len() > 0 {
        assert(front + tail =~= front + slash + tail.skip(1));
        lemma_beside_slash(front, tail.skip(1), p);
        if has_part(tail.skip(1), p) {
            text::lemma_part_of_rest(tail, p, 1);
        }
    } else {
        assert(front + tail =~= front);
    }
    if has_part(front, p) {
        if deps.contains_key(name) {
            let version = deps[name];
            assert(front =~= (x + cellar) + slash + (name + slash + version));
            lemma_beside_slash(x + cellar, name + slash + version, p);
            if has_part(x + cellar, p) {
                lemma_behind(x, cellar, p);
            } else {
                lemma_beside_slash(name, version, p);
            }
        } else {
            let opt = seq!['o', 'p', 't'];
            assert(front =~= (x + prefix) + slash + (opt + slash + name));
            lemma_beside_slash(x + prefix, opt + slash + name, p);
            if has_part(x + prefix, p) {
                lemma_behind(x, prefix, p);
            } else {
                lemma_beside_slash(opt, name, p);
                if has_part(opt, p) {
                    let k = choose|k: int| text::occurs_at(opt, p, k);
                    assert(opt.subrange(k, k + p.len())[0] == opt[k]);
                }
            }
        }
    }
}

/// Pinning a text at the first reference.
proof fn lemma_pinned_at(
    s: Seq<char>,
    prefix: Seq<char>,
    cellar: Seq<char>,
    deps: Map<Seq<char>, Seq<char>>,
    i: int,
)
    requires
        text::occurs_at(s, opt_mark(), i),
        forall|k: int| k < i ==> !text::occurs_at(s, opt_mark(), k),
    ensures
        ({
            let after = s.skip(i + opt_mark().len());
            let n = index_in(after, '/') as int;
            pinned(s, prefix, cellar, deps) == s.take(i) + pin(after.take(n), prefix, cellar, deps)
                + pinned(after.skip(n), prefix, cellar, deps)
        }),
    decreases i,
{
    lemma_marks();
    let m = opt_mark();
    assert(s.subrange(0, m.len() as int) =~= s.take(m.len() as int));
    let after = s.skip(i + m.len());
    let n = index_in(after, '/') as int;
    let target = pin(after.take(n), prefix, cellar, deps);
    if i == 0 {
        assert(s.take(0) + target =~= target);
    } else {
        assert(!text::occurs_at(s, m, 0));
        let rest = s.skip(1);
        assert(rest.subrange(i - 1, i - 1 + m.len()) =~= s.subrange(i, i + m.len()));
        assert forall|k: int| k < i - 1 implies !text::occurs_at(rest, m, k) by {
            if text::occurs_at(rest, m, k) {
                assert(s.subrange(k + 1, k + 1 + m.len()) =~= rest.subrange(k, k + m.len()));
                assert(text::occurs_at(s, m, k + 1));
            }
        }
        lemma_pinned_at(rest, prefix, cellar, deps, i - 1);
        assert(rest.skip(i - 1 + m.len()) =~= after);
        assert(seq![s[0]] + rest.take(i - 1) =~= s.take(i));
        assert(pinned(s, prefix, cellar, deps) =~= s.take(i) + target + pinned(
            after.skip(n),
            prefix,
            cellar,
            deps,
        ));
    }
}

/// Pinning makes no placeholder appear.
proof fn lemma_pinned_parts(
    s: Seq<char>,
    prefix: Seq<char>,
    cellar: Seq<char>,
    deps: Map<Seq<char>, Seq<char>>,
    p: Seq<char>,
)
    requires
        neutral(prefix, p),
        neutral(cellar, p),
        markish(p),
        forall|n: Seq<char>| #[trigger] deps.contains_key(n) ==> !has_part(deps[n], p),
        has_part(pinned(s, prefix, cellar, deps), p),
    ensures
        has_part(s, p),
    decreases s.len(),
{
    lemma_marks();
    if !has_part(s, opt_mark()) {
        lemma_pinned_absent(s, prefix, cellar, deps);
    } else {
        let i = lemma_first_place(s, opt_mark());
        lemma_pinned_at(s, prefix, cellar, deps, i);
        let m = opt_mark().len() as int;
        let x = s.take(i);
        let after = s.skip(i + m);
        lemma_index_in(after, '/');
        let n = index_in(after, '/') as int;
        let name = after.take(n);
        let rest = after.skip(n);
        let tail = pinned(rest, prefix, cellar, deps);
        if rest.len() > 0 {
            assert(rest[0] == '/');
            assert(!has_prefix(rest, opt_mark())) by {
                if has_prefix(rest, opt_mark()) {
                    assert(rest.take(m)[0] == rest[0]);
                }
            }
            assert(tail[0] == '/');
        }
        lemma_pin_parts(x, name, tail, prefix, cellar, deps, p);
        if has_part(x, p) {
            assert(x + s.skip(i) =~= s);
            lemma_part_of_either(x, s.skip(i), p);
        } else {
            assert(name + rest =~= after);
            if has_part(name, p) {
                lemma_part_of_either(name, rest, p);
            } else {
                lemma_pinned_parts(rest, prefix, cellar, deps, p);
                lemma_part_of_either(name, rest, p);
            }
            text::lemma_part_of_rest(s, p, i + m);
        }
    }
}

/// The library directory makes no placeholder appear where the prefix makes
/// none appear.
proof fn lemma_library_neutral(prefix: Seq<char>, p: Seq<char>)
    requires
        neutral(prefix, p),
        markish(p),
    ensures
        neutral(prefix + "/Library"@, p),
{
    reveal_strlit("/Library");
    let dir = prefix + "/Library"@;
    let word = seq!['L', 'i', 'b', 'r', 'a', 'r', 'y'];
    assert forall|a: Seq<char>, b: Seq<char>| #[trigger] has_part(between(a, dir, b), p) implies has_part(a, p)
        || has_part(b, p) by {
        assert(between(a, dir, b) =~= (a + prefix) + seq!['/'] + (word + b));
        lemma_beside_slash(a + prefix, word + b, p);
        if has_part(a + prefix, p) {
            lemma_behind(a, prefix, p);
        } else {
            let k = choose|k: int| text::occurs_at(word + b, p, k);
            assert((word + b).subrange(k, k + p.len())[0] == (word + b)[k]);
            assert(k >= word.len());
            let q = k - word.len();
            assert(b.subrange(q, q + p.len()) =~= (word + b).subrange(k, k + p.len()));
            assert(text::occurs_at(b, p, q));
        }
    }
}

/// Law: a rewritten text has no placeholder left. The prefix and the cellar
/// are such that putting them into a text makes no placeholder appear, and no
/// version holds a placeholder for the cellar or the library.
pub proof fn law_no_placeholder_is_left(
    s: Seq<char>,
    prefix: Seq<char>,
    cellar: Seq<char>,
    deps: Map<Seq<char>, Seq<char>>,
)
    requires
        inert(prefix),
        inert(cellar),
        forall|n: Seq<char>| #[trigger]
            deps.contains_key(n) ==> !has_part(deps[n], cellar_mark()) && !has_part(deps[n], library_mark()),
    ensures
        !has_part(substituted(s, prefix, cellar, deps), prefix_mark()),
        !has_part(substituted(s, prefix, cellar, deps), cellar_mark()),
        !has_part(substituted(s, prefix, cellar, deps), library_mark()),
{
    lemma_marks();
    let library = prefix + "/Library"@;
    lemma_library_neutral(prefix, cellar_mark());
    lemma_library_neutral(prefix, library_mark());
    let a = replaced(s, cellar_mark(), cellar);
    let b = replaced(a, library_mark(), library);
    let c = pinned(b, prefix, cellar, deps);
    let d = replaced(c, prefix_mark(), prefix);
    if has_part(d, prefix_mark()) {
        lemma_rewritten(c, prefix_mark(), prefix, prefix_mark());
    }
    if has_part(d, cellar_mark()) {
        lemma_rewritten(c, prefix_mark(), prefix, cellar_mark());
        lemma_pinned_parts(b, prefix, cellar, deps, cellar_mark());
        lemma_rewritten(a, library_mark(), library, cellar_mark());
        lemma_rewritten(s, cellar_mark(), cellar, cellar_mark());
    }
    if has_part(d, library_mark()) {
        lemma_rewritten(c, prefix_mark(), prefix, library_mark());
        lemma_pinned_parts(b, prefix, cellar, deps, library_mark());
        lemma_rewritten(a, library_mark(), library, library_mark());
    }
}

/// Law: an absolute path that has no two at signs in a row and does not end
/// with one makes no placeholder appear in a text.
pub proof fn law_ordinary_paths_are_inert(t: Seq<char>)
    requires
        t.len() > 0,
        t[0] == '/',
        t.last() != '@',
        forall|i: int| 0 <= i < t.len() - 1 && #[trigger] t[i] == '@' ==> t[i + 1] != '@',
    ensures
        inert(t),
{
    lemma_marks();
    assert forall|p: Seq<char>| #[trigger] markish(p) implies neutral(t, p) by {
        let t1 = t.skip(1);
        assert forall|a: Seq<char>, b: Seq<char>| #[trigger]
            has_part(between(a, t, b), p) implies has_part(a, p) || has_part(b, p) by {
            assert(between(a, t, b) =~= a + seq!['/'] + (t1 + b));
            lemma_beside_slash(a, t1 + b, p);
            if !has_part(a, p) {
                let w = t1 + b;
                let k = choose|k: int| text::occurs_at(w, p, k);
                assert(w.subrange(k, k + p.len())[0] == w[k]);
                assert(w.subrange(k, k + p.len())[1] == w[k + 1]);
                if k < t1.len() {
                    assert(w[k] == t[k + 1]);
                    if k + 1 < t1.len() {
                        assert(w[k + 1] == t[k + 2]);
                    }
                }
                let q = k - t1.len();
                assert(b.subrange(q, q + p.len()) =~= w.subrange(k, k + p.len()));
                assert(text::occurs_at(b, p, q));
            }
        }
    }
}

/// Pinning a text without placeholders changes nothing.
proof fn lemma_pinned_absent(
    s: Seq<char>,
    prefix: Seq<char>,
    cellar: Seq<char>,
    deps: Map<Seq<char>, Seq<char>>,
)
    requires
        !has_part(s, opt_mark()),
    ensures
        pinned(s, prefix, cellar, deps) == s,
    decreases s.len(),
{
    if s.len() > 0 {
        if has_prefix(s, opt_mark()) {
            text::lemma_prefix_is_part(s, opt_mark());
        }
        if has_part(s.skip(1), opt_mark()) {
            text::lemma_part_of_rest(s, opt_mark(), 1);
        }
        lemma_pinned_absent(s.skip(1), prefix, cellar, deps);
        assert(seq![s[0]] + s.skip(1) =~= s);
    }
}

/// Law: a text without placeholders stays as it is.
pub proof fn law_plain_text_is_kept(
    s: Seq<char>,
    prefix: Seq<char>,
    cellar: Seq<char>,
    deps: Map<Seq<char>, Seq<char>>,
)
    requires
        !has_part(s, prefix_mark()),
        !has_part(s, cellar_mark()),
        !has_part(s, library_mark()),
    ensures
        substituted(s, prefix, cellar, deps) == s,
{
    lemma_marks();
    text::lemma_replaced_absent(s, cellar_mark(), cellar);
    text::lemma_replaced_absent(s, library_mark(), prefix + "/Library"@);
    if has_part(s, opt_mark()) {
        let k = choose|k: int| text::occurs_at(s, opt_mark(), k);
        let m = prefix_mark().len() as int;
        assert(s.subrange(k, k + m) =~= s.subrange(k, k + opt_mark().len()).take(m));
        assert(text::occurs_at(s, prefix_mark(), k));
    }
    lemma_pinned_absent(s, prefix, cellar, deps);
    text::lemma_replaced_absent(s, prefix_mark(), prefix);
}

/// The encoding of a text is that of its two halves.
proof fn lemma_encoded_halves(a: Seq<char>, b: Seq<char>)
    ensures
        encode_utf8(a + b) == encode_utf8(a) + encode_utf8(b),
    decreases a.len(),
{
    if a.len() == 0 {
        assert(a + b =~= b);
        assert(encode_utf8(a) + encode_utf8(b) =~= encode_utf8(b));
    } else {
        assert((a + b).drop_first() =~= a.drop_first() + b);
        lemma_encoded_halves(a.drop_first(), b);
        assert(encode_utf8(a + b) =~= encode_utf8(a) + encode_utf8(b));
    }
}

/// The marker bytes encode what all placeholders begin with.
proof fn lemma_encoded_mark()
    ensures
        encode_utf8(any_mark()) == marker_bytes(),
{
    reveal_strlit("@@HOMEBREW");
    assert(any_mark() =~= seq!['@', '@', 'H', 'O', 'M', 'E', 'B', 'R', 'E', 'W']);
    assert(is_ascii_chars(any_mark()));
    vstd::utf8::is_ascii_chars_encode_utf8(any_mark());
    assert(encode_utf8(any_mark()) =~= marker_bytes());
}

/// Bytes around the marker bytes are marked.
proof fn lemma_marked_between(x: Seq<u8>, y: Seq<u8>)
    ensures
        marked_at(x + (marker_bytes() + y), x.len() as int),
{
    let i = x.len() as int;
    assert((x + (marker_bytes() + y)).subrange(i, i + 10) =~= marker_bytes());
}

/// Where a text has what all placeholders begin with, its bytes have the
/// marker.
proof fn lemma_marked_bytes(bytes: Seq<u8>)
    requires
        valid_utf8(bytes),
        has_part(decode_utf8(bytes), any_mark()),
    ensures
        exists|i: int| marked_at(bytes, i),
{
    let s = decode_utf8(bytes);
    let m = any_mark();
    let k = choose|k: int| text::occurs_at(s, m, k);
    let a = s.take(k);
    let b = s.skip(k + m.len());
    assert(s == a + (m + b)) by {
        assert(s =~= s.take(k) + (s.subrange(k, k + m.len()) + s.skip(k + m.len())));
    }
    lemma_encoded_halves(a, m + b);
    lemma_encoded_halves(m, b);
    lemma_encoded_mark();
    vstd::utf8::decode_utf8_encode_utf8(bytes);
    lemma_marked_between(encode_utf8(a), encode_utf8(b));
}

/// A text with a placeholder has what all placeholders begin with.
proof fn lemma_any_mark(s: Seq<char>, p: Seq<char>)
    requires
        p == prefix_mark() || p == cellar_mark() || p == library_mark(),
        has_part(s, p),
    ensures
        has_part(s, any_mark()),
{
    reveal_strlit("@@HOMEBREW");
    reveal_strlit("@@HOMEBREW_PREFIX@@");
    reveal_strlit("@@HOMEBREW_CELLAR@@");
    reveal_strlit("@@HOMEBREW_LIBRARY@@");
    let k = choose|k: int| text::occurs_at(s, p, k);
    assert(p.take(10) =~= any_mark());
    assert(s.subrange(k, k + 10) =~= s.subrange(k, k + p.len()).take(10));
    assert(text::occurs_at(s, any_mark(), k));
}

/// Law: looking for the marker among the bytes loses nothing. A text whose
/// bytes do not have it stays as it is when rewritten, so that the files that
/// are changed are exactly those whose text differs once rewritten.
pub proof fn law_the_marker_scan_loses_nothing(
    bytes: Seq<u8>,
    prefix: Seq<char>,
    cellar: Seq<char>,
    deps: Map<Seq<char>, Seq<char>>,
)
    requires
        valid_utf8(bytes),
    ensures
        !(exists|i: int| marked_at(bytes, i)) ==> substituted(decode_utf8(bytes), prefix, cellar, deps)
            == decode_utf8(bytes),
        relocated_text(bytes, prefix, cellar, deps) == (if substituted(
            decode_utf8(bytes),
            prefix,
            cellar,
            deps,
        ) != decode_utf8(bytes) {
            Some(substituted(decode_utf8(bytes), prefix, cellar, deps))
        } else {
            None
        }),
{
    if !(exists|i: int| marked_at(bytes, i)) {
        let s = decode_utf8(bytes);
        if has_part(s, any_mark()) {
            lemma_marked_bytes(bytes);
        }
        if has_part(s, prefix_mark()) {
            lemma_any_mark(s, prefix_mark());
        }
        if has_part(s, cellar_mark()) {
            lemma_any_mark(s, cellar_mark());
        }
        if has_part(s, library_mark()) {
            lemma_any_mark(s, library_mark());
        }
        law_plain_text_is_kept(s, prefix, cellar, deps);
    }
}

/// Law: rewriting a rewritten text changes nothing.
pub proof fn law_rewriting_twice_is_rewriting_once(
    s: Seq<char>,
    prefix: Seq<char>,
    cellar: Seq<char>,
    deps: Map<Seq<char>, Seq<char>>,
)
    requires
        inert(prefix),
        inert(cellar),
        forall|n: Seq<char>| #[trigger]
            deps.contains_key(n) ==> !has_part(deps[n], cellar_mark()) && !has_part(deps[n], library_mark()),
    ensures
        substituted(substituted(s, prefix, cellar, deps), prefix, cellar, deps) == substituted(
            s,
            prefix,
            cellar,
            deps,
        ),
{
    law_no_placeholder_is_left(s, prefix, cellar, deps);
    law_plain_text_is_kept(substituted(s, prefix, cellar, deps), prefix, cellar, deps);
}

/// A reference through `opt/` holds no placeholder besides its own.
proof fn lemma_reference_parts(w: Seq<char>, p: Seq<char>)
    requires
        p == cellar_mark() || p == library_mark(),
        has_part(opt_mark() + w, p),
    ensures
        has_part(w, p),
{
    lemma_marks();
    reveal_strlit("@@HOMEBREW_PREFIX@@");
    reveal_strlit("@@HOMEBREW_CELLAR@@");
    reveal_strlit("@@HOMEBREW_LIBRARY@@");
    reveal_strlit("@@HOMEBREW_PREFIX@@/opt/");
    let slash = seq!['/'];
    let opt = seq!['o', 'p', 't'];
    assert(opt_mark() + w =~= prefix_mark() + slash + (opt + slash + w));
    lemma_beside_slash(prefix_mark(), opt + slash + w, p);
    if has_part(prefix_mark(), p) {
        let k = choose|k: int| text::occurs_at(prefix_mark(), p, k);
        assert(prefix_mark().subrange(k, k + p.len())[11] == prefix_mark()[k + 11]);
        assert(false);
    }
    lemma_beside_slash(opt, w, p);
    if has_part(opt, p) {
        let k = choose|k: int| text::occurs_at(opt, p, k);
        assert(opt.subrange(k, k + p.len())[0] == opt[k]);
    }
}

/// Law: a reference to a formula through `opt/` becomes the path of the exact
/// keg that `deps` gives for it (or of the `opt/` link where it gives none),
/// and what follows the name is kept. Neither the path nor the reference holds
/// a further placeholder.
pub proof fn law_opt_reference_is_pinned(
    name: Seq<char>,
    tail: Seq<char>,
    prefix: Seq<char>,
    cellar: Seq<char>,
    deps: Map<Seq<char>, Seq<char>>,
)
    requires
        !name.contains('/'),
        tail.len() == 0 || tail[0] == '/',
        !has_part(name + tail, prefix_mark()),
        !has_part(name + tail, cellar_mark()),
        !has_part(name + tail, library_mark()),
        !has_part(pin(name, prefix, cellar, deps), prefix_mark()),
    ensures
        substituted(opt_mark() + name + tail, prefix, cellar, deps) == pin(name, prefix, cellar, deps)
            + tail,
{
    lemma_marks();
    let w = name + tail;
    let s = opt_mark() + name + tail;
    assert(s =~= opt_mark() + w);
    if has_part(s, cellar_mark()) {
        lemma_reference_parts(w, cellar_mark());
    }
    text::lemma_replaced_absent(s, cellar_mark(), cellar);
    if has_part(s, library_mark()) {
        lemma_reference_parts(w, library_mark());
    }
    text::lemma_replaced_absent(s, library_mark(), prefix + "/Library"@);
    let m = opt_mark().len() as int;
    assert(s.take(m) =~= opt_mark());
    let after = s.skip(m);
    assert(after =~= w);
    lemma_index_in(w, '/');
    let n = index_in(w, '/') as int;
    assert(n == name.len()) by {
        if n < name.len() {
            assert(name[n] == '/');
        } else if n > name.len() {
            assert(w[name.len() as int] == tail[0]);
        }
    }
    assert(w.take(n) =~= name);
    assert(w.skip(n) =~= tail);
    lemma_part_of_either(name, tail, prefix_mark());
    if has_part(tail, opt_mark()) {
        let k = choose|k: int| text::occurs_at(tail, opt_mark(), k);
        let q = prefix_mark().len() as int;
        assert(tail.subrange(k, k + q) =~= tail.subrange(k, k + m).take(q));
        assert(text::occurs_at(tail, prefix_mark(), k));
    }
    lemma_pinned_absent(tail, prefix, cellar, deps);
    let target = pin(name, prefix, cellar, deps);
    let out = target + tail;
    if has_part(out, prefix_mark()) {
        if tail.len() > 0 {
            assert(out =~= target + seq!['/'] + tail.skip(1));
            lemma_beside_slash(target, tail.skip(1), prefix_mark());
            if has_part(tail.skip(1), prefix_mark()) {
                text::lemma_part_of_rest(tail, prefix_mark(), 1);
            }
        } else {
            assert(out =~= target);
        }
    }
    text::lemma_replaced_absent(out, prefix_mark(), prefix);
}

/// Line `i` of a listing stands under the load command `cmd`: the nearest line
/// before it that names a load command names that one.
pub open spec fn stands_under(lines: Seq<Seq<char>>, i: int, cmd: Seq<char>) -> bool {
    exists|k: int|
        0 <= k < i && trimmed(#[trigger] lines[k]) == "cmd "@ + cmd && forall|q: int|
            k < q < i ==> !has_prefix(trimmed(#[trigger] lines[q]), "cmd "@)
}

/// The line gives the path `v`, which bears a placeholder: a word of four
/// letters and a space, the path, and what begins with the last " (offset".
pub open spec fn gives_path(line: Seq<char>, v: Seq<char>) -> bool {
    let t = trimmed(line);
    let end = 5 + v.len() as int;
    &&& has_prefix(t, "name "@) || has_prefix(t, "path "@)
    &&& text::occurs_at(t, " (offset"@, end)
    &&& forall|k: int| end < k ==> !text::occurs_at(t, " (offset"@, k)
    &&& v == t.subrange(5, end)
    &&& has_part(v, "@@HOMEBREW"@)
}

/// The lines that give the path of a library to load.
pub open spec fn load_lines(lines: Seq<Seq<char>>) -> spec_fn(int, Seq<char>) -> bool {
    |i: int, v: Seq<char>|
        gives_path(lines[i], v) && (stands_under(lines, i, "LC_LOAD_DYLIB"@) || stands_under(
            lines,
            i,
            "LC_LOAD_WEAK_DYLIB"@,
        ) || stands_under(lines, i, "LC_REEXPORT_DYLIB"@))
}

/// The lines that give a search path for libraries.
pub open spec fn rpath_lines(lines: Seq<Seq<char>>) -> spec_fn(int, Seq<char>) -> bool {
    |i: int, v: Seq<char>| gives_path(lines[i], v) && stands_under(lines, i, "LC_RPATH"@)
}

/// The lines that give the name of the library itself.
pub open spec fn id_lines(lines: Seq<Seq<char>>) -> spec_fn(int, Seq<char>) -> bool {
    |i: int, v: Seq<char>| gives_path(lines[i], v) && stands_under(lines, i, "LC_ID_DYLIB"@)
}

/// The names of the load commands differ, and so do the words that lines begin
/// with.
proof fn lemma_listing_words()
    ensures
        "cmd "@.len() == 4,
        "name "@.len() == 5,
        "path "@.len() == 5,
        " (offset"@.len() == 8,
        "cmd "@[0] == 'c',
        "name "@[0] == 'n',
        "path "@[0] == 'p',
        "LC_ID_DYLIB"@ != "LC_RPATH"@,
        "LC_LOAD_DYLIB"@ != "LC_RPATH"@,
        "LC_LOAD_WEAK_DYLIB"@ != "LC_RPATH"@,
        "LC_REEXPORT_DYLIB"@ != "LC_RPATH"@,
        "LC_ID_DYLIB"@ != "LC_LOAD_DYLIB"@,
        "LC_ID_DYLIB"@ != "LC_LOAD_WEAK_DYLIB"@,
        "LC_ID_DYLIB"@ != "LC_REEXPORT_DYLIB"@,
{
    reveal_strlit("cmd ");
    reveal_strlit("name ");
    reveal_strlit("path ");
    reveal_strlit(" (offset");
    reveal_strlit("LC_ID_DYLIB");
    reveal_strlit("LC_LOAD_DYLIB");
    reveal_strlit("LC_LOAD_WEAK_DYLIB");
    reveal_strlit("LC_REEXPORT_DYLIB");
    reveal_strlit("LC_RPATH");
    assert("LC_ID_DYLIB"@.len() == 11);
    assert("LC_LOAD_DYLIB"@.len() == 13);
    assert("LC_LOAD_WEAK_DYLIB"@.len() == 18);
    assert("LC_REEXPORT_DYLIB"@.len() == 17);
    assert("LC_RPATH"@.len() == 8);
}

/// What stands before the last occurrence.
proof fn lemma_gives_path(line: Seq<char>, v: Seq<char>)
    ensures
        gives_path(line, v) <==> text::stripped(trimmed(line), "cmd "@) is None && listed_path(trimmed(line))
            == Some(v) && has_part(v, any_mark()),
{
    let t = trimmed(line);
    let p = " (offset"@;
    lemma_listing_words();
    if has_prefix(t, "name "@) {
        assert(t.take(5)[0] == t[0]);
    }
    if has_prefix(t, "path "@) {
        assert(t.take(5)[0] == t[0]);
    }
    if has_prefix(t, "cmd "@) {
        assert(t.take(4)[0] == t[0]);
    }
    if has_prefix(t, "name "@) || has_prefix(t, "path "@) {
        let rest = t.skip(5);
        assert forall|k: int| text::occurs_at(rest, p, k) implies text::occurs_at(t, p, k + 5) by {
            assert(rest.subrange(k, k + 8) =~= t.subrange(k + 5, k + 13));
        }
        assert forall|k: int| 5 <= k && text::occurs_at(t, p, k) implies text::occurs_at(rest, p, k - 5) by {
            assert(rest.subrange(k - 5, k + 3) =~= t.subrange(k, k + 8));
        }
        text::law_until_last_stops_at_the_last(rest, p);
        if gives_path(line, v) {
            let at = v.len() as int;
            assert(text::occurs_at(rest, p, at));
            match until_last(rest, p) {
                Some(u) => {
                    assert(text::occurs_at(t, p, u.len() as int + 5));
                    if u.len() < at {
                        assert(!text::occurs_at(rest, p, at));
                    }
                    assert(u.len() == at);
                    assert(u =~= v);
                },
                None => {},
            }
        }
        if until_last(rest, p) == Some(v) {
            let end = 5 + v.len() as int;
            assert(text::occurs_at(t, p, v.len() as int + 5));
            assert forall|k: int| end < k implies !text::occurs_at(t, p, k) by {
                if text::occurs_at(t, p, k) {
                    assert(text::occurs_at(rest, p, k - 5));
                }
            }
            assert(t.subrange(5, end) =~= v);
        }
    }
}

/// The load command that a line stands under is the one that the lines before
/// it end with.
proof fn lemma_stands_under(lines: Seq<Seq<char>>, n: int, cmd: Seq<char>)
    requires
        0 <= n <= lines.len(),
        command_of(cmd) != LoadCommand::Other,
        stands_under(lines, n, cmd),
    ensures
        scanned(lines.take(n)).0 == command_of(cmd),
    decreases n,
{
    let k = choose|k: int|
        0 <= k < n && trimmed(#[trigger] lines[k]) == "cmd "@ + cmd && forall|q: int|
            k < q < n ==> !has_prefix(trimmed(#[trigger] lines[q]), "cmd "@);
    let some = lines.take(n);
    assert(some.drop_last() =~= lines.take(n - 1));
    assert(some.last() == lines[n - 1]);
    if k == n - 1 {
        assert(("cmd "@ + cmd).take("cmd "@.len() as int) =~= "cmd "@);
        assert(("cmd "@ + cmd).skip("cmd "@.len() as int) =~= cmd);
    } else {
        assert(stands_under(lines, n - 1, cmd));
        lemma_stands_under(lines, n - 1, cmd);
    }
}

/// The load command that the first lines end with is named by one of them.
proof fn lemma_scanned_command(lines: Seq<Seq<char>>, n: int) -> (cmd: Seq<char>)
    requires
        0 <= n <= lines.len(),
        scanned(lines.take(n)).0 != LoadCommand::Other,
    ensures
        stands_under(lines, n, cmd),
        command_of(cmd) == scanned(lines.take(n)).0,
    decreases n,
{
    let some = lines.take(n);
    if n == 0 {
        Seq::empty()
    } else {
        assert(some.drop_last() =~= lines.take(n - 1));
        assert(some.last() == lines[n - 1]);
        let t = trimmed(lines[n - 1]);
        match text::stripped(t, "cmd "@) {
            Some(cmd) => {
                assert(t =~= "cmd "@ + cmd);
                cmd
            },
            None => {
                let cmd = lemma_scanned_command(lines, n - 1);
                let k = choose|k: int|
                    0 <= k < n - 1 && trimmed(#[trigger] lines[k]) == "cmd "@ + cmd && forall|q: int|
                        k < q < n - 1 ==> !has_prefix(trimmed(#[trigger] lines[q]), "cmd "@);
                assert(trimmed(lines[k]) == "cmd "@ + cmd);
                assert(stands_under(lines, n, cmd));
                cmd
            },
        }
    }
}

/// Which load command the lines before `n` end with, in terms of its names.
proof fn lemma_command_names(lines: Seq<Seq<char>>, n: int)
    requires
        0 <= n <= lines.len(),
    ensures
        (scanned(lines.take(n)).0 == LoadCommand::Load) == (stands_under(lines, n, "LC_LOAD_DYLIB"@)
            || stands_under(lines, n, "LC_LOAD_WEAK_DYLIB"@) || stands_under(
            lines,
            n,
            "LC_REEXPORT_DYLIB"@,
        )),
        (scanned(lines.take(n)).0 == LoadCommand::Rpath) == stands_under(lines, n, "LC_RPATH"@),
        (scanned(lines.take(n)).0 == LoadCommand::Id) == stands_under(lines, n, "LC_ID_DYLIB"@),
{
    lemma_listing_words();
    if stands_under(lines, n, "LC_LOAD_DYLIB"@) {
        lemma_stands_under(lines, n, "LC_LOAD_DYLIB"@);
    }
    if stands_under(lines, n, "LC_LOAD_WEAK_DYLIB"@) {
        lemma_stands_under(lines, n, "LC_LOAD_WEAK_DYLIB"@);
    }
    if stands_under(lines, n, "LC_REEXPORT_DYLIB"@) {
        lemma_stands_under(lines, n, "LC_REEXPORT_DYLIB"@);
    }
    if stands_under(lines, n, "LC_RPATH"@) {
        lemma_stands_under(lines, n, "LC_RPATH"@);
    }
    if stands_under(lines, n, "LC_ID_DYLIB"@) {
        lemma_stands_under(lines, n, "LC_ID_DYLIB"@);
    }
    if scanned(lines.take(n)).0 != LoadCommand::Other {
        let cmd = lemma_scanned_command(lines, n);
    }
}

/// What the first lines of a listing hold.
proof fn lemma_scanned_refs(lines: Seq<Seq<char>>, n: int)
    requires
        0 <= n <= lines.len(),
    ensures
        ({
            let refs = scanned(lines.take(n)).1;
            &&& picks(n, load_lines(lines), refs.loads)
            &&& picks(n, rpath_lines(lines), refs.rpaths)
            &&& names_library(lines, n, refs.id)
        }),
    decreases n,
{
    let loads = load_lines(lines);
    let rpaths = rpath_lines(lines);
    let ids = id_lines(lines);
    if n == 0 {
        assert(lines.take(0) =~= Seq::empty());
        picks::lemma_pick_start(loads);
        picks::lemma_pick_start(rpaths);
    } else {
        let m = n - 1;
        lemma_scanned_refs(lines, m);
        lemma_command_names(lines, m);
        let some = lines.take(n);
        assert(some.drop_last() =~= lines.take(m));
        assert(some.last() == lines[m]);
        let (current, before) = scanned(lines.take(m));
        let after = scanned(some).1;
        let line = lines[m];
        assert forall|v: Seq<char>| #[trigger] gives_path(line, v) == (text::stripped(
            trimmed(line),
            "cmd "@,
        ) is None && listed_path(trimmed(line)) == Some(v) && has_part(v, any_mark())) by {
            lemma_gives_path(line, v);
        }
        assert(forall|v: Seq<char>| #[trigger]
            loads(m, v) == (gives_path(line, v) && current == LoadCommand::Load));
        assert(forall|v: Seq<char>| #[trigger]
            rpaths(m, v) == (gives_path(line, v) && current == LoadCommand::Rpath));
        assert(forall|v: Seq<char>| #[trigger]
            ids(m, v) == (gives_path(line, v) && current == LoadCommand::Id));
        let given = if text::stripped(trimmed(line), "cmd "@) is None {
            listed_path(trimmed(line))
        } else {
            None
        };
        match given {
            Some(v) if has_part(v, any_mark()) => {
                assert(gives_path(line, v));
                if current == LoadCommand::Load {
                    assert(loads(m, v));
                    picks::lemma_pick_one(m, loads, before.loads, v);
                } else {
                    picks::lemma_pick_none(m, loads, before.loads);
                }
                if current == LoadCommand::Rpath {
                    assert(rpaths(m, v));
                    picks::lemma_pick_one(m, rpaths, before.rpaths, v);
                } else {
                    picks::lemma_pick_none(m, rpaths, before.rpaths);
                }
                if current == LoadCommand::Id {
                    assert(ids(m, v));
                    assert(after.id == Some(v));
                }
            },
            _ => {
                picks::lemma_pick_none(m, loads, before.loads);
                picks::lemma_pick_none(m, rpaths, before.rpaths);
            },
        }
        if !(exists|v: Seq<char>| #[trigger] ids(m, v)) {
            assert(after.id == before.id);
            match before.id {
                Some(v) => {
                    let k = choose|k: int|
                        0 <= k < m && #[trigger] ids(k, v) && forall|q: int, u: Seq<char>|
                            k < q < m ==> !#[trigger] ids(q, u);
                    assert(ids(k, v));
                    assert forall|q: int, u: Seq<char>| k < q < n implies !#[trigger] ids(q, u) by {}
                },
                None => {
                    assert forall|q: int, u: Seq<char>| 0 <= q < n implies !#[trigger] ids(q, u) by {}
                },
            }
        }
    }
}

/// `id` is what the last of the first `n` lines gives that give the name of the
/// library; nothing where none does.
pub open spec fn names_library(lines: Seq<Seq<char>>, n: int, id: Option<Seq<char>>) -> bool {
    match id {
        Some(v) => exists|k: int|
            0 <= k < n && #[trigger] id_lines(lines)(k, v) && forall|q: int, u: Seq<char>|
                k < q < n ==> !#[trigger] id_lines(lines)(q, u),
        None => forall|q: int, u: Seq<char>| 0 <= q < n ==> !#[trigger] id_lines(lines)(q, u),
    }
}

/// Law: every load command that bears a placeholder is found. There is one path
/// for each line that gives a library to load, in the order of the lines, one
/// for each line that gives a search path, and the last name of the library.
pub proof fn law_every_load_command_is_found(lines: Seq<Seq<char>>)
    ensures
        ({
            let refs = scanned(lines).1;
            &&& picks(lines.len() as int, load_lines(lines), refs.loads)
            &&& picks(lines.len() as int, rpath_lines(lines), refs.rpaths)
            &&& names_library(lines, lines.len() as int, refs.id)
        }),
{
    lemma_scanned_refs(lines, lines.len() as int);
    assert(lines.take(lines.len() as int) =~= lines);
}

/// Law: a reference goes to the keg of the version that is given for the
/// formula, and through the mutable link only where none is given.
pub proof fn law_pins_lead_to_versions(
    name: Seq<char>,
    prefix: Seq<char>,
    cellar: Seq<char>,
    deps: Map<Seq<char>, Seq<char>>,
)
    ensures
        deps.contains_key(name) ==> pin(name, prefix, cellar, deps) == cellar + "/"@ + name + "/"@ + deps[name],
        !deps.contains_key(name) ==> pin(name, prefix, cellar, deps) == prefix + "/opt/"@ + name,
{
}

/// Law: the other placeholders become the paths that they stand for: that of the
/// cellar the cellar, that of the library the library below the prefix, that of
/// the prefix the prefix, and the text around them stays.
pub proof fn law_placeholders_become_paths(
    tail: Seq<char>,
    prefix: Seq<char>,
    cellar: Seq<char>,
    deps: Map<Seq<char>, Seq<char>>,
)
    requires
        !tail.contains('@'),
        !prefix.contains('@'),
        !cellar.contains('@'),
        !has_prefix(tail, "/opt/"@),
    ensures
        substituted(prefix_mark() + tail, prefix, cellar, deps) == prefix + tail,
        substituted(cellar_mark() + tail, prefix, cellar, deps) == cellar + tail,
        substituted(library_mark() + tail, prefix, cellar, deps) == prefix + "/Library"@ + tail,
{
    lemma_prefix_becomes(tail, prefix, cellar, deps);
    lemma_cellar_becomes(tail, prefix, cellar, deps);
    lemma_library_becomes(tail, prefix, cellar, deps);
}

/// The eleventh letters tell the placeholders apart.
proof fn lemma_mark_letters()
    ensures
        prefix_mark()[11] == 'P',
        cellar_mark()[11] == 'C',
        library_mark()[11] == 'L',
        prefix_mark().len() == 19,
        opt_mark().len() == 24,
        opt_mark().skip(19) == "/opt/"@,
        "/opt/"@.len() == 5,
{
    reveal_strlit("@@HOMEBREW_PREFIX@@");
    reveal_strlit("@@HOMEBREW_CELLAR@@");
    reveal_strlit("@@HOMEBREW_LIBRARY@@");
    reveal_strlit("@@HOMEBREW_PREFIX@@/opt/");
    reveal_strlit("/opt/");
    assert(opt_mark().skip(19) =~= "/opt/"@);
}

/// The placeholder for the cellar becomes the cellar.
proof fn lemma_cellar_becomes(
    tail: Seq<char>,
    prefix: Seq<char>,
    cellar: Seq<char>,
    deps: Map<Seq<char>, Seq<char>>,
)
    requires
        !tail.contains('@'),
        !prefix.contains('@'),
        !cellar.contains('@'),
    ensures
        substituted(cellar_mark() + tail, prefix, cellar, deps) == cellar + tail,
{
    lemma_mark_replaced(cellar_mark(), tail, cellar);
    lemma_without_signs(cellar, tail);
    lemma_plain_after(cellar + tail, prefix, cellar, deps);
}

/// The placeholder for the library becomes the library.
proof fn lemma_library_becomes(
    tail: Seq<char>,
    prefix: Seq<char>,
    cellar: Seq<char>,
    deps: Map<Seq<char>, Seq<char>>,
)
    requires
        !tail.contains('@'),
        !prefix.contains('@'),
        !cellar.contains('@'),
    ensures
        substituted(library_mark() + tail, prefix, cellar, deps) == prefix + "/Library"@ + tail,
{
    let l = library_mark() + tail;
    let library = prefix + "/Library"@;
    lemma_marks();
    lemma_mark_letters();
    lemma_one_mark(library_mark(), tail);
    assert(!has_part(l, cellar_mark()));
    text::lemma_replaced_absent(l, cellar_mark(), cellar);
    lemma_mark_replaced(library_mark(), tail, library);
    assert(!"/Library"@.contains('@')) by {
        reveal_strlit("/Library");
    }
    lemma_without_signs(prefix, "/Library"@);
    lemma_without_signs(library, tail);
    lemma_plain_after(library + tail, prefix, cellar, deps);
}

/// The placeholder for the prefix becomes the prefix.
proof fn lemma_prefix_becomes(
    tail: Seq<char>,
    prefix: Seq<char>,
    cellar: Seq<char>,
    deps: Map<Seq<char>, Seq<char>>,
)
    requires
        !tail.contains('@'),
        !prefix.contains('@'),
        !cellar.contains('@'),
        !has_prefix(tail, "/opt/"@),
    ensures
        substituted(prefix_mark() + tail, prefix, cellar, deps) == prefix + tail,
{
    let p = prefix_mark() + tail;
    let library = prefix + "/Library"@;
    lemma_marks();
    lemma_mark_letters();
    lemma_one_mark(prefix_mark(), tail);
    assert(!has_part(p, cellar_mark()));
    text::lemma_replaced_absent(p, cellar_mark(), cellar);
    assert(!has_part(p, library_mark()));
    text::lemma_replaced_absent(p, library_mark(), library);
    assert(!has_part(p, opt_mark())) by {
        if has_part(p, opt_mark()) {
            let k = choose|k: int| text::occurs_at(p, opt_mark(), k);
            lemma_mark_place(prefix_mark(), tail, opt_mark(), k);
            assert(p.subrange(0, 24).skip(19) =~= p.subrange(19, 24));
            assert(tail.take(5) =~= p.subrange(19, 24));
        }
    }
    lemma_pinned_absent(p, prefix, cellar, deps);
    lemma_mark_replaced(prefix_mark(), tail, prefix);
}

/// A text without at signs stays as it is.
proof fn lemma_plain_after(
    s: Seq<char>,
    prefix: Seq<char>,
    cellar: Seq<char>,
    deps: Map<Seq<char>, Seq<char>>,
)
    requires
        !s.contains('@'),
    ensures
        !has_part(s, prefix_mark()) && !has_part(s, cellar_mark()) && !has_part(s, library_mark()) && !has_part(
            s,
            opt_mark(),
        ),
        replaced(s, library_mark(), prefix + "/Library"@) == s,
        pinned(s, prefix, cellar, deps) == s,
        replaced(s, prefix_mark(), prefix) == s,
{
    lemma_marks();
    lemma_no_sign_no_part(s, prefix_mark());
    lemma_no_sign_no_part(s, cellar_mark());
    lemma_no_sign_no_part(s, library_mark());
    lemma_no_sign_no_part(s, opt_mark());
    text::lemma_replaced_absent(s, library_mark(), prefix + "/Library"@);
    lemma_pinned_absent(s, prefix, cellar, deps);
    text::lemma_replaced_absent(s, prefix_mark(), prefix);
}

/// A text without at signs holds nothing that begins with one.
proof fn lemma_no_sign_no_part(s: Seq<char>, p: Seq<char>)
    requires
        !s.contains('@'),
        p.len() > 0,
        p[0] == '@',
    ensures
        !has_part(s, p),
{
    if has_part(s, p) {
        let k = choose|k: int| text::occurs_at(s, p, k);
        assert(s.subrange(k, k + p.len())[0] == s[k]);
    }
}

/// Two texts without at signs make up one.
proof fn lemma_without_signs(a: Seq<char>, b: Seq<char>)
    requires
        !a.contains('@'),
        !b.contains('@'),
    ensures
        !(a + b).contains('@'),
{
    if (a + b).contains('@') {
        let k = choose|k: int| 0 <= k < (a + b).len() && (a + b)[k] == '@';
        if k < a.len() {
            assert(a[k] == '@');
        } else {
            assert(b[k - a.len()] == '@');
        }
    }
}

/// A placeholder before a text without at signs stands at the front.
proof fn lemma_mark_place(mark: Seq<char>, tail: Seq<char>, p: Seq<char>, k: int)
    requires
        mark == prefix_mark() || mark == cellar_mark() || mark == library_mark(),
        p == prefix_mark() || p == cellar_mark() || p == library_mark() || p == opt_mark(),
        !tail.contains('@'),
        text::occurs_at(mark + tail, p, k),
    ensures
        k == 0,
{
    reveal_strlit("@@HOMEBREW_PREFIX@@");
    reveal_strlit("@@HOMEBREW_CELLAR@@");
    reveal_strlit("@@HOMEBREW_LIBRARY@@");
    reveal_strlit("@@HOMEBREW_PREFIX@@/opt/");
    let s = mark + tail;
    assert(s.subrange(k, k + p.len())[0] == s[k]);
    assert(s.subrange(k, k + p.len())[1] == s[k + 1]);
    assert(s.subrange(k, k + p.len())[2] == s[k + 2]);
    assert(p[0] == '@' && p[1] == '@' && p[2] == 'H');
    if k >= mark.len() {
        assert(tail[k - mark.len()] == '@');
    } else if k > 0 {
        assert(mark[k] == '@');
        if k + 1 >= mark.len() {
            assert(tail[k + 1 - mark.len()] == '@');
        } else {
            assert(mark[k + 1] == '@');
            assert(k == mark.len() - 2);
            assert(k + 2 == mark.len());
            assert(s[k + 2] == tail[0]);
            lemma_not_followed(mark, tail, p, k);
        }
    }
}

/// No second placeholder begins with the last two signs of the first.
proof fn lemma_not_followed(mark: Seq<char>, tail: Seq<char>, p: Seq<char>, k: int)
    requires
        p == prefix_mark() || p == cellar_mark() || p == library_mark() || p == opt_mark(),
        !tail.contains('@'),
        k == mark.len() - 2,
    ensures
        !text::occurs_at(mark + tail, p, k),
{
    reveal_strlit("@@HOMEBREW_PREFIX@@");
    reveal_strlit("@@HOMEBREW_CELLAR@@");
    reveal_strlit("@@HOMEBREW_LIBRARY@@");
    reveal_strlit("@@HOMEBREW_PREFIX@@/opt/");
    let s = mark + tail;
    if text::occurs_at(s, p, k) {
        let e: int = if p == library_mark() {
            18
        } else {
            17
        };
        assert(p[e] == '@');
        assert(s.subrange(k, k + p.len())[e] == s[k + e]);
        assert(s[k + e] == tail[e - 2]);
        assert(tail.contains(tail[e - 2]));
    }
}

/// Which placeholder stands in a placeholder with a text behind it.
proof fn lemma_one_mark(mark: Seq<char>, tail: Seq<char>)
    requires
        mark == prefix_mark() || mark == cellar_mark() || mark == library_mark(),
        !tail.contains('@'),
    ensures
        forall|p: Seq<char>|
            (p == prefix_mark() || p == cellar_mark() || p == library_mark()) && #[trigger] has_part(
                mark + tail,
                p,
            ) ==> p[11] == mark[11],
{
    reveal_strlit("@@HOMEBREW_PREFIX@@");
    reveal_strlit("@@HOMEBREW_CELLAR@@");
    reveal_strlit("@@HOMEBREW_LIBRARY@@");
    let s = mark + tail;
    assert forall|p: Seq<char>|
        (p == prefix_mark() || p == cellar_mark() || p == library_mark()) && #[trigger] has_part(
            s,
            p,
        ) implies p[11] == mark[11] by {
        let k = choose|k: int| text::occurs_at(s, p, k);
        lemma_mark_place(mark, tail, p, k);
        assert(s.subrange(0, p.len() as int)[11] == s[11]);
    }
}

/// Replacing a placeholder with a text behind it.
proof fn lemma_mark_replaced(mark: Seq<char>, tail: Seq<char>, to: Seq<char>)
    requires
        mark == prefix_mark() || mark == cellar_mark() || mark == library_mark(),
        !tail.contains('@'),
    ensures
        replaced(mark + tail, mark, to) == to + tail,
{
    lemma_marks();
    let s = mark + tail;
    assert(s.take(mark.len() as int) =~= mark);
    assert(s.skip(mark.len() as int) =~= tail);
    lemma_no_sign_no_part(tail, mark);
    text::lemma_replaced_absent(tail, mark, to);
}

/// Law: a file is a Mach-O file if and only if it begins with the magic number of
/// one: of 32 or 64 bits, in either order of bytes, or of a fat file.
pub proof fn law_magic_numbers(b: Seq<u8>)
    requires
        b.len() == 4,
    ensures
        macho_magic(big_endian(b)) <==> {
            ||| b == seq![0xfeu8, 0xedu8, 0xfau8, 0xceu8]
            ||| b == seq![0xfeu8, 0xedu8, 0xfau8, 0xcfu8]
            ||| b == seq![0xceu8, 0xfau8, 0xedu8, 0xfeu8]
            ||| b == seq![0xcfu8, 0xfau8, 0xedu8, 0xfeu8]
            ||| b == seq![0xcau8, 0xfeu8, 0xbau8, 0xbeu8]
            ||| b == seq![0xcau8, 0xfeu8, 0xbau8, 0xbfu8]
        },
{
    let all = seq![
        seq![0xfeu8, 0xedu8, 0xfau8, 0xceu8],
        seq![0xfeu8, 0xedu8, 0xfau8, 0xcfu8],
        seq![0xceu8, 0xfau8, 0xedu8, 0xfeu8],
        seq![0xcfu8, 0xfau8, 0xedu8, 0xfeu8],
        seq![0xcau8, 0xfeu8, 0xbau8, 0xbeu8],
        seq![0xcau8, 0xfeu8, 0xbau8, 0xbfu8],
    ];
    if macho_magic(big_endian(b)) {
        if b[0] == 0xfe && b[3] == 0xce {
            assert(b =~= all[0]);
        } else if b[0] == 0xfe {
            assert(b =~= all[1]);
        } else if b[0] == 0xce {
            assert(b =~= all[2]);
        } else if b[0] == 0xcf {
            assert(b =~= all[3]);
        } else if b[3] == 0xbe {
            assert(b =~= all[4]);
        } else {
            assert(b =~= all[5]);
        }
    }
}

/// The three arguments for one path.
pub open spec fn renames(
    args: Seq<Seq<char>>,
    at: int,
    flag: Seq<char>,
    path: Seq<char>,
    prefix: Seq<char>,
    cellar: Seq<char>,
    deps: Map<Seq<char>, Seq<char>>,
) -> bool {
    &&& 0 <= at <= args.len() - 3
    &&& args[at] == flag
    &&& args[at + 1] == path
    &&& args[at + 2] == substituted(path, prefix, cellar, deps)
}

/// The arguments for several paths.
proof fn lemma_renamings(
    flag: Seq<char>,
    paths: Seq<Seq<char>>,
    prefix: Seq<char>,
    cellar: Seq<char>,
    deps: Map<Seq<char>, Seq<char>>,
)
    ensures
        renamings(flag, paths, prefix, cellar, deps).len() == 3 * paths.len(),
        forall|i: int|
            0 <= i < paths.len() ==> renames(
                renamings(flag, paths, prefix, cellar, deps),
                3 * i,
                flag,
                #[trigger] paths[i],
                prefix,
                cellar,
                deps,
            ),
    decreases paths.len(),
{
    if paths.len() > 0 {
        let init = paths.drop_last();
        lemma_renamings(flag, init, prefix, cellar, deps);
        let before = renamings(flag, init, prefix, cellar, deps);
        let all = renamings(flag, paths, prefix, cellar, deps);
        assert forall|i: int| 0 <= i < paths.len() implies renames(
            all,
            3 * i,
            flag,
            #[trigger] paths[i],
            prefix,
            cellar,
            deps,
        ) by {
            if i < init.len() {
                assert(init[i] == paths[i]);
                assert(renames(before, 3 * i, flag, init[i], prefix, cellar, deps));
            }
        }
    }
}

/// Law: every path that was found gets rewritten: the name of the library first,
/// then each library to load, in order, then each search path, each from what it
/// is to what it becomes; the file comes last. There is nothing to do only where
/// nothing was found.
pub proof fn law_every_reference_is_renamed(
    refs: MachoRefsV,
    path: Seq<char>,
    prefix: Seq<char>,
    cellar: Seq<char>,
    deps: Map<Seq<char>, Seq<char>>,
)
    ensures
        rename_args(refs, path, prefix, cellar, deps) is None <==> refs.id is None && refs.loads.len() == 0
            && refs.rpaths.len() == 0,
        rename_args(refs, path, prefix, cellar, deps) matches Some(args) ==> {
            let at = if refs.id is Some {
                2int
            } else {
                0int
            };
            let then = at + 3 * refs.loads.len();
            &&& args.len() == then + 3 * refs.rpaths.len() + 1
            &&& refs.id matches Some(id) ==> args[0] == "-id"@ && args[1] == substituted(id, prefix, cellar, deps)
            &&& forall|i: int|
                0 <= i < refs.loads.len() ==> renames(
                    args,
                    at + 3 * i,
                    "-change"@,
                    #[trigger] refs.loads[i],
                    prefix,
                    cellar,
                    deps,
                )
            &&& forall|i: int|
                0 <= i < refs.rpaths.len() ==> renames(
                    args,
                    then + 3 * i,
                    "-rpath"@,
                    #[trigger] refs.rpaths[i],
                    prefix,
                    cellar,
                    deps,
                )
            &&& args.last() == path
        },
{
    lemma_renamings("-change"@, refs.loads, prefix, cellar, deps);
    lemma_renamings("-rpath"@, refs.rpaths, prefix, cellar, deps);
    let c = renamings("-change"@, refs.loads, prefix, cellar, deps);
    let r = renamings("-rpath"@, refs.rpaths, prefix, cellar, deps);
    if let Some(args) = rename_args(refs, path, prefix, cellar, deps) {
        let at = if refs.id is Some {
            2int
        } else {
            0int
        };
        let then = at + 3 * refs.loads.len();
        assert forall|i: int| 0 <= i < refs.loads.len() implies renames(
            args,
            at + 3 * i,
            "-change"@,
            #[trigger] refs.loads[i],
            prefix,
            cellar,
            deps,
        ) by {
            assert(renames(c, 3 * i, "-change"@, refs.loads[i], prefix, cellar, deps));
            assert(args[at + 3 * i] == c[3 * i]);
            assert(args[at + 3 * i + 1] == c[3 * i + 1]);
            assert(args[at + 3 * i + 2] == c[3 * i + 2]);
        }
        assert forall|i: int| 0 <= i < refs.rpaths.len() implies renames(
            args,
            then + 3 * i,
            "-rpath"@,
            #[trigger] refs.rpaths[i],
            prefix,
            cellar,
            deps,
        ) by {
            assert(renames(r, 3 * i, "-rpath"@, refs.rpaths[i], prefix, cellar, deps));
            assert(args[then + 3 * i] == r[3 * i]);
            assert(args[then + 3 * i + 1] == r[3 * i + 1]);
            assert(args[then + 3 * i + 2] == r[3 * i + 2]);
        }
    }
}

/// Law: a file whose load commands cannot be listed is left alone; any other is
/// edited with what its listing asks for.
pub proof fn law_unlisted_files_are_left_alone(
    output: Seq<char>,
    path: Seq<char>,
    prefix: Seq<char>,
    cellar: Seq<char>,
    deps: Map<Seq<char>, Seq<char>>,
)
    ensures
        edit_args(None, path, prefix, cellar, deps) is None,
        edit_args(Some(output), path, prefix, cellar, deps) == rename_args(
            scanned(line_seq(output)).1,
            path,
            prefix,
            cellar,
            deps,
        ),
{
}

/// Law: a file is marked if and only if the bytes of "@@HOMEBREW" stand between
/// some of its bytes and others.
pub proof fn law_marks_stand_anywhere(bytes: Seq<u8>, m: Seq<u8>)
    requires
        m == seq![64u8, 64u8, 72u8, 79u8, 77u8, 69u8, 66u8, 82u8, 69u8, 87u8],
    ensures
        (exists|i: int| marked_at(bytes, i)) <==> exists|x: Seq<u8>, y: Seq<u8>|
            bytes == #[trigger] (x + m + y),
{
    assert(m =~= marker_bytes());
    if exists|i: int| marked_at(bytes, i) {
        let i = choose|i: int| marked_at(bytes, i);
        assert(bytes =~= bytes.take(i) + m + bytes.skip(i + 10)) by {
            assert(bytes.subrange(i, i + 10) == m);
            assert forall|k: int| i <= k < i + 10 implies bytes[k] == m[k - i] by {
                assert(bytes.subrange(i, i + 10)[k - i] == bytes[k]);
            }
        }
    }
    if exists|x: Seq<u8>, y: Seq<u8>| bytes == #[trigger] (x + m + y) {
        let (x, y) = choose|x: Seq<u8>, y: Seq<u8>| bytes == #[trigger] (x + m + y);
        assert(bytes.subrange(x.len() as int, x.len() as int + 10) =~= m);
        assert(marked_at(bytes, x.len() as int));
    }
}

/// Law: what is said of the references of a binary is what the fields hold.
pub proof fn law_references_are_read_as_they_are(r: MachoRefs)
    ensures
        r@.id == text::opt_text(r.id),
        r@.loads == texts(r.loads@),
        r@.rpaths == texts(r.rpaths@),
{
}

} // verus!
