//! What the post-install steps do to files, as lists of simple operations
//! that follow from what is found on disk.

use vstd::prelude::*;

use crate::path;
use crate::path::{below, last_name, parent_of};

verus! {

/// A single change to files. The operations of a list are performed in order,
/// and the first one that fails ends the step; those that try to remove
/// something never fail.
pub enum Op {
    /// Creates a directory with all its parents, unless it is there.
    CreateDirs(String),
    /// Creates an empty file.
    CreateFile(String),
    /// Removes a directory with all that is in it.
    RemoveDir(String),
    /// Removes a file or a link.
    RemoveFile(String),
    /// Removes a directory with all that is in it, if that is possible.
    TryRemoveDir(String),
    /// Removes a file or a link, if that is possible.
    TryRemoveFile(String),
    /// Makes a symbolic link at `target` to `source`.
    Link { source: String, target: String },
    /// Copies a file, or a directory with all that is in it.
    Copy { source: String, target: String },
    /// Moves a file or a directory.
    Rename { source: String, target: String },
    /// Makes `content` the content of a file.
    Write { path: String, content: String },
}

/// What an `Op` stands for.
pub enum OpV {
    CreateDirs(Seq<char>),
    CreateFile(Seq<char>),
    RemoveDir(Seq<char>),
    RemoveFile(Seq<char>),
    TryRemoveDir(Seq<char>),
    TryRemoveFile(Seq<char>),
    Link { source: Seq<char>, target: Seq<char> },
    Copy { source: Seq<char>, target: Seq<char> },
    Rename { source: Seq<char>, target: Seq<char> },
    Write { path: Seq<char>, content: Seq<char> },
}

impl View for Op {
    type V = OpV;

    open spec fn view(&self) -> OpV {
        match self {
            Op::CreateDirs(p) => OpV::CreateDirs(p@),
            Op::CreateFile(p) => OpV::CreateFile(p@),
            Op::RemoveDir(p) => OpV::RemoveDir(p@),
            Op::RemoveFile(p) => OpV::RemoveFile(p@),
            Op::TryRemoveDir(p) => OpV::TryRemoveDir(p@),
            Op::TryRemoveFile(p) => OpV::TryRemoveFile(p@),
            Op::Link { source, target } => OpV::Link { source: source@, target: target@ },
            Op::Copy { source, target } => OpV::Copy { source: source@, target: target@ },
            Op::Rename { source, target } => OpV::Rename { source: source@, target: target@ },
            Op::Write { path, content } => OpV::Write { path: path@, content: content@ },
        }
    }
}

/// What a list of operations stands for.
pub open spec fn op_views(v: Seq<Op>) -> Seq<OpV> {
    v.map_values(|o: Op| o@)
}

/// The operation that makes room for `p`.
pub open spec fn room_for(p: Seq<char>) -> Seq<OpV> {
    match parent_of(p) {
        Some(dir) => seq![OpV::CreateDirs(dir)],
        None => Seq::empty(),
    }
}

/// The operation that makes room for `p`.
fn make_room(p: &str) -> (r: Vec<Op>)
    ensures
        op_views(r@) == room_for(p@),
{
    let mut r: Vec<Op> = Vec::new();
    if let Some(dir) = path::parent(p) {
        r.push(Op::CreateDirs(dir));
    }
    assert(op_views(r@) =~= room_for(p@));
    r
}

/// Where something goes that is put at `dst`: inside it, under the name of
/// `src`, where `dst` is a directory.
pub open spec fn destination(dst: Seq<char>, dst_is_dir: bool, src: Seq<char>) -> Seq<char> {
    match last_name(src) {
        Some(name) if dst_is_dir => below(dst, name),
        _ => dst,
    }
}

/// cp/ln target semantics: an existing directory means "inside it".
pub fn into_dir(dst: &str, dst_is_dir: bool, src: &str) -> (r: String)
    ensures
        r@ == destination(dst@, dst_is_dir, src@),
{
    if dst_is_dir {
        if let Some(name) = path::file_name(src) {
            return path::join(dst, name.as_str());
        }
    }
    dst.to_string()
}

/// Makes a directory.
pub fn mkdir_ops(p: &str) -> (r: Vec<Op>)
    ensures
        op_views(r@) == seq![OpV::CreateDirs(p@)],
{
    let mut r: Vec<Op> = Vec::new();
    r.push(Op::CreateDirs(p.to_string()));
    assert(op_views(r@) =~= seq![OpV::CreateDirs(p@)]);
    r
}

/// The operations that make a file unless it is there.
pub open spec fn touching(p: Seq<char>, present: bool) -> Seq<OpV> {
    room_for(p) + if present {
        Seq::empty()
    } else {
        seq![OpV::CreateFile(p)]
    }
}

/// Makes a file unless it is there.
pub fn touch_ops(p: &str, present: bool) -> (r: Vec<Op>)
    ensures
        op_views(r@) == touching(p@, present),
{
    let mut r = make_room(p);
    if !present {
        r.push(Op::CreateFile(p.to_string()));
    }
    assert(op_views(r@) =~= touching(p@, present));
    r
}

/// Removes a directory with all that is in it, or a file, and does not mind
/// where that fails.
pub fn remove_ops(p: &str, is_dir: bool) -> (r: Vec<Op>)
    ensures
        op_views(r@) == seq![
            if is_dir {
                OpV::TryRemoveDir(p@)
            } else {
                OpV::TryRemoveFile(p@)
            },
        ],
{
    let mut r: Vec<Op> = Vec::new();
    if is_dir {
        r.push(Op::TryRemoveDir(p.to_string()));
    } else {
        r.push(Op::TryRemoveFile(p.to_string()));
    }
    assert(op_views(r@) =~= seq![
        if is_dir {
            OpV::TryRemoveDir(p@)
        } else {
            OpV::TryRemoveFile(p@)
        },
    ]);
    r
}

/// The operations that link `d` to `src`, removing what is at `d` first where
/// that is asked for.
pub open spec fn linking(src: Seq<char>, d: Seq<char>, force: bool) -> Seq<OpV> {
    room_for(d) + if force {
        seq![OpV::TryRemoveFile(d)]
    } else {
        Seq::empty()
    } + seq![OpV::Link { source: src, target: d }]
}

/// Links one source. ln semantics: an existing directory target means "link
/// inside it".
pub fn symlink_ops(src: &str, dst: &str, dst_is_dir: bool, force: bool) -> (r: Vec<Op>)
    ensures
        op_views(r@) == linking(src@, destination(dst@, dst_is_dir, src@), force),
{
    let d = into_dir(dst, dst_is_dir, src);
    link_ops(src, d, force)
}

/// Links `d` to `src`.
fn link_ops(src: &str, d: String, force: bool) -> (r: Vec<Op>)
    ensures
        op_views(r@) == linking(src@, d@, force),
{
    let ghost at = d@;
    let mut r = make_room(d.as_str());
    if force {
        r.push(Op::TryRemoveFile(d.clone()));
    }
    r.push(Op::Link { source: src.to_string(), target: d });
    assert(op_views(r@) =~= linking(src@, at, force));
    r
}

/// Links a directory. Unlike with `symlink_ops`, the target is always the
/// link's own name.
pub fn link_dir_ops(src: &str, dst: &str) -> (r: Vec<Op>)
    ensures
        op_views(r@) == linking(src@, dst@, true),
{
    link_ops(src, dst.to_string(), true)
}

/// Links one entry of the directory `src` in the directory `dst`, under its
/// name with `suffix` behind it.
pub fn link_child_ops(src: &str, dst: &str, name: &str, suffix: &str) -> (r: Vec<Op>)
    ensures
        ({
            let link = below(dst@, name@ + suffix@);
            op_views(r@) == seq![
                OpV::TryRemoveFile(link),
                OpV::Link { source: below(src@, name@), target: link },
            ]
        }),
{
    let link = path::join(dst, name.to_string().concat(suffix).as_str());
    let ghost at = link@;
    let mut r: Vec<Op> = Vec::new();
    r.push(Op::TryRemoveFile(link.clone()));
    r.push(Op::Link { source: path::join(src, name), target: link });
    assert(op_views(r@) =~= seq![
        OpV::TryRemoveFile(at),
        OpV::Link { source: below(src@, name@), target: at },
    ]);
    r
}

/// Copies one source. cp semantics: an existing directory target means "copy
/// into it".
pub fn copy_ops(src: &str, dst: &str, dst_is_dir: bool) -> (r: Vec<Op>)
    ensures
        ({
            let d = destination(dst@, dst_is_dir, src@);
            op_views(r@) == room_for(d) + seq![OpV::Copy { source: src@, target: d }]
        }),
{
    let d = into_dir(dst, dst_is_dir, src);
    let ghost at = d@;
    let mut r = make_room(d.as_str());
    r.push(Op::Copy { source: src.to_string(), target: d });
    assert(op_views(r@) =~= room_for(at) + seq![OpV::Copy { source: src@, target: at }]);
    r
}

/// What is found at a path.
#[derive(PartialEq, Eq, Structural, Clone, Copy)]
pub enum Found {
    Nothing,
    File,
    Dir,
}

/// The operations that move `src` to `d`.
pub open spec fn moving(src: Seq<char>, d: Seq<char>, found: Found, overwrite: bool) -> Seq<OpV> {
    let clearing = if !overwrite || found == Found::Nothing {
        Seq::empty()
    } else if found == Found::Dir {
        seq![OpV::RemoveDir(d)]
    } else {
        seq![OpV::RemoveFile(d)]
    };
    room_for(d) + clearing + seq![OpV::Rename { source: src, target: d }]
}

/// Moves one source to `d`, where `found` is. What is there is removed first
/// where it may be overwritten.
pub fn move_ops(src: &str, d: &str, found: Found, overwrite: bool) -> (r: Vec<Op>)
    ensures
        op_views(r@) == moving(src@, d@, found, overwrite),
{
    let mut r = make_room(d);
    if overwrite {
        match found {
            Found::Nothing => {},
            Found::Dir => {
                r.push(Op::RemoveDir(d.to_string()));
            },
            Found::File => {
                r.push(Op::RemoveFile(d.to_string()));
            },
        }
    }
    r.push(Op::Rename { source: src.to_string(), target: d.to_string() });
    assert(op_views(r@) =~= moving(src@, d@, found, overwrite));
    r
}

/// The operations that write a file, unless it is there and may not be
/// overwritten.
pub open spec fn writing(p: Seq<char>, content: Seq<char>, present: bool, overwrite: bool) -> Seq<OpV> {
    room_for(p) + if overwrite || !present {
        seq![OpV::Write { path: p, content }]
    } else {
        Seq::empty()
    }
}

/// Writes a file; one that is there is kept unless it may be overwritten.
pub fn write_ops(p: &str, content: &str, present: bool, overwrite: bool) -> (r: Vec<Op>)
    ensures
        op_views(r@) == writing(p@, content@, present, overwrite),
{
    let mut r = make_room(p);
    if overwrite || !present {
        r.push(Op::Write { path: p.to_string(), content: content.to_string() });
    }
    assert(op_views(r@) =~= writing(p@, content@, present, overwrite));
    r
}

/// Whether a change of permissions takes along all that is below a path: it
/// does for a directory, unless the step forbids it.
pub fn takes_along(recursive: bool, is_dir: bool) -> (r: bool)
    ensures
        r == (recursive && is_dir),
{
    recursive && is_dir
}

/// Law: before something is put at a path its parent directory is made, where it
/// has one.
pub proof fn law_room_is_made(p: Seq<char>)
    ensures
        parent_of(p) matches Some(dir) ==> room_for(p) == seq![OpV::CreateDirs(dir)],
        parent_of(p) is None ==> room_for(p).len() == 0,
{
}

/// Law: what is put at an existing directory goes inside it, under its own name;
/// otherwise the target is its name.
pub proof fn law_directories_take_things_inside(dst: Seq<char>, src: Seq<char>, name: Seq<char>)
    ensures
        last_name(src) == Some(name) ==> destination(dst, true, src) == below(dst, name),
        last_name(src) is None ==> destination(dst, true, src) == dst,
        destination(dst, false, src) == dst,
{
}

/// Law: a file is made where none is, after room was made for it.
pub proof fn law_touching_keeps_files(p: Seq<char>)
    ensures
        touching(p, true) == room_for(p),
        touching(p, false) == room_for(p).push(OpV::CreateFile(p)),
{
    assert(touching(p, true) =~= room_for(p));
    assert(touching(p, false) =~= room_for(p).push(OpV::CreateFile(p)));
}

/// Law: a link is made last, at the target and to the source; before that room
/// is made for it, and what is there is removed only where that is asked for.
pub proof fn law_links_are_made_last(src: Seq<char>, d: Seq<char>)
    ensures
        linking(src, d, true) == room_for(d).push(OpV::TryRemoveFile(d)).push(
            OpV::Link { source: src, target: d },
        ),
        linking(src, d, false) == room_for(d).push(OpV::Link { source: src, target: d }),
{
    assert(linking(src, d, true) =~= room_for(d).push(OpV::TryRemoveFile(d)).push(
        OpV::Link { source: src, target: d },
    ));
    assert(linking(src, d, false) =~= room_for(d).push(OpV::Link { source: src, target: d }));
}

/// Law: a move ends with the source at the target; what is there is removed
/// before only where it may be overwritten, a directory as a directory and a
/// file as a file.
pub proof fn law_moves_end_at_the_target(src: Seq<char>, d: Seq<char>, found: Found)
    ensures
        ({
            let last = OpV::Rename { source: src, target: d };
            &&& moving(src, d, found, false) == room_for(d).push(last)
            &&& moving(src, d, Found::Nothing, true) == room_for(d).push(last)
            &&& moving(src, d, Found::Dir, true) == room_for(d).push(OpV::RemoveDir(d)).push(last)
            &&& moving(src, d, Found::File, true) == room_for(d).push(OpV::RemoveFile(d)).push(last)
        }),
{
    let last = OpV::Rename { source: src, target: d };
    assert(moving(src, d, found, false) =~= room_for(d).push(last));
    assert(moving(src, d, Found::Nothing, true) =~= room_for(d).push(last));
    assert(moving(src, d, Found::Dir, true) =~= room_for(d).push(OpV::RemoveDir(d)).push(last));
    assert(moving(src, d, Found::File, true) =~= room_for(d).push(OpV::RemoveFile(d)).push(last));
}

/// Law: a file that is there is kept unless it may be overwritten; any other is
/// written.
pub proof fn law_files_are_not_overwritten_unasked(p: Seq<char>, content: Seq<char>, present: bool)
    ensures
        writing(p, content, true, false) == room_for(p),
        writing(p, content, present, true) == room_for(p).push(OpV::Write { path: p, content }),
        writing(p, content, false, false) == room_for(p).push(OpV::Write { path: p, content }),
{
    assert(writing(p, content, true, false) =~= room_for(p));
    assert(writing(p, content, present, true) =~= room_for(p).push(OpV::Write { path: p, content }));
    assert(writing(p, content, false, false) =~= room_for(p).push(OpV::Write { path: p, content }));
}

/// Law: an operation stands for what it says: what is linked, copied or renamed
/// leads from the source to the target, and what is written goes into the path.
pub proof fn law_operations_are_read_as_they_are(v: Seq<Op>, i: int)
    requires
        0 <= i < v.len(),
    ensures
        op_views(v).len() == v.len(),
        v[i] matches Op::CreateDirs(p) ==> op_views(v)[i] == OpV::CreateDirs(p@),
        v[i] matches Op::CreateFile(p) ==> op_views(v)[i] == OpV::CreateFile(p@),
        v[i] matches Op::RemoveDir(p) ==> op_views(v)[i] == OpV::RemoveDir(p@),
        v[i] matches Op::RemoveFile(p) ==> op_views(v)[i] == OpV::RemoveFile(p@),
        v[i] matches Op::TryRemoveDir(p) ==> op_views(v)[i] == OpV::TryRemoveDir(p@),
        v[i] matches Op::TryRemoveFile(p) ==> op_views(v)[i] == OpV::TryRemoveFile(p@),
        v[i] matches Op::Link { source, target } ==> op_views(v)[i] == (OpV::Link {
            source: source@,
            target: target@,
        }),
        v[i] matches Op::Copy { source, target } ==> op_views(v)[i] == (OpV::Copy {
            source: source@,
            target: target@,
        }),
        v[i] matches Op::Rename { source, target } ==> op_views(v)[i] == (OpV::Rename {
            source: source@,
            target: target@,
        }),
        v[i] matches Op::Write { path, content } ==> op_views(v)[i] == (OpV::Write {
            path: path@,
            content: content@,
        }),
{
}

} // verus!
