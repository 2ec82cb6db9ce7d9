//! The links that make kegs reachable, and the removal of kegs with their
//! links.

use vstd::prelude::*;

use crate::ctx::Ctx;
use crate::path;
use crate::path::{below, within};
use crate::picks;
use crate::picks::picks;
use crate::step_ops::{op_views, Op, OpV};

verus! {

/// Something is in the place of a link that dram does not own.
pub enum LinkError {
    /// A link that points elsewhere, at the given path.
    ForeignLink(String),
    /// Something else than a link, at the given path.
    NotALink(String),
}

impl LinkError {
    /// What the user is told.
    pub fn message(&self) -> (r: String)
        ensures
            r@ == match self {
                LinkError::ForeignLink(p) => "refusing to overwrite "@ + p@,
                LinkError::NotALink(p) => "refusing to overwrite non-symlink "@ + p@,
            },
    {
        match self {
            LinkError::ForeignLink(p) => "refusing to overwrite ".to_string().concat(p.as_str()),
            LinkError::NotALink(p) => "refusing to overwrite non-symlink ".to_string().concat(p.as_str()),
        }
    }
}

/// Whether the executables of a keg are linked: where linking is wanted, all
/// but those of keg-only formulae.
pub fn is_linked(keg_only: bool, link_global: bool) -> (r: bool)
    ensures
        r == (link_global && !keg_only),
{
    link_global && !keg_only
}

/// The operations that link one executable of a keg.
pub open spec fn bin_linking(keg: Seq<char>, name: Seq<char>, at: Seq<char>, replacing: bool) -> Seq<OpV> {
    (if replacing {
        seq![OpV::RemoveFile(at)]
    } else {
        Seq::empty()
    }) + seq![OpV::Link { source: below(below(keg, "bin"@), name), target: at }]
}

/// Links the executable `name` of a keg, given where the link in its place
/// points and whether anything is there. Replaces links that dram owns, that
/// is, that point into its Cellar; never foreign files.
pub fn link_bin(ctx: &Ctx, keg: &str, name: &str, dest: &Option<String>, present: bool) -> (r: Result<
    Vec<Op>,
    LinkError,
>)
    ensures
        ({
            let at = below(ctx.bin_dir(), name@);
            match dest {
                Some(d) => if within(d@, ctx.cellar_dir()) {
                    r matches Ok(ops) && op_views(ops@) == bin_linking(keg@, name@, at, true)
                } else {
                    r matches Err(LinkError::ForeignLink(p)) && p@ == at
                },
                None => if present {
                    r matches Err(LinkError::NotALink(p)) && p@ == at
                } else {
                    r matches Ok(ops) && op_views(ops@) == bin_linking(keg@, name@, at, false)
                },
            }
        }),
{
    let at = path::join(ctx.bin().as_str(), name);
    let ghost target = at@;
    let mut ops: Vec<Op> = Vec::new();
    match dest {
        Some(d) => {
            if !path::starts_with(d.as_str(), ctx.cellar().as_str()) {
                return Err(LinkError::ForeignLink(at));
            }
            ops.push(Op::RemoveFile(at.clone()));
        },
        None => {
            if present {
                return Err(LinkError::NotALink(at));
            }
        },
    }
    let source = path::join(path::join(keg, "bin").as_str(), name);
    ops.push(Op::Link { source, target: at });
    assert(op_views(ops@) =~= bin_linking(keg@, name@, target, dest is Some));
    Ok(ops)
}

/// Makes `opt/<name>` point to a keg.
pub fn opt_link_ops(ctx: &Ctx, name: &str, keg: &str) -> (r: Vec<Op>)
    ensures
        ({
            let at = below(ctx.opt_dir(), name@);
            op_views(r@) == seq![
                OpV::TryRemoveFile(at),
                OpV::Link { source: keg@, target: at },
            ]
        }),
{
    let at = path::join(ctx.opt().as_str(), name);
    let ghost target = at@;
    let mut r: Vec<Op> = Vec::new();
    r.push(Op::TryRemoveFile(at.clone()));
    r.push(Op::Link { source: keg.to_string(), target: at });
    assert(op_views(r@) =~= seq![
        OpV::TryRemoveFile(target),
        OpV::Link { source: keg@, target },
    ]);
    r
}

/// A link in the bin directory: its name, and where it points.
pub struct BinLink {
    pub name: String,
    pub dest: String,
}

/// The operations that remove the links into the directory `root`.
pub open spec fn unlinking(ctx: Ctx, root: Seq<char>, links: Seq<BinLink>) -> Seq<OpV>
    decreases links.len(),
{
    if links.len() == 0 {
        Seq::empty()
    } else if within(links.last().dest@, root) {
        unlinking(ctx, root, links.drop_last()).push(
            OpV::RemoveFile(below(ctx.bin_dir(), links.last().name@)),
        )
    } else {
        unlinking(ctx, root, links.drop_last())
    }
}

/// The operations that remove a formula: the links into its kegs, its link in
/// the opt directory, and all its kegs.
pub open spec fn removing(ctx: Ctx, name: Seq<char>, links: Seq<BinLink>) -> Seq<OpV> {
    let root = below(ctx.cellar_dir(), name);
    unlinking(ctx, root, links).push(OpV::TryRemoveFile(below(ctx.opt_dir(), name))).push(
        OpV::RemoveDir(root),
    )
}

/// Removes a formula, given the links in the bin directory.
pub fn remove_keg(ctx: &Ctx, name: &str, links: &Vec<BinLink>) -> (r: Vec<Op>)
    ensures
        op_views(r@) == removing(*ctx, name@, links@),
{
    let root = path::join(ctx.cellar().as_str(), name);
    let ghost dir = root@;
    let mut r: Vec<Op> = Vec::new();
    assert(op_views(r@) =~= unlinking(*ctx, dir, links@.take(0)));
    for i in 0..links.len()
        invariant
            dir == root@,
            op_views(r@) == unlinking(*ctx, dir, links@.take(i as int)),
    {
        let link = &links[i];
        let ghost before = r@;
        proof {
            assert(links@.take(i + 1).drop_last() =~= links@.take(i as int));
            assert(links@.take(i + 1).last() == *link);
        }
        if path::starts_with(link.dest.as_str(), root.as_str()) {
            let at = path::join(ctx.bin().as_str(), link.name.as_str());
            let op = Op::RemoveFile(at);
            r.push(op);
            assert(op_views(r@) =~= op_views(before).push(op@));
        }
    }
    assert(links@.take(links@.len() as int) =~= links@);
    let ghost unlinked = r@;
    let opt = Op::TryRemoveFile(path::join(ctx.opt().as_str(), name));
    r.push(opt);
    r.push(Op::RemoveDir(root));
    assert(op_views(r@) =~= op_views(unlinked).push(opt@).push(OpV::RemoveDir(dir)));
    r
}

/// Law: removing a formula removes no link that points outside its kegs.
pub proof fn law_removal_spares_other_links(ctx: Ctx, root: Seq<char>, links: Seq<BinLink>, k: int)
    requires
        0 <= k < unlinking(ctx, root, links).len(),
    ensures
        exists|i: int|
            0 <= i < links.len() && within((#[trigger] links[i]).dest@, root) && unlinking(
                ctx,
                root,
                links,
            )[k] == OpV::RemoveFile(below(ctx.bin_dir(), links[i].name@)),
    decreases links.len(),
{
    let before = unlinking(ctx, root, links.drop_last());
    if k < before.len() {
        law_removal_spares_other_links(ctx, root, links.drop_last(), k);
        let i = choose|i: int|
            0 <= i < links.drop_last().len() && within((#[trigger] links.drop_last()[i]).dest@, root)
                && before[k] == OpV::RemoveFile(below(ctx.bin_dir(), links.drop_last()[i].name@));
        assert(links[i] == links.drop_last()[i]);
    } else {
        assert(links[links.len() - 1] == links.last());
    }
}

/// A tarball did not hold the keg that it was fetched for.
pub fn missing_keg(name: &str, keg: &str) -> (r: String)
    ensures
        r@ == name@ + ": tarball did not produce expected keg "@ + keg@,
{
    name.to_string().concat(": tarball did not produce expected keg ").concat(keg)
}

/// The links that lead into the directory `root`.
pub open spec fn unlinked_at(ctx: Ctx, root: Seq<char>, links: Seq<BinLink>) -> spec_fn(int, OpV) -> bool {
    |i: int, op: OpV|
        within(links[i].dest@, root) && op == OpV::RemoveFile(below(ctx.bin_dir(), links[i].name@))
}

/// The operations for the first links.
proof fn lemma_unlinking(ctx: Ctx, root: Seq<char>, links: Seq<BinLink>, n: int)
    requires
        0 <= n <= links.len(),
    ensures
        picks(n, unlinked_at(ctx, root, links), unlinking(ctx, root, links.take(n))),
    decreases n,
{
    let p = unlinked_at(ctx, root, links);
    if n == 0 {
        assert(links.take(0) =~= Seq::empty());
        picks::lemma_pick_start(p);
    } else {
        lemma_unlinking(ctx, root, links, n - 1);
        assert(links.take(n).drop_last() =~= links.take(n - 1));
        let before = unlinking(ctx, root, links.take(n - 1));
        let l = links[n - 1];
        if within(l.dest@, root) {
            let op = OpV::RemoveFile(below(ctx.bin_dir(), l.name@));
            assert(p(n - 1, op));
            picks::lemma_pick_one(n - 1, p, before, op);
        } else {
            picks::lemma_pick_none(n - 1, p, before);
        }
    }
}

/// Law: removing a formula removes every link that leads into its kegs, then its
/// link in the opt directory, and at last the directory with all its kegs, and
/// nothing else.
pub proof fn law_removal_takes_links_and_kegs(ctx: Ctx, name: Seq<char>, links: Seq<BinLink>)
    ensures
        ({
            let root = below(below(ctx.prefix@, "Cellar"@), name);
            let ops = removing(ctx, name, links);
            let n = ops.len() as int;
            &&& n >= 2
            &&& picks(links.len() as int, unlinked_at(ctx, root, links), ops.take(n - 2))
            &&& ops[n - 2] == OpV::TryRemoveFile(below(below(ctx.prefix@, "opt"@), name))
            &&& ops[n - 1] == OpV::RemoveDir(root)
        }),
{
    let root = below(ctx.cellar_dir(), name);
    lemma_unlinking(ctx, root, links, links.len() as int);
    assert(links.take(links.len() as int) =~= links);
    let ops = removing(ctx, name, links);
    assert(ops.take(ops.len() - 2) =~= unlinking(ctx, root, links));
}

/// Law: an executable of a keg is linked under its own name to where it is in the
/// keg; a link that is replaced is removed first.
pub proof fn law_executables_are_linked_into_the_keg(
    keg: Seq<char>,
    name: Seq<char>,
    at: Seq<char>,
    replacing: bool,
)
    ensures
        ({
            let ops = bin_linking(keg, name, at, replacing);
            &&& ops.last() == OpV::Link { source: below(below(keg, "bin"@), name), target: at }
            &&& replacing ==> ops.len() == 2 && ops[0] == OpV::RemoveFile(at)
            &&& !replacing ==> ops.len() == 1
        }),
{
}

} // verus!
