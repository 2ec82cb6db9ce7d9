//! The stages of pouring one keg: the tarball is extracted, the keg is wired
//! up, and its post-install steps run.

use vstd::prelude::*;

verus! {

/// What is done next.
#[derive(PartialEq, Eq, Structural, Clone, Copy)]
pub enum PourStage {
    /// Extract the tarball into the Cellar.
    Extract,
    /// See whether the keg is there.
    Locate,
    /// Rewrite the files of the keg.
    Relocate,
    /// Link the keg below `opt/`.
    LinkOpt,
    /// Link the executables of the keg.
    LinkBin,
    /// Write the receipt into the keg.
    Receipt,
    /// Run the post-install steps, whose problems are no failures.
    PostInstall,
    /// Remove the keg as far as possible.
    Undo,
    /// Nothing: the keg is poured.
    Done,
    /// Nothing: the pour has failed.
    Failed,
}

/// The keg is being wired up.
pub open spec fn wiring(s: PourStage) -> bool {
    s == PourStage::Relocate || s == PourStage::LinkOpt || s == PourStage::LinkBin || s
        == PourStage::Receipt
}

/// What follows a stage that went well.
pub open spec fn following(s: PourStage, linked: bool) -> PourStage {
    match s {
        PourStage::Extract => PourStage::Locate,
        PourStage::Locate => PourStage::Relocate,
        PourStage::Relocate => PourStage::LinkOpt,
        PourStage::LinkOpt => if linked {
            PourStage::LinkBin
        } else {
            PourStage::Receipt
        },
        PourStage::LinkBin => PourStage::Receipt,
        PourStage::Receipt => PourStage::PostInstall,
        PourStage::PostInstall => PourStage::Done,
        PourStage::Undo => PourStage::Failed,
        PourStage::Done => PourStage::Done,
        PourStage::Failed => PourStage::Failed,
    }
}

/// What follows a stage, given how it went and whether the executables of the
/// keg are linked. A keg that could not be wired up must not survive looking
/// installed: it would be skipped forever with broken load paths inside.
pub open spec fn after(s: PourStage, ok: bool, linked: bool) -> PourStage {
    if ok {
        following(s, linked)
    } else if wiring(s) {
        PourStage::Undo
    } else if s == PourStage::Extract || s == PourStage::Locate {
        PourStage::Failed
    } else {
        following(s, linked)
    }
}

/// What follows a stage.
pub fn next_stage(s: PourStage, ok: bool, linked: bool) -> (r: PourStage)
    ensures
        r == after(s, ok, linked),
{
    match s {
        PourStage::Extract => if ok {
            PourStage::Locate
        } else {
            PourStage::Failed
        },
        PourStage::Locate => if ok {
            PourStage::Relocate
        } else {
            PourStage::Failed
        },
        PourStage::Relocate => if ok {
            PourStage::LinkOpt
        } else {
            PourStage::Undo
        },
        PourStage::LinkOpt => if !ok {
            PourStage::Undo
        } else if linked {
            PourStage::LinkBin
        } else {
            PourStage::Receipt
        },
        PourStage::LinkBin => if ok {
            PourStage::Receipt
        } else {
            PourStage::Undo
        },
        PourStage::Receipt => if ok {
            PourStage::PostInstall
        } else {
            PourStage::Undo
        },
        PourStage::PostInstall => PourStage::Done,
        PourStage::Undo => PourStage::Failed,
        PourStage::Done => PourStage::Done,
        PourStage::Failed => PourStage::Failed,
    }
}

/// The stage after the given outcomes, one for each stage from the first on.
pub open spec fn reached_stage(oks: Seq<bool>, linked: bool) -> PourStage
    decreases oks.len(),
{
    if oks.len() == 0 {
        PourStage::Extract
    } else {
        after(reached_stage(oks.drop_last(), linked), oks.last(), linked)
    }
}

/// The keg stood half wired at some time.
pub open spec fn was_broken(oks: Seq<bool>, linked: bool) -> bool {
    exists|n: int|
        0 <= n < oks.len() && wiring(reached_stage(#[trigger] oks.take(n), linked)) && !oks[n]
}

/// Law: a keg whose wiring failed is removed again, whichever of the stages
/// failed, and the pour then ends as failed; nothing else removes a keg.
pub proof fn law_half_wired_kegs_are_removed(s: PourStage, ok: bool, linked: bool)
    ensures
        wiring(s) && !ok ==> after(s, ok, linked) == PourStage::Undo,
        after(s, ok, linked) == PourStage::Undo ==> wiring(s) && !ok,
        after(PourStage::Undo, ok, linked) == PourStage::Failed,
{
}

/// Law: a keg that is poured, or whose post-install steps run, was wired up
/// without a failure.
pub proof fn law_poured_kegs_are_wired(oks: Seq<bool>, linked: bool)
    requires
        reached_stage(oks, linked) == PourStage::Done || reached_stage(oks, linked)
            == PourStage::PostInstall,
    ensures
        !was_broken(oks, linked),
{
    if was_broken(oks, linked) {
        let n = choose|n: int|
            0 <= n < oks.len() && wiring(reached_stage(#[trigger] oks.take(n), linked)) && !oks[n];
        assert(oks.take(n + 1).drop_last() =~= oks.take(n));
        assert(oks.take(n + 1).last() == oks[n]);
        lemma_undone(oks, linked, n + 1);
        assert(oks.take(oks.len() as int) =~= oks);
    }
}

/// From the removal on a pour never gets anywhere but to its failure.
proof fn lemma_undone(oks: Seq<bool>, linked: bool, n: int)
    requires
        0 <= n <= oks.len(),
        reached_stage(oks.take(n), linked) == PourStage::Undo || reached_stage(oks.take(n), linked)
            == PourStage::Failed,
    ensures
        reached_stage(oks, linked) == PourStage::Undo || reached_stage(oks, linked) == PourStage::Failed,
    decreases oks.len() - n,
{
    if n < oks.len() {
        assert(oks.take(n + 1).drop_last() =~= oks.take(n));
        lemma_undone(oks, linked, n + 1);
    } else {
        assert(oks.take(n) =~= oks);
    }
}

/// How many stages are left at most.
pub open spec fn stages_left(s: PourStage) -> nat {
    match s {
        PourStage::Extract => 7,
        PourStage::Locate => 6,
        PourStage::Relocate => 5,
        PourStage::LinkOpt => 4,
        PourStage::LinkBin => 3,
        PourStage::Receipt => 2,
        PourStage::PostInstall => 1,
        PourStage::Undo => 1,
        PourStage::Done => 0,
        PourStage::Failed => 0,
    }
}

/// Law: every stage leaves fewer to come, so that a pour ends.
pub proof fn law_pours_end(s: PourStage, ok: bool, linked: bool)
    requires
        s != PourStage::Done,
        s != PourStage::Failed,
    ensures
        stages_left(after(s, ok, linked)) < stages_left(s),
{
}

/// The stage was gone through, and went well.
pub open spec fn passed(oks: Seq<bool>, linked: bool, s: PourStage) -> bool {
    exists|n: int| 0 <= n < oks.len() && reached_stage(#[trigger] oks.take(n), linked) == s && oks[n]
}

/// What was gone through early stays so.
proof fn lemma_passed(oks: Seq<bool>, linked: bool, s: PourStage)
    requires
        oks.len() > 0,
    ensures
        passed(oks.drop_last(), linked, s) ==> passed(oks, linked, s),
        reached_stage(oks.drop_last(), linked) == s && oks.last() ==> passed(oks, linked, s),
{
    let init = oks.drop_last();
    if passed(init, linked, s) {
        let n = choose|n: int| 0 <= n < init.len() && reached_stage(#[trigger] init.take(n), linked) == s && init[n];
        assert(oks.take(n) =~= init.take(n));
        assert(reached_stage(oks.take(n), linked) == s && oks[n]);
    }
    assert(oks.take(oks.len() - 1) =~= init);
}

/// What lies behind each stage.
proof fn lemma_behind(oks: Seq<bool>, linked: bool)
    ensures
        ({
            let s = reached_stage(oks, linked);
            let later = s == PourStage::PostInstall || s == PourStage::Done;
            &&& s != PourStage::Extract && s != PourStage::Failed && s != PourStage::Undo ==> passed(
                oks,
                linked,
                PourStage::Extract,
            )
            &&& wiring(s) || later ==> passed(oks, linked, PourStage::Locate)
            &&& s == PourStage::LinkOpt || s == PourStage::LinkBin || s == PourStage::Receipt || later ==> passed(
                oks,
                linked,
                PourStage::Relocate,
            )
            &&& s == PourStage::LinkBin || s == PourStage::Receipt || later ==> passed(
                oks,
                linked,
                PourStage::LinkOpt,
            )
            &&& linked && (s == PourStage::Receipt || later) ==> passed(oks, linked, PourStage::LinkBin)
            &&& later ==> passed(oks, linked, PourStage::Receipt)
            &&& s == PourStage::LinkBin ==> linked
        }),
    decreases oks.len(),
{
    if oks.len() > 0 {
        lemma_behind(oks.drop_last(), linked);
        lemma_passed(oks, linked, PourStage::Extract);
        lemma_passed(oks, linked, PourStage::Locate);
        lemma_passed(oks, linked, PourStage::Relocate);
        lemma_passed(oks, linked, PourStage::LinkOpt);
        lemma_passed(oks, linked, PourStage::LinkBin);
        lemma_passed(oks, linked, PourStage::Receipt);
    }
}

/// Law: a keg that is poured was extracted, found, rewritten and linked below
/// `opt/`, its executables were linked if and only if they are to be, and its
/// receipt was written, all without a failure, before its post-install steps ran.
pub proof fn law_poured_kegs_went_through_all_stages(oks: Seq<bool>, linked: bool)
    requires
        reached_stage(oks, linked) == PourStage::Done || reached_stage(oks, linked) == PourStage::PostInstall,
    ensures
        passed(oks, linked, PourStage::Extract),
        passed(oks, linked, PourStage::Locate),
        passed(oks, linked, PourStage::Relocate),
        passed(oks, linked, PourStage::LinkOpt),
        passed(oks, linked, PourStage::LinkBin) <==> linked,
        passed(oks, linked, PourStage::Receipt),
{
    lemma_behind(oks, linked);
    if passed(oks, linked, PourStage::LinkBin) {
        let n = choose|n: int|
            0 <= n < oks.len() && reached_stage(#[trigger] oks.take(n), linked) == PourStage::LinkBin && oks[n];
        lemma_behind(oks.take(n), linked);
    }
}

/// Law: a tarball that cannot be extracted, or that does not hold the keg, fails
/// the pour with nothing to undo, and problems of post-install steps do not.
pub proof fn law_early_failures_undo_nothing(linked: bool, ok: bool)
    ensures
        after(PourStage::Extract, false, linked) == PourStage::Failed,
        after(PourStage::Locate, false, linked) == PourStage::Failed,
        after(PourStage::PostInstall, ok, linked) == PourStage::Done,
        after(PourStage::Failed, ok, linked) == PourStage::Failed,
        after(PourStage::Done, ok, linked) == PourStage::Done,
{
}

} // verus!
