//! The stages of rewriting one Mach-O file in place.
//!
//! An edit of the load commands breaks the signature of the file, and a file
//! with a broken signature is killed when it runs. So it is signed anew straight
//! after the edit.

use vstd::prelude::*;

verus! {

/// What is done next.
#[derive(PartialEq, Eq, Structural, Clone, Copy)]
pub enum MachoStage {
    /// Let the owner write the file.
    Unlock,
    /// Edit the load commands.
    Edit,
    /// Sign the file.
    Sign,
    /// Give the file the permissions that it had.
    Restore,
    /// Nothing: the file is rewritten.
    Done,
    /// Nothing: the file could not be rewritten.
    Failed,
}

/// What follows a stage, given how it went.
pub open spec fn after_macho(s: MachoStage, ok: bool) -> MachoStage {
    match s {
        MachoStage::Done => MachoStage::Done,
        _ if !ok => MachoStage::Failed,
        MachoStage::Unlock => MachoStage::Edit,
        MachoStage::Edit => MachoStage::Sign,
        MachoStage::Sign => MachoStage::Restore,
        MachoStage::Restore => MachoStage::Done,
        MachoStage::Failed => MachoStage::Failed,
    }
}

/// What follows a stage.
pub fn next_macho_stage(s: MachoStage, ok: bool) -> (r: MachoStage)
    ensures
        r == after_macho(s, ok),
{
    match s {
        MachoStage::Done => MachoStage::Done,
        MachoStage::Failed => MachoStage::Failed,
        _ => {
            if !ok {
                return MachoStage::Failed;
            }
            match s {
                MachoStage::Unlock => MachoStage::Edit,
                MachoStage::Edit => MachoStage::Sign,
                MachoStage::Sign => MachoStage::Restore,
                _ => MachoStage::Done,
            }
        },
    }
}

/// The stage after the given outcomes, one for each stage from the first on.
pub open spec fn reached_macho(oks: Seq<bool>) -> MachoStage
    decreases oks.len(),
{
    if oks.len() == 0 {
        MachoStage::Unlock
    } else {
        after_macho(reached_macho(oks.drop_last()), oks.last())
    }
}

/// The stage with that number went well, and was the given one.
pub open spec fn went_well(oks: Seq<bool>, n: int, s: MachoStage) -> bool {
    0 <= n < oks.len() && oks[n] && reached_macho(oks.take(n)) == s
}

/// Law: an edited file is signed straight after the edit: nothing but the
/// signing follows an edit that went well, and nothing but an edit that went
/// well comes before the signing.
pub proof fn law_edits_are_signed_at_once(s: MachoStage, ok: bool)
    ensures
        after_macho(MachoStage::Edit, true) == MachoStage::Sign,
        after_macho(s, ok) == MachoStage::Sign ==> s == MachoStage::Edit && ok,
{
}

/// Law: a file is rewritten only once it was signed, without a failure, straight
/// after its edit, and has its permissions back.
pub proof fn law_rewritten_files_are_signed(oks: Seq<bool>)
    requires
        reached_macho(oks) == MachoStage::Done,
    ensures
        exists|n: int| #[trigger]
            went_well(oks, n, MachoStage::Edit) && went_well(oks, n + 1, MachoStage::Sign) && went_well(
                oks,
                n + 2,
                MachoStage::Restore,
            ),
{
    let n = lemma_last_stage(oks, MachoStage::Done);
    assert(reached_macho(oks.take(n)) == MachoStage::Restore && oks[n]);
    let restored = oks.take(n);
    let signed = restored.drop_last();
    assert(reached_macho(signed) == MachoStage::Sign && restored.last());
    let edited = signed.drop_last();
    assert(reached_macho(edited) == MachoStage::Edit && signed.last());
    assert(signed =~= oks.take(n - 1));
    assert(edited =~= oks.take(n - 2));
    assert(went_well(oks, n - 2, MachoStage::Edit));
    assert(went_well(oks, n - 2 + 1, MachoStage::Sign));
    assert(went_well(oks, n - 2 + 2, MachoStage::Restore));
}

/// Where the rewriting has come to its end, some stage brought it there.
proof fn lemma_last_stage(oks: Seq<bool>, end: MachoStage) -> (n: int)
    requires
        end != MachoStage::Unlock,
        reached_macho(oks) == end,
    ensures
        0 <= n < oks.len(),
        reached_macho(oks.take(n)) != end,
        after_macho(reached_macho(oks.take(n)), oks[n]) == end,
    decreases oks.len(),
{
    let init = oks.drop_last();
    assert(init =~= oks.take(oks.len() - 1));
    if reached_macho(init) == end {
        let n = lemma_last_stage(init, end);
        assert(init.take(n) =~= oks.take(n));
        n
    } else {
        oks.len() - 1
    }
}

/// Law: a failure ends the rewriting of a file as failed, whatever stage it was.
pub proof fn law_no_failure_is_passed_over(oks: Seq<bool>, n: int)
    requires
        0 <= n < oks.len(),
        !oks[n],
        reached_macho(oks.take(n)) != MachoStage::Done,
    ensures
        reached_macho(oks) == MachoStage::Failed,
    decreases oks.len(),
{
    let init = oks.drop_last();
    if n < oks.len() - 1 {
        assert(init.take(n) =~= oks.take(n));
        law_no_failure_is_passed_over(init, n);
    } else {
        assert(init =~= oks.take(n));
    }
}

/// How many stages are left at most.
pub open spec fn macho_stages_left(s: MachoStage) -> nat {
    match s {
        MachoStage::Unlock => 4,
        MachoStage::Edit => 3,
        MachoStage::Sign => 2,
        MachoStage::Restore => 1,
        MachoStage::Done => 0,
        MachoStage::Failed => 0,
    }
}

/// Law: every stage leaves fewer to come, so that the rewriting of a file ends.
pub proof fn law_rewriting_ends(s: MachoStage, ok: bool)
    requires
        s != MachoStage::Done,
        s != MachoStage::Failed,
    ensures
        macho_stages_left(after_macho(s, ok)) < macho_stages_left(s),
{
}

/// Law: the stages follow one another: the file is made writable, edited, signed
/// and given its permissions back; nothing follows the end.
pub proof fn law_stages_follow_one_another(s: MachoStage, ok: bool)
    ensures
        after_macho(MachoStage::Unlock, true) == MachoStage::Edit,
        after_macho(MachoStage::Edit, true) == MachoStage::Sign,
        after_macho(MachoStage::Sign, true) == MachoStage::Restore,
        after_macho(MachoStage::Restore, true) == MachoStage::Done,
        after_macho(MachoStage::Done, ok) == MachoStage::Done,
        s != MachoStage::Done ==> after_macho(s, false) == MachoStage::Failed,
        after_macho(MachoStage::Failed, ok) == MachoStage::Failed,
{
}

} // verus!
