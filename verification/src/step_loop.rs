//! Running the post-install steps of a keg, one after the other. A step that
//! fails becomes a note, and the steps behind it still run.

use vstd::prelude::*;

use crate::json::{models, Json, JsonV};
use crate::postinstall::{all_pass, guarded_by, guards, StepCtx};
use crate::step_plan;
use crate::step_plan::{kind_of, planned, Action};
use crate::step_run;
use crate::step_run::failed_step;
use crate::text;
use crate::text::{opt_text, texts};

verus! {

broadcast use text::lemma_texts_push;

/// The state of a run: the steps, how many of them have had their turn,
/// whether the next is being carried out, and the notes so far.
pub struct StepRunV<'a> {
    pub sc: StepCtx<'a>,
    pub steps: Seq<JsonV>,
    pub at: int,
    pub running: bool,
    pub notes: Seq<Seq<char>>,
}

/// The state before the first step.
pub open spec fn begun<'a>(sc: StepCtx<'a>, steps: Seq<JsonV>) -> StepRunV<'a> {
    StepRunV { sc, steps, at: 0, running: false, notes: Seq::empty() }
}

/// What is noted of a step that failed with the given error, if it did.
pub open spec fn failure(sc: StepCtx<'_>, step: JsonV, error: Option<Seq<char>>) -> Seq<Seq<char>> {
    match error {
        Some(e) => seq![failed_step(sc.name@, kind_of(step), e)],
        None => Seq::empty(),
    }
}

/// What is wrong with a step that does not say where to do what it asks for.
pub open spec fn no_path() -> Option<Seq<char>> {
    Some("step is missing a required path"@)
}

/// The state after the next step has got its turn, given the paths that exist:
/// a step whose guards do not pass is skipped, one that cannot be planned
/// fails, and any other is to be carried out.
pub open spec fn turned(v: StepRunV<'_>, existing: Set<Seq<char>>) -> StepRunV<'_> {
    let step = v.steps[v.at];
    if !all_pass(v.sc, step, existing) {
        StepRunV { at: v.at + 1, ..v }
    } else if planned(v.sc, step) is None {
        StepRunV { at: v.at + 1, notes: v.notes + failure(v.sc, step, no_path()), ..v }
    } else {
        StepRunV { running: true, ..v }
    }
}

/// The state after a step was carried out, which told `added` and failed with
/// the given error, if it did.
pub open spec fn ended<'a>(
    v: StepRunV<'a>,
    added: Seq<Seq<char>>,
    error: Option<Seq<char>>,
) -> StepRunV<'a> {
    StepRunV {
        at: v.at + 1,
        running: false,
        notes: v.notes + added + failure(v.sc, v.steps[v.at], error),
        ..v
    }
}

/// A run of the post-install steps of a keg.
pub struct StepRun<'a> {
    sc: &'a StepCtx<'a>,
    steps: &'a Vec<Json>,
    at: usize,
    running: bool,
    notes: Vec<String>,
}

impl<'a> View for StepRun<'a> {
    type V = StepRunV<'a>;

    closed spec fn view(&self) -> StepRunV<'a> {
        StepRunV {
            sc: *self.sc,
            steps: models(self.steps@),
            at: self.at as int,
            running: self.running,
            notes: texts(self.notes@),
        }
    }
}

/// The notes after a step: those before, what it told, and that it failed, if
/// it did.
pub fn note_outcome(
    sc: &StepCtx<'_>,
    step: &Json,
    notes: Vec<String>,
    added: Vec<String>,
    error: &Option<String>,
) -> (r: Vec<String>)
    ensures
        texts(r@) == texts(notes@) + texts(added@) + failure(*sc, step@, opt_text(*error)),
        text::has_prefix_of(texts(r@), texts(notes@)),
{
    let ghost before = texts(notes@);
    let ghost told = texts(added@);
    let mut r = notes;
    let mut more = added;
    r.append(&mut more);
    assert(texts(r@) =~= before + told);
    if let Some(e) = error {
        r.push(step_run::failure_note(sc.name, step_plan::step_type(step), e.as_str()));
    }
    assert(texts(r@) =~= before + told + failure(*sc, step@, opt_text(*error)));
    assert(texts(r@).take(before.len() as int) =~= before);
    r
}

impl<'a> StepRun<'a> {
    #[verifier::type_invariant]
    spec fn in_bounds(self) -> bool {
        self.at <= self.steps@.len() && (self.running ==> self.at < self.steps@.len())
    }

    /// A run of the given steps.
    pub fn new(sc: &'a StepCtx<'a>, steps: &'a Vec<Json>) -> (r: StepRun<'a>)
        ensures
            r@ == begun(*sc, models(steps@)),
    {
        let r = StepRun { sc, steps, at: 0, running: false, notes: Vec::new() };
        assert(texts(r.notes@) =~= Seq::empty());
        r
    }

    /// Whether all steps have had their turn.
    pub fn is_over(&self) -> (r: bool)
        ensures
            r == (self@.at == self@.steps.len()),
            !r ==> 0 <= self@.at < self@.steps.len(),
    {
        proof {
            use_type_invariant(self);
        }
        self.at == self.steps.len()
    }

    /// Whether a step is being carried out.
    pub fn is_running(&self) -> (r: bool)
        ensures
            r == self@.running,
            r ==> 0 <= self@.at < self@.steps.len(),
    {
        proof {
            use_type_invariant(self);
        }
        self.running
    }

    /// The paths whose existence the guards of the next step ask for.
    pub fn candidates(&self) -> (r: Vec<String>)
        requires
            self@.at < self@.steps.len(),
        ensures
            texts(r@) == guarded_by(self@.sc, guards(self@.steps[self@.at])),
    {
        self.sc.guard_candidates(&self.steps[self.at])
    }

    /// Gives the next step its turn, given which of the paths that its guards
    /// ask for exist, and tells what is to be done for it, if anything.
    pub fn turn(&mut self, existing: &Vec<String>) -> (r: Option<Action>)
        requires
            old(self)@.at < old(self)@.steps.len(),
            !old(self)@.running,
        ensures
            final(self)@ == turned(old(self)@, texts(existing@).to_set()),
            r is Some == final(self)@.running,
            r matches Some(a) ==> planned(old(self)@.sc, old(self)@.steps[old(self)@.at]) == Some(a@),
    {
        let ghost v = self@;
        let steps = self.steps;
        let sc = self.sc;
        assert(self.at < steps.len());
        let step = &steps[self.at];
        assert(v.steps[v.at] == step@);
        if !sc.guards_pass(step, existing) {
            self.at = self.at + 1;
            return None;
        }
        match step_plan::plan(sc, step) {
            Ok(action) => {
                self.running = true;
                Some(action)
            },
            Err(e) => {
                let mut notes: Vec<String> = Vec::new();
                std::mem::swap(&mut notes, &mut self.notes);
                let none: Vec<String> = Vec::new();
                assert(texts(none@) =~= Seq::empty());
                assert(v.notes + Seq::<Seq<char>>::empty() =~= v.notes);
                self.notes = note_outcome(sc, step, notes, none, &Some(e.message()));
                self.at = self.at + 1;
                None
            },
        }
    }

    /// Ends the step that was carried out: it told `added`, and failed with
    /// the given error, if it did. Whether or not it failed, the next step is
    /// next.
    pub fn end(&mut self, added: Vec<String>, error: Option<String>)
        requires
            old(self)@.running,
        ensures
            final(self)@ == ended(old(self)@, texts(added@), opt_text(error)),
    {
        proof {
            use_type_invariant(&*self);
        }
        let ghost v = self@;
        let steps = self.steps;
        assert(self.at < steps.len());
        let step = &steps[self.at];
        assert(v.steps[v.at] == step@);
        let mut notes: Vec<String> = Vec::new();
        std::mem::swap(&mut notes, &mut self.notes);
        self.notes = note_outcome(self.sc, step, notes, added, &error);
        self.running = false;
        self.at = self.at + 1;
    }

    /// The notes so far, in order.
    pub fn notes(&self) -> (r: &Vec<String>)
        ensures
            texts(r@) == self@.notes,
    {
        &self.notes
    }
}

/// What happens at one step: the paths that exist then, what carrying it out
/// tells, and the error that it fails with, if it does.
pub struct StepEvent {
    pub existing: Set<Seq<char>>,
    pub added: Seq<Seq<char>>,
    pub error: Option<Seq<char>>,
}

/// The state after one step, whatever became of it.
pub open spec fn stepped<'a>(v: StepRunV<'a>, ev: StepEvent) -> StepRunV<'a> {
    let t = turned(v, ev.existing);
    if t.running {
        ended(t, ev.added, ev.error)
    } else {
        t
    }
}

/// The state after one step for each event.
pub open spec fn run_through<'a>(v: StepRunV<'a>, evs: Seq<StepEvent>) -> StepRunV<'a>
    decreases evs.len(),
{
    if evs.len() == 0 {
        v
    } else {
        stepped(run_through(v, evs.drop_last()), evs.last())
    }
}

/// What is noted of one step: nothing where it is skipped, that it failed
/// where it names no path, and otherwise what it told and how it failed.
pub open spec fn step_report(sc: StepCtx<'_>, step: JsonV, ev: StepEvent) -> Seq<Seq<char>> {
    if !all_pass(sc, step, ev.existing) {
        Seq::empty()
    } else if planned(sc, step) is None {
        failure(sc, step, no_path())
    } else {
        ev.added + failure(sc, step, ev.error)
    }
}

/// What is noted of the first steps, one after the other.
pub open spec fn all_reports(sc: StepCtx<'_>, steps: Seq<JsonV>, evs: Seq<StepEvent>) -> Seq<Seq<char>>
    decreases evs.len(),
{
    if evs.len() == 0 {
        Seq::empty()
    } else {
        all_reports(sc, steps, evs.drop_last()) + step_report(sc, steps[evs.len() - 1], evs.last())
    }
}

/// Law: the notes of earlier steps survive each step, whatever becomes of it.
pub proof fn law_earlier_notes_survive(v: StepRunV<'_>, ev: StepEvent)
    ensures
        text::has_prefix_of(turned(v, ev.existing).notes, v.notes),
        text::has_prefix_of(ended(v, ev.added, ev.error).notes, v.notes),
        text::has_prefix_of(stepped(v, ev).notes, v.notes),
{
    let t = turned(v, ev.existing);
    assert(t.notes.take(v.notes.len() as int) =~= v.notes);
    assert(ended(v, ev.added, ev.error).notes.take(v.notes.len() as int) =~= v.notes);
    assert(stepped(v, ev).notes.take(v.notes.len() as int) =~= v.notes);
}

/// Law: every step has its turn: a step that fails adds exactly one note of
/// that, and all steps behind it are treated as if it had not failed.
pub proof fn law_every_step_has_its_turn(sc: StepCtx<'_>, steps: Seq<JsonV>, evs: Seq<StepEvent>)
    requires
        evs.len() <= steps.len(),
    ensures
        run_through(begun(sc, steps), evs) == (StepRunV {
            sc,
            steps,
            at: evs.len() as int,
            running: false,
            notes: all_reports(sc, steps, evs),
        }),
    decreases evs.len(),
{
    if evs.len() > 0 {
        law_every_step_has_its_turn(sc, steps, evs.drop_last());
        let v = run_through(begun(sc, steps), evs.drop_last());
        let ev = evs.last();
        assert(stepped(v, ev).notes =~= v.notes + step_report(sc, steps[evs.len() - 1], ev));
    }
}

/// Law: a step has exactly one outcome. Where a guard does not pass, it is left
/// out without a note; where it cannot be planned, there is one note of that;
/// otherwise it is carried out, and what it tells is noted, and that it failed
/// where it did. In each case the step behind it is next.
pub proof fn law_steps_are_noted(v: StepRunV<'_>, ev: StepEvent, e: Seq<char>)
    requires
        0 <= v.at < v.steps.len(),
        !v.running,
    ensures
        ({
            let step = v.steps[v.at];
            let s = stepped(v, ev);
            let kind = match step.str_at("type"@) {
                Some(t) => t,
                None => "?"@,
            };
            let failed = "\x1b[33m!\x1b[0m "@ + v.sc.name@ + ": "@;
            &&& s.at == v.at + 1
            &&& !s.running
            &&& s.sc == v.sc
            &&& s.steps == v.steps
            &&& !all_pass(v.sc, step, ev.existing) ==> s.notes == v.notes
            &&& all_pass(v.sc, step, ev.existing) && planned(v.sc, step) is None ==> s.notes == v.notes.push(
                failed + ("post-install step '"@ + kind + "' failed: "@ + "step is missing a required path"@),
            )
            &&& all_pass(v.sc, step, ev.existing) && planned(v.sc, step) is Some && ev.error is None ==> s.notes
                == v.notes + ev.added
            &&& all_pass(v.sc, step, ev.existing) && planned(v.sc, step) is Some && ev.error == Some(e)
                ==> s.notes == (v.notes + ev.added).push(
                failed + ("post-install step '"@ + kind + "' failed: "@ + e),
            )
        }),
{
    let step = v.steps[v.at];
    let s = stepped(v, ev);
    if all_pass(v.sc, step, ev.existing) {
        if planned(v.sc, step) is None {
            assert(s.notes =~= v.notes.push(failed_step(v.sc.name@, kind_of(step), no_path()->0)));
        } else if ev.error is None {
            assert(s.notes =~= v.notes + ev.added);
        } else if ev.error == Some(e) {
            assert(s.notes =~= (v.notes + ev.added).push(failed_step(v.sc.name@, kind_of(step), e)));
        }
    }
}

/// Law: a run begins with the first step and without notes.
pub proof fn law_runs_begin_at_the_first_step<'a>(sc: StepCtx<'a>, steps: Seq<JsonV>)
    ensures
        begun(sc, steps).at == 0,
        !begun(sc, steps).running,
        begun(sc, steps).notes.len() == 0,
        begun(sc, steps).steps == steps,
        begun(sc, steps).sc == sc,
{
}

} // verus!
