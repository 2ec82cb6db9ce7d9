use dram::ctx::Ctx;
use dram::json::Json;
use dram::postinstall::StepCtx;
use dram::pour::{next_stage, PourStage};
use dram::step_loop::{note_outcome, StepRun};
use dram::step_plan::Action;

fn strings(v: &[&str]) -> Vec<String> {
    v.iter().map(|s| s.to_string()).collect()
}

fn s(t: &str) -> Json {
    Json::Str(t.to_string())
}

fn obj(members: Vec<(&str, Json)>) -> Json {
    Json::Object(members.into_iter().map(|(k, v)| (k.to_string(), v)).collect())
}

#[test]
fn failed_steps_become_notes_and_later_steps_run() {
    let ctx = Ctx { prefix: "/p".to_string() };
    let sc = StepCtx { ctx: &ctx, name: "jq", version: "1" };
    let guard = obj(vec![("condition", s("if_exists")), ("path", s("/there"))]);
    let steps = vec![
        obj(vec![("type", s("warn")), ("message", s("careful"))]),
        obj(vec![("type", s("write"))]),
        obj(vec![
            ("type", s("mkdir_p")),
            ("path", obj(vec![("path", s("/d"))])),
            ("guards", Json::Array(vec![guard])),
        ]),
        obj(vec![("type", s("mkdir_p")), ("path", obj(vec![("path", s("/e"))]))]),
        obj(vec![("type", s("terminate_process")), ("name", s("jqd"))]),
    ];
    let mut run = StepRun::new(&sc, &steps);
    assert!(!run.is_over() && !run.is_running());
    match run.turn(&Vec::new()) {
        Some(Action::Note(note)) => run.end(vec![note], None),
        _ => panic!(),
    }
    assert_eq!(run.notes(), &strings(&["\x1b[33m!\x1b[0m jq: careful"]));
    assert!(run.turn(&Vec::new()).is_none());
    assert_eq!(
        run.notes()[1],
        "\x1b[33m!\x1b[0m jq: post-install step 'write' failed: step is missing a required path"
    );
    assert_eq!(run.candidates(), ["/there"]);
    assert!(run.turn(&Vec::new()).is_none());
    assert_eq!(run.notes().len(), 2);
    assert!(matches!(run.turn(&Vec::new()), Some(Action::MakeDirs(_))));
    assert!(run.is_running());
    run.end(strings(&["told"]), Some("no room".to_string()));
    assert!(!run.is_running() && !run.is_over());
    assert!(matches!(run.turn(&Vec::new()), Some(Action::Terminate(_))));
    run.end(Vec::new(), None);
    assert!(run.is_over());
    assert_eq!(
        run.notes(),
        &strings(&[
            "\x1b[33m!\x1b[0m jq: careful",
            "\x1b[33m!\x1b[0m jq: post-install step 'write' failed: step is missing a required path",
            "told",
            "\x1b[33m!\x1b[0m jq: post-install step 'mkdir_p' failed: no room",
        ])
    );
}

#[test]
fn notes_after_a_step() {
    let ctx = Ctx { prefix: "/p".to_string() };
    let sc = StepCtx { ctx: &ctx, name: "jq", version: "1" };
    let step = obj(vec![]);
    assert_eq!(note_outcome(&sc, &step, strings(&["a"]), strings(&["b"]), &None), ["a", "b"]);
    assert_eq!(
        note_outcome(&sc, &step, strings(&["a"]), Vec::new(), &Some("bad".to_string())),
        ["a", "\x1b[33m!\x1b[0m jq: post-install step '?' failed: bad"]
    );
}

#[test]
fn no_steps_no_notes() {
    let ctx = Ctx { prefix: "/p".to_string() };
    let sc = StepCtx { ctx: &ctx, name: "jq", version: "1" };
    let steps = Vec::new();
    let run = StepRun::new(&sc, &steps);
    assert!(run.is_over());
    assert!(run.notes().is_empty());
}

fn trace(fails_at: Option<usize>, linked: bool) -> Vec<PourStage> {
    let mut stage = PourStage::Extract;
    let mut seen = Vec::new();
    while stage != PourStage::Done && stage != PourStage::Failed {
        let ok = fails_at != Some(seen.len());
        seen.push(stage);
        stage = next_stage(stage, ok, linked);
    }
    seen.push(stage);
    seen
}

#[test]
fn half_wired_kegs_are_removed() {
    let good = trace(None, true);
    assert!(
        good == vec![
            PourStage::Extract,
            PourStage::Locate,
            PourStage::Relocate,
            PourStage::LinkOpt,
            PourStage::LinkBin,
            PourStage::Receipt,
            PourStage::PostInstall,
            PourStage::Done,
        ]
    );
    let bare = trace(None, false);
    assert!(bare.len() == 7 && !bare.contains(&PourStage::LinkBin));
    for n in 0..2 {
        let t = trace(Some(n), true);
        assert!(t.len() == n + 2 && t[n + 1] == PourStage::Failed);
    }
    for n in 2..6 {
        let t = trace(Some(n), true);
        assert!(t.len() == n + 3 && t[n + 1] == PourStage::Undo && t[n + 2] == PourStage::Failed);
    }
    assert!(trace(Some(6), true) == good);
}
