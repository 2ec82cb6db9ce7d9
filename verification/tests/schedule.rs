use dram::formula::BottleFile;
use dram::install::{InstallItem, PourSpec};
use dram::schedule::{
    keg_only_note, label_width, stalled, sticky_line, Schedule, Stage, PARALLEL_DOWNLOADS,
    PARALLEL_POURS,
};

fn item(name: &str, deps: &[&str], via: Option<&str>) -> InstallItem {
    InstallItem {
        spec: PourSpec {
            name: name.to_string(),
            version: "1.0".to_string(),
            deps: deps.iter().map(|d| d.to_string()).collect(),
            keg_only: false,
            requested: via.is_none(),
            post_install: vec![],
        },
        file: BottleFile { cellar: String::new(), url: String::new(), sha256: String::new() },
        via: via.map(|v| v.to_string()),
    }
}

#[test]
fn pours_wait_for_blobs_and_dependencies() {
    let items = vec![
        item("c", &["outside"], None),
        item("b", &["c", "c"], None),
        item("a", &["b", "c", "a"], None),
    ];
    let mut s = Schedule::new(&items);
    assert_eq!(s.len(), 3);
    assert!(!s.on_downloaded(2));
    assert!(matches!(s.stage(2), Stage::Idle));
    assert!(!s.on_downloaded(1));
    assert_eq!(s.downloads_done(), 2);
    assert!(s.on_downloaded(0));
    assert_eq!(s.pouring(), &vec![0]);
    assert_eq!(s.on_poured(0), vec![1]);
    assert!(matches!(s.stage(0), Stage::Poured));
    assert!(matches!(s.stage(1), Stage::Pouring));
    assert_eq!(s.poured_count(), 1);
    assert_eq!(s.on_poured(1), vec![2]);
    assert_eq!(s.on_poured(2), Vec::<usize>::new());
    assert_eq!(s.poured_count(), 3);
    assert!(s.pouring().is_empty());
}

#[test]
fn independent_branches_pour_at_once() {
    let items = vec![
        item("base", &[], None),
        item("left", &["base"], None),
        item("right", &["base"], None),
        item("alone", &[], None),
        item("late", &["base"], None),
    ];
    let mut s = Schedule::new(&items);
    assert!(s.on_downloaded(3));
    assert!(!s.on_downloaded(2));
    assert!(!s.on_downloaded(1));
    assert!(s.on_downloaded(0));
    assert_eq!(s.pouring(), &vec![3, 0]);
    assert_eq!(s.on_poured(0), vec![1, 2]);
    assert_eq!(s.pouring(), &vec![3, 1, 2]);
    assert!(matches!(s.stage(4), Stage::Pending));
    assert!(s.on_downloaded(4));
}

#[test]
fn a_schedule_runs_to_its_end() {
    let items: Vec<InstallItem> = (0..20)
        .map(|i| {
            let deps: Vec<String> = (0..i).filter(|j| (i + j) % 3 == 0).map(|j| format!("p{j}")).collect();
            let refs: Vec<&str> = deps.iter().map(|d| d.as_str()).collect();
            item(&format!("p{i}"), &refs, None)
        })
        .collect();
    let mut s = Schedule::new(&items);
    let mut running: Vec<usize> = Vec::new();
    for i in (0..20).rev() {
        if s.on_downloaded(i) {
            running.push(i);
        }
    }
    while s.poured_count() < 20 {
        assert!(!running.is_empty());
        let i = running.remove(0);
        running.extend(s.on_poured(i));
    }
    assert_eq!(s.downloads_done(), 20);
}

#[test]
fn sticky_summaries() {
    let names = |v: &[&str]| v.iter().map(|s| s.to_string()).collect::<Vec<_>>();
    assert_eq!(sticky_line(10, 0, &names(&[]), 0), "downloading 6 · 0/10 installed");
    assert_eq!(
        sticky_line(10, 8, &names(&["a", "b"]), 3),
        "downloading 2 · pouring a, b · 3 idle · 3/10 installed"
    );
    assert_eq!(
        sticky_line(5, 5, &names(&["a", "b", "c", "d", "e"]), 0),
        "pouring a, b, c +2 · 0/5 installed"
    );
    assert_eq!(sticky_line(2, 2, &names(&[]), 2), "finishing · 2/2 installed");
    assert_eq!(sticky_line(3, 3, &names(&["a"]), 0), "pouring a · 2 idle · 0/3 installed");
    assert_eq!((PARALLEL_DOWNLOADS, PARALLEL_POURS), (6, 4));
}

#[test]
fn labels_and_notes() {
    assert_eq!(label_width(&vec![item("ab", &[], None), item("abc", &[], Some("ab"))]), 9);
    assert_eq!(label_width(&Vec::new()), 0);
    assert_eq!(
        keg_only_note("curl", true, true),
        Some("\x1b[2m    · curl is keg-only, not linked\x1b[0m".to_string())
    );
    assert_eq!(keg_only_note("curl", true, false), None);
    assert_eq!(keg_only_note("curl", false, true), None);
    assert_eq!(stalled(), "pour scheduling stalled (dependency cycle?)");
}
