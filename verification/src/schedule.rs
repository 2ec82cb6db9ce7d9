//! Wave scheduling: bottles download in parallel, and each keg pours the
//! moment its own blob and its in-set dependencies are done, so pours overlap
//! downloads that are still running, and independent branches pour at once.

use vstd::prelude::*;

use crate::api;
use crate::api::lookup;
use crate::ctx::Ctx;
use crate::formula::Formula;
use crate::install::{item_views, keg_of, missing, InstallItem, ItemV};
use crate::resolver;
use crate::resolver::{names_of, ordered, resolution, ResolveErrorV};
use crate::picks;
use crate::picks::picks;
use crate::text;
use crate::text::{arranged, decimal, joined, last_position, positions, texts};
use crate::ui;
use crate::ui::{dimmed, label};

verus! {

broadcast use text::lemma_texts_push;

/// How many bottles are downloaded at once.
pub const PARALLEL_DOWNLOADS: usize = 6;

/// How many kegs are poured at once.
pub const PARALLEL_POURS: usize = 4;

/// How far one item has come.
#[derive(PartialEq, Eq, Structural, Clone, Copy)]
pub enum Stage {
    /// Its blob is not there.
    Pending,
    /// Its blob is there, and it waits for its dependencies.
    Idle,
    /// It is being poured, or waits for a free place to be.
    Pouring,
    /// It is done.
    Poured,
}

/// The state of a schedule: for each item the items that it waits for and how
/// far it has come, and the items that are being poured in the order in which
/// they were started.
pub struct ScheduleV {
    pub waits: Seq<Seq<int>>,
    pub stages: Seq<Stage>,
    pub pouring: Seq<int>,
}

/// The items, other than the item `i` itself, that dependencies name.
pub open spec fn in_set(names: Seq<Seq<char>>, i: int, deps: Seq<Seq<char>>) -> Seq<int>
    decreases deps.len(),
{
    if deps.len() == 0 {
        Seq::empty()
    } else {
        match last_position(names, deps.last()) {
            Some(j) if j != i => in_set(names, i, deps.drop_last()).push(j),
            _ => in_set(names, i, deps.drop_last()),
        }
    }
}

/// The names of items.
pub open spec fn item_names(items: Seq<ItemV>) -> Seq<Seq<char>> {
    items.map_values(|it: ItemV| it.spec.name)
}

/// For each item the items that it waits for.
pub open spec fn waits_of(items: Seq<ItemV>) -> Seq<Seq<int>> {
    Seq::new(items.len(), |i: int| in_set(item_names(items), i, items[i].spec.deps))
}

/// All that the item waits for is poured.
pub open spec fn ready(v: ScheduleV, i: int) -> bool {
    forall|k: int| 0 <= k < v.waits[i].len() ==> v.stages[#[trigger] v.waits[i][k]] == Stage::Poured
}

/// The state before anything has happened.
pub open spec fn unstarted(waits: Seq<Seq<int>>) -> ScheduleV {
    ScheduleV {
        waits,
        stages: Seq::new(waits.len(), |i: int| Stage::Pending),
        pouring: Seq::empty(),
    }
}

/// The state after the blob of the item `i` has come: it is poured at once if
/// nothing is left to wait for.
pub open spec fn fetched(v: ScheduleV, i: int) -> ScheduleV {
    if ready(v, i) {
        ScheduleV {
            stages: v.stages.update(i, Stage::Pouring),
            pouring: v.pouring.push(i),
            ..v
        }
    } else {
        ScheduleV { stages: v.stages.update(i, Stage::Idle), ..v }
    }
}

/// The end of the pour of the item `i` lets the item `c` start: its blob is
/// there, it waited for `i`, and all else that it waits for is poured.
pub open spec fn wakes(v: ScheduleV, i: int, c: int) -> bool {
    &&& v.stages[c] == Stage::Idle
    &&& v.waits[c].contains(i)
    &&& forall|k: int|
        0 <= k < v.waits[c].len() ==> v.waits[c][k] == i || v.stages[#[trigger] v.waits[c][k]]
            == Stage::Poured
}

/// The first `n` items as far as the end of the pour of `i` lets them start.
pub open spec fn woken_below(v: ScheduleV, i: int, n: nat) -> Seq<int>
    decreases n,
{
    if n == 0 {
        Seq::empty()
    } else if wakes(v, i, n - 1) {
        woken_below(v, i, (n - 1) as nat).push(n - 1)
    } else {
        woken_below(v, i, (n - 1) as nat)
    }
}

/// The items that the end of the pour of `i` lets start, in order.
pub open spec fn woken(v: ScheduleV, i: int) -> Seq<int> {
    woken_below(v, i, v.waits.len())
}

/// `s` without `i`.
pub open spec fn without(s: Seq<int>, i: int) -> Seq<int> {
    s.filter(|p: int| p != i)
}

/// The state after the item `i` has been poured: those that waited for nothing
/// else are started.
pub open spec fn finished(v: ScheduleV, i: int) -> ScheduleV {
    ScheduleV {
        stages: Seq::new(
            v.stages.len(),
            |c: int|
                if c == i {
                    Stage::Poured
                } else if woken(v, i).contains(c) {
                    Stage::Pouring
                } else {
                    v.stages[c]
                },
        ),
        pouring: without(v.pouring, i) + woken(v, i),
        ..v
    }
}

/// How many of the stages are `s`.
pub open spec fn count(stages: Seq<Stage>, s: Stage) -> nat
    decreases stages.len(),
{
    if stages.len() == 0 {
        0
    } else {
        count(stages.drop_last(), s) + if stages.last() == s {
            1nat
        } else {
            0nat
        }
    }
}

/// What holds in every state of a schedule: nothing is poured before all that
/// it waits for is, whatever could be poured is started, and the list of what
/// is being poured holds each such item once.
pub open spec fn sound(v: ScheduleV) -> bool {
    &&& v.stages.len() == v.waits.len()
    &&& forall|i: int, k: int|
        0 <= i < v.waits.len() && 0 <= k < v.waits[i].len() ==> 0 <= #[trigger] v.waits[i][k]
            < v.waits.len() && v.waits[i][k] != i
    &&& forall|i: int|
        0 <= i < v.waits.len() && (#[trigger] v.stages[i] == Stage::Pouring || v.stages[i]
            == Stage::Poured) ==> ready(v, i)
    &&& forall|i: int| 0 <= i < v.waits.len() && #[trigger] v.stages[i] == Stage::Idle ==> !ready(v, i)
    &&& v.pouring.no_duplicates()
    &&& forall|i: int|
        v.pouring.contains(i) <==> 0 <= i < v.waits.len() && #[trigger] v.stages[i] == Stage::Pouring
}

/// How often `x` occurs.
spec fn occurrences(s: Seq<int>, x: int) -> nat
    decreases s.len(),
{
    if s.len() == 0 {
        0
    } else {
        occurrences(s.drop_last(), x) + if s.last() == x {
            1nat
        } else {
            0nat
        }
    }
}

/// How many of the awaited items are not poured, each as often as it occurs.
spec fn open_waits(ws: Seq<int>, stages: Seq<Stage>) -> nat
    decreases ws.len(),
{
    if ws.len() == 0 {
        0
    } else {
        open_waits(ws.drop_last(), stages) + if stages[ws.last()] == Stage::Poured {
            0nat
        } else {
            1nat
        }
    }
}

proof fn lemma_occurrences(s: Seq<int>, x: int)
    ensures
        occurrences(s, x) > 0 <==> s.contains(x),
        occurrences(s, x) <= s.len(),
    decreases s.len(),
{
    if s.len() > 0 {
        lemma_occurrences(s.drop_last(), x);
        if s.last() == x {
            assert(s[s.len() - 1] == x);
        }
        if s.drop_last().contains(x) {
            let k = choose|k: int| 0 <= k < s.drop_last().len() && s.drop_last()[k] == x;
            assert(s[k] == x);
        }
        if s.contains(x) && s.last() != x {
            let k = choose|k: int| 0 <= k < s.len() && s[k] == x;
            assert(s.drop_last()[k] == x);
        }
    }
}

proof fn lemma_occurrences_take(s: Seq<int>, k: int, x: int)
    requires
        0 <= k <= s.len(),
    ensures
        occurrences(s.take(k), x) <= occurrences(s, x),
        k < s.len() ==> occurrences(s.take(k + 1), x) == occurrences(s.take(k), x) + if s[k] == x {
            1nat
        } else {
            0nat
        },
    decreases s.len() - k,
{
    if k < s.len() {
        assert(s.take(k + 1).drop_last() =~= s.take(k));
        lemma_occurrences_take(s, k + 1, x);
    } else {
        assert(s.take(k) =~= s);
    }
}

proof fn lemma_open_waits(ws: Seq<int>, stages: Seq<Stage>)
    ensures
        open_waits(ws, stages) <= ws.len(),
        open_waits(ws, stages) == 0 <==> forall|k: int|
            0 <= k < ws.len() ==> stages[#[trigger] ws[k]] == Stage::Poured,
        (forall|k: int| 0 <= k < ws.len() ==> stages[#[trigger] ws[k]] != Stage::Poured) ==> open_waits(
            ws,
            stages,
        ) == ws.len(),
    decreases ws.len(),
{
    if ws.len() > 0 {
        let init = ws.drop_last();
        lemma_open_waits(init, stages);
        assert(forall|k: int| 0 <= k < init.len() ==> #[trigger] init[k] == ws[k]);
        assert(ws[ws.len() - 1] == ws.last());
        if open_waits(ws, stages) == 0 {
            assert forall|k: int| 0 <= k < ws.len() implies stages[#[trigger] ws[k]] == Stage::Poured by {
                if k < init.len() {
                    assert(init[k] == ws[k]);
                }
            }
        }
        if forall|k: int| 0 <= k < ws.len() ==> stages[#[trigger] ws[k]] == Stage::Poured {
            assert forall|k: int| 0 <= k < init.len() implies stages[#[trigger] init[k]] == Stage::Poured by {
                assert(init[k] == ws[k]);
            }
        }
        if forall|k: int| 0 <= k < ws.len() ==> stages[#[trigger] ws[k]] != Stage::Poured {
            assert forall|k: int| 0 <= k < init.len() implies stages[#[trigger] init[k]] != Stage::Poured by {
                assert(init[k] == ws[k]);
            }
        }
    }
}

/// Only which items are poured matters.
proof fn lemma_open_waits_same(ws: Seq<int>, a: Seq<Stage>, b: Seq<Stage>)
    requires
        forall|k: int|
            0 <= k < ws.len() ==> ((a[#[trigger] ws[k]] == Stage::Poured) == (b[ws[k]] == Stage::Poured)),
    ensures
        open_waits(ws, a) == open_waits(ws, b),
    decreases ws.len(),
{
    if ws.len() > 0 {
        let init = ws.drop_last();
        assert forall|k: int| 0 <= k < init.len() implies ((a[#[trigger] init[k]] == Stage::Poured) == (
        b[init[k]] == Stage::Poured)) by {
            assert(init[k] == ws[k]);
        }
        lemma_open_waits_same(init, a, b);
        assert(ws[ws.len() - 1] == ws.last());
    }
}

/// When an item becomes poured, its occurrences are no longer open.
proof fn lemma_open_waits_poured(ws: Seq<int>, a: Seq<Stage>, i: int)
    requires
        0 <= i < a.len(),
        a[i] != Stage::Poured,
        forall|k: int| 0 <= k < ws.len() ==> 0 <= #[trigger] ws[k] < a.len(),
    ensures
        open_waits(ws, a) == open_waits(ws, a.update(i, Stage::Poured)) + occurrences(ws, i),
    decreases ws.len(),
{
    if ws.len() > 0 {
        let init = ws.drop_last();
        assert forall|k: int| 0 <= k < init.len() implies 0 <= #[trigger] init[k] < a.len() by {
            assert(init[k] == ws[k]);
        }
        lemma_open_waits_poured(init, a, i);
        assert(ws[ws.len() - 1] == ws.last());
    }
}

/// A sequence rises.
pub open spec fn rising(s: Seq<int>) -> bool {
    forall|a: int, b: int| 0 <= a < b < s.len() ==> #[trigger] s[a] < #[trigger] s[b]
}

/// Rising sequences with the same items are the same.
proof fn lemma_rising_unique(a: Seq<int>, b: Seq<int>)
    requires
        rising(a),
        rising(b),
        forall|x: int| a.contains(x) <==> b.contains(x),
    ensures
        a == b,
    decreases a.len(),
{
    if a.len() == 0 {
        if b.len() > 0 {
            assert(b.contains(b[0]));
            assert(a.contains(b[0]));
        }
        assert(a =~= b);
    } else {
        let x = a.last();
        assert(a.contains(x));
        assert(b.contains(x));
        let y = b.last();
        assert(b.contains(y));
        assert(a.contains(y));
        let i = choose|i: int| 0 <= i < a.len() && a[i] == y;
        let j = choose|j: int| 0 <= j < b.len() && b[j] == x;
        assert(x == y) by {
            if i < a.len() - 1 {
                assert(a[i] < a[a.len() - 1]);
            }
            if j < b.len() - 1 {
                assert(b[j] < b[b.len() - 1]);
            }
        }
        let a1 = a.drop_last();
        let b1 = b.drop_last();
        assert forall|z: int| a1.contains(z) <==> b1.contains(z) by {
            if a1.contains(z) {
                let k = choose|k: int| 0 <= k < a1.len() && a1[k] == z;
                assert(a[k] == z && a[k] < a[a.len() - 1]);
                assert(a.contains(z));
                let m = choose|m: int| 0 <= m < b.len() && b[m] == z;
                assert(m < b.len() - 1);
                assert(b1[m] == z);
            }
            if b1.contains(z) {
                let k = choose|k: int| 0 <= k < b1.len() && b1[k] == z;
                assert(b[k] == z && b[k] < b[b.len() - 1]);
                assert(b.contains(z));
                let m = choose|m: int| 0 <= m < a.len() && a[m] == z;
                assert(m < a.len() - 1);
                assert(a1[m] == z);
            }
        }
        lemma_rising_unique(a1, b1);
        assert(a =~= a1.push(x));
        assert(b =~= b1.push(y));
    }
}

/// What is woken, as a rising sequence.
proof fn lemma_woken_below(v: ScheduleV, i: int, n: nat)
    ensures
        rising(woken_below(v, i, n)),
        forall|c: int| #[trigger] woken_below(v, i, n).contains(c) <==> 0 <= c < n && wakes(v, i, c),
    decreases n,
{
    if n > 0 {
        let w = woken_below(v, i, (n - 1) as nat);
        lemma_woken_below(v, i, (n - 1) as nat);
        assert forall|k: int| 0 <= k < w.len() implies 0 <= #[trigger] w[k] < n - 1 by {
            assert(w.contains(w[k]));
        }
        let all = woken_below(v, i, n);
        assert forall|c: int| all.contains(c) <==> 0 <= c < n && wakes(v, i, c) by {
            if all.contains(c) {
                let k = choose|k: int| 0 <= k < all.len() && all[k] == c;
                if k < w.len() {
                    assert(w[k] == c);
                    assert(w.contains(c));
                }
            }
            if 0 <= c < n && wakes(v, i, c) {
                if c == n - 1 {
                    assert(all[w.len() as int] == c);
                } else {
                    assert(w.contains(c));
                    let k = choose|k: int| 0 <= k < w.len() && w[k] == c;
                    assert(all[k] == c);
                }
            }
        }
    }
}

/// Counting after one stage has changed.
proof fn lemma_count_update(stages: Seq<Stage>, i: int, to: Stage, s: Stage)
    requires
        0 <= i < stages.len(),
    ensures
        count(stages.update(i, to), s) + if stages[i] == s {
            1nat
        } else {
            0nat
        } == count(stages, s) + if to == s {
            1nat
        } else {
            0nat
        },
    decreases stages.len(),
{
    let u = stages.update(i, to);
    if i == stages.len() - 1 {
        assert(u.drop_last() =~= stages.drop_last());
    } else {
        lemma_count_update(stages.drop_last(), i, to, s);
        assert(u.drop_last() =~= stages.drop_last().update(i, to));
    }
}

proof fn lemma_count_bound(stages: Seq<Stage>, a: Stage, b: Stage)
    requires
        a != b,
    ensures
        count(stages, a) + count(stages, b) <= stages.len(),
        count(stages, a) == 0 ==> forall|i: int| 0 <= i < stages.len() ==> #[trigger] stages[i] != a,
    decreases stages.len(),
{
    if stages.len() > 0 {
        lemma_count_bound(stages.drop_last(), a, b);
        if count(stages, a) == 0 {
            assert forall|i: int| 0 <= i < stages.len() implies #[trigger] stages[i] != a by {
                if i < stages.len() - 1 {
                    assert(stages.drop_last()[i] == stages[i]);
                }
            }
        }
    }
}

/// Dropping an item.
proof fn lemma_without(s: Seq<int>, i: int)
    ensures
        forall|x: int| #[trigger] without(s, i).contains(x) <==> s.contains(x) && x != i,
        s.no_duplicates() ==> without(s, i).no_duplicates(),
    decreases s.len(),
{
    reveal(Seq::filter);
    if s.len() > 0 {
        let init = s.drop_last();
        lemma_without(init, i);
        let w = without(init, i);
        assert forall|x: int| #[trigger] without(s, i).contains(x) <==> s.contains(x) && x != i by {
            if s.contains(x) && x != i {
                let k = choose|k: int| 0 <= k < s.len() && s[k] == x;
                if k < init.len() {
                    assert(init[k] == x);
                    assert(w.contains(x));
                    let m = choose|m: int| 0 <= m < w.len() && w[m] == x;
                    assert(without(s, i)[m] == x);
                } else {
                    assert(without(s, i)[w.len() as int] == x);
                }
            }
            if without(s, i).contains(x) {
                let m = choose|m: int| 0 <= m < without(s, i).len() && without(s, i)[m] == x;
                if m < w.len() {
                    assert(w[m] == x);
                    assert(w.contains(x));
                    let k = choose|k: int| 0 <= k < init.len() && init[k] == x;
                    assert(s[k] == x);
                } else {
                    assert(s[s.len() - 1] == x);
                }
            }
        }
        if s.no_duplicates() {
            assert(init.no_duplicates());
            if s.last() != i {
                assert(!init.contains(s.last())) by {
                    if init.contains(s.last()) {
                        let k = choose|k: int| 0 <= k < init.len() && init[k] == s.last();
                        assert(s[k] == s[s.len() - 1]);
                    }
                }
                assert(!w.contains(s.last()));
                assert(without(s, i) =~= w.push(s.last()));
                assert forall|a: int, b: int|
                    0 <= a < without(s, i).len() && 0 <= b < without(s, i).len() && a != b implies without(s, i)[a]
                    != without(s, i)[b] by {
                    if a < w.len() && b < w.len() {
                    } else if a < w.len() {
                        assert(w.contains(w[a]));
                    } else {
                        assert(w.contains(w[b]));
                    }
                }
            }
        }
    }
}

/// Law: whatever blobs come and pours end, a schedule stays sound: nothing is
/// poured before its in-set dependencies are, nothing waits that could be
/// poured, and nothing is poured twice at once.
pub proof fn law_schedules_stay_sound(v: ScheduleV, i: int)
    requires
        sound(v),
        0 <= i < v.waits.len(),
    ensures
        v.stages[i] == Stage::Pending ==> sound(fetched(v, i)),
        v.stages[i] == Stage::Pouring ==> sound(finished(v, i)),
{
    if v.stages[i] == Stage::Pending {
        lemma_fetched_sound(v, i);
    }
    if v.stages[i] == Stage::Pouring {
        lemma_finished_sound(v, i);
    }
}

proof fn lemma_fetched_sound(v: ScheduleV, i: int)
    requires
        sound(v),
        0 <= i < v.waits.len(),
        v.stages[i] == Stage::Pending,
    ensures
        sound(fetched(v, i)),
{
    let u = fetched(v, i);
    assert forall|c: int| 0 <= c < v.waits.len() implies #[trigger] ready(u, c) == ready(v, c) by {
        assert forall|k: int| 0 <= k < v.waits[c].len() implies ((u.stages[#[trigger] v.waits[c][k]]
            == Stage::Poured) == (v.stages[v.waits[c][k]] == Stage::Poured)) by {}
    }
    assert(!v.pouring.contains(i));
    assert forall|c: int|
        u.pouring.contains(c) <==> 0 <= c < u.waits.len() && #[trigger] u.stages[c] == Stage::Pouring by {
        if ready(v, i) {
            if v.pouring.contains(c) {
                let k = choose|k: int| 0 <= k < v.pouring.len() && v.pouring[k] == c;
                assert(u.pouring[k] == c);
            }
            if c == i {
                assert(u.pouring[v.pouring.len() as int] == c);
            }
            if u.pouring.contains(c) && c != i {
                let k = choose|k: int| 0 <= k < u.pouring.len() && u.pouring[k] == c;
                assert(v.pouring[k] == c);
                assert(v.pouring.contains(c));
            }
            if 0 <= c < u.waits.len() && u.stages[c] == Stage::Pouring && c != i {
                assert(v.stages[c] == Stage::Pouring);
                assert(v.pouring.contains(c));
            }
        } else {
            if v.pouring.contains(c) {
                assert(v.stages[c] == Stage::Pouring);
            }
            if 0 <= c < u.waits.len() && u.stages[c] == Stage::Pouring {
                assert(v.stages[c] == Stage::Pouring);
            }
        }
    }
    assert(u.pouring.no_duplicates());
}

proof fn lemma_finished_sound(v: ScheduleV, i: int)
    requires
        sound(v),
        0 <= i < v.waits.len(),
        v.stages[i] == Stage::Pouring,
    ensures
        sound(finished(v, i)),
{
    let u = finished(v, i);
    let wk = woken(v, i);
    let rest = without(v.pouring, i);
    lemma_woken_below(v, i, v.waits.len());
    lemma_without(v.pouring, i);
    assert forall|c: int| 0 <= c < u.waits.len() && (#[trigger] u.stages[c] == Stage::Pouring
        || u.stages[c] == Stage::Poured) implies ready(u, c) by {
        assert forall|k: int| 0 <= k < u.waits[c].len() implies u.stages[#[trigger] u.waits[c][k]]
            == Stage::Poured by {
            let x = v.waits[c][k];
            if c != i && wk.contains(c) {
                assert(wakes(v, i, c));
            } else {
                assert(v.stages[c] == Stage::Pouring || v.stages[c] == Stage::Poured);
                assert(ready(v, c));
            }
            assert(x == i || v.stages[x] == Stage::Poured);
            assert(!wk.contains(x) || x == i);
        }
    }
    assert forall|c: int| 0 <= c < u.waits.len() && #[trigger] u.stages[c] == Stage::Idle implies !ready(
        u,
        c,
    ) by {
        assert(v.stages[c] == Stage::Idle && !wk.contains(c));
        if ready(u, c) {
            assert(!ready(v, c));
            let k = choose|k: int|
                0 <= k < v.waits[c].len() && v.stages[#[trigger] v.waits[c][k]] != Stage::Poured;
            assert(u.stages[u.waits[c][k]] == Stage::Poured);
            assert(v.waits[c][k] == i);
            assert forall|m: int| 0 <= m < v.waits[c].len() implies v.waits[c][m] == i || v.stages[
            #[trigger] v.waits[c][m]] == Stage::Poured by {
                assert(u.stages[u.waits[c][m]] == Stage::Poured);
            }
            assert(v.waits[c].contains(i));
            assert(wakes(v, i, c));
        }
    }
    assert forall|c: int|
        u.pouring.contains(c) <==> 0 <= c < u.waits.len() && #[trigger] u.stages[c] == Stage::Pouring by {
        lemma_concat_contains(rest, wk, c);
        if rest.contains(c) {
            assert(v.pouring.contains(c));
            assert(v.stages[c] == Stage::Pouring);
        }
        if wk.contains(c) {
            assert(wakes(v, i, c));
            assert(c != i);
        }
        if 0 <= c < u.waits.len() && u.stages[c] == Stage::Pouring && !wk.contains(c) {
            assert(c != i && v.stages[c] == Stage::Pouring);
            assert(v.pouring.contains(c));
        }
    }
    assert forall|a: int, b: int|
        0 <= a < u.pouring.len() && 0 <= b < u.pouring.len() && a != b implies u.pouring[a]
        != u.pouring[b] by {
        let n = rest.len();
        if a < n && b < n {
            assert(rest[a] != rest[b]);
        } else if a >= n && b >= n {
            assert(wk[a - n] != wk[b - n]) by {
                if a < b {
                    assert(wk[a - n] < wk[b - n]);
                } else {
                    assert(wk[b - n] < wk[a - n]);
                }
            }
        } else {
            let (x, y) = if a < n {
                (rest[a], wk[b - n])
            } else {
                (rest[b], wk[a - n])
            };
            assert(rest.contains(x));
            assert(wk.contains(y));
            assert(v.pouring.contains(x));
            assert(v.stages[x] == Stage::Pouring);
            assert(wakes(v, i, y));
        }
    }
}

/// What two sequences hold together.
proof fn lemma_concat_contains(a: Seq<int>, b: Seq<int>, x: int)
    ensures
        (a + b).contains(x) <==> a.contains(x) || b.contains(x),
{
    if a.contains(x) {
        let k = choose|k: int| 0 <= k < a.len() && a[k] == x;
        assert((a + b)[k] == x);
    }
    if b.contains(x) {
        let k = choose|k: int| 0 <= k < b.len() && b[k] == x;
        assert((a + b)[a.len() + k] == x);
    }
    if (a + b).contains(x) {
        let k = choose|k: int| 0 <= k < (a + b).len() && (a + b)[k] == x;
        if k < a.len() {
            assert(a[k] == x);
        } else {
            assert(b[k - a.len()] == x);
        }
    }
}

/// Every item waits for earlier items only.
pub open spec fn forward(waits: Seq<Seq<int>>) -> bool {
    forall|i: int, k: int|
        0 <= i < waits.len() && 0 <= k < waits[i].len() ==> #[trigger] waits[i][k] < i
}

/// Law: where dependencies stand before their dependents, a schedule never
/// stalls: until everything is poured, some blob is still to come or some keg
/// is being poured.
pub proof fn law_schedules_never_stall(v: ScheduleV, i: int)
    requires
        sound(v),
        forward(v.waits),
        0 <= i < v.waits.len(),
        v.stages[i] != Stage::Poured,
    ensures
        exists|c: int|
            0 <= c <= i && (#[trigger] v.stages[c] == Stage::Pending || v.stages[c] == Stage::Pouring),
    decreases i,
{
    if v.stages[i] == Stage::Idle {
        assert(!ready(v, i));
        let k = choose|k: int|
            0 <= k < v.waits[i].len() && v.stages[#[trigger] v.waits[i][k]] != Stage::Poured;
        let j = v.waits[i][k];
        assert(j < i);
        law_schedules_never_stall(v, j);
        let c = choose|c: int|
            0 <= c <= j && (#[trigger] v.stages[c] == Stage::Pending || v.stages[c] == Stage::Pouring);
        assert(0 <= c <= i);
    }
}

/// Law: a pour that ends leaves one item more poured; what is poured stays so,
/// and no other item is skipped.
pub proof fn law_pours_make_progress(v: ScheduleV, i: int, c: int)
    requires
        sound(v),
        0 <= i < v.waits.len(),
        0 <= c < v.waits.len(),
        v.stages[i] == Stage::Pouring,
    ensures
        finished(v, i).stages[c] == Stage::Poured <==> v.stages[c] == Stage::Poured || c == i,
        finished(v, i).stages[c] == Stage::Pending <==> v.stages[c] == Stage::Pending,
{
    lemma_woken_below(v, i, v.waits.len());
    if woken(v, i).contains(c) {
        assert(wakes(v, i, c));
    }
}

/// The bookkeeping of a schedule: how many in-set dependencies each item still
/// waits for, and whom to wake when it is done.
struct Books {
    waits: Ghost<Seq<Seq<int>>>,
    stages: Vec<Stage>,
    pouring: Vec<usize>,
    deps_left: Vec<usize>,
    children: Vec<Vec<usize>>,
    fetched: usize,
    finished: usize,
}

impl View for Books {
    type V = ScheduleV;

    closed spec fn view(&self) -> ScheduleV {
        ScheduleV {
            waits: self.waits@,
            stages: self.stages@,
            pouring: positions(self.pouring@),
        }
    }
}

/// `children` holds for each item those that wait for it, each as often as it
/// waits, in order.
spec fn mirrored(waits: Seq<Seq<int>>, children: Seq<Vec<usize>>) -> bool {
    &&& children.len() == waits.len()
    &&& forall|j: int, c: int|
        0 <= j < waits.len() && 0 <= c < waits.len() ==> #[trigger] occurrences(
            positions(children[j]@),
            c,
        ) == occurrences(waits[c], j)
    &&& forall|j: int, k: int|
        0 <= j < waits.len() && 0 <= k < children[j]@.len() ==> #[trigger] children[j]@[k] < waits.len()
    &&& forall|j: int, a: int, b: int|
        0 <= j < waits.len() && 0 <= a < b < children[j]@.len() ==> #[trigger] children[j]@[a]
            <= #[trigger] children[j]@[b]
}

/// The names of items, in order.
fn list_names(items: &Vec<InstallItem>) -> (r: Vec<String>)
    ensures
        texts(r@) == item_names(item_views(items@)),
{
    let mut r: Vec<String> = Vec::new();
    for i in 0..items.len()
        invariant
            r@.len() == i,
            forall|k: int| 0 <= k < i ==> (#[trigger] r@[k])@ == items@[k].spec.name@,
    {
        r.push(items[i].spec.name.clone());
    }
    assert(texts(r@) =~= item_names(item_views(items@)));
    r
}

proof fn lemma_positions_push(v: Seq<usize>, x: usize)
    ensures
        positions(v.push(x)) == positions(v).push(x as int),
{
    assert(positions(v.push(x)) =~= positions(v).push(x as int));
}

/// Entering one more wait on both sides.
proof fn lemma_mirrored_push(
    w: Seq<Seq<int>>,
    children: Seq<Vec<usize>>,
    w1: Seq<Seq<int>>,
    children1: Seq<Vec<usize>>,
    i: usize,
    j: usize,
)
    requires
        mirrored(w, children),
        i < w.len(),
        j < w.len(),
        w1 == w.update(i as int, w[i as int].push(j as int)),
        children1.len() == children.len(),
        children1[j as int]@ == children[j as int]@.push(i),
        forall|c: int| 0 <= c < children.len() && c != j ==> children1[c] == children[c],
        forall|c: int, k: int| 0 <= c < w.len() && 0 <= k < children[c]@.len() ==> children[c]@[k] <= i,
    ensures
        mirrored(w1, children1),
        forall|c: int, k: int| 0 <= c < w.len() && 0 <= k < children1[c]@.len() ==> children1[c]@[k] <= i,
{
    lemma_positions_push(children[j as int]@, i);
    let kids = positions(children[j as int]@);
    assert(kids.push(i as int).drop_last() =~= kids);
    assert(w[i as int].push(j as int).drop_last() =~= w[i as int]);
    assert forall|a: int, c: int| 0 <= a < w1.len() && 0 <= c < w1.len() implies #[trigger] occurrences(
        positions(children1[a]@),
        c,
    ) == occurrences(w1[c], a) by {
        assert(occurrences(positions(children[a]@), c) == occurrences(w[c], a));
    }
}

impl Books {
    /// The bookkeeping is right.
    spec fn wf(&self) -> bool {
        &&& sound(self@)
        &&& mirrored(self.waits@, self.children@)
        &&& self.deps_left@.len() == self.waits@.len()
        &&& forall|c: int|
            0 <= c < self.waits@.len() ==> #[trigger] self.deps_left@[c] == open_waits(
                self.waits@[c],
                self.stages@,
            )
        &&& self.fetched + count(self.stages@, Stage::Pending) == self.stages@.len()
        &&& self.finished == count(self.stages@, Stage::Poured)
    }

    /// The bookkeeping for the given items before anything has happened.
    fn new(items: &Vec<InstallItem>) -> (r: Books)
        ensures
            r.wf(),
            r@ == unstarted(waits_of(item_views(items@))),
    {
        let ghost views = item_views(items@);
        let ghost names = item_names(views);
        let known = list_names(items);
        let ghost mut w: Seq<Seq<int>> = Seq::new(items@.len(), |i: int| Seq::empty());
        let mut stages: Vec<Stage> = Vec::new();
        let mut deps_left: Vec<usize> = Vec::new();
        let mut children: Vec<Vec<usize>> = Vec::new();
        for i in 0..items.len()
            invariant
                stages@.len() == i,
                deps_left@.len() == i,
                children@.len() == i,
                forall|c: int| 0 <= c < i ==> #[trigger] stages@[c] == Stage::Pending,
                forall|c: int| 0 <= c < i ==> #[trigger] deps_left@[c] == 0,
                forall|c: int| 0 <= c < i ==> (#[trigger] children@[c])@.len() == 0,
        {
            stages.push(Stage::Pending);
            deps_left.push(0);
            children.push(Vec::new());
        }
        for i in 0..items.len()
            invariant
                views == item_views(items@),
                names == item_names(views),
                texts(known@) == names,
                w.len() == items@.len(),
                deps_left@.len() == items@.len(),
                mirrored(w, children@),
                forall|c: int| 0 <= c < i ==> #[trigger] w[c] == in_set(names, c, views[c].spec.deps),
                forall|c: int| i <= c < w.len() ==> (#[trigger] w[c]).len() == 0,
                forall|c: int| 0 <= c < w.len() ==> #[trigger] deps_left@[c] == w[c].len(),
                forall|c: int, k: int|
                    0 <= c < w.len() && 0 <= k < children@[c]@.len() ==> children@[c]@[k] < i,
        {
            let deps = &items[i].spec.deps;
            let ghost ds = texts(deps@);
            assert(views[i as int].spec.deps == ds);
            assert(ds.take(0) =~= Seq::empty());
            assert(w[i as int] =~= in_set(names, i as int, ds.take(0)));
            for k in 0..deps.len()
                invariant
                    i < items@.len(),
                    ds == texts(deps@),
                    views == item_views(items@),
                    names == item_names(views),
                    texts(known@) == names,
                    w.len() == items@.len(),
                    deps_left@.len() == items@.len(),
                    mirrored(w, children@),
                    forall|c: int| 0 <= c < i ==> #[trigger] w[c] == in_set(names, c, views[c].spec.deps),
                    forall|c: int| i < c < w.len() ==> (#[trigger] w[c]).len() == 0,
                    w[i as int] == in_set(names, i as int, ds.take(k as int)),
                    w[i as int].len() <= k,
                    forall|c: int| 0 <= c < w.len() ==> #[trigger] deps_left@[c] == w[c].len(),
                    forall|c: int, m: int|
                        0 <= c < w.len() && 0 <= m < children@[c]@.len() ==> children@[c]@[m] <= i,
            {
                let found = text::find_last(&known, deps[k].as_str());
                proof {
                    assert(texts(known@).len() == items@.len());
                    assert(ds.take(k + 1).drop_last() =~= ds.take(k as int));
                    assert(ds.take(k + 1).last() == deps@[k as int]@);
                }
                if let Some(j) = found {
                    if j != i {
                        let ghost w0 = w;
                        let ghost children0 = children@;
                        deps_left[i] = deps_left[i] + 1;
                        children[j].push(i);
                        proof {
                            w = w.update(i as int, w[i as int].push(j as int));
                            lemma_mirrored_push(w0, children0, w, children@, i, j);
                        }
                    }
                }
            }
            assert(ds.take(deps@.len() as int) =~= ds);
        }
        let r = Books {
            waits: Ghost(w),
            stages,
            pouring: Vec::new(),
            deps_left,
            children,
            fetched: 0,
            finished: 0,
        };
        proof {
            assert(w =~= waits_of(views));
            lemma_waits_valid(views);
            assert(r@.stages =~= unstarted(w).stages);
            assert(r@.pouring =~= Seq::empty());
            lemma_unstarted(w);
            assert forall|c: int| 0 <= c < w.len() implies #[trigger] r.deps_left@[c] == open_waits(
                w[c],
                r.stages@,
            ) by {
                lemma_open_waits(w[c], r.stages@);
            }
        }
        r
    }
}

/// What a dependency of the set names.
proof fn lemma_in_set(names: Seq<Seq<char>>, i: int, deps: Seq<Seq<char>>, k: int)
    requires
        0 <= k < in_set(names, i, deps).len(),
    ensures
        0 <= in_set(names, i, deps)[k] < names.len(),
        in_set(names, i, deps)[k] != i,
        exists|m: int|
            0 <= m < deps.len() && last_position(names, #[trigger] deps[m]) == Some(
                in_set(names, i, deps)[k],
            ),
    decreases deps.len(),
{
    if deps.len() > 0 {
        let before = in_set(names, i, deps.drop_last());
        text::lemma_last_position(names, deps.last());
        if k < before.len() {
            lemma_in_set(names, i, deps.drop_last(), k);
            let m = choose|m: int|
                0 <= m < deps.drop_last().len() && last_position(names, #[trigger] deps.drop_last()[m])
                    == Some(before[k]);
            assert(deps[m] == deps.drop_last()[m]);
        } else {
            assert(deps[deps.len() - 1] == deps.last());
        }
    }
}

/// Items wait for other items of the set.
pub proof fn lemma_waits_valid(items: Seq<ItemV>)
    ensures
        forall|i: int, k: int|
            0 <= i < waits_of(items).len() && 0 <= k < waits_of(items)[i].len() ==> 0
                <= #[trigger] waits_of(items)[i][k] < items.len() && waits_of(items)[i][k] != i,
{
    assert forall|i: int, k: int|
        0 <= i < waits_of(items).len() && 0 <= k < waits_of(items)[i].len() implies 0
        <= #[trigger] waits_of(items)[i][k] < items.len() && waits_of(items)[i][k] != i by {
        lemma_in_set(item_names(items), i, items[i].spec.deps, k);
    }
}

/// The state before anything has happened is sound.
pub proof fn lemma_unstarted(waits: Seq<Seq<int>>)
    requires
        forall|i: int, k: int|
            0 <= i < waits.len() && 0 <= k < waits[i].len() ==> 0 <= #[trigger] waits[i][k] < waits.len()
                && waits[i][k] != i,
    ensures
        sound(unstarted(waits)),
        count(unstarted(waits).stages, Stage::Pending) == waits.len(),
        count(unstarted(waits).stages, Stage::Poured) == 0,
{
    lemma_all_pending(unstarted(waits).stages);
}

proof fn lemma_all_pending(stages: Seq<Stage>)
    requires
        forall|i: int| 0 <= i < stages.len() ==> #[trigger] stages[i] == Stage::Pending,
    ensures
        count(stages, Stage::Pending) == stages.len(),
        count(stages, Stage::Poured) == 0,
    decreases stages.len(),
{
    if stages.len() > 0 {
        assert(stages[stages.len() - 1] == Stage::Pending);
        lemma_all_pending(stages.drop_last());
    }
}

/// `v` without `i`.
fn drop_item(v: &Vec<usize>, i: usize) -> (r: Vec<usize>)
    ensures
        positions(r@) == without(positions(v@), i as int),
{
    let mut r: Vec<usize> = Vec::new();
    let ghost all = positions(v@);
    assert(positions(r@) =~= without(all.take(0), i as int)) by {
        reveal(Seq::filter);
    }
    for k in 0..v.len()
        invariant
            all == positions(v@),
            positions(r@) == without(all.take(k as int), i as int),
    {
        let ghost before = r@;
        let x = v[k];
        proof {
            reveal(Seq::filter);
            assert(all.take(k + 1).drop_last() =~= all.take(k as int));
            assert(all.take(k + 1).last() == x);
            lemma_positions_push(before, x);
        }
        if x != i {
            r.push(x);
        }
    }
    assert(all.take(v@.len() as int) =~= all);
    r
}

impl Books {
    /// Enters that the blob of an item has come, and tells whether it is to be
    /// poured now.
    fn on_downloaded(&mut self, i: usize) -> (r: bool)
        requires
            old(self).wf(),
            i < old(self)@.waits.len(),
            old(self)@.stages[i as int] == Stage::Pending,
        ensures
            final(self).wf(),
            final(self)@ == fetched(old(self)@, i as int),
            r == ready(old(self)@, i as int),
    {
        let ghost v = self@;
        let ghost st = self.stages@;
        proof {
            lemma_open_waits(v.waits[i as int], st);
            lemma_fetched_sound(v, i as int);
            lemma_count_bound(st, Stage::Pending, Stage::Poured);
            lemma_positions_push(self.pouring@, i);
        }
        let start = self.deps_left[i] == 0;
        let to = if start {
            Stage::Pouring
        } else {
            Stage::Idle
        };
        proof {
            lemma_count_update(st, i as int, to, Stage::Pending);
            lemma_count_update(st, i as int, to, Stage::Poured);
            assert(count(st, Stage::Pending) > 0);
            assert(self.fetched < self.stages.len());
        }
        self.stages[i] = to;
        self.fetched = self.fetched + 1;
        if start {
            self.pouring.push(i);
        }
        proof {
            assert(self.stages@ =~= st.update(i as int, to));
            assert(self@ == fetched(v, i as int));
            assert forall|c: int| 0 <= c < v.waits.len() implies #[trigger] self.deps_left@[c] == open_waits(
                v.waits[c],
                self.stages@,
            ) by {
                lemma_open_waits_same(v.waits[c], st, self.stages@);
            }
        }
        start
    }

    /// Enters that an item is poured, and tells which items are to be poured
    /// now.
    fn on_poured(&mut self, i: usize) -> (r: Vec<usize>)
        requires
            old(self).wf(),
            i < old(self)@.waits.len(),
            old(self)@.stages[i as int] == Stage::Pouring,
        ensures
            final(self).wf(),
            final(self)@ == finished(old(self)@, i as int),
            positions(r@) == woken(old(self)@, i as int),
    {
        let ghost v = self@;
        let ghost st = self.stages@;
        let ghost w = v.waits;
        let ghost st1 = st.update(i as int, Stage::Poured);
        let ghost kids = positions(self.children@[i as int]@);
        proof {
            lemma_finished_sound(v, i as int);
            lemma_count_bound(st, Stage::Poured, Stage::Pouring);
            lemma_count_update(st, i as int, Stage::Poured, Stage::Poured);
            lemma_count_update(st, i as int, Stage::Poured, Stage::Pending);
            lemma_count_bound(st1, Stage::Poured, Stage::Pending);
        }
        self.stages[i] = Stage::Poured;
        self.finished = self.finished + 1;
        self.pouring = drop_item(&self.pouring, i);
        let mut r: Vec<usize> = Vec::new();
        let n = self.children[i].len();
        proof {
            assert(self.stages@ =~= st1);
            assert(positions(r@) =~= Seq::empty());
            assert(self@.pouring + positions(r@) =~= without(v.pouring, i as int));
            assert forall|c: int| 0 <= c < w.len() implies #[trigger] self.deps_left@[c] + occurrences(
                kids.take(0),
                c,
            ) == open_waits(w[c], st) by {}
        }
        for k in 0..n
            invariant
                i < w.len(),
                sound(v),
                v.waits == w,
                v.stages == st,
                st[i as int] == Stage::Pouring,
                st.len() == w.len(),
                self.waits@ == w,
                mirrored(w, self.children@),
                kids == positions(self.children@[i as int]@),
                n == self.children@[i as int]@.len(),
                self.stages@.len() == w.len(),
                self.deps_left@.len() == w.len(),
                forall|c: int|
                    0 <= c < w.len() ==> #[trigger] self.deps_left@[c] + occurrences(
                        kids.take(k as int),
                        c,
                    ) == open_waits(w[c], st),
                forall|c: int|
                    #[trigger] positions(r@).contains(c) <==> 0 <= c < w.len() && st[c] == Stage::Idle
                        && occurrences(kids.take(k as int), c) > 0 && self.deps_left@[c] == 0,
                forall|c: int|
                    0 <= c < w.len() ==> #[trigger] self.stages@[c] == if c == i {
                        Stage::Poured
                    } else if positions(r@).contains(c) {
                        Stage::Pouring
                    } else {
                        st[c]
                    },
                rising(positions(r@)),
                positions(self.pouring@) == without(v.pouring, i as int) + positions(r@),
                self.finished == count(self.stages@, Stage::Poured),
                self.fetched + count(self.stages@, Stage::Pending) == self.stages@.len(),
        {
            let c = self.children[i][k];
            let ghost seen = kids.take(k as int);
            let ghost left = self.deps_left@;
            let ghost before = r@;
            let ghost st2 = self.stages@;
            let ghost busy = self.pouring@;
            proof {
                assert(kids[k as int] == c);
                lemma_occurrences_take(kids, k as int, c as int);
                lemma_occurrences_take(kids, k + 1, c as int);
                assert(occurrences(kids, c as int) == occurrences(w[c as int], i as int));
                lemma_open_waits_poured(w[c as int], st, i as int);
                assert(left[c as int] + occurrences(seen, c as int) == open_waits(w[c as int], st));
                assert(left[c as int] >= 1);
                assert forall|x: int| #[trigger] occurrences(kids.take(k + 1), x) == occurrences(seen, x) + if x
                    == c {
                    1nat
                } else {
                    0nat
                } by {
                    lemma_occurrences_take(kids, k as int, x);
                }
            }
            self.deps_left[c] = self.deps_left[c] - 1;
            if self.deps_left[c] == 0 && matches!(self.stages[c], Stage::Idle) {
                self.stages[c] = Stage::Pouring;
                self.pouring.push(c);
                r.push(c);
                proof {
                    lemma_count_update(st2, c as int, Stage::Pouring, Stage::Poured);
                    lemma_count_update(st2, c as int, Stage::Pouring, Stage::Pending);
                    assert(self.stages@ =~= st2.update(c as int, Stage::Pouring));
                    lemma_positions_push(before, c);
                    lemma_positions_push(busy, c);
                    assert(positions(self.pouring@) =~= without(v.pouring, i as int) + positions(r@));
                    lemma_woken_push(kids, k as int, positions(before), left, self.children@[i as int]@);
                    text::lemma_push_contains(positions(before), c as int);
                }
            }
        }
        proof {
            assert(kids.take(n as int) =~= kids);
            let wk = positions(r@);
            assert forall|c: int| 0 <= c < w.len() implies #[trigger] self.deps_left@[c] == open_waits(
                w[c],
                st1,
            ) by {
                assert(occurrences(kids, c) == occurrences(w[c], i as int));
                lemma_open_waits_poured(w[c], st, i as int);
                assert(self.deps_left@[c] + occurrences(kids.take(n as int), c) == open_waits(w[c], st));
            }
            lemma_woken_below(v, i as int, w.len());
            assert forall|c: int| #[trigger] wk.contains(c) <==> woken(v, i as int).contains(c) by {
                if 0 <= c < w.len() {
                    assert(occurrences(kids, c) == occurrences(w[c], i as int));
                    lemma_occurrences(w[c], i as int);
                    lemma_open_waits(w[c], st1);
                    assert(self.deps_left@[c] == open_waits(w[c], st1));
                    lemma_wakes_open(v, i as int, c);
                }
            }
            lemma_rising_unique(wk, woken(v, i as int));
            assert(self.stages@ =~= finished(v, i as int).stages);
            assert(self@ == finished(v, i as int));
            assert forall|c: int| 0 <= c < w.len() implies #[trigger] self.deps_left@[c] == open_waits(
                w[c],
                self.stages@,
            ) by {
                assert(self.deps_left@[c] == open_waits(w[c], st1));
                assert forall|k: int| 0 <= k < w[c].len() implies ((st1[#[trigger] w[c][k]] == Stage::Poured)
                    == (self.stages@[w[c][k]] == Stage::Poured)) by {
                    let x = w[c][k];
                    if wk.contains(x) {
                        assert(st[x] == Stage::Idle);
                    }
                }
                lemma_open_waits_same(w[c], st1, self.stages@);
            }
        }
        r
    }
}

/// A schedule: which items wait, are being poured and are done.
pub struct Schedule {
    books: Books,
}

impl View for Schedule {
    type V = ScheduleV;

    closed spec fn view(&self) -> ScheduleV {
        self.books@
    }
}

impl Schedule {
    #[verifier::type_invariant]
    spec fn kept(self) -> bool {
        self.books.wf()
    }

    /// A schedule for the given items.
    pub fn new(items: &Vec<InstallItem>) -> (r: Schedule)
        ensures
            r@ == unstarted(waits_of(item_views(items@))),
            sound(r@),
    {
        Schedule { books: Books::new(items) }
    }

    /// How many items there are.
    pub fn len(&self) -> (r: usize)
        ensures
            r == self@.waits.len(),
    {
        proof {
            use_type_invariant(self);
        }
        self.books.stages.len()
    }

    /// How far an item has come.
    pub fn stage(&self, i: usize) -> (r: Stage)
        requires
            i < self@.waits.len(),
        ensures
            r == self@.stages[i as int],
    {
        proof {
            use_type_invariant(self);
        }
        self.books.stages[i]
    }

    /// The items that are being poured, in the order in which they were
    /// started.
    pub fn pouring(&self) -> (r: &Vec<usize>)
        ensures
            positions(r@) == self@.pouring,
    {
        &self.books.pouring
    }

    /// How many blobs are there.
    pub fn downloads_done(&self) -> (r: usize)
        ensures
            r + count(self@.stages, Stage::Pending) == self@.stages.len(),
    {
        proof {
            use_type_invariant(self);
        }
        self.books.fetched
    }

    /// How many items are poured.
    pub fn poured_count(&self) -> (r: usize)
        ensures
            r == count(self@.stages, Stage::Poured),
    {
        proof {
            use_type_invariant(self);
        }
        self.books.finished
    }

    /// Enters that the blob of an item has come, and tells whether it is to be
    /// poured now.
    pub fn on_downloaded(&mut self, i: usize) -> (r: bool)
        requires
            i < old(self)@.waits.len(),
            old(self)@.stages[i as int] == Stage::Pending,
        ensures
            final(self)@ == fetched(old(self)@, i as int),
            sound(final(self)@),
            r == ready(old(self)@, i as int),
    {
        proof {
            use_type_invariant(&*self);
        }
        let mut books = Books::new(&Vec::new());
        std::mem::swap(&mut books, &mut self.books);
        let r = books.on_downloaded(i);
        self.books = books;
        r
    }

    /// Enters that an item is poured, and tells which items are to be poured
    /// now.
    pub fn on_poured(&mut self, i: usize) -> (r: Vec<usize>)
        requires
            i < old(self)@.waits.len(),
            old(self)@.stages[i as int] == Stage::Pouring,
        ensures
            final(self)@ == finished(old(self)@, i as int),
            sound(final(self)@),
            positions(r@) == woken(old(self)@, i as int),
    {
        proof {
            use_type_invariant(&*self);
        }
        let mut books = Books::new(&Vec::new());
        std::mem::swap(&mut books, &mut self.books);
        let r = books.on_poured(i);
        self.books = books;
        r
    }
}

/// Nothing that an idle item waits for is left open but the item `i`.
proof fn lemma_wakes_open(v: ScheduleV, i: int, c: int)
    requires
        sound(v),
        0 <= i < v.waits.len(),
        0 <= c < v.waits.len(),
    ensures
        wakes(v, i, c) <==> v.stages[c] == Stage::Idle && v.waits[c].contains(i) && open_waits(
            v.waits[c],
            v.stages.update(i, Stage::Poured),
        ) == 0,
{
    let st1 = v.stages.update(i, Stage::Poured);
    let ws = v.waits[c];
    lemma_open_waits(ws, st1);
    if wakes(v, i, c) {
        assert forall|k: int| 0 <= k < ws.len() implies st1[#[trigger] ws[k]] == Stage::Poured by {
            assert(v.waits[c][k] == i || v.stages[v.waits[c][k]] == Stage::Poured);
        }
    }
    if v.stages[c] == Stage::Idle && ws.contains(i) && open_waits(ws, st1) == 0 {
        assert forall|k: int| 0 <= k < v.waits[c].len() implies v.waits[c][k] == i || v.stages[
        #[trigger] v.waits[c][k]] == Stage::Poured by {
            assert(st1[ws[k]] == Stage::Poured);
        }
    }
}

/// One more woken item stands behind all that were woken before.
proof fn lemma_woken_push(
    kids: Seq<int>,
    k: int,
    woken: Seq<int>,
    left: Seq<usize>,
    children: Seq<usize>,
)
    requires
        kids == positions(children),
        0 <= k < kids.len(),
        forall|a: int, b: int| 0 <= a < b < children.len() ==> #[trigger] children[a] <= #[trigger] children[b],
        forall|c: int|
            #[trigger] woken.contains(c) ==> occurrences(kids.take(k), c) > 0 && left[c] == 0,
        left[kids[k]] >= 1,
        rising(woken),
    ensures
        rising(woken.push(kids[k])),
{
    let c = kids[k];
    assert forall|a: int| 0 <= a < woken.len() implies #[trigger] woken[a] < c by {
        let x = woken[a];
        assert(woken.contains(x));
        lemma_occurrences(kids.take(k), x);
        let m = choose|m: int| 0 <= m < kids.take(k).len() && kids.take(k)[m] == x;
        assert(children[m] <= children[k]);
    }
}

/// Where the items that pass a filter stand.
proof fn lemma_filter_positions<T>(s: Seq<T>, p: spec_fn(T) -> bool) -> (at: Seq<int>)
    ensures
        rising(at),
        at.len() == s.filter(p).len(),
        forall|i: int| 0 <= i < at.len() ==> 0 <= #[trigger] at[i] < s.len() && s[at[i]] == s.filter(p)[i],
    decreases s.len(),
{
    reveal(Seq::filter);
    if s.len() == 0 {
        Seq::empty()
    } else {
        let before = lemma_filter_positions(s.drop_last(), p);
        if p(s.last()) {
            before.push(s.len() - 1)
        } else {
            before
        }
    }
}

/// What stands at rising positions of an install order waits for earlier items
/// only.
pub proof fn lemma_forward(fs: Seq<Formula>, order: Seq<int>, at: Seq<int>, items: Seq<ItemV>)
    requires
        ordered(fs, order),
        rising(at),
        at.len() == items.len(),
        forall|i: int| 0 <= i < at.len() ==> 0 <= #[trigger] at[i] < order.len(),
        forall|i: int|
            0 <= i < items.len() ==> (#[trigger] items[i]).spec.name == fs[order[at[i]]].name@
                && items[i].spec.deps == texts(fs[order[at[i]]].dependencies@),
    ensures
        forward(waits_of(items)),
{
    let waits = waits_of(items);
    let names = item_names(items);
    assert forall|i: int, k: int| 0 <= i < waits.len() && 0 <= k < waits[i].len() implies #[trigger] waits[i][k]
        < i by {
        let deps = items[i].spec.deps;
        let j = waits[i][k];
        lemma_in_set(names, i, deps, k);
        let m = choose|m: int|
            0 <= m < deps.len() && last_position(names, #[trigger] deps[m]) == Some(j);
        let d = deps[m];
        text::lemma_last_position(names, d);
        assert(names[j] == d);
        let p = at[i];
        let own = order[at[j]];
        assert(resolver::deps_of(fs, order[p])[m] == d);
        assert(resolver::settled(fs, order, p, d));
        api::lemma_lookup(fs, d);
        assert(api::named(fs, d, own));
        assert(fs[lookup(fs, d)->0].name@ == d);
        let ns = names_of(fs, order.take(p));
        let q = choose|q: int| 0 <= q < ns.len() && ns[q] == d;
        assert(names_of(fs, order)[q] == d);
        assert(names_of(fs, order)[at[j]] == d);
        assert(q == at[j]);
        if j > i {
            assert(at[i] < at[j]);
        }
    }
}

/// Law: what is left to pour of an install order waits for earlier items only,
/// so that its schedule never stalls.
pub proof fn law_install_plans_run_forward(
    fs: Seq<Formula>,
    roots: Seq<Seq<char>>,
    order: Seq<int>,
    ctx: Ctx,
    existing: Set<Seq<char>>,
    items: Seq<ItemV>,
)
    requires
        resolution(fs, roots) == Ok::<Seq<int>, ResolveErrorV>(order),
        items.len() == missing(ctx, arranged(fs, order), existing).len(),
        forall|i: int|
            0 <= i < items.len() ==> (#[trigger] items[i]).spec.name == missing(
                ctx,
                arranged(fs, order),
                existing,
            )[i].name@ && items[i].spec.deps == texts(
                missing(ctx, arranged(fs, order), existing)[i].dependencies@,
            ),
    ensures
        forward(waits_of(items)),
        sound(unstarted(waits_of(items))),
{
    resolver::law_deps_before_dependents(fs, roots, order);
    let plan = arranged(fs, order);
    let at = lemma_filter_positions(plan, |f: Formula| !existing.contains(keg_of(ctx, f)));
    assert forall|i: int| 0 <= i < items.len() implies (#[trigger] items[i]).spec.name
        == fs[order[at[i]]].name@ && items[i].spec.deps == texts(fs[order[at[i]]].dependencies@) by {
        assert(plan[at[i]] == missing(ctx, plan, existing)[i]);
    }
    lemma_forward(fs, order, at, items);
    lemma_waits_valid(items);
    lemma_unstarted(waits_of(items));
}

/// The columns that the label of an item takes up: those of a dependency are
/// indented by two.
pub open spec fn item_width(it: ItemV) -> nat {
    label(Seq::empty(), it.spec.name, it.spec.version).len() + if it.via is Some {
        2nat
    } else {
        0nat
    }
}

/// The columns that the widest label takes up.
pub open spec fn widest(items: Seq<ItemV>) -> nat
    decreases items.len(),
{
    if items.len() == 0 {
        0
    } else if widest(items.drop_last()) < item_width(items.last()) {
        item_width(items.last())
    } else {
        widest(items.drop_last())
    }
}

/// The columns that the widest label takes up.
pub fn label_width(items: &Vec<InstallItem>) -> (r: usize)
    ensures
        r == widest(item_views(items@)),
{
    let ghost views = item_views(items@);
    let mut r: usize = 0;
    for i in 0..items.len()
        invariant
            views == item_views(items@),
            r == widest(views.take(i as int)),
    {
        let it = &items[i];
        let indent = if it.via.is_some() {
            "  "
        } else {
            ""
        };
        let shown = indent.to_string().concat(it.spec.name.as_str()).concat(" ").concat(
            it.spec.version.as_str(),
        );
        let used = text::chars_of(shown.as_str()).len();
        proof {
            reveal_strlit("  ");
            reveal_strlit("");
            reveal_strlit(" ");
            assert(views.take(i + 1).drop_last() =~= views.take(i as int));
            assert(views.take(i + 1).last() == it@);
            assert(used == item_width(it@));
        }
        if r < used {
            r = used;
        }
    }
    assert(views.take(items@.len() as int) =~= views);
    r
}

/// The first three names, and how many more there are.
pub open spec fn some_names(names: Seq<Seq<char>>) -> Seq<char> {
    if names.len() > 3 {
        joined(names.take(3), ", "@) + " +"@ + decimal((names.len() - 3) as nat)
    } else {
        joined(names, ", "@)
    }
}

/// What goes on: how many downloads, which pours, and how many kegs wait.
pub open spec fn activities(n: nat, done: nat, names: Seq<Seq<char>>, poured: nat) -> Seq<Seq<char>> {
    let downloading = if n - done < PARALLEL_DOWNLOADS {
        n - done
    } else {
        PARALLEL_DOWNLOADS as int
    };
    let idle = done - (poured + names.len());
    let parts = (if downloading > 0 {
        seq!["downloading "@ + decimal(downloading as nat)]
    } else {
        Seq::empty()
    }) + (if names.len() > 0 {
        seq!["pouring "@ + some_names(names)]
    } else {
        Seq::empty()
    }) + (if idle > 0 {
        seq![decimal(idle as nat) + " idle"@]
    } else {
        Seq::empty()
    });
    if parts.len() == 0 {
        seq!["finishing"@]
    } else {
        parts
    }
}

/// The summary line below the downloads.
pub fn sticky_line(n: usize, done: usize, pouring: &Vec<String>, poured: usize) -> (r: String)
    requires
        done <= n,
    ensures
        r@ == joined(activities(n as nat, done as nat, texts(pouring@), poured as nat), " · "@) + " · "@
            + decimal(poured as nat) + "/"@ + decimal(n as nat) + " installed"@,
{
    let ghost names = texts(pouring@);
    let mut parts: Vec<String> = Vec::new();
    assert(texts(parts@) =~= Seq::empty());
    let left: usize = n - done;
    let downloading: usize = if left < PARALLEL_DOWNLOADS {
        left
    } else {
        PARALLEL_DOWNLOADS
    };
    if downloading > 0 {
        parts.push("downloading ".to_string().concat(text::show(downloading as u64).as_str()));
    }
    if pouring.len() > 0 {
        let mut some = "pouring ".to_string();
        if pouring.len() > 3 {
            let first = vstd::slice::slice_subrange(pouring.as_slice(), 0, 3);
            assert(texts(first@) =~= names.take(3));
            some.append(text::join(first, ", ").as_str());
            some.append(" +");
            some.append(text::show((pouring.len() - 3) as u64).as_str());
        } else {
            some.append(text::join(pouring, ", ").as_str());
        }
        assert(some@ =~= "pouring "@ + some_names(names));
        parts.push(some);
    }
    if poured < done && pouring.len() < done - poured {
        let idle: usize = done - poured - pouring.len();
        parts.push(text::show(idle as u64).concat(" idle"));
    }
    if parts.len() == 0 {
        parts.push("finishing".to_string());
    }
    assert(texts(parts@) =~= activities(n as nat, done as nat, names, poured as nat));
    text::join(&parts, " · ").concat(" · ").concat(text::show(poured as u64).as_str()).concat(
        "/",
    ).concat(text::show(n as u64).as_str()).concat(" installed")
}

/// What the user is told of a formula that is keg-only, where the executables
/// of others are linked.
pub fn keg_only_note(name: &str, keg_only: bool, link_global: bool) -> (r: Option<String>)
    ensures
        if keg_only && link_global {
            r matches Some(note) && note@ == dimmed("    · "@ + name@ + " is keg-only, not linked"@)
        } else {
            r is None
        },
{
    if keg_only && link_global {
        Some(ui::dim("    · ".to_string().concat(name).concat(" is keg-only, not linked").as_str()))
    } else {
        None
    }
}

/// What is wrong when nothing goes on and something is left to pour.
pub fn stalled() -> (r: String)
    ensures
        r@ == "pour scheduling stalled (dependency cycle?)"@,
{
    "pour scheduling stalled (dependency cycle?)".to_string()
}

/// The other items that dependencies name.
pub open spec fn awaited_at(names: Seq<Seq<char>>, i: int, deps: Seq<Seq<char>>) -> spec_fn(int, int) -> bool {
    |k: int, j: int|
        {
            &&& 0 <= j < names.len()
            &&& j != i
            &&& names[j] == deps[k]
            &&& forall|q: int| j < q < names.len() ==> #[trigger] names[q] != deps[k]
        }
}

/// What the first dependencies name.
proof fn lemma_in_set_at(names: Seq<Seq<char>>, i: int, deps: Seq<Seq<char>>, n: int)
    requires
        0 <= n <= deps.len(),
    ensures
        picks(n, awaited_at(names, i, deps), in_set(names, i, deps.take(n))),
    decreases n,
{
    let p = awaited_at(names, i, deps);
    if n == 0 {
        assert(deps.take(0) =~= Seq::empty());
        picks::lemma_pick_start(p);
    } else {
        let m = n - 1;
        lemma_in_set_at(names, i, deps, m);
        assert(deps.take(n).drop_last() =~= deps.take(m));
        let before = in_set(names, i, deps.take(m));
        text::lemma_last_position(names, deps[m]);
        match last_position(names, deps[m]) {
            Some(j) if j != i => {
                assert(p(m, j));
                picks::lemma_pick_one(m, p, before, j);
            },
            _ => {
                assert forall|j: int| !#[trigger] p(m, j) by {
                    if p(m, j) {
                        assert(names.contains(names[j]));
                        let l = last_position(names, deps[m])->0;
                        if l < j {
                            assert(names[j] != deps[m]);
                        }
                        if j < l {
                            assert(names[l] != deps[m]);
                        }
                    }
                }
                picks::lemma_pick_none(m, p, before);
            },
        }
    }
}

/// Law: an item waits for every other item that its dependencies name, and for
/// nothing else.
pub proof fn law_items_wait_for_their_dependencies(items: Seq<ItemV>, i: int)
    requires
        0 <= i < items.len(),
    ensures
        waits_of(items).len() == items.len(),
        picks(
            items[i].spec.deps.len() as int,
            awaited_at(items.map_values(|it: ItemV| it.spec.name), i, items[i].spec.deps),
            waits_of(items)[i],
        ),
{
    let deps = items[i].spec.deps;
    lemma_in_set_at(item_names(items), i, deps, deps.len() as int);
    assert(deps.take(deps.len() as int) =~= deps);
}

/// All that the item waits for is poured.
pub open spec fn all_poured(v: ScheduleV, i: int) -> bool {
    forall|j: int| #[trigger] v.waits[i].contains(j) ==> v.stages[j] == Stage::Poured
}

/// To be ready is to wait for nothing that is not poured.
proof fn lemma_ready(v: ScheduleV, i: int)
    ensures
        ready(v, i) == all_poured(v, i),
{
    let w = v.waits[i];
    if ready(v, i) {
        assert forall|j: int| #[trigger] w.contains(j) implies v.stages[j] == Stage::Poured by {
            let k = choose|k: int| 0 <= k < w.len() && w[k] == j;
            assert(v.stages[w[k]] == Stage::Poured);
        }
    }
    if all_poured(v, i) {
        assert forall|k: int| 0 <= k < w.len() implies v.stages[#[trigger] w[k]] == Stage::Poured by {
            assert(w.contains(w[k]));
        }
    }
}

/// Law: in every state nothing is poured or being poured unless all that it waits
/// for is poured, nothing whose blob is there and that waits for nothing more is
/// idle, and what is being poured is listed once.
pub proof fn law_nothing_is_poured_before_its_dependencies(v: ScheduleV, i: int)
    requires
        sound(v),
        0 <= i < v.waits.len(),
    ensures
        v.stages[i] == Stage::Pouring || v.stages[i] == Stage::Poured ==> all_poured(v, i),
        v.stages[i] == Stage::Idle ==> !all_poured(v, i),
        v.pouring.contains(i) <==> v.stages[i] == Stage::Pouring,
        v.pouring.no_duplicates(),
{
    lemma_ready(v, i);
    assert(v.stages[i] == v.stages[i]);
}

/// Law: an item whose blob has come is started at once where all that it waits
/// for is poured, and waits otherwise; nothing else changes.
pub proof fn law_blobs_start_pours(v: ScheduleV, i: int)
    requires
        0 <= i < v.stages.len(),
    ensures
        ready(v, i) == all_poured(v, i),
        all_poured(v, i) ==> fetched(v, i) == (ScheduleV {
            waits: v.waits,
            stages: v.stages.update(i, Stage::Pouring),
            pouring: v.pouring.push(i),
        }),
        !all_poured(v, i) ==> fetched(v, i) == (ScheduleV {
            waits: v.waits,
            stages: v.stages.update(i, Stage::Idle),
            pouring: v.pouring,
        }),
{
    lemma_ready(v, i);
}

/// The items that are being poured besides `i`.
pub open spec fn still_at(pouring: Seq<int>, i: int) -> spec_fn(int, int) -> bool {
    |k: int, x: int| x == pouring[k] && x != i
}

/// The idle items that wait for nothing that is not poured once `i` is, and that
/// waited for it.
pub open spec fn freed_at(v: ScheduleV, i: int) -> spec_fn(int, int) -> bool {
    |c: int, x: int|
        {
            &&& x == c
            &&& v.stages[c] == Stage::Idle
            &&& v.waits[c].contains(i)
            &&& forall|j: int| #[trigger] v.waits[c].contains(j) ==> j == i || v.stages[j] == Stage::Poured
        }
}

/// What the end of a pour frees among the first items.
proof fn lemma_freed(v: ScheduleV, i: int, n: int)
    requires
        0 <= n,
    ensures
        picks(n, freed_at(v, i), woken_below(v, i, n as nat)),
    decreases n,
{
    let p = freed_at(v, i);
    if n == 0 {
        picks::lemma_pick_start(p);
    } else {
        let c = n - 1;
        lemma_freed(v, i, c);
        let before = woken_below(v, i, c as nat);
        let w = v.waits[c];
        if wakes(v, i, c) {
            assert forall|j: int| #[trigger] w.contains(j) implies j == i || v.stages[j] == Stage::Poured by {
                let k = choose|k: int| 0 <= k < w.len() && w[k] == j;
                assert(w[k] == i || v.stages[w[k]] == Stage::Poured);
            }
            assert(p(c, c));
            picks::lemma_pick_one(c, p, before, c);
        } else {
            assert forall|x: int| !#[trigger] p(c, x) by {
                if p(c, x) {
                    assert forall|k: int| 0 <= k < w.len() implies w[k] == i || v.stages[#[trigger] w[k]]
                        == Stage::Poured by {
                        assert(w.contains(w[k]));
                    }
                }
            }
            picks::lemma_pick_none(c, p, before);
        }
    }
}

/// The rest of what is being poured.
proof fn lemma_still(s: Seq<int>, i: int, n: int)
    requires
        0 <= n <= s.len(),
    ensures
        picks(n, still_at(s, i), without(s.take(n), i)),
    decreases n,
{
    reveal(Seq::filter);
    let p = still_at(s, i);
    if n == 0 {
        assert(s.take(0) =~= Seq::empty());
        picks::lemma_pick_start(p);
    } else {
        lemma_still(s, i, n - 1);
        assert(s.take(n).drop_last() =~= s.take(n - 1));
        let before = without(s.take(n - 1), i);
        if s[n - 1] != i {
            assert(p(n - 1, s[n - 1]));
            picks::lemma_pick_one(n - 1, p, before, s[n - 1]);
        } else {
            picks::lemma_pick_none(n - 1, p, before);
        }
    }
}

/// Law: the end of a pour starts exactly the items that waited for it and whose
/// blobs and other dependencies are there, in order, behind those that are being
/// poured already; all other items stay as they are.
pub proof fn law_pours_free_what_waited(v: ScheduleV, i: int, c: int)
    requires
        v.stages.len() == v.waits.len(),
        0 <= i < v.waits.len(),
        0 <= c < v.waits.len(),
    ensures
        picks(v.waits.len() as int, freed_at(v, i), woken(v, i)),
        exists|rest: Seq<int>|
            #![trigger rest + woken(v, i)]
            finished(v, i).pouring == rest + woken(v, i) && picks(
                v.pouring.len() as int,
                still_at(v.pouring, i),
                rest,
            ),
        finished(v, i).waits == v.waits,
        finished(v, i).stages.len() == v.stages.len(),
        finished(v, i).stages[c] == if c == i {
            Stage::Poured
        } else if freed_at(v, i)(c, c) {
            Stage::Pouring
        } else {
            v.stages[c]
        },
{
    lemma_freed(v, i, v.waits.len() as int);
    lemma_still(v.pouring, i, v.pouring.len() as int);
    assert(v.pouring.take(v.pouring.len() as int) =~= v.pouring);
    let rest = without(v.pouring, i);
    assert(finished(v, i).pouring == rest + woken(v, i));
    let p = freed_at(v, i);
    let r = woken(v, i);
    let at = choose|at: Seq<int>| #[trigger] picks::picked_at(v.waits.len() as int, p, r, at);
    if p(c, c) {
        let q = choose|q: int| 0 <= q < at.len() && at[q] == c;
        assert(p(at[q], r[q]));
        assert(r[q] == c);
    }
    if r.contains(c) {
        let q = choose|q: int| 0 <= q < r.len() && r[q] == c;
        assert(p(at[q], r[q]));
    }
}

/// Law: before anything has happened, all items are pending.
pub proof fn law_schedules_begin_pending(waits: Seq<Seq<int>>, i: int)
    requires
        0 <= i < waits.len(),
    ensures
        unstarted(waits).waits == waits,
        unstarted(waits).stages.len() == waits.len(),
        unstarted(waits).stages[i] == Stage::Pending,
        unstarted(waits).pouring.len() == 0,
{
}

/// Law: items are counted by their stages: one that is added counts for its own
/// stage alone.
pub proof fn law_counts_add_up(stages: Seq<Stage>, s: Stage, other: Stage)
    ensures
        count(Seq::empty(), s) == 0,
        count(stages.push(s), s) == count(stages, s) + 1,
        other != s ==> count(stages.push(other), s) == count(stages, s),
        count(stages, s) == stages.filter(|x: Stage| x == s).len(),
{
    assert(stages.push(s).drop_last() =~= stages);
    assert(stages.push(other).drop_last() =~= stages);
    lemma_count_filter(stages, s);
}

proof fn lemma_count_filter(stages: Seq<Stage>, s: Stage)
    ensures
        count(stages, s) == stages.filter(|x: Stage| x == s).len(),
    decreases stages.len(),
{
    reveal(Seq::filter);
    if stages.len() > 0 {
        lemma_count_filter(stages.drop_last(), s);
    }
}

/// Law: six bottles are downloaded at once, and four kegs are poured.
pub proof fn law_limits()
    ensures
        PARALLEL_DOWNLOADS == 6,
        PARALLEL_POURS == 4,
{
}

/// Law: all labels fit into the common width, and one of them fills it; that of
/// a dependency needs two columns more.
pub proof fn law_labels_share_a_width(items: Seq<ItemV>, i: int)
    requires
        0 <= i < items.len(),
    ensures
        items[i].via is None ==> items[i].spec.name.len() + 1 + items[i].spec.version.len() <= widest(items),
        items[i].via is Some ==> items[i].spec.name.len() + 3 + items[i].spec.version.len() <= widest(items),
        exists|k: int|
            0 <= k < items.len() && (#[trigger] items[k]).spec.name.len() + items[k].spec.version.len() + if items[k].via is Some {
                3int
            } else {
                1int
            } == widest(items),
    decreases items.len(),
{
    reveal_strlit(" ");
    let init = items.drop_last();
    let last = items[items.len() - 1];
    if init.len() > 0 {
        let k0 = if i < init.len() {
            i
        } else {
            0
        };
        law_labels_share_a_width(init, k0);
        assert(init[k0] == items[k0]);
        let k = choose|k: int|
            0 <= k < init.len() && (#[trigger] init[k]).spec.name.len() + init[k].spec.version.len() + if init[k].via is Some {
                3int
            } else {
                1int
            } == widest(init);
        if widest(init) < item_width(items.last()) {
            assert(items[items.len() - 1].spec.name.len() + last.spec.version.len() + if last.via is Some {
                3int
            } else {
                1int
            } == widest(items));
        } else {
            assert(items[k] == init[k]);
            assert(items[k].spec.name.len() + items[k].spec.version.len() + if items[k].via is Some {
                3int
            } else {
                1int
            } == widest(items));
        }
    } else {
        assert(widest(init) == 0);
        assert(items[0].spec.name.len() + items[0].spec.version.len() + if items[0].via is Some {
            3int
        } else {
            1int
        } == widest(items));
    }
}

/// Law: the summary names three of the kegs that are being poured at most and
/// counts the others, and tells what goes on: downloads, of which six at most
/// are under way, pours, and kegs that wait for others; where nothing does, that
/// the work is being finished.
pub proof fn law_the_summary_tells_what_goes_on(n: nat, done: nat, names: Seq<Seq<char>>, poured: nat)
    requires
        done <= n,
        poured + names.len() <= done,
    ensures
        names.len() <= 3 ==> some_names(names) == joined(names, ", "@),
        names.len() > 3 ==> some_names(names) == joined(seq![names[0], names[1], names[2]], ", "@) + " +"@
            + decimal((names.len() - 3) as nat),
        ({
            let idle = (done - poured - names.len()) as nat;
            let left = (n - done) as nat;
            let parts = activities(n, done, names, poured);
            &&& left > 0 ==> parts[0] == "downloading "@ + decimal(
                if left < 6 {
                    left
                } else {
                    6
                },
            )
            &&& left == 0 && names.len() > 0 ==> parts[0] == "pouring "@ + some_names(names)
            &&& left > 0 && names.len() > 0 ==> parts[1] == "pouring "@ + some_names(names)
            &&& idle > 0 ==> parts.last() == decimal(idle) + " idle"@
            &&& left == 0 && names.len() == 0 && idle == 0 ==> parts == seq!["finishing"@]
            &&& left > 0 || names.len() > 0 || idle > 0 ==> parts.len() == if left > 0 {
                1int
            } else {
                0int
            } + if names.len() > 0 {
                1int
            } else {
                0int
            } + if idle > 0 {
                1int
            } else {
                0int
            }
        }),
{
    if names.len() > 3 {
        assert(names.take(3) =~= seq![names[0], names[1], names[2]]);
    }
}

} // verus!
