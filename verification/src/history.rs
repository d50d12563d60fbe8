//! What holds after any number of BPDUs.

use vstd::prelude::*;

use crate::analyzer;
use crate::analyzer::{
    AnalyzerModel, Tracker, ROOT_FLAP_THRESHOLD, ROOT_WINDOW_MS, TC_STORM_THRESHOLD, TC_WINDOW_MS,
};
use crate::event;
use crate::event::{EventKind, EventModel};
use crate::steps;
use crate::stp::{Bpdu, BpduType};
use crate::time;
use crate::time::Timestamp;

verus! {

/// What is remembered and what was told after some BPDUs with their times.
pub open spec fn replay(state: AnalyzerModel, bpdus: Seq<(Bpdu, Timestamp)>) -> (
    AnalyzerModel,
    Seq<EventModel>,
)
    decreases bpdus.len(),
{
    if bpdus.len() == 0 {
        (state, Seq::empty())
    } else {
        let (before, events) = replay(state, bpdus.drop_last());
        let (b, ts) = bpdus.last();
        (before.step(b, ts).0, events + before.step(b, ts).1)
    }
}

/// What is told with the BPDU of number `i`.
pub open spec fn told_with(state: AnalyzerModel, bpdus: Seq<(Bpdu, Timestamp)>, i: int) -> Seq<
    EventModel,
> {
    replay(state, bpdus.take(i)).0.step(bpdus[i].0, bpdus[i].1).1
}

/// One more BPDU is one more step.
proof fn lemma_replay_next(state: AnalyzerModel, bpdus: Seq<(Bpdu, Timestamp)>, i: int)
    requires
        0 <= i < bpdus.len(),
    ensures
        replay(state, bpdus.take(i + 1)).0 == replay(state, bpdus.take(i)).0.step(
            bpdus[i].0,
            bpdus[i].1,
        ).0,
        replay(state, bpdus.take(i + 1)).1 == replay(state, bpdus.take(i)).1 + told_with(
            state,
            bpdus,
            i,
        ),
{
    assert(bpdus.take(i + 1).drop_last() =~= bpdus.take(i));
    assert(bpdus.take(i + 1).last() == bpdus[i]);
}

/// What was told stays told: BPDUs that follow only add to it.
pub proof fn lemma_told_stays(state: AnalyzerModel, bpdus: Seq<(Bpdu, Timestamp)>, i: int)
    requires
        0 <= i <= bpdus.len(),
    ensures
        replay(state, bpdus.take(i)).1.is_prefix_of(replay(state, bpdus).1),
    decreases bpdus.len() - i,
{
    if i < bpdus.len() {
        lemma_replay_next(state, bpdus, i);
        lemma_told_stays(state, bpdus, i + 1);
        let few = replay(state, bpdus.take(i)).1;
        let more = replay(state, bpdus.take(i + 1)).1;
        let all = replay(state, bpdus).1;
        assert(few =~= all.take(few.len() as int)) by {
            assert(more =~= all.take(more.len() as int));
            assert(few =~= more.take(few.len() as int));
        }
    } else {
        assert(bpdus.take(i) =~= bpdus);
        assert(replay(state, bpdus).1.take(replay(state, bpdus).1.len() as int) =~= replay(
            state,
            bpdus,
        ).1);
    }
}

/// What is counted at `ts` opens a window of a VLAN: nothing was counted there
/// before, or the window before has run out.
pub open spec fn opens_window(
    windows: Map<u16, Tracker>,
    vlan: u16,
    ts: Timestamp,
    limit_ms: u32,
) -> bool {
    windows.contains_key(vlan) ==> ts.ms_since(windows[vlan].window_start) > limit_ms * time::one()
}

/// Topology changes of one VLAN, all in one window.
pub open spec fn changes_in_window(bpdus: Seq<(Bpdu, Timestamp)>, vlan: u16) -> bool {
    forall|i: int|
        0 <= i < bpdus.len() ==> {
            let (b, ts) = #[trigger] bpdus[i];
            &&& b.bpdu_type != BpduType::TcnBpdu
            &&& b.flags.tc
            &&& analyzer::vlan_of(b) == vlan
            &&& ts.ms_since(bpdus[0].1) <= 10_000 * time::one()
        }
}

/// A topology change is counted, and its window is marked from the threshold on.
proof fn lemma_change_counted(state: AnalyzerModel, b: Bpdu, ts: Timestamp)
    requires
        b.bpdu_type != BpduType::TcnBpdu,
        b.flags.tc,
    ensures
        ({
            let after = state.step(b, ts).0;
            let window = state.tc_window(b, ts);
            &&& after.tc_windows == state.tc_windows.insert(
                analyzer::vlan_of(b),
                state.tc_counted(b, ts),
            )
            &&& after.storms.contains(window) <==> state.storms.contains(window)
                || state.tc_counted(b, ts).count >= TC_STORM_THRESHOLD
        }),
{
    steps::lemma_told_once(state, b, ts);
    steps::lemma_what_is_told(state, b, ts);
    steps::lemma_what_is_changed(state, b, ts);
}

/// Changes in one window are counted, and the window is marked at the threshold.
proof fn lemma_changes_counted(
    state: AnalyzerModel,
    bpdus: Seq<(Bpdu, Timestamp)>,
    vlan: u16,
    n: int,
)
    requires
        changes_in_window(bpdus, vlan),
        0 <= n <= bpdus.len() <= usize::MAX,
        bpdus.len() > 0 ==> opens_window(state.tc_windows, vlan, bpdus[0].1, 10_000),
        bpdus.len() > 0 ==> !state.storms.contains(
            analyzer::window_key(vlan, bpdus[0].1.sec),
        ),
    ensures
        ({
            let after = replay(state, bpdus.take(n)).0;
            &&& n == 0 ==> after.tc_windows == state.tc_windows
            &&& n > 0 ==> after.tc_windows.contains_key(vlan) && after.tc_windows[vlan] == (Tracker {
                window_start: bpdus[0].1,
                count: n as usize,
            })
            &&& bpdus.len() > 0 ==> (after.storms.contains(
                analyzer::window_key(vlan, bpdus[0].1.sec),
            ) <==> n >= TC_STORM_THRESHOLD)
        }),
    decreases n,
{
    if n > 0 {
        let i = n - 1;
        lemma_changes_counted(state, bpdus, vlan, i);
        lemma_replay_next(state, bpdus, i);
        time::lemma_ms_since_mirrored(bpdus[0].1, bpdus[0].1);
        let (b, ts) = bpdus[i];
        let before = replay(state, bpdus.take(i)).0;
        lemma_change_counted(before, b, ts);
        assert(before.tc_counted(b, ts) == (Tracker {
            window_start: bpdus[0].1,
            count: n as usize,
        }));
    }
}

/// Topology changes of one VLAN in a new window that is not marked are a storm from
/// the tenth on: it is told with that change, and with no other.
pub proof fn lemma_storm_at_threshold(
    state: AnalyzerModel,
    bpdus: Seq<(Bpdu, Timestamp)>,
    vlan: u16,
    i: int,
)
    requires
        changes_in_window(bpdus, vlan),
        0 <= i < bpdus.len() <= usize::MAX,
        opens_window(state.tc_windows, vlan, bpdus[0].1, 10_000),
        !state.storms.contains(analyzer::window_key(vlan, bpdus[0].1.sec)),
    ensures
        event::tells(told_with(state, bpdus, i), EventKind::TcStorm) <==> i + 1 == 10,
{
    lemma_changes_counted(state, bpdus, vlan, i);
    time::lemma_ms_since_mirrored(bpdus[0].1, bpdus[0].1);
    let (b, ts) = bpdus[i];
    steps::lemma_what_is_told(replay(state, bpdus.take(i)).0, b, ts);
}

/// The BPDU of number `i` changes the root of a VLAN, which was `root` before all
/// of them, in the window that the first one opens.
pub open spec fn changes_root(
    bpdus: Seq<(Bpdu, Timestamp)>,
    vlan: u16,
    root: Seq<char>,
    i: int,
) -> bool {
    let (b, ts) = bpdus[i];
    &&& b.bpdu_type != BpduType::TcnBpdu
    &&& analyzer::vlan_of(b) == vlan
    &&& ts.ms_since(bpdus[0].1) <= 30_000 * time::one()
    &&& b.root_id.text() != (if i == 0 {
        root
    } else {
        bpdus[i - 1].0.root_id.text()
    })
}

/// Changes of root of one VLAN, all in one window.
pub open spec fn root_changes_in_window(
    bpdus: Seq<(Bpdu, Timestamp)>,
    vlan: u16,
    root: Seq<char>,
) -> bool {
    forall|i: int| 0 <= i < bpdus.len() ==> #[trigger] changes_root(bpdus, vlan, root, i)
}

/// A change of root is remembered and counted, and its window is marked from the
/// threshold on.
proof fn lemma_root_change_counted(state: AnalyzerModel, b: Bpdu, ts: Timestamp)
    requires
        b.bpdu_type != BpduType::TcnBpdu,
        state.root_changes(b),
    ensures
        ({
            let after = state.step(b, ts).0;
            let window = state.root_window(b, ts);
            &&& after.roots == state.roots.insert(analyzer::vlan_of(b), b.root_id)
            &&& after.root_windows == state.root_windows.insert(
                analyzer::vlan_of(b),
                state.root_counted(b, ts),
            )
            &&& after.flaps.contains(window) <==> state.flaps.contains(window)
                || state.root_counted(b, ts).count >= ROOT_FLAP_THRESHOLD
        }),
{
    steps::lemma_told_once(state, b, ts);
    steps::lemma_what_is_told(state, b, ts);
    steps::lemma_what_is_changed(state, b, ts);
}

/// Changes of root in one window are counted, and the window is marked at the
/// threshold.
proof fn lemma_root_changes_counted(
    state: AnalyzerModel,
    bpdus: Seq<(Bpdu, Timestamp)>,
    vlan: u16,
    n: int,
)
    requires
        root_changes_in_window(bpdus, vlan, state.roots[vlan].text()),
        0 <= n <= bpdus.len() <= usize::MAX,
        state.roots.contains_key(vlan),
        bpdus.len() > 0 ==> opens_window(state.root_windows, vlan, bpdus[0].1, 30_000),
        bpdus.len() > 0 ==> !state.flaps.contains(
            analyzer::window_key(vlan, bpdus[0].1.sec),
        ),
    ensures
        ({
            let after = replay(state, bpdus.take(n)).0;
            &&& after.roots.contains_key(vlan)
            &&& after.roots[vlan].text() == (if n == 0 {
                state.roots[vlan].text()
            } else {
                bpdus[n - 1].0.root_id.text()
            })
            &&& n == 0 ==> after.root_windows == state.root_windows
            &&& n > 0 ==> after.root_windows.contains_key(vlan) && after.root_windows[vlan] == (
            Tracker { window_start: bpdus[0].1, count: n as usize })
            &&& bpdus.len() > 0 ==> (after.flaps.contains(
                analyzer::window_key(vlan, bpdus[0].1.sec),
            ) <==> n >= ROOT_FLAP_THRESHOLD)
        }),
    decreases n,
{
    if n > 0 {
        let i = n - 1;
        assert(changes_root(bpdus, vlan, state.roots[vlan].text(), i));
        lemma_root_changes_counted(state, bpdus, vlan, i);
        lemma_replay_next(state, bpdus, i);
        time::lemma_ms_since_mirrored(bpdus[0].1, bpdus[0].1);
        let (b, ts) = bpdus[i];
        let before = replay(state, bpdus.take(i)).0;
        lemma_root_change_counted(before, b, ts);
        assert(before.root_counted(b, ts) == (Tracker {
            window_start: bpdus[0].1,
            count: n as usize,
        }));
    }
}

/// Changes of root of one VLAN in a new window that is not marked are flapping from
/// the third on: it is told with that change, and with no other.
pub proof fn lemma_flapping_at_threshold(
    state: AnalyzerModel,
    bpdus: Seq<(Bpdu, Timestamp)>,
    vlan: u16,
    i: int,
)
    requires
        root_changes_in_window(bpdus, vlan, state.roots[vlan].text()),
        0 <= i < bpdus.len() <= usize::MAX,
        state.roots.contains_key(vlan),
        opens_window(state.root_windows, vlan, bpdus[0].1, 30_000),
        !state.flaps.contains(analyzer::window_key(vlan, bpdus[0].1.sec)),
    ensures
        event::tells(told_with(state, bpdus, i), EventKind::RootFlapping) <==> i + 1 == 3,
{
    assert(changes_root(bpdus, vlan, state.roots[vlan].text(), i));
    lemma_root_changes_counted(state, bpdus, vlan, i);
    time::lemma_ms_since_mirrored(bpdus[0].1, bpdus[0].1);
    let (b, ts) = bpdus[i];
    steps::lemma_what_is_told(replay(state, bpdus.take(i)).0, b, ts);
}

/// Every marked window has been opened: its VLAN has a counter, whose window began
/// no earlier and at a proper time.
pub open spec fn marks_opened(marks: Set<u64>, windows: Map<u16, Tracker>) -> bool {
    &&& forall|vlan: u16, sec: u32|
        marks.contains(#[trigger] analyzer::window_key(vlan, sec)) ==> windows.contains_key(vlan)
            && sec <= windows[vlan].window_start.sec
    &&& forall|vlan: u16| #[trigger]
        windows.contains_key(vlan) ==> windows[vlan].window_start.proper()
}

/// Counting keeps marked windows opened, whether the window is marked or not.
proof fn lemma_marks_kept(
    marks: Set<u64>,
    windows: Map<u16, Tracker>,
    vlan: u16,
    ts: Timestamp,
    limit_ms: u32,
)
    requires
        marks_opened(marks, windows),
        ts.proper(),
        limit_ms >= 1000,
    ensures
        ({
            let tracker = analyzer::counted(
                analyzer::tracker_at(windows, vlan, ts),
                ts,
                limit_ms as nat,
            );
            let key = analyzer::window_key(vlan, tracker.window_start.sec);
            &&& marks_opened(marks, windows.insert(vlan, tracker))
            &&& marks_opened(marks.insert(key), windows.insert(vlan, tracker))
        }),
{
    let before = analyzer::tracker_at(windows, vlan, ts);
    let tracker = analyzer::counted(before, ts, limit_ms as nat);
    let key = analyzer::window_key(vlan, tracker.window_start.sec);
    let after = windows.insert(vlan, tracker);
    if ts.ms_since(before.window_start) > limit_ms * time::one() {
        lemma_limit(limit_ms);
        time::lemma_later_second(ts, before.window_start);
    }
    assert(before.window_start.sec <= tracker.window_start.sec);
    assert forall|v: u16, sec: u32|
        marks.insert(key).contains(#[trigger] analyzer::window_key(v, sec)) implies
        after.contains_key(v) && sec <= after[v].window_start.sec by {
        if analyzer::window_key(v, sec) == key {
            steps::lemma_window_key_injective(v, sec, vlan, tracker.window_start.sec);
        } else {
            assert(marks.contains(analyzer::window_key(v, sec)));
        }
    }
    assert forall|v: u16, sec: u32|
        marks.contains(#[trigger] analyzer::window_key(v, sec)) implies after.contains_key(v)
        && sec <= after[v].window_start.sec by {
        assert(marks.insert(key).contains(analyzer::window_key(v, sec)));
    }
}

/// A limit of a second or more is no less than a thousand milliseconds.
proof fn lemma_limit(limit_ms: u32)
    requires
        limit_ms >= 1000,
    ensures
        limit_ms * time::one() >= 1000 * time::one(),
{
    let u = time::one();
    assert(limit_ms * u >= 1000 * u) by (nonlinear_arith)
        requires
            limit_ms >= 1000,
    ;
}

/// All times are proper.
pub open spec fn proper_times(bpdus: Seq<(Bpdu, Timestamp)>) -> bool {
    forall|i: int| 0 <= i < bpdus.len() ==> (#[trigger] bpdus[i]).1.proper()
}

/// After BPDUs with proper times, every marked window has been opened.
pub proof fn lemma_marks_opened(bpdus: Seq<(Bpdu, Timestamp)>)
    requires
        proper_times(bpdus),
    ensures
        ({
            let after = replay(AnalyzerModel::initial(), bpdus).0;
            &&& marks_opened(after.storms, after.tc_windows)
            &&& marks_opened(after.flaps, after.root_windows)
        }),
    decreases bpdus.len(),
{
    if bpdus.len() > 0 {
        let front = bpdus.drop_last();
        let before = replay(AnalyzerModel::initial(), front).0;
        let (b, ts) = bpdus.last();
        assert(bpdus.last() == bpdus[bpdus.len() - 1]);
        assert(forall|i: int| 0 <= i < front.len() ==> front[i] == bpdus[i]);
        lemma_marks_opened(front);
        if b.bpdu_type == BpduType::TcnBpdu {
            steps::lemma_notification_changes_nothing(before, b, ts);
        } else {
            let vlan = analyzer::vlan_of(b);
            steps::lemma_what_is_changed(before, b, ts);
            steps::lemma_what_is_told(before, b, ts);
            steps::lemma_told_once(before, b, ts);
            lemma_marks_kept(before.storms, before.tc_windows, vlan, ts, TC_WINDOW_MS);
            lemma_marks_kept(before.flaps, before.root_windows, vlan, ts, ROOT_WINDOW_MS);
        }
    }
}

/// A window that opens is not marked.
proof fn lemma_new_window_unmarked(
    marks: Set<u64>,
    windows: Map<u16, Tracker>,
    vlan: u16,
    ts: Timestamp,
    limit_ms: u32,
)
    requires
        marks_opened(marks, windows),
        opens_window(windows, vlan, ts, limit_ms),
        ts.proper(),
        limit_ms >= 1000,
    ensures
        !marks.contains(analyzer::window_key(vlan, ts.sec)),
{
    if windows.contains_key(vlan) {
        lemma_limit(limit_ms);
        time::lemma_later_second(ts, windows[vlan].window_start);
    }
}

/// Every window has its storm: whatever came before, the tenth topology change of a
/// VLAN in a new window tells one, and no other change in that window does.
pub proof fn lemma_every_window_has_its_storm(
    past: Seq<(Bpdu, Timestamp)>,
    bpdus: Seq<(Bpdu, Timestamp)>,
    vlan: u16,
    i: int,
)
    requires
        proper_times(past),
        changes_in_window(bpdus, vlan),
        0 <= i < bpdus.len() <= usize::MAX,
        bpdus[0].1.proper(),
        opens_window(
            replay(AnalyzerModel::initial(), past).0.tc_windows,
            vlan,
            bpdus[0].1,
            10_000,
        ),
    ensures
        event::tells(
            told_with(replay(AnalyzerModel::initial(), past).0, bpdus, i),
            EventKind::TcStorm,
        ) <==> i + 1 == 10,
{
    let state = replay(AnalyzerModel::initial(), past).0;
    lemma_marks_opened(past);
    lemma_new_window_unmarked(state.storms, state.tc_windows, vlan, bpdus[0].1, TC_WINDOW_MS);
    lemma_storm_at_threshold(state, bpdus, vlan, i);
}

/// Every window has its flapping: whatever came before, the third change of root of
/// a VLAN in a new window tells it, and no other change in that window does.
pub proof fn lemma_every_window_has_its_flapping(
    past: Seq<(Bpdu, Timestamp)>,
    bpdus: Seq<(Bpdu, Timestamp)>,
    vlan: u16,
    i: int,
)
    requires
        proper_times(past),
        replay(AnalyzerModel::initial(), past).0.roots.contains_key(vlan),
        root_changes_in_window(
            bpdus,
            vlan,
            replay(AnalyzerModel::initial(), past).0.roots[vlan].text(),
        ),
        0 <= i < bpdus.len() <= usize::MAX,
        bpdus[0].1.proper(),
        opens_window(
            replay(AnalyzerModel::initial(), past).0.root_windows,
            vlan,
            bpdus[0].1,
            30_000,
        ),
    ensures
        event::tells(
            told_with(replay(AnalyzerModel::initial(), past).0, bpdus, i),
            EventKind::RootFlapping,
        ) <==> i + 1 == 3,
{
    let state = replay(AnalyzerModel::initial(), past).0;
    lemma_marks_opened(past);
    lemma_new_window_unmarked(state.flaps, state.root_windows, vlan, bpdus[0].1, ROOT_WINDOW_MS);
    lemma_flapping_at_threshold(state, bpdus, vlan, i);
}

/// The BPDU names the root of the VLAN.
pub open spec fn names_root(b: Bpdu, vlan: u16) -> bool {
    b.bpdu_type != BpduType::TcnBpdu && analyzer::vlan_of(b) == vlan
}

/// The root of a VLAN is the one that its last BPDU names.
pub proof fn lemma_last_root_wins(
    state: AnalyzerModel,
    bpdus: Seq<(Bpdu, Timestamp)>,
    vlan: u16,
    i: int,
)
    requires
        0 <= i < bpdus.len(),
        names_root(bpdus[i].0, vlan),
        forall|j: int| i < j < bpdus.len() ==> !names_root((#[trigger] bpdus[j]).0, vlan),
    ensures
        replay(state, bpdus).0.roots.contains_key(vlan),
        replay(state, bpdus).0.roots[vlan].text() == bpdus[i].0.root_id.text(),
    decreases bpdus.len(),
{
    let front = bpdus.drop_last();
    let before = replay(state, front).0;
    let (b, ts) = bpdus.last();
    assert(bpdus.last() == bpdus[bpdus.len() - 1]);
    if i == bpdus.len() - 1 {
        steps::lemma_bpdu_remembered(before, b, ts);
    } else {
        assert(forall|j: int| 0 <= j < front.len() ==> front[j] == bpdus[j]);
        lemma_last_root_wins(state, front, vlan, i);
        assert(!names_root(bpdus[bpdus.len() - 1].0, vlan));
        if b.bpdu_type != BpduType::TcnBpdu {
            steps::lemma_what_is_changed(before, b, ts);
        } else {
            steps::lemma_notification_changes_nothing(before, b, ts);
        }
    }
}

/// The BPDU comes from that port of that bridge.
pub open spec fn sent_from(b: Bpdu, key: u64, port_id: u16) -> bool {
    b.bpdu_type != BpduType::TcnBpdu && analyzer::bridge_key(b.sender_mac@, analyzer::vlan_of(b))
        == key && b.port_id == port_id
}

/// The ports that are known of a bridge are those that a BPDU came from.
pub proof fn lemma_ports_known(bpdus: Seq<(Bpdu, Timestamp)>, key: u64, port_id: u16)
    ensures
        ({
            let after = replay(AnalyzerModel::initial(), bpdus).0;
            (after.bridges.contains_key(key) && after.bridges[key].ports.contains_key(port_id))
                <==> exists|i: int|
                0 <= i < bpdus.len() && sent_from((#[trigger] bpdus[i]).0, key, port_id)
        }),
    decreases bpdus.len(),
{
    if bpdus.len() > 0 {
        let front = bpdus.drop_last();
        let before = replay(AnalyzerModel::initial(), front).0;
        let (b, ts) = bpdus.last();
        let after = before.step(b, ts).0;
        let last = bpdus.len() - 1;
        lemma_ports_known(front, key, port_id);
        assert(bpdus.last() == bpdus[last]);
        assert(forall|j: int| 0 <= j < front.len() ==> front[j] == bpdus[j]);
        let was = before.bridges.contains_key(key) && before.bridges[key].ports.contains_key(
            port_id,
        );
        let is = after.bridges.contains_key(key) && after.bridges[key].ports.contains_key(port_id);
        assert(is <==> was || sent_from(b, key, port_id));
        if was {
            let i = choose|i: int|
                0 <= i < front.len() && sent_from((#[trigger] front[i]).0, key, port_id);
            assert(sent_from(bpdus[i].0, key, port_id));
        }
        if sent_from(b, key, port_id) {
            assert(sent_from(bpdus[last].0, key, port_id));
        }
        if exists|i: int|
            0 <= i < bpdus.len() && sent_from((#[trigger] bpdus[i]).0, key, port_id) {
            let i = choose|i: int|
                0 <= i < bpdus.len() && sent_from((#[trigger] bpdus[i]).0, key, port_id);
            if i < last {
                assert(sent_from(front[i].0, key, port_id));
            }
        }
    }
}

/// The BPDUs of a VLAN alone.
pub open spec fn of_vlan(bpdus: Seq<(Bpdu, Timestamp)>, vlan: u16) -> Seq<(Bpdu, Timestamp)> {
    bpdus.filter(|x: (Bpdu, Timestamp)| analyzer::vlan_of(x.0) == vlan)
}

/// The same item, or none, is found under a key in two maps.
pub open spec fn same_at<K, V>(a: Map<K, V>, b: Map<K, V>, key: K) -> bool {
    a.contains_key(key) == b.contains_key(key) && (a.contains_key(key) ==> a[key] == b[key])
}

/// The same bridges of a VLAN are known.
pub open spec fn same_bridges(s: AnalyzerModel, t: AnalyzerModel, vlan: u16) -> bool {
    forall|mac: Seq<u8>|
        mac.len() == 6 ==> same_at(
            s.bridges,
            t.bridges,
            #[trigger] analyzer::bridge_key(mac, vlan),
        )
}

/// The same windows of a VLAN are marked.
pub open spec fn same_marks(s: Set<u64>, t: Set<u64>, vlan: u16) -> bool {
    forall|sec: u32|
        s.contains(#[trigger] analyzer::window_key(vlan, sec)) == t.contains(
            analyzer::window_key(vlan, sec),
        )
}

/// The same is remembered of a VLAN.
pub open spec fn same_in(s: AnalyzerModel, t: AnalyzerModel, vlan: u16) -> bool {
    &&& same_at(s.roots, t.roots, vlan)
    &&& same_at(s.tc_windows, t.tc_windows, vlan)
    &&& same_at(s.root_windows, t.root_windows, vlan)
    &&& same_marks(s.storms, t.storms, vlan)
    &&& same_marks(s.flaps, t.flaps, vlan)
    &&& same_bridges(s, t, vlan)
}

/// The bridge of a BPDU is met alike.
proof fn lemma_met_alike(s: AnalyzerModel, t: AnalyzerModel, b: Bpdu, ts: Timestamp)
    requires
        same_in(s, t, analyzer::vlan_of(b)),
    ensures
        s.meet_bridge(b, ts).1 == t.meet_bridge(b, ts).1,
        same_in(s.meet_bridge(b, ts).0, t.meet_bridge(b, ts).0, analyzer::vlan_of(b)),
{
    let key = analyzer::bridge_key(b.sender_mac@, analyzer::vlan_of(b));
    assert(same_at(s.bridges, t.bridges, key));
}

/// The root of a BPDU is followed alike.
proof fn lemma_followed_alike(s: AnalyzerModel, t: AnalyzerModel, b: Bpdu, ts: Timestamp)
    requires
        same_in(s, t, analyzer::vlan_of(b)),
    ensures
        s.follow_root(b, ts).1 == t.follow_root(b, ts).1,
        same_in(s.follow_root(b, ts).0, t.follow_root(b, ts).0, analyzer::vlan_of(b)),
{
    let vlan = analyzer::vlan_of(b);
    let after = s.follow_root(b, ts).0;
    let other = t.follow_root(b, ts).0;
    let sec = s.root_counted(b, ts).window_start.sec;
    assert(s.flaps.contains(analyzer::window_key(vlan, sec)) == t.flaps.contains(
        analyzer::window_key(vlan, sec),
    ));
    assert(same_bridges(after, other, vlan)) by {
        assert(after.bridges == s.bridges && other.bridges == t.bridges);
    }
}

/// A topology change is counted alike.
proof fn lemma_counted_alike(s: AnalyzerModel, t: AnalyzerModel, b: Bpdu, ts: Timestamp)
    requires
        same_in(s, t, analyzer::vlan_of(b)),
    ensures
        s.count_change(b, ts).1 == t.count_change(b, ts).1,
        same_in(s.count_change(b, ts).0, t.count_change(b, ts).0, analyzer::vlan_of(b)),
{
    let vlan = analyzer::vlan_of(b);
    let after = s.count_change(b, ts).0;
    let other = t.count_change(b, ts).0;
    let sec = s.tc_counted(b, ts).window_start.sec;
    assert(s.storms.contains(analyzer::window_key(vlan, sec)) == t.storms.contains(
        analyzer::window_key(vlan, sec),
    ));
    assert(same_bridges(after, other, vlan)) by {
        assert(after.bridges == s.bridges && other.bridges == t.bridges);
    }
}

/// A port is updated alike.
proof fn lemma_updated_alike(s: AnalyzerModel, t: AnalyzerModel, b: Bpdu, ts: Timestamp)
    requires
        same_in(s, t, analyzer::vlan_of(b)),
        s.bridges.contains_key(analyzer::bridge_key(b.sender_mac@, analyzer::vlan_of(b))),
    ensures
        s.update_port(b, ts).1 == t.update_port(b, ts).1,
        same_in(s.update_port(b, ts).0, t.update_port(b, ts).0, analyzer::vlan_of(b)),
{
    let key = analyzer::bridge_key(b.sender_mac@, analyzer::vlan_of(b));
    assert(same_at(s.bridges, t.bridges, key));
}

/// Where the same is remembered of a VLAN, its next BPDU tells the same, and the
/// same is remembered after it.
proof fn lemma_step_alike(s: AnalyzerModel, t: AnalyzerModel, b: Bpdu, ts: Timestamp)
    requires
        same_in(s, t, analyzer::vlan_of(b)),
    ensures
        s.step(b, ts).1 == t.step(b, ts).1,
        same_in(s.step(b, ts).0, t.step(b, ts).0, analyzer::vlan_of(b)),
{
    if b.bpdu_type != BpduType::TcnBpdu {
        let (s1, t1) = (s.meet_bridge(b, ts).0, t.meet_bridge(b, ts).0);
        let (s2, t2) = (s1.follow_root(b, ts).0, t1.follow_root(b, ts).0);
        let (s3, t3) = (s2.count_change(b, ts).0, t2.count_change(b, ts).0);
        lemma_met_alike(s, t, b, ts);
        lemma_followed_alike(s1, t1, b, ts);
        lemma_counted_alike(s2, t2, b, ts);
        assert(s3.bridges == s1.bridges);
        lemma_updated_alike(s3, t3, b, ts);
        assert(s.judge_claim(b, ts) == t.judge_claim(b, ts));
    }
}

/// A BPDU of another VLAN changes nothing that is remembered of a VLAN.
proof fn lemma_step_aside(s: AnalyzerModel, b: Bpdu, ts: Timestamp, vlan: u16)
    requires
        analyzer::vlan_of(b) != vlan,
    ensures
        same_in(s.step(b, ts).0, s, vlan),
{
    let after = s.step(b, ts).0;
    let zero = seq![0u8, 0u8, 0u8, 0u8, 0u8, 0u8];
    assert forall|mac: Seq<u8>| mac.len() == 6 implies same_at(
        after.bridges,
        s.bridges,
        #[trigger] analyzer::bridge_key(mac, vlan),
    ) by {
        let key = analyzer::bridge_key(mac, vlan);
        if key == analyzer::bridge_key(b.sender_mac@, analyzer::vlan_of(b)) {
            steps::lemma_bridge_key_injective(mac, vlan, b.sender_mac@, analyzer::vlan_of(b));
        }
        steps::lemma_others_untouched(s, b, ts, vlan, key);
    }
    let key = analyzer::bridge_key(zero, vlan);
    if key == analyzer::bridge_key(b.sender_mac@, analyzer::vlan_of(b)) {
        steps::lemma_bridge_key_injective(zero, vlan, b.sender_mac@, analyzer::vlan_of(b));
    }
    steps::lemma_others_untouched(s, b, ts, vlan, key);
}

/// What is remembered of a VLAN comes from its own BPDUs.
proof fn lemma_vlan_alone(state: AnalyzerModel, bpdus: Seq<(Bpdu, Timestamp)>, vlan: u16)
    ensures
        same_in(replay(state, bpdus).0, replay(state, of_vlan(bpdus, vlan)).0, vlan),
    decreases bpdus.len(),
{
    reveal(Seq::filter);
    if bpdus.len() > 0 {
        let front = bpdus.drop_last();
        let (b, ts) = bpdus.last();
        let before = replay(state, front).0;
        let own = of_vlan(front, vlan);
        lemma_vlan_alone(state, front, vlan);
        if analyzer::vlan_of(b) == vlan {
            assert(of_vlan(bpdus, vlan).drop_last() =~= own);
            lemma_step_alike(before, replay(state, own).0, b, ts);
        } else {
            lemma_step_aside(before, b, ts, vlan);
        }
    }
}

/// VLANs share nothing: two histories that agree on the BPDUs of a VLAN tell the
/// same of its next BPDU.
pub proof fn lemma_vlans_independent(
    state: AnalyzerModel,
    one: Seq<(Bpdu, Timestamp)>,
    other: Seq<(Bpdu, Timestamp)>,
    b: Bpdu,
    ts: Timestamp,
)
    requires
        of_vlan(one, analyzer::vlan_of(b)) == of_vlan(other, analyzer::vlan_of(b)),
    ensures
        replay(state, one).0.step(b, ts).1 == replay(state, other).0.step(b, ts).1,
{
    let vlan = analyzer::vlan_of(b);
    let own = replay(state, of_vlan(one, vlan)).0;
    lemma_vlan_alone(state, one, vlan);
    lemma_vlan_alone(state, other, vlan);
    lemma_step_alike(replay(state, one).0, own, b, ts);
    lemma_step_alike(replay(state, other).0, own, b, ts);
}

/// In a new window, the topology change of number `i` is told as such, in the window
/// that the first one opened; a storm has that number and goes from the first change to
/// this one.
pub proof fn lemma_changes_numbered(
    state: AnalyzerModel,
    bpdus: Seq<(Bpdu, Timestamp)>,
    vlan: u16,
    i: int,
    n: int,
)
    requires
        changes_in_window(bpdus, vlan),
        0 <= i < bpdus.len() < usize::MAX,
        opens_window(state.tc_windows, vlan, bpdus[0].1, 10_000),
        !state.storms.contains(analyzer::window_key(vlan, bpdus[0].1.sec)),
        replay(state, bpdus.take(i)).0.counts_within(usize::MAX - 1),
        0 <= n < told_with(state, bpdus, i).len(),
    ensures
        told_with(state, bpdus, i)[n] matches EventModel::TopologyChange { tc_count, .. }
            ==> tc_count == i + 1,
        told_with(state, bpdus, i)[n] matches EventModel::TcStorm { tc_count, window_ms, .. }
            ==> tc_count == i + 1 && window_ms.start == bpdus[0].1 && window_ms.end == bpdus[i].1,
{
    let before = replay(state, bpdus.take(i)).0;
    let (b, ts) = bpdus[i];
    lemma_changes_counted(state, bpdus, vlan, i);
    steps::lemma_topology_change(before, b, ts);
}

/// In a new window, flapping has the number of the change of root with which it is told
/// and goes from the first change to this one.
pub proof fn lemma_flapping_numbered(
    state: AnalyzerModel,
    bpdus: Seq<(Bpdu, Timestamp)>,
    vlan: u16,
    i: int,
    n: int,
)
    requires
        root_changes_in_window(bpdus, vlan, state.roots[vlan].text()),
        0 <= i < bpdus.len() < usize::MAX,
        state.roots.contains_key(vlan),
        opens_window(state.root_windows, vlan, bpdus[0].1, 30_000),
        !state.flaps.contains(analyzer::window_key(vlan, bpdus[0].1.sec)),
        replay(state, bpdus.take(i)).0.counts_within(usize::MAX - 1),
        0 <= n < told_with(state, bpdus, i).len(),
    ensures
        told_with(state, bpdus, i)[n] matches EventModel::RootFlapping { change_count, window_ms, .. }
            ==> change_count == i + 1 && window_ms.start == bpdus[0].1 && window_ms.end == bpdus[i].1,
{
    let before = replay(state, bpdus.take(i)).0;
    let (b, ts) = bpdus[i];
    assert(changes_root(bpdus, vlan, state.roots[vlan].text(), i));
    lemma_root_changes_counted(state, bpdus, vlan, i);
    steps::lemma_flapping(before, b, ts);
}

/// Before the first BPDU nothing is known and nothing was told.
pub proof fn lemma_nothing_at_first()
    ensures
        ({
            let (state, events) = replay(AnalyzerModel::initial(), Seq::empty());
            &&& events.len() == 0
            &&& state.roots.dom() == Set::<u16>::empty()
            &&& state.bridges.dom() == Set::<u64>::empty()
            &&& state.tc_windows.dom() == Set::<u16>::empty()
            &&& state.root_windows.dom() == Set::<u16>::empty()
            &&& state.storms == Set::<u64>::empty()
            &&& state.flaps == Set::<u64>::empty()
        }),
{
}

} // verus!
