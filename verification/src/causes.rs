//! What holds of the causes that are found in any time line.

use vstd::arithmetic::power2::*;
use vstd::prelude::*;

use crate::binary64;
use crate::binary64::UNIT_BITS;
use crate::event::{EventKind, EventModel, Severity, TimedModel};
use crate::root_cause;
use crate::root_cause::{
    CauseModel, ChainModel, ChainRole, Lens, RootCause, RootCauseKind, RootCauseReport,
    RootCauseSeverity,
};
use crate::text;
use crate::time;
use crate::time::{Moment, Timestamp};

verus! {

/// Nothing is selected where no event counts, and only there.
pub proof fn lemma_selected(events: Seq<TimedModel>, lens: Lens)
    ensures
        root_cause::selected(events, lens).len() == 0 <==> forall|i: int|
            0 <= i < events.len() ==> !lens.selects((#[trigger] events[i]).event),
        forall|i: int|
            0 <= i < root_cause::selected(events, lens).len() ==> lens.selects(
                (#[trigger] root_cause::selected(events, lens)[i]).event,
            ),
    decreases events.len(),
{
    reveal(Seq::filter);
    if events.len() > 0 {
        let front = events.drop_last();
        lemma_selected(front, lens);
        assert(forall|i: int| 0 <= i < front.len() ==> front[i] == events[i]);
        assert(events.last() == events[events.len() - 1]);
        let before = root_cause::selected(front, lens);
        let now = root_cause::selected(events, lens);
        assert(forall|i: int| 0 <= i < before.len() ==> now[i] == before[i]);
    }
}

/// The two ways to look at changes of root select the same events.
proof fn lemma_takeovers_are_root_changes(events: Seq<TimedModel>)
    ensures
        root_cause::selected(events, Lens::Takeover) == root_cause::selected(events, Lens::RootChange),
    decreases events.len(),
{
    reveal(Seq::filter);
    if events.len() > 0 {
        lemma_takeovers_are_root_changes(events.drop_last());
    }
}

/// Which causes come together. A rogue root is a change of root without flapping. A
/// loop is suspected where inferior BPDUs come with a storm, and only there.
pub proof fn lemma_causes_fit_together(events: Seq<TimedModel>)
    ensures
        root_cause::rogue_bridge(events) is Some <==> root_cause::root_flapping(events) is None
            && exists|i: int|
            0 <= i < events.len() && (#[trigger] events[i]).event is RootChanged,
        root_cause::suspected_loop(events) is Some <==> root_cause::tc_storm(events) is Some
            && exists|i: int|
            0 <= i < events.len() && (#[trigger] events[i]).event is InferiorBpdu,
{
    lemma_selected(events, Lens::Takeover);
    lemma_selected(events, Lens::Inferior);
}

/// No change of root is left without another cause: it belongs to flapping, or its
/// root is rogue. So a mere change of root is never reported, and the problems are
/// the grave ones.
pub proof fn lemma_change_always_explained(events: Seq<TimedModel>)
    ensures
        root_cause::config_mismatch(events) is None,
        root_cause::problems(events) == root_cause::grave(events),
{
    lemma_takeovers_are_root_changes(events);
    let a = root_cause::found(root_cause::root_flapping(events));
    let b = root_cause::found(root_cause::tc_storm(events));
    let c = root_cause::found(root_cause::rogue_bridge(events));
    if root_cause::selected(events, Lens::RootChange).len() > 0 {
        assert(a.len() > 0 || c.len() > 0);
        assert(root_cause::grave(events).len() >= a.len() + b.len() + c.len());
    }
    assert(root_cause::grave(events) + Seq::empty() =~= root_cause::grave(events));
}

/// Changes of root without flapping and without a storm have one cause, a rogue
/// root.
pub proof fn lemma_one_cause(events: Seq<TimedModel>, i: int)
    requires
        0 <= i < events.len(),
        events[i].event is RootChanged,
        forall|j: int|
            0 <= j < events.len() ==> !((#[trigger] events[j]).event is RootFlapping)
                && !(events[j].event is TcStorm),
    ensures
        root_cause::report_of(events).causes.len() == 1,
        root_cause::report_of(events).causes[0].kind == RootCauseKind::RogueBridge,
{
    lemma_selected(events, Lens::Takeover);
    lemma_selected(events, Lens::Flapping);
    lemma_selected(events, Lens::Storm);
    let rogue = root_cause::found(root_cause::rogue_bridge(events));
    assert(root_cause::grave(events) =~= rogue);
    assert(root_cause::problems(events) =~= rogue);
}

/// The report on a time line is never empty. It gives the all-clear exactly where
/// no event is a change of root, flapping or a storm.
pub proof fn lemma_all_clear(events: Seq<TimedModel>)
    ensures
        root_cause::report_of(events).causes.len() > 0,
        root_cause::report_of(events).causes == seq![root_cause::all_clear()] <==> forall|i: int|
            0 <= i < events.len() ==> !((#[trigger] events[i]).event is RootChanged)
                && !(events[i].event is RootFlapping) && !(events[i].event is TcStorm),
{
    lemma_takeovers_are_root_changes(events);
    lemma_selected(events, Lens::Flapping);
    lemma_selected(events, Lens::RootChange);
    lemma_selected(events, Lens::Storm);
    let causes = root_cause::problems(events);
    if causes.len() > 0 {
        lemma_problems_ordered(events);
        assert(cause_place(causes[0].kind) < 5);
    }
    if forall|i: int|
        0 <= i < events.len() ==> !((#[trigger] events[i]).event is RootChanged)
            && !(events[i].event is RootFlapping) && !(events[i].event is TcStorm) {
        assert(causes.len() == 0);
    } else {
        assert(root_cause::found(root_cause::root_flapping(events)).len() > 0
            || root_cause::found(root_cause::tc_storm(events)).len() > 0
            || root_cause::found(root_cause::rogue_bridge(events)).len() > 0);
    }
}

/// The place of a kind of cause in a report.
pub open spec fn cause_place(kind: RootCauseKind) -> int {
    match kind {
        RootCauseKind::RootFlapping => 0,
        RootCauseKind::TcStorm => 1,
        RootCauseKind::RogueBridge => 2,
        RootCauseKind::LoopDetected => 3,
        RootCauseKind::ConfigMismatch => 4,
        RootCauseKind::Clean => 5,
    }
}

/// How bad a severity is.
pub open spec fn rank(severity: RootCauseSeverity) -> int {
    match severity {
        RootCauseSeverity::Info => 0,
        RootCauseSeverity::Warning => 1,
        RootCauseSeverity::Critical => 2,
    }
}

/// The causes are critical and stand in the order of their places, from `low` up to
/// `high`.
pub open spec fn causes_ordered(causes: Seq<CauseModel>, low: int, high: int) -> bool {
    &&& forall|i: int|
        0 <= i < causes.len() ==> low <= cause_place((#[trigger] causes[i]).kind) < high
            && causes[i].severity == RootCauseSeverity::Critical
    &&& forall|i: int, j: int|
        0 <= i < j < causes.len() ==> cause_place((#[trigger] causes[i]).kind) < cause_place(
            (#[trigger] causes[j]).kind,
        )
}

/// Ordered lists of which one ends where the other begins are ordered as a whole.
proof fn lemma_causes_concat(
    a: Seq<CauseModel>,
    b: Seq<CauseModel>,
    low: int,
    middle: int,
    high: int,
)
    requires
        low <= middle <= high,
        causes_ordered(a, low, middle),
        causes_ordered(b, middle, high),
    ensures
        causes_ordered(a + b, low, high),
{
    let s = a + b;
    assert(forall|i: int| 0 <= i < a.len() ==> s[i] == a[i]);
    assert(forall|i: int| a.len() <= i < s.len() ==> s[i] == b[i - a.len()]);
}

/// The problems are critical and in order.
proof fn lemma_problems_ordered(events: Seq<TimedModel>)
    ensures
        causes_ordered(root_cause::problems(events), 0, 4),
{
    let a = root_cause::found(root_cause::root_flapping(events));
    let b = root_cause::found(root_cause::tc_storm(events));
    let c = root_cause::found(root_cause::rogue_bridge(events));
    let d = root_cause::found(root_cause::suspected_loop(events));
    lemma_change_always_explained(events);
    lemma_causes_concat(a, b, 0, 1, 2);
    lemma_causes_concat(a + b, c, 0, 2, 3);
    lemma_causes_concat(a + b + c, d, 0, 3, 4);
}

/// No kind of cause is in a report twice, and a worse cause never comes after a
/// lesser one.
pub proof fn lemma_worst_first(events: Seq<TimedModel>, i: int, j: int)
    requires
        0 <= i < j < root_cause::report_of(events).causes.len(),
    ensures
        root_cause::report_of(events).causes[i].kind != root_cause::report_of(events).causes[j].kind,
        rank(root_cause::report_of(events).causes[i].severity) >= rank(root_cause::report_of(events).causes[j].severity),
{
    lemma_problems_ordered(events);
    let causes = root_cause::problems(events);
    if causes.len() > 0 {
        assert(cause_place(causes[i].kind) < cause_place(causes[j].kind));
    }
}

/// Every problem is critical.
pub proof fn lemma_problems_critical(events: Seq<TimedModel>, i: int)
    requires
        0 <= i < root_cause::problems(events).len(),
    ensures
        root_cause::problems(events)[i].severity == RootCauseSeverity::Critical,
{
    lemma_problems_ordered(events);
    assert(cause_place(root_cause::problems(events)[i].kind) < 4);
}

/// There is something to do for each problem.
proof fn lemma_actions(causes: Seq<CauseModel>)
    requires
        forall|i: int| 0 <= i < causes.len() ==> (#[trigger] causes[i]).kind != RootCauseKind::Clean,
    ensures
        root_cause::actions(causes).len() == causes.len(),
        forall|i: int|
            0 <= i < causes.len() ==> Some(#[trigger] root_cause::actions(causes)[i])
                == causes[i].kind.action(),
    decreases causes.len(),
{
    if causes.len() > 0 {
        let front = causes.drop_last();
        assert(forall|i: int| 0 <= i < front.len() ==> front[i] == causes[i]);
        assert(causes.last() == causes[causes.len() - 1]);
        lemma_actions(front);
    }
}

/// The plan has one entry for each problem, in their order, or says that there is
/// nothing to do.
pub proof fn lemma_plan(events: Seq<TimedModel>)
    ensures
        root_cause::report_of(events).action_plan.len() == root_cause::report_of(events).causes.len(),
        root_cause::problems(events).len() == 0 ==> root_cause::report_of(events).action_plan == seq![
            "No action required."@,
        ],
        forall|i: int|
            0 <= i < root_cause::problems(events).len() ==> Some(
                #[trigger] root_cause::report_of(events).action_plan[i],
            ) == root_cause::problems(events)[i].kind.action(),
{
    let causes = root_cause::problems(events);
    lemma_problems_ordered(events);
    assert forall|i: int| 0 <= i < causes.len() implies (#[trigger] causes[i]).kind
        != RootCauseKind::Clean by {
        assert(cause_place(causes[i].kind) < 5);
    }
    lemma_actions(causes);
}

/// A problem is backed by evidence, and was first seen with the first of it.
pub proof fn lemma_evidence(events: Seq<TimedModel>, i: int)
    requires
        0 <= i < root_cause::problems(events).len(),
    ensures
        root_cause::problems(events)[i].evidence.len() > 0,
        root_cause::problems(events)[i].evidence[0].ts == root_cause::problems(events)[i].first_seen,
{
    let a = root_cause::found(root_cause::root_flapping(events));
    let b = root_cause::found(root_cause::tc_storm(events));
    let c = root_cause::found(root_cause::rogue_bridge(events));
    let d = root_cause::found(root_cause::suspected_loop(events));
    let n = root_cause::problems(events)[i];
    lemma_change_always_explained(events);
    assert(a.contains(n) || b.contains(n) || c.contains(n) || d.contains(n)) by {
        let p = a.len();
        let q = p + b.len();
        let r = q + c.len();
        if i < p {
            assert(a[i] == n);
        } else if i < q {
            assert(b[i - p] == n);
        } else if i < r {
            assert(c[i - q] == n);
        } else {
            assert(d[i - r] == n);
        }
    }
}

/// A time line of nothing but information is settled.
pub proof fn lemma_settled(events: Seq<TimedModel>)
    requires
        forall|i: int| 0 <= i < events.len() ==> (#[trigger] events[i]).severity == Severity::Info,
    ensures
        root_cause::settled(events),
{
}

/// The last fifth of a time line that does not go back lies between its first and
/// its last event.
pub proof fn lemma_last_fifth(events: Seq<TimedModel>)
    requires
        events.len() > 0,
        events.first().ts.seconds() <= events.last().ts.seconds(),
    ensures
        events.first().ts.seconds() <= root_cause::last_fifth(events)
            <= events.last().ts.seconds(),
{
    let first = events.first().ts;
    let last = events.last().ts;
    let u = time::one();
    let d = (last.seconds() - first.seconds()) as nat;
    lemma_pow2_pos(UNIT_BITS as nat);
    binary64::lemma_four_fifths(d, u);
    let part = binary64::nearest(
        binary64::nearest(d as int, 1) * binary64::nearest(4 * u as int, 5),
        u,
    );
    binary64::lemma_nearest_again(
        first.sec * u + binary64::nearest(first.usec * u, 1_000_000),
        1,
    );
    binary64::lemma_nearest_again(last.sec * u + binary64::nearest(last.usec * u, 1_000_000), 1);
    binary64::lemma_nearest_monotone(first.seconds(), first.seconds() + part, 1);
    binary64::lemma_nearest_monotone(first.seconds() + part, last.seconds(), 1);
}

/// A network whose last event is more than information has not settled, unless the
/// time line goes back.
pub proof fn lemma_not_settled(events: Seq<TimedModel>)
    requires
        events.len() > 0,
        events.first().ts.seconds() <= events.last().ts.seconds(),
        events.last().severity != Severity::Info,
    ensures
        !root_cause::settled(events),
{
    lemma_last_fifth(events);
    let i = events.len() - 1;
    assert(events[i].ts.seconds() >= root_cause::last_fifth(events));
}

/// The kind of event that a way of looking is for.
pub open spec fn kind_behind(lens: Lens) -> EventKind {
    match lens {
        Lens::Flapping => EventKind::RootFlapping,
        Lens::RootChange => EventKind::RootChanged,
        Lens::Takeover => EventKind::RootChanged,
        Lens::Storm => EventKind::TcStorm,
        Lens::TopologyChange => EventKind::TopologyChange,
        Lens::Inferior => EventKind::InferiorBpdu,
    }
}

/// Selected are the events of the kind, in their order: one more event is selected behind
/// the others where it is of the kind, and not at all where it is not.
pub proof fn lemma_selected_push(events: Seq<TimedModel>, e: TimedModel, lens: Lens)
    ensures
        root_cause::selected(Seq::empty(), lens).len() == 0,
        root_cause::selected(events.push(e), lens) == (if e.event.kind() == kind_behind(lens) {
            root_cause::selected(events, lens).push(e)
        } else {
            root_cause::selected(events, lens)
        }),
{
    reveal(Seq::filter);
    assert(events.push(e).drop_last() =~= events);
    assert(events.push(e).last() == e);
}

/// What is selected is there, and what is there and of the kind is selected.
proof fn lemma_selected_members(events: Seq<TimedModel>, lens: Lens, e: TimedModel)
    ensures
        root_cause::selected(events, lens).contains(e) <==> events.contains(e) && e.event.kind()
            == kind_behind(lens),
    decreases events.len(),
{
    if events.len() == 0 {
        reveal(Seq::filter);
    } else {
        let front = events.drop_last();
        let last = events.last();
        assert(events =~= front.push(last));
        lemma_selected_push(front, last, lens);
        lemma_selected_members(front, lens, e);
        lemma_push_contains(front, last, e);
        lemma_push_contains(root_cause::selected(front, lens), last, e);
    }
}

/// A list with one more item has that item and the others.
proof fn lemma_push_contains(s: Seq<TimedModel>, a: TimedModel, e: TimedModel)
    ensures
        s.push(a).contains(e) <==> s.contains(e) || e == a,
{
    if s.contains(e) {
        let i = s.index_of(e);
        assert(s.push(a)[i] == e);
    }
    assert(s.push(a)[s.len() as int] == a);
}

/// The first that is selected is the first of its kind.
proof fn lemma_first_selected(events: Seq<TimedModel>, lens: Lens, i: int)
    requires
        0 <= i < events.len(),
        events[i].event.kind() == kind_behind(lens),
        forall|j: int| 0 <= j < i ==> (#[trigger] events[j]).event.kind() != kind_behind(lens),
    ensures
        root_cause::selected(events, lens).len() > 0,
        root_cause::selected(events, lens)[0] == events[i],
    decreases events.len(),
{
    let front = events.drop_last();
    let last = events.last();
    assert(events =~= front.push(last));
    lemma_selected_push(front, last, lens);
    assert(forall|j: int| 0 <= j < front.len() ==> front[j] == events[j]);
    if i < front.len() {
        lemma_first_selected(front, lens, i);
    } else {
        lemma_none_selected(front, lens);
    }
}

/// Nothing is selected where nothing is of the kind.
proof fn lemma_none_selected(events: Seq<TimedModel>, lens: Lens)
    requires
        forall|j: int|
            0 <= j < events.len() ==> (#[trigger] events[j]).event.kind() != kind_behind(lens),
    ensures
        root_cause::selected(events, lens).len() == 0,
    decreases events.len(),
{
    if events.len() == 0 {
        reveal(Seq::filter);
    } else {
        let front = events.drop_last();
        let last = events.last();
        assert(events =~= front.push(last));
        assert(forall|j: int| 0 <= j < front.len() ==> front[j] == events[j]);
        assert(last == events[events.len() - 1]);
        lemma_selected_push(front, last, lens);
        lemma_none_selected(front, lens);
    }
}

/// The last that is selected is the last of its kind.
proof fn lemma_last_selected(events: Seq<TimedModel>, lens: Lens, i: int)
    requires
        0 <= i < events.len(),
        events[i].event.kind() == kind_behind(lens),
        forall|j: int|
            i < j < events.len() ==> (#[trigger] events[j]).event.kind() != kind_behind(lens),
    ensures
        root_cause::selected(events, lens).len() > 0,
        root_cause::selected(events, lens).last() == events[i],
    decreases events.len(),
{
    let front = events.drop_last();
    let last = events.last();
    assert(events =~= front.push(last));
    lemma_selected_push(front, last, lens);
    if i < front.len() {
        assert(last == events[events.len() - 1]);
        assert(forall|j: int| 0 <= j < front.len() ==> front[j] == events[j]);
        lemma_last_selected(front, lens, i);
    }
}

/// No count is above the highest, and one of them is the highest.
proof fn lemma_highest_count(events: Seq<TimedModel>)
    ensures
        forall|i: int|
            0 <= i < events.len() ==> (#[trigger] events[i]).event.count()
                <= root_cause::highest_count(events),
        events.len() > 0 ==> exists|i: int|
            0 <= i < events.len() && (#[trigger] events[i]).event.count()
                == root_cause::highest_count(events),
    decreases events.len(),
{
    if events.len() > 0 {
        let front = events.drop_last();
        lemma_highest_count(front);
        assert(forall|j: int| 0 <= j < front.len() ==> front[j] == events[j]);
        assert(events.last() == events[events.len() - 1]);
        if root_cause::highest_count(events) != events.last().event.count() {
            let i = choose|i: int|
                0 <= i < front.len() && (#[trigger] front[i]).event.count()
                    == root_cause::highest_count(front);
            assert(events[i].event.count() == root_cause::highest_count(events));
        }
    }
}

/// `n` is the highest count of the storms in a time line.
pub open spec fn highest_storm(events: Seq<TimedModel>, n: nat) -> bool {
    &&& forall|i: int|
        0 <= i < events.len() ==> ((#[trigger] events[i]).event matches EventModel::TcStorm {
            tc_count,
            ..
        } ==> tc_count <= n)
    &&& exists|i: int|
        0 <= i < events.len() && ((#[trigger] events[i]).event matches EventModel::TcStorm {
            tc_count,
            ..
        } && tc_count == n)
}

/// `n` is the highest count of the flapping in a time line.
pub open spec fn highest_flapping(events: Seq<TimedModel>, n: nat) -> bool {
    &&& forall|i: int|
        0 <= i < events.len() ==> ((#[trigger] events[i]).event matches EventModel::RootFlapping {
            change_count,
            ..
        } ==> change_count <= n)
    &&& exists|i: int|
        0 <= i < events.len() && ((#[trigger] events[i]).event matches EventModel::RootFlapping {
            change_count,
            ..
        } && change_count == n)
}

/// Where there is a storm, there is a highest count of storms, and there is one of
/// flapping where there is flapping.
pub proof fn lemma_highest_is_there(events: Seq<TimedModel>)
    ensures
        (exists|i: int| 0 <= i < events.len() && (#[trigger] events[i]).event is TcStorm) ==> exists|
            n: nat,
        |
            highest_storm(events, n),
        (exists|i: int| 0 <= i < events.len() && (#[trigger] events[i]).event is RootFlapping)
            ==> exists|n: nat| highest_flapping(events, n),
{
    if exists|i: int| 0 <= i < events.len() && (#[trigger] events[i]).event is TcStorm {
        let i = choose|i: int| 0 <= i < events.len() && (#[trigger] events[i]).event is TcStorm;
        lemma_storms_peak(events, i);
        assert(highest_storm(
            events,
            root_cause::highest_count(root_cause::selected(events, Lens::Storm)),
        ));
    }
    if exists|i: int| 0 <= i < events.len() && (#[trigger] events[i]).event is RootFlapping {
        let i = choose|i: int| 0 <= i < events.len() && (#[trigger] events[i]).event is RootFlapping;
        lemma_flapping_peak(events, i);
        assert(highest_flapping(
            events,
            root_cause::highest_count(root_cause::selected(events, Lens::Flapping)),
        ));
    }
}

/// The highest count of what is selected of the storms is that of all of them.
proof fn lemma_storms_peak(events: Seq<TimedModel>, at: int)
    requires
        0 <= at < events.len(),
        events[at].event is TcStorm,
    ensures
        highest_storm(
            events,
            root_cause::highest_count(root_cause::selected(events, Lens::Storm)),
        ),
{
    let storms = root_cause::selected(events, Lens::Storm);
    let n = root_cause::highest_count(storms);
    lemma_highest_count(storms);
    assert forall|i: int| 0 <= i < events.len() implies ((
        #[trigger] events[i]).event matches EventModel::TcStorm { tc_count, .. } ==> tc_count <= n) by {
        lemma_selected_members(events, Lens::Storm, events[i]);
        if events[i].event is TcStorm {
            assert(events.contains(events[i]));
            let k = storms.index_of(events[i]);
            assert(storms[k].event.count() <= n);
        }
    }
    assert(events.contains(events[at]));
    lemma_selected_members(events, Lens::Storm, events[at]);
    let k = choose|k: int| 0 <= k < storms.len() && (#[trigger] storms[k]).event.count() == n;
    lemma_selected_members(events, Lens::Storm, storms[k]);
    assert(storms.contains(storms[k]));
    let i = events.index_of(storms[k]);
    assert(events[i].event is TcStorm);
}

/// The highest count of what is selected of the flapping is that of all of it.
proof fn lemma_flapping_peak(events: Seq<TimedModel>, at: int)
    requires
        0 <= at < events.len(),
        events[at].event is RootFlapping,
    ensures
        highest_flapping(
            events,
            root_cause::highest_count(root_cause::selected(events, Lens::Flapping)),
        ),
{
    let flaps = root_cause::selected(events, Lens::Flapping);
    let n = root_cause::highest_count(flaps);
    lemma_highest_count(flaps);
    assert forall|i: int| 0 <= i < events.len() implies ((
        #[trigger] events[i]).event matches EventModel::RootFlapping { change_count, .. }
        ==> change_count <= n) by {
        lemma_selected_members(events, Lens::Flapping, events[i]);
        if events[i].event is RootFlapping {
            assert(events.contains(events[i]));
            let k = flaps.index_of(events[i]);
            assert(flaps[k].event.count() <= n);
        }
    }
    assert(events.contains(events[at]));
    lemma_selected_members(events, Lens::Flapping, events[at]);
    let k = choose|k: int| 0 <= k < flaps.len() && (#[trigger] flaps[k]).event.count() == n;
    lemma_selected_members(events, Lens::Flapping, flaps[k]);
    assert(flaps.contains(flaps[k]));
    let i = events.index_of(flaps[k]);
    assert(events[i].event is RootFlapping);
}

/// A storm is explained where one was told of: with the highest count of all storms, as
/// evidence the storms and at most five topology changes, and the remedy against storms.
pub proof fn lemma_storm_explained(events: Seq<TimedModel>, n: nat)
    requires
        highest_storm(events, n),
    ensures
        root_cause::tc_storm(events) is Some,
        ({
            let c = root_cause::tc_storm(events)->0;
            let storms = root_cause::selected(events, Lens::Storm);
            let changes = root_cause::selected(events, Lens::TopologyChange);
            let shown: int = if changes.len() < 5 { changes.len() as int } else { 5 };
            &&& c.kind == RootCauseKind::TcStorm
            &&& c.severity == RootCauseSeverity::Critical
            &&& c.headline == "TC storm — "@ + text::decimal(n) + " topology changes detected"@
            &&& c.confidence_reason == text::decimal(n) + " TC events observed in capture window."@
            &&& c.confidence == 90
            &&& c.impact == "Excessive TC flags cause all bridges to flush MAC tables on every TC. Results in temporary unicast flooding across entire VLAN, bandwidth saturation, CPU spikes on switches."@
            &&& c.remediation == "Enable BPDU Guard on access ports: `spanning-tree bpduguard enable`. Enable PortFast on end-device ports: `spanning-tree portfast`. Check for flapping ports or loops."@
            &&& c.evidence.len() == storms.len() + shown
            &&& forall|i: int|
                0 <= i < storms.len() ==> #[trigger] c.evidence[i] == Lens::Storm.evidence_of(storms[i])
            &&& forall|i: int|
                0 <= i < shown ==> #[trigger] c.evidence[storms.len() + i]
                    == Lens::TopologyChange.evidence_of(changes[i])
            &&& c.secondary_effects == seq![
                "MAC table flush on every TC → unicast flooding"@,
                "CPU load spike on all bridges"@,
                "Bandwidth saturation from flooding"@,
            ]
            &&& c.causal_chain.len() == 0
        }),
{
    let i = choose|i: int|
        0 <= i < events.len() && ((#[trigger] events[i]).event matches EventModel::TcStorm {
            tc_count,
            ..
        } && tc_count == n);
    lemma_storms_peak(events, i);
    lemma_selected_members(events, Lens::Storm, events[i]);
    assert(events.contains(events[i]));
    let m = root_cause::highest_count(root_cause::selected(events, Lens::Storm));
    let k = choose|k: int|
        0 <= k < events.len() && ((#[trigger] events[k]).event matches EventModel::TcStorm {
            tc_count,
            ..
        } && tc_count == m);
    assert(events[k].event is TcStorm && events[i].event is TcStorm);
    assert(m == n);
}

/// No storm is explained where none was told of.
pub proof fn lemma_no_storm(events: Seq<TimedModel>)
    ensures
        root_cause::tc_storm(events) is None <==> forall|i: int|
            0 <= i < events.len() ==> !((#[trigger] events[i]).event is TcStorm),
        root_cause::root_flapping(events) is None <==> forall|i: int|
            0 <= i < events.len() ==> !((#[trigger] events[i]).event is RootFlapping),
{
    lemma_selected(events, Lens::Storm);
    lemma_selected(events, Lens::Flapping);
}

/// Flapping is explained where it was told of: with the highest count of changes, as
/// evidence the flapping and then all changes of root, and the remedy against flapping.
/// The chain leads from the first flapping by half a second to the last.
pub proof fn lemma_flapping_explained(events: Seq<TimedModel>, n: nat)
    requires
        highest_flapping(events, n),
    ensures
        root_cause::root_flapping(events) is Some,
        ({
            let c = root_cause::root_flapping(events)->0;
            let flaps = root_cause::selected(events, Lens::Flapping);
            let changes = root_cause::selected(events, Lens::RootChange);
            &&& c.kind == RootCauseKind::RootFlapping
            &&& c.severity == RootCauseSeverity::Critical
            &&& c.headline == "Root bridge flapping — "@ + text::decimal(n) + " changes detected"@
            &&& c.confidence_reason == text::decimal(n)
                + " root changes observed directly in capture window."@
            &&& c.confidence == 95
            &&& c.impact == "MAC tables flushed repeatedly. Broadcast storms possible. Network convergence delayed. All traffic on affected VLANs disrupted."@
            &&& c.remediation == "Set explicit root bridge: `spanning-tree vlan <id> root primary` on intended root. Enable Root Guard on access ports: `spanning-tree guard root`. Check for rogue switches."@
            &&& c.evidence.len() == flaps.len() + changes.len()
            &&& forall|i: int|
                0 <= i < flaps.len() ==> #[trigger] c.evidence[i] == Lens::Flapping.evidence_of(flaps[i])
            &&& forall|i: int|
                0 <= i < changes.len() ==> #[trigger] c.evidence[flaps.len() + i]
                    == Lens::RootChange.evidence_of(changes[i])
            &&& c.secondary_effects == seq![
                "Repeated MAC table flushes → temporary flooding"@,
                "STP re-convergence on every change (30s classic STP, 1-2s RSTP)"@,
                "Possible broadcast storm during convergence"@,
            ]
            &&& c.causal_chain == seq![
                ChainModel {
                    ts: Moment { ts: c.first_seen, after_ms: 0 },
                    event_type: "RootChanged"@,
                    description: "Root bridge changes rapidly — new bridge announces lower Bridge ID"@,
                    role: ChainRole::Cause,
                },
                ChainModel {
                    ts: Moment { ts: c.first_seen, after_ms: 500 },
                    event_type: "TopologyChange"@,
                    description: "Each root change triggers TC flood — all bridges flush MAC tables"@,
                    role: ChainRole::Effect,
                },
                ChainModel {
                    ts: Moment { ts: c.last_seen, after_ms: 0 },
                    event_type: "RootFlapping"@,
                    description: "Instability continues — network convergence never completes"@,
                    role: ChainRole::Effect,
                },
            ]
        }),
{
    let i = choose|i: int|
        0 <= i < events.len() && ((#[trigger] events[i]).event matches EventModel::RootFlapping {
            change_count,
            ..
        } && change_count == n);
    lemma_flapping_peak(events, i);
    lemma_selected_members(events, Lens::Flapping, events[i]);
    assert(events.contains(events[i]));
    let m = root_cause::highest_count(root_cause::selected(events, Lens::Flapping));
    let k = choose|k: int|
        0 <= k < events.len() && ((#[trigger] events[k]).event matches EventModel::RootFlapping {
            change_count,
            ..
        } && change_count == m);
    assert(events[k].event is RootFlapping && events[i].event is RootFlapping);
    assert(m == n);
}

/// A rogue root is explained with the number of VLANs whose root changed, as evidence all
/// changes of root, and the remedy against rogue roots. The chain leads from the first
/// change by a tenth of a second and by one to the root that stayed, which is the new one
/// of the last change, at `last`.
pub proof fn lemma_rogue_explained(events: Seq<TimedModel>, last: int)
    requires
        0 <= last < events.len(),
        events[last].event is RootChanged,
        forall|j: int| last < j < events.len() ==> !((#[trigger] events[j]).event is RootChanged),
        forall|j: int| 0 <= j < events.len() ==> !((#[trigger] events[j]).event is RootFlapping),
    ensures
        root_cause::rogue_bridge(events) is Some,
        ({
            let c = root_cause::rogue_bridge(events)->0;
            let changes = root_cause::selected(events, Lens::Takeover);
            &&& c.kind == RootCauseKind::RogueBridge
            &&& c.severity == RootCauseSeverity::Critical
            &&& c.headline == "Rogue root bridge — unexpected root takeover on "@ + text::decimal(
                c.affected_vlans.len(),
            ) + " VLAN(s)"@
            &&& c.confidence_reason
                == "Root changed to previously unknown bridge without prior instability."@
            &&& c.confidence == 80
            &&& c.impact == "Traffic paths changed unexpectedly. New root may be a misconfigured access switch or unauthorized device, causing suboptimal or broken routing."@
            &&& c.remediation == "Enable Root Guard on uplink ports: `spanning-tree guard root`. Verify intended root has lowest Bridge ID. Check for unauthorized switches. Set `spanning-tree vlan <id> priority 4096` on intended root."@
            &&& c.evidence.len() == changes.len()
            &&& forall|i: int|
                0 <= i < changes.len() ==> #[trigger] c.evidence[i] == Lens::Takeover.evidence_of(
                    changes[i],
                )
            &&& c.secondary_effects == seq![
                "Traffic paths changed to suboptimal routes"@,
                "Potential traffic blackhole during convergence"@,
            ]
            &&& c.causal_chain == seq![
                ChainModel {
                    ts: Moment { ts: c.first_seen, after_ms: 0 },
                    event_type: "BridgeDiscovered"@,
                    description: "New bridge connected to network with low Bridge ID"@,
                    role: ChainRole::Cause,
                },
                ChainModel {
                    ts: Moment { ts: c.first_seen, after_ms: 100 },
                    event_type: "RootChanged"@,
                    description: "New bridge "@ + events[last].event->new_root
                        + " elected as Root — all traffic path changes"@,
                    role: ChainRole::Effect,
                },
                ChainModel {
                    ts: Moment { ts: c.first_seen, after_ms: 1000 },
                    event_type: "TopologyChange"@,
                    description: "TC flood triggered — MAC tables flushed across all bridges"@,
                    role: ChainRole::Effect,
                },
            ]
        }),
{
    assert forall|j: int| last < j < events.len() implies (#[trigger] events[j]).event.kind()
        != kind_behind(Lens::Takeover) by {
        assert(!(events[j].event is RootChanged));
    }
    lemma_last_selected(events, Lens::Takeover, last);
    lemma_selected(events, Lens::Flapping);
}

/// A loop is explained as evidence of all inferior BPDUs, with the remedy against loops.
pub proof fn lemma_loop_explained(events: Seq<TimedModel>, inferior: int, storm: int)
    requires
        0 <= inferior < events.len(),
        0 <= storm < events.len(),
        events[inferior].event is InferiorBpdu,
        events[storm].event is TcStorm,
    ensures
        root_cause::suspected_loop(events) is Some,
        ({
            let c = root_cause::suspected_loop(events)->0;
            let claims = root_cause::selected(events, Lens::Inferior);
            &&& c.kind == RootCauseKind::LoopDetected
            &&& c.severity == RootCauseSeverity::Critical
            &&& c.headline == "Possible loop — inferior BPDUs with TC storm"@
            &&& c.confidence_reason == "Inferior BPDUs co-occurring with TC storm — correlation suggests loop, but physical verification needed."@
            &&& c.confidence == 70
            &&& c.impact == "Inferior BPDUs combined with TC storm indicate a possible loop condition. Bridges receiving BPDUs with stale root information may indicate a segment is not receiving BPDUs properly."@
            &&& c.remediation == "Check for unidirectional links (SFP issues). Enable UDLD: `udld enable`. Check BPDU filtering is not blocking legitimate BPDUs. Verify physical topology matches logical."@
            &&& c.evidence.len() == claims.len()
            &&& forall|i: int|
                0 <= i < claims.len() ==> #[trigger] c.evidence[i] == Lens::Inferior.evidence_of(
                    claims[i],
                )
            &&& c.secondary_effects == seq![
                "Broadcast storm if loop not blocked by STP"@,
                "MAC table instability"@,
            ]
            &&& c.affected_vlans.len() == 0
            &&& c.causal_chain.len() == 0
        }),
{
    lemma_selected(events, Lens::Inferior);
    lemma_selected(events, Lens::Storm);
}

/// The kind of event that a cause is found by.
pub open spec fn found_by(kind: RootCauseKind) -> Option<EventKind> {
    match kind {
        RootCauseKind::RootFlapping => Some(EventKind::RootFlapping),
        RootCauseKind::TcStorm => Some(EventKind::TcStorm),
        RootCauseKind::RogueBridge => Some(EventKind::RootChanged),
        RootCauseKind::LoopDetected => Some(EventKind::InferiorBpdu),
        _ => None,
    }
}

/// A problem is one of the four causes.
proof fn lemma_which_problem(events: Seq<TimedModel>, n: int)
    requires
        0 <= n < root_cause::problems(events).len(),
    ensures
        ({
            let c = root_cause::problems(events)[n];
            ||| root_cause::root_flapping(events) == Some(c) && c.kind == RootCauseKind::RootFlapping
            ||| root_cause::tc_storm(events) == Some(c) && c.kind == RootCauseKind::TcStorm
            ||| root_cause::rogue_bridge(events) == Some(c) && c.kind == RootCauseKind::RogueBridge
            ||| root_cause::suspected_loop(events) == Some(c) && c.kind == RootCauseKind::LoopDetected
        }),
{
    let a = root_cause::found(root_cause::root_flapping(events));
    let b = root_cause::found(root_cause::tc_storm(events));
    let c = root_cause::found(root_cause::rogue_bridge(events));
    let d = root_cause::found(root_cause::suspected_loop(events));
    let e = root_cause::problems(events)[n];
    lemma_change_always_explained(events);
    let p = a.len();
    let q = p + b.len();
    let r = q + c.len();
    if n < p {
        assert(a[n] == e);
    } else if n < q {
        assert(b[n - p] == e);
    } else if n < r {
        assert(c[n - q] == e);
    } else {
        assert(d[n - r] == e);
    }
}

/// A problem was first seen with the first event of the kind that it is found by and last
/// seen with the last one.
pub proof fn lemma_first_and_last_seen(events: Seq<TimedModel>, n: int, first: int, last: int)
    requires
        0 <= n < root_cause::problems(events).len(),
        0 <= first < events.len(),
        0 <= last < events.len(),
        ({
            let kind = found_by(root_cause::problems(events)[n].kind);
            &&& kind == Some(events[first].event.kind())
            &&& kind == Some(events[last].event.kind())
            &&& forall|j: int| 0 <= j < first ==> kind != Some((#[trigger] events[j]).event.kind())
            &&& forall|j: int|
                last < j < events.len() ==> kind != Some((#[trigger] events[j]).event.kind())
        }),
    ensures
        root_cause::problems(events)[n].first_seen == events[first].ts,
        root_cause::problems(events)[n].last_seen == events[last].ts,
{
    lemma_which_problem(events, n);
    let lens = match root_cause::problems(events)[n].kind {
        RootCauseKind::RootFlapping => Lens::Flapping,
        RootCauseKind::TcStorm => Lens::Storm,
        RootCauseKind::RogueBridge => Lens::Takeover,
        _ => Lens::Inferior,
    };
    lemma_first_selected(events, lens, first);
    lemma_last_selected(events, lens, last);
}

/// The VLANs of a problem are those of the events that it is found by, each once. A loop
/// names none.
pub proof fn lemma_affected_vlans(events: Seq<TimedModel>, n: int, vlan: Seq<char>)
    requires
        0 <= n < root_cause::problems(events).len(),
        root_cause::problems(events)[n].kind != RootCauseKind::LoopDetected,
    ensures
        ({
            let c = root_cause::problems(events)[n];
            &&& c.affected_vlans.no_duplicates()
            &&& c.affected_vlans.contains(vlan) <==> exists|i: int|
                0 <= i < events.len() && found_by(c.kind) == Some((#[trigger] events[i]).event.kind())
                    && root_cause::vlan_text(events[i].event.vlan_id()) == vlan
        }),
{
    let c = root_cause::problems(events)[n];
    lemma_which_problem(events, n);
    let lens = match c.kind {
        RootCauseKind::RootFlapping => Lens::Flapping,
        RootCauseKind::TcStorm => Lens::Storm,
        _ => Lens::Takeover,
    };
    let chosen = root_cause::selected(events, lens);
    let names = chosen.map_values(|e: TimedModel| root_cause::vlan_text(e.event.vlan_id()));
    text::lemma_distinct(names);
    assert(c.affected_vlans == text::distinct(names));
    assert(c.affected_vlans.contains(vlan) <==> c.affected_vlans.to_set().contains(vlan));
    assert(names.contains(vlan) <==> names.to_set().contains(vlan));
    if names.contains(vlan) {
        let k = names.index_of(vlan);
        lemma_selected_members(events, lens, chosen[k]);
        assert(chosen.contains(chosen[k]));
        let i = events.index_of(chosen[k]);
        assert(found_by(c.kind) == Some(events[i].event.kind()));
    }
    if exists|i: int|
        0 <= i < events.len() && found_by(c.kind) == Some((#[trigger] events[i]).event.kind())
            && root_cause::vlan_text(events[i].event.vlan_id()) == vlan {
        let i = choose|i: int|
            0 <= i < events.len() && found_by(c.kind) == Some((#[trigger] events[i]).event.kind())
                && root_cause::vlan_text(events[i].event.vlan_id()) == vlan;
        lemma_selected_members(events, lens, events[i]);
        assert(events.contains(events[i]));
        let k = chosen.index_of(events[i]);
        assert(names[k] == vlan);
    }
}

/// Evidence stands at the time of its event, under the name of its kind, and says in which
/// VLAN what happened: how many changes in which time, from which root to which, from
/// whom, or which root was claimed in place of which.
pub proof fn lemma_evidence_says(lens: Lens, e: TimedModel)
    requires
        e.event.kind() == kind_behind(lens),
    ensures
        ({
            let shown = lens.evidence_of(e);
            let place = root_cause::vlan_text(e.event.vlan_id()) + ": "@;
            &&& shown.ts == e.ts
            &&& e.event matches EventModel::RootFlapping { change_count, window_ms, .. } ==> {
                &&& shown.event_type == "RootFlapping"@
                &&& shown.description == place + (text::decimal(change_count as nat)
                    + " root changes in "@ + window_ms.ms_text() + "ms"@)
            }
            &&& e.event matches EventModel::TcStorm { tc_count, window_ms, .. } ==> {
                &&& shown.event_type == "TcStorm"@
                &&& shown.description == place + (text::decimal(tc_count as nat) + " TC flags in "@
                    + window_ms.ms_text() + "ms"@)
            }
            &&& e.event matches EventModel::TopologyChange { sender_mac, tc_count, .. } ==> {
                &&& shown.event_type == "TopologyChange"@
                &&& shown.description == place + ("TC #"@ + text::decimal(tc_count as nat) + " from "@
                    + sender_mac)
            }
            &&& e.event matches EventModel::RootChanged { old_root, new_root, new_root_mac, .. } ==> {
                &&& shown.event_type == "RootChanged"@
                &&& lens == Lens::RootChange ==> shown.description == place + (old_root + " → "@
                    + new_root)
                &&& lens == Lens::Takeover ==> shown.description == place + ("new root "@ + new_root
                    + " (mac "@ + new_root_mac + ")"@)
            }
            &&& e.event matches EventModel::InferiorBpdu { sender_mac, claimed_root, actual_root, .. }
                ==> {
                &&& shown.event_type == "InferiorBpdu"@
                &&& shown.description == place + (sender_mac + " claims root "@ + claimed_root
                    + " (actual: "@ + actual_root + ")"@)
            }
        }),
{
}

/// The name of a VLAN has its number, and VLANs of different numbers have different names,
/// none of which is that of frames without a VLAN.
pub proof fn lemma_vlan_names(v: u16, w: u16)
    ensures
        root_cause::vlan_text(Some(v)) == "VLAN "@ + text::decimal(v as nat),
        root_cause::vlan_text(None) == "native"@,
        root_cause::vlan_text(Some(v)) == root_cause::vlan_text(Some(w)) <==> v == w,
        root_cause::vlan_text(Some(v)) != root_cause::vlan_text(None),
{
    reveal_strlit("VLAN ");
    reveal_strlit("native");
    let a = root_cause::vlan_text(Some(v));
    let b = root_cause::vlan_text(Some(w));
    assert(a.skip(5) =~= text::decimal(v as nat));
    assert(b.skip(5) =~= text::decimal(w as nat));
    if a == b {
        text::lemma_decimal_injective(v as nat, w as nat);
    }
    assert(a[0] == 'V' && root_cause::vlan_text(None)[0] == 'n');
}

/// The title of a cause.
pub open spec fn title_text(kind: RootCauseKind) -> Seq<char> {
    match kind {
        RootCauseKind::RootFlapping => "Root Bridge Flapping"@,
        RootCauseKind::TcStorm => "Topology Change Storm"@,
        RootCauseKind::RogueBridge => "Rogue Root Bridge"@,
        RootCauseKind::LoopDetected => "Loop Suspected"@,
        RootCauseKind::ConfigMismatch => "Root Bridge Change"@,
        RootCauseKind::Clean => "No Issues Detected"@,
    }
}

/// Each cause has its title.
pub proof fn lemma_titles(kind: RootCauseKind)
    ensures
        kind.name() == title_text(kind),
{
}

/// The titles of causes of a severity are those of all of them, in their order.
proof fn lemma_titles_of(causes: Seq<CauseModel>, severity: RootCauseSeverity)
    requires
        forall|i: int| 0 <= i < causes.len() ==> (#[trigger] causes[i]).severity == severity,
    ensures
        root_cause::titles_of(causes, severity) == causes.map_values(
            |c: CauseModel| title_text(c.kind),
        ),
    decreases causes.len(),
{
    reveal(Seq::filter);
    let all = causes.map_values(|c: CauseModel| title_text(c.kind));
    if causes.len() > 0 {
        let front = causes.drop_last();
        assert(forall|i: int| 0 <= i < front.len() ==> front[i] == causes[i]);
        assert(causes.last() == causes[causes.len() - 1]);
        lemma_titles_of(front, severity);
        assert(all.drop_last() =~= front.map_values(|c: CauseModel| title_text(c.kind)));
        assert(root_cause::titles_of(causes, severity) =~= root_cause::titles_of(front, severity).push(
            title_text(causes.last().kind),
        ));
    }
    assert(root_cause::titles_of(causes, severity) =~= all);
}

/// The verdict on causes that are all critical, or all warnings: how many they are, their
/// titles in their order, and whether the network settled.
pub proof fn lemma_verdict(causes: Seq<CauseModel>, severity: RootCauseSeverity, stable: bool)
    requires
        severity != RootCauseSeverity::Info,
        forall|i: int| 0 <= i < causes.len() ==> (#[trigger] causes[i]).severity == severity,
    ensures
        ({
            let titles = causes.map_values(|c: CauseModel| title_text(c.kind));
            root_cause::verdict_of(causes, stable) == (if causes.len() == 0 {
                "STP topology stable. No anomalies detected."@
            } else if severity == RootCauseSeverity::Critical {
                text::decimal(causes.len()) + " critical issue(s): "@ + text::joined(titles, ", "@)
                    + ". "@ + if stable {
                    "Topology may have stabilized by end of capture."@
                } else {
                    "Topology had NOT stabilized by end of capture."@
                }
            } else {
                text::decimal(causes.len()) + " warning(s): "@ + text::joined(titles, ", "@) + ". "@
                    + if stable {
                    "Topology stable."@
                } else {
                    "Instability persisted."@
                }
            })
        }),
{
    lemma_titles_of(causes, severity);
    if severity == RootCauseSeverity::Warning && causes.len() > 0 {
        lemma_titles_absent(causes);
    }
}

/// Among warnings nothing is critical.
proof fn lemma_titles_absent(causes: Seq<CauseModel>)
    requires
        forall|i: int|
            0 <= i < causes.len() ==> (#[trigger] causes[i]).severity == RootCauseSeverity::Warning,
    ensures
        root_cause::titles_of(causes, RootCauseSeverity::Critical).len() == 0,
    decreases causes.len(),
{
    reveal(Seq::filter);
    if causes.len() > 0 {
        let front = causes.drop_last();
        assert(forall|i: int| 0 <= i < front.len() ==> front[i] == causes[i]);
        assert(causes.last() == causes[causes.len() - 1]);
        lemma_titles_absent(front);
    }
}

/// The report on a time line: its causes are the problems, or the all-clear where there
/// are none, and its verdict counts and names them.
pub proof fn lemma_report(events: Seq<TimedModel>)
    ensures
        ({
            let r = root_cause::report_of(events);
            let problems = root_cause::problems(events);
            let titles = problems.map_values(|c: CauseModel| title_text(c.kind));
            &&& r.stable == root_cause::settled(events)
            &&& problems.len() > 0 ==> r.causes == problems
            &&& problems.len() == 0 ==> {
                &&& r.causes.len() == 1
                &&& r.causes[0].kind == RootCauseKind::Clean
                &&& r.causes[0].severity == RootCauseSeverity::Info
                &&& r.causes[0].headline == "STP topology stable"@
                &&& r.causes[0].impact
                    == "No anomalies detected. Root bridge consistent throughout capture."@
                &&& r.causes[0].remediation == "No action required."@
                &&& r.causes[0].confidence == 90
                &&& r.causes[0].confidence_reason
                    == "Root bridge stable, no TC storms or flapping detected."@
                &&& r.causes[0].evidence.len() == 0
                &&& r.causes[0].secondary_effects.len() == 0
                &&& r.causes[0].affected_vlans.len() == 0
                &&& r.causes[0].causal_chain.len() == 0
                &&& r.causes[0].first_seen == (Timestamp { sec: 0, usec: 0 })
                &&& r.causes[0].last_seen == (Timestamp { sec: 0, usec: 0 })
            }
            &&& r.verdict == (if problems.len() == 0 {
                "STP topology stable. No anomalies detected."@
            } else {
                text::decimal(problems.len()) + " critical issue(s): "@ + text::joined(titles, ", "@)
                    + ". "@ + if r.stable {
                    "Topology may have stabilized by end of capture."@
                } else {
                    "Topology had NOT stabilized by end of capture."@
                }
            })
        }),
{
    let problems = root_cause::problems(events);
    assert forall|i: int| 0 <= i < problems.len() implies (#[trigger] problems[i]).severity
        == RootCauseSeverity::Critical by {
        lemma_problems_critical(events, i);
    }
    lemma_verdict(problems, RootCauseSeverity::Critical, root_cause::settled(events));
}

/// A cause is among the problems where it is found, and the problems are no others.
pub proof fn lemma_problems_are_found(events: Seq<TimedModel>, c: CauseModel)
    ensures
        root_cause::problems(events).contains(c) <==> {
            ||| root_cause::root_flapping(events) == Some(c)
            ||| root_cause::tc_storm(events) == Some(c)
            ||| root_cause::rogue_bridge(events) == Some(c)
            ||| root_cause::suspected_loop(events) == Some(c)
        },
{
    let a = root_cause::found(root_cause::root_flapping(events));
    let b = root_cause::found(root_cause::tc_storm(events));
    let r = root_cause::found(root_cause::rogue_bridge(events));
    let d = root_cause::found(root_cause::suspected_loop(events));
    let problems = root_cause::problems(events);
    lemma_change_always_explained(events);
    if problems.contains(c) {
        let n = problems.index_of(c);
        lemma_which_problem(events, n);
    }
    if root_cause::root_flapping(events) == Some(c) {
        assert(problems[0] == a[0]);
    }
    if root_cause::tc_storm(events) == Some(c) {
        assert(problems[a.len() as int] == b[0]);
    }
    if root_cause::rogue_bridge(events) == Some(c) {
        assert(problems[(a.len() + b.len()) as int] == r[0]);
    }
    if root_cause::suspected_loop(events) == Some(c) {
        assert(problems[(a.len() + b.len() + r.len()) as int] == d[0]);
    }
}

/// What to do about a cause, as text.
pub open spec fn action_text(kind: RootCauseKind) -> Option<Seq<char>> {
    match kind {
        RootCauseKind::RootFlapping => Some(
            "1. URGENT: Stabilize root bridge — `spanning-tree vlan <id> root primary` on intended root. Enable Root Guard on all edge ports."@,
        ),
        RootCauseKind::TcStorm => Some(
            "2. URGENT: Enable PortFast + BPDU Guard on all access ports. Check for flapping links. Investigate TC source bridge."@,
        ),
        RootCauseKind::RogueBridge => Some(
            "3. URGENT: Enable Root Guard on uplink ports. Identify and isolate unauthorized bridge. Set correct STP priority on intended root."@,
        ),
        RootCauseKind::LoopDetected => Some(
            "4. Check for unidirectional links. Enable UDLD. Verify BPDU propagation on all segments."@,
        ),
        RootCauseKind::ConfigMismatch => Some(
            "5. Review root bridge priority configuration. Verify intended root has lowest Bridge ID for all VLANs."@,
        ),
        RootCauseKind::Clean => None,
    }
}

/// Each cause has its own action, and the plan for causes that all have one lists them in
/// their order.
pub proof fn lemma_actions_in_order(causes: Seq<CauseModel>, kind: RootCauseKind)
    requires
        forall|i: int| 0 <= i < causes.len() ==> (#[trigger] causes[i]).kind != RootCauseKind::Clean,
    ensures
        kind.action() == action_text(kind),
        causes.len() == 0 ==> root_cause::plan_of(causes) == seq!["No action required."@],
        causes.len() > 0 ==> root_cause::plan_of(causes).len() == causes.len(),
        forall|i: int|
            0 <= i < causes.len() ==> Some(#[trigger] root_cause::plan_of(causes)[i]) == action_text(
                causes[i].kind,
            ),
{
    lemma_actions(causes);
}

/// The views of a cause and of what it is made of have their numbers and texts.
pub proof fn lemma_cause_view(c: RootCause, i: int)
    ensures
        c@.kind == c.kind,
        c@.severity == c.severity,
        c@.headline == c.headline@,
        c@.impact == c.impact@,
        c@.remediation == c.remediation@,
        c@.first_seen == c.first_seen,
        c@.last_seen == c.last_seen,
        c@.confidence == c.confidence,
        c@.confidence_reason == c.confidence_reason@,
        c@.evidence.len() == c.evidence@.len(),
        0 <= i < c.evidence@.len() ==> {
            &&& c@.evidence[i].ts == c.evidence@[i].ts
            &&& c@.evidence[i].event_type == c.evidence@[i].event_type@
            &&& c@.evidence[i].description == c.evidence@[i].description@
        },
        c@.secondary_effects.len() == c.secondary_effects@.len(),
        0 <= i < c.secondary_effects@.len() ==> c@.secondary_effects[i]
            == c.secondary_effects@[i]@,
        c@.affected_vlans.len() == c.affected_vlans@.len(),
        0 <= i < c.affected_vlans@.len() ==> c@.affected_vlans[i] == c.affected_vlans@[i]@,
        c@.causal_chain.len() == c.causal_chain@.len(),
        0 <= i < c.causal_chain@.len() ==> {
            &&& c@.causal_chain[i].ts == c.causal_chain@[i].ts
            &&& c@.causal_chain[i].event_type == c.causal_chain@[i].event_type@
            &&& c@.causal_chain[i].description == c.causal_chain@[i].description@
            &&& c@.causal_chain[i].role == c.causal_chain@[i].role
        },
{
}

/// The view of a report has its verdict, its causes and its plan.
pub proof fn lemma_report_view(r: RootCauseReport, i: int)
    ensures
        r@.verdict == r.verdict@,
        r@.stable == r.stable,
        r@.causes.len() == r.causes@.len(),
        0 <= i < r.causes@.len() ==> r@.causes[i] == r.causes@[i]@,
        r@.action_plan.len() == r.action_plan@.len(),
        0 <= i < r.action_plan@.len() ==> r@.action_plan[i] == r.action_plan@[i]@,
{
}

/// In a time line of whole seconds that lasts five times `k` seconds, the last fifth is
/// the last `k` seconds, and the network settled where nothing in them is more than
/// information.
pub proof fn lemma_last_fifth_exact(events: Seq<TimedModel>, k: nat)
    requires
        events.len() > 0,
        forall|i: int| 0 <= i < events.len() ==> (#[trigger] events[i]).ts.usec == 0,
        events.last().ts.sec - events.first().ts.sec == 5 * k,
    ensures
        root_cause::last_fifth(events) == (events.first().ts.sec + 4 * k) * time::one(),
        root_cause::settled(events) <==> forall|i: int|
            0 <= i < events.len() && (#[trigger] events[i]).ts.sec >= events.first().ts.sec + 4 * k
                ==> events[i].severity == Severity::Info,
{
    let first = events.first().ts;
    let last = events.last().ts;
    let u = time::one();
    lemma_pow2_pos(UNIT_BITS as nat);
    assert(events[0].ts == first && events[events.len() - 1].ts == last);
    time::lemma_whole_seconds(first, first);
    time::lemma_whole_seconds(last, last);
    binary64::lemma_exact_four_fifths(k);
    let start = (first.sec + 4 * k) as nat;
    assert(last.sec * u - first.sec * u == 5 * k * u && first.sec * u + 4 * k * u == start * u
        && start * u >= 0) by (nonlinear_arith)
        requires
            last.sec - first.sec == 5 * k,
            start == first.sec + 4 * k,
            u > 0,
    ;
    binary64::lemma_nearest_exact(start, UNIT_BITS as nat);
    assert(root_cause::last_fifth(events) == start * u);
    assert forall|i: int| 0 <= i < events.len() implies ((#[trigger] events[i]).ts.seconds()
        >= root_cause::last_fifth(events) <==> events[i].ts.sec >= start) by {
        let sec = events[i].ts.sec;
        time::lemma_whole_seconds(events[i].ts, events[i].ts);
        assert(sec * u >= start * u <==> sec >= start) by (nonlinear_arith)
            requires
                u > 0,
        ;
    }
    if root_cause::settled(events) {
        assert forall|i: int| 0 <= i < events.len() && (#[trigger] events[i]).ts.sec >= start implies
            events[i].severity == Severity::Info by {
            assert(events[i].ts.seconds() >= root_cause::last_fifth(events));
        }
    }
    if forall|i: int|
        0 <= i < events.len() && (#[trigger] events[i]).ts.sec >= start ==> events[i].severity
            == Severity::Info {
        assert forall|i: int|
            0 <= i < events.len() && #[trigger] events[i].ts.seconds() >= root_cause::last_fifth(
                events,
            ) implies events[i].severity == Severity::Info by {
            assert(events[i].ts.sec >= start);
        }
    }
}

/// One more cause adds its title where it is of the severity, behind the others, and one
/// more entry to the actions, unless it is that there is no problem.
pub proof fn lemma_one_more_cause(
    causes: Seq<CauseModel>,
    c: CauseModel,
    severity: RootCauseSeverity,
)
    ensures
        root_cause::titles_of(Seq::empty(), severity).len() == 0,
        root_cause::titles_of(causes.push(c), severity) == (if c.severity == severity {
            root_cause::titles_of(causes, severity).push(title_text(c.kind))
        } else {
            root_cause::titles_of(causes, severity)
        }),
        root_cause::actions(Seq::empty()).len() == 0,
        root_cause::actions(causes.push(c)) == (match action_text(c.kind) {
            Some(action) => root_cause::actions(causes).push(action),
            None => root_cause::actions(causes),
        }),
{
    reveal(Seq::filter);
    assert(causes.push(c).drop_last() =~= causes);
    assert(causes.push(c).last() == c);
    assert(root_cause::titles_of(causes.push(c), severity) =~= (if c.severity == severity {
        root_cause::titles_of(causes, severity).push(title_text(c.kind))
    } else {
        root_cause::titles_of(causes, severity)
    }));
}

/// The verdict on any causes is on the critical ones, where there are any, and else on the
/// warnings; the plan is that of all of them.
pub proof fn lemma_verdict_on_the_worst(causes: Seq<CauseModel>, stable: bool)
    ensures
        ({
            let critical = root_cause::titles_of(causes, RootCauseSeverity::Critical);
            let warnings = root_cause::titles_of(causes, RootCauseSeverity::Warning);
            &&& critical.len() > 0 ==> root_cause::verdict_of(causes, stable) == text::decimal(
                critical.len(),
            ) + " critical issue(s): "@ + text::joined(critical, ", "@) + ". "@ + if stable {
                "Topology may have stabilized by end of capture."@
            } else {
                "Topology had NOT stabilized by end of capture."@
            }
            &&& causes.len() > 0 && critical.len() == 0 ==> root_cause::verdict_of(causes, stable)
                == text::decimal(warnings.len()) + " warning(s): "@ + text::joined(warnings, ", "@)
                + ". "@ + if stable {
                "Topology stable."@
            } else {
                "Instability persisted."@
            }
            &&& root_cause::plan_of(causes) == (if root_cause::actions(causes).len() == 0 {
                seq!["No action required."@]
            } else {
                root_cause::actions(causes)
            })
        }),
{
    reveal(Seq::filter);
}

} // verus!
