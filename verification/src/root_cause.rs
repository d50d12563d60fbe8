//! What lies behind the events of a capture.

use vstd::prelude::*;
use vstd::string::*;

use crate::binary64;
use crate::binary64::Binary64;
use crate::event;
use crate::event::{EventModel, Severity, StpEvent, TimedEvent, TimedModel};
use crate::text;
use crate::time;
use crate::time::{Moment, Timestamp};

verus! {

/// What went wrong.
#[derive(Debug, Clone, Copy, PartialEq, Eq, Structural)]
pub enum RootCauseKind {
    RootFlapping,
    TcStorm,
    /// Another bridge took over as root.
    RogueBridge,
    /// Inferior BPDUs together with a storm.
    LoopDetected,
    /// The root changed, and nothing else went wrong. No time line has this cause: a
    /// change of root is a takeover where it is not flapping.
    ConfigMismatch,
    Clean,
}

impl RootCauseKind {
    /// The title of the cause.
    pub open spec fn name(self) -> Seq<char> {
        match self {
            RootCauseKind::RootFlapping => "Root Bridge Flapping"@,
            RootCauseKind::TcStorm => "Topology Change Storm"@,
            RootCauseKind::RogueBridge => "Rogue Root Bridge"@,
            RootCauseKind::LoopDetected => "Loop Suspected"@,
            RootCauseKind::ConfigMismatch => "Root Bridge Change"@,
            RootCauseKind::Clean => "No Issues Detected"@,
        }
    }

    /// The title of the cause.
    pub fn title(&self) -> (r: &'static str)
        ensures
            r@ == self.name(),
    {
        match self {
            RootCauseKind::RootFlapping => "Root Bridge Flapping",
            RootCauseKind::TcStorm => "Topology Change Storm",
            RootCauseKind::RogueBridge => "Rogue Root Bridge",
            RootCauseKind::LoopDetected => "Loop Suspected",
            RootCauseKind::ConfigMismatch => "Root Bridge Change",
            RootCauseKind::Clean => "No Issues Detected",
        }
    }
}

/// The part of a step in a chain of cause and effect.
#[derive(Debug, Clone, Copy, PartialEq, Eq, Structural)]
pub enum ChainRole {
    Cause,
    Effect,
    Context,
}

/// A step in a chain of cause and effect.
#[derive(Debug, Clone)]
pub struct ChainStep {
    pub ts: Moment,
    pub event_type: String,
    pub description: String,
    pub role: ChainRole,
}

/// How bad a cause is, the worst last.
#[derive(Debug, Clone, Copy, PartialEq, Eq, PartialOrd, Structural)]
pub enum RootCauseSeverity {
    Info,
    Warning,
    Critical,
}

/// An event that speaks for a cause.
#[derive(Debug, Clone)]
pub struct EvidenceRef {
    pub ts: Timestamp,
    pub event_type: String,
    pub description: String,
}

/// A cause, with what speaks for it and what to do about it.
#[derive(Debug, Clone)]
pub struct RootCause {
    pub kind: RootCauseKind,
    pub severity: RootCauseSeverity,
    pub headline: String,
    pub impact: String,
    pub remediation: String,
    pub evidence: Vec<EvidenceRef>,
    pub secondary_effects: Vec<String>,
    pub affected_vlans: Vec<String>,
    pub first_seen: Timestamp,
    pub last_seen: Timestamp,
    pub confidence: u8,
    pub confidence_reason: String,
    pub causal_chain: Vec<ChainStep>,
}

/// What is wrong with a network, and what to do about it.
#[derive(Debug)]
pub struct RootCauseReport {
    pub causes: Vec<RootCause>,
    pub verdict: String,
    pub stable: bool,
    pub action_plan: Vec<String>,
}

/// As [`ChainStep`], its texts as sequences of characters.
pub struct ChainModel {
    pub ts: Moment,
    pub event_type: Seq<char>,
    pub description: Seq<char>,
    pub role: ChainRole,
}

/// As [`EvidenceRef`], its texts as sequences of characters.
pub struct EvidenceModel {
    pub ts: Timestamp,
    pub event_type: Seq<char>,
    pub description: Seq<char>,
}

/// As [`RootCause`], its texts as sequences of characters.
#[verifier::ext_equal]
pub struct CauseModel {
    pub kind: RootCauseKind,
    pub severity: RootCauseSeverity,
    pub headline: Seq<char>,
    pub impact: Seq<char>,
    pub remediation: Seq<char>,
    pub evidence: Seq<EvidenceModel>,
    pub secondary_effects: Seq<Seq<char>>,
    pub affected_vlans: Seq<Seq<char>>,
    pub first_seen: Timestamp,
    pub last_seen: Timestamp,
    pub confidence: u8,
    pub confidence_reason: Seq<char>,
    pub causal_chain: Seq<ChainModel>,
}

/// As [`RootCauseReport`], its texts as sequences of characters.
#[verifier::ext_equal]
pub struct ReportModel {
    pub causes: Seq<CauseModel>,
    pub verdict: Seq<char>,
    pub stable: bool,
    pub action_plan: Seq<Seq<char>>,
}

impl View for ChainStep {
    type V = ChainModel;

    open spec fn view(&self) -> ChainModel {
        ChainModel {
            ts: self.ts,
            event_type: self.event_type@,
            description: self.description@,
            role: self.role,
        }
    }
}

impl View for EvidenceRef {
    type V = EvidenceModel;

    open spec fn view(&self) -> EvidenceModel {
        EvidenceModel {
            ts: self.ts,
            event_type: self.event_type@,
            description: self.description@,
        }
    }
}

/// Evidence, its texts as sequences of characters.
pub open spec fn evidence_views(list: Seq<EvidenceRef>) -> Seq<EvidenceModel> {
    list.map_values(|e: EvidenceRef| e@)
}

/// A chain, its texts as sequences of characters.
pub open spec fn chain_views(list: Seq<ChainStep>) -> Seq<ChainModel> {
    list.map_values(|c: ChainStep| c@)
}

impl View for RootCause {
    type V = CauseModel;

    open spec fn view(&self) -> CauseModel {
        CauseModel {
            kind: self.kind,
            severity: self.severity,
            headline: self.headline@,
            impact: self.impact@,
            remediation: self.remediation@,
            evidence: evidence_views(self.evidence@),
            secondary_effects: text::views(self.secondary_effects@),
            affected_vlans: text::views(self.affected_vlans@),
            first_seen: self.first_seen,
            last_seen: self.last_seen,
            confidence: self.confidence,
            confidence_reason: self.confidence_reason@,
            causal_chain: chain_views(self.causal_chain@),
        }
    }
}

/// Causes, their texts as sequences of characters.
pub open spec fn cause_views(list: Seq<RootCause>) -> Seq<CauseModel> {
    list.map_values(|c: RootCause| c@)
}

impl View for RootCauseReport {
    type V = ReportModel;

    open spec fn view(&self) -> ReportModel {
        ReportModel {
            causes: cause_views(self.causes@),
            verdict: self.verdict@,
            stable: self.stable,
            action_plan: text::views(self.action_plan@),
        }
    }
}

/// The name of a VLAN.
pub open spec fn vlan_text(vlan_id: Option<u16>) -> Seq<char> {
    match vlan_id {
        Some(v) => "VLAN "@ + text::decimal(v as nat),
        None => "native"@,
    }
}

/// The name of a VLAN.
pub fn vlan_label(vlan_id: Option<u16>) -> (r: String)
    ensures
        r@ == vlan_text(vlan_id),
{
    match vlan_id {
        Some(v) => {
            let mut out = String::new();
            out.append("VLAN ");
            text::push_decimal(&mut out, v as u64);
            assert(out@ =~= vlan_text(vlan_id));
            out
        },
        None => "native".to_string(),
    }
}

/// How a kind of event speaks for a cause.
#[derive(Debug, Clone, Copy, PartialEq, Eq, Structural)]
pub enum Lens {
    /// Flapping roots.
    Flapping,
    /// Changes of root, as a step from one root to another.
    RootChange,
    /// Changes of root, as the arrival of another root.
    Takeover,
    /// Storms of topology changes.
    Storm,
    /// Single topology changes.
    TopologyChange,
    /// Inferior BPDUs.
    Inferior,
}

impl Lens {
    /// Does the event count here?
    pub open spec fn selects(self, event: EventModel) -> bool {
        match self {
            Lens::Flapping => event is RootFlapping,
            Lens::RootChange | Lens::Takeover => event is RootChanged,
            Lens::Storm => event is TcStorm,
            Lens::TopologyChange => event is TopologyChange,
            Lens::Inferior => event is InferiorBpdu,
        }
    }

    /// The name of the kind of event.
    pub open spec fn event_type(self) -> Seq<char> {
        match self {
            Lens::Flapping => "RootFlapping"@,
            Lens::RootChange | Lens::Takeover => "RootChanged"@,
            Lens::Storm => "TcStorm"@,
            Lens::TopologyChange => "TopologyChange"@,
            Lens::Inferior => "InferiorBpdu"@,
        }
    }

    /// What the event says, after its VLAN.
    pub open spec fn story(self, event: EventModel) -> Seq<char> {
        match event {
            EventModel::RootFlapping { change_count, window_ms, .. } => {
                text::decimal(change_count as nat) + " root changes in "@ + window_ms.ms_text()
                    + "ms"@
            },
            EventModel::RootChanged { old_root, new_root, new_root_mac, .. } => {
                if self == Lens::Takeover {
                    "new root "@ + new_root + " (mac "@ + new_root_mac + ")"@
                } else {
                    old_root + " → "@ + new_root
                }
            },
            EventModel::TcStorm { tc_count, window_ms, .. } => {
                text::decimal(tc_count as nat) + " TC flags in "@ + window_ms.ms_text() + "ms"@
            },
            EventModel::TopologyChange { tc_count, sender_mac, .. } => {
                "TC #"@ + text::decimal(tc_count as nat) + " from "@ + sender_mac
            },
            EventModel::InferiorBpdu { sender_mac, claimed_root, actual_root, .. } => {
                sender_mac + " claims root "@ + claimed_root + " (actual: "@ + actual_root
                    + ")"@
            },
            _ => Seq::empty(),
        }
    }

    /// The event as evidence.
    pub open spec fn evidence_of(self, e: TimedModel) -> EvidenceModel {
        EvidenceModel {
            ts: e.ts,
            event_type: self.event_type(),
            description: vlan_text(e.event.vlan_id()) + ": "@ + self.story(e.event),
        }
    }

    /// Does the event count here?
    pub fn picks(&self, event: &StpEvent) -> (r: bool)
        ensures
            r == self.selects(event@),
    {
        match self {
            Lens::Flapping => matches!(event, StpEvent::RootFlapping { .. }),
            Lens::RootChange | Lens::Takeover => matches!(event, StpEvent::RootChanged { .. }),
            Lens::Storm => matches!(event, StpEvent::TcStorm { .. }),
            Lens::TopologyChange => matches!(event, StpEvent::TopologyChange { .. }),
            Lens::Inferior => matches!(event, StpEvent::InferiorBpdu { .. }),
        }
    }

    /// The name of the kind of event.
    pub fn event_name(&self) -> (r: &'static str)
        ensures
            r@ == self.event_type(),
    {
        match self {
            Lens::Flapping => "RootFlapping",
            Lens::RootChange | Lens::Takeover => "RootChanged",
            Lens::Storm => "TcStorm",
            Lens::TopologyChange => "TopologyChange",
            Lens::Inferior => "InferiorBpdu",
        }
    }

    /// Appends what the event says.
    fn push_story(&self, out: &mut String, event: &StpEvent)
        ensures
            final(out)@ == old(out)@ + self.story(event@),
    {
        match event {
            StpEvent::RootFlapping { change_count, window_ms, .. } => {
                text::push_decimal(out, *change_count as u64);
                out.append(" root changes in ");
                window_ms.push_ms(out);
                out.append("ms");
            },
            StpEvent::RootChanged { old_root, new_root, new_root_mac, .. } => {
                if *self == Lens::Takeover {
                    out.append("new root ");
                    out.append(new_root.as_str());
                    out.append(" (mac ");
                    out.append(new_root_mac.as_str());
                    out.append(")");
                } else {
                    out.append(old_root.as_str());
                    out.append(" → ");
                    out.append(new_root.as_str());
                }
            },
            StpEvent::TcStorm { tc_count, window_ms, .. } => {
                text::push_decimal(out, *tc_count as u64);
                out.append(" TC flags in ");
                window_ms.push_ms(out);
                out.append("ms");
            },
            StpEvent::TopologyChange { tc_count, sender_mac, .. } => {
                out.append("TC #");
                text::push_decimal(out, *tc_count as u64);
                out.append(" from ");
                out.append(sender_mac.as_str());
            },
            StpEvent::InferiorBpdu { sender_mac, claimed_root, actual_root, .. } => {
                out.append(sender_mac.as_str());
                out.append(" claims root ");
                out.append(claimed_root.as_str());
                out.append(" (actual: ");
                out.append(actual_root.as_str());
                out.append(")");
            },
            _ => {},
        }
        assert(out@ =~= old(out)@ + self.story(event@));
    }

    /// The event as evidence.
    pub fn evidence(&self, e: &TimedEvent) -> (r: EvidenceRef)
        ensures
            r@ == self.evidence_of(e@),
    {
        let mut description = vlan_label(e.event.vlan_id());
        description.append(": ");
        self.push_story(&mut description, &e.event);
        let event_type = self.event_name().to_string();
        assert(description@ =~= self.evidence_of(e@).description);
        EvidenceRef { ts: e.ts, event_type, description }
    }
}

/// The events that count.
pub open spec fn selected(events: Seq<TimedModel>, lens: Lens) -> Seq<TimedModel> {
    events.filter(|e: TimedModel| lens.selects(e.event))
}

/// References to events, their texts as sequences of characters.
pub open spec fn ref_views(events: Seq<&TimedEvent>) -> Seq<TimedModel> {
    events.map_values(|e: &TimedEvent| e@)
}

/// Events as evidence.
pub open spec fn evidence_list(events: Seq<TimedModel>, lens: Lens) -> Seq<EvidenceModel> {
    events.map_values(|e: TimedModel| lens.evidence_of(e))
}

/// The names of the VLANs of the events, each once.
pub open spec fn vlan_list(events: Seq<TimedModel>) -> Seq<Seq<char>> {
    text::distinct(events.map_values(|e: TimedModel| vlan_text(e.event.vlan_id())))
}

/// The highest of the events' counts, or 0.
pub open spec fn highest_count(events: Seq<TimedModel>) -> nat
    decreases events.len(),
{
    if events.len() == 0 {
        0
    } else {
        let before = highest_count(events.drop_last());
        let count = events.last().event.count() as nat;
        if count > before {
            count
        } else {
            before
        }
    }
}

/// The events that count.
fn select<'a>(events: &'a [TimedEvent], lens: Lens) -> (r: Vec<&'a TimedEvent>)
    ensures
        ref_views(r@) == selected(event::timed_views(events@), lens),
{
    let ghost all = event::timed_views(events@);
    let mut r: Vec<&'a TimedEvent> = Vec::new();
    let mut i: usize = 0;
    proof {
        reveal(Seq::filter);
    }
    while i < events.len()
        invariant
            i <= events@.len(),
            all == event::timed_views(events@),
            ref_views(r@) == selected(all.take(i as int), lens),
        decreases events@.len() - i,
    {
        proof {
            reveal(Seq::filter);
            assert(all.take(i + 1).drop_last() =~= all.take(i as int));
        }
        let e = &events[i];
        if lens.picks(&e.event) {
            let ghost before = ref_views(r@);
            r.push(e);
            assert(ref_views(r@) =~= before.push(e@));
        }
        i = i + 1;
    }
    assert(all.take(i as int) =~= all);
    r
}

/// The events as evidence.
fn gather(events: &Vec<&TimedEvent>, lens: Lens) -> (r: Vec<EvidenceRef>)
    ensures
        evidence_views(r@) == evidence_list(ref_views(events@), lens),
{
    let ghost all = ref_views(events@);
    let mut r: Vec<EvidenceRef> = Vec::new();
    let mut i: usize = 0;
    while i < events.len()
        invariant
            i <= events@.len(),
            all == ref_views(events@),
            evidence_views(r@) == evidence_list(all, lens).take(i as int),
        decreases events@.len() - i,
    {
        let ghost before = evidence_views(r@);
        let e = lens.evidence(events[i]);
        r.push(e);
        i = i + 1;
        assert(evidence_views(r@) =~= before.push(e@));
        assert(evidence_list(all, lens).take(i as int) =~= before.push(e@));
    }
    assert(evidence_list(all, lens).take(i as int) =~= evidence_list(all, lens));
    r
}

/// The names of the VLANs of the events, each once.
fn vlans(events: &Vec<&TimedEvent>) -> (r: Vec<String>)
    ensures
        text::views(r@) == vlan_list(ref_views(events@)),
{
    let ghost all = ref_views(events@).map_values(
        |e: TimedModel| vlan_text(e.event.vlan_id()),
    );
    let mut r: Vec<String> = Vec::new();
    let mut i: usize = 0;
    assert(text::views(r@) =~= text::distinct(all.take(0)));
    while i < events.len()
        invariant
            i <= events@.len(),
            all == ref_views(events@).map_values(|e: TimedModel| vlan_text(e.event.vlan_id())),
            text::views(r@) == text::distinct(all.take(i as int)),
        decreases events@.len() - i,
    {
        let ghost before = text::views(r@);
        assert(all.take(i + 1).drop_last() =~= all.take(i as int));
        let v = vlan_label(events[i].event.vlan_id());
        assert(v@ == all[i as int]);
        if !text::holds(&r, &v) {
            r.push(v);
            assert(text::views(r@) =~= before.push(v@));
        }
        i = i + 1;
    }
    assert(all.take(i as int) =~= all);
    r
}

/// The highest of the events' counts.
fn peak(events: &Vec<&TimedEvent>) -> (r: usize)
    ensures
        r == highest_count(ref_views(events@)),
{
    let ghost all = ref_views(events@);
    let mut r: usize = 0;
    let mut i: usize = 0;
    while i < events.len()
        invariant
            i <= events@.len(),
            all == ref_views(events@),
            r == highest_count(all.take(i as int)),
        decreases events@.len() - i,
    {
        assert(all.take(i + 1).drop_last() =~= all.take(i as int));
        let count = events[i].event.count();
        if count > r {
            r = count;
        }
        i = i + 1;
    }
    assert(all.take(i as int) =~= all);
    r
}

/// What a flapping root does to a network.
pub const FLAPPING_IMPACT: &'static str = "MAC tables flushed repeatedly. Broadcast storms possible. Network convergence delayed. All traffic on affected VLANs disrupted.";

/// What helps against a flapping root.
pub const FLAPPING_REMEDY: &'static str = "Set explicit root bridge: `spanning-tree vlan <id> root primary` on intended root. Enable Root Guard on access ports: `spanning-tree guard root`. Check for rogue switches.";

/// What a storm does to a network.
pub const STORM_IMPACT: &'static str = "Excessive TC flags cause all bridges to flush MAC tables on every TC. Results in temporary unicast flooding across entire VLAN, bandwidth saturation, CPU spikes on switches.";

/// What helps against a storm.
pub const STORM_REMEDY: &'static str = "Enable BPDU Guard on access ports: `spanning-tree bpduguard enable`. Enable PortFast on end-device ports: `spanning-tree portfast`. Check for flapping ports or loops.";

/// What a rogue root does to a network.
pub const ROGUE_IMPACT: &'static str = "Traffic paths changed unexpectedly. New root may be a misconfigured access switch or unauthorized device, causing suboptimal or broken routing.";

/// What helps against a rogue root.
pub const ROGUE_REMEDY: &'static str = "Enable Root Guard on uplink ports: `spanning-tree guard root`. Verify intended root has lowest Bridge ID. Check for unauthorized switches. Set `spanning-tree vlan <id> priority 4096` on intended root.";

/// What a loop does to a network.
pub const LOOP_IMPACT: &'static str = "Inferior BPDUs combined with TC storm indicate a possible loop condition. Bridges receiving BPDUs with stale root information may indicate a segment is not receiving BPDUs properly.";

/// What helps against a loop.
pub const LOOP_REMEDY: &'static str = "Check for unidirectional links (SFP issues). Enable UDLD: `udld enable`. Check BPDU filtering is not blocking legitimate BPDUs. Verify physical topology matches logical.";

/// Why a loop is suspected.
pub const LOOP_REASON: &'static str = "Inferior BPDUs co-occurring with TC storm — correlation suggests loop, but physical verification needed.";

/// What a mere change of root does to a network. No report says so, as each change
/// of root has another cause.
pub const CHANGE_IMPACT: &'static str = "Traffic paths changed. May indicate planned maintenance, or misconfigured bridge priority.";

/// What helps against a mere change of root. No report says so either.
pub const CHANGE_REMEDY: &'static str = "Verify intended root bridge has correct priority. Check for recent topology changes. If unplanned, investigate which bridge became root and why.";

/// How many topology changes are shown beside a storm.
pub const STORM_CONTEXT: usize = 5;

/// The first `n` of a list, or all of it.
pub open spec fn at_most<A>(s: Seq<A>, n: nat) -> Seq<A> {
    if s.len() <= n {
        s
    } else {
        s.take(n as int)
    }
}

/// A flapping root, where one was reported.
pub open spec fn root_flapping(events: Seq<TimedModel>) -> Option<CauseModel> {
    let flaps = selected(events, Lens::Flapping);
    if flaps.len() == 0 {
        None
    } else {
        let first = flaps.first().ts;
        let last = flaps.last().ts;
        let changes = text::decimal(highest_count(flaps));
        Some(
            CauseModel {
                kind: RootCauseKind::RootFlapping,
                severity: RootCauseSeverity::Critical,
                headline: "Root bridge flapping — "@ + changes + " changes detected"@,
                impact: FLAPPING_IMPACT@,
                remediation: FLAPPING_REMEDY@,
                evidence: evidence_list(flaps, Lens::Flapping) + evidence_list(
                    selected(events, Lens::RootChange),
                    Lens::RootChange,
                ),
                secondary_effects: seq![
                    "Repeated MAC table flushes → temporary flooding"@,
                    "STP re-convergence on every change (30s classic STP, 1-2s RSTP)"@,
                    "Possible broadcast storm during convergence"@,
                ],
                affected_vlans: vlan_list(flaps),
                first_seen: first,
                last_seen: last,
                confidence: 95,
                confidence_reason: changes
                    + " root changes observed directly in capture window."@,
                causal_chain: seq![
                    ChainModel {
                        ts: Moment { ts: first, after_ms: 0 },
                        event_type: "RootChanged"@,
                        description:
                            "Root bridge changes rapidly — new bridge announces lower Bridge ID"@,
                        role: ChainRole::Cause,
                    },
                    ChainModel {
                        ts: Moment { ts: first, after_ms: 500 },
                        event_type: "TopologyChange"@,
                        description:
                            "Each root change triggers TC flood — all bridges flush MAC tables"@,
                        role: ChainRole::Effect,
                    },
                    ChainModel {
                        ts: Moment { ts: last, after_ms: 0 },
                        event_type: "RootFlapping"@,
                        description:
                            "Instability continues — network convergence never completes"@,
                        role: ChainRole::Effect,
                    },
                ],
            },
        )
    }
}

/// A storm of topology changes, where one was reported.
pub open spec fn tc_storm(events: Seq<TimedModel>) -> Option<CauseModel> {
    let storms = selected(events, Lens::Storm);
    if storms.len() == 0 {
        None
    } else {
        let changes = text::decimal(highest_count(storms));
        Some(
            CauseModel {
                kind: RootCauseKind::TcStorm,
                severity: RootCauseSeverity::Critical,
                headline: "TC storm — "@ + changes + " topology changes detected"@,
                impact: STORM_IMPACT@,
                remediation: STORM_REMEDY@,
                evidence: evidence_list(storms, Lens::Storm) + at_most(
                    evidence_list(selected(events, Lens::TopologyChange), Lens::TopologyChange),
                    STORM_CONTEXT as nat,
                ),
                secondary_effects: seq![
                    "MAC table flush on every TC → unicast flooding"@,
                    "CPU load spike on all bridges"@,
                    "Bandwidth saturation from flooding"@,
                ],
                affected_vlans: vlan_list(storms),
                first_seen: storms.first().ts,
                last_seen: storms.last().ts,
                confidence: 90,
                confidence_reason: changes + " TC events observed in capture window."@,
                causal_chain: Seq::empty(),
            },
        )
    }
}

/// The root after the last of the changes.
pub open spec fn last_root(changes: Seq<TimedModel>) -> Seq<char> {
    if changes.len() > 0 && changes.last().event is RootChanged {
        changes.last().event->RootChanged_new_root
    } else {
        Seq::empty()
    }
}

/// A rogue root, where the root changed and did not flap.
pub open spec fn rogue_bridge(events: Seq<TimedModel>) -> Option<CauseModel> {
    let changes = selected(events, Lens::Takeover);
    if changes.len() == 0 || selected(events, Lens::Flapping).len() > 0 {
        None
    } else {
        let first = changes.first().ts;
        let vlans = vlan_list(changes);
        Some(
            CauseModel {
                kind: RootCauseKind::RogueBridge,
                severity: RootCauseSeverity::Critical,
                headline: "Rogue root bridge — unexpected root takeover on "@ + text::decimal(
                    vlans.len(),
                ) + " VLAN(s)"@,
                impact: ROGUE_IMPACT@,
                remediation: ROGUE_REMEDY@,
                evidence: evidence_list(changes, Lens::Takeover),
                secondary_effects: seq![
                    "Traffic paths changed to suboptimal routes"@,
                    "Potential traffic blackhole during convergence"@,
                ],
                affected_vlans: vlans,
                first_seen: first,
                last_seen: changes.last().ts,
                confidence: 80,
                confidence_reason:
                    "Root changed to previously unknown bridge without prior instability."@,
                causal_chain: seq![
                    ChainModel {
                        ts: Moment { ts: first, after_ms: 0 },
                        event_type: "BridgeDiscovered"@,
                        description: "New bridge connected to network with low Bridge ID"@,
                        role: ChainRole::Cause,
                    },
                    ChainModel {
                        ts: Moment { ts: first, after_ms: 100 },
                        event_type: "RootChanged"@,
                        description: "New bridge "@ + last_root(changes)
                            + " elected as Root — all traffic path changes"@,
                        role: ChainRole::Effect,
                    },
                    ChainModel {
                        ts: Moment { ts: first, after_ms: 1000 },
                        event_type: "TopologyChange"@,
                        description:
                            "TC flood triggered — MAC tables flushed across all bridges"@,
                        role: ChainRole::Effect,
                    },
                ],
            },
        )
    }
}

/// A loop, where inferior BPDUs come with a storm.
pub open spec fn suspected_loop(events: Seq<TimedModel>) -> Option<CauseModel> {
    let inferior = selected(events, Lens::Inferior);
    if inferior.len() == 0 || selected(events, Lens::Storm).len() == 0 {
        None
    } else {
        Some(
            CauseModel {
                kind: RootCauseKind::LoopDetected,
                severity: RootCauseSeverity::Critical,
                headline: "Possible loop — inferior BPDUs with TC storm"@,
                impact: LOOP_IMPACT@,
                remediation: LOOP_REMEDY@,
                evidence: evidence_list(inferior, Lens::Inferior),
                secondary_effects: seq![
                    "Broadcast storm if loop not blocked by STP"@,
                    "MAC table instability"@,
                ],
                affected_vlans: Seq::empty(),
                first_seen: inferior.first().ts,
                last_seen: inferior.last().ts,
                confidence: 70,
                confidence_reason: LOOP_REASON@,
                causal_chain: Seq::empty(),
            },
        )
    }
}

/// A list of the cause, where there is one.
pub open spec fn found(cause: Option<CauseModel>) -> Seq<CauseModel> {
    match cause {
        Some(c) => seq![c],
        None => Seq::empty(),
    }
}

/// All that went wrong but for a mere change of root.
pub open spec fn grave(events: Seq<TimedModel>) -> Seq<CauseModel> {
    found(root_flapping(events)) + found(tc_storm(events)) + found(rogue_bridge(events)) + found(
        suspected_loop(events),
    )
}

/// A change of root that no other cause accounts for, so that nothing is reported
/// twice. Flapping or a rogue root accounts for every change of root, so that there
/// is none in any time line.
pub open spec fn config_mismatch(events: Seq<TimedModel>) -> Option<CauseModel> {
    let changes = selected(events, Lens::RootChange);
    if changes.len() == 0 || grave(events).len() > 0 {
        None
    } else {
        let vlans = vlan_list(changes);
        Some(
            CauseModel {
                kind: RootCauseKind::ConfigMismatch,
                severity: RootCauseSeverity::Warning,
                headline: "Root bridge changed — "@ + text::decimal(vlans.len())
                    + " VLAN(s) affected"@,
                impact: CHANGE_IMPACT@,
                remediation: CHANGE_REMEDY@,
                evidence: evidence_list(changes, Lens::RootChange),
                secondary_effects: seq!["Traffic path changes during convergence"@],
                affected_vlans: vlans,
                first_seen: changes.first().ts,
                last_seen: changes.last().ts,
                confidence: 75,
                confidence_reason:
                    "Single root change detected without associated instability patterns."@,
                causal_chain: Seq::empty(),
            },
        )
    }
}

/// A step in a chain.
fn chain_step(
    ts: Timestamp,
    after_ms: u32,
    event_type: &str,
    description: &str,
    role: ChainRole,
) -> (r: ChainStep)
    ensures
        r@ == (ChainModel {
            ts: Moment { ts, after_ms },
            event_type: event_type@,
            description: description@,
            role,
        }),
{
    ChainStep {
        ts: Moment { ts, after_ms },
        event_type: event_type.to_string(),
        description: description.to_string(),
        role,
    }
}

/// A text with a number in it.
fn with_number(before: &str, n: usize, after: &str) -> (r: String)
    ensures
        r@ == before@ + text::decimal(n as nat) + after@,
{
    let mut r = before.to_string();
    text::push_decimal(&mut r, n as u64);
    r.append(after);
    r
}

/// A list of texts.
fn list1(a: &str) -> (r: Vec<String>)
    ensures
        text::views(r@) == seq![a@],
{
    let mut r: Vec<String> = Vec::new();
    r.push(a.to_string());
    assert(text::views(r@) =~= seq![a@]);
    r
}

/// A list of texts.
fn list2(a: &str, b: &str) -> (r: Vec<String>)
    ensures
        text::views(r@) == seq![a@, b@],
{
    let mut r = list1(a);
    let ghost before = text::views(r@);
    r.push(b.to_string());
    assert(text::views(r@) =~= before.push(b@));
    assert(before.push(b@) =~= seq![a@, b@]);
    r
}

/// A list of texts.
fn list3(a: &str, b: &str, c: &str) -> (r: Vec<String>)
    ensures
        text::views(r@) == seq![a@, b@, c@],
{
    let mut r = list2(a, b);
    let ghost before = text::views(r@);
    r.push(c.to_string());
    assert(text::views(r@) =~= before.push(c@));
    assert(before.push(c@) =~= seq![a@, b@, c@]);
    r
}

/// A chain of three steps.
fn chain3(a: ChainStep, b: ChainStep, c: ChainStep) -> (r: Vec<ChainStep>)
    ensures
        chain_views(r@) == seq![a@, b@, c@],
{
    let mut r: Vec<ChainStep> = Vec::new();
    r.push(a);
    r.push(b);
    r.push(c);
    assert(chain_views(r@) =~= seq![a@, b@, c@]);
    r
}

/// Appends evidence.
fn extend(list: &mut Vec<EvidenceRef>, more: Vec<EvidenceRef>)
    ensures
        evidence_views(final(list)@) == evidence_views(old(list)@) + evidence_views(more@),
{
    let mut rest = more;
    list.append(&mut rest);
    assert(evidence_views(list@) =~= evidence_views(old(list)@) + evidence_views(more@));
}

/// Finds a flapping root.
fn detect_root_flapping(events: &[TimedEvent]) -> (r: Option<RootCause>)
    ensures
        match r {
            Some(c) => root_flapping(event::timed_views(events@)) == Some(c@),
            None => root_flapping(event::timed_views(events@)) is None,
        },
{
    let flaps = select(events, Lens::Flapping);
    if flaps.len() == 0 {
        return None;
    }
    let first_seen = flaps[0].ts;
    let last_seen = flaps[flaps.len() - 1].ts;
    let max_changes = peak(&flaps);
    let mut evidence = gather(&flaps, Lens::Flapping);
    // The changes of root that the flapping is made of.
    extend(&mut evidence, gather(&select(events, Lens::RootChange), Lens::RootChange));
    let causal_chain = chain3(
        chain_step(
            first_seen,
            0,
            "RootChanged",
            "Root bridge changes rapidly — new bridge announces lower Bridge ID",
            ChainRole::Cause,
        ),
        chain_step(
            first_seen,
            500,
            "TopologyChange",
            "Each root change triggers TC flood — all bridges flush MAC tables",
            ChainRole::Effect,
        ),
        chain_step(
            last_seen,
            0,
            "RootFlapping",
            "Instability continues — network convergence never completes",
            ChainRole::Effect,
        ),
    );
    let mut confidence_reason = String::new();
    text::push_decimal(&mut confidence_reason, max_changes as u64);
    confidence_reason.append(" root changes observed directly in capture window.");
    let cause = RootCause {
        kind: RootCauseKind::RootFlapping,
        severity: RootCauseSeverity::Critical,
        headline: with_number("Root bridge flapping — ", max_changes, " changes detected"),
        impact: FLAPPING_IMPACT.to_string(),
        remediation: FLAPPING_REMEDY.to_string(),
        evidence,
        secondary_effects: list3(
            "Repeated MAC table flushes → temporary flooding",
            "STP re-convergence on every change (30s classic STP, 1-2s RSTP)",
            "Possible broadcast storm during convergence",
        ),
        affected_vlans: vlans(&flaps),
        first_seen,
        last_seen,
        confidence: 95,
        confidence_reason,
        causal_chain,
    };
    assert(cause@ =~= root_flapping(event::timed_views(events@))->0);
    Some(cause)
}

/// Finds a storm of topology changes.
fn detect_tc_storm(events: &[TimedEvent]) -> (r: Option<RootCause>)
    ensures
        match r {
            Some(c) => tc_storm(event::timed_views(events@)) == Some(c@),
            None => tc_storm(event::timed_views(events@)) is None,
        },
{
    let storms = select(events, Lens::Storm);
    if storms.len() == 0 {
        return None;
    }
    let max_tc = peak(&storms);
    let mut evidence = gather(&storms, Lens::Storm);
    // The first of the topology changes that the storm is made of.
    let mut context = gather(&select(events, Lens::TopologyChange), Lens::TopologyChange);
    let ghost all = evidence_views(context@);
    context.truncate(STORM_CONTEXT);
    assert(evidence_views(context@) =~= at_most(all, STORM_CONTEXT as nat));
    extend(&mut evidence, context);
    let mut confidence_reason = String::new();
    text::push_decimal(&mut confidence_reason, max_tc as u64);
    confidence_reason.append(" TC events observed in capture window.");
    let cause = RootCause {
        kind: RootCauseKind::TcStorm,
        severity: RootCauseSeverity::Critical,
        headline: with_number("TC storm — ", max_tc, " topology changes detected"),
        impact: STORM_IMPACT.to_string(),
        remediation: STORM_REMEDY.to_string(),
        evidence,
        secondary_effects: list3(
            "MAC table flush on every TC → unicast flooding",
            "CPU load spike on all bridges",
            "Bandwidth saturation from flooding",
        ),
        affected_vlans: vlans(&storms),
        first_seen: storms[0].ts,
        last_seen: storms[storms.len() - 1].ts,
        confidence: 90,
        confidence_reason,
        causal_chain: Vec::new(),
    };
    assert(cause@ =~= tc_storm(event::timed_views(events@))->0);
    Some(cause)
}

/// Finds a rogue root.
fn detect_rogue_bridge(events: &[TimedEvent]) -> (r: Option<RootCause>)
    ensures
        match r {
            Some(c) => rogue_bridge(event::timed_views(events@)) == Some(c@),
            None => rogue_bridge(event::timed_views(events@)) is None,
        },
{
    let changes = select(events, Lens::Takeover);
    if changes.len() == 0 || select(events, Lens::Flapping).len() > 0 {
        return None;
    }
    let first_seen = changes[0].ts;
    let last = changes[changes.len() - 1];
    let mut takeover = "New bridge ".to_string();
    if let StpEvent::RootChanged { new_root, .. } = &last.event {
        takeover.append(new_root.as_str());
    }
    takeover.append(" elected as Root — all traffic path changes");
    assert(takeover@ =~= "New bridge "@ + last_root(ref_views(changes@))
        + " elected as Root — all traffic path changes"@);
    let causal_chain = chain3(
        chain_step(
            first_seen,
            0,
            "BridgeDiscovered",
            "New bridge connected to network with low Bridge ID",
            ChainRole::Cause,
        ),
        chain_step(first_seen, 100, "RootChanged", takeover.as_str(), ChainRole::Effect),
        chain_step(
            first_seen,
            1000,
            "TopologyChange",
            "TC flood triggered — MAC tables flushed across all bridges",
            ChainRole::Effect,
        ),
    );
    let affected_vlans = vlans(&changes);
    let cause = RootCause {
        kind: RootCauseKind::RogueBridge,
        severity: RootCauseSeverity::Critical,
        headline: with_number(
            "Rogue root bridge — unexpected root takeover on ",
            affected_vlans.len(),
            " VLAN(s)",
        ),
        impact: ROGUE_IMPACT.to_string(),
        remediation: ROGUE_REMEDY.to_string(),
        evidence: gather(&changes, Lens::Takeover),
        secondary_effects: list2(
            "Traffic paths changed to suboptimal routes",
            "Potential traffic blackhole during convergence",
        ),
        affected_vlans,
        first_seen,
        last_seen: last.ts,
        confidence: 80,
        confidence_reason:
            "Root changed to previously unknown bridge without prior instability.".to_string(),
        causal_chain,
    };
    assert(cause@ =~= rogue_bridge(event::timed_views(events@))->0);
    Some(cause)
}

/// Finds a loop.
fn detect_loop(events: &[TimedEvent]) -> (r: Option<RootCause>)
    ensures
        match r {
            Some(c) => suspected_loop(event::timed_views(events@)) == Some(c@),
            None => suspected_loop(event::timed_views(events@)) is None,
        },
{
    let inferior = select(events, Lens::Inferior);
    if inferior.len() == 0 || select(events, Lens::Storm).len() == 0 {
        return None;
    }
    let cause = RootCause {
        kind: RootCauseKind::LoopDetected,
        severity: RootCauseSeverity::Critical,
        headline: "Possible loop — inferior BPDUs with TC storm".to_string(),
        impact: LOOP_IMPACT.to_string(),
        remediation: LOOP_REMEDY.to_string(),
        evidence: gather(&inferior, Lens::Inferior),
        secondary_effects: list2(
            "Broadcast storm if loop not blocked by STP",
            "MAC table instability",
        ),
        affected_vlans: Vec::new(),
        first_seen: inferior[0].ts,
        last_seen: inferior[inferior.len() - 1].ts,
        confidence: 70,
        confidence_reason: LOOP_REASON.to_string(),
        causal_chain: Vec::new(),
    };
    assert(cause@ =~= suspected_loop(event::timed_views(events@))->0);
    Some(cause)
}

/// Looks for a change of root that none of the `others` accounts for. Where they are
/// all the other causes of the time line, there is none.
fn detect_config_mismatch(events: &[TimedEvent], others: &Vec<RootCause>) -> (r: Option<RootCause>)
    requires
        cause_views(others@) == grave(event::timed_views(events@)),
    ensures
        match r {
            Some(c) => config_mismatch(event::timed_views(events@)) == Some(c@),
            None => config_mismatch(event::timed_views(events@)) is None,
        },
{
    let changes = select(events, Lens::RootChange);
    if changes.len() == 0 || others.len() > 0 {
        return None;
    }
    let affected_vlans = vlans(&changes);
    let cause = RootCause {
        kind: RootCauseKind::ConfigMismatch,
        severity: RootCauseSeverity::Warning,
        headline: with_number(
            "Root bridge changed — ",
            affected_vlans.len(),
            " VLAN(s) affected",
        ),
        impact: CHANGE_IMPACT.to_string(),
        remediation: CHANGE_REMEDY.to_string(),
        evidence: gather(&changes, Lens::RootChange),
        secondary_effects: list1("Traffic path changes during convergence"),
        affected_vlans,
        first_seen: changes[0].ts,
        last_seen: changes[changes.len() - 1].ts,
        confidence: 75,
        confidence_reason:
            "Single root change detected without associated instability patterns.".to_string(),
        causal_chain: Vec::new(),
    };
    assert(cause@ =~= config_mismatch(event::timed_views(events@))->0);
    Some(cause)
}

/// Where the last fifth of the time line begins, in units: four fifths of the way
/// from the first event to the last, each step rounded.
pub open spec fn last_fifth(events: Seq<TimedModel>) -> int {
    let first = events.first().ts.seconds();
    let last = events.last().ts.seconds();
    let length = binary64::nearest(last - first, 1);
    let fraction = binary64::nearest(4 * time::one() as int, 5);
    binary64::nearest(first + binary64::nearest(length * fraction, time::one()), 1)
}

/// Is there no warning and nothing critical in the last fifth of the time line?
pub open spec fn settled(events: Seq<TimedModel>) -> bool {
    forall|i: int|
        0 <= i < events.len() && #[trigger] events[i].ts.seconds() >= last_fifth(events)
            ==> events[i].severity == Severity::Info
}

/// Did the network settle before the end of the capture?
pub fn assess_stability(events: &[TimedEvent]) -> (r: bool)
    ensures
        r == settled(event::timed_views(events@)),
{
    let ghost all = event::timed_views(events@);
    if events.len() == 0 {
        return true;
    }
    let first = events[0].ts.to_f64();
    let last = events[events.len() - 1].ts.to_f64();
    assert(first.without_places_below(950) && last.without_places_below(950));
    let length = last.minus(first);
    let start = first.plus(length.times(Binary64::from_ratio(4, 5)));
    let mut i: usize = 0;
    while i < events.len()
        invariant
            i <= events@.len(),
            all == event::timed_views(events@),
            start.wf(),
            start.units() == last_fifth(all),
            forall|j: int|
                0 <= j < i && #[trigger] all[j].ts.seconds() >= last_fifth(all)
                    ==> all[j].severity == Severity::Info,
        decreases events@.len() - i,
    {
        let e = &events[i];
        assert(all[i as int] == e@);
        let late = !e.ts.to_f64().less_than(start);
        if late && e.severity != Severity::Info {
            assert(all[i as int].ts.seconds() >= last_fifth(all));
            return false;
        }
        i = i + 1;
    }
    true
}

/// The titles of the causes of a severity.
pub open spec fn titles_of(causes: Seq<CauseModel>, severity: RootCauseSeverity) -> Seq<
    Seq<char>,
> {
    causes.filter(|c: CauseModel| c.severity == severity).map_values(
        |c: CauseModel| c.kind.name(),
    )
}

/// The verdict in one sentence or two.
pub open spec fn verdict_of(causes: Seq<CauseModel>, stable: bool) -> Seq<char> {
    let critical = titles_of(causes, RootCauseSeverity::Critical);
    let warnings = titles_of(causes, RootCauseSeverity::Warning);
    if causes.len() == 0 {
        "STP topology stable. No anomalies detected."@
    } else if critical.len() > 0 {
        text::decimal(critical.len()) + " critical issue(s): "@ + text::joined(critical, ", "@)
            + ". "@ + if stable {
            "Topology may have stabilized by end of capture."@
        } else {
            "Topology had NOT stabilized by end of capture."@
        }
    } else {
        text::decimal(warnings.len()) + " warning(s): "@ + text::joined(warnings, ", "@) + ". "@
            + if stable {
            "Topology stable."@
        } else {
            "Instability persisted."@
        }
    }
}

/// The titles of the causes of a severity.
fn titles(causes: &Vec<RootCause>, severity: RootCauseSeverity) -> (r: Vec<&'static str>)
    ensures
        text::str_views(r@) == titles_of(cause_views(causes@), severity),
{
    let ghost all = cause_views(causes@);
    let mut r: Vec<&'static str> = Vec::new();
    let mut i: usize = 0;
    proof {
        reveal(Seq::filter);
        assert(text::str_views(r@) =~= titles_of(all.take(0), severity));
    }
    while i < causes.len()
        invariant
            i <= causes@.len(),
            all == cause_views(causes@),
            text::str_views(r@) == titles_of(all.take(i as int), severity),
        decreases causes@.len() - i,
    {
        proof {
            reveal(Seq::filter);
            assert(all.take(i + 1).drop_last() =~= all.take(i as int));
        }
        let ghost before = text::str_views(r@);
        if causes[i].severity == severity {
            let title = causes[i].kind.title();
            r.push(title);
            assert(text::str_views(r@) =~= before.push(title@));
            assert(titles_of(all.take(i + 1), severity) =~= before.push(title@));
        }
        i = i + 1;
    }
    assert(all.take(i as int) =~= all);
    r
}

/// The verdict in one sentence or two.
pub fn build_verdict(causes: &Vec<RootCause>, stable: bool) -> (r: String)
    ensures
        r@ == verdict_of(cause_views(causes@), stable),
{
    if causes.len() == 0 {
        return "STP topology stable. No anomalies detected.".to_string();
    }
    let critical = titles(causes, RootCauseSeverity::Critical);
    let warnings = titles(causes, RootCauseSeverity::Warning);
    let mut r = String::new();
    if critical.len() > 0 {
        text::push_decimal(&mut r, critical.len() as u64);
        r.append(" critical issue(s): ");
        text::push_joined(&mut r, &critical, ", ");
        r.append(". ");
        if stable {
            r.append("Topology may have stabilized by end of capture.");
        } else {
            r.append("Topology had NOT stabilized by end of capture.");
        }
    } else {
        text::push_decimal(&mut r, warnings.len() as u64);
        r.append(" warning(s): ");
        text::push_joined(&mut r, &warnings, ", ");
        r.append(". ");
        if stable {
            r.append("Topology stable.");
        } else {
            r.append("Instability persisted.");
        }
    }
    assert(r@ =~= verdict_of(cause_views(causes@), stable));
    r
}

/// What to do about a flapping root.
pub const FLAPPING_ACTION: &'static str = "1. URGENT: Stabilize root bridge — `spanning-tree vlan <id> root primary` on intended root. Enable Root Guard on all edge ports.";

/// What to do about a storm.
pub const STORM_ACTION: &'static str = "2. URGENT: Enable PortFast + BPDU Guard on all access ports. Check for flapping links. Investigate TC source bridge.";

/// What to do about a rogue root.
pub const ROGUE_ACTION: &'static str = "3. URGENT: Enable Root Guard on uplink ports. Identify and isolate unauthorized bridge. Set correct STP priority on intended root.";

/// What to do about a loop.
pub const LOOP_ACTION: &'static str = "4. Check for unidirectional links. Enable UDLD. Verify BPDU propagation on all segments.";

/// What to do about a mere change of root.
pub const CHANGE_ACTION: &'static str = "5. Review root bridge priority configuration. Verify intended root has lowest Bridge ID for all VLANs.";

impl RootCauseKind {
    /// What to do about the cause.
    pub open spec fn action(self) -> Option<Seq<char>> {
        match self {
            RootCauseKind::RootFlapping => Some(FLAPPING_ACTION@),
            RootCauseKind::TcStorm => Some(STORM_ACTION@),
            RootCauseKind::RogueBridge => Some(ROGUE_ACTION@),
            RootCauseKind::LoopDetected => Some(LOOP_ACTION@),
            RootCauseKind::ConfigMismatch => Some(CHANGE_ACTION@),
            RootCauseKind::Clean => None,
        }
    }
}

/// What to do about the causes.
pub open spec fn actions(causes: Seq<CauseModel>) -> Seq<Seq<char>>
    decreases causes.len(),
{
    if causes.len() == 0 {
        Seq::empty()
    } else {
        let before = actions(causes.drop_last());
        match causes.last().kind.action() {
            Some(action) => before.push(action),
            None => before,
        }
    }
}

/// What to do about the causes, or that there is nothing to do.
pub open spec fn plan_of(causes: Seq<CauseModel>) -> Seq<Seq<char>> {
    if actions(causes).len() == 0 {
        seq!["No action required."@]
    } else {
        actions(causes)
    }
}

/// What to do about the causes.
pub fn build_action_plan(causes: &Vec<RootCause>) -> (r: Vec<String>)
    ensures
        text::views(r@) == plan_of(cause_views(causes@)),
{
    let ghost all = cause_views(causes@);
    let mut plan: Vec<String> = Vec::new();
    let mut i: usize = 0;
    assert(text::views(plan@) =~= actions(all.take(0)));
    while i < causes.len()
        invariant
            i <= causes@.len(),
            all == cause_views(causes@),
            text::views(plan@) == actions(all.take(i as int)),
        decreases causes@.len() - i,
    {
        let ghost before = text::views(plan@);
        assert(all.take(i + 1).drop_last() =~= all.take(i as int));
        let action = match causes[i].kind {
            RootCauseKind::RootFlapping => Some(FLAPPING_ACTION),
            RootCauseKind::TcStorm => Some(STORM_ACTION),
            RootCauseKind::RogueBridge => Some(ROGUE_ACTION),
            RootCauseKind::LoopDetected => Some(LOOP_ACTION),
            RootCauseKind::ConfigMismatch => Some(CHANGE_ACTION),
            RootCauseKind::Clean => None,
        };
        if let Some(action) = action {
            plan.push(action.to_string());
            assert(text::views(plan@) =~= before.push(action@));
        }
        i = i + 1;
    }
    assert(all.take(i as int) =~= all);
    if plan.len() == 0 {
        return list1("No action required.");
    }
    plan
}

/// All that went wrong, the worst first.
pub open spec fn problems(events: Seq<TimedModel>) -> Seq<CauseModel> {
    grave(events) + found(config_mismatch(events))
}

/// The entry of a report on a network without problems.
pub open spec fn all_clear() -> CauseModel {
    CauseModel {
        kind: RootCauseKind::Clean,
        severity: RootCauseSeverity::Info,
        headline: "STP topology stable"@,
        impact: "No anomalies detected. Root bridge consistent throughout capture."@,
        remediation: "No action required."@,
        evidence: Seq::empty(),
        secondary_effects: Seq::empty(),
        affected_vlans: Seq::empty(),
        first_seen: Timestamp { sec: 0, usec: 0 },
        last_seen: Timestamp { sec: 0, usec: 0 },
        confidence: 90,
        confidence_reason: "Root bridge stable, no TC storms or flapping detected."@,
        causal_chain: Seq::empty(),
    }
}

/// The report on a time line.
pub open spec fn report_of(events: Seq<TimedModel>) -> ReportModel {
    let causes = problems(events);
    let stable = settled(events);
    ReportModel {
        causes: if causes.len() == 0 {
            seq![all_clear()]
        } else {
            causes
        },
        verdict: verdict_of(causes, stable),
        stable,
        action_plan: plan_of(causes),
    }
}

/// Appends the cause, where there is one.
fn note(causes: &mut Vec<RootCause>, cause: Option<RootCause>)
    ensures
        cause_views(final(causes)@) == cause_views(old(causes)@) + match cause {
            Some(c) => seq![c@],
            None => Seq::empty(),
        },
{
    let ghost before = cause_views(causes@);
    if let Some(c) = cause {
        causes.push(c);
        assert(cause_views(causes@) =~= before + seq![c@]);
    }
    assert(cause_views(causes@) =~= before + match cause {
        Some(c) => seq![c@],
        None => Seq::empty(),
    });
}

/// Explains a time line.
pub fn correlate(events: &[TimedEvent]) -> (r: RootCauseReport)
    ensures
        r@ == report_of(event::timed_views(events@)),
{
    let ghost all = event::timed_views(events@);
    let mut causes: Vec<RootCause> = Vec::new();
    // The worst comes first.
    note(&mut causes, detect_root_flapping(events));
    note(&mut causes, detect_tc_storm(events));
    note(&mut causes, detect_rogue_bridge(events));
    note(&mut causes, detect_loop(events));
    assert(cause_views(causes@) =~= grave(all));
    let mismatch = detect_config_mismatch(events, &causes);
    note(&mut causes, mismatch);
    assert(cause_views(causes@) =~= problems(all));
    let stable = assess_stability(events);
    let verdict = build_verdict(&causes, stable);
    let action_plan = build_action_plan(&causes);
    if causes.len() == 0 {
        let clean = RootCause {
            kind: RootCauseKind::Clean,
            severity: RootCauseSeverity::Info,
            headline: "STP topology stable".to_string(),
            impact:
                "No anomalies detected. Root bridge consistent throughout capture.".to_string(),
            remediation: "No action required.".to_string(),
            evidence: Vec::new(),
            secondary_effects: Vec::new(),
            affected_vlans: Vec::new(),
            first_seen: Timestamp { sec: 0, usec: 0 },
            last_seen: Timestamp { sec: 0, usec: 0 },
            confidence: 90,
            confidence_reason: "Root bridge stable, no TC storms or flapping detected."
                .to_string(),
            causal_chain: Vec::new(),
        };
        assert(clean@ =~= all_clear());
        causes.push(clean);
        assert(cause_views(causes@) =~= seq![all_clear()]);
    }
    RootCauseReport { causes, verdict, stable, action_plan }
}

} // verus!
