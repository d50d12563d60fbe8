//! From the bytes of a capture to the report.

use vstd::prelude::*;
use vstd::slice::*;

use crate::analyzer::{Analyzer, AnalyzerModel, TopologySnapshot};
use crate::binary64;
use crate::binary64::Binary64;
use crate::event;
use crate::event::{classify_event, EventModel, StpEvent, TimedEvent, TimedModel};
use crate::net;
use crate::pcap;
use crate::pcapng;
use crate::root_cause;
use crate::root_cause::RootCauseReport;
use crate::steps;
use crate::stp;
use crate::stp::Bpdu;
use crate::summary;
use crate::summary::ReportSummary;
use crate::time::Timestamp;

verus! {

/// What there is to say of a capture.
#[derive(Debug)]
pub struct FullReport {
    pub total_packets: usize,
    pub stp_packets: usize,
    pub duration_sec: Binary64,
    pub events: Vec<TimedEvent>,
    pub summary: ReportSummary,
    pub root_cause: RootCauseReport,
    pub topology: TopologySnapshot,
}

/// The packets of a capture in either format, or why there are none.
pub open spec fn packets_of(s: Seq<u8>) -> Result<Seq<(u32, u32, Seq<u8>)>, Seq<char>> {
    if pcapng::is_pcapng_file(s) {
        pcapng::capture_of(s)
    } else {
        match pcap::capture_of(s) {
            Ok((_, packets)) => Ok(packets),
            Err(message) => Err(message),
        }
    }
}

/// The BPDU in a packet.
pub open spec fn bpdu_in(frame: Seq<u8>) -> Option<Bpdu> {
    match net::carried(frame) {
        Some((info, payload)) => stp::bpdu_of(payload, info.src_mac, info.vlan_id),
        None => None,
    }
}

/// Events that happened at `ts`, in a time line.
pub open spec fn timed(events: Seq<EventModel>, ts: Timestamp) -> Seq<TimedModel> {
    events.map_values(
        |e: EventModel| TimedModel { ts, event: e, severity: e.severity() },
    )
}

/// What is known after some packets.
pub struct Progress {
    pub state: AnalyzerModel,
    pub events: Seq<TimedModel>,
    pub stp_packets: nat,
}

/// What is known after the packets.
pub open spec fn progress(packets: Seq<(u32, u32, Seq<u8>)>) -> Progress
    decreases packets.len(),
{
    if packets.len() == 0 {
        Progress { state: AnalyzerModel::initial(), events: Seq::empty(), stp_packets: 0 }
    } else {
        let before = progress(packets.drop_last());
        let (sec, usec, frame) = packets.last();
        let ts = Timestamp { sec, usec };
        match bpdu_in(frame) {
            None => before,
            Some(bpdu) => Progress {
                state: before.state.step(bpdu, ts).0,
                events: before.events + timed(before.state.step(bpdu, ts).1, ts),
                stp_packets: before.stp_packets + 1,
            },
        }
    }
}

/// The time of the first packet, 0 where there is none.
pub open spec fn first_time(packets: Seq<(u32, u32, Seq<u8>)>) -> Timestamp {
    if packets.len() == 0 {
        Timestamp { sec: 0, usec: 0 }
    } else {
        Timestamp { sec: packets.first().0, usec: packets.first().1 }
    }
}

/// The time of the last packet, 0 where there is none.
pub open spec fn last_time(packets: Seq<(u32, u32, Seq<u8>)>) -> Timestamp {
    if packets.len() == 0 {
        Timestamp { sec: 0, usec: 0 }
    } else {
        Timestamp { sec: packets.last().0, usec: packets.last().1 }
    }
}

impl FullReport {
    /// The report is that on the packets.
    pub open spec fn describes(self, packets: Seq<(u32, u32, Seq<u8>)>) -> bool {
        let known = progress(packets);
        &&& self.total_packets == packets.len()
        &&& self.stp_packets == known.stp_packets
        &&& self.duration_sec.wf()
        &&& self.duration_sec.exponent <= 1300
        &&& self.duration_sec.units() == binary64::nearest(
            last_time(packets).seconds() - first_time(packets).seconds(),
            1,
        )
        &&& event::timed_views(self.events@) == known.events
        &&& self.summary.sums_up(known.events)
        &&& self.root_cause@ == root_cause::report_of(known.events)
        &&& self.topology.lists_bridges(known.state.bridges)
        &&& self.topology.lists_roots(known.state.roots)
    }
}

/// Appends events that happened at `ts` to a time line.
fn enter(timeline: &mut Vec<TimedEvent>, events: Vec<StpEvent>, ts: Timestamp)
    ensures
        event::timed_views(final(timeline)@) == event::timed_views(old(timeline)@) + timed(
            event::event_views(events@),
            ts,
        ),
{
    let ghost was = event::timed_views(timeline@);
    let ghost all = timed(event::event_views(events@), ts);
    assert(was =~= was + all.take(0));
    for event in it: events
        invariant
            it.seq() == events@,
            all == timed(event::event_views(events@), ts),
            event::timed_views(timeline@) == was + all.take(it.index() as int),
    {
        let ghost before = event::timed_views(timeline@);
        let severity = classify_event(&event);
        let entry = TimedEvent { ts, event, severity };
        timeline.push(entry);
        assert(event::timed_views(timeline@) =~= before.push(entry@));
        assert(all.take(it.index() + 1) =~= all.take(it.index() as int).push(entry@));
        assert(before.push(entry@) =~= was + all.take(it.index() + 1));
    }
    assert(all.take(all.len() as int) =~= all);
}

/// The packets of a capture in either format.
pub fn read_packets(data: &[u8]) -> (r: Result<Vec<(u32, u32, Vec<u8>)>, String>)
    ensures
        match r {
            Ok(packets) => packets_of(data@) == Ok::<_, Seq<char>>(
                pcapng::packet_views(packets@),
            ),
            Err(message) => packets_of(data@) == Err::<Seq<(u32, u32, Seq<u8>)>, _>(message@),
        },
{
    if pcapng::is_pcapng(data) {
        return pcapng::parse_pcapng(data);
    }
    match pcap::iter_packets(data) {
        Err(message) => Err(message),
        Ok((_, raw)) => {
            let ghost all = pcap::packet_views(raw@);
            let mut packets: Vec<(u32, u32, Vec<u8>)> = Vec::new();
            let mut i: usize = 0;
            while i < raw.len()
                invariant
                    i <= raw@.len(),
                    all == pcap::packet_views(raw@),
                    pcapng::packet_views(packets@) == all.take(i as int),
                decreases raw@.len() - i,
            {
                let ghost before = pcapng::packet_views(packets@);
                let packet = (raw[i].ts_sec, raw[i].ts_usec, slice_to_vec(raw[i].data));
                packets.push(packet);
                assert(pcapng::packet_views(packets@) =~= before.push(all[i as int]));
                i = i + 1;
                assert(all.take(i as int) =~= before.push(all[i - 1]));
            }
            assert(all.take(i as int) =~= all);
            Ok(packets)
        },
    }
}

/// Examines a capture. The first error in it is the result, where there is one.
pub fn analyze_pcap(data: &[u8]) -> (r: Result<FullReport, String>)
    ensures
        match r {
            Ok(report) => packets_of(data@) is Ok && report.describes(packets_of(data@)->Ok_0),
            Err(message) => packets_of(data@) == Err::<Seq<(u32, u32, Seq<u8>)>, _>(message@),
        },
{
    match read_packets(data) {
        Err(message) => Err(message),
        Ok(packets) => Ok(examine(&packets)),
    }
}

/// Examines the packets of a capture.
pub fn examine(packets: &Vec<(u32, u32, Vec<u8>)>) -> (r: FullReport)
    ensures
        r.describes(pcapng::packet_views(packets@)),
{
    let ghost all = pcapng::packet_views(packets@);
    let mut analyzer = Analyzer::new();
    let mut events: Vec<TimedEvent> = Vec::new();
    let mut stp_packets: usize = 0;
    let mut last_ts = Timestamp { sec: 0, usec: 0 };
    let mut i: usize = 0;
    assert(event::timed_views(events@) =~= Seq::empty());
    while i < packets.len()
        invariant
            i <= packets@.len(),
            all == pcapng::packet_views(packets@),
            stp_packets <= i,
            analyzer@.counts_within(i as int),
            analyzer@ == progress(all.take(i as int)).state,
            event::timed_views(events@) == progress(all.take(i as int)).events,
            stp_packets == progress(all.take(i as int)).stp_packets,
            last_ts == last_time(all.take(i as int)),
        decreases packets@.len() - i,
    {
        assert(all.take(i + 1).drop_last() =~= all.take(i as int));
        assert(all.take(i + 1).last() == all[i as int]);
        let packet = &packets[i];
        let ts = Timestamp { sec: packet.0, usec: packet.1 };
        last_ts = ts;
        if let Some((info, payload)) = net::extract_bpdu(packet.2.as_slice()) {
            if let Some(bpdu) = stp::parse_bpdu(payload, info.src_mac, info.vlan_id) {
                stp_packets = stp_packets + 1;
                proof {
                    steps::lemma_counts_grow_slowly(analyzer@, bpdu, ts, i as int);
                }
                let new_events = analyzer.process(&bpdu, ts);
                enter(&mut events, new_events, ts);
            }
        }
        i = i + 1;
    }
    assert(all.take(i as int) =~= all);
    enter(&mut events, analyzer.finalize(last_ts), last_ts);
    assert(event::timed_views(events@) =~= progress(all).events);
    let first_ts = if packets.len() == 0 {
        Timestamp { sec: 0, usec: 0 }
    } else {
        Timestamp { sec: packets[0].0, usec: packets[0].1 }
    };
    FullReport {
        total_packets: packets.len(),
        stp_packets,
        duration_sec: last_ts.to_f64().minus(first_ts.to_f64()),
        summary: summary::summarize(&events),
        root_cause: root_cause::correlate(events.as_slice()),
        topology: analyzer.get_topology(),
        events,
    }
}

} // verus!
