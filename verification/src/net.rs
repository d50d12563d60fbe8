//! Ethernet frames that carry bridge protocol data units.
//!
//! A BPDU travels directly over 802.3 with an LLC header, or with an 802.1Q tag
//! in between; IP is not involved.

use vstd::prelude::*;
use vstd::string::*;

use crate::bytes;
use crate::text;

verus! {

/// Destination of STP and RSTP frames (IEEE 802.1D).
pub const STP_MCAST: [u8; 6] = [0x01, 0x80, 0xc2, 0x00, 0x00, 0x00];

/// Destination of Cisco PVST+ frames.
pub const PVST_MCAST: [u8; 6] = [0x01, 0x00, 0x0c, 0xcc, 0xcc, 0xcd];

pub const ETHERTYPE_8021Q: u16 = 0x8100;

pub const ETHERTYPE_8021AD: u16 = 0x88a8;

/// LLC service access point of STP.
pub const LLC_STP_DSAP: u8 = 0x42;

pub const LLC_STP_SSAP: u8 = 0x42;

/// What kind of BPDU a frame carries.
#[derive(Debug, Clone, Copy, PartialEq, Eq, Structural)]
pub enum FrameKind {
    /// IEEE 802.1D or RSTP.
    Stp,
    /// Cisco PVST+ or Rapid-PVST+.
    Pvst,
}

/// What the analyser needs to know of a frame.
#[derive(Debug, Clone, Copy)]
pub struct EtherFrame {
    pub src_mac: [u8; 6],
    pub dst_mac: [u8; 6],
    /// `None` where the frame has no 802.1Q tag.
    pub vlan_id: Option<u16>,
    pub kind: FrameKind,
}

/// An address in hexadecimal, its bytes separated by colons.
pub open spec fn mac_text(m: Seq<u8>) -> Seq<char> {
    text::hex(m[0] as nat, 2) + ":"@ + text::hex(m[1] as nat, 2) + ":"@ + text::hex(m[2] as nat, 2)
        + ":"@ + text::hex(m[3] as nat, 2) + ":"@ + text::hex(m[4] as nat, 2) + ":"@ + text::hex(
        m[5] as nat,
        2,
    )
}

/// The address as text.
pub fn mac_str(m: &[u8; 6]) -> (r: String)
    ensures
        r@ == mac_text(m@),
{
    let mut out = String::new();
    text::push_hex(&mut out, m[0] as u32, 2);
    out.append(":");
    text::push_hex(&mut out, m[1] as u32, 2);
    out.append(":");
    text::push_hex(&mut out, m[2] as u32, 2);
    out.append(":");
    text::push_hex(&mut out, m[3] as u32, 2);
    out.append(":");
    text::push_hex(&mut out, m[4] as u32, 2);
    out.append(":");
    text::push_hex(&mut out, m[5] as u32, 2);
    assert(out@ =~= mac_text(m@));
    out
}

/// Whether two addresses are the same.
pub fn mac_eq(a: &[u8; 6], b: &[u8; 6]) -> (r: bool)
    ensures
        r == (a@ == b@),
{
    let r = a[0] == b[0] && a[1] == b[1] && a[2] == b[2] && a[3] == b[3] && a[4] == b[4] && a[5]
        == b[5];
    assert(r ==> a@ =~= b@);
    r
}

impl EtherFrame {
    /// The source address as text.
    pub fn src_mac_str(&self) -> (r: String)
        ensures
            r@ == mac_text(self.src_mac@),
    {
        mac_str(&self.src_mac)
    }

    /// The destination address as text.
    pub fn dst_mac_str(&self) -> (r: String)
        ensures
            r@ == mac_text(self.dst_mac@),
    {
        mac_str(&self.dst_mac)
    }
}

/// The six bytes from `at` on.
pub open spec fn mac_at(s: Seq<u8>, at: int) -> [u8; 6] {
    [s[at], s[at + 1], s[at + 2], s[at + 3], s[at + 4], s[at + 5]]
}

/// Copies the six bytes from `at` on.
pub fn read_mac(data: &[u8], at: usize) -> (r: [u8; 6])
    requires
        at + 6 <= data@.len(),
    ensures
        r == mac_at(data@, at as int),
{
    [data[at], data[at + 1], data[at + 2], data[at + 3], data[at + 4], data[at + 5]]
}

/// The kind of frame that a destination address announces.
pub open spec fn kind_of(dst_mac: Seq<u8>) -> Option<FrameKind> {
    if dst_mac == PVST_MCAST@ {
        Some(FrameKind::Pvst)
    } else if dst_mac == STP_MCAST@ {
        Some(FrameKind::Stp)
    } else {
        None
    }
}

/// The VLAN of a frame and the place of its LLC header. `None` where neither a
/// length nor a complete 802.1Q tag follows the addresses.
pub open spec fn tag_of(frame: Seq<u8>) -> Option<(Option<u16>, int)> {
    let field = bytes::be16(frame, 12);
    if field == ETHERTYPE_8021Q {
        if frame.len() >= 18 {
            Some((Some((bytes::be16(frame, 14) % 4096) as u16), 18int))
        } else {
            None
        }
    } else if field < 0x0600 {
        Some((None, 14int))
    } else {
        None
    }
}

/// Where the BPDU begins behind an LLC header at `llc`: after the three bytes of
/// a plain header, or after the eight of a SNAP header. `None` where the header
/// is cut off or belongs to another protocol, or nothing follows it.
pub open spec fn payload_start(frame: Seq<u8>, llc: int) -> Option<int> {
    if frame.len() < llc + 3 {
        None
    } else {
        let dsap = frame[llc];
        let ssap = frame[llc + 1];
        let start = if dsap == 0xAA {
            llc + 8
        } else {
            llc + 3
        };
        if (dsap == LLC_STP_DSAP || dsap == 0xAA) && (ssap == LLC_STP_SSAP || ssap == 0xAA)
            && frame.len() > start {
            Some(start)
        } else {
            None
        }
    }
}

/// The BPDU that a frame carries, with what is known of the frame.
pub open spec fn carried(frame: Seq<u8>) -> Option<(EtherFrame, Seq<u8>)> {
    if frame.len() < 14 {
        None
    } else {
        let dst_mac = mac_at(frame, 0);
        match (kind_of(dst_mac@), tag_of(frame)) {
            (Some(kind), Some((vlan_id, llc))) => match payload_start(frame, llc) {
                Some(start) => Some(
                    (
                        EtherFrame { src_mac: mac_at(frame, 6), dst_mac, vlan_id, kind },
                        frame.skip(start),
                    ),
                ),
                None => None,
            },
            _ => None,
        }
    }
}

/// Takes the BPDU out of an Ethernet frame. `None` where the frame carries none.
pub fn extract_bpdu(frame: &[u8]) -> (r: Option<(EtherFrame, &[u8])>)
    ensures
        match r {
            Some((info, payload)) => carried(frame@) == Some((info, payload@)),
            None => carried(frame@) is None,
        },
{
    if frame.len() < 14 {
        return None;
    }
    let dst_mac = read_mac(frame, 0);
    let src_mac = read_mac(frame, 6);
    let is_stp: bool = mac_eq(&dst_mac, &STP_MCAST);
    let is_pvst: bool = mac_eq(&dst_mac, &PVST_MCAST);
    if !is_stp && !is_pvst {
        return None;
    }
    let kind = if is_pvst {
        FrameKind::Pvst
    } else {
        FrameKind::Stp
    };

    let field: u16 = frame[12] as u16 * 256 + frame[13] as u16;
    let mut vlan_id: Option<u16> = None;
    let mut llc_start: usize = 14;
    if field == ETHERTYPE_8021Q {
        if frame.len() < 18 {
            return None;
        }
        let tci: u16 = frame[14] as u16 * 256 + frame[15] as u16;
        vlan_id = Some(tci % 4096);
        llc_start = 18;
    } else if field >= 0x0600 {
        return None;
    }
    if frame.len() < llc_start + 3 {
        return None;
    }
    let dsap: u8 = frame[llc_start];
    let ssap: u8 = frame[llc_start + 1];
    if dsap != LLC_STP_DSAP && dsap != 0xAA {
        return None;
    }
    if ssap != LLC_STP_SSAP && ssap != 0xAA {
        return None;
    }
    let bpdu_start: usize = if dsap == 0xAA { llc_start + 8 } else { llc_start + 3 };
    if frame.len() <= bpdu_start {
        return None;
    }
    let payload = &frame[bpdu_start..frame.len()];
    assert(payload@ =~= frame@.skip(bpdu_start as int));
    Some((EtherFrame { src_mac, dst_mac, vlan_id, kind }, payload))
}

/// Different addresses have different texts.
pub proof fn lemma_mac_text_injective(a: Seq<u8>, b: Seq<u8>)
    requires
        a.len() == 6,
        b.len() == 6,
        mac_text(a) == mac_text(b),
    ensures
        a == b,
{
    assert forall|i: int| 0 <= i < 6 implies a[i] == b[i] by {
        lemma_mac_text_places(a, i);
        lemma_mac_text_places(b, i);
        text::lemma_digits_injective(a[i], b[i]);
    }
    assert(a =~= b);
}

/// Where the digits of a byte stand in the text of an address.
pub proof fn lemma_mac_text_places(m: Seq<u8>, i: int)
    requires
        m.len() == 6,
        0 <= i < 6,
    ensures
        mac_text(m).len() == 17,
        mac_text(m)[3 * i] == text::digit_char(m[i] as nat / 16),
        mac_text(m)[3 * i + 1] == text::digit_char(m[i] as nat % 16),
{
    reveal_strlit(":");
    text::lemma_hex_byte(m[0]);
    text::lemma_hex_byte(m[1]);
    text::lemma_hex_byte(m[2]);
    text::lemma_hex_byte(m[3]);
    text::lemma_hex_byte(m[4]);
    text::lemma_hex_byte(m[5]);
    if i == 0 {
    } else if i == 1 {
    } else if i == 2 {
    } else if i == 3 {
    } else if i == 4 {
    } else {
    }
}

/// Only frames to one of the two group addresses of bridges carry a BPDU. It is
/// the end of the frame and not empty, and a VLAN has a number below 4096.
pub proof fn lemma_carried(frame: Seq<u8>)
    ensures
        carried(frame) matches Some((info, payload)) ==> {
            &&& info.dst_mac@ == frame.take(6)
            &&& info.src_mac@ == frame.subrange(6, 12)
            &&& info.kind == FrameKind::Stp ==> frame.take(6) == STP_MCAST@
            &&& info.kind == FrameKind::Pvst ==> frame.take(6) == PVST_MCAST@
            &&& info.vlan_id matches Some(v) ==> v < 4096
            &&& 0 < payload.len() <= frame.len() - 17
            &&& payload == frame.skip(frame.len() - payload.len())
        },
{
    if carried(frame) is Some {
        let (info, payload) = carried(frame)->0;
        assert(info.dst_mac@ =~= frame.take(6));
        assert(info.src_mac@ =~= frame.subrange(6, 12));
    }
}

/// A tag of 802.1Q, where the frame has one. The upper four bits of its second
/// half are the priority.
pub open spec fn tag_bytes(vlan_id: Option<u16>, priority: int) -> Seq<u8> {
    match vlan_id {
        Some(v) => bytes::u16_bytes(ETHERTYPE_8021Q, true) + bytes::u16_bytes(
            (priority * 4096 + v) as u16,
            true,
        ),
        None => Seq::empty(),
    }
}

/// A plain LLC header, or one with the five bytes of SNAP.
pub open spec fn llc_bytes(control: u8, snap: Option<Seq<u8>>) -> Seq<u8> {
    match snap {
        Some(protocol) => seq![0xAAu8, 0xAAu8, control] + protocol,
        None => seq![LLC_STP_DSAP, LLC_STP_SSAP, control],
    }
}

/// The bytes of a frame.
pub open spec fn frame_bytes(
    info: EtherFrame,
    priority: int,
    length: u16,
    llc: Seq<u8>,
    payload: Seq<u8>,
) -> Seq<u8> {
    info.dst_mac@ + info.src_mac@ + tag_bytes(info.vlan_id, priority) + bytes::u16_bytes(
        length,
        true,
    ) + llc + payload
}

/// A BPDU is taken out of a frame as it was put in, with a tag or without, behind
/// a plain LLC header or behind SNAP.
pub proof fn lemma_frame_read_back(
    info: EtherFrame,
    priority: int,
    length: u16,
    control: u8,
    snap: Option<Seq<u8>>,
    payload: Seq<u8>,
)
    requires
        kind_of(info.dst_mac@) == Some(info.kind),
        info.vlan_id matches Some(v) ==> v < 4096,
        0 <= priority < 16,
        length < 0x0600,
        snap matches Some(protocol) ==> protocol.len() == 5,
        payload.len() > 0,
    ensures
        carried(frame_bytes(info, priority, length, llc_bytes(control, snap), payload)) == Some(
            (info, payload),
        ),
{
    let llc = llc_bytes(control, snap);
    let s = frame_bytes(info, priority, length, llc, payload);
    let dst = mac_at(s, 0);
    let src = mac_at(s, 6);
    assert(dst@ =~= info.dst_mac@);
    assert(src@ =~= info.src_mac@);
    assert(dst =~= info.dst_mac);
    assert(src =~= info.src_mac);
    match info.vlan_id {
        Some(v) => {
            let tci = (priority * 4096 + v) as u16;
            assert(s.subrange(12, 14) =~= bytes::u16_bytes(ETHERTYPE_8021Q, true));
            bytes::lemma_u16_read_back(s, 12, ETHERTYPE_8021Q, true);
            assert(s.subrange(14, 16) =~= bytes::u16_bytes(tci, true));
            bytes::lemma_u16_read_back(s, 14, tci, true);
            assert(tag_of(s) == Some((Some(v), 18int)));
            assert(s[18] == llc[0] && s[19] == llc[1]);
            assert(s.skip(18int + llc.len()) =~= payload);
        },
        None => {
            assert(s.subrange(12, 14) =~= bytes::u16_bytes(length, true));
            bytes::lemma_u16_read_back(s, 12, length, true);
            assert(s[14] == llc[0] && s[15] == llc[1]);
            assert(s.skip(14int + llc.len()) =~= payload);
        },
    }
}

/// Between the digits of two bytes of an address stands a colon.
pub proof fn lemma_mac_text_colons(m: Seq<u8>, i: int)
    requires
        m.len() == 6,
        0 <= i < 5,
    ensures
        mac_text(m)[3 * i + 2] == ':',
{
    reveal_strlit(":");
    text::lemma_hex_byte(m[0]);
    text::lemma_hex_byte(m[1]);
    text::lemma_hex_byte(m[2]);
    text::lemma_hex_byte(m[3]);
    text::lemma_hex_byte(m[4]);
    text::lemma_hex_byte(m[5]);
    if i == 0 {
    } else if i == 1 {
    } else if i == 2 {
    } else if i == 3 {
    } else {
    }
}

/// The bytes from `llc` on are the header of a BPDU with something behind it: two service
/// access points, each that of STP or that of SNAP, and the control byte; where the first
/// is that of SNAP, five bytes more.
pub open spec fn has_header(frame: Seq<u8>, llc: int) -> bool {
    &&& frame.len() >= llc + 4
    &&& frame[llc] == 0x42 || (frame[llc] == 0xAA && frame.len() >= llc + 9)
    &&& frame[llc + 1] == 0x42 || frame[llc + 1] == 0xAA
}

/// How far behind its beginning the header of a BPDU ends.
pub open spec fn header_len(frame: Seq<u8>, llc: int) -> int {
    if frame[llc] == 0xAA {
        8
    } else {
        3
    }
}

/// Which frames carry a BPDU, and what is known of them, byte by byte. The destination is
/// one of two group addresses. Behind the addresses comes a length, or a tag with the VLAN
/// in its lower twelve bits; then the header, and the BPDU is all that follows.
pub proof fn lemma_carried_bytes(frame: Seq<u8>)
    ensures
        ({
            let stp = frame.take(6) == seq![0x01u8, 0x80u8, 0xc2u8, 0x00u8, 0x00u8, 0x00u8];
            let pvst = frame.take(6) == seq![0x01u8, 0x00u8, 0x0cu8, 0xccu8, 0xccu8, 0xcdu8];
            let tagged = frame[12] == 0x81 && frame[13] == 0x00;
            let llc: int = if tagged { 18 } else { 14 };
            &&& carried(frame) is Some <==> {
                &&& frame.len() >= 14
                &&& stp || pvst
                &&& tagged || frame[12] < 6
                &&& has_header(frame, llc)
            }
            &&& carried(frame) matches Some((info, payload)) ==> {
                &&& info.dst_mac@ == frame.take(6)
                &&& info.src_mac@ == frame.subrange(6, 12)
                &&& info.kind == FrameKind::Stp <==> stp
                &&& info.kind == FrameKind::Pvst <==> pvst
                &&& info.vlan_id is Some <==> tagged
                &&& tagged ==> info.vlan_id->0 == frame[14] % 16 * 256 + frame[15]
                &&& payload == frame.skip(llc + header_len(frame, llc))
            }
        }),
{
    if frame.len() >= 14 {
        let dst = mac_at(frame, 0);
        let stp = seq![0x01u8, 0x80u8, 0xc2u8, 0x00u8, 0x00u8, 0x00u8];
        let pvst = seq![0x01u8, 0x00u8, 0x0cu8, 0xccu8, 0xccu8, 0xcdu8];
        assert(dst@ =~= frame.take(6));
        assert(STP_MCAST@ =~= stp);
        assert(PVST_MCAST@ =~= pvst);
        assert(stp[1] != pvst[1]);
        if carried(frame) is Some {
            assert((carried(frame)->0).0.src_mac@ =~= frame.subrange(6, 12));
        }
    }
}

/// An address is copied byte by byte.
pub proof fn lemma_mac_at(s: Seq<u8>, at: int)
    requires
        0 <= at,
        at + 6 <= s.len(),
    ensures
        mac_at(s, at)@ == s.subrange(at, at + 6),
{
    assert(mac_at(s, at)@ =~= s.subrange(at, at + 6));
}

} // verus!
