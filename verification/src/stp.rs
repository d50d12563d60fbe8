//! Bridge protocol data units of STP (802.1D), RSTP (802.1w) and PVST+.

use vstd::arithmetic::power2::*;
use vstd::prelude::*;
use vstd::string::*;

use crate::binary64::{Binary64, UNIT_BITS};
use crate::bytes;
use crate::net;
use crate::text;

verus! {

/// The type of a BPDU.
#[derive(Debug, Clone, Copy, PartialEq, Eq, Structural)]
pub enum BpduType {
    /// 0x00, configuration.
    ConfigBpdu,
    /// 0x80, topology change notification.
    TcnBpdu,
    /// 0x02, RSTP or Rapid-PVST+.
    RstBpdu,
}

/// The role of a port, bits 2 and 3 of the flags (RSTP).
#[derive(Debug, Clone, Copy, PartialEq, Eq, Structural)]
pub enum PortRole {
    Unknown,
    AlternateBackup,
    Root,
    Designated,
}

impl PortRole {
    /// The name of the role.
    pub open spec fn name(self) -> Seq<char> {
        match self {
            PortRole::Unknown => "Unknown"@,
            PortRole::AlternateBackup => "Alternate/Backup"@,
            PortRole::Root => "Root"@,
            PortRole::Designated => "Designated"@,
        }
    }

    /// The role that the lower two bits of a number stand for.
    pub open spec fn of_bits(bits: int) -> PortRole {
        if bits % 4 == 0 {
            PortRole::Unknown
        } else if bits % 4 == 1 {
            PortRole::AlternateBackup
        } else if bits % 4 == 2 {
            PortRole::Root
        } else {
            PortRole::Designated
        }
    }

    /// The name of the role.
    pub fn as_str(&self) -> (r: &'static str)
        ensures
            r@ == self.name(),
    {
        match self {
            PortRole::Unknown => "Unknown",
            PortRole::AlternateBackup => "Alternate/Backup",
            PortRole::Root => "Root",
            PortRole::Designated => "Designated",
        }
    }

    /// The role that the lower two bits stand for.
    pub fn from_bits(bits: u8) -> (r: Self)
        ensures
            r == PortRole::of_bits(bits as int),
    {
        match bits % 4 {
            0 => PortRole::Unknown,
            1 => PortRole::AlternateBackup,
            2 => PortRole::Root,
            _ => PortRole::Designated,
        }
    }
}

/// A bridge identifier: priority and address.
#[derive(Debug, Clone, Copy)]
pub struct BridgeId {
    /// The upper four bits are the priority in steps of 4096, the lower twelve
    /// the system identifier extension (the VLAN).
    pub priority: u16,
    pub mac: [u8; 6],
}

impl PartialEq for BridgeId {
    fn eq(&self, other: &BridgeId) -> (r: bool) {
        self.priority == other.priority && net::mac_eq(&self.mac, &other.mac)
    }
}

impl vstd::std_specs::cmp::PartialEqSpecImpl for BridgeId {
    open spec fn obeys_eq_spec() -> bool {
        true
    }

    open spec fn eq_spec(&self, other: &BridgeId) -> bool {
        self.priority == other.priority && self.mac@ == other.mac@
    }
}

impl BridgeId {
    /// The priority alone.
    pub open spec fn priority_part(self) -> int {
        self.priority as int - self.priority as int % 4096
    }

    /// The identifier as text: the priority, a slash and the address.
    pub open spec fn text(self) -> Seq<char> {
        text::decimal(self.priority_part() as nat) + "/"@ + net::mac_text(self.mac@)
    }

    /// The address as a number.
    pub open spec fn mac_number(self) -> nat {
        bytes::be16(self.mac@, 0) * 0x1_0000_0000 + bytes::be32(self.mac@, 2)
    }

    /// The identifier as a number, by which bridges are compared: the lower is
    /// the better.
    pub open spec fn number(self) -> int {
        self.priority * 0x1_0000_0000_0000 + self.mac_number()
    }

    /// The priority without the system identifier extension.
    pub fn bridge_priority(&self) -> (r: u16)
        ensures
            r == self.priority_part(),
    {
        let p: u16 = self.priority;
        assert(p & 0xF000 == p - p % 4096) by (bit_vector);
        p & 0xF000
    }

    /// The system identifier extension.
    pub fn sys_id_ext(&self) -> (r: u16)
        ensures
            r == self.priority % 4096,
            self.priority_part() + r == self.priority,
    {
        let p: u16 = self.priority;
        assert(p & 0x0FFF == p % 4096) by (bit_vector);
        p & 0x0FFF
    }

    /// The address as text.
    pub fn mac_str(&self) -> (r: String)
        ensures
            r@ == net::mac_text(self.mac@),
    {
        net::mac_str(&self.mac)
    }

    /// The identifier as text.
    pub fn to_string(&self) -> (r: String)
        ensures
            r@ == self.text(),
    {
        let mut out = String::new();
        text::push_decimal(&mut out, self.bridge_priority() as u64);
        out.append("/");
        out.append(self.mac_str().as_str());
        assert(out@ =~= self.text());
        out
    }

    /// The identifier as a number, by which bridges are compared.
    pub fn to_u64(&self) -> (r: u64)
        ensures
            r == self.number(),
    {
        let mut v: u64 = self.priority as u64;
        v = v * 256 + self.mac[0] as u64;
        v = v * 256 + self.mac[1] as u64;
        v = v * 256 + self.mac[2] as u64;
        v = v * 256 + self.mac[3] as u64;
        v = v * 256 + self.mac[4] as u64;
        v * 256 + self.mac[5] as u64
    }
}

/// Whether a bit of a byte is set.
pub open spec fn bit(b: u8, i: u8) -> bool {
    (b >> i) & 1 == 1
}

/// The flags of a BPDU, one byte.
#[derive(Debug, Clone, Copy, PartialEq, Eq, Structural)]
pub struct BpduFlags {
    /// Bit 0, topology change.
    pub tc: bool,
    /// Bit 1, proposal (RSTP).
    pub proposal: bool,
    /// Bits 2 and 3 (RSTP).
    pub port_role: PortRole,
    /// Bit 4 (RSTP).
    pub learning: bool,
    /// Bit 5 (RSTP).
    pub forwarding: bool,
    /// Bit 6 (RSTP).
    pub agreement: bool,
    /// Bit 7, topology change acknowledgement.
    pub tc_ack: bool,
}

impl BpduFlags {
    /// The flags that a byte holds.
    pub open spec fn of_byte(b: u8) -> BpduFlags {
        BpduFlags {
            tc: bit(b, 0),
            proposal: bit(b, 1),
            port_role: PortRole::of_bits(b as int / 4),
            learning: bit(b, 4),
            forwarding: bit(b, 5),
            agreement: bit(b, 6),
            tc_ack: bit(b, 7),
        }
    }

    /// The flags that a byte holds.
    pub fn from_byte(b: u8) -> (r: Self)
        ensures
            r == BpduFlags::of_byte(b),
    {
        assert(b & 0x01 != 0 <==> (b >> 0) & 1 == 1) by (bit_vector);
        assert(b & 0x02 != 0 <==> (b >> 1) & 1 == 1) by (bit_vector);
        assert(b & 0x10 != 0 <==> (b >> 4) & 1 == 1) by (bit_vector);
        assert(b & 0x20 != 0 <==> (b >> 5) & 1 == 1) by (bit_vector);
        assert(b & 0x40 != 0 <==> (b >> 6) & 1 == 1) by (bit_vector);
        assert(b & 0x80 != 0 <==> (b >> 7) & 1 == 1) by (bit_vector);
        BpduFlags {
            tc: b & 0x01 != 0,
            proposal: b & 0x02 != 0,
            port_role: PortRole::from_bits(b / 4),
            learning: b & 0x10 != 0,
            forwarding: b & 0x20 != 0,
            agreement: b & 0x40 != 0,
            tc_ack: b & 0x80 != 0,
        }
    }
}

/// A BPDU.
#[derive(Debug, Clone, Copy)]
pub struct Bpdu {
    pub bpdu_type: BpduType,
    /// The VLAN of the 802.1Q tag (PVST+).
    pub vlan_id: Option<u16>,
    /// The source address of the frame.
    pub sender_mac: [u8; 6],
    pub flags: BpduFlags,
    pub root_id: BridgeId,
    pub root_path_cost: u32,
    /// The identifier of the sending bridge.
    pub bridge_id: BridgeId,
    /// Priority and number of the sending port.
    pub port_id: u16,
    /// The four times are in 1/256 of a second.
    pub message_age: u16,
    pub max_age: u16,
    pub hello_time: u16,
    pub forward_delay: u16,
    pub is_rstp: bool,
}

impl Bpdu {
    /// The source address as text.
    pub fn sender_mac_str(&self) -> (r: String)
        ensures
            r@ == net::mac_text(self.sender_mac@),
    {
        net::mac_str(&self.sender_mac)
    }

    /// The sending bridge takes itself for the root.
    pub open spec fn claims_root(self) -> bool {
        self.root_id.priority == self.bridge_id.priority && self.root_id.mac@ == self.bridge_id.mac@
    }

    /// Whether the sending bridge takes itself for the root.
    pub fn is_root_bridge(&self) -> (r: bool)
        ensures
            r == self.claims_root(),
    {
        self.root_id == self.bridge_id
    }

    /// The hello time in seconds.
    pub fn hello_time_sec(&self) -> (r: Binary64)
        ensures
            r.wf(),
            r.units() * 256 == self.hello_time * pow2(UNIT_BITS as nat),
            r.exponent <= 1106,
    {
        Binary64::from_256ths(self.hello_time)
    }

    /// The maximum age in seconds.
    pub fn max_age_sec(&self) -> (r: Binary64)
        ensures
            r.wf(),
            r.units() * 256 == self.max_age * pow2(UNIT_BITS as nat),
            r.exponent <= 1106,
    {
        Binary64::from_256ths(self.max_age)
    }

    /// The forward delay in seconds.
    pub fn forward_delay_sec(&self) -> (r: Binary64)
        ensures
            r.wf(),
            r.units() * 256 == self.forward_delay * pow2(UNIT_BITS as nat),
            r.exponent <= 1106,
    {
        Binary64::from_256ths(self.forward_delay)
    }

    /// The message age in seconds.
    pub fn message_age_sec(&self) -> (r: Binary64)
        ensures
            r.wf(),
            r.units() * 256 == self.message_age * pow2(UNIT_BITS as nat),
            r.exponent <= 1106,
    {
        Binary64::from_256ths(self.message_age)
    }
}

/// The bridge identifier in the eight bytes from `at` on.
pub open spec fn bridge_id_at(s: Seq<u8>, at: int) -> BridgeId {
    BridgeId { priority: bytes::be16(s, at) as u16, mac: net::mac_at(s, at + 2) }
}

/// Reads the bridge identifier from `offset` on. `None` where the data end
/// before it does.
pub fn parse_bridge_id(data: &[u8], offset: usize) -> (r: Option<BridgeId>)
    ensures
        r == (if offset + 8 <= data@.len() {
            Some(bridge_id_at(data@, offset as int))
        } else {
            None
        }),
{
    if data.len() < 8 || offset > data.len() - 8 {
        return None;
    }
    let priority: u16 = data[offset] as u16 * 256 + data[offset + 1] as u16;
    Some(BridgeId { priority, mac: net::read_mac(data, offset + 2) })
}

/// The BPDU type of a type byte.
pub open spec fn type_of(b: u8) -> Option<BpduType> {
    if b == 0x00 {
        Some(BpduType::ConfigBpdu)
    } else if b == 0x80 {
        Some(BpduType::TcnBpdu)
    } else if b == 0x02 {
        Some(BpduType::RstBpdu)
    } else {
        None
    }
}

/// What a topology change notification says: nothing but its sender.
pub open spec fn notification(sender_mac: [u8; 6], vlan_id: Option<u16>) -> Bpdu {
    Bpdu {
        bpdu_type: BpduType::TcnBpdu,
        vlan_id,
        sender_mac,
        flags: BpduFlags::of_byte(0),
        root_id: BridgeId { priority: 0, mac: [0, 0, 0, 0, 0, 0] },
        root_path_cost: 0,
        bridge_id: BridgeId { priority: 0, mac: sender_mac },
        port_id: 0,
        message_age: 0,
        max_age: 0,
        hello_time: 0,
        forward_delay: 0,
        is_rstp: false,
    }
}

/// The BPDU of one of the other two types, whose fields have fixed places.
pub open spec fn configuration(
    data: Seq<u8>,
    bpdu_type: BpduType,
    sender_mac: [u8; 6],
    vlan_id: Option<u16>,
) -> Bpdu {
    Bpdu {
        bpdu_type,
        vlan_id,
        sender_mac,
        flags: BpduFlags::of_byte(data[4]),
        root_id: bridge_id_at(data, 5),
        root_path_cost: bytes::be32(data, 13) as u32,
        bridge_id: bridge_id_at(data, 17),
        port_id: bytes::be16(data, 25) as u16,
        message_age: bytes::be16(data, 27) as u16,
        max_age: bytes::be16(data, 29) as u16,
        hello_time: bytes::be16(data, 31) as u16,
        forward_delay: bytes::be16(data, 33) as u16,
        is_rstp: bpdu_type == BpduType::RstBpdu,
    }
}

/// The BPDU in the bytes behind an LLC header. `None` where the protocol is not
/// that of bridges, the type is unknown or the data end too early.
pub open spec fn bpdu_of(data: Seq<u8>, sender_mac: [u8; 6], vlan_id: Option<u16>) -> Option<Bpdu> {
    if data.len() < 4 || bytes::be16(data, 0) != 0 {
        None
    } else {
        match type_of(data[3]) {
            None => None,
            Some(BpduType::TcnBpdu) => Some(notification(sender_mac, vlan_id)),
            Some(bpdu_type) => if data.len() < 35 {
                None
            } else {
                Some(configuration(data, bpdu_type, sender_mac, vlan_id))
            },
        }
    }
}

/// Reads a BPDU from the bytes behind an LLC header.
pub fn parse_bpdu(data: &[u8], sender_mac: [u8; 6], vlan_id: Option<u16>) -> (r: Option<Bpdu>)
    ensures
        r == bpdu_of(data@, sender_mac, vlan_id),
{
    if data.len() < 4 {
        return None;
    }
    if data[0] != 0 || data[1] != 0 {
        return None;
    }
    let bpdu_type = match data[3] {
        0x00 => BpduType::ConfigBpdu,
        0x80 => BpduType::TcnBpdu,
        0x02 => BpduType::RstBpdu,
        _ => return None,
    };
    if bpdu_type == BpduType::TcnBpdu {
        return Some(
            Bpdu {
                bpdu_type,
                vlan_id,
                sender_mac,
                flags: BpduFlags::from_byte(0),
                root_id: BridgeId { priority: 0, mac: [0, 0, 0, 0, 0, 0] },
                root_path_cost: 0,
                bridge_id: BridgeId { priority: 0, mac: sender_mac },
                port_id: 0,
                message_age: 0,
                max_age: 0,
                hello_time: 0,
                forward_delay: 0,
                is_rstp: false,
            },
        );
    }
    if data.len() < 35 {
        return None;
    }
    let flags = BpduFlags::from_byte(data[4]);
    let root_id = parse_bridge_id(data, 5)?;
    let root_path_cost: u32 = bytes::read_u32(data, 13, true)?;
    let bridge_id = parse_bridge_id(data, 17)?;
    let port_id: u16 = bytes::read_u16(data, 25, true)?;
    let message_age: u16 = bytes::read_u16(data, 27, true)?;
    let max_age: u16 = bytes::read_u16(data, 29, true)?;
    let hello_time: u16 = bytes::read_u16(data, 31, true)?;
    let forward_delay: u16 = bytes::read_u16(data, 33, true)?;
    Some(
        Bpdu {
            bpdu_type,
            vlan_id,
            sender_mac,
            flags,
            root_id,
            root_path_cost,
            bridge_id,
            port_id,
            message_age,
            max_age,
            hello_time,
            forward_delay,
            is_rstp: bpdu_type == BpduType::RstBpdu,
        },
    )
}

/// The priority and the system identifier extension make up the priority field.
pub proof fn lemma_priority_splits(id: BridgeId)
    ensures
        id.priority_part() + id.priority % 4096 == id.priority,
        id.priority_part() % 4096 == 0,
        0 <= id.priority_part() <= 0xf000,
{
}

/// Which of two addresses of six bytes comes first.
pub open spec fn mac_before(a: Seq<u8>, b: Seq<u8>) -> bool {
    exists|i: int| 0 <= i < 6 && #[trigger] a[i] < b[i] && (forall|j: int| 0 <= j < i ==> a[j] == b[j])
}

/// Bridges are compared by priority and then by address: the number of one is
/// lower where its priority field is, or where the priority fields are the same
/// and its address comes first.
pub proof fn lemma_election_order(a: BridgeId, b: BridgeId)
    ensures
        a.number() < b.number() <==> a.priority < b.priority || (a.priority == b.priority
            && mac_before(a.mac@, b.mac@)),
        a.number() == b.number() <==> a.priority == b.priority && a.mac@ == b.mac@,
{
    let x = a.mac@;
    let y = b.mac@;
    assert(x.len() == 6 && y.len() == 6);
    assert(0 <= a.mac_number() < 0x1_0000_0000_0000);
    assert(0 <= b.mac_number() < 0x1_0000_0000_0000);
    if x[0] != y[0] {
    } else if x[1] != y[1] {
    } else if x[2] != y[2] {
    } else if x[3] != y[3] {
    } else if x[4] != y[4] {
    } else if x[5] != y[5] {
    } else {
        assert(x =~= y);
    }
    assert(a.mac_number() < b.mac_number() <==> mac_before(x, y)) by {
        if a.mac_number() < b.mac_number() {
            let i: int = if x[0] != y[0] {
                0
            } else if x[1] != y[1] {
                1
            } else if x[2] != y[2] {
                2
            } else if x[3] != y[3] {
                3
            } else if x[4] != y[4] {
                4
            } else {
                5
            };
            assert(x[i] < y[i]);
        }
        if mac_before(x, y) {
            let i = choose|i: int| 0 <= i < 6 && #[trigger] x[i] < y[i] && (forall|j: int| 0 <= j < i ==> x[j] == y[j]);
            assert(i == 0 || i == 1 || i == 2 || i == 3 || i == 4 || i == 5);
        }
    }
}

/// Two identifiers have the same text where their priorities and addresses are
/// the same; the system identifier extension does not matter.
pub proof fn lemma_text_identifies(a: BridgeId, b: BridgeId)
    ensures
        a.text() == b.text() <==> a.priority_part() == b.priority_part() && a.mac@ == b.mac@,
{
    if a.text() == b.text() {
        reveal_strlit("/");
        net::lemma_mac_text_places(a.mac@, 0);
        net::lemma_mac_text_places(b.mac@, 0);
        let s = a.text();
        let t = b.text();
        let n = s.len() - 17;
        assert(s.skip(n) =~= net::mac_text(a.mac@));
        assert(t.skip(n) =~= net::mac_text(b.mac@));
        net::lemma_mac_text_injective(a.mac@, b.mac@);
        assert(s.take(n - 1) =~= text::decimal(a.priority_part() as nat));
        assert(t.take(n - 1) =~= text::decimal(b.priority_part() as nat));
        text::lemma_decimal_injective(a.priority_part() as nat, b.priority_part() as nat);
    }
}

impl PortRole {
    /// The two bits that stand for the role.
    pub open spec fn bits(self) -> int {
        match self {
            PortRole::Unknown => 0,
            PortRole::AlternateBackup => 1,
            PortRole::Root => 2,
            PortRole::Designated => 3,
        }
    }
}

/// A flag as a bit.
pub open spec fn bit_value(flag: bool) -> int {
    if flag {
        1
    } else {
        0
    }
}

impl BpduFlags {
    /// The byte that holds the flags.
    pub open spec fn byte(self) -> u8 {
        (bit_value(self.tc) + 2 * bit_value(self.proposal) + 4 * self.port_role.bits() + 16
            * bit_value(self.learning) + 32 * bit_value(self.forwarding) + 64 * bit_value(
            self.agreement,
        ) + 128 * bit_value(self.tc_ack)) as u8
    }
}

/// A bit is a digit of the byte's binary form.
proof fn lemma_bits(b: u8)
    ensures
        bit(b, 0) == (b % 2 == 1),
        bit(b, 1) == (b / 2 % 2 == 1),
        bit(b, 4) == (b / 16 % 2 == 1),
        bit(b, 5) == (b / 32 % 2 == 1),
        bit(b, 6) == (b / 64 % 2 == 1),
        bit(b, 7) == (b / 128 % 2 == 1),
{
    assert((b >> 0) & 1 == b % 2) by (bit_vector);
    assert((b >> 1) & 1 == b / 2 % 2) by (bit_vector);
    assert((b >> 4) & 1 == b / 16 % 2) by (bit_vector);
    assert((b >> 5) & 1 == b / 32 % 2) by (bit_vector);
    assert((b >> 6) & 1 == b / 64 % 2) by (bit_vector);
    assert((b >> 7) & 1 == b / 128 % 2) by (bit_vector);
}

/// Flags are read as they were written.
proof fn lemma_flags_from_byte(flags: BpduFlags)
    ensures
        BpduFlags::of_byte(flags.byte()) == flags,
{
    let role = flags.port_role.bits();
    let upper = bit_value(flags.learning) + 2 * bit_value(flags.forwarding) + 4 * bit_value(
        flags.agreement,
    ) + 8 * bit_value(flags.tc_ack);
    let x = bit_value(flags.tc) + 2 * bit_value(flags.proposal) + 4 * role + 16 * upper;
    assert(0 <= role < 4 && 0 <= upper < 16);
    assert(flags.byte() == x);
    lemma_bits(flags.byte());
    assert(x % 2 == bit_value(flags.tc));
    assert(x / 2 == bit_value(flags.proposal) + 2 * role + 8 * upper);
    assert(x / 4 == role + 4 * upper);
    assert(x / 16 == upper);
    assert(x / 32 == bit_value(flags.forwarding) + 2 * bit_value(flags.agreement) + 4 * bit_value(
        flags.tc_ack,
    ));
    assert(x / 64 == bit_value(flags.agreement) + 2 * bit_value(flags.tc_ack));
    assert(x / 128 == bit_value(flags.tc_ack));
    let read = BpduFlags::of_byte(flags.byte());
    assert(read.port_role == flags.port_role);
    assert(read.learning == flags.learning);
    assert(read.forwarding == flags.forwarding);
    assert(read.agreement == flags.agreement);
}

/// Flags are read as they were written, and no part of the byte is lost.
pub proof fn lemma_flags_read_back(flags: BpduFlags, b: u8)
    ensures
        BpduFlags::of_byte(flags.byte()) == flags,
        BpduFlags::of_byte(b).byte() == b,
{
    lemma_flags_from_byte(flags);
    lemma_bits(b);
    assert(b == b % 2 + 2 * (b / 2 % 2) + 4 * (b / 4 % 4) + 16 * (b / 16 % 2) + 32 * (b / 32 % 2)
        + 64 * (b / 64 % 2) + 128 * (b / 128 % 2)) by (bit_vector);
    let read = BpduFlags::of_byte(b);
    assert(read.port_role.bits() == b / 4 % 4);
    assert(bit_value(read.tc) == b % 2 && bit_value(read.proposal) == b / 2 % 2);
    assert(bit_value(read.learning) == b / 16 % 2 && bit_value(read.forwarding) == b / 32 % 2);
    assert(bit_value(read.agreement) == b / 64 % 2 && bit_value(read.tc_ack) == b / 128 % 2);
}

impl BpduType {
    /// The type byte.
    pub open spec fn byte(self) -> u8 {
        match self {
            BpduType::ConfigBpdu => 0x00,
            BpduType::TcnBpdu => 0x80,
            BpduType::RstBpdu => 0x02,
        }
    }
}

impl BridgeId {
    /// The eight bytes of the identifier.
    pub open spec fn encoded(self) -> Seq<u8> {
        bytes::u16_bytes(self.priority, true) + self.mac@
    }
}

impl Bpdu {
    /// The bytes of a BPDU that is no notification. The version stands in the third.
    pub open spec fn encoded(self, version: u8) -> Seq<u8> {
        seq![0u8, 0u8, version, self.bpdu_type.byte(), self.flags.byte()] + self.root_id.encoded()
            + bytes::u32_bytes(self.root_path_cost, true) + self.bridge_id.encoded()
            + bytes::u16_bytes(self.port_id, true) + bytes::u16_bytes(self.message_age, true)
            + bytes::u16_bytes(self.max_age, true) + bytes::u16_bytes(self.hello_time, true)
            + bytes::u16_bytes(self.forward_delay, true)
    }
}

/// An identifier is read as it was written.
proof fn lemma_bridge_id_read_back(s: Seq<u8>, at: int, id: BridgeId)
    requires
        0 <= at,
        at + 8 <= s.len(),
        s.subrange(at, at + 8) == id.encoded(),
    ensures
        bridge_id_at(s, at) == id,
{
    let written = s.subrange(at, at + 8);
    assert(s.subrange(at, at + 2) =~= written.subrange(0, 2));
    assert(written.subrange(0, 2) =~= bytes::u16_bytes(id.priority, true));
    bytes::lemma_u16_read_back(s, at, id.priority, true);
    let mac = net::mac_at(s, at + 2);
    assert forall|i: int| 0 <= i < 6 implies mac@[i] == id.mac@[i] by {
        assert(written[i + 2] == id.mac@[i]);
        assert(s[at + 2 + i] == written[i + 2]);
    }
    assert(mac@ =~= id.mac@);
    assert(mac =~= id.mac);
}

/// A BPDU is read as it was written, whatever its version and whatever follows
/// it; the sender and the VLAN are those of the frame.
pub proof fn lemma_bpdu_read_back(b: Bpdu, version: u8, rest: Seq<u8>)
    requires
        b.bpdu_type != BpduType::TcnBpdu,
        b.is_rstp == (b.bpdu_type == BpduType::RstBpdu),
    ensures
        bpdu_of(b.encoded(version) + rest, b.sender_mac, b.vlan_id) == Some(b),
{
    let s = b.encoded(version) + rest;
    assert(s.len() >= 35);
    assert(s[0] == 0 && s[1] == 0 && s[3] == b.bpdu_type.byte() && s[4] == b.flags.byte());
    lemma_flags_read_back(b.flags, 0);
    assert(s.subrange(5, 13) =~= b.root_id.encoded());
    lemma_bridge_id_read_back(s, 5, b.root_id);
    assert(s.subrange(13, 17) =~= bytes::u32_bytes(b.root_path_cost, true));
    bytes::lemma_u32_read_back(s, 13, b.root_path_cost, true);
    assert(s.subrange(17, 25) =~= b.bridge_id.encoded());
    lemma_bridge_id_read_back(s, 17, b.bridge_id);
    assert(s.subrange(25, 27) =~= bytes::u16_bytes(b.port_id, true));
    bytes::lemma_u16_read_back(s, 25, b.port_id, true);
    assert(s.subrange(27, 29) =~= bytes::u16_bytes(b.message_age, true));
    bytes::lemma_u16_read_back(s, 27, b.message_age, true);
    assert(s.subrange(29, 31) =~= bytes::u16_bytes(b.max_age, true));
    bytes::lemma_u16_read_back(s, 29, b.max_age, true);
    assert(s.subrange(31, 33) =~= bytes::u16_bytes(b.hello_time, true));
    bytes::lemma_u16_read_back(s, 31, b.hello_time, true);
    assert(s.subrange(33, 35) =~= bytes::u16_bytes(b.forward_delay, true));
    bytes::lemma_u16_read_back(s, 33, b.forward_delay, true);
}

/// A notification is known by its first four bytes and says nothing but who sent
/// it.
pub proof fn lemma_notification_read_back(
    version: u8,
    rest: Seq<u8>,
    sender_mac: [u8; 6],
    vlan_id: Option<u16>,
)
    ensures
        bpdu_of(
            seq![0u8, 0u8, version, BpduType::TcnBpdu.byte()] + rest,
            sender_mac,
            vlan_id,
        ) == Some(notification(sender_mac, vlan_id)),
{
}

/// What follows the first 35 bytes changes nothing, nor does the version.
pub proof fn lemma_rest_ignored(
    data: Seq<u8>,
    other: Seq<u8>,
    sender_mac: [u8; 6],
    vlan_id: Option<u16>,
)
    requires
        data.len() >= 35,
        other.len() >= 35,
        forall|i: int| 0 <= i < 35 && i != 2 ==> data[i] == other[i],
    ensures
        bpdu_of(data, sender_mac, vlan_id) == bpdu_of(other, sender_mac, vlan_id),
{
}

/// Whatever is read carries the sender and the VLAN of the frame, and only an RST
/// BPDU is one of RSTP.
pub proof fn lemma_frame_fields_kept(
    data: Seq<u8>,
    sender_mac: [u8; 6],
    vlan_id: Option<u16>,
)
    ensures
        bpdu_of(data, sender_mac, vlan_id) matches Some(b) ==> b.sender_mac == sender_mac
            && b.vlan_id == vlan_id && b.is_rstp == (b.bpdu_type == BpduType::RstBpdu),
{
}

/// Where a BPDU can be read at all: the protocol is 0, and either the type is that of a
/// notification or it is one of the two others and no field is missing.
pub proof fn lemma_readable(data: Seq<u8>, sender_mac: [u8; 6], vlan_id: Option<u16>)
    ensures
        bpdu_of(data, sender_mac, vlan_id) is Some <==> {
            &&& data.len() >= 4
            &&& data[0] == 0
            &&& data[1] == 0
            &&& data[3] == 0x80 || ((data[3] == 0 || data[3] == 2) && data.len() >= 35)
        },
{
}

/// Where the fields of a BPDU stand in its bytes. Each bit of the flags has its own
/// meaning, and all numbers are most significant byte first.
pub proof fn lemma_fields_in_bytes(data: Seq<u8>, sender_mac: [u8; 6], vlan_id: Option<u16>)
    ensures
        bpdu_of(data, sender_mac, vlan_id) matches Some(b) ==> {
            &&& b.sender_mac == sender_mac
            &&& b.vlan_id == vlan_id
            &&& data[3] == 0 <==> b.bpdu_type == BpduType::ConfigBpdu
            &&& data[3] == 2 <==> b.bpdu_type == BpduType::RstBpdu
            &&& data[3] == 0x80 <==> b.bpdu_type == BpduType::TcnBpdu
            &&& b.is_rstp <==> data[3] == 2
            &&& data[3] != 0x80 ==> {
                &&& b.flags.tc <==> data[4] % 2 == 1
                &&& b.flags.proposal <==> data[4] / 2 % 2 == 1
                &&& b.flags.port_role == PortRole::Unknown <==> data[4] / 4 % 4 == 0
                &&& b.flags.port_role == PortRole::AlternateBackup <==> data[4] / 4 % 4 == 1
                &&& b.flags.port_role == PortRole::Root <==> data[4] / 4 % 4 == 2
                &&& b.flags.port_role == PortRole::Designated <==> data[4] / 4 % 4 == 3
                &&& b.flags.learning <==> data[4] / 16 % 2 == 1
                &&& b.flags.forwarding <==> data[4] / 32 % 2 == 1
                &&& b.flags.agreement <==> data[4] / 64 % 2 == 1
                &&& b.flags.tc_ack <==> data[4] / 128 == 1
                &&& b.root_id.priority == data[5] * 256 + data[6]
                &&& b.root_id.mac@ == data.subrange(7, 13)
                &&& b.root_path_cost == ((data[13] * 256 + data[14]) * 256 + data[15]) * 256 + data[16]
                &&& b.bridge_id.priority == data[17] * 256 + data[18]
                &&& b.bridge_id.mac@ == data.subrange(19, 25)
                &&& b.port_id == data[25] * 256 + data[26]
                &&& b.message_age == data[27] * 256 + data[28]
                &&& b.max_age == data[29] * 256 + data[30]
                &&& b.hello_time == data[31] * 256 + data[32]
                &&& b.forward_delay == data[33] * 256 + data[34]
            }
            &&& data[3] == 0x80 ==> {
                &&& !b.flags.tc && !b.flags.proposal && !b.flags.learning && !b.flags.forwarding
                &&& !b.flags.agreement && !b.flags.tc_ack
                &&& b.flags.port_role == PortRole::Unknown
                &&& b.root_id.priority == 0 && b.bridge_id.priority == 0
                &&& b.root_id.mac@ == seq![0u8, 0u8, 0u8, 0u8, 0u8, 0u8]
                &&& b.bridge_id.mac@ == sender_mac@
                &&& b.root_path_cost == 0 && b.port_id == 0
                &&& b.message_age == 0 && b.max_age == 0
                &&& b.hello_time == 0 && b.forward_delay == 0
            }
        },
{
    if let Some(b) = bpdu_of(data, sender_mac, vlan_id) {
        if data[3] == 0x80 {
            lemma_bits(0);
            assert(b.root_id.mac@ =~= seq![0u8, 0u8, 0u8, 0u8, 0u8, 0u8]);
        } else {
            lemma_bits(data[4]);
            assert(b.root_id.mac@ =~= data.subrange(7, 13));
            assert(b.bridge_id.mac@ =~= data.subrange(19, 25));
        }
    }
}

/// The text of an identifier is its priority in decimal, without the extension, a slash
/// and its address.
pub proof fn lemma_text_form(id: BridgeId)
    ensures
        id.text() == text::decimal((id.priority / 4096 * 4096) as nat) + "/"@ + net::mac_text(id.mac@),
{
}

/// A BPDU takes its sender for the root where both identifiers are the same in all
/// their bits, and so have the same number.
pub proof fn lemma_claims_root(b: Bpdu)
    ensures
        b.claims_root() <==> b.root_id.priority == b.bridge_id.priority && b.root_id.mac@ == b.bridge_id.mac@,
        b.claims_root() <==> b.root_id.number() == b.bridge_id.number(),
{
    lemma_election_order(b.root_id, b.bridge_id);
}

/// A role stands for itself in the lower two bits of any number.
pub proof fn lemma_role_bits(role: PortRole, k: nat)
    ensures
        PortRole::of_bits(role.bits() + 4 * k) == role,
        role.bits() == match role {
            PortRole::Unknown => 0int,
            PortRole::AlternateBackup => 1,
            PortRole::Root => 2,
            PortRole::Designated => 3,
        },
{
}

/// An identifier has its priority in its first two bytes and its address in the six behind
/// them, and its number is that of all eight, the first of them being worth the most.
pub proof fn lemma_bridge_id_bytes(s: Seq<u8>, at: int)
    requires
        0 <= at,
        at + 8 <= s.len(),
    ensures
        ({
            let id = bridge_id_at(s, at);
            &&& id.priority == s[at] * 256 + s[at + 1]
            &&& id.mac@ == s.subrange(at + 2, at + 8)
            &&& id.number() == bytes::u64_at(s, at, true)
            &&& id.number() / 0x1_0000_0000_0000 == id.priority
        }),
{
    let id = bridge_id_at(s, at);
    assert(id.mac@ =~= s.subrange(at + 2, at + 8));
    assert(0 <= id.mac_number() < 0x1_0000_0000_0000);
}

} // verus!
