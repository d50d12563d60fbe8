//! Capture files of the PCAPng format.

use vstd::arithmetic::div_mod::*;
use vstd::arithmetic::power::*;
use vstd::prelude::*;
use vstd::slice::*;
use vstd::string::*;

use crate::bytes;
use crate::text;

verus! {

pub const BYTE_ORDER_MAGIC: u32 = 0x1A2B3C4D;

pub const BYTE_ORDER_MAGIC_SWAPPED: u32 = 0x4D3C2B1A;

/// Section Header Block. Its number is the same in both byte orders.
pub const BLOCK_SHB: u32 = 0x0A0D0D0A;

/// Interface Description Block.
pub const BLOCK_IDB: u32 = 0x00000001;

/// Obsolete Packet Block.
pub const BLOCK_OPB: u32 = 0x00000002;

/// Simple Packet Block.
pub const BLOCK_SPB: u32 = 0x00000003;

/// Enhanced Packet Block.
pub const BLOCK_EPB: u32 = 0x00000006;

/// What a section says of an interface.
#[derive(Debug, Clone, Copy, PartialEq, Eq, Structural)]
pub struct Interface {
    pub link_type: u16,
    /// A tick of the clock is `10^-ts_resol` seconds; where the top bit is set, it is
    /// `2^-n` seconds, with the other bits for `n`.
    pub ts_resol: u8,
    /// Seconds to add to each time.
    pub ts_offset: u64,
}

/// Ticks in a second.
pub open spec fn ticks_per_second(ts_resol: u8) -> nat {
    if ts_resol < 128 {
        pow(10, ts_resol as nat) as nat
    } else {
        pow(2, (ts_resol - 128) as nat) as nat
    }
}

/// A second has at least one tick.
proof fn lemma_second_has_ticks(ts_resol: u8)
    ensures
        ticks_per_second(ts_resol) > 0,
{
    if ts_resol < 128 {
        lemma_pow_positive(10, ts_resol as nat);
    } else {
        lemma_pow_positive(2, (ts_resol - 128) as nat);
    }
}

/// The part of a second is less than a million millionths.
proof fn lemma_millionths(part: nat, second: nat)
    requires
        part < second,
    ensures
        part * 1_000_000 / second < 1_000_000,
{
    let scaled = part * 1_000_000;
    assert(scaled / second < 1_000_000) by (nonlinear_arith)
        requires
            0 <= scaled < 1_000_000 * second,
            0 < second,
    ;
}

/// A microsecond of a clock with more ticks in a second is longer than `2^64`
/// ticks.
const MANY_TICKS: u128 = 0xF4240_0000_0000_0000_0000;

/// Ticks in a second, or `None` where there are more than [`MANY_TICKS`].
fn count_ticks(ts_resol: u8) -> (r: Option<u128>)
    ensures
        match r {
            Some(ticks) => ticks == ticks_per_second(ts_resol),
            None => ticks_per_second(ts_resol) > MANY_TICKS,
        },
{
    let (base, n): (u128, u8) = if ts_resol < 128 {
        (10, ts_resol)
    } else {
        (2, ts_resol - 128)
    };
    let mut ticks: u128 = 1;
    let mut i: u8 = 0;
    proof {
        lemma_pow0(base as int);
        lemma_second_has_ticks(ts_resol);
        lemma_pow_positive(base as int, n as nat);
    }
    while i < n
        invariant
            i <= n,
            base == 10 || base == 2,
            ticks == pow(base as int, i as nat),
            ticks_per_second(ts_resol) == pow(base as int, n as nat),
            ticks <= 10 * MANY_TICKS,
        decreases n - i,
    {
        if ticks > MANY_TICKS {
            proof {
                lemma_pow_increases(base as nat, i as nat, n as nat);
            }
            return None;
        }
        proof {
            lemma_pow_adds(base as int, 1, i as nat);
            lemma_pow1(base as int);
        }
        ticks = base * ticks;
        i = i + 1;
    }
    Some(ticks)
}

impl Interface {
    /// The interface that is taken where a section describes none: Ethernet, with
    /// a clock in microseconds.
    pub open spec fn assumed() -> Interface {
        Interface { link_type: 1, ts_resol: 6, ts_offset: 0 }
    }

    /// Seconds and microseconds of a time in ticks. The seconds are cut to 32 bits.
    pub open spec fn stamp(self, ts: nat) -> (u32, u32) {
        let second = ticks_per_second(self.ts_resol);
        (
            ((ts / second + self.ts_offset as nat) % 0x1_0000_0000) as u32,
            ((ts % second) * 1_000_000 / second) as u32,
        )
    }

    /// Seconds and microseconds of a time in ticks.
    pub fn ts_to_secs_usecs(&self, ts: u64) -> (r: (u32, u32))
        ensures
            r == self.stamp(ts as nat),
    {
        proof {
            lemma_second_has_ticks(self.ts_resol);
        }
        let ghost second = ticks_per_second(self.ts_resol);
        match count_ticks(self.ts_resol) {
            Some(ticks) => {
                let ts: u128 = ts as u128;
                let part: u128 = ts % ticks;
                proof {
                    lemma_mod_decreases(ts as nat, second);
                    lemma_millionths(part as nat, second);
                }
                let sec: u128 = (ts / ticks + self.ts_offset as u128) % 0x1_0000_0000;
                (sec as u32, (part * 1_000_000 / ticks) as u32)
            },
            None => {
                proof {
                    lemma_basic_div(ts as int, second as int);
                    lemma_small_mod(ts as nat, second);
                    lemma_basic_div(ts * 1_000_000, second as int);
                }
                ((self.ts_offset % 0x1_0000_0000) as u32, 0)
            },
        }
    }
}

/// A length rounded up to whole words of four bytes.
pub open spec fn padded(len: nat) -> nat {
    (len + 3) / 4 * 4
}

/// Resolution and offset of a clock after the options from `at` up to `end` have
/// been applied, in their order. Option 9 sets the resolution and option 14 the
/// offset; option 0 ends the list.
pub open spec fn clock_options(
    block: Seq<u8>,
    at: int,
    end: int,
    big_endian: bool,
    ts_resol: u8,
    ts_offset: u64,
) -> (u8, u64)
    decreases
            if at <= end {
                end - at
            } else {
                0
            },
{
    if at + 4 > end {
        (ts_resol, ts_offset)
    } else {
        let code = bytes::u16_at(block, at, big_endian);
        let len = bytes::u16_at(block, at + 2, big_endian);
        let value = at + 4;
        let inside = value + len <= end;
        if code == 0 {
            (ts_resol, ts_offset)
        } else {
            clock_options(
                block,
                value + padded(len),
                end,
                big_endian,
                if inside && code == 9 && len >= 1 {
                    block[value]
                } else {
                    ts_resol
                },
                if inside && code == 14 && len >= 8 {
                    bytes::u64_at(block, value, big_endian) as u64
                } else {
                    ts_offset
                },
            )
        }
    }
}

/// The interface that a description block describes.
pub open spec fn described(block: Seq<u8>, big_endian: bool) -> Interface {
    let (ts_resol, ts_offset) = clock_options(block, 16, block.len() - 4, big_endian, 6, 0);
    Interface { link_type: bytes::u16_at(block, 8, big_endian) as u16, ts_resol, ts_offset }
}

/// What a block does to the reading of a file.
#[derive(Debug)]
pub enum Step<D> {
    /// Nothing.
    Skip,
    /// A section begins, in this byte order.
    Section(bool),
    /// A section begins whose byte order cannot be told.
    BadOrder(u32),
    /// An interface is described.
    Describe(Interface),
    /// A packet with its time.
    Packet(u32, u32, D),
}

/// The interface of that number, or the assumed one.
pub open spec fn interface_at(interfaces: Seq<Interface>, id: nat) -> Interface {
    if id < interfaces.len() {
        interfaces[id as int]
    } else {
        Interface::assumed()
    }
}

/// The packet of a block with a time, captured at `interface`. Only Ethernet is
/// of interest, and only data that lie inside the block.
pub open spec fn stamped_packet(
    block: Seq<u8>,
    interface: Interface,
    big_endian: bool,
) -> Step<Seq<u8>> {
    let ticks = bytes::u32_at(block, 12, big_endian) * 0x1_0000_0000 + bytes::u32_at(
        block,
        16,
        big_endian,
    );
    let end = 28 + bytes::u32_at(block, 20, big_endian);
    if interface.link_type != 1 || end > block.len() - 4 {
        Step::Skip
    } else {
        let (sec, usec) = interface.stamp(ticks);
        Step::Packet(sec, usec, block.subrange(28, end as int))
    }
}

/// The packet of a block without a time.
pub open spec fn simple_packet(
    block: Seq<u8>,
    interface: Interface,
    big_endian: bool,
) -> Step<Seq<u8>> {
    let original = bytes::u32_at(block, 8, big_endian) as int;
    let room = block.len() - 16;
    let captured = if original < room {
        original
    } else {
        room
    };
    if interface.link_type == 1 && captured > 0 {
        Step::Packet(0, 0, block.subrange(12, 12 + captured))
    } else {
        Step::Skip
    }
}

/// What a whole block does.
pub open spec fn step_of(
    block_type: nat,
    block: Seq<u8>,
    big_endian: bool,
    interfaces: Seq<Interface>,
) -> Step<Seq<u8>> {
    if block_type == BLOCK_SHB && block.len() >= 16 {
        let order = bytes::le32(block, 8);
        if order == BYTE_ORDER_MAGIC {
            Step::Section(false)
        } else if order == BYTE_ORDER_MAGIC_SWAPPED {
            Step::Section(true)
        } else {
            Step::BadOrder(order as u32)
        }
    } else if block_type == BLOCK_IDB && block.len() >= 20 {
        Step::Describe(described(block, big_endian))
    } else if block_type == BLOCK_EPB && block.len() >= 32 {
        stamped_packet(
            block,
            interface_at(interfaces, bytes::u32_at(block, 8, big_endian)),
            big_endian,
        )
    } else if block_type == BLOCK_OPB && block.len() >= 32 {
        stamped_packet(
            block,
            interface_at(interfaces, bytes::u16_at(block, 8, big_endian)),
            big_endian,
        )
    } else if block_type == BLOCK_SPB && block.len() >= 16 {
        simple_packet(block, interface_at(interfaces, 0), big_endian)
    } else {
        Step::Skip
    }
}

/// The byte order that a section header at the beginning of `s` announces. An
/// unknown magic number counts as little-endian.
pub open spec fn section_order(s: Seq<u8>) -> bool {
    s.len() >= 12 && bytes::be32(s, 8) == BYTE_ORDER_MAGIC
}

/// The length of the block at the beginning of `s`. That of a section header is in
/// the byte order which the header announces.
pub open spec fn block_len(s: Seq<u8>, big_endian: bool) -> nat {
    if bytes::u32_at(s, 0, big_endian) == BLOCK_SHB {
        bytes::u32_at(s, 4, section_order(s))
    } else {
        bytes::u32_at(s, 4, big_endian)
    }
}

/// Whether `s` begins with a block that is there as a whole.
pub open spec fn has_block(s: Seq<u8>, big_endian: bool) -> bool {
    s.len() >= 8 && 12 <= block_len(s, big_endian) <= s.len()
}

/// What comes of reading blocks.
pub enum Scan<P> {
    Packets(P),
    BadOrder(u32),
}

/// As `scan`, with packets that were read before.
pub open spec fn after_packets(
    before: Seq<(u32, u32, Seq<u8>)>,
    scan: Scan<Seq<(u32, u32, Seq<u8>)>>,
) -> Scan<Seq<(u32, u32, Seq<u8>)>> {
    match scan {
        Scan::Packets(packets) => Scan::Packets(before + packets),
        other => other,
    }
}

/// What comes of reading the blocks of `s`, up to one that is cut off. A section
/// header sets the byte order and forgets the interfaces of the section before.
#[verifier::opaque]
pub open spec fn scan_of(
    s: Seq<u8>,
    big_endian: bool,
    interfaces: Seq<Interface>,
) -> Scan<Seq<(u32, u32, Seq<u8>)>>
    decreases s.len(),
{
    if !has_block(s, big_endian) {
        Scan::Packets(Seq::empty())
    } else {
        let len = block_len(s, big_endian) as int;
        let rest = s.skip(len);
        match step_of(bytes::u32_at(s, 0, big_endian), s.take(len), big_endian, interfaces) {
            Step::Skip => scan_of(rest, big_endian, interfaces),
            Step::Section(order) => scan_of(rest, order, Seq::empty()),
            Step::BadOrder(order) => Scan::BadOrder(order),
            Step::Describe(interface) => scan_of(rest, big_endian, interfaces.push(interface)),
            Step::Packet(sec, usec, data) => after_packets(
                seq![(sec, usec, data)],
                scan_of(rest, big_endian, interfaces),
            ),
        }
    }
}

/// Whether a file announces itself as PCAPng.
pub open spec fn is_pcapng_file(s: Seq<u8>) -> bool {
    s.len() >= 4 && bytes::le32(s, 0) == BLOCK_SHB
}

/// The packets of a PCAPng file, or why there are none.
pub open spec fn capture_of(s: Seq<u8>) -> Result<Seq<(u32, u32, Seq<u8>)>, Seq<char>> {
    if s.len() < 12 {
        Err("File too short for PCAPng"@)
    } else if !is_pcapng_file(s) {
        Err("Not a PCAPng file (magic: 0x"@ + text::hex(bytes::le32(s, 0), 8) + ")"@)
    } else {
        match scan_of(s, false, Seq::empty()) {
            Scan::BadOrder(order) => Err("Invalid BOM: 0x"@ + text::hex(order as nat, 8)),
            Scan::Packets(packets) => Ok(packets),
        }
    }
}

/// Reads the clock options of a description block.
fn read_clock_options(block: &[u8], big_endian: bool) -> (r: (u8, u64))
    requires
        block@.len() >= 20,
    ensures
        r == clock_options(block@, 16, block@.len() - 4, big_endian, 6, 0),
{
    let end: usize = block.len() - 4;
    let mut at: usize = 16;
    let mut ts_resol: u8 = 6;
    let mut ts_offset: u64 = 0;
    while at <= end && end - at >= 4
        invariant
            end == block@.len() - 4,
            clock_options(block@, 16, end as int, big_endian, 6, 0) == clock_options(
                block@,
                at as int,
                end as int,
                big_endian,
                ts_resol,
                ts_offset,
            ),
        decreases end + 4 - at,
    {
        let code: u16 = match bytes::read_u16(block, at, big_endian) {
            Some(v) => v,
            None => 0,
        };
        let len: usize = match bytes::read_u16(block, at + 2, big_endian) {
            Some(v) => v as usize,
            None => 0,
        };
        if code == 0 {
            return (ts_resol, ts_offset);
        }
        let value: usize = at + 4;
        if len <= end - value {
            if code == 9 && len >= 1 {
                ts_resol = block[value];
            }
            if code == 14 && len >= 8 {
                ts_offset = match bytes::read_u64(block, value, big_endian) {
                    Some(v) => v,
                    None => 0,
                };
            }
        }
        let pad: usize = (len + 3) / 4 * 4;
        if pad > end - value {
            assert(clock_options(
                block@,
                value + padded(len as nat),
                end as int,
                big_endian,
                ts_resol,
                ts_offset,
            ) == (ts_resol, ts_offset));
            return (ts_resol, ts_offset);
        }
        at = value + pad;
    }
    (ts_resol, ts_offset)
}

impl View for Step<Vec<u8>> {
    type V = Step<Seq<u8>>;

    open spec fn view(&self) -> Step<Seq<u8>> {
        match self {
            Step::Skip => Step::Skip,
            Step::Section(order) => Step::Section(*order),
            Step::BadOrder(order) => Step::BadOrder(*order),
            Step::Describe(interface) => Step::Describe(*interface),
            Step::Packet(sec, usec, data) => Step::Packet(*sec, *usec, data@),
        }
    }
}

/// The interface of that number, or the assumed one.
fn get_interface(interfaces: &Vec<Interface>, id: usize) -> (r: Interface)
    ensures
        r == interface_at(interfaces@, id as nat),
{
    if id < interfaces.len() {
        interfaces[id]
    } else {
        Interface { link_type: 1, ts_resol: 6, ts_offset: 0 }
    }
}

/// Four bytes inside a block.
fn word(block: &[u8], at: usize, big_endian: bool) -> (r: u32)
    requires
        at + 4 <= block@.len(),
    ensures
        r == bytes::u32_at(block@, at as int, big_endian),
{
    match bytes::read_u32(block, at, big_endian) {
        Some(v) => v,
        None => 0,
    }
}

/// Takes the packet out of a block with a time.
fn read_stamped_packet(block: &[u8], interface: Interface, big_endian: bool) -> (r: Step<Vec<u8>>)
    requires
        block@.len() >= 32,
    ensures
        r@ == stamped_packet(block@, interface, big_endian),
{
    let high: u64 = word(block, 12, big_endian) as u64;
    let low: u64 = word(block, 16, big_endian) as u64;
    let captured: usize = word(block, 20, big_endian) as usize;
    let ticks: u64 = high * 0x1_0000_0000 + low;
    if interface.link_type != 1 || captured > block.len() - 32 {
        return Step::Skip;
    }
    let (sec, usec) = interface.ts_to_secs_usecs(ticks);
    Step::Packet(sec, usec, slice_to_vec(&block[28..28 + captured]))
}

/// Takes the packet out of a block without a time.
fn read_simple_packet(block: &[u8], interface: Interface, big_endian: bool) -> (r: Step<Vec<u8>>)
    requires
        block@.len() >= 16,
    ensures
        r@ == simple_packet(block@, interface, big_endian),
{
    let original: usize = word(block, 8, big_endian) as usize;
    let room: usize = block.len() - 16;
    let captured: usize = if original < room { original } else { room };
    if interface.link_type == 1 && captured > 0 {
        Step::Packet(0, 0, slice_to_vec(&block[12..12 + captured]))
    } else {
        Step::Skip
    }
}

/// Reads a whole block.
fn read_block(
    block_type: u32,
    block: &[u8],
    big_endian: bool,
    interfaces: &Vec<Interface>,
) -> (r: Step<Vec<u8>>)
    ensures
        r@ == step_of(block_type as nat, block@, big_endian, interfaces@),
{
    if block_type == BLOCK_SHB && block.len() >= 16 {
        let order: u32 = word(block, 8, false);
        if order == BYTE_ORDER_MAGIC {
            Step::Section(false)
        } else if order == BYTE_ORDER_MAGIC_SWAPPED {
            Step::Section(true)
        } else {
            Step::BadOrder(order)
        }
    } else if block_type == BLOCK_IDB && block.len() >= 20 {
        let link_type: u16 = match bytes::read_u16(block, 8, big_endian) {
            Some(v) => v,
            None => 1,
        };
        let (ts_resol, ts_offset) = read_clock_options(block, big_endian);
        Step::Describe(Interface { link_type, ts_resol, ts_offset })
    } else if block_type == BLOCK_EPB && block.len() >= 32 {
        let id: usize = word(block, 8, big_endian) as usize;
        read_stamped_packet(block, get_interface(interfaces, id), big_endian)
    } else if block_type == BLOCK_OPB && block.len() >= 32 {
        let id: usize = match bytes::read_u16(block, 8, big_endian) {
            Some(v) => v as usize,
            None => 0,
        };
        read_stamped_packet(block, get_interface(interfaces, id), big_endian)
    } else if block_type == BLOCK_SPB && block.len() >= 16 {
        read_simple_packet(block, get_interface(interfaces, 0), big_endian)
    } else {
        Step::Skip
    }
}

/// The packets, without the places where they are kept.
pub open spec fn packet_views(packets: Seq<(u32, u32, Vec<u8>)>) -> Seq<(u32, u32, Seq<u8>)> {
    packets.map_values(|p: (u32, u32, Vec<u8>)| (p.0, p.1, p.2@))
}

impl View for Scan<Vec<(u32, u32, Vec<u8>)>> {
    type V = Scan<Seq<(u32, u32, Seq<u8>)>>;

    open spec fn view(&self) -> Scan<Seq<(u32, u32, Seq<u8>)>> {
        match self {
            Scan::Packets(packets) => Scan::Packets(packet_views(packets@)),
            Scan::BadOrder(order) => Scan::BadOrder(*order),
        }
    }
}

/// Reads the type and the length of a block.
fn read_block_head(rest: &[u8], big_endian: bool) -> (r: (u32, u32))
    requires
        rest@.len() >= 8,
    ensures
        r.0 == bytes::u32_at(rest@, 0, big_endian),
        has_block(rest@, big_endian) <==> 12 <= r.1 <= rest@.len(),
        has_block(rest@, big_endian) ==> r.1 == block_len(rest@, big_endian),
{
    let block_type: u32 = word(rest, 0, big_endian);
    let order: bool = if block_type == BLOCK_SHB {
        // The header itself tells in which order its length is written.
        rest.len() >= 12 && word(rest, 8, true) == BYTE_ORDER_MAGIC
    } else {
        big_endian
    };
    (block_type, word(rest, 4, order))
}

/// What comes of the first block.
pub proof fn lemma_scan_first(s: Seq<u8>, big_endian: bool, interfaces: Seq<Interface>)
    ensures
        !has_block(s, big_endian) ==> scan_of(s, big_endian, interfaces) == Scan::<
            Seq<(u32, u32, Seq<u8>)>,
        >::Packets(Seq::empty()),
        has_block(s, big_endian) ==> ({
            let len = block_len(s, big_endian) as int;
            let rest = s.skip(len);
            scan_of(s, big_endian, interfaces) == match step_of(
                bytes::u32_at(s, 0, big_endian),
                s.take(len),
                big_endian,
                interfaces,
            ) {
                Step::Skip => scan_of(rest, big_endian, interfaces),
                Step::Section(order) => scan_of(rest, order, Seq::empty()),
                Step::BadOrder(order) => Scan::BadOrder(order),
                Step::Describe(interface) => scan_of(rest, big_endian, interfaces.push(interface)),
                Step::Packet(sec, usec, data) => after_packets(
                    seq![(sec, usec, data)],
                    scan_of(rest, big_endian, interfaces),
                ),
            }
        }),
{
    reveal(scan_of);
}

/// Packets that were read before, with one more behind them.
proof fn lemma_one_more_packet(
    before: Seq<(u32, u32, Seq<u8>)>,
    packet: (u32, u32, Seq<u8>),
    scan: Scan<Seq<(u32, u32, Seq<u8>)>>,
)
    ensures
        after_packets(before, after_packets(seq![packet], scan)) == after_packets(
            before.push(packet),
            scan,
        ),
        after_packets(
            before,
            Scan::<Seq<(u32, u32, Seq<u8>)>>::Packets(Seq::empty()),
        ) == Scan::<Seq<(u32, u32, Seq<u8>)>>::Packets(before),
        after_packets(Seq::empty(), scan) == scan,
{
    if let Scan::Packets(packets) = scan {
        assert(before + (seq![packet] + packets) =~= before.push(packet) + packets);
        assert(Seq::empty() + packets =~= packets);
    }
    assert(before + Seq::empty() =~= before);
}

/// Reads the blocks of a file.
fn scan_blocks(data: &[u8]) -> (r: Scan<Vec<(u32, u32, Vec<u8>)>>)
    ensures
        r@ == scan_of(data@, false, Seq::empty()),
{
    let mut rest: &[u8] = data;
    let mut big_endian: bool = false;
    let mut interfaces: Vec<Interface> = Vec::new();
    let mut packets: Vec<(u32, u32, Vec<u8>)> = Vec::new();
    let ghost whole = scan_of(data@, false, Seq::empty());
    proof {
        assert(packet_views(packets@) =~= Seq::empty());
        lemma_one_more_packet(Seq::empty(), arbitrary(), whole);
    }
    while rest.len() >= 8
        invariant
            whole == scan_of(data@, false, Seq::empty()),
            whole == after_packets(
                packet_views(packets@),
                scan_of(rest@, big_endian, interfaces@),
            ),
        ensures
            !has_block(rest@, big_endian),
        decreases rest@.len(),
    {
        let (block_type, len) = read_block_head(rest, big_endian);
        if len < 12 || len as usize > rest.len() {
            break;
        }
        let block = &rest[0..len as usize];
        let after = &rest[len as usize..rest.len()];
        proof {
            assert(block@ =~= rest@.take(len as int));
            assert(after@ =~= rest@.skip(len as int));
            lemma_scan_first(rest@, big_endian, interfaces@);
        }
        match read_block(block_type, block, big_endian, &interfaces) {
            Step::Skip => {},
            Step::Section(order) => {
                big_endian = order;
                interfaces.clear();
                assert(interfaces@ =~= Seq::empty());
            },
            Step::BadOrder(order) => {
                return Scan::BadOrder(order);
            },
            Step::Describe(interface) => {
                interfaces.push(interface);
            },
            Step::Packet(sec, usec, payload) => {
                let ghost before = packet_views(packets@);
                let ghost packet = (sec, usec, payload@);
                packets.push((sec, usec, payload));
                proof {
                    assert(packet_views(packets@) =~= before.push(packet));
                    lemma_one_more_packet(
                        before,
                        packet,
                        scan_of(after@, big_endian, interfaces@),
                    );
                }
            },
        }
        rest = after;
    }
    proof {
        lemma_scan_first(rest@, big_endian, interfaces@);
        lemma_one_more_packet(packet_views(packets@), arbitrary(), whole);
    }
    Scan::Packets(packets)
}

/// Whether a file announces itself as PCAPng.
pub fn is_pcapng(data: &[u8]) -> (r: bool)
    ensures
        r == is_pcapng_file(data@),
{
    match bytes::read_u32(data, 0, false) {
        Some(magic) => magic == BLOCK_SHB,
        None => false,
    }
}

/// Reads the packets of a PCAPng file: seconds, microseconds and data of each.
pub fn parse_pcapng(data: &[u8]) -> (r: Result<Vec<(u32, u32, Vec<u8>)>, String>)
    ensures
        match r {
            Ok(packets) => capture_of(data@) == Ok::<_, Seq<char>>(packet_views(packets@)),
            Err(message) => capture_of(data@) == Err::<Seq<(u32, u32, Seq<u8>)>, _>(message@),
        },
{
    if data.len() < 12 {
        return Err("File too short for PCAPng".to_string());
    }
    let magic: u32 = word(data, 0, false);
    if magic != BLOCK_SHB {
        let mut message = String::new();
        message.append("Not a PCAPng file (magic: 0x");
        text::push_hex(&mut message, magic, 8);
        message.append(")");
        assert(message@ =~= "Not a PCAPng file (magic: 0x"@ + text::hex(magic as nat, 8) + ")"@);
        return Err(message);
    }
    match scan_blocks(data) {
        Scan::Packets(packets) => Ok(packets),
        Scan::BadOrder(order) => {
            let mut message = String::new();
            message.append("Invalid BOM: 0x");
            text::push_hex(&mut message, order, 8);
            assert(message@ =~= "Invalid BOM: 0x"@ + text::hex(order as nat, 8));
            Err(message)
        },
    }
}

/// The microseconds of a time are less than a second, whatever the clock.
pub proof fn lemma_less_than_a_second(interface: Interface, ts: nat)
    ensures
        interface.stamp(ts).1 < 1_000_000,
{
    let second = ticks_per_second(interface.ts_resol);
    lemma_second_has_ticks(interface.ts_resol);
    lemma_millionths(ts % second, second);
}

/// A clock without offset tells whole seconds as they were, and the rest in
/// microseconds, cut off.
pub proof fn lemma_clock_tells_time(interface: Interface, sec: u32, part: nat)
    requires
        interface.ts_offset == 0,
        part < ticks_per_second(interface.ts_resol),
    ensures
        ({
            let second = ticks_per_second(interface.ts_resol);
            interface.stamp(sec as nat * second + part) == (
                sec,
                (part * 1_000_000 / second) as u32,
            )
        }),
{
    let second = ticks_per_second(interface.ts_resol);
    let ts = sec as nat * second + part;
    lemma_fundamental_div_mod_converse(ts as int, second as int, sec as int, part as int);
}

/// A clock in microseconds tells the time as it was.
pub proof fn lemma_microseconds(interface: Interface, sec: u32, usec: u32)
    requires
        interface.ts_resol == 6,
        interface.ts_offset == 0,
        usec < 1_000_000,
    ensures
        interface.stamp((sec * 1_000_000 + usec) as nat) == (sec, usec),
{
    assert(pow(10, 6) == 1_000_000) by {
        reveal_with_fuel(pow, 7);
    }
    lemma_clock_tells_time(interface, sec, usec as nat);
}

/// A clock in nanoseconds tells the time as it was, cut to microseconds.
pub proof fn lemma_nanoseconds(interface: Interface, sec: u32, nsec: u32)
    requires
        interface.ts_resol == 9,
        interface.ts_offset == 0,
        nsec < 1_000_000_000,
    ensures
        interface.stamp((sec * 1_000_000_000 + nsec) as nat) == (sec, nsec / 1000),
{
    assert(pow(10, 9) == 1_000_000_000) by {
        reveal_with_fuel(pow, 10);
    }
    lemma_clock_tells_time(interface, sec, nsec as nat);
    assert(nsec * 1_000_000 / 1_000_000_000 == nsec / 1000);
}

/// The offset of a clock is added to the seconds.
pub proof fn lemma_offset(interface: Interface, ts: nat, offset: u64)
    requires
        interface.ts_offset == 0,
    ensures
        ({
            let shifted = Interface { ts_offset: offset, ..interface };
            &&& shifted.stamp(ts).0 as int == (interface.stamp(ts).0 + offset) % 0x1_0000_0000
            &&& shifted.stamp(ts).1 == interface.stamp(ts).1
        }),
{
    let shifted = Interface { ts_offset: offset, ..interface };
    lemma_second_has_ticks(interface.ts_resol);
    let sec = ts / ticks_per_second(interface.ts_resol);
    assert(interface.stamp(ts).0 as int == sec % 0x1_0000_0000);
    assert(shifted.stamp(ts).0 as int == (sec + offset) % 0x1_0000_0000);
    assert((sec % 0x1_0000_0000 + offset) % 0x1_0000_0000 == (sec + offset) % 0x1_0000_0000);
}

/// The bytes of a block: type, length, body and the length once more, which no
/// reader looks at.
#[verifier::opaque]
pub open spec fn block_bytes(
    block_type: u32,
    body: Seq<u8>,
    trailer: Seq<u8>,
    big_endian: bool,
) -> Seq<u8> {
    bytes::u32_bytes(block_type, big_endian) + bytes::u32_bytes(
        (12 + body.len()) as u32,
        big_endian,
    ) + body + trailer
}

/// A block that begins no section is found as it was written, whatever follows
/// it.
proof fn lemma_block_found(
    block_type: u32,
    body: Seq<u8>,
    trailer: Seq<u8>,
    big_endian: bool,
    rest: Seq<u8>,
)
    requires
        block_type != BLOCK_SHB,
        body.len() + 12 <= u32::MAX,
        trailer.len() == 4,
    ensures
        ({
            let block = block_bytes(block_type, body, trailer, big_endian);
            let s = block + rest;
            &&& block.len() == body.len() + 12
            &&& block.subrange(8, 8int + body.len()) == body
            &&& bytes::u32_at(s, 0, big_endian) == block_type
            &&& block_len(s, big_endian) == block.len()
            &&& has_block(s, big_endian)
            &&& s.take(block.len() as int) == block
            &&& s.skip(block.len() as int) == rest
        }),
{
    reveal(block_bytes);
    let len = (12 + body.len()) as u32;
    let block = block_bytes(block_type, body, trailer, big_endian);
    let s = block + rest;
    assert(s.subrange(0, 4) =~= bytes::u32_bytes(block_type, big_endian));
    bytes::lemma_u32_read_back(s, 0, block_type, big_endian);
    assert(s.subrange(4, 8) =~= bytes::u32_bytes(len, big_endian));
    bytes::lemma_u32_read_back(s, 4, len, big_endian);
    assert(block.subrange(8, 8int + body.len()) =~= body);
    assert(s.take(block.len() as int) =~= block);
    assert(s.skip(block.len() as int) =~= rest);
}

/// A block of an unknown type changes nothing.
pub proof fn lemma_unknown_block_skipped(
    block_type: u32,
    body: Seq<u8>,
    trailer: Seq<u8>,
    big_endian: bool,
    interfaces: Seq<Interface>,
    rest: Seq<u8>,
)
    requires
        block_type != BLOCK_SHB,
        block_type != BLOCK_IDB,
        block_type != BLOCK_OPB,
        block_type != BLOCK_SPB,
        block_type != BLOCK_EPB,
        body.len() + 12 <= u32::MAX,
        trailer.len() == 4,
    ensures
        scan_of(
            block_bytes(block_type, body, trailer, big_endian) + rest,
            big_endian,
            interfaces,
        ) == scan_of(rest, big_endian, interfaces),
{
    lemma_block_found(block_type, body, trailer, big_endian, rest);
    lemma_scan_first(
        block_bytes(block_type, body, trailer, big_endian) + rest,
        big_endian,
        interfaces,
    );
}

/// The bytes of a section header: type, length, byte order and what follows, all in
/// the byte order of the section.
#[verifier::opaque]
pub open spec fn section_bytes(big_endian: bool, more: Seq<u8>) -> Seq<u8> {
    bytes::u32_bytes(BLOCK_SHB, big_endian) + bytes::u32_bytes(
        (12 + more.len()) as u32,
        big_endian,
    ) + bytes::u32_bytes(BYTE_ORDER_MAGIC, big_endian) + more
}

/// The magic numbers of a section header in the two byte orders: the type reads the
/// same in both, and the order magic is swapped.
proof fn lemma_magic_bytes()
    ensures
        bytes::u32_bytes(BLOCK_SHB, false) == bytes::u32_bytes(BLOCK_SHB, true),
        bytes::u32_bytes(BYTE_ORDER_MAGIC, true) == bytes::u32_bytes(
            BYTE_ORDER_MAGIC_SWAPPED,
            false,
        ),
        bytes::u32_bytes(BYTE_ORDER_MAGIC, false) == bytes::u32_bytes(
            BYTE_ORDER_MAGIC_SWAPPED,
            true,
        ),
{
    let swapped = BYTE_ORDER_MAGIC_SWAPPED;
    assert(bytes::u32_bytes(BLOCK_SHB, false) =~= bytes::u32_bytes(BLOCK_SHB, true));
    assert(bytes::u32_bytes(BYTE_ORDER_MAGIC, true) =~= bytes::u32_bytes(swapped, false));
    assert(bytes::u32_bytes(BYTE_ORDER_MAGIC, false) =~= bytes::u32_bytes(swapped, true));
}

/// The parts of a section header stand one behind the other.
proof fn lemma_section_places(big_endian: bool, more: Seq<u8>, rest: Seq<u8>)
    ensures
        ({
            let block = section_bytes(big_endian, more);
            let s = block + rest;
            &&& block.len() == 12 + more.len()
            &&& s.subrange(0, 4) == bytes::u32_bytes(BLOCK_SHB, big_endian)
            &&& s.subrange(4, 8) == bytes::u32_bytes((12 + more.len()) as u32, big_endian)
            &&& s.subrange(8, 12) == bytes::u32_bytes(BYTE_ORDER_MAGIC, big_endian)
            &&& block.subrange(8, 12) == bytes::u32_bytes(BYTE_ORDER_MAGIC, big_endian)
            &&& s.take(block.len() as int) == block
            &&& s.skip(block.len() as int) == rest
        }),
{
    reveal(section_bytes);
    let block = section_bytes(big_endian, more);
    let s = block + rest;
    assert(s.subrange(0, 4) =~= bytes::u32_bytes(BLOCK_SHB, big_endian));
    assert(s.subrange(4, 8) =~= bytes::u32_bytes((12 + more.len()) as u32, big_endian));
    assert(s.subrange(8, 12) =~= bytes::u32_bytes(BYTE_ORDER_MAGIC, big_endian));
    assert(block.subrange(8, 12) =~= bytes::u32_bytes(BYTE_ORDER_MAGIC, big_endian));
    assert(s.take(block.len() as int) =~= block);
    assert(s.skip(block.len() as int) =~= rest);
}

/// The order magic is read as it was written.
proof fn lemma_order_read_back(s: Seq<u8>, big_endian: bool)
    requires
        s.len() >= 12,
        s.subrange(8, 12) == bytes::u32_bytes(BYTE_ORDER_MAGIC, big_endian),
    ensures
        section_order(s) == big_endian,
        bytes::le32(s, 8) == (if big_endian {
            BYTE_ORDER_MAGIC_SWAPPED
        } else {
            BYTE_ORDER_MAGIC
        }),
{
    lemma_magic_bytes();
    if big_endian {
        bytes::lemma_u32_read_back(s, 8, BYTE_ORDER_MAGIC, true);
        bytes::lemma_u32_read_back(s, 8, BYTE_ORDER_MAGIC_SWAPPED, false);
    } else {
        bytes::lemma_u32_read_back(s, 8, BYTE_ORDER_MAGIC_SWAPPED, true);
        bytes::lemma_u32_read_back(s, 8, BYTE_ORDER_MAGIC, false);
    }
}

/// A section header sets the byte order and forgets all interfaces, whatever the
/// byte order before it.
pub proof fn lemma_section_starts_anew(
    big_endian: bool,
    more: Seq<u8>,
    rest: Seq<u8>,
    before: bool,
    interfaces: Seq<Interface>,
)
    requires
        4 <= more.len() <= u32::MAX - 12,
    ensures
        scan_of(section_bytes(big_endian, more) + rest, before, interfaces) == scan_of(
            rest,
            big_endian,
            Seq::empty(),
        ),
        is_pcapng_file(section_bytes(big_endian, more) + rest),
        section_bytes(big_endian, more).len() == 12 + more.len(),
{
    let block = section_bytes(big_endian, more);
    let s = block + rest;
    lemma_scan_first(s, before, interfaces);
    lemma_section_places(big_endian, more, rest);
    lemma_magic_bytes();
    bytes::lemma_u32_read_back(s, 0, BLOCK_SHB, before);
    bytes::lemma_u32_read_back(s, 0, BLOCK_SHB, false);
    lemma_order_read_back(s, big_endian);
    lemma_order_read_back(block, big_endian);
    bytes::lemma_u32_read_back(s, 4, (12 + more.len()) as u32, big_endian);
}

/// The body of an enhanced packet block.
#[verifier::opaque]
pub open spec fn packet_body(
    interface_id: u32,
    ticks: u64,
    data: Seq<u8>,
    orig_len: u32,
    padding: Seq<u8>,
    big_endian: bool,
) -> Seq<u8> {
    bytes::u32_bytes(interface_id, big_endian) + bytes::u32_bytes(
        (ticks / 0x1_0000_0000) as u32,
        big_endian,
    ) + bytes::u32_bytes((ticks % 0x1_0000_0000) as u32, big_endian) + bytes::u32_bytes(
        data.len() as u32,
        big_endian,
    ) + bytes::u32_bytes(orig_len, big_endian) + data + padding
}

/// The parts of the body of a packet block stand one behind the other.
proof fn lemma_packet_places(
    a: Seq<u8>,
    b: Seq<u8>,
    c: Seq<u8>,
    d: Seq<u8>,
    e: Seq<u8>,
    data: Seq<u8>,
    padding: Seq<u8>,
)
    requires
        a.len() == 4,
        b.len() == 4,
        c.len() == 4,
        d.len() == 4,
        e.len() == 4,
    ensures
        ({
            let s = a + b + c + d + e + data + padding;
            &&& s.subrange(0, 4) == a
            &&& s.subrange(4, 8) == b
            &&& s.subrange(8, 12) == c
            &&& s.subrange(12, 16) == d
            &&& s.subrange(20, 20int + data.len()) == data
            &&& s.len() == 20 + data.len() + padding.len()
        }),
{
    let s = a + b + c + d + e + data + padding;
    assert(s.subrange(0, 4) =~= a);
    assert(s.subrange(4, 8) =~= b);
    assert(s.subrange(8, 12) =~= c);
    assert(s.subrange(12, 16) =~= d);
    assert(s.subrange(20, 20int + data.len()) =~= data);
}

/// A part of the body of a block is found eight bytes further on in the block.
proof fn lemma_in_body(block: Seq<u8>, body: Seq<u8>, from: int, to: int)
    requires
        0 <= from <= to <= body.len(),
        block.len() >= 8 + body.len(),
        block.subrange(8, 8int + body.len()) == body,
    ensures
        block.subrange(8 + from, 8 + to) == body.subrange(from, to),
{
    assert(block.subrange(8 + from, 8 + to) =~= block.subrange(8, 8int + body.len()).subrange(
        from,
        to,
    ));
}

/// The length of the body of a packet block.
proof fn lemma_packet_body_len(
    interface_id: u32,
    ticks: u64,
    data: Seq<u8>,
    orig_len: u32,
    padding: Seq<u8>,
    big_endian: bool,
)
    ensures
        packet_body(interface_id, ticks, data, orig_len, padding, big_endian).len() == 20
            + data.len() + padding.len(),
{
    reveal(packet_body);
}

/// A packet in a block, read as it was written.
proof fn lemma_packet_in_block(
    block: Seq<u8>,
    interface_id: u32,
    ticks: u64,
    data: Seq<u8>,
    orig_len: u32,
    padding: Seq<u8>,
    big_endian: bool,
    interface: Interface,
)
    requires
        data.len() <= u32::MAX,
        interface.link_type == 1,
        ({
            let body = packet_body(interface_id, ticks, data, orig_len, padding, big_endian);
            block.len() == 12 + body.len() && block.subrange(8, 8int + body.len()) == body
        }),
    ensures
        block.len() == 32 + data.len() + padding.len(),
        bytes::u32_at(block, 8, big_endian) == interface_id,
        stamped_packet(block, interface, big_endian) == Step::Packet(
            interface.stamp(ticks as nat).0,
            interface.stamp(ticks as nat).1,
            data,
        ),
{
    reveal(packet_body);
    let high = (ticks / 0x1_0000_0000) as u32;
    let low = (ticks % 0x1_0000_0000) as u32;
    let len = data.len() as u32;
    let body = packet_body(interface_id, ticks, data, orig_len, padding, big_endian);
    lemma_packet_places(
        bytes::u32_bytes(interface_id, big_endian),
        bytes::u32_bytes(high, big_endian),
        bytes::u32_bytes(low, big_endian),
        bytes::u32_bytes(len, big_endian),
        bytes::u32_bytes(orig_len, big_endian),
        data,
        padding,
    );
    lemma_in_body(block, body, 0, 4);
    bytes::lemma_u32_read_back(block, 8, interface_id, big_endian);
    lemma_in_body(block, body, 4, 8);
    bytes::lemma_u32_read_back(block, 12, high, big_endian);
    lemma_in_body(block, body, 8, 12);
    bytes::lemma_u32_read_back(block, 16, low, big_endian);
    lemma_in_body(block, body, 12, 16);
    bytes::lemma_u32_read_back(block, 20, len, big_endian);
    lemma_in_body(block, body, 20, 20int + data.len());
    assert(high * 0x1_0000_0000 + low == ticks);
}

/// A packet that was captured on Ethernet is read as it was written, with its time
/// by the clock of its interface.
pub proof fn lemma_packet_read_back(
    interface_id: u32,
    ticks: u64,
    data: Seq<u8>,
    orig_len: u32,
    padding: Seq<u8>,
    trailer: Seq<u8>,
    big_endian: bool,
    interfaces: Seq<Interface>,
    rest: Seq<u8>,
)
    requires
        data.len() + padding.len() + 32 <= u32::MAX,
        trailer.len() == 4,
        interface_at(interfaces, interface_id as nat).link_type == 1,
    ensures
        ({
            let body = packet_body(interface_id, ticks, data, orig_len, padding, big_endian);
            let s = block_bytes(BLOCK_EPB, body, trailer, big_endian) + rest;
            let (sec, usec) = interface_at(interfaces, interface_id as nat).stamp(ticks as nat);
            scan_of(s, big_endian, interfaces) == after_packets(
                seq![(sec, usec, data)],
                scan_of(rest, big_endian, interfaces),
            )
        }),
{
    let body = packet_body(interface_id, ticks, data, orig_len, padding, big_endian);
    let block = block_bytes(BLOCK_EPB, body, trailer, big_endian);
    lemma_scan_first(block + rest, big_endian, interfaces);
    lemma_packet_body_len(interface_id, ticks, data, orig_len, padding, big_endian);
    lemma_block_found(BLOCK_EPB, body, trailer, big_endian, rest);
    lemma_packet_in_block(
        block,
        interface_id,
        ticks,
        data,
        orig_len,
        padding,
        big_endian,
        interface_at(interfaces, interface_id as nat),
    );
}

/// The option that sets the resolution of a clock, where it is not the usual one.
pub open spec fn resolution_option(ts_resol: Option<u8>, big_endian: bool) -> Seq<u8> {
    match ts_resol {
        Some(resol) => bytes::u16_bytes(9, big_endian) + bytes::u16_bytes(1, big_endian) + seq![
            resol,
            0u8,
            0u8,
            0u8,
        ],
        None => Seq::empty(),
    }
}

/// The body of an interface description block.
#[verifier::opaque]
pub open spec fn description_body(
    link_type: u16,
    reserved: u16,
    snaplen: u32,
    ts_resol: Option<u8>,
    big_endian: bool,
) -> Seq<u8> {
    bytes::u16_bytes(link_type, big_endian) + bytes::u16_bytes(reserved, big_endian)
        + bytes::u32_bytes(snaplen, big_endian) + resolution_option(ts_resol, big_endian)
}

/// An interface in a block, read as it was written.
proof fn lemma_description_in_block(
    block: Seq<u8>,
    link_type: u16,
    reserved: u16,
    snaplen: u32,
    ts_resol: Option<u8>,
    big_endian: bool,
)
    requires
        ({
            let body = description_body(link_type, reserved, snaplen, ts_resol, big_endian);
            block.len() == 12 + body.len() && block.subrange(8, 8int + body.len()) == body
        }),
    ensures
        block.len() >= 20,
        described(block, big_endian) == (Interface {
            link_type,
            ts_resol: match ts_resol {
                Some(resol) => resol,
                None => 6,
            },
            ts_offset: 0,
        }),
{
    reveal(description_body);
    let body = description_body(link_type, reserved, snaplen, ts_resol, big_endian);
    assert(body.subrange(0, 2) =~= bytes::u16_bytes(link_type, big_endian));
    lemma_in_body(block, body, 0, 2);
    bytes::lemma_u16_read_back(block, 8, link_type, big_endian);
    reveal_with_fuel(clock_options, 2);
    if let Some(resol) = ts_resol {
        assert(body.len() == 16);
        assert(body.subrange(8, 10) =~= bytes::u16_bytes(9, big_endian));
        lemma_in_body(block, body, 8, 10);
        bytes::lemma_u16_read_back(block, 16, 9, big_endian);
        assert(body.subrange(10, 12) =~= bytes::u16_bytes(1, big_endian));
        lemma_in_body(block, body, 10, 12);
        bytes::lemma_u16_read_back(block, 18, 1, big_endian);
        assert(body[12] == resol);
        assert(block.subrange(8, 8int + body.len())[12] == block[20]);
    } else {
        assert(body.len() == 8);
    }
}

/// An interface is described as it was written, with its own clock or the usual
/// one.
pub proof fn lemma_description_read_back(
    link_type: u16,
    reserved: u16,
    snaplen: u32,
    ts_resol: Option<u8>,
    trailer: Seq<u8>,
    big_endian: bool,
    interfaces: Seq<Interface>,
    rest: Seq<u8>,
)
    requires
        trailer.len() == 4,
    ensures
        ({
            let body = description_body(link_type, reserved, snaplen, ts_resol, big_endian);
            let s = block_bytes(BLOCK_IDB, body, trailer, big_endian) + rest;
            let interface = Interface {
                link_type,
                ts_resol: match ts_resol {
                    Some(resol) => resol,
                    None => 6,
                },
                ts_offset: 0,
            };
            scan_of(s, big_endian, interfaces) == scan_of(
                rest,
                big_endian,
                interfaces.push(interface),
            )
        }),
{
    let body = description_body(link_type, reserved, snaplen, ts_resol, big_endian);
    let block = block_bytes(BLOCK_IDB, body, trailer, big_endian);
    assert(body.len() <= 16) by {
        reveal(description_body);
    }
    lemma_scan_first(block + rest, big_endian, interfaces);
    lemma_block_found(BLOCK_IDB, body, trailer, big_endian, rest);
    lemma_description_in_block(block, link_type, reserved, snaplen, ts_resol, big_endian);
}

/// The block of a packet that was captured at the first interface, with a clock in
/// microseconds.
pub open spec fn packet_block(
    packet: (u32, u32, Seq<u8>),
    orig_len: u32,
    big_endian: bool,
) -> Seq<u8> {
    let (sec, usec, data) = packet;
    let padding = Seq::new((padded(data.len()) - data.len()) as nat, |i: int| 0u8);
    block_bytes(
        BLOCK_EPB,
        packet_body(
            0,
            (sec * 1_000_000 + usec) as u64,
            data,
            orig_len,
            padding,
            big_endian,
        ),
        bytes::u32_bytes((32 + data.len() + padding.len()) as u32, big_endian),
        big_endian,
    )
}

/// The blocks of packets that follow each other.
pub open spec fn packet_blocks(
    packets: Seq<(u32, u32, Seq<u8>)>,
    orig_lens: Seq<u32>,
    big_endian: bool,
) -> Seq<u8>
    decreases packets.len(),
{
    if packets.len() == 0 {
        Seq::empty()
    } else {
        packet_block(packets[0], orig_lens[0], big_endian) + packet_blocks(
            packets.skip(1),
            orig_lens.skip(1),
            big_endian,
        )
    }
}

/// A packet with a time of its own, of a length that a block can have.
pub open spec fn can_be_written(packet: (u32, u32, Seq<u8>)) -> bool {
    packet.1 < 1_000_000 && packet.2.len() + 64 <= u32::MAX
}

/// The block of a packet is read as it was written.
proof fn lemma_packet_block_read_back(
    packet: (u32, u32, Seq<u8>),
    orig_len: u32,
    big_endian: bool,
    interfaces: Seq<Interface>,
    rest: Seq<u8>,
)
    requires
        can_be_written(packet),
        interface_at(interfaces, 0) == Interface::assumed(),
    ensures
        scan_of(packet_block(packet, orig_len, big_endian) + rest, big_endian, interfaces)
            == after_packets(seq![packet], scan_of(rest, big_endian, interfaces)),
{
    let (sec, usec, data) = packet;
    let padding = Seq::new((padded(data.len()) - data.len()) as nat, |i: int| 0u8);
    lemma_packet_read_back(
        0,
        (sec * 1_000_000 + usec) as u64,
        data,
        orig_len,
        padding,
        bytes::u32_bytes((32 + data.len() + padding.len()) as u32, big_endian),
        big_endian,
        interfaces,
        rest,
    );
    lemma_microseconds(Interface::assumed(), sec, usec);
}

/// Packets are read as they were written, up to what is no whole block.
proof fn lemma_packets_read_back(
    packets: Seq<(u32, u32, Seq<u8>)>,
    orig_lens: Seq<u32>,
    big_endian: bool,
    interfaces: Seq<Interface>,
    tail: Seq<u8>,
)
    requires
        orig_lens.len() == packets.len(),
        forall|i: int| 0 <= i < packets.len() ==> #[trigger] can_be_written(packets[i]),
        interface_at(interfaces, 0) == Interface::assumed(),
        !has_block(tail, big_endian),
    ensures
        scan_of(
            packet_blocks(packets, orig_lens, big_endian) + tail,
            big_endian,
            interfaces,
        ) == Scan::<Seq<(u32, u32, Seq<u8>)>>::Packets(packets),
    decreases packets.len(),
{
    if packets.len() == 0 {
        lemma_scan_first(tail, big_endian, interfaces);
        assert(packet_blocks(packets, orig_lens, big_endian) + tail =~= tail);
        assert(packets =~= Seq::empty());
    } else {
        let block = packet_block(packets[0], orig_lens[0], big_endian);
        let blocks = packet_blocks(packets.skip(1), orig_lens.skip(1), big_endian);
        assert(can_be_written(packets[0]));
        assert forall|i: int| 0 <= i < packets.skip(1).len() implies #[trigger] can_be_written(
            packets.skip(1)[i],
        ) by {
            assert(can_be_written(packets[i + 1]));
        }
        bytes::lemma_concat(block, blocks, tail);
        lemma_packet_block_read_back(
            packets[0],
            orig_lens[0],
            big_endian,
            interfaces,
            blocks + tail,
        );
        lemma_packets_read_back(
            packets.skip(1),
            orig_lens.skip(1),
            big_endian,
            interfaces,
            tail,
        );
        assert(seq![packets[0]] + packets.skip(1) =~= packets);
    }
}

/// The bytes of a file with one section and one Ethernet interface.
pub open spec fn file_bytes(
    big_endian: bool,
    more: Seq<u8>,
    reserved: u16,
    snaplen: u32,
    packets: Seq<(u32, u32, Seq<u8>)>,
    orig_lens: Seq<u32>,
) -> Seq<u8> {
    section_bytes(big_endian, more) + (block_bytes(
        BLOCK_IDB,
        description_body(1, reserved, snaplen, None, big_endian),
        bytes::u32_bytes(20, big_endian),
        big_endian,
    ) + packet_blocks(packets, orig_lens, big_endian))
}

/// A file is read as it was written. What follows the last block and is no whole
/// block is ignored.
pub proof fn lemma_file_read_back(
    big_endian: bool,
    more: Seq<u8>,
    reserved: u16,
    snaplen: u32,
    packets: Seq<(u32, u32, Seq<u8>)>,
    orig_lens: Seq<u32>,
    tail: Seq<u8>,
)
    requires
        4 <= more.len() <= u32::MAX - 12,
        orig_lens.len() == packets.len(),
        forall|i: int| 0 <= i < packets.len() ==> #[trigger] can_be_written(packets[i]),
        !has_block(tail, big_endian),
    ensures
        ({
            let s = file_bytes(big_endian, more, reserved, snaplen, packets, orig_lens) + tail;
            &&& is_pcapng_file(s)
            &&& capture_of(s) == Ok::<_, Seq<char>>(packets)
        }),
{
    let section = section_bytes(big_endian, more);
    let description = block_bytes(
        BLOCK_IDB,
        description_body(1, reserved, snaplen, None, big_endian),
        bytes::u32_bytes(20, big_endian),
        big_endian,
    );
    let blocks = packet_blocks(packets, orig_lens, big_endian);
    bytes::lemma_concat(section, description + blocks, tail);
    bytes::lemma_concat(description, blocks, tail);
    lemma_section_starts_anew(
        big_endian,
        more,
        description + (blocks + tail),
        false,
        Seq::empty(),
    );
    lemma_description_read_back(
        1,
        reserved,
        snaplen,
        None,
        bytes::u32_bytes(20, big_endian),
        big_endian,
        Seq::empty(),
        blocks + tail,
    );
    let interfaces = Seq::empty().push(Interface::assumed());
    assert(interface_at(interfaces, 0) == Interface::assumed());
    lemma_packets_read_back(packets, orig_lens, big_endian, interfaces, tail);
}

/// Where the end of a file is missing, the packets before it are still read, and
/// no others.
pub proof fn lemma_truncation(s: Seq<u8>, n: int, big_endian: bool, interfaces: Seq<Interface>)
    requires
        0 <= n <= s.len(),
    ensures
        scan_of(s, big_endian, interfaces) matches Scan::Packets(all) ==> {
            scan_of(s.take(n), big_endian, interfaces) matches Scan::Packets(few)
                && few.is_prefix_of(all)
        },
    decreases s.len(),
{
    let t = s.take(n);
    lemma_scan_first(s, big_endian, interfaces);
    lemma_scan_first(t, big_endian, interfaces);
    if has_block(t, big_endian) {
        let len = block_len(t, big_endian) as int;
        assert(block_len(s, big_endian) == len);
        let block = s.take(len);
        assert(t.take(len) =~= block);
        assert(t.skip(len) =~= s.skip(len).take(n - len));
        match step_of(bytes::u32_at(s, 0, big_endian), block, big_endian, interfaces) {
            Step::Skip => {
                lemma_truncation(s.skip(len), n - len, big_endian, interfaces);
            },
            Step::Section(order) => {
                lemma_truncation(s.skip(len), n - len, order, Seq::empty());
            },
            Step::Describe(interface) => {
                lemma_truncation(s.skip(len), n - len, big_endian, interfaces.push(interface));
            },
            Step::Packet(sec, usec, data) => {
                lemma_truncation(s.skip(len), n - len, big_endian, interfaces);
                let first = seq![(sec, usec, data)];
                if let Scan::Packets(many) = scan_of(s.skip(len), big_endian, interfaces) {
                    let few = scan_of(t.skip(len), big_endian, interfaces)->Packets_0;
                    assert(few =~= many.take(few.len() as int));
                    assert(first + few =~= (first + many).take((first + few).len() as int));
                }
            },
            Step::BadOrder(_) => {},
        }
    } else if scan_of(s, big_endian, interfaces) is Packets {
        let all = scan_of(s, big_endian, interfaces)->Packets_0;
        assert(all.take(0) =~= Seq::empty());
    }
}

/// A clock of resolution 0 ticks once in a second, and each step of the resolution makes
/// ten ticks of one; from 128 on they begin anew with one tick and go on in twos.
pub proof fn lemma_ticks(ts_resol: u8)
    ensures
        ticks_per_second(0) == 1,
        ticks_per_second(128) == 1,
        0 < ts_resol < 128 ==> ticks_per_second(ts_resol) == 10 * ticks_per_second(
            (ts_resol - 1) as u8,
        ),
        128 < ts_resol ==> ticks_per_second(ts_resol) == 2 * ticks_per_second((ts_resol - 1) as u8),
{
    lemma_pow0(10);
    lemma_pow0(2);
    if 0 < ts_resol < 128 {
        lemma_pow_positive(10, (ts_resol - 1) as nat);
        lemma_pow_positive(10, ts_resol as nat);
        lemma_pow_adds(10, 1, (ts_resol - 1) as nat);
        lemma_pow1(10);
    } else if 128 < ts_resol {
        lemma_pow_positive(2, (ts_resol - 129) as nat);
        lemma_pow_positive(2, (ts_resol - 128) as nat);
        lemma_pow_adds(2, 1, (ts_resol - 129) as nat);
        lemma_pow1(2);
    }
}

/// Which files are no PCAPng at all: shorter than twelve bytes, or without the type of a
/// section header at the beginning. Both have their complaint.
pub proof fn lemma_complaints(s: Seq<u8>)
    ensures
        is_pcapng_file(s) <==> s.len() >= 4 && s.take(4) == seq![0x0Au8, 0x0Du8, 0x0Du8, 0x0Au8],
        s.len() < 12 ==> capture_of(s) == Err::<Seq<(u32, u32, Seq<u8>)>, _>(
            "File too short for PCAPng"@,
        ),
        s.len() >= 12 && !is_pcapng_file(s) ==> capture_of(s) == Err::<
            Seq<(u32, u32, Seq<u8>)>,
            _,
        >(
            "Not a PCAPng file (magic: 0x"@ + text::hex(bytes::u32_at(s, 0, false), 8) + ")"@,
        ),
{
    if s.len() >= 4 {
        let first = s.take(4);
        let magic = seq![0x0Au8, 0x0Du8, 0x0Du8, 0x0Au8];
        assert(first[0] == s[0] && first[1] == s[1] && first[2] == s[2] && first[3] == s[3]);
        if is_pcapng_file(s) {
            assert(first =~= magic);
        }
    }
}

/// A section header that is there as a whole and announces neither byte order ends the
/// reading with a complaint that shows its bytes, the last of them first.
pub proof fn lemma_unknown_order(s: Seq<u8>)
    requires
        is_pcapng_file(s),
        s.len() >= 16,
        16 <= bytes::u32_at(s, 4, false) <= s.len(),
        s.subrange(8, 12) != seq![0x4Du8, 0x3Cu8, 0x2Bu8, 0x1Au8],
        s.subrange(8, 12) != seq![0x1Au8, 0x2Bu8, 0x3Cu8, 0x4Du8],
    ensures
        capture_of(s) == Err::<Seq<(u32, u32, Seq<u8>)>, _>(
            "Invalid BOM: 0x"@ + text::hex(bytes::u32_at(s, 8, false), 8),
        ),
{
    let order = s.subrange(8, 12);
    assert(order[0] == s[8] && order[1] == s[9] && order[2] == s[10] && order[3] == s[11]);
    if bytes::le32(s, 8) == BYTE_ORDER_MAGIC {
        assert(order =~= seq![0x4Du8, 0x3Cu8, 0x2Bu8, 0x1Au8]);
    }
    if bytes::le32(s, 8) == BYTE_ORDER_MAGIC_SWAPPED || bytes::be32(s, 8) == BYTE_ORDER_MAGIC {
        assert(order =~= seq![0x1Au8, 0x2Bu8, 0x3Cu8, 0x4Du8]);
    }
    lemma_scan_first(s, false, Seq::empty());
    let block = s.take(block_len(s, false) as int);
    assert(bytes::le32(block, 8) == bytes::le32(s, 8));
}

/// An interface that no section describes is Ethernet with a clock in microseconds, and
/// those that are described are found in their order.
pub proof fn lemma_interfaces(interfaces: Seq<Interface>, id: nat)
    ensures
        id < interfaces.len() ==> interface_at(interfaces, id) == interfaces[id as int],
        id >= interfaces.len() ==> {
            &&& interface_at(interfaces, id).link_type == 1
            &&& interface_at(interfaces, id).ts_resol == 6
            &&& interface_at(interfaces, id).ts_offset == 0
        },
{
}

/// Blocks that are too short for their fields do nothing.
pub proof fn lemma_short_blocks(
    block_type: nat,
    block: Seq<u8>,
    big_endian: bool,
    interfaces: Seq<Interface>,
)
    ensures
        block_type == 0x0A0D0D0A && block.len() < 16 ==> step_of(
            block_type,
            block,
            big_endian,
            interfaces,
        ) is Skip,
        block_type == 1 && block.len() < 20 ==> step_of(
            block_type,
            block,
            big_endian,
            interfaces,
        ) is Skip,
        (block_type == 2 || block_type == 6) && block.len() < 32 ==> step_of(
            block_type,
            block,
            big_endian,
            interfaces,
        ) is Skip,
        block_type == 3 && block.len() < 16 ==> step_of(
            block_type,
            block,
            big_endian,
            interfaces,
        ) is Skip,
        block_type == 1 && block.len() >= 20 ==> step_of(
            block_type,
            block,
            big_endian,
            interfaces,
        ) == Step::<Seq<u8>>::Describe(described(block, big_endian)),
{
}

/// What a packet block with a time gives: a packet, where its interface is Ethernet and the
/// data that it announces are inside the block, and else nothing. An enhanced block names
/// its interface in four bytes and an obsolete one in two.
pub proof fn lemma_timed_packets(block: Seq<u8>, big_endian: bool, interfaces: Seq<Interface>)
    requires
        block.len() >= 32,
    ensures
        ({
            let high = bytes::u32_at(block, 12, big_endian);
            let low = bytes::u32_at(block, 16, big_endian);
            let len = bytes::u32_at(block, 20, big_endian);
            let new = interface_at(interfaces, bytes::u32_at(block, 8, big_endian));
            let old = interface_at(interfaces, bytes::u16_at(block, 8, big_endian));
            let inside = 28 + len + 4 <= block.len();
            let ticks = high * 0x1_0000_0000 + low;
            let data = block.skip(28).take(len as int);
            &&& step_of(6, block, big_endian, interfaces) == (if new.link_type == 1 && inside {
                Step::Packet(new.stamp(ticks).0, new.stamp(ticks).1, data)
            } else {
                Step::Skip
            })
            &&& step_of(2, block, big_endian, interfaces) == (if old.link_type == 1 && inside {
                Step::Packet(old.stamp(ticks).0, old.stamp(ticks).1, data)
            } else {
                Step::Skip
            })
        }),
{
    let len = bytes::u32_at(block, 20, big_endian);
    if 28 + len + 4 <= block.len() {
        assert(block.skip(28).take(len as int) =~= block.subrange(28, 28 + len as int));
    }
}

/// What a packet block without a time gives: a packet at time 0, of its original length or
/// as much as the block holds, where the first interface is Ethernet and there is anything.
pub proof fn lemma_timeless_packets(block: Seq<u8>, big_endian: bool, interfaces: Seq<Interface>)
    requires
        block.len() >= 16,
    ensures
        ({
            let original = bytes::u32_at(block, 8, big_endian) as int;
            let stored = block.skip(12).take(block.len() - 16);
            let len = if original < stored.len() { original } else { stored.len() as int };
            step_of(3, block, big_endian, interfaces) == (if interface_at(interfaces, 0).link_type
                == 1 && len > 0 {
                Step::Packet(0, 0, stored.take(len))
            } else {
                Step::Skip
            })
        }),
{
    let original = bytes::u32_at(block, 8, big_endian) as int;
    let stored = block.skip(12).take(block.len() - 16);
    let len = if original < stored.len() { original } else { stored.len() as int };
    assert(stored.take(len) =~= block.subrange(12, 12 + len));
}

/// The bytes of an option: its code, the length of its value, and the value, filled up to
/// whole words.
pub open spec fn option_bytes(code: u16, value: Seq<u8>, big_endian: bool) -> Seq<u8> {
    bytes::u16_bytes(code, big_endian) + bytes::u16_bytes(value.len() as u16, big_endian) + value
        + Seq::new(((4 - value.len() % 4) % 4) as nat, |i: int| 0u8)
}

/// An option of a description is applied as it was written, and those behind it after it:
/// number 9 sets the resolution to its first byte, number 14 the offset to its first eight,
/// and no other one changes anything.
pub proof fn lemma_option_applied(
    block: Seq<u8>,
    at: int,
    end: int,
    big_endian: bool,
    ts_resol: u8,
    ts_offset: u64,
    code: u16,
    value: Seq<u8>,
)
    requires
        code != 0,
        value.len() <= u16::MAX,
        0 <= at,
        at + option_bytes(code, value, big_endian).len() <= end <= block.len(),
        block.subrange(at, at + option_bytes(code, value, big_endian).len()) == option_bytes(
            code,
            value,
            big_endian,
        ),
    ensures
        clock_options(block, at, end, big_endian, ts_resol, ts_offset) == clock_options(
            block,
            at + option_bytes(code, value, big_endian).len(),
            end,
            big_endian,
            if code == 9 && value.len() >= 1 {
                value[0]
            } else {
                ts_resol
            },
            if code == 14 && value.len() >= 8 {
                bytes::u64_at(value, 0, big_endian) as u64
            } else {
                ts_offset
            },
        ),
{
    let written = option_bytes(code, value, big_endian);
    let len = value.len() as u16;
    let pad = ((4 - value.len() % 4) % 4) as nat;
    assert(written.len() == 4 + value.len() + pad);
    assert(block.subrange(at, at + 2) =~= written.subrange(0, 2));
    assert(written.subrange(0, 2) =~= bytes::u16_bytes(code, big_endian));
    bytes::lemma_u16_read_back(block, at, code, big_endian);
    assert(block.subrange(at + 2, at + 4) =~= written.subrange(2, 4));
    assert(written.subrange(2, 4) =~= bytes::u16_bytes(len, big_endian));
    bytes::lemma_u16_read_back(block, at + 2, len, big_endian);
    assert(padded(value.len()) == value.len() + pad);
    assert forall|i: int| 0 <= i < value.len() implies block[at + 4 + i] == #[trigger] value[i] by {
        assert(written[4 + i] == value[i]);
        assert(block.subrange(at, at + written.len())[4 + i] == block[at + 4 + i]);
    }
    if value.len() >= 8 {
        assert(bytes::u64_at(block, at + 4, big_endian) == bytes::u64_at(value, 0, big_endian)) by {
            assert(block[at + 4] == value[0] && block[at + 5] == value[1] && block[at + 6]
                == value[2] && block[at + 7] == value[3] && block[at + 8] == value[4] && block[at
                + 9] == value[5] && block[at + 10] == value[6] && block[at + 11] == value[7]);
        }
    }
}

/// The options end with number 0 or where no other one has room, and what is known of the
/// clock stays.
pub proof fn lemma_options_end(
    block: Seq<u8>,
    at: int,
    end: int,
    big_endian: bool,
    ts_resol: u8,
    ts_offset: u64,
)
    requires
        at + 4 > end || bytes::u16_at(block, at, big_endian) == 0,
    ensures
        clock_options(block, at, end, big_endian, ts_resol, ts_offset) == (ts_resol, ts_offset),
{
}

/// A description has its link type in its first two bytes. Its options begin eight bytes
/// further on and end before the second length; without them the clock is in microseconds
/// and has no offset.
pub proof fn lemma_described(block: Seq<u8>, big_endian: bool)
    requires
        block.len() >= 20,
    ensures
        described(block, big_endian).link_type == bytes::u16_at(block, 8, big_endian),
        (described(block, big_endian).ts_resol, described(block, big_endian).ts_offset)
            == clock_options(block, 16, block.len() - 4, big_endian, 6, 0),
{
}

/// The type of a section header is known by its bytes.
proof fn lemma_header_type(s: Seq<u8>, big_endian: bool)
    requires
        s.len() >= 4,
    ensures
        bytes::u32_at(s, 0, big_endian) == BLOCK_SHB <==> s.take(4) == seq![
            0x0Au8,
            0x0Du8,
            0x0Du8,
            0x0Au8,
        ],
{
    let first = s.take(4);
    let magic = seq![0x0Au8, 0x0Du8, 0x0Du8, 0x0Au8];
    assert(first[0] == s[0] && first[1] == s[1] && first[2] == s[2] && first[3] == s[3]);
    bytes::lemma_worth(s, 0);
    if bytes::u32_at(s, 0, big_endian) == BLOCK_SHB {
        assert(first =~= magic);
    }
}

/// Big-endian order is announced by its bytes.
proof fn lemma_order_bytes(s: Seq<u8>)
    requires
        s.len() >= 12,
    ensures
        section_order(s) <==> s.subrange(8, 12) == seq![0x1Au8, 0x2Bu8, 0x3Cu8, 0x4Du8],
{
    let order = s.subrange(8, 12);
    assert(order[0] == s[8] && order[1] == s[9] && order[2] == s[10] && order[3] == s[11]);
    bytes::lemma_worth(s, 8);
    if section_order(s) {
        assert(order =~= seq![0x1Au8, 0x2Bu8, 0x3Cu8, 0x4Du8]);
    }
}

/// Reading goes on only where a block is there as a whole: its type and its length, which
/// is twelve at least, and as many bytes as that.
pub proof fn lemma_where_reading_ends(s: Seq<u8>, big_endian: bool, interfaces: Seq<Interface>)
    ensures
        ({
            let header = s.len() >= 4 && s.take(4) == seq![0x0Au8, 0x0Du8, 0x0Du8, 0x0Au8];
            let announced = s.len() >= 12 && s.subrange(8, 12) == seq![0x1Au8, 0x2Bu8, 0x3Cu8, 0x4Du8];
            let order = if header { announced } else { big_endian };
            let len = bytes::u32_at(s, 4, order);
            &&& has_block(s, big_endian) <==> s.len() >= 8 && 12 <= len && len <= s.len()
            &&& has_block(s, big_endian) ==> block_len(s, big_endian) == len
            &&& !has_block(s, big_endian) ==> scan_of(s, big_endian, interfaces) == Scan::<
                Seq<(u32, u32, Seq<u8>)>,
            >::Packets(Seq::empty())
        }),
{
    lemma_scan_first(s, big_endian, interfaces);
    if s.len() >= 4 {
        lemma_header_type(s, big_endian);
    }
    if s.len() >= 12 {
        lemma_order_bytes(s);
    }
}

/// The seconds of a time begin anew after `2^32` of them.
pub proof fn lemma_clock_wraps(interface: Interface, ts: nat)
    ensures
        interface.stamp(ts + 0x1_0000_0000 * ticks_per_second(interface.ts_resol)) == interface.stamp(
            ts,
        ),
{
    let second = ticks_per_second(interface.ts_resol);
    let later = ts + 0x1_0000_0000 * second;
    lemma_second_has_ticks(interface.ts_resol);
    let q = ts / second;
    let r = ts % second;
    lemma_fundamental_div_mod(ts as int, second as int);
    lemma_mod_bound(ts as int, second as int);
    assert(later == (q + 0x1_0000_0000) * second + r) by (nonlinear_arith)
        requires
            later == ts + 0x1_0000_0000 * second,
            ts == second * q + r,
    ;
    lemma_fundamental_div_mod_converse(
        later as int,
        second as int,
        (q + 0x1_0000_0000) as int,
        r as int,
    );
}

/// The view of a list of packets has each in its place, with its time and its data.
pub proof fn lemma_packet_views(packets: Seq<(u32, u32, Vec<u8>)>, i: int)
    requires
        0 <= i < packets.len(),
    ensures
        packet_views(packets).len() == packets.len(),
        packet_views(packets)[i].0 == packets[i].0,
        packet_views(packets)[i].1 == packets[i].1,
        packet_views(packets)[i].2 == packets[i].2@,
{
}

} // verus!
