//! Capture files of the legacy PCAP format.

use vstd::prelude::*;
use vstd::string::*;

use crate::bytes;
use crate::text;

verus! {

/// Magic number of a file in little-endian order.
pub const MAGIC_LE: u32 = 0xa1b2c3d4;

/// The same number where the file is in big-endian order.
pub const MAGIC_BE: u32 = 0xd4c3b2a1;

/// The header of a capture file.
#[derive(Debug, Clone, Copy, PartialEq, Eq, Structural)]
pub struct PcapHeader {
    pub magic: u32,
    pub version_major: u16,
    pub version_minor: u16,
    pub snaplen: u32,
    /// The link-layer type.
    pub network: u32,
    pub big_endian: bool,
}

/// A captured packet.
#[derive(Debug, Clone, Copy)]
pub struct RawPacket<'a> {
    pub ts_sec: u32,
    pub ts_usec: u32,
    pub data: &'a [u8],
}

impl<'a> View for RawPacket<'a> {
    type V = (u32, u32, Seq<u8>);

    open spec fn view(&self) -> (u32, u32, Seq<u8>) {
        (self.ts_sec, self.ts_usec, self.data@)
    }
}

/// Why a piece of a file could not be read.
#[derive(Debug, Clone, Copy, PartialEq, Eq, Structural)]
pub enum FailureKind {
    /// The file ends too early.
    Eof,
    /// The magic number is unknown.
    Tag,
}

/// Where and why a piece of a file could not be read.
#[derive(Debug, Clone, Copy)]
pub struct Failure<'a> {
    /// What was left of the file at that point.
    pub input: &'a [u8],
    pub code: FailureKind,
}

impl<'a> View for Failure<'a> {
    type V = (Seq<u8>, FailureKind);

    open spec fn view(&self) -> (Seq<u8>, FailureKind) {
        (self.input@, self.code)
    }
}

/// A failure as text.
pub open spec fn failure_text(input: Seq<u8>, code: FailureKind) -> Seq<char> {
    "Error(Error { input: "@ + text::byte_list(input) + (match code {
        FailureKind::Eof => ", code: Eof })"@,
        FailureKind::Tag => ", code: Tag })"@,
    })
}

/// `nom::number::complete::le_u32`: the first four bytes as a little-endian
/// number, and what follows them; an error, for which `None` stands, exactly
/// where the input is shorter.
#[verifier::external_body]
fn le_u32(input: &[u8]) -> (r: Option<(&[u8], u32)>)
    ensures
        match r {
            Some((rest, value)) => input@.len() >= 4 && rest@ == input@.skip(4) && value
                == bytes::le32(input@, 0),
            None => input@.len() < 4,
        },
{
    nom::number::complete::le_u32::<_, nom::error::Error<&[u8]>>(input).ok()
}

/// `nom::number::complete::be_u32`: the first four bytes as a big-endian number,
/// and what follows them; an error, for which `None` stands, exactly where the
/// input is shorter.
#[verifier::external_body]
fn be_u32(input: &[u8]) -> (r: Option<(&[u8], u32)>)
    ensures
        match r {
            Some((rest, value)) => input@.len() >= 4 && rest@ == input@.skip(4) && value
                == bytes::be32(input@, 0),
            None => input@.len() < 4,
        },
{
    nom::number::complete::be_u32::<_, nom::error::Error<&[u8]>>(input).ok()
}

/// `nom::number::complete::le_u16`: the first two bytes as a little-endian
/// number, and what follows them; an error, for which `None` stands, exactly
/// where the input is shorter.
#[verifier::external_body]
fn le_u16(input: &[u8]) -> (r: Option<(&[u8], u16)>)
    ensures
        match r {
            Some((rest, value)) => input@.len() >= 2 && rest@ == input@.skip(2) && value
                == bytes::le16(input@, 0),
            None => input@.len() < 2,
        },
{
    nom::number::complete::le_u16::<_, nom::error::Error<&[u8]>>(input).ok()
}

/// `nom::number::complete::be_u16`: the first two bytes as a big-endian number,
/// and what follows them; an error, for which `None` stands, exactly where the
/// input is shorter.
#[verifier::external_body]
fn be_u16(input: &[u8]) -> (r: Option<(&[u8], u16)>)
    ensures
        match r {
            Some((rest, value)) => input@.len() >= 2 && rest@ == input@.skip(2) && value
                == bytes::be16(input@, 0),
            None => input@.len() < 2,
        },
{
    nom::number::complete::be_u16::<_, nom::error::Error<&[u8]>>(input).ok()
}

/// `nom::bytes::complete::take`: the first `count` bytes, behind what follows
/// them; an error, for which `None` stands, exactly where the input is shorter.
#[verifier::external_body]
fn take(count: u32, input: &[u8]) -> (r: Option<(&[u8], &[u8])>)
    ensures
        match r {
            Some((rest, taken)) => input@.len() >= count && rest@ == input@.skip(count as int)
                && taken@ == input@.take(count as int),
            None => input@.len() < count,
        },
{
    nom::bytes::complete::take::<_, _, nom::error::Error<&[u8]>>(count)(input).ok()
}

/// Where the last field begins that a header of `len` bytes has not the whole of.
pub open spec fn cut_header_field(len: nat) -> int {
    if len < 4 {
        0
    } else if len < 6 {
        4
    } else if len < 8 {
        6
    } else if len < 12 {
        8
    } else if len < 16 {
        12
    } else if len < 20 {
        16
    } else {
        20
    }
}

/// The header at the beginning of a file, or what is left and why where it
/// cannot be read.
pub open spec fn header_of(s: Seq<u8>) -> Result<PcapHeader, (Seq<u8>, FailureKind)> {
    let magic = bytes::le32(s, 0);
    if s.len() < 4 {
        Err((s, FailureKind::Eof))
    } else if magic != MAGIC_LE && magic != MAGIC_BE {
        Err((s.skip(4), FailureKind::Tag))
    } else if s.len() < 24 {
        Err((s.skip(cut_header_field(s.len())), FailureKind::Eof))
    } else {
        let big_endian = magic == MAGIC_BE;
        Ok(
            PcapHeader {
                magic: magic as u32,
                version_major: bytes::u16_at(s, 4, big_endian) as u16,
                version_minor: bytes::u16_at(s, 6, big_endian) as u16,
                snaplen: bytes::u32_at(s, 16, big_endian) as u32,
                network: bytes::u32_at(s, 20, big_endian) as u32,
                big_endian,
            },
        )
    }
}

/// How many bytes the record at the beginning of `s` has: a header of 16 bytes
/// and the captured data, whose length the header gives.
pub open spec fn record_len(s: Seq<u8>, big_endian: bool) -> int {
    16 + bytes::u32_at(s, 8, big_endian) as int
}

/// Whether the record at the beginning of `s` is there as a whole.
pub open spec fn has_record(s: Seq<u8>, big_endian: bool) -> bool {
    s.len() >= 16 && s.len() >= record_len(s, big_endian)
}

/// The packet in the record at the beginning of `s`.
pub open spec fn record_of(s: Seq<u8>, big_endian: bool) -> (u32, u32, Seq<u8>) {
    (
        bytes::u32_at(s, 0, big_endian) as u32,
        bytes::u32_at(s, 4, big_endian) as u32,
        s.subrange(16, record_len(s, big_endian)),
    )
}

/// Where the part of a record begins that `len` bytes have not the whole of.
pub open spec fn cut_record_part(len: nat) -> int {
    if len < 4 {
        0
    } else if len < 8 {
        4
    } else if len < 12 {
        8
    } else if len < 16 {
        12
    } else {
        16
    }
}

/// The packets of all records in `s`, up to the first that is cut off.
pub open spec fn records(s: Seq<u8>, big_endian: bool) -> Seq<(u32, u32, Seq<u8>)>
    decreases s.len(),
{
    if has_record(s, big_endian) {
        seq![record_of(s, big_endian)] + records(s.skip(record_len(s, big_endian)), big_endian)
    } else {
        Seq::empty()
    }
}

/// Reads two bytes in the given byte order.
fn number16(input: &[u8], big_endian: bool) -> (r: Result<(&[u8], u16), Failure<'_>>)
    ensures
        match r {
            Ok((rest, value)) => input@.len() >= 2 && rest@ == input@.skip(2) && value
                == bytes::u16_at(input@, 0, big_endian),
            Err(failure) => input@.len() < 2 && failure@ == (input@, FailureKind::Eof),
        },
{
    let read = if big_endian {
        be_u16(input)
    } else {
        le_u16(input)
    };
    match read {
        Some((rest, value)) => Ok((rest, value)),
        None => Err(Failure { input, code: FailureKind::Eof }),
    }
}

/// Reads four bytes in the given byte order.
fn number32(input: &[u8], big_endian: bool) -> (r: Result<(&[u8], u32), Failure<'_>>)
    ensures
        match r {
            Ok((rest, value)) => input@.len() >= 4 && rest@ == input@.skip(4) && value
                == bytes::u32_at(input@, 0, big_endian),
            Err(failure) => input@.len() < 4 && failure@ == (input@, FailureKind::Eof),
        },
{
    let read = if big_endian {
        be_u32(input)
    } else {
        le_u32(input)
    };
    match read {
        Some((rest, value)) => Ok((rest, value)),
        None => Err(Failure { input, code: FailureKind::Eof }),
    }
}

/// Reads the header of a file. The bytes behind it come with it.
pub fn parse_pcap_header(input: &[u8]) -> (r: Result<(&[u8], PcapHeader), Failure<'_>>)
    ensures
        match r {
            Ok((rest, header)) => header_of(input@) == Ok::<_, (Seq<u8>, FailureKind)>(header)
                && rest@ == input@.skip(24),
            Err(failure) => header_of(input@) == Err::<PcapHeader, _>(failure@),
        },
{
    let (rest, magic) = number32(input, false)?;
    let big_endian = if magic == MAGIC_LE {
        false
    } else if magic == MAGIC_BE {
        true
    } else {
        return Err(Failure { input: rest, code: FailureKind::Tag });
    };
    let (rest, version_major) = number16(rest, big_endian)?;
    assert(rest@ =~= input@.skip(6));
    let (rest, version_minor) = number16(rest, big_endian)?;
    assert(rest@ =~= input@.skip(8));
    let (rest, _thiszone) = number32(rest, big_endian)?;
    assert(rest@ =~= input@.skip(12));
    let (rest, _sigfigs) = number32(rest, big_endian)?;
    assert(rest@ =~= input@.skip(16));
    let (rest, snaplen) = number32(rest, big_endian)?;
    assert(rest@ =~= input@.skip(20));
    let (rest, network) = number32(rest, big_endian)?;
    assert(rest@ =~= input@.skip(24));
    Ok((rest, PcapHeader { magic, version_major, version_minor, snaplen, network, big_endian }))
}

/// Reads one record. The bytes behind it come with the packet.
pub fn parse_packet<'a>(input: &'a [u8], big_endian: bool) -> (r: Result<
    (&'a [u8], RawPacket<'a>),
    Failure<'a>,
>)
    ensures
        match r {
            Ok((rest, packet)) => has_record(input@, big_endian) && packet@ == record_of(
                input@,
                big_endian,
            ) && rest@ == input@.skip(record_len(input@, big_endian)),
            Err(failure) => !has_record(input@, big_endian) && failure@ == (
                input@.skip(cut_record_part(input@.len())),
                FailureKind::Eof,
            ),
        },
{
    assert(input@.skip(0) =~= input@);
    let (rest, ts_sec) = number32(input, big_endian)?;
    let (rest, ts_usec) = number32(rest, big_endian)?;
    assert(rest@ =~= input@.skip(8));
    let (rest, incl_len) = number32(rest, big_endian)?;
    assert(rest@ =~= input@.skip(12));
    let (rest, _orig_len) = number32(rest, big_endian)?;
    assert(rest@ =~= input@.skip(16));
    match take(incl_len, rest) {
        Some((after, data)) => {
            assert(after@ =~= input@.skip(record_len(input@, big_endian)));
            assert(data@ =~= input@.subrange(16, record_len(input@, big_endian)));
            Ok((after, RawPacket { ts_sec, ts_usec, data }))
        },
        None => Err(Failure { input: rest, code: FailureKind::Eof }),
    }
}

/// Why a file could not be read, as text.
pub open spec fn header_message(input: Seq<u8>, code: FailureKind) -> Seq<char> {
    "Failed to parse PCAP header: "@ + failure_text(input, code)
}

/// The complaint about a link-layer type other than Ethernet.
pub open spec fn link_type_message(network: nat) -> Seq<char> {
    "Unsupported link type: "@ + text::decimal(network) + " (only Ethernet/1 supported)"@
}

/// The packets of a file, or why there are none.
pub open spec fn capture_of(s: Seq<u8>) -> Result<
    (PcapHeader, Seq<(u32, u32, Seq<u8>)>),
    Seq<char>,
> {
    match header_of(s) {
        Err((rest, code)) => Err(header_message(rest, code)),
        Ok(header) => if header.network != 1 {
            Err(link_type_message(header.network as nat))
        } else {
            Ok((header, records(s.skip(24), header.big_endian)))
        },
    }
}

/// The packets, without the places where they are kept.
pub open spec fn packet_views(packets: Seq<RawPacket<'_>>) -> Seq<(u32, u32, Seq<u8>)> {
    packets.map_values(|p: RawPacket<'_>| p@)
}

/// Reads all packets of a file. A record that is cut off ends the list.
pub fn iter_packets(input: &[u8]) -> (r: Result<(PcapHeader, Vec<RawPacket<'_>>), String>)
    ensures
        match r {
            Ok((header, packets)) => capture_of(input@) == Ok::<_, Seq<char>>(
                (header, packet_views(packets@)),
            ),
            Err(message) => capture_of(input@) == Err::<
                (PcapHeader, Seq<(u32, u32, Seq<u8>)>),
                _,
            >(message@),
        },
{
    let (first, header) = match parse_pcap_header(input) {
        Ok(read) => read,
        Err(failure) => {
            let mut message = String::new();
            message.append("Failed to parse PCAP header: ");
            message.append("Error(Error { input: ");
            text::push_byte_list(&mut message, failure.input);
            message.append(
                match failure.code {
                    FailureKind::Eof => ", code: Eof })",
                    FailureKind::Tag => ", code: Tag })",
                },
            );
            assert(message@ =~= header_message(failure.input@, failure.code));
            return Err(message);
        },
    };
    if header.network != 1 {
        let mut message = String::new();
        message.append("Unsupported link type: ");
        text::push_decimal(&mut message, header.network as u64);
        message.append(" (only Ethernet/1 supported)");
        assert(message@ =~= link_type_message(header.network as nat));
        return Err(message);
    }
    let mut rest: &[u8] = first;
    let mut packets: Vec<RawPacket<'_>> = Vec::new();
    let ghost all = records(first@, header.big_endian);
    assert(packet_views(packets@) + all =~= all);
    while rest.len() > 0
        invariant
            all == packet_views(packets@) + records(rest@, header.big_endian),
        ensures
            all == packet_views(packets@),
        decreases rest@.len(),
    {
        match parse_packet(rest, header.big_endian) {
            Ok((after, packet)) => {
                let ghost before = packets@;
                packets.push(packet);
                proof {
                    assert(packet_views(packets@) =~= packet_views(before).push(packet@));
                    assert(all =~= packet_views(packets@) + records(after@, header.big_endian));
                }
                rest = after;
            },
            Err(_) => {
                assert(all =~= packet_views(packets@));
                break;
            },
        }
    }
    Ok((header, packets))
}

/// The bytes of a record. The packet may have been longer than what was captured
/// of it.
pub open spec fn record_bytes(
    packet: (u32, u32, Seq<u8>),
    orig_len: u32,
    big_endian: bool,
) -> Seq<u8> {
    bytes::u32_bytes(packet.0, big_endian) + bytes::u32_bytes(packet.1, big_endian)
        + bytes::u32_bytes(packet.2.len() as u32, big_endian) + bytes::u32_bytes(
        orig_len,
        big_endian,
    ) + packet.2
}

/// The bytes of records that follow each other.
pub open spec fn all_record_bytes(
    packets: Seq<(u32, u32, Seq<u8>)>,
    orig_lens: Seq<u32>,
    big_endian: bool,
) -> Seq<u8>
    decreases packets.len(),
{
    if packets.len() == 0 {
        Seq::empty()
    } else {
        record_bytes(packets[0], orig_lens[0], big_endian) + all_record_bytes(
            packets.skip(1),
            orig_lens.skip(1),
            big_endian,
        )
    }
}

/// The bytes of a file header.
pub open spec fn header_bytes(header: PcapHeader, thiszone: u32, sigfigs: u32) -> Seq<u8> {
    let big_endian = header.big_endian;
    bytes::u32_bytes(header.magic, false) + bytes::u16_bytes(header.version_major, big_endian)
        + bytes::u16_bytes(header.version_minor, big_endian) + bytes::u32_bytes(
        thiszone,
        big_endian,
    ) + bytes::u32_bytes(sigfigs, big_endian) + bytes::u32_bytes(header.snaplen, big_endian)
        + bytes::u32_bytes(header.network, big_endian)
}

/// A record is read as it was written, whatever follows it.
proof fn lemma_record_read_back(
    packet: (u32, u32, Seq<u8>),
    orig_len: u32,
    big_endian: bool,
    rest: Seq<u8>,
)
    requires
        packet.2.len() <= u32::MAX,
    ensures
        has_record(record_bytes(packet, orig_len, big_endian) + rest, big_endian),
        record_of(record_bytes(packet, orig_len, big_endian) + rest, big_endian) == packet,
        (record_bytes(packet, orig_len, big_endian) + rest).skip(
            record_len(record_bytes(packet, orig_len, big_endian) + rest, big_endian),
        ) == rest,
{
    let s = record_bytes(packet, orig_len, big_endian) + rest;
    let len = packet.2.len() as u32;
    assert(s.subrange(0, 4) =~= bytes::u32_bytes(packet.0, big_endian));
    bytes::lemma_u32_read_back(s, 0, packet.0, big_endian);
    assert(s.subrange(4, 8) =~= bytes::u32_bytes(packet.1, big_endian));
    bytes::lemma_u32_read_back(s, 4, packet.1, big_endian);
    assert(s.subrange(8, 12) =~= bytes::u32_bytes(len, big_endian));
    bytes::lemma_u32_read_back(s, 8, len, big_endian);
    assert(record_len(s, big_endian) == 16 + len);
    assert(s.subrange(16, 16 + len) =~= packet.2);
    assert(s.skip(16int + len) =~= rest);
}

/// Records are read as they were written. What follows them and is no whole
/// record is ignored.
pub proof fn lemma_records_read_back(
    packets: Seq<(u32, u32, Seq<u8>)>,
    orig_lens: Seq<u32>,
    big_endian: bool,
    tail: Seq<u8>,
)
    requires
        orig_lens.len() == packets.len(),
        forall|i: int| 0 <= i < packets.len() ==> (#[trigger] packets[i]).2.len() <= u32::MAX,
        !has_record(tail, big_endian),
    ensures
        records(all_record_bytes(packets, orig_lens, big_endian) + tail, big_endian) == packets,
    decreases packets.len(),
{
    let s = all_record_bytes(packets, orig_lens, big_endian) + tail;
    if packets.len() == 0 {
        assert(s =~= tail);
        assert(records(s, big_endian) =~= packets);
    } else {
        let rest = all_record_bytes(packets.skip(1), orig_lens.skip(1), big_endian) + tail;
        assert(s =~= record_bytes(packets[0], orig_lens[0], big_endian) + rest);
        lemma_record_read_back(packets[0], orig_lens[0], big_endian, rest);
        lemma_records_read_back(packets.skip(1), orig_lens.skip(1), big_endian, tail);
        assert(seq![packets[0]] + packets.skip(1) =~= packets);
    }
}

/// The fields of a header stand one behind the other.
proof fn lemma_header_places(
    magic: Seq<u8>,
    major: Seq<u8>,
    minor: Seq<u8>,
    thiszone: Seq<u8>,
    sigfigs: Seq<u8>,
    snaplen: Seq<u8>,
    network: Seq<u8>,
    rest: Seq<u8>,
)
    requires
        magic.len() == 4,
        major.len() == 2,
        minor.len() == 2,
        thiszone.len() == 4,
        sigfigs.len() == 4,
        snaplen.len() == 4,
        network.len() == 4,
    ensures
        ({
            let s = magic + major + minor + thiszone + sigfigs + snaplen + network + rest;
            &&& s.subrange(0, 4) == magic
            &&& s.subrange(4, 6) == major
            &&& s.subrange(6, 8) == minor
            &&& s.subrange(16, 20) == snaplen
            &&& s.subrange(20, 24) == network
            &&& s.skip(24) == rest
        }),
{
}

/// A header is read as it was written, whatever follows it.
proof fn lemma_header_read_back(header: PcapHeader, thiszone: u32, sigfigs: u32, rest: Seq<u8>)
    requires
        header.magic == (if header.big_endian {
            MAGIC_BE
        } else {
            MAGIC_LE
        }),
    ensures
        header_of(header_bytes(header, thiszone, sigfigs) + rest) == Ok::<
            _,
            (Seq<u8>, FailureKind),
        >(header),
        (header_bytes(header, thiszone, sigfigs) + rest).skip(24) == rest,
        header_bytes(header, thiszone, sigfigs).len() == 24,
{
    let big_endian = header.big_endian;
    let s = header_bytes(header, thiszone, sigfigs) + rest;
    lemma_header_places(
        bytes::u32_bytes(header.magic, false),
        bytes::u16_bytes(header.version_major, big_endian),
        bytes::u16_bytes(header.version_minor, big_endian),
        bytes::u32_bytes(thiszone, big_endian),
        bytes::u32_bytes(sigfigs, big_endian),
        bytes::u32_bytes(header.snaplen, big_endian),
        bytes::u32_bytes(header.network, big_endian),
        rest,
    );
    bytes::lemma_u32_read_back(s, 0, header.magic, false);
    bytes::lemma_u16_read_back(s, 4, header.version_major, big_endian);
    bytes::lemma_u16_read_back(s, 6, header.version_minor, big_endian);
    bytes::lemma_u32_read_back(s, 16, header.snaplen, big_endian);
    bytes::lemma_u32_read_back(s, 20, header.network, big_endian);
}

/// A capture of Ethernet packets is read as it was written, in either byte order.
/// What follows the last record and is no whole record is ignored.
pub proof fn lemma_capture_read_back(
    header: PcapHeader,
    thiszone: u32,
    sigfigs: u32,
    packets: Seq<(u32, u32, Seq<u8>)>,
    orig_lens: Seq<u32>,
    tail: Seq<u8>,
)
    requires
        header.magic == (if header.big_endian {
            MAGIC_BE
        } else {
            MAGIC_LE
        }),
        header.network == 1,
        orig_lens.len() == packets.len(),
        forall|i: int| 0 <= i < packets.len() ==> (#[trigger] packets[i]).2.len() <= u32::MAX,
        !has_record(tail, header.big_endian),
    ensures
        capture_of(
            header_bytes(header, thiszone, sigfigs) + all_record_bytes(
                packets,
                orig_lens,
                header.big_endian,
            ) + tail,
        ) == Ok::<_, Seq<char>>((header, packets)),
{
    let big_endian = header.big_endian;
    let body = all_record_bytes(packets, orig_lens, big_endian);
    bytes::lemma_concat(header_bytes(header, thiszone, sigfigs), body, tail);
    lemma_header_read_back(header, thiszone, sigfigs, body + tail);
    lemma_records_read_back(packets, orig_lens, big_endian, tail);
}

/// Where the end of a file is missing, the packets before it are still read, and
/// no others.
pub proof fn lemma_truncation(s: Seq<u8>, n: int, big_endian: bool)
    requires
        0 <= n <= s.len(),
    ensures
        records(s.take(n), big_endian).is_prefix_of(records(s, big_endian)),
    decreases s.len(),
{
    let t = s.take(n);
    if has_record(t, big_endian) {
        let len = record_len(t, big_endian);
        assert(record_len(s, big_endian) == len);
        assert(record_of(t, big_endian).2 =~= record_of(s, big_endian).2);
        assert(t.skip(len) =~= s.skip(len).take(n - len));
        lemma_truncation(s.skip(len), n - len, big_endian);
        let few = records(t.skip(len), big_endian);
        let many = records(s.skip(len), big_endian);
        let first = seq![record_of(s, big_endian)];
        assert(few =~= many.take(few.len() as int));
        assert(first + few =~= (first + many).take((first + few).len() as int));
    }
}

/// Which headers can be read, byte by byte: the first four bytes are the magic number in
/// one of the two orders, and all 24 are there. The fields stand in their places in that
/// order.
pub proof fn lemma_header_bytes(s: Seq<u8>)
    ensures
        ({
            let little = s.take(4) == seq![0xd4u8, 0xc3u8, 0xb2u8, 0xa1u8];
            let big = s.take(4) == seq![0xa1u8, 0xb2u8, 0xc3u8, 0xd4u8];
            &&& header_of(s) is Ok <==> s.len() >= 24 && (little || big)
            &&& header_of(s) matches Ok(header) ==> {
                &&& header.big_endian <==> big
                &&& big ==> {
                    &&& header.magic == 0xd4c3b2a1
                    &&& header.version_major == s[4] * 256 + s[5]
                    &&& header.version_minor == s[6] * 256 + s[7]
                    &&& header.snaplen == ((s[16] * 256 + s[17]) * 256 + s[18]) * 256 + s[19]
                    &&& header.network == ((s[20] * 256 + s[21]) * 256 + s[22]) * 256 + s[23]
                }
                &&& little ==> {
                    &&& header.magic == 0xa1b2c3d4
                    &&& header.version_major == s[5] * 256 + s[4]
                    &&& header.version_minor == s[7] * 256 + s[6]
                    &&& header.snaplen == ((s[19] * 256 + s[18]) * 256 + s[17]) * 256 + s[16]
                    &&& header.network == ((s[23] * 256 + s[22]) * 256 + s[21]) * 256 + s[20]
                }
            }
        }),
{
    if s.len() >= 4 {
        let first = s.take(4);
        let little = seq![0xd4u8, 0xc3u8, 0xb2u8, 0xa1u8];
        let big = seq![0xa1u8, 0xb2u8, 0xc3u8, 0xd4u8];
        assert(first[0] == s[0] && first[1] == s[1] && first[2] == s[2] && first[3] == s[3]);
        assert(little[0] != big[0]);
        if bytes::le32(s, 0) == MAGIC_LE {
            assert(first =~= little);
        }
        if bytes::le32(s, 0) == MAGIC_BE {
            assert(first =~= big);
        }
    }
}

/// Why a header cannot be read. An unknown magic number fails behind itself; what is too
/// short fails at the first field that is not there as a whole.
pub proof fn lemma_header_failures(s: Seq<u8>)
    ensures
        header_of(s) matches Err((rest, code)) ==> {
            let at = s.len() - rest.len();
            &&& 0 <= at <= s.len()
            &&& rest == s.skip(at)
            &&& code == FailureKind::Tag <==> s.len() >= 4 && s.take(4) != seq![
                0xd4u8,
                0xc3u8,
                0xb2u8,
                0xa1u8,
            ] && s.take(4) != seq![0xa1u8, 0xb2u8, 0xc3u8, 0xd4u8]
            &&& code == FailureKind::Tag ==> at == 4
            &&& code == FailureKind::Eof ==> {
                ||| (at == 4 || at == 6) && rest.len() < 2
                ||| (at == 0 || at == 8 || at == 12 || at == 16 || at == 20) && rest.len() < 4
            }
        },
{
    lemma_header_bytes(s);
    assert(s.skip(0) =~= s);
    if s.len() >= 4 {
        let first = s.take(4);
        assert(first[0] == s[0] && first[1] == s[1] && first[2] == s[2] && first[3] == s[3]);
        if bytes::le32(s, 0) == MAGIC_LE {
            assert(first =~= seq![0xd4u8, 0xc3u8, 0xb2u8, 0xa1u8]);
        }
        if bytes::le32(s, 0) == MAGIC_BE {
            assert(first =~= seq![0xa1u8, 0xb2u8, 0xc3u8, 0xd4u8]);
        }
    }
}

/// A file whose header can be read has packets where its link-layer type is Ethernet, and
/// else a complaint with the number of the type. Where the header cannot be read, the
/// complaint shows what was left and why.
pub proof fn lemma_capture_or_complaint(s: Seq<u8>)
    ensures
        capture_of(s) is Ok <==> (header_of(s) matches Ok(header) && header.network == 1),
        capture_of(s) matches Ok((header, packets)) ==> header_of(s) == Ok::<
            _,
            (Seq<u8>, FailureKind),
        >(header),
        header_of(s) matches Ok(header) ==> header.network != 1 ==> capture_of(s) == Err::<
            (PcapHeader, Seq<(u32, u32, Seq<u8>)>),
            _,
        >(
            "Unsupported link type: "@ + text::decimal(header.network as nat)
                + " (only Ethernet/1 supported)"@,
        ),
        header_of(s) matches Err((rest, code)) ==> capture_of(s) == Err::<
            (PcapHeader, Seq<(u32, u32, Seq<u8>)>),
            _,
        >(
            "Failed to parse PCAP header: "@ + ("Error(Error { input: "@ + text::byte_list(rest) + (
            if code == FailureKind::Eof {
                ", code: Eof })"@
            } else {
                ", code: Tag })"@
            })),
        ),
{
}

/// A record is there as a whole where its sixteen bytes are and as many behind them as it
/// says. Its time stands in the first eight, and its data are the bytes behind the sixteen.
pub proof fn lemma_record_bytes(s: Seq<u8>, big_endian: bool)
    ensures
        ({
            let len = bytes::u32_at(s, 8, big_endian);
            &&& has_record(s, big_endian) <==> s.len() >= 16 + len && s.len() >= 16
            &&& has_record(s, big_endian) ==> {
                &&& record_of(s, big_endian).0 == bytes::u32_at(s, 0, big_endian)
                &&& record_of(s, big_endian).1 == bytes::u32_at(s, 4, big_endian)
                &&& record_of(s, big_endian).2 == s.skip(16).take(len as int)
                &&& records(s, big_endian).len() == 1 + records(s.skip(16int + len), big_endian).len()
                &&& records(s, big_endian)[0] == record_of(s, big_endian)
                &&& records(s, big_endian).skip(1) == records(s.skip(16int + len), big_endian)
            }
            &&& !has_record(s, big_endian) ==> records(s, big_endian).len() == 0
        }),
{
    let len = bytes::u32_at(s, 8, big_endian);
    if has_record(s, big_endian) {
        assert(record_of(s, big_endian).2 =~= s.skip(16).take(len as int));
        assert(records(s, big_endian).skip(1) =~= records(s.skip(16int + len), big_endian));
    }
}

/// Where a record cannot be read, it fails at the first part that is not there as a whole:
/// one of the four fields of its header, or the data behind them.
pub proof fn lemma_record_failures(s: Seq<u8>, big_endian: bool)
    requires
        !has_record(s, big_endian),
    ensures
        ({
            let at = cut_record_part(s.len());
            &&& 0 <= at <= s.len()
            &&& at == 0 || at == 4 || at == 8 || at == 12 || at == 16
            &&& at < 16 <==> s.len() - at < 4 && s.len() < 16
            &&& at == 16 ==> s.len() - at < bytes::u32_at(s, 8, big_endian)
        }),
{
}

/// The view of a packet has its time and its data, and that of a list has each in its
/// place; the view of a failure has what was left and why.
pub proof fn lemma_packet_views(packets: Seq<RawPacket<'_>>, i: int, failure: Failure<'_>)
    requires
        0 <= i < packets.len(),
    ensures
        packet_views(packets).len() == packets.len(),
        packet_views(packets)[i].0 == packets[i].ts_sec,
        packet_views(packets)[i].1 == packets[i].ts_usec,
        packet_views(packets)[i].2 == packets[i].data@,
        failure@.0 == failure.input@,
        failure@.1 == failure.code,
{
}

} // verus!
