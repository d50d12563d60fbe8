//! Unsigned integers in a sequence of bytes, in either byte order.

use vstd::prelude::*;

verus! {

/// The two bytes from `at` on, most significant first.
pub open spec fn be16(s: Seq<u8>, at: int) -> nat {
    (s[at] as nat) * 256 + s[at + 1] as nat
}

/// The four bytes from `at` on, most significant first.
pub open spec fn be32(s: Seq<u8>, at: int) -> nat {
    be16(s, at) * 0x1_0000 + be16(s, at + 2)
}

/// The eight bytes from `at` on, most significant first.
pub open spec fn be64(s: Seq<u8>, at: int) -> nat {
    be32(s, at) * 0x1_0000_0000 + be32(s, at + 4)
}

/// The two bytes from `at` on, least significant first.
pub open spec fn le16(s: Seq<u8>, at: int) -> nat {
    s[at] as nat + (s[at + 1] as nat) * 256
}

/// The four bytes from `at` on, least significant first.
pub open spec fn le32(s: Seq<u8>, at: int) -> nat {
    le16(s, at) + le16(s, at + 2) * 0x1_0000
}

/// The eight bytes from `at` on, least significant first.
pub open spec fn le64(s: Seq<u8>, at: int) -> nat {
    le32(s, at) + le32(s, at + 4) * 0x1_0000_0000
}

/// The two bytes from `at` on, in the byte order that the flag names.
pub open spec fn u16_at(s: Seq<u8>, at: int, big_endian: bool) -> nat {
    if big_endian {
        be16(s, at)
    } else {
        le16(s, at)
    }
}

/// The four bytes from `at` on, in the byte order that the flag names.
pub open spec fn u32_at(s: Seq<u8>, at: int, big_endian: bool) -> nat {
    if big_endian {
        be32(s, at)
    } else {
        le32(s, at)
    }
}

/// The eight bytes from `at` on, in the byte order that the flag names.
pub open spec fn u64_at(s: Seq<u8>, at: int, big_endian: bool) -> nat {
    if big_endian {
        be64(s, at)
    } else {
        le64(s, at)
    }
}

/// A number as two bytes, in the byte order that the flag names.
pub open spec fn u16_bytes(n: u16, big_endian: bool) -> Seq<u8> {
    let high = (n / 256) as u8;
    let low = (n % 256) as u8;
    if big_endian {
        seq![high, low]
    } else {
        seq![low, high]
    }
}

/// A number as four bytes, in the byte order that the flag names.
pub open spec fn u32_bytes(n: u32, big_endian: bool) -> Seq<u8> {
    let high = u16_bytes((n / 0x1_0000) as u16, big_endian);
    let low = u16_bytes((n % 0x1_0000) as u16, big_endian);
    if big_endian {
        high + low
    } else {
        low + high
    }
}

/// A number as eight bytes, in the byte order that the flag names.
pub open spec fn u64_bytes(n: u64, big_endian: bool) -> Seq<u8> {
    let high = u32_bytes((n / 0x1_0000_0000) as u32, big_endian);
    let low = u32_bytes((n % 0x1_0000_0000) as u32, big_endian);
    if big_endian {
        high + low
    } else {
        low + high
    }
}

/// Where three pieces are put together in a row, the order of work is no matter.
pub proof fn lemma_concat(a: Seq<u8>, b: Seq<u8>, c: Seq<u8>)
    ensures
        a + b + c == a + (b + c),
{
    assert(a + b + c =~= a + (b + c));
}

/// Two bytes are read as they were written.
pub proof fn lemma_u16_read_back(s: Seq<u8>, at: int, n: u16, big_endian: bool)
    requires
        0 <= at,
        at + 2 <= s.len(),
        s.subrange(at, at + 2) == u16_bytes(n, big_endian),
    ensures
        u16_at(s, at, big_endian) == n,
{
    let written = s.subrange(at, at + 2);
    assert(s[at] == written[0] && s[at + 1] == written[1]);
}

/// Four bytes are read as they were written.
pub proof fn lemma_u32_read_back(s: Seq<u8>, at: int, n: u32, big_endian: bool)
    requires
        0 <= at,
        at + 4 <= s.len(),
        s.subrange(at, at + 4) == u32_bytes(n, big_endian),
    ensures
        u32_at(s, at, big_endian) == n,
{
    let written = s.subrange(at, at + 4);
    let high = (n / 0x1_0000) as u16;
    let low = (n % 0x1_0000) as u16;
    let (first, second) = if big_endian {
        (high, low)
    } else {
        (low, high)
    };
    assert(s.subrange(at, at + 2) =~= written.subrange(0, 2));
    assert(s.subrange(at + 2, at + 4) =~= written.subrange(2, 4));
    assert(written.subrange(0, 2) =~= u16_bytes(first, big_endian));
    assert(written.subrange(2, 4) =~= u16_bytes(second, big_endian));
    lemma_u16_read_back(s, at, first, big_endian);
    lemma_u16_read_back(s, at + 2, second, big_endian);
}

/// Eight bytes are read as they were written.
pub proof fn lemma_u64_read_back(s: Seq<u8>, at: int, n: u64, big_endian: bool)
    requires
        0 <= at,
        at + 8 <= s.len(),
        s.subrange(at, at + 8) == u64_bytes(n, big_endian),
    ensures
        u64_at(s, at, big_endian) == n,
{
    let written = s.subrange(at, at + 8);
    let high = (n / 0x1_0000_0000) as u32;
    let low = (n % 0x1_0000_0000) as u32;
    let (first, second) = if big_endian {
        (high, low)
    } else {
        (low, high)
    };
    assert(s.subrange(at, at + 4) =~= written.subrange(0, 4));
    assert(s.subrange(at + 4, at + 8) =~= written.subrange(4, 8));
    assert(written.subrange(0, 4) =~= u32_bytes(first, big_endian));
    assert(written.subrange(4, 8) =~= u32_bytes(second, big_endian));
    lemma_u32_read_back(s, at, first, big_endian);
    lemma_u32_read_back(s, at + 4, second, big_endian);
}

/// Reads the two bytes from `offset` on. `None` where they are not there.
pub fn read_u16(data: &[u8], offset: usize, big_endian: bool) -> (r: Option<u16>)
    ensures
        r == (if offset + 2 <= data@.len() {
            Some(u16_at(data@, offset as int, big_endian) as u16)
        } else {
            None
        }),
{
    if data.len() < 2 || offset > data.len() - 2 {
        return None;
    }
    let first: u16 = data[offset] as u16;
    let second: u16 = data[offset + 1] as u16;
    if big_endian {
        Some(first * 256 + second)
    } else {
        Some(first + second * 256)
    }
}

/// Reads the four bytes from `offset` on. `None` where they are not there.
pub fn read_u32(data: &[u8], offset: usize, big_endian: bool) -> (r: Option<u32>)
    ensures
        r == (if offset + 4 <= data@.len() {
            Some(u32_at(data@, offset as int, big_endian) as u32)
        } else {
            None
        }),
{
    if data.len() < 4 || offset > data.len() - 4 {
        return None;
    }
    let a: u32 = data[offset] as u32;
    let b: u32 = data[offset + 1] as u32;
    let c: u32 = data[offset + 2] as u32;
    let d: u32 = data[offset + 3] as u32;
    if big_endian {
        Some((a * 256 + b) * 0x1_0000 + (c * 256 + d))
    } else {
        Some((a + b * 256) + (c + d * 256) * 0x1_0000)
    }
}

/// Reads the eight bytes from `offset` on. `None` where they are not there.
pub fn read_u64(data: &[u8], offset: usize, big_endian: bool) -> (r: Option<u64>)
    ensures
        r == (if offset + 8 <= data@.len() {
            Some(u64_at(data@, offset as int, big_endian) as u64)
        } else {
            None
        }),
{
    if data.len() < 8 || offset > data.len() - 8 {
        return None;
    }
    let first = read_u32(data, offset, big_endian);
    let second = read_u32(data, offset + 4, big_endian);
    match (first, second) {
        (Some(x), Some(y)) => if big_endian {
            Some(x as u64 * 0x1_0000_0000 + y as u64)
        } else {
            Some(x as u64 + y as u64 * 0x1_0000_0000)
        },
        _ => None,
    }
}

/// What each byte is worth: the first the most in big-endian order and the least in
/// little-endian order.
pub proof fn lemma_worth(s: Seq<u8>, at: int)
    ensures
        u16_at(s, at, true) == s[at] * 0x100 + s[at + 1],
        u16_at(s, at, false) == s[at] + s[at + 1] * 0x100,
        u32_at(s, at, true) == s[at] * 0x100_0000 + s[at + 1] * 0x1_0000 + s[at + 2] * 0x100 + s[at + 3],
        u32_at(s, at, false) == s[at] + s[at + 1] * 0x100 + s[at + 2] * 0x1_0000 + s[at + 3]
            * 0x100_0000,
        u64_at(s, at, true) == u32_at(s, at, true) * 0x1_0000_0000 + u32_at(s, at + 4, true),
        u64_at(s, at, false) == u32_at(s, at, false) + u32_at(s, at + 4, false) * 0x1_0000_0000,
{
}

/// A number in one byte order has the bytes that it has in the other, in reverse.
pub proof fn lemma_orders_mirrored(m: u16, n: u32, k: u64)
    ensures
        u16_bytes(m, true) == u16_bytes(m, false).reverse(),
        u32_bytes(n, true) == u32_bytes(n, false).reverse(),
        u64_bytes(k, true) == u64_bytes(k, false).reverse(),
        u16_bytes(m, true) == seq![(m / 0x100) as u8, (m % 0x100) as u8],
        u32_bytes(n, true)[0] == n / 0x100_0000,
        u32_bytes(n, true)[3] == n % 0x100,
{
    assert(u16_bytes(m, true) =~= u16_bytes(m, false).reverse());
    assert(u32_bytes(n, true) =~= u32_bytes(n, false).reverse());
    assert(u64_bytes(k, true) =~= u64_bytes(k, false).reverse());
    assert(u16_bytes(m, true) =~= seq![(m / 0x100) as u8, (m % 0x100) as u8]);
}

} // verus!
