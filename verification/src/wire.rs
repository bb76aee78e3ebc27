//! Wire constants shared by both connection kinds, and the big-endian integers
//! that every header on the wire is made of.

use vstd::prelude::*;

verus! {

/// Preamble magic of a mobile client connection: `DSHC`.
pub const MAGIC_CLIENT: [u8; 4] = [0x44, 0x53, 0x48, 0x43];

/// Preamble magic of a bridge connection: `DSHB`.
pub const MAGIC_BRIDGE: [u8; 4] = [0x44, 0x53, 0x48, 0x42];

/// Protocol version carried by the preamble.
pub const VERSION: u8 = 1;

/// magic(4) + ver(1) + key(32)
pub const HEAD_LEN: usize = 37;

/// Noise suite spoken by bridges.
pub const NOISE_XX: &'static str = "Noise_XX_25519_ChaChaPoly_SHA256";

/// Noise suite spoken between a device and its bridge.
pub const NOISE_IK: &'static str = "Noise_IK_25519_ChaChaPoly_SHA256";

/// Largest Noise message on the wire (length prefix is u16).
pub const MAX_NOISE_MSG: usize = 65535;

/// Bytes an AEAD tag adds to every sealed message.
pub const TAG_LEN: usize = 16;

/// Largest handshake message. A handshake is a few hundred bytes at most, so
/// an unauthenticated peer must not be able to name a 64 KiB buffer.
pub const MAX_HANDSHAKE_MSG: usize = 1024;

/// mux frame kind: a new stream.
pub const KIND_OPEN: u8 = 0;

/// mux frame kind: payload of a stream.
pub const KIND_DATA: u8 = 1;

/// mux frame kind: the stream is gone.
pub const KIND_CLOSE: u8 = 2;

/// mux frame kind: receive credit handed back.
pub const KIND_WINDOW: u8 = 3;

/// mux frame header: streamId(u32) + kind(u8) + len(u16) + rsv(u8).
pub const FRAME_HEAD: usize = 8;

/// Largest mux payload; keeps one frame inside one Noise message with room to spare.
pub const MAX_PAYLOAD: usize = 16384;

/// Per-stream receive window.
pub const WINDOW: u32 = 262144;

/// Return receive credit once half the window is spent, instead of one WINDOW
/// frame per DATA frame. Halves the control traffic and still leaves the peer
/// half a window to keep writing into.
pub const GRANT_THRESHOLD: u32 = 131072;

/// Streams one bridge carries at once, unless configured otherwise.
pub const MAX_STREAMS_PER_BRIDGE: usize = 2048;

/// The two bytes of `n`, most significant first.
pub open spec fn be16(n: u16) -> Seq<u8> {
    seq![(n / 0x100) as u8, (n % 0x100) as u8]
}

/// The four bytes of `n`, most significant first.
pub open spec fn be32(n: u32) -> Seq<u8> {
    seq![
        (n / 0x100_0000) as u8,
        (n / 0x1_0000 % 0x100) as u8,
        (n / 0x100 % 0x100) as u8,
        (n % 0x100) as u8,
    ]
}

/// The eight bytes of `n`, most significant first.
pub open spec fn be64(n: u64) -> Seq<u8> {
    be32((n / 0x1_0000_0000) as u32) + be32((n % 0x1_0000_0000) as u32)
}

/// The number that two bytes spell, most significant first.
pub open spec fn be16_value(s: Seq<u8>) -> int {
    s[0] * 0x100 + s[1]
}

/// The number that four bytes spell, most significant first.
pub open spec fn be32_value(s: Seq<u8>) -> int {
    s[0] * 0x100_0000 + s[1] * 0x1_0000 + s[2] * 0x100 + s[3]
}

/// The number that eight bytes spell, most significant first.
pub open spec fn be64_value(s: Seq<u8>) -> int {
    be32_value(s) * 0x1_0000_0000 + be32_value(s.skip(4))
}

/// Read two bytes as a big-endian integer.
pub fn read_be16(a: u8, b: u8) -> (n: u16)
    ensures
        n == be16_value(seq![a, b]),
{
    a as u16 * 0x100 + b as u16
}

/// Read four bytes as a big-endian integer.
pub fn read_be32(a: u8, b: u8, c: u8, d: u8) -> (n: u32)
    ensures
        n == be32_value(seq![a, b, c, d]),
{
    a as u32 * 0x100_0000 + b as u32 * 0x1_0000 + c as u32 * 0x100 + d as u32
}

/// A two-byte integer reads back as it was written.
pub proof fn law_be16_round_trip(n: u16)
    ensures
        be16(n).len() == 2,
        be16_value(be16(n)) == n,
{
}

/// A four-byte integer reads back as it was written.
pub proof fn law_be32_round_trip(n: u32)
    ensures
        be32(n).len() == 4,
        be32_value(be32(n)) == n,
{
}

/// An eight-byte integer reads back as it was written.
pub proof fn law_be64_round_trip(n: u64)
    ensures
        be64(n).len() == 8,
        be64_value(be64(n)) == n,
{
    let high = (n / 0x1_0000_0000) as u32;
    let low = (n % 0x1_0000_0000) as u32;
    law_be32_round_trip(high);
    law_be32_round_trip(low);
    assert(be64(n).skip(4) =~= be32(low));
    assert(be32_value(be64(n)) == be32_value(be32(high)));
}

/// Integers on the wire have their most significant byte first, written and
/// read.
pub proof fn law_most_significant_byte_first(a: u16, b: u32, c: u64, s: Seq<u8>)
    ensures
        be16(a)[0] * 256 + be16(a)[1] == a,
        be32(b)[0] * 16777216 + be32(b)[1] * 65536 + be32(b)[2] * 256 + be32(b)[3] == b,
        (be64(c)[0] * 16777216 + be64(c)[1] * 65536 + be64(c)[2] * 256 + be64(c)[3]) * 4294967296
            + (be64(c)[4] * 16777216 + be64(c)[5] * 65536 + be64(c)[6] * 256 + be64(c)[7]) == c,
        be16_value(s) == s[0] * 256 + s[1],
        be32_value(s) == s[0] * 16777216 + s[1] * 65536 + s[2] * 256 + s[3],
        s.len() >= 8 ==> be64_value(s) == (s[0] * 16777216 + s[1] * 65536 + s[2] * 256 + s[3])
            * 4294967296 + (s[4] * 16777216 + s[5] * 65536 + s[6] * 256 + s[7]),
{
    law_be64_round_trip(c);
    let high = (c / 0x1_0000_0000) as u32;
    let low = (c % 0x1_0000_0000) as u32;
    law_be32_round_trip(high);
    law_be32_round_trip(low);
    assert(be64(c)[0] == be32(high)[0] && be64(c)[1] == be32(high)[1]);
    assert(be64(c)[4] == be32(low)[0] && be64(c)[5] == be32(low)[1]);
}

/// The numbers and texts that both ends of a link have to agree on.
pub proof fn law_both_ends_agree_on_these()
    ensures
        KIND_OPEN == 0,
        KIND_DATA == 1,
        KIND_CLOSE == 2,
        KIND_WINDOW == 3,
        VERSION == 1,
        HEAD_LEN == 37,
        MAGIC_CLIENT@ == seq![0x44u8, 0x53, 0x48, 0x43],
        MAGIC_BRIDGE@ == seq![0x44u8, 0x53, 0x48, 0x42],
        NOISE_XX@ == "Noise_XX_25519_ChaChaPoly_SHA256"@,
        NOISE_IK@ == "Noise_IK_25519_ChaChaPoly_SHA256"@,
        MAX_NOISE_MSG == 65535,
        TAG_LEN == 16,
        FRAME_HEAD == 8,
        MAX_PAYLOAD == 16384,
        WINDOW == 262144,
        GRANT_THRESHOLD * 2 == WINDOW,
        MAX_STREAMS_PER_BRIDGE == 2048,
{
    assert(MAGIC_CLIENT@ =~= seq![0x44u8, 0x53, 0x48, 0x43]);
    assert(MAGIC_BRIDGE@ =~= seq![0x44u8, 0x53, 0x48, 0x42]);
}

} // verus!
