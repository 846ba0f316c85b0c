//! The page header: its fields, its fixed 52-byte layout and the chain links.
use vstd::prelude::*;

verus! {

/// Size in bytes of an encoded header; the payload of a page starts here.
pub const HEADER_SIZE: usize = 52;

/// Metadata stored at the start of every page.
///
/// The two telemetry values are single-precision floats on the instrument;
/// the header carries their bit patterns (`f32::to_bits`), which is also what
/// the page stores.
#[derive(Clone, Copy, Debug, PartialEq, Eq)]
pub struct DataPacketHeader {
    /// Number of the previous page in the chain.
    pub prev_block_id: u32,
    /// Number of this page.
    pub this_block_id: u32,
    /// Start of capture of this page, milliseconds since the start of recording.
    pub timestamp: u64,
    /// Reference raw counter value of each channel when the page was opened.
    pub targets: [u32; 2],
    /// Period between two consecutive base samples, in milliseconds.
    pub base_interval_ms: u32,
    /// Channel `c` is sampled at base index `i` iff `i % interleave_ratio[c] == 0`.
    pub interleave_ratio: [u32; 2],
    /// Bit pattern of the CPU temperature when the page was opened.
    pub t_cpu_bits: u32,
    /// Bit pattern of the battery voltage when the page was opened.
    pub v_bat_bits: u32,
    /// Number of meaningful payload bytes after the header.
    pub data_len: u32,
    /// Checksum of those payload bytes.
    pub data_crc32: u32,
}

/// The four bytes of `v`, least significant first.
pub open spec fn u32_le_bytes(v: u32) -> Seq<u8> {
    seq![v as u8, (v >> 8u32) as u8, (v >> 16u32) as u8, (v >> 24u32) as u8]
}

/// The eight bytes of `v`, least significant first.
pub open spec fn u64_le_bytes(v: u64) -> Seq<u8> {
    u32_le_bytes(v as u32) + u32_le_bytes((v >> 32u64) as u32)
}

/// The word made of four bytes, least significant first.
pub open spec fn u32_from_le(b0: u8, b1: u8, b2: u8, b3: u8) -> u32 {
    (b0 as u32) | ((b1 as u32) << 8u32) | ((b2 as u32) << 16u32) | ((b3 as u32) << 24u32)
}

/// The little-endian word that starts at `off` in `b`.
pub open spec fn u32_at(b: Seq<u8>, off: int) -> u32 {
    u32_from_le(b[off], b[off + 1], b[off + 2], b[off + 3])
}

/// The little-endian 64-bit value that starts at `off` in `b`.
pub open spec fn u64_at(b: Seq<u8>, off: int) -> u64 {
    (u32_at(b, off) as u64) | ((u32_at(b, off + 4) as u64) << 32u64)
}

/// The encoded header: each field little-endian, in declaration order, no padding.
pub open spec fn header_bytes(h: DataPacketHeader) -> Seq<u8> {
    u32_le_bytes(h.prev_block_id) + u32_le_bytes(h.this_block_id) + u64_le_bytes(h.timestamp)
        + u32_le_bytes(h.targets[0]) + u32_le_bytes(h.targets[1]) + u32_le_bytes(
        h.base_interval_ms,
    ) + u32_le_bytes(h.interleave_ratio[0]) + u32_le_bytes(h.interleave_ratio[1])
        + u32_le_bytes(h.t_cpu_bits) + u32_le_bytes(h.v_bat_bits) + u32_le_bytes(h.data_len)
        + u32_le_bytes(h.data_crc32)
}

/// `h` is the header that the first bytes of `b` encode.
pub open spec fn header_matches(h: DataPacketHeader, b: Seq<u8>) -> bool {
    &&& h.prev_block_id == u32_at(b, 0)
    &&& h.this_block_id == u32_at(b, 4)
    &&& h.timestamp == u64_at(b, 8)
    &&& h.targets[0] == u32_at(b, 16)
    &&& h.targets[1] == u32_at(b, 20)
    &&& h.base_interval_ms == u32_at(b, 24)
    &&& h.interleave_ratio[0] == u32_at(b, 28)
    &&& h.interleave_ratio[1] == u32_at(b, 32)
    &&& h.t_cpu_bits == u32_at(b, 36)
    &&& h.v_bat_bits == u32_at(b, 40)
    &&& h.data_len == u32_at(b, 44)
    &&& h.data_crc32 == u32_at(b, 48)
}

/// Two headers with the same fields.
pub open spec fn same_fields(a: DataPacketHeader, b: DataPacketHeader) -> bool {
    &&& a.prev_block_id == b.prev_block_id
    &&& a.this_block_id == b.this_block_id
    &&& a.timestamp == b.timestamp
    &&& a.targets[0] == b.targets[0]
    &&& a.targets[1] == b.targets[1]
    &&& a.base_interval_ms == b.base_interval_ms
    &&& a.interleave_ratio[0] == b.interleave_ratio[0]
    &&& a.interleave_ratio[1] == b.interleave_ratio[1]
    &&& a.t_cpu_bits == b.t_cpu_bits
    &&& a.v_bat_bits == b.v_bat_bits
    &&& a.data_len == b.data_len
    &&& a.data_crc32 == b.data_crc32
}

/// The previous-page number that page number `k` of a chain carries.
pub open spec fn chain_prev_id(k: u32) -> u32 {
    if k == 0 {
        0
    } else {
        (k - 1) as u32
    }
}

proof fn lemma_u32_le_round_trip(v: u32)
    ensures
        u32_from_le(v as u8, (v >> 8u32) as u8, (v >> 16u32) as u8, (v >> 24u32) as u8) == v,
{
    assert((((v as u8) as u32) | ((((v >> 8u32) as u8) as u32) << 8u32) | ((((v >> 16u32) as u8)
        as u32) << 16u32) | ((((v >> 24u32) as u8) as u32) << 24u32)) == v) by (bit_vector);
}

proof fn lemma_u64_halves(v: u64)
    ensures
        ((v as u32) as u64) | ((((v >> 32u64) as u32) as u64) << 32u64) == v,
{
    assert(((v as u32) as u64) | ((((v >> 32u64) as u32) as u64) << 32u64) == v) by (bit_vector);
}

pub(crate) proof fn lemma_u32_at_bytes(b: Seq<u8>, off: int, v: u32)
    requires
        0 <= off,
        off + 4 <= b.len(),
        b.subrange(off, off + 4) == u32_le_bytes(v),
    ensures
        u32_at(b, off) == v,
{
    assert(b[off] == u32_le_bytes(v)[0]);
    assert(b[off + 1] == u32_le_bytes(v)[1]);
    assert(b[off + 2] == u32_le_bytes(v)[2]);
    assert(b[off + 3] == u32_le_bytes(v)[3]);
    lemma_u32_le_round_trip(v);
}

/// Decoding the bytes of an encoded header, whatever follows them, gives the
/// header back.
pub proof fn lemma_header_round_trip(h: DataPacketHeader, rest: Seq<u8>)
    ensures
        header_bytes(h).len() == HEADER_SIZE,
        header_matches(h, header_bytes(h) + rest),
{
    let b = header_bytes(h) + rest;
    assert(header_bytes(h).len() == 52);
    assert(b.subrange(0, 4) == u32_le_bytes(h.prev_block_id));
    lemma_u32_at_bytes(b, 0, h.prev_block_id);
    assert(b.subrange(4, 8) == u32_le_bytes(h.this_block_id));
    lemma_u32_at_bytes(b, 4, h.this_block_id);
    assert(b.subrange(8, 12) == u32_le_bytes(h.timestamp as u32));
    lemma_u32_at_bytes(b, 8, h.timestamp as u32);
    assert(b.subrange(12, 16) == u32_le_bytes((h.timestamp >> 32u64) as u32));
    lemma_u32_at_bytes(b, 12, (h.timestamp >> 32u64) as u32);
    lemma_u64_halves(h.timestamp);
    assert(b.subrange(16, 20) == u32_le_bytes(h.targets[0]));
    lemma_u32_at_bytes(b, 16, h.targets[0]);
    assert(b.subrange(20, 24) == u32_le_bytes(h.targets[1]));
    lemma_u32_at_bytes(b, 20, h.targets[1]);
    assert(b.subrange(24, 28) == u32_le_bytes(h.base_interval_ms));
    lemma_u32_at_bytes(b, 24, h.base_interval_ms);
    assert(b.subrange(28, 32) == u32_le_bytes(h.interleave_ratio[0]));
    lemma_u32_at_bytes(b, 28, h.interleave_ratio[0]);
    assert(b.subrange(32, 36) == u32_le_bytes(h.interleave_ratio[1]));
    lemma_u32_at_bytes(b, 32, h.interleave_ratio[1]);
    assert(b.subrange(36, 40) == u32_le_bytes(h.t_cpu_bits));
    lemma_u32_at_bytes(b, 36, h.t_cpu_bits);
    assert(b.subrange(40, 44) == u32_le_bytes(h.v_bat_bits));
    lemma_u32_at_bytes(b, 40, h.v_bat_bits);
    assert(b.subrange(44, 48) == u32_le_bytes(h.data_len));
    lemma_u32_at_bytes(b, 44, h.data_len);
    assert(b.subrange(48, 52) == u32_le_bytes(h.data_crc32));
    lemma_u32_at_bytes(b, 48, h.data_crc32);
}

fn push_u32_le(out: &mut Vec<u8>, v: u32)
    ensures
        final(out)@ == old(out)@ + u32_le_bytes(v),
{
    out.push(v as u8);
    out.push((v >> 8u32) as u8);
    out.push((v >> 16u32) as u8);
    out.push((v >> 24u32) as u8);
    assert(final(out)@ =~= old(out)@ + u32_le_bytes(v));
}

fn read_u32_le(b: &[u8], off: usize) -> (r: u32)
    requires
        off + 4 <= b@.len(),
    ensures
        r == u32_at(b@, off as int),
{
    (b[off] as u32) | ((b[off + 1] as u32) << 8u32) | ((b[off + 2] as u32) << 16u32) | ((b[off
        + 3] as u32) << 24u32)
}

impl DataPacketHeader {
    /// True iff both chain numbers are zero: the first page of a chain.
    pub fn is_initial(&self) -> (r: bool)
        ensures
            r == (self.prev_block_id == 0 && self.this_block_id == 0),
    {
        self.prev_block_id == 0 && self.this_block_id == 0
    }

    /// True iff this header is page number `k` of a chain: it carries `k` as its
    /// own number and `k - 1` (0 for the first page) as the previous one.
    pub fn is_chain_page(&self, k: u32) -> (r: bool)
        ensures
            r == (self.this_block_id == k && self.prev_block_id == chain_prev_id(k)),
    {
        let prev: u32 = if k == 0 {
            0
        } else {
            k - 1
        };
        self.this_block_id == k && self.prev_block_id == prev
    }

    /// The header in its fixed 52-byte layout.
    pub fn to_bytes(&self) -> (r: Vec<u8>)
        ensures
            r@ == header_bytes(*self),
            r@.len() == HEADER_SIZE,
    {
        let mut out: Vec<u8> = Vec::new();
        push_u32_le(&mut out, self.prev_block_id);
        push_u32_le(&mut out, self.this_block_id);
        push_u32_le(&mut out, self.timestamp as u32);
        push_u32_le(&mut out, (self.timestamp >> 32u64) as u32);
        push_u32_le(&mut out, self.targets[0]);
        push_u32_le(&mut out, self.targets[1]);
        push_u32_le(&mut out, self.base_interval_ms);
        push_u32_le(&mut out, self.interleave_ratio[0]);
        push_u32_le(&mut out, self.interleave_ratio[1]);
        push_u32_le(&mut out, self.t_cpu_bits);
        push_u32_le(&mut out, self.v_bat_bits);
        push_u32_le(&mut out, self.data_len);
        push_u32_le(&mut out, self.data_crc32);
        assert(out@ =~= header_bytes(*self));
        out
    }

    /// The header that the first 52 bytes of `b` encode; no check is made on
    /// the values.
    pub fn from_bytes(b: &[u8]) -> (r: DataPacketHeader)
        requires
            b@.len() >= HEADER_SIZE,
        ensures
            header_matches(r, b@),
    {
        let lo: u32 = read_u32_le(b, 8);
        let hi: u32 = read_u32_le(b, 12);
        DataPacketHeader {
            prev_block_id: read_u32_le(b, 0),
            this_block_id: read_u32_le(b, 4),
            timestamp: (lo as u64) | ((hi as u64) << 32u64),
            targets: [read_u32_le(b, 16), read_u32_le(b, 20)],
            base_interval_ms: read_u32_le(b, 24),
            interleave_ratio: [read_u32_le(b, 28), read_u32_le(b, 32)],
            t_cpu_bits: read_u32_le(b, 36),
            v_bat_bits: read_u32_le(b, 40),
            data_len: read_u32_le(b, 44),
            data_crc32: read_u32_le(b, 48),
        }
    }
}

} // verus!
