//! Reading a page back: its header, its stored payload, the checksum test,
//! and the payload's decompressed bytes as 32-bit words.
use vstd::prelude::*;
use crate::header::{
    DataPacketHeader,
    HEADER_SIZE,
    header_bytes,
    header_matches,
    lemma_header_round_trip,
    lemma_u32_at_bytes,
    same_fields,
    u32_at,
    u32_le_bytes,
};
use crate::packer::{full_page, payload_of, stamped, trimmed_page};

verus! {

/// The CRC-32 (IEEE polynomial, as in zlib) of a byte sequence.
pub uninterp spec fn crc32_of(b: Seq<u8>) -> u32;

/// Relies on `crc32fast::hash`: the CRC-32 of the bytes, a function of them alone.
#[verifier::external_body]
fn crc32(b: &[u8]) -> (r: u32)
    ensures
        r == crc32_of(b@),
{
    crc32fast::hash(b)
}

/// Why decompressed bytes could not be read as words.
#[derive(Clone, Copy, Debug, PartialEq, Eq, Structural)]
pub enum UnpackError {
    /// The byte count is not a multiple of the word size.
    Misaligned,
}

/// The payload length that the header at the start of `b` records.
pub open spec fn recorded_len(b: Seq<u8>) -> int {
    u32_at(b, 44) as int
}

/// The stored payload of page bytes `b`: what follows the header, up to the
/// recorded payload length or the end of `b`, whichever comes first.
pub open spec fn stored_payload(b: Seq<u8>) -> Seq<u8> {
    let end = if HEADER_SIZE + recorded_len(b) <= b.len() {
        HEADER_SIZE + recorded_len(b)
    } else {
        b.len() as int
    };
    b.subrange(HEADER_SIZE as int, end)
}

/// Page bytes `b` are consistent: the recorded payload lies within `b` and
/// its CRC-32 is the recorded checksum.
pub open spec fn page_consistent(b: Seq<u8>) -> bool {
    &&& HEADER_SIZE + recorded_len(b) <= b.len()
    &&& crc32_of(stored_payload(b)) == u32_at(b, 48)
}

/// The words that `b` holds, four bytes each, least significant byte first.
pub open spec fn words_of(b: Seq<u8>) -> Seq<u32> {
    Seq::new(b.len() / 4, |i: int| u32_at(b, 4 * i))
}

/// The bytes of a word sequence, each word least significant byte first.
pub open spec fn words_bytes(w: Seq<u32>) -> Seq<u8>
    decreases w.len(),
{
    if w.len() == 0 {
        Seq::empty()
    } else {
        words_bytes(w.drop_last()) + u32_le_bytes(w.last())
    }
}

/// Holds the bytes of one page for reading.
pub struct DataBlockUnPacker {
    data: Vec<u8>,
}

impl DataBlockUnPacker {
    /// The page bytes.
    pub closed spec fn bytes(self) -> Seq<u8> {
        self.data@
    }

    /// Takes the bytes of one page.
    pub fn new(data: Vec<u8>) -> (r: Self)
        ensures
            r.bytes() == data@,
    {
        DataBlockUnPacker { data }
    }

    /// The header at the start of the page, as stored; no check is made.
    pub fn hader(&self) -> (r: DataPacketHeader)
        requires
            self.bytes().len() >= HEADER_SIZE,
        ensures
            header_matches(r, self.bytes()),
    {
        DataPacketHeader::from_bytes(self.data.as_slice())
    }

    /// The stored payload: the compressed bytes after the header, without the
    /// padding that follows the recorded length.
    pub fn payload(&self) -> (r: Vec<u8>)
        requires
            self.bytes().len() >= HEADER_SIZE,
        ensures
            r@ == stored_payload(self.bytes()),
    {
        let len: usize = self.hader().data_len as usize;
        let end: usize = if len <= self.data.len() - HEADER_SIZE {
            HEADER_SIZE + len
        } else {
            self.data.len()
        };
        let mut out: Vec<u8> = Vec::new();
        let mut i: usize = HEADER_SIZE;
        while i < end
            invariant
                HEADER_SIZE <= i <= end <= self.data@.len(),
                out@ == self.data@.subrange(HEADER_SIZE as int, i as int),
            decreases end - i,
        {
            out.push(self.data[i]);
            i += 1;
            assert(out@ =~= self.data@.subrange(HEADER_SIZE as int, i as int));
        }
        out
    }

    /// True iff the recorded payload lies within the page and its CRC-32 is
    /// the checksum that the header records.
    pub fn verify(&self) -> (r: bool)
        requires
            self.bytes().len() >= HEADER_SIZE,
        ensures
            r == page_consistent(self.bytes()),
    {
        let h = self.hader();
        let len: usize = h.data_len as usize;
        if len > self.data.len() - HEADER_SIZE {
            return false;
        }
        let payload = vstd::slice::slice_subrange(self.data.as_slice(), HEADER_SIZE, HEADER_SIZE + len);
        crc32(payload) == h.data_crc32
    }
}

/// The decompressed payload `b` read as 32-bit words, or `Misaligned` where
/// its length is not a multiple of four.
pub fn unpack_words(b: &[u8]) -> (r: Result<Vec<u32>, UnpackError>)
    ensures
        r is Err <==> b@.len() % 4 != 0,
        r matches Ok(w) ==> w@ == words_of(b@),
{
    if b.len() % 4 != 0 {
        return Err(UnpackError::Misaligned);
    }
    let mut out: Vec<u32> = Vec::new();
    let mut i: usize = 0;
    while i < b.len() / 4
        invariant
            b@.len() % 4 == 0,
            i <= b@.len() / 4,
            out@ == words_of(b@).take(i as int),
        decreases b@.len() / 4 - i,
    {
        let w = (b[4 * i] as u32) | ((b[4 * i + 1] as u32) << 8u32) | ((b[4 * i + 2] as u32)
            << 16u32) | ((b[4 * i + 3] as u32) << 24u32);
        out.push(w);
        i += 1;
        assert(out@ =~= words_of(b@).take(i as int));
    }
    assert(out@ =~= words_of(b@));
    Ok(out)
}

proof fn lemma_matches_unique(a: DataPacketHeader, c: DataPacketHeader, b: Seq<u8>)
    requires
        header_matches(a, b),
        header_matches(c, b),
    ensures
        same_fields(a, c),
{
}

proof fn lemma_framed_page(h: DataPacketHeader, payload: Seq<u8>, pad: Seq<u8>, crc: u32)
    requires
        payload.len() <= u32::MAX,
    ensures
        ({
            let st = stamped(h, payload.len() as u32, crc);
            let page = header_bytes(st) + payload + pad;
            &&& forall|hh: DataPacketHeader| #[trigger]
                header_matches(hh, page) ==> same_fields(hh, st)
            &&& stored_payload(page) == payload
            &&& page_consistent(page) == (crc32_of(payload) == crc)
        }),
{
    let st = stamped(h, payload.len() as u32, crc);
    let page = header_bytes(st) + payload + pad;
    lemma_header_round_trip(st, payload + pad);
    assert(page =~= header_bytes(st) + (payload + pad));
    assert forall|hh: DataPacketHeader| #[trigger]
        header_matches(hh, page) implies same_fields(hh, st) by {
        lemma_matches_unique(hh, st, page);
    }
    assert(recorded_len(page) == payload.len());
    assert(stored_payload(page) =~= payload);
}

/// A page read back: the header stored in a trimmed or a full page has the
/// packer's header fields with the payload length and checksum stamped in,
/// the stored payload is the compressor's payload, and the page passes the
/// checksum test iff the stamped checksum is the payload's CRC-32.
pub proof fn lemma_page_round_trip(h: DataPacketHeader, buf: Seq<u8>, crc: u32, size: nat)
    requires
        HEADER_SIZE <= buf.len() <= u32::MAX,
        buf.len() <= size,
    ensures
        ({
            let st = stamped(h, (buf.len() - HEADER_SIZE) as u32, crc);
            &&& forall|hh: DataPacketHeader| #[trigger]
                header_matches(hh, trimmed_page(h, buf, crc)) ==> same_fields(hh, st)
            &&& forall|hh: DataPacketHeader| #[trigger]
                header_matches(hh, full_page(h, buf, crc, size)) ==> same_fields(hh, st)
            &&& stored_payload(trimmed_page(h, buf, crc)) == payload_of(buf)
            &&& stored_payload(full_page(h, buf, crc, size)) == payload_of(buf)
            &&& page_consistent(trimmed_page(h, buf, crc)) == (crc32_of(payload_of(buf)) == crc)
            &&& page_consistent(full_page(h, buf, crc, size)) == (crc32_of(payload_of(buf))
                == crc)
        }),
{
    let payload = payload_of(buf);
    let st = stamped(h, (buf.len() - HEADER_SIZE) as u32, crc);
    let zeros = Seq::new((size - buf.len()) as nat, |i: int| 0u8);
    lemma_framed_page(h, payload, Seq::empty(), crc);
    assert(trimmed_page(h, buf, crc) =~= header_bytes(st) + payload + Seq::empty());
    lemma_framed_page(h, payload, zeros, crc);
    assert(full_page(h, buf, crc, size) == header_bytes(st) + payload + zeros);
}

proof fn lemma_words_bytes(w: Seq<u32>)
    ensures
        words_bytes(w).len() == 4 * w.len(),
        forall|i: int|
            0 <= i < w.len() ==> #[trigger] words_bytes(w).subrange(4 * i, 4 * i + 4)
                == u32_le_bytes(w[i]),
    decreases w.len(),
{
    if w.len() > 0 {
        let pre = w.drop_last();
        lemma_words_bytes(pre);
        assert forall|i: int| 0 <= i < w.len() implies #[trigger] words_bytes(w).subrange(
            4 * i,
            4 * i + 4,
        ) == u32_le_bytes(w[i]) by {
            if i < w.len() - 1 {
                assert(words_bytes(pre).subrange(4 * i, 4 * i + 4) == u32_le_bytes(pre[i]));
                assert(words_bytes(w).subrange(4 * i, 4 * i + 4) =~= words_bytes(pre).subrange(
                    4 * i,
                    4 * i + 4,
                ));
            } else {
                assert(words_bytes(w).subrange(4 * i, 4 * i + 4) =~= u32_le_bytes(w.last()));
            }
        }
    }
}

/// Words written as bytes, least significant byte first, read back as words
/// are the same words; their byte count is always whole words.
pub proof fn lemma_words_round_trip(w: Seq<u32>)
    ensures
        words_bytes(w).len() % 4 == 0,
        words_of(words_bytes(w)) == w,
{
    lemma_words_bytes(w);
    let b = words_bytes(w);
    assert forall|i: int| 0 <= i < w.len() implies #[trigger] words_of(b)[i] == w[i] by {
        assert(b.subrange(4 * i, 4 * i + 4) == u32_le_bytes(w[i]));
        lemma_u32_at_bytes(b, 4 * i, w[i]);
    }
    assert(words_of(b) =~= w);
}

} // verus!
