//! The page packer: a header and the answers of a bounded compressor, turned
//! into push results and, once the page is full, into the page bytes.
use vstd::prelude::*;
use vstd::slice::slice_subrange;
use crate::header::{DataPacketHeader, HEADER_SIZE, header_bytes};

verus! {

/// Outcome of pushing data into a packer.
#[derive(Clone, Copy, Debug, PartialEq, Eq, Structural)]
pub enum PushResult {
    /// The data was taken and the page still has room.
    Success,
    /// The data was taken and the page is now complete.
    Full,
    /// The data does not fit in what is left of the page; nothing changed.
    Overflow,
    /// The page was already complete; the push was ignored.
    Finished,
}

/// What the page's bounded compressor answered to one push.
pub enum EncoderReply {
    /// The input was taken and the output budget is not exhausted.
    Accepted,
    /// The input was taken and the output budget is now exhausted: the
    /// compressor finished and handed over its buffer, which holds
    /// `HEADER_SIZE` reserved bytes followed by the compressed payload.
    Completed(Vec<u8>),
    /// The input would exceed the output budget; the compressor is unchanged.
    Refused,
}

/// Settings for a new packer: the header it starts from and the page size.
pub struct DataBlockPackerBuilder {
    header: DataPacketHeader,
    size: usize,
}

/// Builds one page: owns its header until the page is complete, then the
/// compressor's buffer, which the finalizers turn into the page bytes.
pub struct DataBlockPacker {
    /// Header of the page; `data_len` and `data_crc32` are set on finalization.
    pub header: DataPacketHeader,
    size: usize,
    result: Option<Vec<u8>>,
}

/// The push result for a reply of the compressor, while the page is open.
pub open spec fn reply_outcome(reply: EncoderReply) -> PushResult {
    match reply {
        EncoderReply::Accepted => PushResult::Success,
        EncoderReply::Completed(_) => PushResult::Full,
        EncoderReply::Refused => PushResult::Overflow,
    }
}

/// The push result for a reply, given whether the page was already complete.
pub open spec fn push_outcome(complete: bool, reply: EncoderReply) -> PushResult {
    if complete {
        PushResult::Finished
    } else {
        reply_outcome(reply)
    }
}

/// Whether the page is complete after a reply.
pub open spec fn next_complete(complete: bool, reply: EncoderReply) -> bool {
    complete || reply is Completed
}

/// The push results for a run of replies, starting complete or not.
pub open spec fn push_outcomes(complete: bool, replies: Seq<EncoderReply>) -> Seq<PushResult>
    decreases replies.len(),
{
    if replies.len() == 0 {
        Seq::empty()
    } else {
        seq![push_outcome(complete, replies[0])] + push_outcomes(
            next_complete(complete, replies[0]),
            replies.drop_first(),
        )
    }
}

proof fn lemma_outcomes_complete(replies: Seq<EncoderReply>)
    ensures
        push_outcomes(true, replies).len() == replies.len(),
        forall|i: int|
            0 <= i < replies.len() ==> #[trigger] push_outcomes(true, replies)[i]
                == PushResult::Finished,
    decreases replies.len(),
{
    if replies.len() > 0 {
        lemma_outcomes_complete(replies.drop_first());
        assert forall|i: int| 0 <= i < replies.len() implies #[trigger] push_outcomes(
            true,
            replies,
        )[i] == PushResult::Finished by {
            if i > 0 {
                assert(push_outcomes(true, replies)[i] == push_outcomes(
                    true,
                    replies.drop_first(),
                )[i - 1]);
            }
        }
    }
}

/// Filling a page: where the compressor accepts every push but the `n`-th,
/// which completes the page, the first `n - 1` pushes are `Success`, the
/// `n`-th is `Full`, and every push after it is `Finished`.
pub proof fn lemma_fill_page(replies: Seq<EncoderReply>, n: int)
    requires
        0 < n <= replies.len(),
        forall|i: int| 0 <= i < n - 1 ==> #[trigger] replies[i] is Accepted,
        replies[n - 1] is Completed,
    ensures
        push_outcomes(false, replies).len() == replies.len(),
        forall|i: int| 0 <= i < n - 1 ==> #[trigger] push_outcomes(false, replies)[i]
            == PushResult::Success,
        push_outcomes(false, replies)[n - 1] == PushResult::Full,
        forall|i: int| n <= i < replies.len() ==> #[trigger] push_outcomes(false, replies)[i]
            == PushResult::Finished,
    decreases n,
{
    let rest = replies.drop_first();
    if n == 1 {
        lemma_outcomes_complete(rest);
        assert forall|i: int| n <= i < replies.len() implies #[trigger] push_outcomes(
            false,
            replies,
        )[i] == PushResult::Finished by {
            assert(push_outcomes(false, replies)[i] == push_outcomes(true, rest)[i - 1]);
        }
    } else {
        assert(replies[0] is Accepted);
        lemma_fill_page(rest, n - 1);
        assert forall|i: int| 0 < i < replies.len() implies #[trigger] push_outcomes(
            false,
            replies,
        )[i] == push_outcomes(false, rest)[i - 1] by {}
        assert forall|i: int| 0 <= i < n - 1 implies #[trigger] push_outcomes(false, replies)[i]
            == PushResult::Success by {
            if i > 0 {
                assert(rest[i - 1] == replies[i]);
            }
        }
    }
}

/// `h` with the payload length and checksum stamped in.
pub open spec fn stamped(h: DataPacketHeader, len: u32, crc: u32) -> DataPacketHeader {
    DataPacketHeader { data_len: len, data_crc32: crc, ..h }
}

/// The payload part of a compressor buffer: what follows the reserved bytes.
pub open spec fn payload_of(buf: Seq<u8>) -> Seq<u8> {
    buf.subrange(HEADER_SIZE as int, buf.len() as int)
}

/// The trimmed page for a compressor buffer: the header, with the payload's
/// length and checksum, followed by the payload.
pub open spec fn trimmed_page(h: DataPacketHeader, buf: Seq<u8>, crc: u32) -> Seq<u8> {
    header_bytes(stamped(h, (buf.len() - HEADER_SIZE) as u32, crc)) + payload_of(buf)
}

/// The full page: the trimmed page followed by zero bytes up to `size`.
pub open spec fn full_page(h: DataPacketHeader, buf: Seq<u8>, crc: u32, size: nat) -> Seq<u8> {
    trimmed_page(h, buf, crc) + Seq::new((size - buf.len()) as nat, |i: int| 0u8)
}

/// The default settings: chain numbers 0, timestamp 0, targets 0, a base
/// interval of 1000 ms, both channels sampled at every base index, telemetry
/// 0, and pages of 4096 bytes.
pub open spec fn default_builder_header() -> DataPacketHeader {
    DataPacketHeader {
        prev_block_id: 0,
        this_block_id: 0,
        timestamp: 0,
        targets: [0, 0],
        base_interval_ms: 1000,
        interleave_ratio: [1, 1],
        t_cpu_bits: 0,
        v_bat_bits: 0,
        data_len: 0,
        data_crc32: 0,
    }
}

impl Default for DataBlockPackerBuilder {
    fn default() -> (r: Self)
        ensures
            r.spec_header() == default_builder_header(),
            r.spec_size() == 4096,
    {
        DataBlockPackerBuilder {
            header: DataPacketHeader {
                prev_block_id: 0,
                this_block_id: 0,
                timestamp: 0,
                targets: [0, 0],
                base_interval_ms: 1000,
                interleave_ratio: [1, 1],
                t_cpu_bits: 0,
                v_bat_bits: 0,
                data_len: 0,
                data_crc32: 0,
            },
            size: 4096,
        }
    }
}

impl DataBlockPackerBuilder {
    /// The header that the packer will start from.
    pub closed spec fn spec_header(self) -> DataPacketHeader {
        self.header
    }

    /// The page size that the packer will have.
    pub closed spec fn spec_size(self) -> usize {
        self.size
    }

    /// Sets the chain numbers of the page.
    pub fn set_ids(self, prev_block_id: u32, this_block_id: u32) -> (r: Self)
        ensures
            r.spec_header() == (DataPacketHeader {
                prev_block_id,
                this_block_id,
                ..self.spec_header()
            }),
            r.spec_size() == self.spec_size(),
    {
        let mut s = self;
        s.header.prev_block_id = prev_block_id;
        s.header.this_block_id = this_block_id;
        s
    }

    /// Sets the reference counter values of both channels.
    pub fn set_targets(self, targets: [u32; 2]) -> (r: Self)
        ensures
            r.spec_header() == (DataPacketHeader { targets, ..self.spec_header() }),
            r.spec_size() == self.spec_size(),
    {
        let mut s = self;
        s.header.targets = targets;
        s
    }

    /// Sets the base sampling interval and the per-channel interleave ratios.
    pub fn set_write_cfg(self, base_interval_ms: u32, interleave_ratio: [u32; 2]) -> (r: Self)
        ensures
            r.spec_header() == (DataPacketHeader {
                base_interval_ms,
                interleave_ratio,
                ..self.spec_header()
            }),
            r.spec_size() == self.spec_size(),
    {
        let mut s = self;
        s.header.base_interval_ms = base_interval_ms;
        s.header.interleave_ratio = interleave_ratio;
        s
    }

    /// Sets the CPU temperature, given as the bit pattern of its `f32` value.
    pub fn set_tcpu(self, t_cpu_bits: u32) -> (r: Self)
        ensures
            r.spec_header() == (DataPacketHeader { t_cpu_bits, ..self.spec_header() }),
            r.spec_size() == self.spec_size(),
    {
        let mut s = self;
        s.header.t_cpu_bits = t_cpu_bits;
        s
    }

    /// Sets the battery voltage, given as the bit pattern of its `f32` value.
    pub fn set_vbat(self, v_bat_bits: u32) -> (r: Self)
        ensures
            r.spec_header() == (DataPacketHeader { v_bat_bits, ..self.spec_header() }),
            r.spec_size() == self.spec_size(),
    {
        let mut s = self;
        s.header.v_bat_bits = v_bat_bits;
        s
    }

    /// Sets the capture start time of the page.
    pub fn set_timestamp(self, timestamp: u64) -> (r: Self)
        ensures
            r.spec_header() == (DataPacketHeader { timestamp, ..self.spec_header() }),
            r.spec_size() == self.spec_size(),
    {
        let mut s = self;
        s.header.timestamp = timestamp;
        s
    }

    /// Sets the page size in bytes, header included.
    pub fn set_size(self, size: usize) -> (r: Self)
        ensures
            r.spec_header() == self.spec_header(),
            r.spec_size() == size,
    {
        let mut s = self;
        s.size = size;
        s
    }

    /// The packer for these settings. A page must have room for more than
    /// its header, and its length must fit the header's 32-bit length field.
    pub fn build(self) -> (r: DataBlockPacker)
        requires
            HEADER_SIZE < self.spec_size() <= u32::MAX,
        ensures
            r.wf(),
            r.spec_header() == self.spec_header(),
            r.page_size() == self.spec_size(),
            !r.is_complete(),
    {
        DataBlockPacker { header: self.header, size: self.size, result: None }
    }

    /// The packer for these settings, or `None` where the page size leaves no
    /// room after the header or exceeds the 32-bit length field.
    pub fn try_build(self) -> (r: Option<DataBlockPacker>)
        ensures
            r is None <==> !(HEADER_SIZE < self.spec_size() <= u32::MAX),
            r matches Some(p) ==> p.wf() && p.spec_header() == self.spec_header() && p.page_size()
                == self.spec_size() && !p.is_complete(),
    {
        if self.size > HEADER_SIZE && self.size <= 0xffff_ffff {
            Some(self.build())
        } else {
            None
        }
    }
}

impl DataBlockPacker {
    /// The header of the page.
    pub closed spec fn spec_header(self) -> DataPacketHeader {
        self.header
    }

    /// The page size in bytes, header included.
    pub closed spec fn page_size(self) -> usize {
        self.size
    }

    /// True once the compressor has completed the page.
    pub closed spec fn is_complete(self) -> bool {
        self.result is Some
    }

    /// The compressor's buffer, once the page is complete.
    pub closed spec fn buffer(self) -> Seq<u8> {
        self.result->Some_0@
    }

    /// The page has room for more than its header, its length fits the
    /// header's 32-bit length field, and a completed buffer holds the reserved
    /// header bytes and fits in the page.
    pub closed spec fn wf(self) -> bool {
        &&& HEADER_SIZE < self.size <= u32::MAX
        &&& self.result matches Some(d) ==> HEADER_SIZE <= d@.len() <= self.size
    }

    /// A builder with the default settings.
    pub fn builder() -> (r: DataBlockPackerBuilder)
        ensures
            r.spec_header() == default_builder_header(),
            r.spec_size() == 4096,
    {
        DataBlockPackerBuilder::default()
    }

    /// The page size in bytes, header included.
    pub fn size(&self) -> (r: usize)
        ensures
            r == self.page_size(),
    {
        self.size
    }

    /// True once the page is complete: every further push is `Finished`.
    pub fn is_finished(&self) -> (r: bool)
        ensures
            r == self.is_complete(),
    {
        self.result.is_some()
    }

    /// Takes the compressor's reply to one push. While the page is open an
    /// accepted push is `Success`, a refused one `Overflow` with nothing
    /// changed, and a completing one `Full`, after which the packer keeps the
    /// compressor's buffer. Once the page is complete every push is
    /// `Finished` and changes nothing.
    pub fn process_push_result(&mut self, reply: EncoderReply) -> (r: PushResult)
        requires
            old(self).wf(),
            reply matches EncoderReply::Completed(d)
                ==> HEADER_SIZE <= d@.len() <= old(self).page_size(),
        ensures
            final(self).wf(),
            final(self).spec_header() == old(self).spec_header(),
            final(self).page_size() == old(self).page_size(),
            r == push_outcome(old(self).is_complete(), reply),
            final(self).is_complete() == next_complete(old(self).is_complete(), reply),
            old(self).is_complete() || !(reply is Completed) ==> *final(self) == *old(self),
            !old(self).is_complete() ==> (reply matches EncoderReply::Completed(d)
                ==> final(self).buffer() == d@),
    {
        if self.result.is_some() {
            return PushResult::Finished;
        }
        match reply {
            EncoderReply::Accepted => PushResult::Success,
            EncoderReply::Completed(d) => {
                self.result = Some(d);
                PushResult::Full
            },
            EncoderReply::Refused => PushResult::Overflow,
        }
    }

    /// The header, with the payload's length and checksum, followed by the payload.
    fn frame<F: FnOnce(&[u8]) -> u32>(header: DataPacketHeader, d: &Vec<u8>, f: F) -> (r: Vec<u8>)
        requires
            HEADER_SIZE <= d@.len() <= u32::MAX,
            forall|s: &[u8]| f.requires((s,)),
        ensures
            exists|s: &[u8], crc: u32|
                s@ == payload_of(d@) && f.ensures((s,), crc) && r@ == trimmed_page(
                    header,
                    d@,
                    crc,
                ),
    {
        let payload = slice_subrange(d.as_slice(), HEADER_SIZE, d.len());
        let crc = f(payload);
        let h = DataPacketHeader {
            data_len: (d.len() - HEADER_SIZE) as u32,
            data_crc32: crc,
            ..header
        };
        let mut out = h.to_bytes();
        let mut i: usize = HEADER_SIZE;
        while i < d.len()
            invariant
                HEADER_SIZE <= i <= d@.len(),
                out@ == header_bytes(h) + d@.subrange(HEADER_SIZE as int, i as int),
            decreases d@.len() - i,
        {
            out.push(d[i]);
            i += 1;
            assert(out@ =~= header_bytes(h) + d@.subrange(HEADER_SIZE as int, i as int));
        }
        assert(h == stamped(header, (d@.len() - HEADER_SIZE) as u32, crc));
        assert(payload@ == payload_of(d@));
        out
    }

    /// The completed page sized to header plus payload, with the payload's
    /// length and its checksum by `f` stamped into the header; `None` where
    /// the compressor has not completed the page.
    pub fn to_result_trimmed<F: FnOnce(&[u8]) -> u32>(self, f: F) -> (r: Option<Vec<u8>>)
        requires
            self.wf(),
            forall|s: &[u8]| f.requires((s,)),
        ensures
            r is Some <==> self.is_complete(),
            r matches Some(v) ==> exists|s: &[u8], crc: u32|
                s@ == payload_of(self.buffer()) && f.ensures((s,), crc) && v@ == trimmed_page(
                    self.spec_header(),
                    self.buffer(),
                    crc,
                ),
    {
        match self.result {
            Some(d) => {
                Some(Self::frame(self.header, &d, f))
            },
            None => None,
        }
    }

    /// As `to_result_trimmed`, with the page padded by zero bytes up to the
    /// full page size, for media that take whole pages only.
    pub fn to_result_full<F: FnOnce(&[u8]) -> u32>(self, f: F) -> (r: Option<Vec<u8>>)
        requires
            self.wf(),
            forall|s: &[u8]| f.requires((s,)),
        ensures
            r is Some <==> self.is_complete(),
            r matches Some(v) ==> v@.len() == self.page_size() && exists|s: &[u8], crc: u32|
                s@ == payload_of(self.buffer()) && f.ensures((s,), crc) && v@ == full_page(
                    self.spec_header(),
                    self.buffer(),
                    crc,
                    self.page_size() as nat,
                ),
    {
        match self.result {
            Some(d) => {
                let mut out = Self::frame(self.header, &d, f);
                let ghost framed = out@;
                let size = self.size;
                while out.len() < size
                    invariant
                        framed.len() == d@.len() <= out@.len() <= size,
                        out@ == framed + Seq::new((out@.len() - d@.len()) as nat, |i: int| 0u8),
                    decreases size - out@.len(),
                {
                    out.push(0u8);
                    assert(out@ =~= framed + Seq::new((out@.len() - d@.len()) as nat, |i: int| 0u8));
                }
                Some(out)
            },
            None => None,
        }
    }
}

} // verus!
