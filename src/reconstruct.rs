//! Rebuilding the two sampled channels from the words of a page, and from a
//! sequence of pages.
use vstd::prelude::*;
use crate::add_signed::{
    saturating_apply_delta,
    saturating_apply_delta_spec,
    word_as_signed,
    word_to_signed,
};
use crate::header::{
    DataPacketHeader,
    HEADER_SIZE,
    chain_prev_id,
    header_bytes,
    header_matches,
    lemma_header_round_trip,
};
use crate::unpacker::{DataBlockUnPacker, UnpackError, page_consistent, unpack_words, words_of};

verus! {

/// One reconstructed sample of a channel: when it was taken and the raw
/// counter value that was measured.
#[derive(Clone, Copy, Debug, PartialEq, Eq, Structural)]
pub struct Record {
    /// Milliseconds since the start of recording.
    pub timesstamp: u64,
    /// The raw counter value.
    pub result: u32,
}

/// `a / b` rounded up, for `a >= 0` and `b > 0`.
pub open spec fn ceil_div(a: int, b: int) -> int {
    (a + b - 1) / b
}

/// Position in the word stream of the `k`-th sample of channel `c`.
///
/// Base index `i` contributes a word for channel 0 when `i % r0 == 0`, then
/// one for channel 1 when `i % r1 == 0`. The `k`-th sample of channel 0 is
/// taken at base index `k * r0` and is preceded by the samples of both
/// channels at the indices below it; the `k`-th sample of channel 1, at
/// `k * r1`, is also preceded by the sample of channel 0 at that index.
pub open spec fn sample_pos(c: int, k: int, r0: int, r1: int) -> int {
    if c == 0 {
        k + ceil_div(k * r0, r1)
    } else {
        (k * r1) / r0 + 1 + k
    }
}

/// The interleave ratio of channel `c`.
pub open spec fn ratio_of(h: DataPacketHeader, c: int) -> int {
    if c == 0 {
        h.interleave_ratio[0] as int
    } else {
        h.interleave_ratio[1] as int
    }
}

/// Where in the stream the `k`-th sample of channel `c` of page `h` lies.
pub open spec fn page_sample_pos(h: DataPacketHeader, c: int, k: int) -> int {
    sample_pos(c, k, h.interleave_ratio[0] as int, h.interleave_ratio[1] as int)
}

/// The raw counter after the `k`-th sample of channel `c`: starting from 0,
/// each sample applies its stored word, read as a signed difference, with
/// results outside `u32` becoming 0.
pub open spec fn running_counter(h: DataPacketHeader, words: Seq<u32>, c: int, k: int) -> u32
    decreases k,
{
    let prev = if k <= 0 {
        0u32
    } else {
        running_counter(h, words, c, k - 1)
    };
    saturating_apply_delta_spec(prev, word_as_signed(words[page_sample_pos(h, c, k)]))
}

/// Time of the `k`-th sample of channel `c`: the page's start plus the base
/// interval times the sample's base index, modulo 2^64.
pub open spec fn sample_time(h: DataPacketHeader, c: int, k: int) -> u64 {
    ((h.timestamp + k * ratio_of(h, c) * h.base_interval_ms) % 0x1_0000_0000_0000_0000int) as u64
}

/// `recs` is channel `c` rebuilt from the words of page `h`: none where a
/// ratio is zero; otherwise one record for each sample whose word lies in
/// the stream, up to the first that does not.
pub open spec fn channel_rebuilt(
    h: DataPacketHeader,
    words: Seq<u32>,
    c: int,
    recs: Seq<Record>,
) -> bool {
    if h.interleave_ratio[0] == 0 || h.interleave_ratio[1] == 0 {
        recs.len() == 0
    } else {
        &&& forall|k: int|
            #![trigger recs[k]]
            #![trigger page_sample_pos(h, c, k)]
            0 <= k < recs.len() ==> page_sample_pos(h, c, k) < words.len() && recs[k]
                == (Record {
                timesstamp: sample_time(h, c, k),
                result: running_counter(h, words, c, k),
            })
        &&& page_sample_pos(h, c, recs.len() as int) >= words.len()
    }
}

/// The rebuilt records of a channel are determined by the page and its
/// words: two sequences that both satisfy `channel_rebuilt` are equal.
pub proof fn lemma_channel_rebuilt_unique(
    h: DataPacketHeader,
    words: Seq<u32>,
    c: int,
    a: Seq<Record>,
    b: Seq<Record>,
)
    requires
        channel_rebuilt(h, words, c, a),
        channel_rebuilt(h, words, c, b),
    ensures
        a == b,
{
    if !(h.interleave_ratio[0] == 0 || h.interleave_ratio[1] == 0) {
        if a.len() < b.len() {
            assert(page_sample_pos(h, c, a.len() as int) < words.len());
        }
        if b.len() < a.len() {
            assert(page_sample_pos(h, c, b.len() as int) < words.len());
        }
    }
    assert(a =~= b);
}

proof fn lemma_pos_bounds(c: int, k: int, r0: int, r1: int)
    requires
        0 <= c <= 1,
        0 <= k,
        r0 > 0,
        r1 > 0,
    ensures
        k <= sample_pos(c, k, r0, r1),
        sample_pos(c, k, r0, r1) < sample_pos(c, k + 1, r0, r1),
{
    if c == 0 {
        assert(k * r0 + r0 == (k + 1) * r0) by (nonlinear_arith);
        assert(0 <= k * r0) by (nonlinear_arith)
            requires
                0 <= k,
                r0 > 0,
        ;
        assert((k * r0 + r1 - 1) / r1 <= ((k + 1) * r0 + r1 - 1) / r1) by (nonlinear_arith)
            requires
                0 <= k,
                r0 > 0,
                r1 > 0,
        {
            vstd::arithmetic::div_mod::lemma_div_is_ordered(
                k * r0 + r1 - 1,
                (k + 1) * r0 + r1 - 1,
                r1,
            );
        }
        assert(0 <= (k * r0 + r1 - 1) / r1) by (nonlinear_arith)
            requires
                0 <= k * r0,
                r1 > 0,
        ;
    } else {
        assert(0 <= k * r1) by (nonlinear_arith)
            requires
                0 <= k,
                r1 > 0,
        ;
        assert((k * r1) / r0 <= ((k + 1) * r1) / r0) by (nonlinear_arith)
            requires
                0 <= k,
                r0 > 0,
                r1 > 0,
        {
            vstd::arithmetic::div_mod::lemma_div_is_ordered(k * r1, (k + 1) * r1, r0);
        }
        assert(0 <= (k * r1) / r0) by (nonlinear_arith)
            requires
                0 <= k * r1,
                r0 > 0,
        ;
    }
}

/// The records of channel `c` (0 or 1) of page `h`, rebuilt from the page's words.
pub fn reconstruct_channel(h: &DataPacketHeader, words: &Vec<u32>, c: usize) -> (r: Vec<Record>)
    requires
        c <= 1,
    ensures
        channel_rebuilt(*h, words@, c as int, r@),
{
    let mut out: Vec<Record> = Vec::new();
    if h.interleave_ratio[0] == 0 || h.interleave_ratio[1] == 0 {
        return out;
    }
    let r0: u128 = h.interleave_ratio[0] as u128;
    let r1: u128 = h.interleave_ratio[1] as u128;
    let rc: u128 = if c == 0 {
        r0
    } else {
        r1
    };
    let base: u128 = h.base_interval_ms as u128;
    let len: u128 = words.len() as u128;
    let mut acc: u32 = 0;
    let mut k: u128 = 0;
    assert(words@.len() <= 0xffff_ffff_ffff_ffff);
    loop
        invariant
            len <= 0xffff_ffff_ffff_ffffu128,
            len <= usize::MAX,
            r0 == h.interleave_ratio[0] as int,
            r1 == h.interleave_ratio[1] as int,
            r0 > 0,
            r1 > 0,
            rc == ratio_of(*h, c as int),
            base == h.base_interval_ms,
            len == words@.len(),
            c <= 1,
            k == out@.len(),
            k <= len,
            k > 0 ==> acc == running_counter(*h, words@, c as int, k - 1),
            k == 0 ==> acc == 0,
            forall|j: int|
                #![trigger out@[j]]
                #![trigger page_sample_pos(*h, c as int, j)]
                0 <= j < k ==> page_sample_pos(*h, c as int, j) < words@.len() && out@[j]
                    == (Record {
                    timesstamp: sample_time(*h, c as int, j),
                    result: running_counter(*h, words@, c as int, j),
                }),
        ensures
            page_sample_pos(*h, c as int, out@.len() as int) >= words@.len(),
            forall|j: int|
                #![trigger out@[j]]
                #![trigger page_sample_pos(*h, c as int, j)]
                0 <= j < out@.len() ==> page_sample_pos(*h, c as int, j) < words@.len()
                    && out@[j] == (Record {
                    timesstamp: sample_time(*h, c as int, j),
                    result: running_counter(*h, words@, c as int, j),
                }),
        decreases len - k,
    {
        proof {
            lemma_pos_bounds(c as int, k as int, r0 as int, r1 as int);
            assert(k * r0 <= 0xffff_ffff_ffff_ffff * 0xffff_ffff) by (nonlinear_arith)
                requires
                    k <= 0xffff_ffff_ffff_ffffu128,
                    r0 <= 0xffff_ffffu128,
            ;
            assert(k * r1 <= 0xffff_ffff_ffff_ffff * 0xffff_ffff) by (nonlinear_arith)
                requires
                    k <= 0xffff_ffff_ffff_ffffu128,
                    r1 <= 0xffff_ffffu128,
            ;
            let (ki, r0i, r1i) = (k as int, r0 as int, r1 as int);
            assert((ki * r1i) / r0i <= ki * r1i) by (nonlinear_arith)
                requires
                    r0i > 0,
                    ki * r1i >= 0,
            ;
            assert((ki * r0i + r1i - 1) / r1i <= ki * r0i + r1i - 1) by (nonlinear_arith)
                requires
                    r1i > 0,
                    ki * r0i + r1i - 1 >= 0,
            ;
        }
        let pos: u128 = if c == 0 {
            k + (k * r0 + r1 - 1) / r1
        } else {
            (k * r1) / r0 + 1 + k
        };
        assert(pos == page_sample_pos(*h, c as int, k as int));
        if pos >= len {
            break;
        }
        let idx: usize = pos as usize;
        acc = saturating_apply_delta(acc, word_to_signed(words[idx]));
        assert(acc == running_counter(*h, words@, c as int, k as int));
        proof {
            assert(k * rc * base <= 0xffff_ffff_ffff_ffff * 0xffff_ffff * 0xffff_ffff)
                by (nonlinear_arith)
                requires
                    k <= 0xffff_ffff_ffff_ffffu128,
                    rc <= 0xffff_ffffu128,
                    base <= 0xffff_ffffu128,
            ;
        }
        let t: u64 = ((h.timestamp as u128 + k * rc * base) % 0x1_0000_0000_0000_0000u128) as u64;
        let rec = Record { timesstamp: t, result: acc };
        assert(rec == (Record {
            timesstamp: sample_time(*h, c as int, k as int),
            result: running_counter(*h, words@, c as int, k as int),
        }));
        out.push(rec);
        k += 1;
    }
    out
}

/// What one page yields: its header, whether it passed the checksum test, and
/// the records of both channels.
pub struct PageData {
    pub header: DataPacketHeader,
    pub consistant: bool,
    /// Records of the first channel.
    pub fp: Vec<Record>,
    /// Records of the second channel.
    pub ft: Vec<Record>,
}

/// The page's words are needed: it passed the checksum test, or failures are ignored.
pub open spec fn page_decoded(page: Seq<u8>, ignore_inconsistant: bool) -> bool {
    ignore_inconsistant || page_consistent(page)
}

/// The page's words are needed and its decompressed payload is not whole words.
pub open spec fn page_misaligned(page: Seq<u8>, decoded: Seq<u8>, ignore_inconsistant: bool) -> bool {
    page_decoded(page, ignore_inconsistant) && decoded.len() % 4 != 0
}

/// `pd` is what page bytes `page`, whose payload decompresses to `decoded`,
/// yield: the stored header, the checksum verdict, and both channels rebuilt
/// from the decompressed words, or no records where the page failed the
/// test and failures are not ignored.
pub open spec fn page_rebuilt(
    page: Seq<u8>,
    decoded: Seq<u8>,
    ignore_inconsistant: bool,
    pd: PageData,
) -> bool {
    &&& header_matches(pd.header, page)
    &&& pd.consistant == page_consistent(page)
    &&& if page_decoded(page, ignore_inconsistant) {
        &&& channel_rebuilt(pd.header, words_of(decoded), 0, pd.fp@)
        &&& channel_rebuilt(pd.header, words_of(decoded), 1, pd.ft@)
    } else {
        pd.fp@.len() == 0 && pd.ft@.len() == 0
    }
}

/// Page `i` of `data` cut into pages of `page_size` bytes.
pub open spec fn page_at(data: Seq<u8>, page_size: int, i: int) -> Seq<u8> {
    data.subrange(i * page_size, i * page_size + page_size)
}

/// Every page carries the number `first_id` plus its position, and the
/// previous number that goes with it.
pub open spec fn forms_chain(pages: Seq<PageData>, first_id: int) -> bool {
    forall|i: int|
        0 <= i < pages.len() ==> #[trigger] pages[i].header.this_block_id == first_id + i
            && pages[i].header.prev_block_id == chain_prev_id(pages[i].header.this_block_id)
}

/// Reads one page whose stored payload decompresses to `decoded`: its
/// header, its checksum verdict, and, where the page passed or failures are
/// ignored, both channels; `Misaligned` where those words are needed and
/// `decoded` is not whole words.
pub fn unpack_page(page: &[u8], decoded: &[u8], ignore_inconsistant: bool) -> (r: Result<
    PageData,
    UnpackError,
>)
    requires
        page@.len() >= HEADER_SIZE,
    ensures
        r is Err <==> page_misaligned(page@, decoded@, ignore_inconsistant),
        r matches Ok(pd) ==> page_rebuilt(page@, decoded@, ignore_inconsistant, pd),
{
    let unpacker = DataBlockUnPacker::new(vstd::slice::slice_to_vec(page));
    let header = unpacker.hader();
    let consistant = unpacker.verify();
    if ignore_inconsistant || consistant {
        let words = match unpack_words(decoded) {
            Ok(w) => w,
            Err(e) => {
                return Err(e);
            },
        };
        let fp = reconstruct_channel(&header, &words, 0);
        let ft = reconstruct_channel(&header, &words, 1);
        Ok(PageData { header, consistant, fp, ft })
    } else {
        Ok(PageData { header, consistant, fp: Vec::new(), ft: Vec::new() })
    }
}

/// Reads consecutive pages of `page_size` bytes from `data`, page `i` having
/// its stored payload decompressed to `decoded[i]`; trailing bytes that do not
/// make a whole page are not read. `Misaligned` where some page needs its
/// words and its decompressed payload is not whole words.
pub fn unpack_pages(
    data: &[u8],
    page_size: usize,
    decoded: &Vec<Vec<u8>>,
    ignore_inconsistant: bool,
) -> (r: Result<Vec<PageData>, UnpackError>)
    requires
        page_size >= HEADER_SIZE,
        decoded@.len() == data@.len() / (page_size as nat),
    ensures
        r is Err <==> exists|i: int|
            0 <= i < decoded@.len() && page_misaligned(
                #[trigger] page_at(data@, page_size as int, i),
                decoded@[i]@,
                ignore_inconsistant,
            ),
        r matches Ok(pages) ==> pages@.len() == decoded@.len() && forall|i: int|
            0 <= i < pages@.len() ==> page_rebuilt(
                #[trigger] page_at(data@, page_size as int, i),
                decoded@[i]@,
                ignore_inconsistant,
                pages@[i],
            ),
{
    let dlen: usize = data.len();
    let n: usize = dlen / page_size;
    let mut out: Vec<PageData> = Vec::new();
    let mut i: usize = 0;
    while i < n
        invariant
            page_size >= HEADER_SIZE,
            n == decoded@.len() == data@.len() / (page_size as nat),
            dlen == data@.len(),
            i <= n,
            out@.len() == i,
            forall|j: int|
                0 <= j < i ==> !page_misaligned(
                    #[trigger] page_at(data@, page_size as int, j),
                    decoded@[j]@,
                    ignore_inconsistant,
                ),
            forall|j: int|
                0 <= j < i ==> page_rebuilt(
                    #[trigger] page_at(data@, page_size as int, j),
                    decoded@[j]@,
                    ignore_inconsistant,
                    out@[j],
                ),
        decreases n - i,
    {
        proof {
            let (ii, ps, len) = (i as int, page_size as int, data@.len() as int);
            assert(ii * ps + ps <= len) by (nonlinear_arith)
                requires
                    ii < len / ps,
                    ps > 0,
                    ii >= 0,
            {
                vstd::arithmetic::div_mod::lemma_fundamental_div_mod(len, ps);
                assert(ii + 1 <= len / ps);
                vstd::arithmetic::mul::lemma_mul_inequality(ii + 1, len / ps, ps);
            }
        }
        let start: usize = i * page_size;
        let page = vstd::slice::slice_subrange(data, start, start + page_size);
        assert(page@ == page_at(data@, page_size as int, i as int));
        match unpack_page(page, decoded[i].as_slice(), ignore_inconsistant) {
            Ok(pd) => {
                out.push(pd);
            },
            Err(e) => {
                return Err(e);
            },
        }
        i += 1;
    }
    Ok(out)
}

/// True iff every page carries the number `first_id` plus its position and
/// the previous number that goes with it.
pub fn pages_form_chain(pages: &Vec<PageData>, first_id: u32) -> (r: bool)
    ensures
        r == forms_chain(pages@, first_id as int),
{
    let mut i: usize = 0;
    while i < pages.len()
        invariant
            i <= pages@.len(),
            forall|j: int|
                0 <= j < i ==> #[trigger] pages@[j].header.this_block_id == first_id + j
                    && pages@[j].header.prev_block_id == chain_prev_id(
                    pages@[j].header.this_block_id,
                ),
        decreases pages@.len() - i,
    {
        let id: u128 = first_id as u128 + i as u128;
        if id > 0xffff_ffff {
            assert(!(pages@[i as int].header.this_block_id == first_id + i));
            return false;
        }
        if !pages[i].header.is_chain_page(id as u32) {
            return false;
        }
        i += 1;
    }
    true
}

/// A chain survives storage: where page `i` of `data` begins with the encoded
/// header `headers[i]`, numbered `first_id + i` with the previous number that
/// goes with it, the pages read back from `data` form the same chain.
pub proof fn lemma_chain_read_back(
    data: Seq<u8>,
    page_size: int,
    headers: Seq<DataPacketHeader>,
    decoded: Seq<Seq<u8>>,
    ignore_inconsistant: bool,
    pages: Seq<PageData>,
    first_id: int,
)
    requires
        page_size >= HEADER_SIZE,
        pages.len() == headers.len(),
        decoded.len() == headers.len(),
        forall|i: int|
            0 <= i < headers.len() ==> header_bytes(#[trigger] headers[i]).is_prefix_of(
                page_at(data, page_size, i),
            ),
        forall|i: int|
            0 <= i < headers.len() ==> #[trigger] headers[i].this_block_id == first_id + i
                && headers[i].prev_block_id == chain_prev_id(headers[i].this_block_id),
        forall|i: int|
            0 <= i < pages.len() ==> page_rebuilt(
                #[trigger] page_at(data, page_size, i),
                decoded[i],
                ignore_inconsistant,
                pages[i],
            ),
    ensures
        forms_chain(pages, first_id),
{
    assert forall|i: int| 0 <= i < pages.len() implies #[trigger] pages[i].header.this_block_id
        == first_id + i && pages[i].header.prev_block_id == chain_prev_id(
        pages[i].header.this_block_id,
    ) by {
        let h = headers[i];
        let page = page_at(data, page_size, i);
        let hb = header_bytes(h);
        let rest = page.subrange(hb.len() as int, page.len() as int);
        lemma_header_round_trip(h, rest);
        assert(page =~= hb + rest);
        assert(header_matches(pages[i].header, page));
    }
}

} // verus!
