use self_recorder_packet::header::HEADER_SIZE;
use self_recorder_packet::packer::EncoderReply;
use self_recorder_packet::unpacker::{unpack_words, UnpackError};
use self_recorder_packet::{DataBlockPacker, DataBlockUnPacker, PushResult};

/// Bounded store-only stand-in for the page compressor: its output is its
/// input, after the reserved header bytes, and it completes when the output
/// reaches the page size exactly.
struct StoreEncoder {
    buf: Vec<u8>,
    cap: usize,
}

impl StoreEncoder {
    fn new(cap: usize) -> Self {
        StoreEncoder { buf: vec![0u8; HEADER_SIZE], cap }
    }

    fn push(&mut self, data: &[u8]) -> EncoderReply {
        if self.buf.len() + data.len() > self.cap {
            return EncoderReply::Refused;
        }
        self.buf.extend_from_slice(data);
        if self.buf.len() == self.cap {
            EncoderReply::Completed(std::mem::take(&mut self.buf))
        } else {
            EncoderReply::Accepted
        }
    }
}

fn push(packer: &mut DataBlockPacker, enc: &mut StoreEncoder, data: &[u8]) -> PushResult {
    let reply = if packer.is_finished() {
        EncoderReply::Refused
    } else {
        enc.push(data)
    };
    packer.process_push_result(reply)
}

fn new_page(prev: u32, this: u32, ts: u64, size: usize) -> (DataBlockPacker, StoreEncoder) {
    let packer = DataBlockPacker::builder()
        .set_ids(prev, this)
        .set_timestamp(ts)
        .set_size(size)
        .build();
    (packer, StoreEncoder::new(size))
}

fn crc(d: &[u8]) -> u32 {
    crc32fast::hash(d)
}

#[test]
#[should_panic]
fn create_too_small() {
    let _ = DataBlockPacker::builder().set_size(16).try_build().unwrap();
}

#[test]
fn crate_push_trimmed() {
    const DATA_SIZE: usize = 4096;
    let mut packer = DataBlockPacker::builder().set_size(DATA_SIZE).build();
    let mut enc = StoreEncoder::new(packer.size());

    for i in 0usize.. {
        match push(&mut packer, &mut enc, &[(i & 0xff) as u8]) {
            PushResult::Success => {}
            PushResult::Full => break,
            _ => panic!(),
        }
    }

    assert_eq!(push(&mut packer, &mut enc, &[0]), PushResult::Finished);

    let res = packer.to_result_trimmed(|_| 0).unwrap();
    assert!(res.len() > DATA_SIZE / 2 && res.len() <= DATA_SIZE);
}

#[test]
fn crate_push_full() {
    const DATA_SIZE: usize = 4096;
    let mut packer = DataBlockPacker::builder().set_size(DATA_SIZE).build();
    let mut enc = StoreEncoder::new(packer.size());

    for i in 0usize.. {
        match push(&mut packer, &mut enc, &[(i & 0xff) as u8]) {
            PushResult::Success => {}
            PushResult::Full => break,
            _ => panic!(),
        }
    }

    assert_eq!(push(&mut packer, &mut enc, &[0]), PushResult::Finished);

    let res = packer.to_result_full(|_| 0).unwrap();
    assert_eq!(res.len(), DATA_SIZE);
}

#[test]
fn try_build_limits() {
    assert!(DataBlockPacker::builder().set_size(HEADER_SIZE).try_build().is_none());
    assert!(DataBlockPacker::builder().set_size(HEADER_SIZE + 1).try_build().is_some());
    assert!(DataBlockPacker::builder().try_build().is_some());
}

#[test]
fn fill_exactly_then_finished() {
    // 4 values of 4 bytes fill a 68-byte page exactly.
    let (mut packer, mut enc) = new_page(0, 0, 0, HEADER_SIZE + 16);
    let results: Vec<PushResult> =
        (0u32..6).map(|v| push(&mut packer, &mut enc, &v.to_le_bytes())).collect();
    assert_eq!(
        results,
        vec![
            PushResult::Success,
            PushResult::Success,
            PushResult::Success,
            PushResult::Full,
            PushResult::Finished,
            PushResult::Finished
        ]
    );
    assert!(packer.is_finished());
}

#[test]
fn oversized_first_push_overflows() {
    let (mut packer, mut enc) = new_page(0, 0, 0, HEADER_SIZE + 8);
    assert_eq!(push(&mut packer, &mut enc, &[1u8; 9]), PushResult::Overflow);
    assert!(!packer.is_finished());
    // Nothing changed: the page can still be filled.
    assert_eq!(push(&mut packer, &mut enc, &[1u8; 4]), PushResult::Success);
    assert_eq!(push(&mut packer, &mut enc, &[2u8; 4]), PushResult::Full);
}

#[test]
fn unfinished_page_has_no_result() {
    let (mut packer, mut enc) = new_page(0, 0, 0, 128);
    assert_eq!(push(&mut packer, &mut enc, &[1, 2, 3]), PushResult::Success);
    assert!(packer.to_result_trimmed(|_| 0).is_none());
    let (packer, _) = new_page(0, 0, 0, 128);
    assert!(packer.to_result_full(|_| 0).is_none());
}

#[test]
fn trimmed_page_layout() {
    let packer = DataBlockPacker::builder()
        .set_ids(6, 7)
        .set_timestamp(0x0102_0304_0506_0708)
        .set_targets([10, 20])
        .set_write_cfg(1000, [2, 3])
        .set_tcpu(1.5f32.to_bits())
        .set_vbat(3.25f32.to_bits())
        .set_size(HEADER_SIZE + 4)
        .build();
    let mut packer = packer;
    let mut enc = StoreEncoder::new(packer.size());
    assert_eq!(push(&mut packer, &mut enc, &[0xaa, 0xbb, 0xcc, 0xdd]), PushResult::Full);
    let page = packer.to_result_trimmed(|_| 0x1234_5678).unwrap();
    let mut expected: Vec<u8> = Vec::new();
    for w in [6u32, 7, 0x0506_0708, 0x0102_0304, 10, 20, 1000, 2, 3] {
        expected.extend_from_slice(&w.to_le_bytes());
    }
    expected.extend_from_slice(&1.5f32.to_bits().to_le_bytes());
    expected.extend_from_slice(&3.25f32.to_bits().to_le_bytes());
    expected.extend_from_slice(&4u32.to_le_bytes());
    expected.extend_from_slice(&0x1234_5678u32.to_le_bytes());
    expected.extend_from_slice(&[0xaa, 0xbb, 0xcc, 0xdd]);
    assert_eq!(page, expected);
}

#[test]
fn full_page_is_padded_with_zeros() {
    let (mut packer, mut enc) = new_page(0, 0, 0, HEADER_SIZE + 8);
    assert_eq!(push(&mut packer, &mut enc, &[9, 9, 9, 9]), PushResult::Success);
    // The stand-in completes only at the exact size; hand over a shorter buffer.
    let mut buf = vec![0u8; HEADER_SIZE];
    buf.extend_from_slice(&[9, 9, 9, 9]);
    assert_eq!(packer.process_push_result(EncoderReply::Completed(buf)), PushResult::Full);
    drop(enc);
    let page = packer.to_result_full(crc).unwrap();
    assert_eq!(page.len(), HEADER_SIZE + 8);
    assert_eq!(&page[HEADER_SIZE..], &[9, 9, 9, 9, 0, 0, 0, 0]);
    let unpacker = DataBlockUnPacker::new(page);
    assert_eq!(unpacker.hader().data_len, 4);
    assert_eq!(unpacker.payload(), vec![9, 9, 9, 9]);
    assert!(unpacker.verify());
}

#[test]
fn header_round_trip_through_page() {
    let (mut packer, mut enc) = new_page(35, 36, 0x01300aafa0170, HEADER_SIZE + 8);
    push(&mut packer, &mut enc, &[1, 2, 3, 4]);
    push(&mut packer, &mut enc, &[5, 6, 7, 8]);
    let header = packer.header;
    let page = packer.to_result_trimmed(crc).unwrap();
    let unpacker = DataBlockUnPacker::new(page);
    let h = unpacker.hader();
    assert_eq!(h.prev_block_id, 35);
    assert_eq!(h.this_block_id, 36);
    assert_eq!(h.timestamp, 0x01300aafa0170);
    assert_eq!(h.targets, header.targets);
    assert_eq!(h.base_interval_ms, 1000);
    assert_eq!(h.interleave_ratio, [1, 1]);
    assert_eq!(h.data_len, 8);
    assert_eq!(h.data_crc32, crc32fast::hash(&[1, 2, 3, 4, 5, 6, 7, 8]));
    assert!(!h.is_initial());
    assert!(h.is_chain_page(36));
    assert!(!h.is_chain_page(35));
}

#[test]
fn verify_uses_crc32() {
    // CRC-32 of "123456789" is 0xCBF43926.
    let mut page = vec![0u8; HEADER_SIZE];
    page[44..48].copy_from_slice(&9u32.to_le_bytes());
    page[48..52].copy_from_slice(&0xCBF4_3926u32.to_le_bytes());
    page.extend_from_slice(b"123456789");
    page.extend_from_slice(&[0xff; 7]);
    let unpacker = DataBlockUnPacker::new(page.clone());
    assert!(unpacker.verify());
    assert_eq!(unpacker.payload(), b"123456789".to_vec());
    page[48] ^= 1;
    assert!(!DataBlockUnPacker::new(page).verify());
}

#[test]
fn verify_rejects_length_past_end() {
    let mut page = vec![0u8; HEADER_SIZE + 4];
    page[44..48].copy_from_slice(&5u32.to_le_bytes());
    let unpacker = DataBlockUnPacker::new(page);
    assert!(!unpacker.verify());
    assert_eq!(unpacker.payload(), vec![0, 0, 0, 0]);
}

#[test]
fn flipping_any_payload_byte_fails_verification() {
    let (mut packer, mut enc) = new_page(0, 0, 0, HEADER_SIZE + 64);
    for v in 0u32..16 {
        push(&mut packer, &mut enc, &(v * 7919).to_le_bytes());
    }
    let page = packer.to_result_full(crc).unwrap();
    assert!(DataBlockUnPacker::new(page.clone()).verify());
    for i in HEADER_SIZE..page.len() {
        let mut bad = page.clone();
        bad[i] ^= 0x40;
        assert!(!DataBlockUnPacker::new(bad).verify(), "byte {}", i);
    }
}

#[test]
fn words_need_whole_words() {
    assert_eq!(unpack_words(&[1, 0, 0, 0, 2, 0, 0, 0]), Ok(vec![1, 2]));
    assert_eq!(unpack_words(&[0x78, 0x56, 0x34, 0x12]), Ok(vec![0x1234_5678]));
    assert_eq!(unpack_words(&[]), Ok(vec![]));
    assert_eq!(unpack_words(&[1, 2, 3]), Err(UnpackError::Misaligned));
}

/// Pseudo-random raw counters around 12 000 000.
fn counters(n: usize, seed: u64) -> Vec<u32> {
    let mut state = seed;
    let mut v = 12_000_000u32;
    (0..n)
        .map(|_| {
            state = state.wrapping_mul(6364136223846793005).wrapping_add(1442695040888963407);
            let step = ((state >> 33) % 101) as i32 - 50;
            v = (v as i64 + step as i64) as u32;
            v
        })
        .collect()
}

#[test]
fn compress_decompress_pseudo_random() {
    const BLOCK_SIZE: usize = 4096;

    let mut generator = counters(10_000, 7).into_iter();
    let mut input_data = Vec::new();
    let mut block = DataBlockPacker::builder()
        .set_ids(35, 36)
        .set_timestamp(0x01300aafa0170)
        .set_size(BLOCK_SIZE)
        .build();
    let mut enc = StoreEncoder::new(block.size());

    let result = loop {
        let v = generator.next().unwrap();
        match push(&mut block, &mut enc, &v.to_le_bytes()) {
            PushResult::Success => {
                input_data.push(v);
            }
            PushResult::Full => {
                input_data.push(v);
                break block.to_result_trimmed(|_| 0).unwrap();
            }
            _ => panic!(),
        }
    };

    let unpacker = DataBlockUnPacker::new(result);
    assert_eq!(input_data, unpack_words(&unpacker.payload()).unwrap());
}

#[test]
fn compress_decompress_floats() {
    const BLOCK_SIZE: usize = 4096;
    const INITIAL_RESULT: u32 = 12_000_000;

    let mut generator = counters(10_000, 11).into_iter();
    let mut input_data = Vec::new();
    let mut block = DataBlockPacker::builder()
        .set_ids(45, 46)
        .set_timestamp(0x71389aaf60180)
        .set_size(BLOCK_SIZE)
        .build();
    let mut enc = StoreEncoder::new(block.size());

    let result = loop {
        let v = generator.next().unwrap() as f32 / INITIAL_RESULT as f32;
        match push(&mut block, &mut enc, &v.to_bits().to_le_bytes()) {
            PushResult::Success => {
                input_data.push(v);
            }
            PushResult::Full => {
                input_data.push(v);
                break block.to_result_trimmed(|_| 0).unwrap();
            }
            _ => panic!(),
        }
    };

    let unpacker = DataBlockUnPacker::new(result);
    let unpacked: Vec<f32> = unpack_words(&unpacker.payload())
        .unwrap()
        .into_iter()
        .map(f32::from_bits)
        .collect();
    assert_eq!(input_data, unpacked);
}
