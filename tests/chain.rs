use self_recorder_packet::add_signed::checked_add_signed;
use self_recorder_packet::header::HEADER_SIZE;
use self_recorder_packet::packer::EncoderReply;
use self_recorder_packet::unpacker::unpack_words;
use self_recorder_packet::{DataBlockPacker, DataBlockUnPacker, PushResult};

/// Bounded store-only stand-in for the page compressor.
struct StoreEncoder {
    buf: Vec<u8>,
    cap: usize,
}

impl StoreEncoder {
    fn new(cap: usize) -> Self {
        StoreEncoder { buf: vec![0u8; HEADER_SIZE], cap }
    }

    fn push(&mut self, data: &[u8]) -> EncoderReply {
        if self.buf.len() + data.len() > self.cap {
            return EncoderReply::Refused;
        }
        self.buf.extend_from_slice(data);
        if self.buf.len() == self.cap {
            EncoderReply::Completed(std::mem::take(&mut self.buf))
        } else {
            EncoderReply::Accepted
        }
    }
}

struct Page {
    packer: DataBlockPacker,
    enc: StoreEncoder,
}

impl Page {
    fn push_val(&mut self, v: u32) -> PushResult {
        let reply = if self.packer.is_finished() {
            EncoderReply::Refused
        } else {
            self.enc.push(&v.to_le_bytes())
        };
        self.packer.process_push_result(reply)
    }
}

fn new_packer(id: &mut u32, block_size: usize) -> Page {
    let packer = DataBlockPacker::builder()
        .set_ids(id.checked_sub(1).unwrap_or_default(), *id)
        .set_timestamp(1_600_000_000)
        .set_size(block_size)
        .build();
    *id += 1;
    let enc = StoreEncoder::new(packer.size());
    Page { packer, enc }
}

/// Synthetic frequencies in Hz around `base`.
fn frequencies(n: usize, base: f32) -> Vec<f32> {
    (0..n).map(|i| base + ((i * 37) % 101) as f32 * 0.01).collect()
}

fn result(f: f32, target: u32, fref: u32) -> u32 {
    (fref as f32 * target as f32 / f).round() as u32
}

fn compress<'a>(mut it: impl Iterator<Item = &'a u32>, block_size: usize) -> Vec<Vec<u8>> {
    let mut current_block_id = 0u32;
    let mut compressed_chain = vec![];
    'compressor: loop {
        let mut packer = new_packer(&mut current_block_id, block_size);
        let block = loop {
            if let Some(v) = it.next() {
                match packer.push_val(*v) {
                    PushResult::Success => {}
                    PushResult::Full => break packer.packer.to_result_trimmed(|_| 0).unwrap(),
                    _ => panic!(),
                }
            } else {
                break 'compressor;
            }
        };
        compressed_chain.push(block);
    }
    compressed_chain
}

fn compress_diff<'a>(mut it: impl Iterator<Item = &'a u32>, block_size: usize) -> Vec<Vec<u8>> {
    let mut current_block_id = 0u32;
    let mut compressed_chain = vec![];
    'compressor: loop {
        let mut packer = new_packer(&mut current_block_id, block_size);
        let mut prev = 0i32;
        let block = loop {
            if let Some(v) = it.next() {
                let new_val = *v as i32;
                let diff = new_val - prev;
                prev = new_val;
                match packer.push_val(diff as u32) {
                    PushResult::Success => {}
                    PushResult::Full => break packer.packer.to_result_trimmed(|_| 0).unwrap(),
                    _ => panic!(),
                }
            } else {
                break 'compressor;
            }
        };
        compressed_chain.push(block);
    }
    compressed_chain
}

fn unpack_checked(pocket_id: usize, block: Vec<u8>) -> Vec<u32> {
    let unpacker = DataBlockUnPacker::new(block);
    let h = unpacker.hader();
    assert_eq!(pocket_id as u32, h.this_block_id);
    assert_eq!((pocket_id as u32).checked_sub(1).unwrap_or_default(), h.prev_block_id);
    assert!(h.is_chain_page(pocket_id as u32));
    unpack_words(&unpacker.payload()).unwrap()
}

fn unpack(compressed_chain: Vec<Vec<u8>>) -> Vec<u32> {
    compressed_chain
        .into_iter()
        .enumerate()
        .fold(vec![], |mut acc, (pocket_id, block)| {
            acc.append(&mut unpack_checked(pocket_id, block));
            acc
        })
}

fn unpack_diff(compressed_chain: Vec<Vec<u8>>) -> Vec<u32> {
    compressed_chain
        .into_iter()
        .enumerate()
        .fold(vec![], |mut acc, (pocket_id, block)| {
            let mut data = unpack_checked(pocket_id, block);
            let mut prev = data[0];
            data[1..].iter_mut().for_each(|v| {
                let this_value = checked_add_signed(prev, *v as i32).unwrap();
                prev = this_value;
                *v = this_value;
            });
            acc.append(&mut data);
            acc
        })
}

#[test]
fn experimental_result_gen_process_data_set() {
    const BLOCK_SIZE: usize = 4096;
    const F_REF: u32 = 10_000_000;

    let experimental_data = frequencies(5000, 32_768.0);
    let target = experimental_data[0].round() as u32;
    let experimental_data =
        experimental_data.iter().map(|f| result(*f, target, F_REF)).collect::<Vec<_>>();

    let compressed_chain = compress(experimental_data.iter(), BLOCK_SIZE);
    assert!(compressed_chain.len() >= 4);
    let unpacked_data = unpack(compressed_chain);
    assert_eq!(&experimental_data[..unpacked_data.len()], &unpacked_data[..]);
}

#[test]
fn process_data_set_diff() {
    const BLOCK_SIZE: usize = 4096;
    const F_REF: u32 = 10_000_000;

    let experimental_data = frequencies(5000, 32_768.0);
    let target = experimental_data[0].round() as u32;
    let experimental_data =
        experimental_data.iter().map(|f| result(*f, target, F_REF)).collect::<Vec<_>>();

    let compressed_chain = compress_diff(experimental_data.iter(), BLOCK_SIZE);
    let unpacked_data = unpack_diff(compressed_chain);
    assert_eq!(&experimental_data[..unpacked_data.len()], &unpacked_data[..]);
}

#[test]
fn code_decode_interleave() {
    const BLOCK_SIZE: usize = 4096;
    const INTERLEAVE_RATIO: (u32, u32) = (2, 3);
    const F_REF: u32 = 10_000_000;

    let fp = frequencies(4000, 32_768.0);
    let ft = frequencies(4000, 28_000.0);
    let p_target = fp[0].round() as u32;
    let t_target = ft[0].round() as u32;
    let fp: Vec<u32> = fp.iter().map(|f| result(*f, p_target, F_REF)).collect();
    let ft: Vec<u32> = ft.iter().map(|f| result(*f, t_target, F_REF)).collect();

    let merged = fp
        .iter()
        .zip(ft.iter())
        .enumerate()
        .flat_map(|(i, (fp, ft))| {
            match (i as u32 % INTERLEAVE_RATIO.0 == 0, i as u32 % INTERLEAVE_RATIO.1 == 0) {
                (false, false) => vec![],
                (false, true) => vec![*ft],
                (true, false) => vec![*fp],
                (true, true) => vec![*fp, *ft],
            }
        })
        .collect::<Vec<_>>();

    let compressed_chain = compress_diff(merged.iter(), BLOCK_SIZE);
    let unpacked_data: Vec<u32> = unpack_diff(compressed_chain);

    assert_eq!(&unpacked_data[..], &merged[..unpacked_data.len()]);

    let mut fp_up = vec![];
    let mut ft_up = vec![];
    let mut up_iter = unpacked_data.into_iter();
    for i in 0.. {
        if i as u32 % INTERLEAVE_RATIO.0 == 0 {
            if let Some(v) = up_iter.next() {
                fp_up.push(v);
            } else {
                break;
            }
        }
        if i as u32 % INTERLEAVE_RATIO.1 == 0 {
            if let Some(v) = up_iter.next() {
                ft_up.push(v);
            } else {
                break;
            }
        }
    }

    fp_up
        .iter()
        .enumerate()
        .for_each(|(i, v)| assert_eq!(*v, fp[i * INTERLEAVE_RATIO.0 as usize]));
    ft_up
        .iter()
        .enumerate()
        .for_each(|(i, v)| assert_eq!(*v, ft[i * INTERLEAVE_RATIO.1 as usize]));
}

#[test]
fn compress_decompress_1_block_real_data() {
    const BLOCK_SIZE: usize = 4096;

    let experimental_data = frequencies(3000, 25.5);
    let mut it = experimental_data.iter();
    let mut block = DataBlockPacker::builder()
        .set_ids(56, 57)
        .set_timestamp(0x000100080)
        .set_size(BLOCK_SIZE)
        .build();
    let mut enc = StoreEncoder::new(block.size());

    let result = loop {
        let v = *it.next().unwrap();
        match block.process_push_result(enc.push(&v.to_bits().to_le_bytes())) {
            PushResult::Success => {}
            PushResult::Full => {
                break block.to_result_trimmed(|_| 0).unwrap();
            }
            _ => panic!(),
        }
    };

    let unpacker = DataBlockUnPacker::new(result);
    let unpacked: Vec<f32> = unpack_words(&unpacker.payload())
        .unwrap()
        .into_iter()
        .map(f32::from_bits)
        .collect();
    let exp_fragment = experimental_data.iter().cloned().take(unpacked.len()).collect::<Vec<_>>();
    assert_eq!(exp_fragment, unpacked);
}
