use vortex_verus::arrow::Decoded;
use vortex_verus::guest_kernels::bitpacked;
use vortex_verus::guest_kernels::fsst;

fn fsst_payload(symbols: &[&str], offsets: &[u32], codes: &[u8]) -> Vec<u8> {
    let mut out = (symbols.len() as u32).to_le_bytes().to_vec();
    for symbol in symbols {
        let mut bytes = symbol.as_bytes().to_vec();
        bytes.resize(8, 0);
        out.extend(bytes);
    }
    for symbol in symbols {
        out.push(symbol.len() as u8);
    }
    out.extend(((offsets.len() - 1) as u32).to_le_bytes());
    for offset in offsets {
        out.extend(offset.to_le_bytes());
    }
    out.extend(codes);
    out
}

fn fsst_error(payload: &[u8]) -> &'static str {
    match fsst::decode(payload) {
        Some(Err(error)) => error.message(),
        _ => panic!("the payload is malformed"),
    }
}

#[test]
fn fsst_expands_symbols_and_literals() {
    let payload = fsst_payload(
        &["hello", " world"],
        &[0, 2, 2, 5],
        &[0, 1, 255, b'!', 0],
    );
    match fsst::decode(&payload) {
        Some(Ok(Decoded::Utf8(strings))) => {
            assert_eq!(strings.len, 3);
            assert_eq!(strings.values, b"hello world!hello");
            assert_eq!(strings.offsets, vec![0, 11, 11, 17]);
            assert!(strings.validity.is_none());
        }
        _ => panic!("the payload is well formed"),
    }
}

#[test]
fn fsst_rejects_malformed_payloads() {
    assert_eq!(fsst_error(&[1, 0]), "fsst payload too short for symbol count");
    assert_eq!(fsst_error(&[0, 1, 0, 0]), "fsst symbol table too large");
    assert_eq!(
        fsst_error(&[2, 0, 0, 0, 1]),
        "fsst payload too short for symbol table"
    );
    assert_eq!(
        fsst_error(&[0, 0, 0, 0, 9, 0, 0, 0]),
        "fsst payload too short for string offsets"
    );
    assert_eq!(
        fsst_error(&fsst_payload(&["a"], &[0, 5], &[0])),
        "fsst code offsets out of bounds"
    );
    assert_eq!(
        fsst_error(&fsst_payload(&["a"], &[0, 1], &[255])),
        "fsst escape at end of compressed string"
    );
    assert_eq!(
        fsst_error(&fsst_payload(&["a"], &[0, 1], &[3])),
        "fsst code outside symbol table"
    );
}

#[test]
fn fsst_traps_on_a_symbol_beyond_the_table() {
    let mut payload = fsst_payload(&["a"], &[0, 1], &[0]);
    payload[12] = 9;
    assert!(fsst::decode(&payload).is_none());
}

/// Packs as the kernel's packing crate does, one chunk after the other.
fn pack(width: usize, values: &[u32]) -> Vec<u8> {
    let mut out = Vec::new();
    for chunk in values.chunks(1024) {
        let mut input = [0u32; 1024];
        input[..chunk.len()].copy_from_slice(chunk);
        let words: Vec<u32> = match width {
            5 => {
                let mut packed = [0u32; 160];
                fastlanes::BitPacking::pack::<5, 160>(&input, &mut packed);
                packed.to_vec()
            }
            32 => {
                let mut packed = [0u32; 1024];
                fastlanes::BitPacking::pack::<32, 1024>(&input, &mut packed);
                packed.to_vec()
            }
            _ => panic!("no other width is packed here"),
        };
        out.extend(words.iter().flat_map(|word| word.to_le_bytes()));
    }
    out
}

fn bitpacked_payload(
    width: u8,
    offset: u16,
    len: u32,
    patches: &[(u32, i32)],
    packed: &[u8],
) -> Vec<u8> {
    let mut out = vec![width, 0];
    out.extend(offset.to_le_bytes());
    out.extend(len.to_le_bytes());
    out.extend((patches.len() as u32).to_le_bytes());
    for (position, _) in patches {
        out.extend(position.to_le_bytes());
    }
    for (_, value) in patches {
        out.extend(value.to_le_bytes());
    }
    out.extend(packed);
    out
}

fn decoded(payload: &[u8]) -> Vec<i32> {
    match bitpacked::decode(payload) {
        Ok(Decoded::Primitive(array)) => {
            assert_eq!(array.values.len(), 4 * array.len);
            array
                .values
                .chunks(4)
                .map(|bytes| i32::from_le_bytes([bytes[0], bytes[1], bytes[2], bytes[3]]))
                .collect()
        }
        _ => panic!("the payload is well formed"),
    }
}

fn bitpacked_error(payload: &[u8]) -> &'static str {
    match bitpacked::decode(payload) {
        Err(error) => error.message(),
        Ok(_) => panic!("the payload is malformed"),
    }
}

#[test]
fn bitpacked_unpacks_slices_across_chunks() {
    let values: Vec<u32> = (0..1500).map(|i| i * 7 % 32).collect();
    let payload = bitpacked_payload(5, 3, 1400, &[], &pack(5, &values));
    let expected: Vec<i32> = values[3..1403].iter().map(|value| *value as i32).collect();
    assert_eq!(decoded(&payload), expected);
}

#[test]
fn bitpacked_patches_overwrite_and_the_last_stays() {
    let values: Vec<u32> = (0..10).collect();
    let payload = bitpacked_payload(
        5,
        0,
        10,
        &[(2, 1000), (9, -1), (2, 2000)],
        &pack(5, &values),
    );
    assert_eq!(decoded(&payload), vec![0, 1, 2000, 3, 4, 5, 6, 7, 8, -1]);
}

#[test]
fn bitpacked_full_width_and_no_width() {
    let values: Vec<u32> = vec![u32::MAX, 0, 0x8000_0000, 17];
    let payload = bitpacked_payload(32, 0, 4, &[], &pack(32, &values));
    assert_eq!(decoded(&payload), vec![-1, 0, i32::MIN, 17]);
    assert_eq!(
        decoded(&bitpacked_payload(0, 5, 3, &[(1, 8)], &[])),
        vec![0, 8, 0]
    );
    assert!(decoded(&bitpacked_payload(0, 0, 0, &[], &[])).is_empty());
}

#[test]
fn bitpacked_chunks_are_laid_out_in_lanes() {
    let mut state: u64 = 7;
    let mut random = || {
        state = state.wrapping_mul(6364136223846793005).wrapping_add(1442695040888963407);
        (state >> 32) as u32
    };
    for width in 1..=32usize {
        let words: Vec<u32> = (0..32 * width).map(|_| random()).collect();
        let values = bitpacked::unpack_chunk(width, &words);
        assert_eq!(values.len(), 1024);
        for (i, value) in values.iter().enumerate() {
            let row = 8 * [0, 2, 1, 3][(i % 128) / 32] + i / 128;
            let bits: u32 = (0..width)
                .map(|bit| {
                    let place = row * width + bit;
                    let word = words[32 * (place / 32) + i % 32];
                    ((word >> (place % 32)) & 1) << bit
                })
                .sum();
            assert_eq!(*value, bits, "value {i} of width {width}");
        }
    }
    assert_eq!(bitpacked::unpack_chunk(0, &[]), vec![0; 1024]);
}

#[test]
fn bitpacked_rejects_malformed_payloads() {
    assert_eq!(bitpacked_error(&[0; 11]), "bitpacked header must be 12 bytes");
    assert_eq!(
        bitpacked_error(&bitpacked_payload(33, 0, 0, &[], &[])),
        "bitpacked bit width exceeds u32"
    );
    assert_eq!(
        bitpacked_error(&bitpacked_payload(1, 1024, 0, &[], &[])),
        "bitpacked offset must be within one chunk"
    );
    let mut short = bitpacked_payload(1, 0, 0, &[], &[]);
    short[8] = 1;
    assert_eq!(
        bitpacked_error(&short),
        "bitpacked payload too short for patches"
    );
    assert_eq!(
        bitpacked_error(&bitpacked_payload(1, 0, 1, &[], &[0; 127])),
        "bitpacked payload too short for packed chunks"
    );
    assert_eq!(
        bitpacked_error(&bitpacked_payload(0, 0, 3, &[(3, 1)], &[])),
        "bitpacked patch position out of bounds"
    );
}
