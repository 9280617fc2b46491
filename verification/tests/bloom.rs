use vortex_verus::abi::PType;
use vortex_verus::bits::bit;
use vortex_verus::bloom::filter::hash_scalar;
use vortex_verus::bloom::filter::key_kind;
use vortex_verus::bloom::filter::probe_canonical;
use vortex_verus::bloom::filter::try_new_probe;
use vortex_verus::bloom::filter::BloomError;
use vortex_verus::bloom::filter::BloomFilterContains;
use vortex_verus::bloom::filter::BloomFilterProbe;
use vortex_verus::bloom::filter::DuckDbType;
use vortex_verus::bloom::filter::KeyColumn;
use vortex_verus::bloom::filter::KeyDType;
use vortex_verus::bloom::filter::KeyKind;
use vortex_verus::bloom::filter::KeyScalar;
use vortex_verus::bloom::filter::Verdict;
use vortex_verus::bloom::hash::hash_bits;
use vortex_verus::bloom::hash::hash_bytes;
use vortex_verus::bloom::hash::murmur_hash64;
use vortex_verus::bloom::hash::normalize_f32;
use vortex_verus::bloom::hash::normalize_f64;
use vortex_verus::bloom::hash::DuckDbHash;
use vortex_verus::bloom::hash::NULL_HASH;
use vortex_verus::bloom::probe::sector_mask;
use vortex_verus::bloom::probe::Sectors;
use vortex_verus::data::ArrayKind;
use vortex_verus::data::ArrayView;
use vortex_verus::data::Validity;
use vortex_verus::data::ValidityView;
use vortex_verus::decoded::Decoded;
use vortex_verus::decoded::DecodedVarBinView;

/// The sectors of a filter that a join filled with these hashes.
fn build(n_sectors: usize, hashes: &[u64]) -> Vec<u64> {
    let mut sectors = vec![0u64; n_sectors];
    for hash in hashes {
        sectors[(hash % n_sectors as u64) as usize] |= sector_mask(*hash);
    }
    sectors
}

fn i64_probe() -> BloomFilterProbe {
    try_new_probe(
        1,
        DuckDbType::BigInt,
        &KeyDType::Primitive(PType::I64),
        Some(DuckDbType::BigInt),
    )
    .expect("64-bit keys are hashed")
}

fn i64_bytes(keys: &[i64]) -> Vec<u8> {
    keys.iter().flat_map(|key| key.to_le_bytes()).collect()
}

fn i64_array<'a>(bytes: &'a [u8], validity: ValidityView<'a>) -> ArrayView<'a> {
    ArrayView {
        len: bytes.len() / 8,
        validity,
        kind: ArrayKind::Primitive {
            ptype: PType::I64,
            values: bytes,
        },
    }
}

fn rows(verdict: Verdict, len: usize) -> Vec<bool> {
    match verdict {
        Verdict::Uniform(passes) => vec![passes; len],
        Verdict::Rows(bits) => (0..len).map(|row| bit(&bits, row)).collect(),
    }
}

#[test]
fn hashes_are_those_of_the_join() {
    assert_eq!((-7i8).duckdb_hash(), 0x929895b9b4821eb0);
    assert_eq!((-4242i16).duckdb_hash(), 0xbc8e50e3970acc68);
    assert_eq!(123_456i32.duckdb_hash(), 0x3e7e8ce27f637b7f);
    assert_eq!((-9_000_000_000i64).duckdb_hash(), 0x3100adf2d821d5c0);
    assert_eq!(250u8.duckdb_hash(), 0x1a959a463905ac61);
    assert_eq!(250u16.duckdb_hash(), 0x1a959a463905ac61);
    assert_eq!(123_456u32.duckdb_hash(), 0x3e7e8ce27f637b7f);
    assert_eq!(
        18_000_000_000_000_000_000u64.duckdb_hash(),
        0xa16d5b8457866b3c
    );
    assert_eq!(true.duckdb_hash(), 0x4179b061e0c0e0d0);
    assert_eq!(false.duckdb_hash(), 0);
    assert_eq!(hash_bytes(b""), 0x46d8592d429c1dc0);
    assert_eq!(hash_bytes(b"vortex"), 0xc7d24930330b49d7);
    assert_eq!(hash_bytes(b"12345678"), 0x6f5837bf0f8425f1);
    assert_eq!(hash_bytes(b"123456789012"), 0xfeaa5401a094c5c1);
    assert_eq!(
        hash_bytes(b"a string that is far too long for DuckDB to inline into a string_t"),
        0xa9cdb9febb667051
    );
    assert_eq!(hash_bytes(&[0, 1, 2, 255]), 0xe4f90cece65bc93c);
}

#[test]
fn equal_floats_hash_equally() {
    assert_eq!(
        hash_bits(PType::F32, u64::from(1.5f32.to_bits())),
        Some(0xc2ce0d716edeca8)
    );
    assert_eq!(
        hash_bits(PType::F64, (-1.5e100f64).to_bits()),
        Some(0xabd8d3e62487e524)
    );
    assert_eq!(
        hash_bits(PType::F32, u64::from((-0.0f32).to_bits())),
        hash_bits(PType::F32, u64::from(0.0f32.to_bits()))
    );
    assert_eq!(normalize_f64((-0.0f64).to_bits()), 0);
    assert_eq!(normalize_f32(0xffc0_0001), f32::NAN.to_bits());
    assert_eq!(normalize_f64(0xfff0_0000_0000_0001), f64::NAN.to_bits());
    assert_eq!(normalize_f32(f32::INFINITY.to_bits()), f32::INFINITY.to_bits());
    assert_eq!(hash_bits(PType::F16, 0), None);
}

#[test]
fn temporal_hash_matches_duckdb() {
    let scalar = KeyScalar::Extension(Box::new(KeyScalar::Primitive(
        PType::I64,
        1_700_000_000_000_000,
    )));
    assert_eq!(hash_scalar(&scalar), Ok(0x558997ca34a507a1));
}

#[test]
fn narrow_values_are_widened_before_they_are_hashed() {
    assert_eq!(hash_bits(PType::I8, 0xf9), Some((-7i8).duckdb_hash()));
    assert_eq!(
        hash_bits(PType::I16, u64::from((-4242i16) as u16)),
        Some((-4242i16).duckdb_hash())
    );
    assert_eq!((-7i32).duckdb_hash(), (-7i8).duckdb_hash());
    assert_eq!(murmur_hash64(0xffff_fff9), (-7i8).duckdb_hash());
}

#[test]
fn probe_agrees_with_the_filter_duckdb_built() {
    let hashes: Vec<u64> = (0..1_000i64).map(|key| key.duckdb_hash()).collect();
    let built = build(256, &hashes);
    let sectors = Sectors::new(&built);
    for key in 0..1_000i64 {
        assert!(sectors.contains(key.duckdb_hash()), "missing key {key}");
    }
    let false_positives = (1_000_000..1_010_000i64)
        .filter(|key| sectors.contains(key.duckdb_hash()))
        .count();
    assert!(false_positives < 100);
}

#[test]
fn filter_is_picked_up_once_the_join_publishes_it() {
    let mut probe = i64_probe();
    let bytes = i64_bytes(&[1, 2, 3]);
    let keys = KeyColumn::Canonical(i64_array(&bytes, ValidityView::NonNullable));
    let pending = BloomFilterContains
        .execute(&mut probe, None, &keys, 3)
        .expect("nothing is hashed");
    assert_eq!(rows(pending, 3), [true, true, true]);
    assert_eq!(probe.status(false), "pending");
    assert_eq!(probe.rows_probed, 0);
    let built = build(8, &[2i64.duckdb_hash()]);
    let published = BloomFilterContains
        .execute(&mut probe, Some(&built), &keys, 3)
        .expect("64-bit keys are hashed");
    assert_eq!(rows(published, 3), [false, true, false]);
    assert_eq!(probe.status(true), "i64");
    assert_eq!((probe.rows_passed, probe.rows_probed), (1, 3));
}

#[test]
fn probes_strings() {
    let long = "a string that is far too long for DuckDB to inline";
    let built = build(8, &[hash_bytes(b"vortex"), hash_bytes(long.as_bytes())]);
    let heap: Vec<u8> = ["vortex", long, "absent"].concat().into_bytes();
    let array: DecodedVarBinView = DecodedVarBinView::from_heap(
        heap,
        &[6, long.len(), 6],
        Validity::NonNullable,
    )
    .expect("the lengths fit the heap");
    let view = ArrayView {
        len: 3,
        validity: ValidityView::NonNullable,
        kind: ArrayKind::VarBinView {
            views: &array.views,
            data: array.data.iter().map(|buffer| buffer.as_slice()).collect(),
        },
    };
    let bits = probe_canonical(&view, &Sectors::new(&built)).expect("strings are hashed");
    assert_eq!([bit(&bits, 0), bit(&bits, 1), bit(&bits, 2)], [true, true, false]);
    assert!(matches!(Decoded::from_view(&view), Decoded::VarBinView(_)));
}

#[test]
fn probes_extension_keys() {
    let bytes = i64_bytes(&[1_700_000_000_000_000, 1]);
    let keys = KeyColumn::Canonical(ArrayView {
        len: 2,
        validity: ValidityView::NonNullable,
        kind: ArrayKind::Extension {
            storage: Box::new(i64_array(&bytes, ValidityView::NonNullable)),
        },
    });
    let dtype = KeyDType::Extension(Box::new(KeyDType::Primitive(PType::I64)));
    let mut probe = try_new_probe(
        2,
        DuckDbType::Timestamp,
        &dtype,
        Some(DuckDbType::Timestamp),
    )
    .expect("timestamps are hashed");
    assert!(BloomFilterContains.return_dtype(&probe, &dtype).is_ok());
    let built = build(8, &[1_700_000_000_000_000i64.duckdb_hash()]);
    let verdict = BloomFilterContains
        .execute(&mut probe, Some(&built), &keys, 2)
        .expect("timestamps are hashed");
    assert_eq!(rows(verdict, 2), [true, false]);
}

#[test]
fn null_keys_probe_duckdbs_null_hash() {
    let bytes = i64_bytes(&[2, 0, 9]);
    let valid = [0b101u8];
    let keys = KeyColumn::Canonical(i64_array(&bytes, ValidityView::Bitmap(&valid)));
    let built = build(8, &[2i64.duckdb_hash()]);
    let mut probe = i64_probe();
    let verdict = BloomFilterContains
        .execute(&mut probe, Some(&built), &keys, 3)
        .expect("64-bit keys are hashed");
    assert_eq!(rows(verdict, 3), [true, false, false]);
    let with_null = build(8, &[NULL_HASH]);
    let verdict = BloomFilterContains
        .execute(&mut probe, Some(&with_null), &keys, 3)
        .expect("64-bit keys are hashed");
    assert!(rows(verdict, 3)[1]);
    let nulls = ArrayView {
        len: 5,
        validity: ValidityView::AllInvalid,
        kind: ArrayKind::Null,
    };
    let bits = probe_canonical(&nulls, &Sectors::new(&with_null)).expect("NULL is hashed");
    assert_eq!(bits, vec![0b1_1111]);
    assert_eq!(hash_scalar(&KeyScalar::Null), Ok(NULL_HASH));
}

#[test]
fn constant_keys_are_probed_once() {
    let built = build(8, &[2i64.duckdb_hash()]);
    let mut probe = i64_probe();
    for (key, expected) in [(2u64, true), (9, false)] {
        let keys = KeyColumn::Constant(KeyScalar::Primitive(PType::I64, key));
        let verdict = BloomFilterContains
            .execute(&mut probe, Some(&built), &keys, 4)
            .expect("64-bit keys are hashed");
        assert!(matches!(verdict, Verdict::Uniform(passes) if passes == expected));
    }
    assert_eq!((probe.rows_passed, probe.rows_probed), (4, 8));
}

#[test]
fn unsupported_key_types_are_declined() {
    assert!(try_new_probe(
        3,
        DuckDbType::Other(19),
        &KeyDType::Other,
        Some(DuckDbType::Other(19))
    )
    .is_none());
    assert_eq!(key_kind(&KeyDType::Primitive(PType::F16)), None);
}

#[test]
fn mismatched_key_types_are_declined() {
    assert!(try_new_probe(
        4,
        DuckDbType::BigInt,
        &KeyDType::Primitive(PType::I32),
        Some(DuckDbType::Integer)
    )
    .is_none());
    assert!(try_new_probe(
        4,
        DuckDbType::BigInt,
        &KeyDType::Primitive(PType::I64),
        Some(DuckDbType::Time)
    )
    .is_none());
    assert_eq!(
        BloomFilterContains.return_dtype(&i64_probe(), &KeyDType::Bool),
        Err(BloomError::KeyMismatch)
    );
}

#[test]
fn hashing_an_unsupported_scalar_errors() {
    assert_eq!(
        hash_scalar(&KeyScalar::Other),
        Err(BloomError::UnsupportedKey)
    );
    assert_eq!(
        hash_scalar(&KeyScalar::Primitive(PType::F16, 1)),
        Err(BloomError::HalfPrecision)
    );
    assert_eq!(
        BloomError::HalfPrecision.message(),
        "DuckDB has no half-precision type to hash"
    );
}

#[test]
fn a_weak_filter_is_paused_by_the_batch_that_crosses_the_check_point() {
    let mut probe = i64_probe();
    probe.observe(10_000, 100_000);
    assert!(!probe.paused);
    probe.observe(28_400, 53_600);
    assert!(probe.paused);
    assert_eq!(probe.status(true), "paused");
    assert!(probe.sectors(Some(&[0u64; 4])).is_none());

    let mut strong = i64_probe();
    strong.observe(38_399, 153_600);
    assert!(!strong.paused);
    strong.observe(1_000_000, 1_000_000);
    assert!(!strong.paused);
}

#[test]
fn probes_are_the_same_when_their_filters_are() {
    let mut probe = i64_probe();
    let before = probe;
    probe.observe(1, 2);
    assert!(probe == before);
    assert_eq!(KeyKind::Bytes.name(), "bytes");
}
