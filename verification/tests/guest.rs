use vortex_verus::abi::PType;
use vortex_verus::arrow;
use vortex_verus::bits::bit;
use vortex_verus::data::ArrayKind;
use vortex_verus::data::ArrayView;
use vortex_verus::data::DecimalType;
use vortex_verus::data::Decoded;
use vortex_verus::data::DecodedBool;
use vortex_verus::data::DecodedDecimal;
use vortex_verus::data::DecodedPrimitive;
use vortex_verus::data::DecodedVarBinView;
use vortex_verus::data::Validity;
use vortex_verus::data::ValidityView;
use vortex_verus::decoded::gather_fixed;
use vortex_verus::dtype::DTypeKind;
use vortex_verus::dtype::DTypeView;
use vortex_verus::dtype_expr::DTypeExpr;
use vortex_verus::encoding::answer_children;
use vortex_verus::encoding::input_slice;
use vortex_verus::host::alloc_bytes;
use vortex_verus::host::allocate;
use vortex_verus::node::ChildSpec;
use vortex_verus::node::ChildView;
use vortex_verus::node::NodeHeader;
use vortex_verus::node::NodeView;
use vortex_verus::plan::PlanBuilder;
use vortex_verus::plan::Scalar;
use vortex_verus::proto::Field;
use vortex_verus::proto::ProtoReader;
use vortex_verus::runtime::LinearMemory;
use vortex_verus::varint::read_varint;
use vortex_verus::varint::write_varint;
use vortex_verus::GuestResult;
use vortex_verus::WasmEncoding;
use vortex_verus::__run_children;
use vortex_verus::__run_decode;

fn memory() -> LinearMemory {
    LinearMemory::new(1024, 16)
}

fn message<T>(result: GuestResult<T>) -> &'static str {
    match result {
        Err(error) => error.message(),
        Ok(_) => panic!("an error is expected"),
    }
}

fn primitive(values: &[i32], validity: Validity) -> Decoded {
    Decoded::Primitive(DecodedPrimitive {
        ptype: PType::I32,
        len: values.len(),
        values: values.iter().flat_map(|value| value.to_le_bytes()).collect(),
        validity,
    })
}

fn word(memory: &LinearMemory, address: u32) -> u32 {
    let bytes = memory.load(address, 4).expect("inside the memory");
    u32::from_le_bytes([bytes[0], bytes[1], bytes[2], bytes[3]])
}

#[test]
fn memory_grows_up_to_its_limit() {
    let mut memory = memory();
    let first = memory.allocate(10, 1).expect("there is room");
    assert_eq!(first, 1024);
    let second = memory.allocate(8, 8).expect("there is room");
    assert_eq!(second, 1040);
    memory.store(second, &[1, 2, 3]);
    assert_eq!(memory.load(second, 3), Some(&[1u8, 2, 3][..]));
    assert!(memory.load(u32::MAX, 1).is_none());
    assert!(memory.allocate(16 * 65536, 1).is_none());
    let mut host = LinearMemory::new(8, 1);
    assert!(allocate(&mut host, 16).is_some());
    let copy = alloc_bytes(&mut host, b"abc").expect("there is room");
    assert_eq!(host.load(copy, 3), Some(&b"abc"[..]));
    assert!(allocate(&mut host, 70_000).is_none());
}

#[test]
fn primitive_types_have_tags_widths_and_formats() {
    for (tag, ptype, width, format) in [
        (0, PType::U8, 1, b'C'),
        (3, PType::U64, 8, b'L'),
        (4, PType::I8, 1, b'c'),
        (6, PType::I32, 4, b'i'),
        (8, PType::F16, 2, b'e'),
        (10, PType::F64, 8, b'g'),
    ] {
        assert_eq!(ptype.discriminant(), tag);
        assert_eq!(PType::from_discriminant(u64::from(tag)), Some(ptype));
        assert_eq!(ptype.byte_width(), width);
        assert_eq!(ptype.format_code(), format);
        assert_eq!(PType::from_format(&[format]), Some(ptype));
    }
    assert_eq!(PType::from_discriminant(11), None);
    assert_eq!(PType::from_format(b"zz"), None);
}

#[test]
fn varints_round_trip() {
    for value in [0, 1, 127, 128, 300, u64::from(u32::MAX), u64::MAX] {
        let mut bytes = vec![9];
        write_varint(&mut bytes, value);
        let n = bytes.len() - 1;
        bytes.push(7);
        assert!(matches!(read_varint(&bytes, 1), Ok((read, used)) if read == value && used == n));
    }
    let mut three_hundred = Vec::new();
    write_varint(&mut three_hundred, 300);
    assert_eq!(three_hundred, vec![0xac, 0x02]);
    assert_eq!(message(read_varint(&[0x80], 0)), "truncated dtype varint");
    assert_eq!(message(read_varint(&[0x80; 11], 0)), "dtype varint overflow");
}

#[test]
fn proto_fields_are_read_in_order() {
    let mut reader = ProtoReader::new(&[
        0x08, 0x96, 0x01, 0x12, 0x02, b'h', b'i', 0x1d, 1, 0, 0, 0, 0x21, 2, 0, 0, 0, 0, 0, 0, 0,
    ]);
    assert!(matches!(reader.next(), Ok(Some((1, Field::Varint(150))))));
    assert!(matches!(reader.next(), Ok(Some((2, Field::Bytes(b"hi"))))));
    assert!(matches!(reader.next(), Ok(Some((3, Field::Fixed32(1))))));
    assert!(matches!(reader.next(), Ok(Some((4, Field::Fixed64(2))))));
    assert!(matches!(reader.next(), Ok(None)));
    assert_eq!(
        message(ProtoReader::new(&[0x0b]).next()),
        "proto: unsupported wire type"
    );
    assert_eq!(
        message(ProtoReader::new(&[0x12, 5, 1]).next()),
        "proto: truncated field"
    );
}

#[test]
fn written_arrays_parse_back() {
    let mut memory = memory();
    let array = Decoded::Struct {
        len: 2,
        fields: vec![
            primitive(&[7, -1], Validity::Bitmap(vec![0b01])),
            Decoded::Bool(DecodedBool {
                len: 2,
                bits: vec![0b10],
                validity: Validity::AllValid,
            }),
            Decoded::Decimal(DecodedDecimal {
                values_type: DecimalType::I16,
                len: 2,
                values: vec![1, 0, 2, 0],
                validity: Validity::NonNullable,
            }),
        ],
        validity: Validity::NonNullable,
    };
    assert_eq!(array.len(), 2);
    assert!(!array.is_empty());
    let address = array.write(&mut memory).expect("there is room");
    let view = ArrayView::parse(&memory, address).expect("the frame is well formed");
    assert_eq!(view.len, 2);
    match &view.kind {
        ArrayKind::Struct { fields } => {
            let numbers = fields[0].as_primitive().expect("the first field");
            assert_eq!(numbers.value_u64(0), 7);
            assert_eq!(numbers.value_u64(1), 0xffff_ffff);
            assert!(numbers.validity.is_valid(0));
            assert!(!numbers.validity.is_valid(1));
            let flags = fields[1].as_bool().expect("the second field");
            assert!(!bit(flags.bits, 0));
            assert!(bit(flags.bits, 1));
            assert_eq!(message(fields[1].as_primitive()), "array is not primitive");
            assert!(matches!(
                fields[2].kind,
                ArrayKind::Decimal {
                    values_type: DecimalType::I16,
                    ..
                }
            ));
        }
        _ => panic!("the array is a struct"),
    }
    let copy = Decoded::from_view(&view);
    assert_eq!(copy.len(), 2);
}

#[test]
fn taking_gathers_rows_of_any_shape() {
    let bytes: Vec<u8> = [10i32, 20, 30].iter().flat_map(|v| v.to_le_bytes()).collect();
    let view = ArrayView {
        len: 3,
        validity: ValidityView::Bitmap(&[0b101]),
        kind: ArrayKind::Primitive {
            ptype: PType::I32,
            values: &bytes,
        },
    };
    match Decoded::take(&view, &[2, 1, 2]) {
        Ok(Decoded::Primitive(taken)) => {
            assert_eq!(taken.len, 3);
            assert_eq!(taken.values, gather_fixed(&bytes, 4, &[2, 1, 2]));
            assert_eq!(&taken.values[0..4], &30i32.to_le_bytes());
            match taken.validity {
                Validity::Bitmap(bits) => assert_eq!(bits, vec![0b101]),
                _ => panic!("the validity is a bitmap"),
            }
        }
        _ => panic!("the indices are in bounds"),
    }
    assert_eq!(message(Decoded::take(&view, &[3])), "take index out of bounds");
}

#[test]
fn taking_every_row_in_order_gives_the_owned_copy() {
    let mut memory = memory();
    let array = Decoded::FixedSizeList {
        len: 2,
        elements: Box::new(primitive(&[1, 2, 3, 4], Validity::Bitmap(vec![0b1111_0110]))),
        validity: Validity::Bitmap(vec![0b01]),
    };
    let address = array.write(&mut memory).expect("there is room");
    let view = ArrayView::parse(&memory, address).expect("the frame is well formed");
    let parts = |array: Decoded| match array {
        Decoded::FixedSizeList {
            len,
            elements,
            validity: Validity::Bitmap(bits),
        } => match *elements {
            Decoded::Primitive(DecodedPrimitive {
                len: inner,
                values,
                validity: Validity::Bitmap(inner_bits),
                ..
            }) => (len, bits[0] & 0b11, inner, values, inner_bits[0] & 0b1111),
            _ => panic!("the elements are numbers"),
        },
        _ => panic!("the array is a fixed-size list"),
    };
    let copy = parts(Decoded::from_view(&view));
    let taken = match Decoded::take(&view, &[0, 1]) {
        Ok(taken) => parts(taken),
        Err(_) => panic!("the indices are in bounds"),
    };
    assert_eq!(taken, copy);
    assert_eq!(taken.2, 4);
}

#[test]
fn a_frame_past_the_end_is_truncated() {
    let memory = memory();
    assert_eq!(
        message(ArrayView::parse_at(&memory, &[0; 4], 9, 0)),
        "truncated array frame"
    );
}

#[test]
fn strings_are_inlined_up_to_twelve_bytes() {
    let heap = b"twelve bytesthirteen bytes".to_vec();
    match DecodedVarBinView::from_heap(heap.clone(), &[12, 14], Validity::NonNullable) {
        Ok(array) => {
            assert_eq!(array.len, 2);
            assert_eq!(&array.views[0..4], &12u32.to_le_bytes());
            assert_eq!(&array.views[4..16], b"twelve bytes");
            assert_eq!(&array.views[16..20], &14u32.to_le_bytes());
            assert_eq!(&array.views[20..24], b"thir");
            assert_eq!(&array.views[24..28], &0u32.to_le_bytes());
            assert_eq!(&array.views[28..32], &12u32.to_le_bytes());
        }
        Err(_) => panic!("the lengths fit the heap"),
    }
    assert_eq!(
        message(DecodedVarBinView::from_heap(
            heap,
            &[100],
            Validity::NonNullable
        )),
        "string length exceeds the heap"
    );
}

#[test]
fn dtypes_are_read_back() {
    let dtype = DTypeExpr::struct_(
        vec![
            ("id", DTypeExpr::primitive(PType::U16, false)),
            ("tags", DTypeExpr::list(DTypeExpr::utf8(true), true)),
        ],
        false,
    );
    let view = DTypeView::new(dtype.as_bytes()).expect("a struct");
    assert!(!view.nullable());
    assert!(matches!(view.kind(), Ok(DTypeKind::Struct(2))));
    let (name, id) = view.field(0).expect("the first field");
    assert_eq!(name, b"id");
    assert_eq!(id.ptype(), Some(PType::U16));
    let (name, tags) = view.field(1).expect("the second field");
    assert_eq!(name, b"tags");
    assert!(tags.nullable());
    let element = tags.element().expect("a list has elements");
    assert!(matches!(element.kind(), Ok(DTypeKind::Utf8)));
    assert_eq!(
        view.encoded_len().ok(),
        Some(dtype.as_bytes().len())
    );
    assert_eq!(
        message(view.field(2)),
        "dtype entry index out of bounds"
    );
    assert_eq!(message(view.element()), "dtype is not a list");
    assert_eq!(message(DTypeView::new(&[])), "empty dtype");
}

#[test]
fn maps_unions_and_extensions_are_read_back() {
    let map = DTypeExpr::map(
        DTypeExpr::utf8(false),
        DTypeExpr::decimal(10, 2, true),
        true,
        false,
    );
    let view = DTypeView::new(map.as_bytes()).expect("a map");
    assert!(matches!(
        view.kind(),
        Ok(DTypeKind::Mapping { keys_sorted: true })
    ));
    let key = view.map_key().expect("a key");
    assert!(matches!(key.kind(), Ok(DTypeKind::Utf8)));
    let value = view.map_value().expect("a value");
    assert!(matches!(value.kind(), Ok(DTypeKind::Decimal(10, 2))));
    let union = DTypeExpr::union_(vec![("n", 5, DTypeExpr::null())], true);
    let view = DTypeView::new(union.as_bytes()).expect("a union");
    let (name, tag, variant) = view.variant(0).expect("the variant");
    assert_eq!((name, tag), (&b"n"[..], 5));
    assert!(matches!(variant.kind(), Ok(DTypeKind::Null)));
    let ext = DTypeExpr::extension("x.y", &[1, 2], DTypeExpr::primitive(PType::I64, false), false);
    let view = DTypeView::new(ext.as_bytes()).expect("an extension");
    assert_eq!(view.extension_id().ok(), Some(&b"x.y"[..]));
    assert_eq!(view.extension_metadata().ok(), Some(&[1u8, 2][..]));
    let storage = view.storage().expect("its storage");
    assert_eq!(storage.ptype(), Some(PType::I64));
}

/// An encoding of constant numbers: the metadata is the number.
struct Repeated;

impl WasmEncoding for Repeated {
    fn children(header: &NodeHeader<'_>) -> GuestResult<Vec<ChildSpec>> {
        Ok(vec![ChildSpec::values(
            DTypeExpr::bool(header.nullable),
            header.len as u64,
        )])
    }

    fn decode(memory: &LinearMemory, node: &NodeView<'_>) -> GuestResult<Decoded> {
        let buffer = node.buffer(memory, 0)?;
        match node.child(memory, 0)? {
            ChildView::Bool(flags) => assert_eq!(flags.len, node.len),
            ChildView::Primitive(_) => panic!("the child is boolean"),
        }
        let values = vec![i32::from(buffer[0]) + i32::from(node.metadata[0]); node.len];
        Ok(primitive(&values, Validity::NonNullable))
    }
}

fn children_frame(len: u64, dtype: &[u8], metadata: &[u8]) -> Vec<u8> {
    let mut out = len.to_le_bytes().to_vec();
    for value in [1u32, 1, dtype.len() as u32, metadata.len() as u32] {
        out.extend(value.to_le_bytes());
    }
    out.extend(dtype);
    out.extend(metadata);
    out
}

fn decode_frame(memory: &mut LinearMemory, len: u64, metadata: &[u8], buffer: &[u8]) -> Vec<u8> {
    let dtype = DTypeExpr::primitive(PType::I32, true);
    let buffer_ptr = alloc_bytes(memory, buffer).expect("there is room");
    let bits_ptr = alloc_bytes(memory, &[0b11]).expect("there is room");
    let mut out = len.to_le_bytes().to_vec();
    for value in [
        1u32,
        dtype.as_bytes().len() as u32,
        metadata.len() as u32,
        1,
        1,
    ] {
        out.extend(value.to_le_bytes());
    }
    out.extend(dtype.as_bytes());
    out.extend(metadata);
    out.extend(buffer_ptr.to_le_bytes());
    out.extend((buffer.len() as u32).to_le_bytes());
    out.extend([1, 0, 0, 0]);
    out.extend(2u32.to_le_bytes());
    out.extend(bits_ptr.to_le_bytes());
    out.extend(1u32.to_le_bytes());
    out.extend(0u32.to_le_bytes());
    out.extend(0u32.to_le_bytes());
    out
}

#[test]
fn an_encoding_declares_its_children() {
    let mut memory = memory();
    let dtype = DTypeExpr::primitive(PType::I32, true);
    let frame = children_frame(2, dtype.as_bytes(), &[9]);
    let ptr = alloc_bytes(&mut memory, &frame).expect("there is room");
    assert_eq!(
        input_slice(&memory, ptr as i32, frame.len() as i32),
        Some(frame.as_slice())
    );
    let answer = __run_children::<Repeated>(&mut memory, ptr as i32, frame.len() as i32)
        .expect("there is room");
    assert!(answer > 0);
    assert_eq!(word(&memory, answer as u32), 1);
    assert_eq!(
        __run_children::<Repeated>(&mut memory, ptr as i32, 3),
        Some(-1)
    );
    assert_eq!(
        __run_children::<Repeated>(&mut memory, i32::MAX, 3),
        None
    );
    assert_eq!(
        answer_children(&mut memory, Err(vortex_verus::GuestError::new("no"))),
        Some(-1)
    );
}

#[test]
fn an_encoding_decodes_its_node() {
    let mut memory = memory();
    let frame = decode_frame(&mut memory, 2, &[40], &[2]);
    let ptr = alloc_bytes(&mut memory, &frame).expect("there is room");
    let answer = __run_decode::<Repeated>(&mut memory, ptr as i32, frame.len() as i32)
        .expect("there is room");
    let view = ArrayView::parse(&memory, answer as u32).expect("the array was written");
    let numbers = view.as_primitive().expect("numbers");
    assert_eq!((numbers.len, numbers.value_u64(1)), (2, 42));
    assert_eq!(
        __run_decode::<Repeated>(&mut memory, ptr as i32, 10),
        Some(-1)
    );
}

#[test]
fn plans_are_written_with_their_nodes() {
    let mut memory = memory();
    let mut plan = PlanBuilder::new();
    let base = plan.child(0);
    let values = plan.child(1);
    let patched = plan
        .patch(&mut memory, base, 3, values, &[None, Some(0), None])
        .expect("there is room")
        .expect("the rows can be numbered");
    let constant = plan.constant(Scalar::bool(true, false), 3);
    let masked = plan.set_validity(patched, constant);
    let sliced = plan.slice(masked, 1, 3);
    let whole = plan.concat(&[sliced, base]);
    let root = plan.take(whole, values);
    let address = plan.finish(&mut memory, root).expect("there is room") as u32;
    assert_eq!(word(&memory, address), 10);
    assert_eq!(word(&memory, address + 4), 9);
    assert!(Scalar::primitive(PType::I16, &[1], false).is_err());
    assert!(Scalar::primitive(PType::I16, &[1, 0], false).is_ok());
}

#[test]
fn arrow_structs_round_trip() {
    let mut memory = memory();
    let decoded = arrow::Decoded::Primitive(arrow::DecodedPrimitive {
        ptype: PType::U16,
        len: 3,
        nullable: true,
        values: vec![1, 0, 2, 0, 3, 1],
        validity: Some(vec![0b101]),
    });
    let ptr = arrow::write(&mut memory, &decoded).expect("there is room") as u32;
    assert_eq!(word(&memory, ptr), 0);
    let (array, schema) = (word(&memory, ptr + 4), word(&memory, ptr + 8));
    match arrow::read_child(&memory, array, schema) {
        Ok(arrow::ChildView::Primitive(child)) => {
            assert_eq!(child.ptype, PType::U16);
            assert_eq!(child.len, 3);
            assert_eq!(child.value_u64(2), 259);
            assert_eq!(child.validity, Some(&[0b101u8][..]));
        }
        _ => panic!("the child is primitive"),
    }
}

#[test]
fn arrow_formats_have_to_be_known_text() {
    let mut memory = memory();
    let decoded = arrow::Decoded::Primitive(arrow::DecodedPrimitive {
        ptype: PType::U16,
        len: 1,
        nullable: false,
        values: vec![1, 0],
        validity: None,
    });
    let ptr = arrow::write(&mut memory, &decoded).expect("there is room") as u32;
    let (array, schema) = (word(&memory, ptr + 4), word(&memory, ptr + 8));
    let format = word(&memory, schema);
    memory.store(format, &[0xff, 0]);
    assert_eq!(
        message(arrow::read_child(&memory, array, schema)),
        "non-utf8 Arrow format code"
    );
    memory.store(format, b"?\0");
    assert_eq!(
        message(arrow::read_child(&memory, array, schema)),
        "child has unsupported Arrow format"
    );
}
