use binser::{Decode, Encode, Error, Field, Reader, Repr, ReprError, Schema, Shape, ShapeError, Size, Template, Variant, Writer};

fn eight_ints() -> Vec<Schema> {
    vec![
        Schema::Int(Repr::I8),
        Schema::Int(Repr::U8),
        Schema::Int(Repr::I16),
        Schema::Int(Repr::U16),
        Schema::Int(Repr::I32),
        Schema::Int(Repr::U32),
        Schema::Int(Repr::I64),
        Schema::Int(Repr::U64),
    ]
}

fn unnamed_struct() -> Schema {
    let fields = eight_ints()
        .into_iter()
        .map(|schema| Field { name: None, schema })
        .collect();
    Schema::generate(Shape::Struct(fields), None).unwrap()
}

fn named_struct() -> Schema {
    let fields = ["a", "b", "c", "d", "e", "f", "g", "h"]
        .iter()
        .zip(eight_ints())
        .map(|(name, schema)| Field { name: Some(name.to_string()), schema })
        .collect();
    Schema::generate(Shape::Struct(fields), None).unwrap()
}

fn unit_struct() -> Schema {
    Schema::Struct(vec![])
}

fn first_second_enum() -> Schema {
    let variants = vec![
        Variant { has_fields: false, discriminant: Some(1) },
        Variant { has_fields: false, discriminant: Some(2) },
    ];
    Schema::generate(Shape::Enum(variants), Some("i8")).unwrap()
}

fn generic(param: Schema) -> Schema {
    Template::Struct(vec![Template::Param(0)]).instantiate(&vec![param]).unwrap()
}

#[test]
fn test_size() {
    let size: usize = <i8 as Size>::size()
        + <u8 as Size>::size()
        + <i16 as Size>::size()
        + <u16 as Size>::size()
        + <i32 as Size>::size()
        + <u32 as Size>::size()
        + <i64 as Size>::size()
        + <u64 as Size>::size();

    assert_eq!(unnamed_struct().size(), size);
    assert_eq!(named_struct().size(), size);
    assert_eq!(unit_struct().size(), 0);
    assert_eq!(first_second_enum().size(), <i8 as Size>::size());
    assert_eq!(generic(Schema::Int(Repr::U32)).size(), <u32 as Size>::size());
}

#[test]
fn test_serialize() {
    let unnamed = unnamed_struct();
    let named = named_struct();
    let unit = unit_struct();
    let en = first_second_enum();
    let gen = generic(Schema::Int(Repr::U32));

    let mut writer = Writer::new();
    unnamed.encode(&vec![0, 1, 2, 3, 4, 5, 6, 7], &mut writer);
    named.encode(&vec![0, 1, 2, 3, 4, 5, 6, 7], &mut writer);
    unit.encode(&vec![], &mut writer);
    en.encode(&vec![1], &mut writer);
    gen.encode(&vec![0], &mut writer);

    let data = writer.data();
    let mut reader = Reader::new(data);
    assert_eq!(unnamed.decode(&mut reader).unwrap(), vec![0, 1, 2, 3, 4, 5, 6, 7]);
    assert_eq!(named.decode(&mut reader).unwrap(), vec![0, 1, 2, 3, 4, 5, 6, 7]);
    assert_eq!(unit.decode(&mut reader).unwrap(), Vec::<i128>::new());
    assert_eq!(en.decode(&mut reader).unwrap(), vec![1]);
    assert_eq!(gen.decode(&mut reader).unwrap(), vec![0]);
}

fn round_trip<T: Encode + Decode + Size + Copy + PartialEq + std::fmt::Debug>(v: T) {
    let bytes = v.encode_in_place();
    assert_eq!(bytes.len(), T::size());
    assert_eq!(T::decode_in_place(&bytes).unwrap(), v);
}

#[test]
fn primitives_round_trip() {
    for v in [i8::MIN, -1, 0, 1, i8::MAX] {
        round_trip(v);
    }
    for v in [u8::MIN, 1, 0x80, u8::MAX] {
        round_trip(v);
    }
    for v in [i16::MIN, -2, 0, 0x1234, i16::MAX] {
        round_trip(v);
    }
    for v in [0u16, 0xabcd, u16::MAX] {
        round_trip(v);
    }
    for v in [i32::MIN, -70000, 0, i32::MAX] {
        round_trip(v);
    }
    for v in [0u32, 0xdead_beef, u32::MAX] {
        round_trip(v);
    }
    for v in [i64::MIN, -1, 0, i64::MAX] {
        round_trip(v);
    }
    for v in [0u64, 0x0102_0304_0506_0708, u64::MAX] {
        round_trip(v);
    }
}

#[test]
fn primitives_are_little_endian() {
    assert_eq!(0x0102_0304u32.encode_in_place(), vec![4, 3, 2, 1]);
    assert_eq!((-2i16).encode_in_place(), vec![0xfe, 0xff]);
    assert_eq!(0x0102_0304_0506_0708u64.encode_in_place(), vec![8, 7, 6, 5, 4, 3, 2, 1]);
    assert_eq!(i64::MIN.encode_in_place(), vec![0, 0, 0, 0, 0, 0, 0, 0x80]);
    assert_eq!(i32::decode_in_place(&[0xff, 0xff, 0xff, 0xff]), Ok(-1));
    assert_eq!(u16::decode_in_place(&[0x34, 0x12, 0x99]), Ok(0x1234));
}

#[test]
fn primitive_sizes() {
    assert_eq!(<i8 as Size>::size(), 1);
    assert_eq!(<u8 as Size>::size(), 1);
    assert_eq!(<i16 as Size>::size(), 2);
    assert_eq!(<u16 as Size>::size(), 2);
    assert_eq!(<i32 as Size>::size(), 4);
    assert_eq!(<u32 as Size>::size(), 4);
    assert_eq!(<i64 as Size>::size(), 8);
    assert_eq!(<u64 as Size>::size(), 8);
}

#[test]
fn struct_round_trip_mixed_fields() {
    let s = unnamed_struct();
    let values: Vec<i128> = vec![-128, 255, -32768, 65535, i32::MIN as i128, u32::MAX as i128, i64::MIN as i128, u64::MAX as i128];
    let mut writer = Writer::new();
    s.encode(&values, &mut writer);
    let bytes = writer.finish();
    assert_eq!(bytes.len(), s.size());
    assert_eq!(bytes.len(), 30);
    let mut reader = Reader::new(&bytes);
    assert_eq!(s.decode(&mut reader).unwrap(), values);
    assert_eq!(reader.position(), 30);
}

#[test]
fn size_matches_encoding_for_nested_schemas() {
    let inner = Schema::Struct(vec![Schema::Int(Repr::U16), first_second_enum()]);
    let outer = Schema::Struct(vec![
        Schema::Array(Box::new(inner), 3),
        Schema::Int(Repr::I32),
        unit_struct(),
    ]);
    assert_eq!(outer.size(), 3 * 3 + 4);
    let values: Vec<i128> = vec![7, 1, 8, 2, 9, 1, -5];
    let mut writer = Writer::new();
    outer.encode(&values, &mut writer);
    assert_eq!(writer.data().len(), outer.size());
    assert_eq!(writer.data(), &[7, 0, 1, 8, 0, 2, 9, 0, 1, 0xfb, 0xff, 0xff, 0xff][..]);
    let mut reader = Reader::new(writer.data());
    assert_eq!(outer.decode(&mut reader).unwrap(), values);
}

#[test]
fn enum_size_is_variant_independent() {
    let en = first_second_enum();
    for v in [1i128, 2] {
        let mut writer = Writer::new();
        en.encode(&vec![v], &mut writer);
        assert_eq!(writer.data().len(), en.size());
    }
}

#[test]
fn unit_struct_is_empty() {
    let unit = unit_struct();
    let mut writer = Writer::new();
    unit.encode(&vec![], &mut writer);
    assert!(writer.data().is_empty());
    let bytes = [1u8, 2, 3];
    let mut reader = Reader::new(&bytes);
    assert_eq!(unit.decode(&mut reader), Ok(vec![]));
    assert_eq!(reader.position(), 0);
    let empty: [u8; 0] = [];
    let mut reader = Reader::new(&empty);
    assert_eq!(unit.decode(&mut reader), Ok(vec![]));
}

#[test]
fn enum_discriminant_fidelity() {
    let en = first_second_enum();
    let mut writer = Writer::new();
    en.encode(&vec![2], &mut writer);
    assert_eq!(writer.data(), &[0x02][..]);

    let two = [0x02u8];
    let mut reader = Reader::new(&two);
    assert_eq!(en.decode(&mut reader), Ok(vec![2]));

    let nine = [0x09u8, 0x01];
    let mut reader = Reader::new(&nine);
    assert_eq!(en.decode(&mut reader), Err(Error::InvalidVariant));
    assert_eq!(reader.position(), 1);
}

#[test]
fn enum_with_negative_wide_tag() {
    let variants = vec![
        Variant { has_fields: false, discriminant: Some(-3) },
        Variant { has_fields: false, discriminant: Some(70000) },
    ];
    let en = Schema::generate(Shape::Enum(variants), Some("i32")).unwrap();
    assert_eq!(en.size(), 4);
    let mut writer = Writer::new();
    en.encode(&vec![-3], &mut writer);
    en.encode(&vec![70000], &mut writer);
    assert_eq!(writer.data(), &[0xfd, 0xff, 0xff, 0xff, 0x70, 0x11, 0x01, 0x00][..]);
    let mut reader = Reader::new(writer.data());
    assert_eq!(en.decode(&mut reader), Ok(vec![-3]));
    assert_eq!(en.decode(&mut reader), Ok(vec![70000]));
}

#[test]
fn overflow_leaves_cursor() {
    let bytes = [1u8, 2, 3];
    let mut reader = Reader::new(&bytes);
    assert_eq!(reader.read::<u32>(), Err(Error::Overflow));
    assert_eq!(reader.position(), 0);
    let mut buf = [0u8; 3];
    assert_eq!(reader.read_bytes(&mut buf), Ok(()));
    assert_eq!(buf, [1, 2, 3]);
    assert_eq!(reader.read::<u8>(), Err(Error::Overflow));
}

#[test]
fn overflow_in_struct_stops_at_failing_field() {
    let s = Schema::Struct(vec![Schema::Int(Repr::U16), Schema::Int(Repr::U32)]);
    let bytes = [1u8, 0, 5, 6];
    let mut reader = Reader::new(&bytes);
    assert_eq!(s.decode(&mut reader), Err(Error::Overflow));
    assert_eq!(reader.position(), 2);
}

#[test]
fn read_bytes_overflow_keeps_buffer() {
    let bytes = [9u8, 8];
    let mut reader = Reader::new(&bytes);
    let mut buf = [7u8; 3];
    assert_eq!(reader.read_bytes(&mut buf), Err(Error::Overflow));
    assert_eq!(buf, [7, 7, 7]);
    assert_eq!(reader.position(), 0);
}

#[test]
fn random_access_write() {
    let mut writer = Writer::new();
    writer.write_at(0xbeefu16, 10);
    let data = writer.data();
    assert_eq!(data.len(), 12);
    assert!(data[..10].iter().all(|b| *b == 0));
    assert_eq!(&data[10..], &[0xef, 0xbe]);
}

#[test]
fn random_access_write_keeps_append_position() {
    let mut writer = Writer::with_capacity(16);
    writer.write(1u8);
    writer.write(2u8);
    writer.write(3u8);
    writer.write_at(0x99u8, 1);
    writer.write(4u8);
    assert_eq!(writer.data(), &[1, 0x99, 3, 4][..]);
    writer.write_bytes_at(&[5, 6, 7], 3);
    assert_eq!(writer.finish(), vec![1, 0x99, 3, 5, 6, 7]);
}

#[test]
fn write_bytes_and_clear() {
    let mut writer = Writer::new();
    writer.write_bytes(&[1, 2, 3]);
    writer.write_bytes(&[]);
    writer.write_bytes(&[4]);
    assert_eq!(writer.data(), &[1, 2, 3, 4][..]);
    writer.clear();
    assert!(writer.data().is_empty());
    writer.write(0x0102i16);
    assert_eq!(writer.data(), &[2, 1][..]);
}

#[test]
fn random_access_read() {
    let bytes = [0u8, 0x34, 0x12, 0xff];
    let mut reader = Reader::new(&bytes);
    assert_eq!(reader.read_at::<u16>(1), Ok(0x1234));
    assert_eq!(reader.read_at::<u16>(3), Err(Error::Overflow));
    assert_eq!(reader.read_at::<u8>(4), Err(Error::Overflow));
    assert_eq!(reader.read_at::<[u8; 0]>(4), Ok([]));
    assert_eq!(reader.read_at::<[u8; 0]>(5), Err(Error::Overflow));
    assert_eq!(reader.position(), 0);
    assert_eq!(reader.read::<u8>(), Ok(0));
    assert_eq!(reader.read_at::<u8>(3), Ok(0xff));
    assert_eq!(reader.position(), 1);
}

#[test]
fn generic_wrapper_of_u32() {
    let gen = generic(Schema::Int(Repr::U32));
    assert_eq!(gen.size(), <u32 as Size>::size());
    let mut writer = Writer::new();
    gen.encode(&vec![0xdead_beef], &mut writer);
    assert_eq!(writer.data(), &[0xef, 0xbe, 0xad, 0xde][..]);
    let mut reader = Reader::new(writer.data());
    assert_eq!(gen.decode(&mut reader), Ok(vec![0xdead_beef]));
}

#[test]
fn arrays_round_trip() {
    let a: [u16; 3] = [1, 0x0203, 0xffff];
    let bytes = a.encode_in_place();
    assert_eq!(bytes, vec![1, 0, 3, 2, 0xff, 0xff]);
    assert_eq!(<[u16; 3] as Size>::size(), 6);
    assert_eq!(<[u16; 3]>::decode_in_place(&bytes), Ok(a));
    let nested: [[i8; 2]; 2] = [[-1, 2], [3, -4]];
    assert_eq!(<[[i8; 2]; 2]>::decode_in_place(&nested.encode_in_place()), Ok(nested));
    assert_eq!(<[[i8; 2]; 2] as Size>::size(), 4);
}

#[test]
fn array_overflow_stops_before_failing_element() {
    let bytes = [1u8, 0, 2, 0, 3];
    let mut reader = Reader::new(&bytes);
    assert_eq!(reader.read::<[u16; 3]>(), Err(Error::Overflow));
    assert_eq!(reader.position(), 4);
}

#[test]
fn repr_parse() {
    assert_eq!(Repr::parse(Some("i8")), Ok(Repr::I8));
    assert_eq!(Repr::parse(Some("u8")), Ok(Repr::U8));
    assert_eq!(Repr::parse(Some("i16")), Ok(Repr::I16));
    assert_eq!(Repr::parse(Some("u16")), Ok(Repr::U16));
    assert_eq!(Repr::parse(Some("i32")), Ok(Repr::I32));
    assert_eq!(Repr::parse(Some("u32")), Ok(Repr::U32));
    assert_eq!(Repr::parse(Some("i64")), Ok(Repr::I64));
    assert_eq!(Repr::parse(Some("u64")), Ok(Repr::U64));
    assert_eq!(Repr::parse(Some("usize")), Err(ReprError::Invalid));
    assert_eq!(Repr::parse(Some("C")), Err(ReprError::Invalid));
    assert_eq!(Repr::parse(None), Err(ReprError::Missing));
    assert_eq!(Repr::I64.size(), 8);
    assert!(Repr::I16.contains(-32768));
    assert!(!Repr::I16.contains(32768));
    assert!(!Repr::U8.contains(-1));
}

#[test]
fn generate_rejects_bad_declarations() {
    assert!(matches!(Schema::generate(Shape::Union, None), Err(ShapeError::Union)));
    let ok = || vec![Variant { has_fields: false, discriminant: Some(1) }];
    assert!(matches!(Schema::generate(Shape::Enum(ok()), None), Err(ShapeError::Repr(ReprError::Missing))));
    assert!(matches!(Schema::generate(Shape::Enum(ok()), Some("f32")), Err(ShapeError::Repr(ReprError::Invalid))));
    let with_data = vec![
        Variant { has_fields: false, discriminant: Some(1) },
        Variant { has_fields: true, discriminant: Some(2) },
    ];
    assert!(matches!(Schema::generate(Shape::Enum(with_data), Some("u8")), Err(ShapeError::VariantWithFields)));
    let implicit = vec![
        Variant { has_fields: false, discriminant: Some(1) },
        Variant { has_fields: false, discriminant: None },
    ];
    assert!(matches!(Schema::generate(Shape::Enum(implicit), Some("u8")), Err(ShapeError::MissingDiscriminant)));
    assert_eq!(ShapeError::VariantWithFields.message(), "enum fields must not contain any data");
    assert_eq!(ShapeError::Repr(ReprError::Missing).message(), "no repr attribute has been found");
}

#[test]
fn error_messages() {
    assert_eq!(Error::Overflow.message(), "Out of bounds read");
    assert_eq!(Error::InvalidVariant.message(), "Invalid variant of an enum");
    assert_eq!(ReprError::Invalid.message(), "invalid repr attribute");
}

#[test]
fn template_instantiation() {
    let pair = Template::Struct(vec![
        Template::Param(0),
        Template::Int(Repr::U8),
        Template::Array(Box::new(Template::Param(1)), 2),
    ]);
    assert!(pair.instantiate(&vec![Schema::Int(Repr::I16)]).is_none());
    let s = pair
        .instantiate(&vec![Schema::Int(Repr::I16), first_second_enum()])
        .unwrap();
    assert_eq!(s.size(), 2 + 1 + 2);
    let values: Vec<i128> = vec![-1, 200, 2, 1];
    assert!(s.admits(&values));
    let mut writer = Writer::new();
    s.encode(&values, &mut writer);
    assert_eq!(writer.data(), &[0xff, 0xff, 200, 2, 1][..]);
    let mut reader = Reader::new(writer.data());
    assert_eq!(s.decode(&mut reader), Ok(values));
}

#[test]
fn admits_checks_ranges_and_discriminants() {
    let s = Schema::Struct(vec![Schema::Int(Repr::U8), first_second_enum()]);
    assert!(s.admits(&vec![255, 1]));
    assert!(s.admits(&vec![0, 2]));
    assert!(!s.admits(&vec![256, 1]));
    assert!(!s.admits(&vec![-1, 1]));
    assert!(!s.admits(&vec![0, 3]));
    assert!(!s.admits(&vec![0]));
    assert!(!s.admits(&vec![0, 1, 2]));
    assert!(unit_struct().admits(&vec![]));
    assert!(!unit_struct().admits(&vec![0]));
}

#[test]
fn repr_names_parse_back() {
    let all = [Repr::I8, Repr::U8, Repr::I16, Repr::U16, Repr::I32, Repr::U32, Repr::I64, Repr::U64];
    for r in all {
        assert_eq!(Repr::parse(Some(r.name())), Ok(r));
    }
    assert_eq!(Repr::U32.name(), "u32");
    assert_eq!(Repr::I16.name(), "i16");
}

#[test]
fn read_at_end_of_empty_buffer() {
    let empty: [u8; 0] = [];
    let reader = Reader::new(&empty);
    assert_eq!(reader.read_at::<[u16; 0]>(0), Ok([]));
    assert_eq!(reader.read_at::<u8>(0), Err(Error::Overflow));
    assert_eq!(reader.read_at::<[u16; 0]>(1), Err(Error::Overflow));
}

#[test]
fn generate_checks_discriminant_values() {
    let too_big = vec![
        Variant { has_fields: false, discriminant: Some(1) },
        Variant { has_fields: false, discriminant: Some(300) },
    ];
    assert!(matches!(Schema::generate(Shape::Enum(too_big), Some("i8")), Err(ShapeError::DiscriminantOutOfRange)));
    let negative = vec![Variant { has_fields: false, discriminant: Some(-1) }];
    assert!(matches!(Schema::generate(Shape::Enum(negative), Some("u16")), Err(ShapeError::DiscriminantOutOfRange)));
    let repeated = vec![
        Variant { has_fields: false, discriminant: Some(4) },
        Variant { has_fields: false, discriminant: Some(5) },
        Variant { has_fields: false, discriminant: Some(4) },
    ];
    assert!(matches!(Schema::generate(Shape::Enum(repeated), Some("u8")), Err(ShapeError::DuplicateDiscriminant)));
    let fine = vec![
        Variant { has_fields: false, discriminant: Some(-128) },
        Variant { has_fields: false, discriminant: Some(127) },
    ];
    assert_eq!(Schema::generate(Shape::Enum(fine), Some("i8")).unwrap().size(), 1);
    assert_eq!(ShapeError::DiscriminantOutOfRange.message(), "discriminant does not fit the tag type");
    assert_eq!(ShapeError::DuplicateDiscriminant.message(), "discriminants must be distinct");
}
