//! Tests of the pointer-graph codec: skeleton emission, the two-phase
//! write, alignment, null and shared offsets, counts, endianness, the
//! round trip, and every error variant.

use xc3_codec::read::read_container;
use xc3_codec::schema::BaseKind;
use xc3_codec::schema::ContainerSchema;
use xc3_codec::schema::ContainerValue;
use xc3_codec::schema::CountOrder;
use xc3_codec::schema::FieldSchema;
use xc3_codec::schema::FieldValue;
use xc3_codec::schema::PayloadSchema;
use xc3_codec::schema::PayloadValue;
use xc3_codec::stream::Endian;
use xc3_codec::stream::Stream;
use xc3_codec::stream::Width;
use xc3_codec::write::align;
use xc3_codec::write::round_up;
use xc3_codec::write::write_full;
use xc3_codec::write::write_skeleton;
use xc3_codec::write::Error;

fn count_offset_schema(field_align: usize, pad_byte: u8) -> ContainerSchema {
    ContainerSchema {
        fields: vec![FieldSchema::CountOffset {
            order: CountOrder::CountFirst,
            elem_width: Width::W8,
            field_align,
            pad_byte,
        }],
    }
}

fn count_offset_value(elems: Vec<u64>) -> ContainerValue {
    ContainerValue {
        fields: vec![FieldValue::CountOffset { elems }],
    }
}

#[test]
fn write_count_offset() {
    let schema = count_offset_schema(1, 0);
    let value = count_offset_value(vec![1, 2, 3, 4]);

    let mut writer = Stream::new();
    let mut data_ptr: usize = 0;
    let _ = write_skeleton(&value, &schema, &mut writer, &mut data_ptr, Endian::Little);

    assert_eq!(vec![4, 0, 0, 0, 0, 0, 0, 0], writer.data);
    assert_eq!(8, data_ptr);
}

#[test]
fn write_count_offset_full() {
    let schema = count_offset_schema(1, 0);
    let value = count_offset_value(vec![1, 2, 3, 4]);

    let mut writer = Stream::new();
    let mut data_ptr: usize = 0;
    write_full(&value, &schema, &mut writer, 0, &mut data_ptr, Endian::Little).unwrap();

    assert_eq!(vec![4, 0, 0, 0, 8, 0, 0, 0, 1, 2, 3, 4], writer.data);
    assert_eq!(12, data_ptr);
}

#[test]
fn write_count_offset_full_align_0x0() {
    let schema = count_offset_schema(16, 0);
    let value = count_offset_value(vec![1, 2, 3, 4]);

    let mut writer = Stream::new();
    let mut data_ptr: usize = 0;
    write_full(&value, &schema, &mut writer, 0, &mut data_ptr, Endian::Little).unwrap();

    assert_eq!(
        vec![4, 0, 0, 0, 16, 0, 0, 0, 0, 0, 0, 0, 0, 0, 0, 0, 1, 2, 3, 4],
        writer.data
    );
    assert_eq!(20, data_ptr);
}

#[test]
fn write_count_offset_full_align_0xff() {
    let schema = count_offset_schema(16, 0xff);
    let value = count_offset_value(vec![1, 2, 3, 4]);

    let mut writer = Stream::new();
    let mut data_ptr: usize = 0;
    write_full(&value, &schema, &mut writer, 0, &mut data_ptr, Endian::Little).unwrap();

    assert_eq!(
        vec![
            4, 0, 0, 0, 16, 0, 0, 0, 0xff, 0xff, 0xff, 0xff, 0xff, 0xff, 0xff, 0xff, 1, 2, 3, 4
        ],
        writer.data
    );
    assert_eq!(20, data_ptr);
}

#[test]
fn nullable_offset_absent_writes_zero_placeholder() {
    // A nullable offset with no value writes 4 zero bytes and nothing
    // else; re-parsing yields "absent".
    let schema = ContainerSchema {
        fields: vec![FieldSchema::OffsetField {
            width: Width::W32,
            nullable: true,
            field_align: 1,
            pad_byte: 0,
            payload: PayloadSchema::Bytes { len: 4, align: 1 },
        }],
    };
    let value = ContainerValue {
        fields: vec![FieldValue::OffsetField { payload: None }],
    };

    let mut writer = Stream::new();
    let mut data_ptr: usize = 0;
    write_full(&value, &schema, &mut writer, 0, &mut data_ptr, Endian::Little).unwrap();
    assert_eq!(vec![0, 0, 0, 0], writer.data);
    assert_eq!(4, data_ptr);

    let back = read_container(&writer, &schema, 0, 0, Endian::Little).unwrap();
    assert_eq!(value, back);
}

#[test]
fn shared_offset_equals_sibling() {
    // Two sibling offset fields, the second a shared offset aliasing the
    // first: after phase two both placeholders hold the same address.
    let schema = ContainerSchema {
        fields: vec![
            FieldSchema::OffsetField {
                width: Width::W32,
                nullable: false,
                field_align: 1,
                pad_byte: 0,
                payload: PayloadSchema::Bytes { len: 2, align: 1 },
            },
            FieldSchema::SharedOffset {
                width: Width::W32,
                alias: 0,
            },
        ],
    };
    let value = ContainerValue {
        fields: vec![
            FieldValue::OffsetField {
                payload: Some(PayloadValue::Bytes { data: vec![9, 9] }),
            },
            FieldValue::SharedOffset,
        ],
    };

    let mut writer = Stream::new();
    let mut data_ptr: usize = 0;
    write_full(&value, &schema, &mut writer, 0, &mut data_ptr, Endian::Little).unwrap();
    assert_eq!(vec![8, 0, 0, 0, 8, 0, 0, 0, 9, 9], writer.data);

    let back = read_container(&writer, &schema, 0, 0, Endian::Little).unwrap();
    assert_eq!(value, back);
}

#[test]
fn count_zero_writes_no_pointed_to_bytes() {
    let schema = count_offset_schema(1, 0);
    let value = count_offset_value(vec![]);

    let mut writer = Stream::new();
    let mut data_ptr: usize = 0;
    write_full(&value, &schema, &mut writer, 0, &mut data_ptr, Endian::Little).unwrap();
    assert_eq!(vec![0, 0, 0, 0, 8, 0, 0, 0], writer.data);

    let back = read_container(&writer, &schema, 0, 0, Endian::Little).unwrap();
    assert_eq!(value, back);
}

fn nested_schema() -> ContainerSchema {
    ContainerSchema {
        fields: vec![
            FieldSchema::FixedBytes { len: 4 },
            FieldSchema::Scalar { width: Width::W16 },
            FieldSchema::OffsetField {
                width: Width::W32,
                nullable: false,
                field_align: 4,
                pad_byte: 0,
                payload: PayloadSchema::Container {
                    base: BaseKind::Establish,
                    align: 1,
                    schema: ContainerSchema {
                        fields: vec![FieldSchema::CountOffset {
                            order: CountOrder::OffsetFirst,
                            elem_width: Width::W16,
                            field_align: 1,
                            pad_byte: 0,
                        }],
                    },
                },
            },
            FieldSchema::OffsetField {
                width: Width::W32,
                nullable: true,
                field_align: 1,
                pad_byte: 0,
                payload: PayloadSchema::CStr { align: 1 },
            },
        ],
    }
}

fn nested_value() -> ContainerValue {
    ContainerValue {
        fields: vec![
            FieldValue::FixedBytes {
                data: vec![0x4d, 0x41, 0x47, 0x43],
            },
            FieldValue::Scalar { value: 10001 },
            FieldValue::OffsetField {
                payload: Some(PayloadValue::Container {
                    value: ContainerValue {
                        fields: vec![FieldValue::CountOffset {
                            elems: vec![7, 300, 65535],
                        }],
                    },
                }),
            },
            FieldValue::OffsetField {
                payload: Some(PayloadValue::CStr {
                    data: vec![b'h', b'i'],
                }),
            },
        ],
    }
}

#[test]
fn round_trip_nested_little_endian() {
    let schema = nested_schema();
    let value = nested_value();
    let mut writer = Stream::new();
    let mut data_ptr: usize = 0;
    write_full(&value, &schema, &mut writer, 0, &mut data_ptr, Endian::Little).unwrap();
    let back = read_container(&writer, &schema, 0, 0, Endian::Little).unwrap();
    assert_eq!(value, back);
}

#[test]
fn round_trip_nested_big_endian() {
    let schema = nested_schema();
    let value = nested_value();
    let mut writer = Stream::new();
    let mut data_ptr: usize = 0;
    write_full(&value, &schema, &mut writer, 0, &mut data_ptr, Endian::Big).unwrap();
    let back = read_container(&writer, &schema, 0, 0, Endian::Big).unwrap();
    assert_eq!(value, back);
}

#[test]
fn round_trip_forwarded_base() {
    // The child's offsets stay relative to the parent's base.
    let schema = ContainerSchema {
        fields: vec![FieldSchema::OffsetField {
            width: Width::W32,
            nullable: false,
            field_align: 1,
            pad_byte: 0,
            payload: PayloadSchema::Container {
                base: BaseKind::Forward,
                align: 1,
                schema: count_offset_schema(1, 0),
            },
        }],
    };
    let value = ContainerValue {
        fields: vec![FieldValue::OffsetField {
            payload: Some(PayloadValue::Container {
                value: count_offset_value(vec![5, 6]),
            }),
        }],
    };
    let mut writer = Stream::new();
    let mut data_ptr: usize = 0;
    write_full(&value, &schema, &mut writer, 0, &mut data_ptr, Endian::Little).unwrap();
    // Parent cell -> 4; child at 4: count 2, offset 12 relative to base 0.
    assert_eq!(vec![4, 0, 0, 0, 2, 0, 0, 0, 12, 0, 0, 0, 5, 6], writer.data);
    let back = read_container(&writer, &schema, 0, 0, Endian::Little).unwrap();
    assert_eq!(value, back);
}

#[test]
fn big_endian_count_bytes() {
    let schema = count_offset_schema(1, 0);
    let value = count_offset_value(vec![1, 2, 3, 4]);
    let mut writer = Stream::new();
    let mut data_ptr: usize = 0;
    write_full(&value, &schema, &mut writer, 0, &mut data_ptr, Endian::Big).unwrap();
    assert_eq!(vec![0, 0, 0, 4, 0, 0, 0, 8, 1, 2, 3, 4], writer.data);
}

#[test]
fn write_at_nonzero_base() {
    // A container written after existing bytes, with its offsets
    // relative to its own start.
    let schema = count_offset_schema(1, 0);
    let value = count_offset_value(vec![0xaa]);
    let mut writer = Stream {
        data: vec![0xee, 0xee],
    };
    let mut data_ptr: usize = 2;
    write_full(&value, &schema, &mut writer, 2, &mut data_ptr, Endian::Little).unwrap();
    assert_eq!(vec![0xee, 0xee, 1, 0, 0, 0, 8, 0, 0, 0, 0xaa], writer.data);
    let back = read_container(&writer, &schema, 2, 2, Endian::Little).unwrap();
    assert_eq!(value, back);
}

#[test]
fn read_truncated_scalar() {
    let schema = ContainerSchema {
        fields: vec![FieldSchema::Scalar { width: Width::W32 }],
    };
    let stream = Stream { data: vec![1, 2] };
    let err = read_container(&stream, &schema, 0, 0, Endian::Little).unwrap_err();
    assert_eq!(Error::TruncatedData { pos: 0, len: 4 }, err);
}

#[test]
fn read_malformed_offset_out_of_bounds() {
    let schema = ContainerSchema {
        fields: vec![FieldSchema::OffsetField {
            width: Width::W32,
            nullable: false,
            field_align: 1,
            pad_byte: 0,
            payload: PayloadSchema::Bytes { len: 1, align: 1 },
        }],
    };
    let stream = Stream {
        data: vec![0xff, 0, 0, 0],
    };
    let err = read_container(&stream, &schema, 0, 0, Endian::Little).unwrap_err();
    assert_eq!(Error::MalformedOffset { base: 0, raw: 0xff }, err);
}

#[test]
fn read_malformed_offset_misaligned() {
    let schema = ContainerSchema {
        fields: vec![FieldSchema::OffsetField {
            width: Width::W32,
            nullable: false,
            field_align: 8,
            pad_byte: 0,
            payload: PayloadSchema::Bytes { len: 1, align: 1 },
        }],
    };
    // Offset 6 resolves in bounds but is not 8-byte aligned.
    let stream = Stream {
        data: vec![6, 0, 0, 0, 0, 0, 0, 0],
    };
    let err = read_container(&stream, &schema, 0, 0, Endian::Little).unwrap_err();
    assert_eq!(Error::MalformedOffset { base: 0, raw: 6 }, err);
}

#[test]
fn read_shared_offset_disagreeing() {
    let schema = ContainerSchema {
        fields: vec![
            FieldSchema::OffsetField {
                width: Width::W32,
                nullable: true,
                field_align: 1,
                pad_byte: 0,
                payload: PayloadSchema::Bytes { len: 1, align: 1 },
            },
            FieldSchema::SharedOffset {
                width: Width::W32,
                alias: 0,
            },
        ],
    };
    let stream = Stream {
        data: vec![0, 0, 0, 0, 5, 0, 0, 0],
    };
    let err = read_container(&stream, &schema, 0, 0, Endian::Little).unwrap_err();
    assert_eq!(Error::MalformedOffset { base: 0, raw: 5 }, err);
}

#[test]
fn read_unterminated_string() {
    let schema = ContainerSchema {
        fields: vec![FieldSchema::OffsetField {
            width: Width::W32,
            nullable: false,
            field_align: 1,
            pad_byte: 0,
            payload: PayloadSchema::CStr { align: 1 },
        }],
    };
    let stream = Stream {
        data: vec![4, 0, 0, 0, b'a', b'b'],
    };
    let err = read_container(&stream, &schema, 0, 0, Endian::Little).unwrap_err();
    assert_eq!(Error::UnterminatedString { pos: 4 }, err);
}

#[test]
fn write_unencodable_offset() {
    // A one-byte offset cannot encode a target past 255.
    let mut fields = vec![FieldSchema::FixedBytes { len: 300 }];
    fields.push(FieldSchema::OffsetField {
        width: Width::W8,
        nullable: false,
        field_align: 1,
        pad_byte: 0,
        payload: PayloadSchema::Bytes { len: 1, align: 1 },
    });
    let schema = ContainerSchema { fields };
    let value = ContainerValue {
        fields: vec![
            FieldValue::FixedBytes { data: vec![0; 300] },
            FieldValue::OffsetField {
                payload: Some(PayloadValue::Bytes { data: vec![7] }),
            },
        ],
    };
    let mut writer = Stream::new();
    let mut data_ptr: usize = 0;
    let err = write_full(&value, &schema, &mut writer, 0, &mut data_ptr, Endian::Little)
        .unwrap_err();
    assert_eq!(
        Error::UnencodableOffset {
            base: 0,
            target: 301
        },
        err
    );
}

#[test]
fn write_size_overflow() {
    // Aligning the cursor to an enormous alignment overflows the
    // address space.
    let schema = count_offset_schema(usize::MAX, 0);
    let value = count_offset_value(vec![1]);
    let mut writer = Stream::new();
    let mut data_ptr: usize = 0;
    let err = write_full(&value, &schema, &mut writer, 0, &mut data_ptr, Endian::Little)
        .unwrap_err();
    assert_eq!(Error::SizeOverflow, err);
}

#[test]
fn align_pads_with_zeros() {
    let mut stream = Stream {
        data: vec![1, 2, 3],
    };
    align(&mut stream, 8);
    assert_eq!(vec![1, 2, 3, 0, 0, 0, 0, 0], stream.data);
}

#[test]
fn round_up_values() {
    assert_eq!(0, round_up(0, 4));
    assert_eq!(8, round_up(5, 4));
    assert_eq!(8, round_up(8, 4));
    assert_eq!(16, round_up(9, 16));
    assert_eq!(7, round_up(7, 1));
}

#[test]
fn scalar_codec_both_endians() {
    let mut s = Stream::new();
    s.append_scalar(Endian::Little, Width::W32, 0x01020304);
    s.append_scalar(Endian::Big, Width::W32, 0x01020304);
    s.append_scalar(Endian::Little, Width::W16, 0xbeef);
    s.append_scalar(Endian::Big, Width::W64, 0x1122334455667788);
    assert_eq!(
        vec![
            4, 3, 2, 1, 1, 2, 3, 4, 0xef, 0xbe, 0x11, 0x22, 0x33, 0x44, 0x55, 0x66, 0x77, 0x88
        ],
        s.data
    );
    assert_eq!(0x01020304, s.get_scalar(0, Endian::Little, Width::W32));
    assert_eq!(0x01020304, s.get_scalar(4, Endian::Big, Width::W32));
    assert_eq!(0xbeef, s.get_scalar(8, Endian::Little, Width::W16));
    assert_eq!(
        0x1122334455667788,
        s.get_scalar(10, Endian::Big, Width::W64)
    );
}

#[test]
fn pending_records_in_declaration_order() {
    let schema = ContainerSchema {
        fields: vec![
            FieldSchema::Scalar { width: Width::W32 },
            FieldSchema::OffsetField {
                width: Width::W32,
                nullable: false,
                field_align: 2,
                pad_byte: 0,
                payload: PayloadSchema::Bytes { len: 1, align: 4 },
            },
            FieldSchema::CountOffset {
                order: CountOrder::OffsetFirst,
                elem_width: Width::W8,
                field_align: 1,
                pad_byte: 0,
            },
        ],
    };
    let value = ContainerValue {
        fields: vec![
            FieldValue::Scalar { value: 1 },
            FieldValue::OffsetField {
                payload: Some(PayloadValue::Bytes { data: vec![3] }),
            },
            FieldValue::CountOffset { elems: vec![4] },
        ],
    };
    let mut writer = Stream::new();
    let mut data_ptr: usize = 0;
    let pending = write_skeleton(&value, &schema, &mut writer, &mut data_ptr, Endian::Little);
    assert_eq!(2, pending.len());
    assert_eq!(4, pending[0].position);
    assert_eq!(1, pending[0].field_index);
    // Effective alignment: the payload's own 4 wins over the override 2.
    assert_eq!(4, pending[0].field_alignment);
    assert_eq!(8, pending[1].position);
    assert_eq!(2, pending[1].field_index);
}

#[test]
fn wide_and_narrow_offset_widths() {
    // A 64-bit offset cell next to a 16-bit one.
    let schema = ContainerSchema {
        fields: vec![
            FieldSchema::OffsetField {
                width: Width::W64,
                nullable: false,
                field_align: 1,
                pad_byte: 0,
                payload: PayloadSchema::Bytes { len: 1, align: 1 },
            },
            FieldSchema::OffsetField {
                width: Width::W16,
                nullable: false,
                field_align: 1,
                pad_byte: 0,
                payload: PayloadSchema::Bytes { len: 1, align: 1 },
            },
        ],
    };
    let value = ContainerValue {
        fields: vec![
            FieldValue::OffsetField {
                payload: Some(PayloadValue::Bytes { data: vec![0xaa] }),
            },
            FieldValue::OffsetField {
                payload: Some(PayloadValue::Bytes { data: vec![0xbb] }),
            },
        ],
    };
    let mut writer = Stream::new();
    let mut data_ptr: usize = 0;
    write_full(&value, &schema, &mut writer, 0, &mut data_ptr, Endian::Little).unwrap();
    assert_eq!(
        vec![10, 0, 0, 0, 0, 0, 0, 0, 11, 0, 0xaa, 0xbb],
        writer.data
    );
    let back = read_container(&writer, &schema, 0, 0, Endian::Little).unwrap();
    assert_eq!(value, back);
}
