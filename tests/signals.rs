use blf_signals::data_store::Kind;
use blf_signals::dbc::{ByteOrder, Coefficient, ExtendedValueType, Multiplex, SignalDesc, ValueType};
use blf_signals::decode::{decode_signal, Reading};
use blf_signals::signal::{extract_signal_raw, sign_extend};

fn signal(start_bit: u64, bit_count: u64, order: ByteOrder, vt: ValueType, factor: Coefficient, offset: Coefficient) -> SignalDesc {
    SignalDesc {
        name: "sig".to_string(),
        start_bit,
        bit_count,
        byte_order: order,
        value_type: vt,
        extended_value_type: ExtendedValueType::Integer,
        factor,
        offset,
        unit: String::new(),
        multiplex: Multiplex::Plain,
        value_table: None,
    }
}

/// Sets bit `pos` (LSB-first numbering) of `buf` to the given value.
fn put_bit(buf: &mut [u8], pos: usize, bit: u64) {
    if bit != 0 {
        buf[pos / 8] |= 1 << (pos % 8);
    }
}

fn pack(value: u64, start: i64, count: i64, big_endian: bool, len: usize) -> Vec<u8> {
    let mut buf = vec![0u8; len];
    for i in 0..count {
        let pos = if big_endian { start - i } else { start + i };
        put_bit(&mut buf, pos as usize, (value >> i) & 1);
    }
    buf
}

#[test]
fn le_16_bit_unsigned() {
    let data = [0x34, 0x12, 0, 0, 0, 0, 0, 0];
    assert_eq!(extract_signal_raw(&data, 0, 16, false), Some(0x1234));
    let sig = signal(0, 16, ByteOrder::LittleEndian, ValueType::Unsigned, Coefficient::Integer(1), Coefficient::Integer(0));
    assert_eq!(decode_signal(&data, &sig), Some(Reading::UInt(4660)));
}

#[test]
fn be_16_bit_start_7_is_rejected() {
    // A Motorola signal needs `bit_count - 1` bits below its start bit.
    let data = [0x12, 0x34, 0, 0, 0, 0, 0, 0];
    assert_eq!(extract_signal_raw(&data, 7, 16, true), None);
    let sig = signal(7, 16, ByteOrder::BigEndian, ValueType::Unsigned, Coefficient::Integer(1), Coefficient::Integer(0));
    assert_eq!(decode_signal(&data, &sig), None);
}

#[test]
fn be_16_bit_from_bit_15() {
    let data = [0x12, 0x34, 0, 0, 0, 0, 0, 0];
    assert_eq!(extract_signal_raw(&data, 15, 16, true), Some(0x3412u16.reverse_bits() as u64));
}

#[test]
fn be_msb_first_byte() {
    // Bits 7 down to 0 of byte 0, most significant first.
    let data = [0xA5, 0, 0, 0, 0, 0, 0, 0];
    assert_eq!(extract_signal_raw(&data, 7, 8, true), Some(0xA5u8.reverse_bits() as u64));
}

#[test]
fn signed_10_bit_minus_one() {
    let data = [0xff, 0x03, 0, 0, 0, 0, 0, 0];
    assert_eq!(extract_signal_raw(&data, 0, 10, false), Some(0x3ff));
    assert_eq!(sign_extend(0x3ff, 10), -1);
    let sig = signal(0, 10, ByteOrder::LittleEndian, ValueType::Signed, Coefficient::Integer(1), Coefficient::Integer(0));
    assert_eq!(decode_signal(&data, &sig), Some(Reading::Int(-1)));
}

#[test]
fn sign_extension_matches_twos_complement() {
    for w in 1..64u64 {
        for raw in [0u64, 1, (1 << (w - 1)) - 1, 1 << (w - 1), (1 << w) - 1] {
            let expected = if raw >= 1 << (w - 1) { raw as i128 - (1i128 << w) } else { raw as i128 };
            assert_eq!(sign_extend(raw, w) as i128, expected, "w={w} raw={raw}");
        }
    }
    assert_eq!(sign_extend(u64::MAX, 64), -1);
    assert_eq!(sign_extend(0x8000_0000_0000_0000, 64), i64::MIN);
}

#[test]
fn round_trip_little_endian() {
    for (start, count) in [(0i64, 1i64), (3, 5), (0, 16), (5, 12), (1, 63), (0, 64), (13, 40)] {
        let len = ((start + count + 7) / 8) as usize;
        let max = if count == 64 { u64::MAX } else { (1u64 << count) - 1 };
        for value in [0, 1, max / 3, max] {
            let buf = pack(value, start, count, false, len);
            assert_eq!(extract_signal_raw(&buf, start, count, false), Some(value));
        }
    }
}

#[test]
fn round_trip_big_endian() {
    for (start, count) in [(0i64, 1i64), (7, 8), (15, 16), (15, 12), (63, 64), (40, 20)] {
        let len = (start / 8 + 1) as usize;
        let max = if count == 64 { u64::MAX } else { (1u64 << count) - 1 };
        for value in [0, 1, max / 5, max] {
            let buf = pack(value, start, count, true, len);
            assert_eq!(extract_signal_raw(&buf, start, count, true), Some(value));
        }
    }
}

#[test]
fn extraction_rejects_bad_layouts() {
    let data = [0xffu8; 8];
    assert_eq!(extract_signal_raw(&data, 0, 0, false), None);
    assert_eq!(extract_signal_raw(&data, 0, 65, false), None);
    assert_eq!(extract_signal_raw(&data, 64, 1, false), None);
    assert_eq!(extract_signal_raw(&data, 64, 1, true), None);
    assert_eq!(extract_signal_raw(&data, 3, 8, true), None);
    assert_eq!(extract_signal_raw(&[], 0, 1, false), None);
}

#[test]
fn little_endian_bits_past_the_data_read_zero() {
    let data = [0xff, 0xff];
    assert_eq!(extract_signal_raw(&data, 8, 16, false), Some(0xff));
}

#[test]
fn fractional_factor_gives_float() {
    let data = [10, 0, 0, 0, 0, 0, 0, 0];
    let sig = signal(0, 8, ByteOrder::LittleEndian, ValueType::Unsigned, Coefficient::Real(0.5f64.to_bits()), Coefficient::Integer(0));
    let reading = decode_signal(&data, &sig).unwrap();
    assert_eq!(reading, Reading::Scaled { raw: 10, factor: Coefficient::Real(0.5f64.to_bits()), offset: Coefficient::Integer(0) });
    assert_eq!(reading.kind(), Kind::F64);
    let integral = signal(0, 8, ByteOrder::LittleEndian, ValueType::Unsigned, Coefficient::Integer(2), Coefficient::Integer(0));
    assert_eq!(decode_signal(&data, &integral).unwrap().kind(), Kind::U64);
}

#[test]
fn integer_scaling() {
    let data = [10, 0, 0, 0, 0, 0, 0, 0];
    let sig = signal(0, 8, ByteOrder::LittleEndian, ValueType::Unsigned, Coefficient::Integer(3), Coefficient::Integer(7));
    assert_eq!(decode_signal(&data, &sig), Some(Reading::UInt(37)));
    let sig = signal(0, 8, ByteOrder::LittleEndian, ValueType::Signed, Coefficient::Integer(-2), Coefficient::Integer(5));
    assert_eq!(decode_signal(&data, &sig), Some(Reading::Int(-15)));
}

#[test]
fn negative_offset_on_unsigned_promotes_to_signed() {
    let data = [10, 0, 0, 0, 0, 0, 0, 0];
    let sig = signal(0, 8, ByteOrder::LittleEndian, ValueType::Unsigned, Coefficient::Integer(1), Coefficient::Integer(-40));
    assert_eq!(decode_signal(&data, &sig), Some(Reading::Int(-30)));
}

#[test]
fn integer_scaling_wraps() {
    let data = [0xff; 8];
    let sig = signal(0, 64, ByteOrder::LittleEndian, ValueType::Unsigned, Coefficient::Integer(2), Coefficient::Integer(1));
    assert_eq!(decode_signal(&data, &sig), Some(Reading::UInt(u64::MAX)));
}

#[test]
fn float_encoded_signals_are_not_decoded() {
    let data = [0u8; 8];
    let mut sig = signal(0, 32, ByteOrder::LittleEndian, ValueType::Unsigned, Coefficient::Integer(1), Coefficient::Integer(0));
    sig.extended_value_type = ExtendedValueType::Float32;
    assert_eq!(decode_signal(&data, &sig), None);
}
