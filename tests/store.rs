use blf_signals::data_store::{DataPoint, DataStore, Kind, StreamError, Value};
use blf_signals::dbc::{ByteOrder, Coefficient, Dbc, DbcMessage, ExtendedValueType, Multiplex, MuxSwitch, SignalDesc, ValueType};

#[derive(Debug, PartialEq)]
enum Parsed {
    I64(i64),
    U64(u64),
    F64(u64),
    Str(String),
}

fn take<'a>(b: &mut &'a [u8], n: usize) -> &'a [u8] {
    let (head, rest) = b.split_at(n);
    *b = rest;
    head
}

fn le(bytes: &[u8]) -> u64 {
    bytes.iter().rev().fold(0u64, |acc, &x| (acc << 8) | x as u64)
}

/// Reads a stream back into (name, kind tag, points).
fn parse(stream: &[u8]) -> Vec<(String, u8, Vec<(u64, Parsed)>)> {
    let mut b = stream;
    assert_eq!(take(&mut b, 8), b"BLF2MDF\x01");
    let count = le(take(&mut b, 4));
    let mut out = Vec::new();
    for _ in 0..count {
        let n = le(take(&mut b, 2)) as usize;
        let name = String::from_utf8(take(&mut b, n).to_vec()).unwrap();
        let kind = take(&mut b, 1)[0];
        let points = le(take(&mut b, 4));
        let mut ps = Vec::new();
        for _ in 0..points {
            let t = le(take(&mut b, 8));
            let v = match kind {
                1 => Parsed::I64(le(take(&mut b, 8)) as i64),
                2 => Parsed::U64(le(take(&mut b, 8))),
                3 => Parsed::F64(le(take(&mut b, 8))),
                _ => {
                    let l = le(take(&mut b, 2)) as usize;
                    Parsed::Str(String::from_utf8(take(&mut b, l).to_vec()).unwrap())
                }
            };
            ps.push((t, v));
        }
        out.push((name, kind, ps));
    }
    assert!(b.is_empty());
    out
}

fn secs(x: f64) -> u64 {
    x.to_bits()
}

#[test]
fn counts_distinct_series() {
    let mut store = DataStore::new();
    assert_eq!(store.signal_count(), 0);
    store.push_int("a", secs(1.0), 1);
    store.push_int("a", secs(2.0), 2);
    store.push_uint("b", secs(1.0), 3);
    assert_eq!(store.signal_count(), 2);
    assert_eq!(store.kind_of("a"), Some(Kind::I64));
    assert_eq!(store.kind_of("b"), Some(Kind::U64));
    assert_eq!(store.kind_of("c"), None);
}

#[test]
fn stream_layout() {
    let mut store = DataStore::new();
    store.push_int("a", secs(0.5), -2);
    let bytes = store.write_to_stream().unwrap();
    let mut expected = b"BLF2MDF\x01".to_vec();
    expected.extend(1u32.to_le_bytes());
    expected.extend(1u16.to_le_bytes());
    expected.extend(b"a");
    expected.push(1);
    expected.extend(1u32.to_le_bytes());
    expected.extend(0.5f64.to_le_bytes());
    expected.extend((-2i64).to_le_bytes());
    assert_eq!(bytes, expected);
}

#[test]
fn string_values_in_stream() {
    let mut store = DataStore::new();
    store.push_string("s", secs(1.0), "héllo".to_string());
    let parsed = parse(&store.write_to_stream().unwrap());
    assert_eq!(parsed, vec![("s".to_string(), 4, vec![(secs(1.0), Parsed::Str("héllo".to_string()))])]);
}

#[test]
fn sort_is_by_time_and_stable() {
    let mut store = DataStore::new();
    store.push_uint("x", secs(3.0), 1);
    store.push_uint("x", secs(1.0), 2);
    store.push_uint("x", secs(-2.0), 3);
    store.push_uint("x", secs(1.0), 4);
    store.push_uint("x", secs(0.0), 5);
    let parsed = parse(&store.write_to_stream().unwrap());
    let points = &parsed[0].2;
    let times: Vec<f64> = points.iter().map(|p| f64::from_bits(p.0)).collect();
    assert_eq!(times, vec![-2.0, 0.0, 1.0, 1.0, 3.0]);
    for w in times.windows(2) {
        assert!(w[0] <= w[1]);
    }
    let values: Vec<&Parsed> = points.iter().map(|p| &p.1).collect();
    assert_eq!(values, vec![&Parsed::U64(3), &Parsed::U64(5), &Parsed::U64(2), &Parsed::U64(4), &Parsed::U64(1)]);
}

#[test]
fn signed_zeros_are_equal_times() {
    let mut store = DataStore::new();
    store.push_uint("z", secs(0.0), 1);
    store.push_uint("z", secs(-0.0), 2);
    store.push_uint("z", secs(-1.0), 3);
    store.push_uint("z", secs(0.0), 4);
    let parsed = parse(&store.write_to_stream().unwrap());
    let order: Vec<(u64, &Parsed)> = parsed[0].2.iter().map(|p| (p.0, &p.1)).collect();
    assert_eq!(
        order,
        vec![
            (secs(-1.0), &Parsed::U64(3)),
            (secs(0.0), &Parsed::U64(1)),
            (secs(-0.0), &Parsed::U64(2)),
            (secs(0.0), &Parsed::U64(4)),
        ]
    );
}

#[test]
fn stream_round_trip() {
    let mut store = DataStore::new();
    store.push_int("i", secs(2.0), i64::MIN);
    store.push_int("i", secs(1.0), 7);
    store.push_uint("u", secs(0.25), u64::MAX);
    store.push_float("f", secs(0.125), 1.5f64.to_bits());
    store.push_string("s", secs(4.0), String::new());
    store.push(
        "s",
        secs(5.0),
        Value::Str("x".to_string()),
    );
    let parsed = parse(&store.write_to_stream().unwrap());
    assert_eq!(
        parsed,
        vec![
            ("i".to_string(), 1, vec![(secs(1.0), Parsed::I64(7)), (secs(2.0), Parsed::I64(i64::MIN))]),
            ("u".to_string(), 2, vec![(secs(0.25), Parsed::U64(u64::MAX))]),
            ("f".to_string(), 3, vec![(secs(0.125), Parsed::F64(1.5f64.to_bits()))]),
            (
                "s".to_string(),
                4,
                vec![(secs(4.0), Parsed::Str(String::new())), (secs(5.0), Parsed::Str("x".to_string()))]
            ),
        ]
    );
}

#[test]
fn over_long_text_is_refused() {
    let mut store = DataStore::new();
    store.push_string("s", secs(1.0), "y".repeat(70_000));
    assert_eq!(store.write_to_stream(), Err(StreamError::TooLong));
}

#[test]
fn default_store_is_empty() {
    let store = DataStore::default();
    assert_eq!(store.signal_count(), 0);
    assert_eq!(store.unit("x"), None);
}

#[test]
fn data_point_new() {
    let p = DataPoint::new(7, 9u8);
    assert_eq!(p.timestamp, 7);
    assert_eq!(p.value, 9);
}

fn described(name: &str, unit: &str, table: Option<Vec<(i64, String)>>) -> SignalDesc {
    SignalDesc {
        name: name.to_string(),
        start_bit: 0,
        bit_count: 8,
        byte_order: ByteOrder::LittleEndian,
        value_type: ValueType::Unsigned,
        extended_value_type: ExtendedValueType::Integer,
        factor: Coefficient::Integer(1),
        offset: Coefficient::Integer(0),
        unit: unit.to_string(),
        multiplex: Multiplex::Plain,
        value_table: table,
    }
}

#[test]
fn metadata_units_and_tables() {
    let bus_a = Dbc {
        messages: vec![DbcMessage {
            id: 1,
            signals: vec![
                described("Gear", "", Some(vec![(0, "P".to_string()), (1, "D".to_string())])),
                described("Speed", "km/h", None),
            ],
            switch: MuxSwitch::NoSwitch,
        }],
    };
    let bus_b = Dbc {
        messages: vec![DbcMessage {
            id: 2,
            signals: vec![described("Gear", "-", Some(vec![(5, "R".to_string())]))],
            switch: MuxSwitch::NoSwitch,
        }],
    };
    let mut store = DataStore::new();
    store.register_signals(&vec![vec![bus_a], vec![bus_b]]);
    assert_eq!(store.unit("Gear"), Some("-".to_string()));
    assert_eq!(store.unit("Speed"), Some("km/h".to_string()));
    assert_eq!(store.value_table("Gear"), Some(vec![(0, "P".to_string()), (1, "D".to_string())]));
    assert_eq!(store.value_table("Speed"), None);
    assert_eq!(store.signal_count(), 0);
    store.set_unit("Speed", "m/s");
    assert_eq!(store.unit("Speed"), Some("m/s".to_string()));
}
