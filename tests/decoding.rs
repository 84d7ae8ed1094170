use blf_signals::blf_reader::CanMessage;
use blf_signals::dbc::{ByteOrder, Coefficient, Dbc, DbcMessage, ExtendedValueType, Multiplex, MuxSwitch, SignalDesc, ValueType};
use blf_signals::decode::Reading;
use blf_signals::decoder::Decoder;

fn sig(name: &str, start_bit: u64, bit_count: u64, multiplex: Multiplex) -> SignalDesc {
    SignalDesc {
        name: name.to_string(),
        start_bit,
        bit_count,
        byte_order: ByteOrder::LittleEndian,
        value_type: ValueType::Unsigned,
        extended_value_type: ExtendedValueType::Integer,
        factor: Coefficient::Integer(1),
        offset: Coefficient::Integer(0),
        unit: "u".to_string(),
        multiplex,
        value_table: None,
    }
}

fn frame(channel: u8, id: u32, ts: i128, data: &[u8]) -> CanMessage {
    CanMessage {
        timestamp_ns: ts,
        arbitration_id: id,
        is_extended_id: false,
        is_remote_frame: false,
        is_rx: true,
        is_fd: false,
        is_error_frame: false,
        dlc: data.len() as u8,
        data: data.to_vec(),
        channel,
        bitrate_switch: false,
        error_state_indicator: false,
    }
}

fn muxed_message() -> DbcMessage {
    DbcMessage {
        id: 0x200,
        signals: vec![
            sig("Switch", 0, 4, Multiplex::Multiplexor),
            sig("A", 8, 8, Multiplex::MultiplexedSignal(1)),
            sig("B", 8, 8, Multiplex::MultiplexedSignal(2)),
            sig("Always", 16, 8, Multiplex::Plain),
        ],
        switch: MuxSwitch::Switch { start_bit: 0, bit_count: 4, byte_order: ByteOrder::LittleEndian },
    }
}

#[test]
fn multiplex_gating() {
    let mut decoder = Decoder::new(vec![vec![Dbc { messages: vec![muxed_message()] }]]);
    let mut a = Vec::new();
    let mut b = Vec::new();
    for k in 0..10u8 {
        let switch = if k % 2 == 0 { 1 } else { 2 };
        let samples = decoder.decode_frame(&frame(0, 0x200, k as i128 * 1000, &[switch, 100 + k, 7]));
        let names: Vec<&str> = samples.iter().map(|s| s.name.as_str()).collect();
        if switch == 1 {
            assert_eq!(names, vec!["Switch", "A", "Always"]);
        } else {
            assert_eq!(names, vec!["Switch", "B", "Always"]);
        }
        for s in samples {
            if s.name == "A" {
                a.push(s.value);
            } else if s.name == "B" {
                b.push(s.value);
            }
        }
    }
    assert_eq!(a.len(), b.len());
    assert_eq!(a, vec![Reading::UInt(100), Reading::UInt(102), Reading::UInt(104), Reading::UInt(106), Reading::UInt(108)]);
    assert_eq!(b, vec![Reading::UInt(101), Reading::UInt(103), Reading::UInt(105), Reading::UInt(107), Reading::UInt(109)]);
}

#[test]
fn unsupported_multiplexing_skips_message() {
    let mut msg = muxed_message();
    msg.switch = MuxSwitch::Unsupported;
    let mut decoder = Decoder::new(vec![vec![Dbc { messages: vec![msg] }]]);
    assert!(decoder.decode_frame(&frame(0, 0x200, 0, &[1, 2, 3])).is_empty());
}

#[test]
fn first_bus_claims_shared_names() {
    let bus_a = Dbc { messages: vec![DbcMessage { id: 0x10, signals: vec![sig("Speed", 0, 8, Multiplex::Plain)], switch: MuxSwitch::NoSwitch }] };
    let bus_b = Dbc {
        messages: vec![DbcMessage {
            id: 0x20,
            signals: vec![sig("Speed", 0, 8, Multiplex::Plain), sig("Other", 8, 8, Multiplex::Plain)],
            switch: MuxSwitch::NoSwitch,
        }],
    };
    let mut decoder = Decoder::new(vec![vec![bus_a], vec![bus_b]]);
    let from_a = decoder.decode_frame(&frame(0, 0x10, 0, &[5, 6]));
    let from_b = decoder.decode_frame(&frame(1, 0x20, 10, &[9, 8]));
    assert_eq!(from_a.len(), 1);
    assert_eq!(from_a[0].name, "Speed");
    assert_eq!(from_a[0].value, Reading::UInt(5));
    assert_eq!(from_b.len(), 1);
    assert_eq!(from_b[0].name, "Other");
    assert_eq!(from_b[0].value, Reading::UInt(8));
}

#[test]
fn frames_off_the_buses_or_unknown_are_skipped() {
    let bus = Dbc { messages: vec![DbcMessage { id: 0x10, signals: vec![sig("S", 0, 8, Multiplex::Plain)], switch: MuxSwitch::NoSwitch }] };
    let mut decoder = Decoder::new(vec![vec![bus]]);
    assert_eq!(decoder.bus_count(), 1);
    assert!(decoder.decode_frame(&frame(1, 0x10, 5, &[1])).is_empty());
    assert!(decoder.decode_frame(&frame(0, 0x11, 1_000, &[1])).is_empty());
    let s = decoder.decode_frame(&frame(0, 0x10, 3_500, &[1]));
    assert_eq!(s.len(), 1);
    // Skipped frames do not set the time origin: the first accepted frame does.
    assert_eq!(s[0].time_ns, 0);
    let s = decoder.decode_frame(&frame(0, 0x10, 4_000, &[2]));
    assert_eq!(s[0].time_ns, 500);
}

#[test]
fn later_database_overrides_message() {
    let first = Dbc { messages: vec![DbcMessage { id: 0x10, signals: vec![sig("Old", 0, 8, Multiplex::Plain)], switch: MuxSwitch::NoSwitch }] };
    let second = Dbc { messages: vec![DbcMessage { id: 0x10, signals: vec![sig("New", 0, 8, Multiplex::Plain)], switch: MuxSwitch::NoSwitch }] };
    let mut decoder = Decoder::new(vec![vec![first, second]]);
    let s = decoder.decode_frame(&frame(0, 0x10, 0, &[4]));
    assert_eq!(s.len(), 1);
    assert_eq!(s[0].name, "New");
}
