//! Signal and message descriptions taken from DBC databases.

use vstd::prelude::*;

verus! {

/// Bit numbering of a signal: Intel (little-endian) or Motorola (big-endian).
#[derive(Debug, Clone, Copy, PartialEq, Eq, Structural)]
pub enum ByteOrder {
    LittleEndian,
    BigEndian,
}

#[derive(Debug, Clone, Copy, PartialEq, Eq, Structural)]
pub enum ValueType {
    Signed,
    Unsigned,
}

/// How the raw bits of a signal are to be read.
#[derive(Debug, Clone, Copy, PartialEq, Eq, Structural)]
pub enum ExtendedValueType {
    Integer,
    Float32,
    Float64,
}

/// Role of a signal in multiplexing.
#[derive(Debug, Clone, Copy, PartialEq, Eq, Structural)]
pub enum Multiplex {
    /// Always present.
    Plain,
    /// The switch that selects which multiplexed signals a frame carries.
    Multiplexor,
    /// Present only when the switch holds the given value.
    MultiplexedSignal(u64),
    /// Any other arrangement, such as extended multiplexing; not decoded.
    Other,
}

/// A scaling coefficient of a signal: an integral value, or any other real
/// number, kept as its IEEE-754 binary64 encoding.
#[derive(Debug, Clone, Copy, PartialEq, Eq, Structural)]
pub enum Coefficient {
    Integer(i64),
    Real(u64),
}

/// Description of one signal of a message.
#[derive(Debug, Clone)]
pub struct SignalDesc {
    pub name: String,
    pub start_bit: u64,
    pub bit_count: u64,
    pub byte_order: ByteOrder,
    pub value_type: ValueType,
    pub extended_value_type: ExtendedValueType,
    pub factor: Coefficient,
    pub offset: Coefficient,
    pub unit: String,
    pub multiplex: Multiplex,
    /// Labels of raw values, if the database gives any.
    pub value_table: Option<Vec<(i64, String)>>,
}

/// Where the multiplexor switch of a message lies.
#[derive(Debug, Clone, Copy, PartialEq, Eq, Structural)]
pub enum MuxSwitch {
    /// The message is not multiplexed.
    NoSwitch,
    Switch { start_bit: u64, bit_count: u64, byte_order: ByteOrder },
    /// The message uses a form of multiplexing that cannot be decoded.
    Unsupported,
}

/// Description of one message (frame layout).
#[derive(Debug, Clone)]
pub struct DbcMessage {
    pub id: u32,
    pub signals: Vec<SignalDesc>,
    pub switch: MuxSwitch,
}

/// The messages of one database.
#[derive(Debug, Clone)]
pub struct Dbc {
    pub messages: Vec<DbcMessage>,
}

} // verus!
