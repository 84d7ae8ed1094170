//! Decoding of one signal from frame data into a typed reading.

use vstd::prelude::*;
use vstd::arithmetic::power2::pow2;
use crate::data_store::Kind;
use crate::dbc::{ByteOrder, Coefficient, ExtendedValueType, SignalDesc, ValueType};
use crate::signal::{extract_signal_raw, extract_spec, sign_extend, twos_complement};

verus! {

/// The value of one signal in one frame.
#[derive(Debug, Clone, Copy, PartialEq, Eq, Structural)]
pub enum Reading {
    /// Stored as a signed integer.
    Int(i64),
    /// Stored as an unsigned integer.
    UInt(u64),
    /// Stored as a float: `raw * factor + offset`, evaluated in binary64.
    Scaled { raw: i128, factor: Coefficient, offset: Coefficient },
}

/// Kind of the series that a reading belongs to.
pub open spec fn reading_kind(r: Reading) -> Kind {
    match r {
        Reading::Int(_) => Kind::I64,
        Reading::UInt(_) => Kind::U64,
        Reading::Scaled { .. } => Kind::F64,
    }
}

impl Reading {
    /// Kind of the series that the reading belongs to: a scaled reading is
    /// stored as a binary64 number.
    pub fn kind(&self) -> (r: Kind)
        ensures
            r == reading_kind(*self),
    {
        match self {
            Reading::Int(_) => Kind::I64,
            Reading::UInt(_) => Kind::U64,
            Reading::Scaled { .. } => Kind::F64,
        }
    }
}

/// Raw bits of signal `sig` in `data`, if they can be read.
pub open spec fn signal_raw(data: Seq<u8>, sig: SignalDesc) -> Option<u64> {
    if sig.start_bit > i64::MAX {
        None
    } else {
        extract_spec(data, sig.start_bit as int, sig.bit_count as int, sig.byte_order == ByteOrder::BigEndian)
    }
}

/// A signal is stored as a float when a scaling coefficient is not integral.
pub open spec fn stored_as_float(sig: SignalDesc) -> bool {
    sig.factor is Real || sig.offset is Real
}

/// Value of signal `sig` in the frame data `data`. Signals with a float
/// encoding of their raw bits are not decoded. Signed raw values are read in
/// two's complement. With integral coefficients, the physical value
/// `factor * raw + offset` is computed in 64-bit wrapping arithmetic: unsigned
/// when the signal and both coefficients are non-negative, signed otherwise.
pub open spec fn reading_of(data: Seq<u8>, sig: SignalDesc) -> Option<Reading> {
    if sig.extended_value_type != ExtendedValueType::Integer {
        None
    } else {
        match signal_raw(data, sig) {
            None => None,
            Some(raw) => {
                let signed = sig.value_type == ValueType::Signed;
                let v: int = if signed {
                    twos_complement(raw as int % pow2(sig.bit_count as nat) as int, sig.bit_count as nat)
                } else {
                    raw as int
                };
                if stored_as_float(sig) {
                    Some(Reading::Scaled { raw: v as i128, factor: sig.factor, offset: sig.offset })
                } else {
                    let f = sig.factor->Integer_0 as int;
                    let o = sig.offset->Integer_0 as int;
                    if !signed && f >= 0 && o >= 0 {
                        Some(Reading::UInt((f * v + o) as u64))
                    } else {
                        Some(Reading::Int((f * v + o) as i64))
                    }
                }
            },
        }
    }
}

fn scale_signed(f: i64, v: i64, o: i64) -> (r: i64)
    ensures
        r == (f * v + o) as i64,
{
    assert(-0x4000_0000_0000_0000_0000_0000_0000_0000 <= f as int * v as int <= 0x4000_0000_0000_0000_0000_0000_0000_0000) by (nonlinear_arith)
        requires
            -0x8000_0000_0000_0000 <= f <= 0x7fff_ffff_ffff_ffff,
            -0x8000_0000_0000_0000 <= v <= 0x7fff_ffff_ffff_ffff;
    #[verifier::truncate] ((f as i128 * v as i128 + o as i128) as i64)
}

fn scale_unsigned(f: i64, v: u64, o: i64) -> (r: u64)
    requires
        f >= 0,
        o >= 0,
    ensures
        r == (f * v + o) as u64,
{
    assert(f as int * v as int <= 0x8000_0000_0000_0000_0000_0000_0000_0000) by (nonlinear_arith)
        requires
            0 <= f <= 0x7fff_ffff_ffff_ffff,
            0 <= v <= 0xffff_ffff_ffff_ffff;
    #[verifier::truncate] ((f as u128 * v as u128 + o as u128) as u64)
}

fn scale_mixed(f: i64, v: u64, o: i64) -> (r: i64)
    ensures
        r == (f * v + o) as i64,
{
    assert(-0x8000_0000_0000_0000_0000_0000_0000_0000 < f as int * v as int <= 0x7fff_ffff_ffff_ffff_0000_0000_0000_0000) by (nonlinear_arith)
        requires
            -0x8000_0000_0000_0000 <= f <= 0x7fff_ffff_ffff_ffff,
            0 <= v <= 0xffff_ffff_ffff_ffff;
    assert(f as int * v as int >= -0x8000_0000_0000_0000 * 0xffff_ffff_ffff_ffff) by (nonlinear_arith)
        requires
            -0x8000_0000_0000_0000 <= f <= 0x7fff_ffff_ffff_ffff,
            0 <= v <= 0xffff_ffff_ffff_ffff;
    #[verifier::truncate] ((f as i128 * v as i128 + o as i128) as i64)
}

/// Decodes signal `sig` from the frame data `data`.
pub fn decode_signal(data: &[u8], sig: &SignalDesc) -> (r: Option<Reading>)
    ensures
        r == reading_of(data@, *sig),
{
    if sig.extended_value_type != ExtendedValueType::Integer {
        return None;
    }
    if sig.start_bit > 0x7fff_ffff_ffff_ffff || sig.bit_count > 64 {
        return None;
    }
    let raw = match extract_signal_raw(
        data,
        sig.start_bit as i64,
        sig.bit_count as i64,
        sig.byte_order == ByteOrder::BigEndian,
    ) {
        Some(v) => v,
        None => {
            return None;
        },
    };
    let signed = sig.value_type == ValueType::Signed;
    let float = match (sig.factor, sig.offset) {
        (Coefficient::Integer(_), Coefficient::Integer(_)) => false,
        _ => true,
    };
    if signed {
        let v = sign_extend(raw, sig.bit_count);
        if float {
            Some(Reading::Scaled { raw: v as i128, factor: sig.factor, offset: sig.offset })
        } else {
            match (sig.factor, sig.offset) {
                (Coefficient::Integer(f), Coefficient::Integer(o)) => Some(Reading::Int(scale_signed(f, v, o))),
                _ => None,
            }
        }
    } else {
        if float {
            Some(Reading::Scaled { raw: raw as i128, factor: sig.factor, offset: sig.offset })
        } else {
            match (sig.factor, sig.offset) {
                (Coefficient::Integer(f), Coefficient::Integer(o)) => {
                    if f >= 0 && o >= 0 {
                        Some(Reading::UInt(scale_unsigned(f, raw, o)))
                    } else {
                        Some(Reading::Int(scale_mixed(f, raw, o)))
                    }
                },
                _ => None,
            }
        }
    }
}

} // verus!
