//! The values the oracle stores and the settings of a registered key.

use core::cmp::Ordering;
use vstd::prelude::*;
use vstd::std_specs::cmp::PartialOrdSpecImpl;

verus! {

/// How the values recorded under a key are reduced to one.
#[derive(Clone, Copy, Debug, PartialEq, Eq, PartialOrd, Ord, Structural)]
pub enum Operations {
    Average,
    Sum,
}

/// The representation a value has.
#[derive(Clone, Copy, Debug, PartialEq, Eq, PartialOrd, Ord, Structural)]
pub enum NumberType {
    U128,
    FixedU128,
}

/// An unsigned decimal number with eighteen fractional digits.
///
/// `inner` is the number multiplied by `10^18`, so `1.5` is held as
/// `1_500_000_000_000_000_000`.
#[derive(Clone, Copy, Debug, PartialEq, Eq, PartialOrd, Ord, Structural)]
pub struct Fixed {
    pub inner: u128,
}

/// The scale of [`Fixed`]: `10^18`.
pub const FIXED_DIV: u128 = 1_000_000_000_000_000_000u128;

impl Fixed {
    pub fn from_inner(inner: u128) -> (r: Self)
        ensures
            r.inner == inner,
    {
        Fixed { inner }
    }

    pub fn into_inner(self) -> (r: u128)
        ensures
            r == self.inner,
    {
        self.inner
    }
}

/// A value as submitters send it and as the oracle publishes it.
///
/// Values are ordered by their representation first, an integer before a
/// decimal number, and within one representation by their number.
#[derive(Clone, Copy, Debug, PartialEq, Eq, Ord, Structural)]
pub enum PrimitiveOracleType {
    /// An unsigned integer.
    U128(u128),
    /// An unsigned decimal number.
    FixedU128(Fixed),
}

impl PrimitiveOracleType {
    /// The representation of this value.
    pub open spec fn kind(self) -> NumberType {
        match self {
            PrimitiveOracleType::U128(_) => NumberType::U128,
            PrimitiveOracleType::FixedU128(_) => NumberType::FixedU128,
        }
    }

    /// The number this value carries: the integer itself, or the decimal
    /// number multiplied by `10^18`.
    pub open spec fn raw(self) -> u128 {
        match self {
            PrimitiveOracleType::U128(n) => n,
            PrimitiveOracleType::FixedU128(f) => f.inner,
        }
    }

    /// The value of representation `kind` that carries `raw`.
    pub open spec fn of(kind: NumberType, raw: u128) -> Self {
        match kind {
            NumberType::U128 => PrimitiveOracleType::U128(raw),
            NumberType::FixedU128 => PrimitiveOracleType::FixedU128(Fixed { inner: raw }),
        }
    }

    pub fn number_type(&self) -> (r: NumberType)
        ensures
            r == self.kind(),
    {
        match self {
            PrimitiveOracleType::U128(_) => NumberType::U128,
            PrimitiveOracleType::FixedU128(_) => NumberType::FixedU128,
        }
    }

    /// Builds the value of representation `kind` that carries `raw`.
    pub fn from_raw(kind: NumberType, raw: u128) -> (r: Self)
        ensures
            r == Self::of(kind, raw),
            r.kind() == kind,
            r.raw() == raw,
    {
        match kind {
            NumberType::U128 => PrimitiveOracleType::U128(raw),
            NumberType::FixedU128 => PrimitiveOracleType::FixedU128(Fixed { inner: raw }),
        }
    }

    /// The number this value carries, whatever its representation.
    pub fn into_raw(self) -> (r: u128)
        ensures
            r == self.raw(),
    {
        match self {
            PrimitiveOracleType::U128(n) => n,
            PrimitiveOracleType::FixedU128(f) => f.inner,
        }
    }

    /// Zero in the representation `kind`.
    pub fn zero(kind: NumberType) -> (r: Self)
        ensures
            r == Self::of(kind, 0),
    {
        Self::from_raw(kind, 0)
    }
}

/// How the number `a` stands to the number `b`.
pub open spec fn number_order(a: u128, b: u128) -> Ordering {
    if a < b {
        Ordering::Less
    } else if a == b {
        Ordering::Equal
    } else {
        Ordering::Greater
    }
}

fn order_numbers(a: u128, b: u128) -> (r: Ordering)
    ensures
        r == number_order(a, b),
{
    if a < b {
        Ordering::Less
    } else if a == b {
        Ordering::Equal
    } else {
        Ordering::Greater
    }
}

impl PartialOrd for PrimitiveOracleType {
    fn partial_cmp(&self, other: &Self) -> (r: Option<Ordering>) {
        match (self, other) {
            (PrimitiveOracleType::U128(a), PrimitiveOracleType::U128(b)) => Some(
                order_numbers(*a, *b),
            ),
            (PrimitiveOracleType::U128(_), PrimitiveOracleType::FixedU128(_)) => Some(
                Ordering::Less,
            ),
            (PrimitiveOracleType::FixedU128(_), PrimitiveOracleType::U128(_)) => Some(
                Ordering::Greater,
            ),
            (PrimitiveOracleType::FixedU128(a), PrimitiveOracleType::FixedU128(b)) => Some(
                order_numbers(a.inner, b.inner),
            ),
        }
    }
}

impl PartialOrdSpecImpl for PrimitiveOracleType {
    open spec fn obeys_partial_cmp_spec() -> bool {
        true
    }

    open spec fn partial_cmp_spec(&self, other: &Self) -> Option<Ordering> {
        if self.kind() == other.kind() {
            Some(number_order(self.raw(), other.raw()))
        } else if self.kind() == NumberType::U128 {
            Some(Ordering::Less)
        } else {
            Some(Ordering::Greater)
        }
    }
}

impl Default for PrimitiveOracleType {
    fn default() -> (r: Self)
        ensures
            r == PrimitiveOracleType::U128(0),
    {
        PrimitiveOracleType::U128(0)
    }
}

/// The settings of a registered key.
#[derive(Clone, Debug, PartialEq, Eq, PartialOrd, Ord)]
pub struct Info {
    /// The name of the member to read from a response.
    pub key_str: Vec<u8>,
    /// The representation every value under the key must have.
    pub number_type: NumberType,
    /// How the recorded values are reduced.
    pub operation: Operations,
    /// The key is settled at every tick that is a multiple of this.
    pub schedule: u64,
}

impl Info {
    pub fn new(key_str: Vec<u8>, number_type: NumberType, operation: Operations, schedule: u64) -> (r:
        Self)
        ensures
            r.key_str == key_str,
            r.number_type == number_type,
            r.operation == operation,
            r.schedule == schedule,
    {
        Info { key_str, number_type, operation, schedule }
    }

    pub fn key_str(&self) -> (r: &[u8])
        ensures
            r@ == self.key_str@,
    {
        self.key_str.as_slice()
    }

    pub fn number_type(&self) -> (r: NumberType)
        ensures
            r == self.number_type,
    {
        self.number_type
    }

    pub fn operation(&self) -> (r: Operations)
        ensures
            r == self.operation,
    {
        self.operation
    }

    pub fn schedule(&self) -> (r: u64)
        ensures
            r == self.schedule,
    {
        self.schedule
    }
}

} // verus!
