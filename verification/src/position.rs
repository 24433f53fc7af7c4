//! The data model: trade sides, lifecycle status, the position record and the
//! error taxonomy shared by every operation of the engine.

use vstd::prelude::*;

verus! {

/// Direction of a trade: a long profits when the price rises, a short when it
/// falls.
#[derive(Clone, Copy, PartialEq, Eq, Structural, Debug)]
pub enum Side {
    Long,
    Short,
}

impl Side {
    /// The other direction.
    pub open spec fn spec_opposite(self) -> Side {
        match self {
            Side::Long => Side::Short,
            Side::Short => Side::Long,
        }
    }

    pub fn opposite(self) -> (r: Side)
        ensures
            r == self.spec_opposite(),
    {
        match self {
            Side::Long => Side::Short,
            Side::Short => Side::Long,
        }
    }
}

/// Lifecycle state of a position. The transition is one-way: open to closed.
#[derive(Clone, Copy, PartialEq, Eq, Structural, Debug)]
pub enum Status {
    Open,
    Closed,
}

/// Why an operation failed. Client-caused and system-caused failures are
/// distinct variants so callers can decide whether to retry.
#[derive(Clone, Copy, PartialEq, Eq, Structural, Debug)]
pub enum TradeError {
    /// An identifier or filter matched no record.
    NotFound,
    /// A textual identifier is malformed.
    InvalidIdentifier,
    /// A position with the same coin and side is already open.
    Conflict,
    /// The live price or candle series handed in was absent or unusable.
    PriceUnavailable,
    /// Profit arithmetic was attempted with an entry price of zero.
    DivideByZero,
    /// The underlying store cannot take another record.
    StoreFailure,
    /// A required argument is missing or out of range.
    InvalidArgument,
}

/// One directional trade record. `coin` is an upper-case ASCII symbol;
/// prices and the size are plain units; profit figures are in `SCALE`-ths
/// of a unit. `exit_time == 0` means the close time was never recorded.
pub struct Position {
    pub id: u128,
    pub coin: Vec<u8>,
    pub side: Side,
    pub size: u64,
    pub entry_price: u64,
    pub entry_time: u64,
    pub exit_price: Option<u64>,
    pub exit_time: u64,
    pub status: Status,
    pub gross_pnl: Option<i128>,
    pub fee: Option<u64>,
    pub pnl: Option<i128>,
    pub max_profit: i128,
    pub min_profit: i128,
    pub max_profit_time: Option<u64>,
    pub min_profit_time: Option<u64>,
}

} // verus!
