//! The profit-and-loss calculator: pure fixed-point arithmetic turning entry
//! price, mark price, size and side into quantity, gross profit, fee and net
//! profit. Profit figures are integers in `SCALE`-ths of one quote unit,
//! truncated toward zero; the fee of a trade is exact.

use vstd::prelude::*;
use vstd::arithmetic::div_mod::{lemma_div_nonincreasing, lemma_div_pos_is_pos};
use crate::position::{Side, TradeError};

verus! {

/// Profit figures are expressed in millionths of one quote unit.
pub const SCALE: u64 = 1_000_000;

/// Fee charged per unit of position size, in `SCALE`-ths: two legs of
/// 2 basis points each, so 0.0004 of the size.
pub const FEE_UNITS_PER_SIZE: u64 = 400;

/// Largest price or position size the calculator accepts; keeps every
/// intermediate product inside 128-bit arithmetic.
pub const MAX_AMOUNT: u64 = 1_000_000_000_000;

/// Largest magnitude a gross, net or tracked profit figure can reach for
/// inputs within `MAX_AMOUNT`.
pub const MAX_PNL_UNITS: i128 = 1_000_000_000_000 * 1_000_000_000_000 * 1_000_000
    + 400 * 1_000_000_000_000;

/// Round-trip fee for a position of the given size, in `SCALE`-ths of a unit.
pub open spec fn spec_fee_units(size: int) -> int {
    size * FEE_UNITS_PER_SIZE
}

/// Absolute price movement between entry and mark.
pub open spec fn spec_price_move(entry: int, mark: int) -> int {
    if mark >= entry {
        mark - entry
    } else {
        entry - mark
    }
}

/// Magnitude of the gross profit or loss, in `SCALE`-ths of a unit:
/// |mark - entry| * (size / entry), truncated. Meaningful only for entry >= 1.
pub open spec fn spec_gross_magnitude_units(entry: int, mark: int, size: int) -> int {
    (spec_price_move(entry, mark) * size * SCALE) / entry
}

/// Whether the price moved in the side's favour (a rise for a long, a fall
/// for a short). An unmoved price counts as favourable with zero gain.
pub open spec fn spec_favourable(side: Side, entry: int, mark: int) -> bool {
    (side == Side::Long) == (mark >= entry)
}

/// Gross profit of the side at the mark price, in `SCALE`-ths of a unit:
/// (mark - entry) * size / entry for a long, the negative for a short,
/// truncated toward zero.
pub open spec fn spec_gross_pnl_units(side: Side, entry: int, mark: int, size: int) -> int {
    if spec_favourable(side, entry, mark) {
        spec_gross_magnitude_units(entry, mark, size)
    } else {
        -spec_gross_magnitude_units(entry, mark, size)
    }
}

/// Net profit: gross profit minus the round-trip fee.
pub open spec fn spec_net_pnl_units(side: Side, entry: int, mark: int, size: int) -> int {
    spec_gross_pnl_units(side, entry, mark, size) - spec_fee_units(size)
}

/// The gross magnitude of a trade within the accepted bounds fits well under
/// `MAX_PNL_UNITS`.
pub proof fn lemma_gross_magnitude_bounds(entry: int, mark: int, size: int)
    requires
        1 <= entry <= MAX_AMOUNT,
        0 <= mark <= MAX_AMOUNT,
        0 <= size <= MAX_AMOUNT,
    ensures
        0 <= spec_gross_magnitude_units(entry, mark, size)
            <= MAX_AMOUNT * MAX_AMOUNT * SCALE,
{
    let d = spec_price_move(entry, mark);
    let num = d * size * SCALE;
    assert(0 <= d <= 1_000_000_000_000);
    assert(0 <= d * size <= 1_000_000_000_000 * 1_000_000_000_000) by (nonlinear_arith)
        requires
            0 <= d <= 1_000_000_000_000,
            0 <= size <= 1_000_000_000_000,
    ;
    assert(0 <= (d * size) * 1_000_000 <= (1_000_000_000_000 * 1_000_000_000_000)
        * 1_000_000) by (nonlinear_arith)
        requires
            0 <= d * size <= 1_000_000_000_000 * 1_000_000_000_000,
    ;
    lemma_div_pos_is_pos(num, entry);
    lemma_div_nonincreasing(num, entry);
}

/// A long's gross profit is the exact negative of a short's for the same
/// entry price, mark price and size.
pub proof fn lemma_gross_pnl_antisymmetric(entry: int, mark: int, size: int)
    ensures
        spec_gross_pnl_units(Side::Long, entry, mark, size)
            == -spec_gross_pnl_units(Side::Short, entry, mark, size),
{
}

/// For the same entry price, mark price and size, the net profits of the long
/// and of the short sum to exactly the two sides' round-trip fees: each side
/// pays its own fee, so the exact negation that holds of gross profit is off
/// by twice the fee at the net level.
pub proof fn lemma_net_pnl_long_short_sum(entry: int, mark: int, size: int)
    ensures
        spec_net_pnl_units(Side::Long, entry, mark, size)
            + spec_net_pnl_units(Side::Short, entry, mark, size)
            == -2 * spec_fee_units(size),
{
    lemma_gross_pnl_antisymmetric(entry, mark, size);
}

/// Round-trip fee of a position: size * 0.0002 * 2, in `SCALE`-ths of a unit.
pub fn fee_units(size: u64) -> (r: u64)
    requires
        size <= MAX_AMOUNT,
    ensures
        r == spec_fee_units(size as int),
{
    size * FEE_UNITS_PER_SIZE
}

/// Quantity bought or sold, in `SCALE`-ths: size / entry_price, truncated.
/// Fails with `DivideByZero` exactly when the entry price is zero.
pub fn quantity_units(size: u64, entry_price: u64) -> (r: Result<u64, TradeError>)
    requires
        size <= MAX_AMOUNT,
        entry_price <= MAX_AMOUNT,
    ensures
        entry_price == 0 ==> r == Err::<u64, TradeError>(TradeError::DivideByZero),
        entry_price != 0 ==> r == Ok::<u64, TradeError>(
            ((size * SCALE) as int / entry_price as int) as u64,
        ),
{
    if entry_price == 0 {
        return Err(TradeError::DivideByZero);
    }
    proof {
        lemma_div_nonincreasing(size as int * SCALE as int, entry_price as int);
        lemma_div_pos_is_pos(size as int * SCALE as int, entry_price as int);
    }
    Ok(size * SCALE / entry_price)
}

/// Gross profit of the side at the mark price, in `SCALE`-ths of a unit.
/// Fails with `DivideByZero` exactly when the entry price is zero.
pub fn gross_pnl_units(side: Side, entry_price: u64, mark_price: u64, size: u64) -> (r: Result<
    i128,
    TradeError,
>)
    requires
        entry_price <= MAX_AMOUNT,
        mark_price <= MAX_AMOUNT,
        size <= MAX_AMOUNT,
    ensures
        entry_price == 0 ==> r == Err::<i128, TradeError>(TradeError::DivideByZero),
        entry_price != 0 ==> (r matches Ok(v) && v as int == spec_gross_pnl_units(
            side,
            entry_price as int,
            mark_price as int,
            size as int,
        )),
        r matches Ok(v) ==> -(MAX_AMOUNT as int * MAX_AMOUNT as int * SCALE as int) <= v as int
            <= MAX_AMOUNT as int * MAX_AMOUNT as int * SCALE as int,
{
    if entry_price == 0 {
        return Err(TradeError::DivideByZero);
    }
    let diff: u64 = if mark_price >= entry_price {
        mark_price - entry_price
    } else {
        entry_price - mark_price
    };
    proof {
        lemma_gross_magnitude_bounds(entry_price as int, mark_price as int, size as int);
        assert(0 <= diff as int * size as int <= 1_000_000_000_000 * 1_000_000_000_000)
            by (nonlinear_arith)
            requires
                0 <= diff <= 1_000_000_000_000,
                0 <= size <= 1_000_000_000_000,
        ;
        assert(0 <= (diff as int * size as int) * 1_000_000 <= (1_000_000_000_000
            * 1_000_000_000_000) * 1_000_000) by (nonlinear_arith)
            requires
                0 <= diff as int * size as int <= 1_000_000_000_000 * 1_000_000_000_000,
        ;
    }
    let num: u128 = diff as u128 * size as u128 * SCALE as u128;
    let magnitude: u128 = num / entry_price as u128;
    let signed: i128 = magnitude as i128;
    let favourable: bool = (matches!(side, Side::Long)) == (mark_price >= entry_price);
    if favourable {
        Ok(signed)
    } else {
        Ok(-signed)
    }
}

/// Net profit of the side at the mark price: gross profit minus the
/// round-trip fee, in `SCALE`-ths of a unit. Fails with `DivideByZero`
/// exactly when the entry price is zero.
pub fn net_pnl_units(side: Side, entry_price: u64, mark_price: u64, size: u64) -> (r: Result<
    i128,
    TradeError,
>)
    requires
        entry_price <= MAX_AMOUNT,
        mark_price <= MAX_AMOUNT,
        size <= MAX_AMOUNT,
    ensures
        entry_price == 0 ==> r == Err::<i128, TradeError>(TradeError::DivideByZero),
        entry_price != 0 ==> (r matches Ok(v) && v as int == spec_net_pnl_units(
            side,
            entry_price as int,
            mark_price as int,
            size as int,
        )),
        r matches Ok(v) ==> -MAX_PNL_UNITS <= v <= MAX_PNL_UNITS,
{
    let gross = match gross_pnl_units(side, entry_price, mark_price, size) {
        Ok(g) => g,
        Err(e) => {
            return Err(e);
        },
    };
    let fee = fee_units(size);
    Ok(gross - fee as i128)
}

} // verus!
