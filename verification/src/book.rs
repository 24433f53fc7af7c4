//! The position book: an in-memory store of trade records together with the
//! lifecycle rules that govern it. One book stands for one table of the
//! persistent store; opening, closing, deleting and querying all go through
//! it, and every operation preserves its well-formedness invariant, chief
//! among them the rule that at most one position per coin and side is open.

use vstd::prelude::*;
use crate::pnl::{
    spec_fee_units, spec_gross_pnl_units, spec_net_pnl_units, fee_units, gross_pnl_units,
    net_pnl_units, MAX_AMOUNT, MAX_PNL_UNITS,
};
use crate::position::{Position, Side, Status, TradeError};
use crate::text::{
    spec_valid_symbol, spec_upper, spec_valid_id_text, spec_hex_value, symbol_ok, to_upper,
    bytes_eq, copy_bytes, parse_id, ID_LIMIT,
};

verus! {

/// Most records one book will hold; keeps every aggregate sum inside 128-bit
/// arithmetic.
pub const MAX_POSITIONS: usize = 1_000_000;

/// A live price for one coin, as the price oracle reported it.
pub struct Quote {
    pub coin: Vec<u8>,
    pub price: u64,
}

/// One historical price sample: the high, low and close of a candle.
#[derive(Clone, Copy, PartialEq, Eq, Structural, Debug)]
pub struct Candle {
    pub high: u64,
    pub low: u64,
    pub close: u64,
}

/// The candle series fetched for one position's lifetime, keyed by the
/// position's identifier.
pub struct CandleBatch {
    pub id: u128,
    pub candles: Vec<Candle>,
}

/// What a successful open reports back: the record's identifier and the
/// entry terms.
#[derive(Debug)]
pub struct OpenReceipt {
    pub id: u128,
    pub entry_price: u64,
    pub size: u64,
}

/// What closing one position reports back.
#[derive(Debug)]
pub struct CloseReceipt {
    pub id: u128,
    pub entry_price: u64,
    pub exit_price: u64,
    pub exit_time: u64,
    pub gross_pnl: i128,
    pub fee: u64,
    pub pnl: i128,
}

/// A validated filter over the fields queries and bulk deletion may touch.
/// Bulk deletion demands that at least one field be present.
pub struct PositionFilter {
    pub coin: Option<Vec<u8>>,
    pub side: Option<Side>,
    pub status: Option<Status>,
}

impl PositionFilter {
    /// A filter with no field set matches everything and is rejected.
    pub open spec fn spec_is_empty(self) -> bool {
        self.coin is None && self.side is None && self.status is None
    }

    /// Whether a position matches every field the filter sets.
    pub open spec fn spec_matches(self, p: Position) -> bool {
        &&& (self.coin matches Some(c) ==> p.coin@ == spec_upper(c@))
        &&& (self.side matches Some(s) ==> p.side == s)
        &&& (self.status matches Some(st) ==> p.status == st)
    }
}

/// A single position record is well formed: normalized symbol, bounded
/// amounts, and profit fields consistent with its lifecycle state. A closed
/// record either carries its full exit arithmetic or, when it was swept
/// closed as the opposite side of a fresh open, no exit data at all.
pub open spec fn spec_position_wf(p: Position) -> bool {
    &&& spec_valid_symbol(p.coin@)
    &&& p.coin@ == spec_upper(p.coin@)
    &&& 1 <= p.size <= MAX_AMOUNT
    &&& 1 <= p.entry_price <= MAX_AMOUNT
    &&& p.id < ID_LIMIT
    &&& (p.exit_price matches Some(x) ==> x <= MAX_AMOUNT)
    &&& -MAX_PNL_UNITS <= p.max_profit <= MAX_PNL_UNITS
    &&& -MAX_PNL_UNITS <= p.min_profit <= MAX_PNL_UNITS
    &&& (p.gross_pnl matches Some(g) ==> -MAX_PNL_UNITS <= g <= MAX_PNL_UNITS)
    &&& (p.pnl matches Some(v) ==> -MAX_PNL_UNITS <= v <= MAX_PNL_UNITS)
    &&& (p.fee matches Some(f) ==> f == spec_fee_units(p.size as int))
    &&& (p.status == Status::Open ==> p.exit_price is None && p.exit_time == 0
        && p.gross_pnl is None && p.fee is None && p.pnl is None)
    &&& (p.exit_price is Some <==> p.gross_pnl is Some)
    &&& (p.exit_price is Some <==> p.fee is Some)
    &&& (p.exit_price is Some <==> p.pnl is Some)
    &&& (p.exit_price is Some ==> p.status == Status::Closed)
    &&& (p.exit_price matches Some(x) ==> p.gross_pnl == Some(
        spec_gross_pnl_units(p.side, p.entry_price as int, x as int, p.size as int) as i128,
    ) && p.pnl == Some(
        spec_net_pnl_units(p.side, p.entry_price as int, x as int, p.size as int) as i128,
    ))
}

/// Whether a position is open for the given normalized coin and side.
pub open spec fn spec_open_match(p: Position, coin: Seq<u8>, side: Side) -> bool {
    p.status == Status::Open && p.coin@ == coin && p.side == side
}

/// The in-memory position table.
pub struct Book {
    pub positions: Vec<Position>,
    pub next_id: u128,
}

impl Book {
    /// The records, oldest first.
    pub open spec fn view(self) -> Seq<Position> {
        self.positions@
    }

    /// Well-formedness: every record is well formed, identifiers are unique
    /// and below the next one to be assigned, the book is within capacity,
    /// and at most one position per coin and side is open.
    pub open spec fn wf(self) -> bool {
        &&& forall|i: int| 0 <= i < self@.len() ==> spec_position_wf(#[trigger] self@[i])
        &&& forall|i: int| 0 <= i < self@.len() ==> (#[trigger] self@[i]).id < self.next_id
        &&& forall|i: int, j: int|
            0 <= i < self@.len() && 0 <= j < self@.len() && i != j ==> (#[trigger] self@[i]).id
                != (#[trigger] self@[j]).id
        &&& forall|i: int, j: int|
            0 <= i < self@.len() && 0 <= j < self@.len() && i != j && (#[trigger] self@[i]).status
                == Status::Open && (#[trigger] self@[j]).status == Status::Open ==> !(self@[i].coin@
                == self@[j].coin@ && self@[i].side == self@[j].side)
        &&& self.next_id <= ID_LIMIT
        &&& self@.len() <= MAX_POSITIONS
    }

    /// An empty book.
    pub fn new() -> (r: Book)
        ensures
            r.wf(),
            r@ == Seq::<Position>::empty(),
            r.next_id == 0,
    {
        let b = Book { positions: Vec::new(), next_id: 0 };
        proof {
            assert(b@ =~= Seq::<Position>::empty());
        }
        b
    }

    /// How many positions are open for the coin, on one side or on both.
    /// The coin is matched case-insensitively.
    pub fn count_open(&self, coin: &Vec<u8>, side: Option<Side>) -> (r: usize)
        requires
            self.wf(),
        ensures
            r == self@.filter(spec_open_filter(coin@, side)).len(),
    {
        let target = to_upper(coin);
        let ghost g_pred = spec_open_filter(coin@, side);
        let mut n: usize = 0;
        let mut i: usize = 0;
        proof {
            assert(self@.take(0int).filter(g_pred) =~= Seq::<Position>::empty());
        }
        while i < self.positions.len()
            invariant
                i <= self@.len(),
                self.wf(),
                g_pred == spec_open_filter(coin@, side),
                target@ == spec_upper(coin@),
                n == self@.take(i as int).filter(g_pred).len(),
                n <= i,
            decreases self@.len() - i,
        {
            let p = &self.positions[i];
            let matches_side = match side {
                Some(s) => matches!(p.side, Side::Long) == matches!(s, Side::Long),
                None => true,
            };
            let is_match = matches!(p.status, Status::Open) && bytes_eq(&p.coin, &target)
                && matches_side;
            proof {
                assert(self@.take(i + 1 as int).drop_last() =~= self@.take(i as int));
                assert(self@.take(i + 1 as int).last() == self@[i as int]);
                reveal(Seq::filter);
                assert(is_match == g_pred(self@[i as int]));
            }
            if is_match {
                n = n + 1;
            }
            i = i + 1;
        }
        proof {
            assert(self@.take(self@.len() as int) =~= self@);
        }
        n
    }
}

impl Book {
    /// Find an open position for the normalized coin and side.
    fn find_open(&self, coin_norm: &Vec<u8>, side: Side) -> (r: Option<usize>)
        ensures
            r matches Some(i) ==> 0 <= i < self@.len() && spec_open_match(
                self@[i as int],
                coin_norm@,
                side,
            ),
            r is None ==> forall|i: int|
                0 <= i < self@.len() ==> !spec_open_match(#[trigger] self@[i], coin_norm@, side),
    {
        let mut i: usize = 0;
        while i < self.positions.len()
            invariant
                i <= self@.len(),
                forall|j: int|
                    0 <= j < i ==> !spec_open_match(#[trigger] self@[j], coin_norm@, side),
            decreases self@.len() - i,
        {
            let p = &self.positions[i];
            if matches!(p.status, Status::Open) && bytes_eq(&p.coin, coin_norm) && matches!(
                p.side,
                Side::Long,
            ) == matches!(side, Side::Long) {
                return Some(i);
            }
            i = i + 1;
        }
        None
    }

    /// Close every open position for the normalized coin and side. With exit
    /// terms, each gets the full exit arithmetic at that price; without, each
    /// is swept to the closed state with no exit data, the store-sweep the
    /// transport layer applies to the opposite side of a fresh open.
    fn close_all_matching(&mut self, coin_norm: &Vec<u8>, side: Side, exit: Option<(u64, u64)>)
        requires
            old(self).wf(),
            exit matches Some(e) ==> 1 <= e.0 <= MAX_AMOUNT,
        ensures
            final(self).wf(),
            final(self).next_id == old(self).next_id,
            final(self)@.len() == old(self)@.len(),
            forall|i: int|
                0 <= i < old(self)@.len() ==> final(self)@[i] == spec_sweep(
                    #[trigger] old(self)@[i],
                    coin_norm@,
                    side,
                    exit,
                ),
    {
        let mut i: usize = 0;
        while i < self.positions.len()
            invariant
                self@.len() == old(self)@.len(),
                self.next_id == old(self).next_id,
                i <= self@.len(),
                old(self).wf(),
                exit matches Some(e) ==> 1 <= e.0 <= MAX_AMOUNT,
                forall|j: int|
                    0 <= j < i ==> self@[j] == spec_sweep(
                        #[trigger] old(self)@[j],
                        coin_norm@,
                        side,
                        exit,
                    ),
                forall|j: int| i <= j < self@.len() ==> self@[j] == old(self)@[j],
            decreases self@.len() - i,
        {
            let is_match = {
                let p = &self.positions[i];
                matches!(p.status, Status::Open) && bytes_eq(&p.coin, coin_norm) && matches!(
                    p.side,
                    Side::Long,
                ) == matches!(side, Side::Long)
            };
            if is_match {
                let ghost prev = self@;
                let mut p = self.positions.remove(i);
                p.status = Status::Closed;
                if let Some((price, now)) = exit {
                    let gross = match gross_pnl_units(p.side, p.entry_price, price, p.size) {
                        Ok(g) => g,
                        Err(_) => {
                            proof {
                                assert(false);
                            }
                            0
                        },
                    };
                    let fee = fee_units(p.size);
                    let net = match net_pnl_units(p.side, p.entry_price, price, p.size) {
                        Ok(v) => v,
                        Err(_) => {
                            proof {
                                assert(false);
                            }
                            0
                        },
                    };
                    p.exit_price = Some(price);
                    p.exit_time = now;
                    p.gross_pnl = Some(gross);
                    p.fee = Some(fee);
                    p.pnl = Some(net);
                }
                self.positions.insert(i, p);
                proof {
                    assert(self@ =~= prev.update(i as int, self@[i as int]));
                    assert(self@[i as int] == spec_sweep(
                        old(self)@[i as int],
                        coin_norm@,
                        side,
                        exit,
                    ));
                }
            } else {
                proof {
                    assert(self@[i as int] == spec_sweep(
                        old(self)@[i as int],
                        coin_norm@,
                        side,
                        exit,
                    ));
                }
            }
            i = i + 1;
        }
        proof {
            lemma_sweep_preserves_wf(*old(self), *self, coin_norm@, side, exit);
        }
    }
}

impl Book {
    /// Append a fresh open record; the caller has ruled out a duplicate.
    fn push_new(&mut self, coin_norm: Vec<u8>, side: Side, size: u64, entry_price: u64, now: u64)
        -> (r: u128)
        requires
            old(self).wf(),
            spec_valid_symbol(coin_norm@),
            coin_norm@ == spec_upper(coin_norm@),
            1 <= size <= MAX_AMOUNT,
            1 <= entry_price <= MAX_AMOUNT,
            old(self)@.len() < MAX_POSITIONS,
            old(self).next_id < ID_LIMIT,
            forall|i: int|
                0 <= i < old(self)@.len() ==> !spec_open_match(
                    #[trigger] old(self)@[i],
                    coin_norm@,
                    side,
                ),
        ensures
            final(self).wf(),
            r == old(self).next_id,
            final(self).next_id == old(self).next_id + 1,
            final(self)@.len() == old(self)@.len() + 1,
            forall|i: int| 0 <= i < old(self)@.len() ==> final(self)@[i] == old(self)@[i],
            spec_opened(
                final(self)@.last(),
                old(self).next_id,
                coin_norm@,
                side,
                size,
                entry_price,
                now,
            ),
    {
        let id = self.next_id;
        let p = Position {
            id,
            coin: coin_norm,
            side,
            size,
            entry_price,
            entry_time: now,
            exit_price: None,
            exit_time: 0,
            status: Status::Open,
            gross_pnl: None,
            fee: None,
            pnl: None,
            max_profit: 0,
            min_profit: 0,
            max_profit_time: None,
            min_profit_time: None,
        };
        self.positions.push(p);
        self.next_id = id + 1;
        proof {
            let v = self@;
            let n = v.len() - 1;
            assert(spec_position_wf(v[n]));
            assert forall|i: int, j: int|
                0 <= i < v.len() && 0 <= j < v.len() && i != j && (#[trigger] v[i]).status
                    == Status::Open && (#[trigger] v[j]).status == Status::Open implies !(
            v[i].coin@ == v[j].coin@ && v[i].side == v[j].side) by {
                if i == n {
                    assert(!spec_open_match(old(self)@[j], coin_norm@, side));
                } else if j == n {
                    assert(!spec_open_match(old(self)@[i], coin_norm@, side));
                }
            }
        }
        id
    }

    /// Open a position: validate the symbol and size, refuse a duplicate open
    /// on the same coin and side, sweep the opposite side closed, and insert
    /// a new open record at the price the oracle reported, entered at `now`.
    ///
    /// `opposite_close_pnl` is the sweep policy: set, the opposite side is
    /// closed with full exit arithmetic at the reported price, so a missing
    /// price changes nothing; clear, the opposite side is merely marked
    /// closed before the price is examined, and a missing price then still
    /// leaves that sweep behind.
    pub fn open_position(
        &mut self,
        coin: &Vec<u8>,
        side: Side,
        size: u64,
        price: Option<u64>,
        now: u64,
        opposite_close_pnl: bool,
    ) -> (r: Result<OpenReceipt, TradeError>)
        requires
            old(self).wf(),
        ensures
            final(self).wf(),
            ({
                let c = spec_upper(coin@);
                let args_ok = spec_valid_symbol(c) && 1 <= size <= MAX_AMOUNT;
                let conflict = exists|i: int|
                    0 <= i < old(self)@.len() && spec_open_match(#[trigger] old(self)@[i], c, side);
                let full = old(self)@.len() >= MAX_POSITIONS || old(self).next_id >= ID_LIMIT;
                let usable = price matches Some(p) && 1 <= p <= MAX_AMOUNT;
                let sweep_exit: Option<(u64, u64)> = if opposite_close_pnl {
                    Some((price->Some_0, now))
                } else {
                    Option::<(u64, u64)>::None
                };
                &&& (r == Err::<OpenReceipt, TradeError>(TradeError::InvalidArgument) <==> !args_ok)
                &&& (r == Err::<OpenReceipt, TradeError>(TradeError::Conflict) <==> args_ok
                    && conflict)
                &&& (r == Err::<OpenReceipt, TradeError>(TradeError::StoreFailure) <==> args_ok
                    && !conflict && full)
                &&& (r == Err::<OpenReceipt, TradeError>(TradeError::PriceUnavailable) <==> args_ok
                    && !conflict && !full && !usable)
                &&& (r is Ok <==> args_ok && !conflict && !full && usable)
                &&& (!args_ok || (args_ok && conflict) || (args_ok && !conflict && full)
                    ==> *final(self) == *old(self))
                &&& (args_ok && !conflict && !full && !usable && opposite_close_pnl ==> *final(self)
                    == *old(self))
                &&& (args_ok && !conflict && !full && !usable && !opposite_close_pnl ==> {
                    &&& final(self)@.len() == old(self)@.len()
                    &&& final(self).next_id == old(self).next_id
                    &&& forall|i: int|
                        0 <= i < old(self)@.len() ==> final(self)@[i] == spec_sweep(
                            #[trigger] old(self)@[i],
                            c,
                            side.spec_opposite(),
                            Option::<(u64, u64)>::None,
                        )
                })
                &&& (r matches Ok(rec) ==> {
                    &&& rec.id == old(self).next_id
                    &&& rec.entry_price == price->Some_0
                    &&& rec.size == size
                    &&& final(self).next_id == old(self).next_id + 1
                    &&& final(self)@.len() == old(self)@.len() + 1
                    &&& forall|i: int|
                        0 <= i < old(self)@.len() ==> final(self)@[i] == spec_sweep(
                            #[trigger] old(self)@[i],
                            c,
                            side.spec_opposite(),
                            sweep_exit,
                        )
                    &&& spec_opened(
                        final(self)@.last(),
                        old(self).next_id,
                        c,
                        side,
                        size,
                        price->Some_0,
                        now,
                    )
                })
            }),
    {
        let c = to_upper(coin);
        if !symbol_ok(&c) || size == 0 || size > MAX_AMOUNT {
            return Err(TradeError::InvalidArgument);
        }
        if self.find_open(&c, side).is_some() {
            return Err(TradeError::Conflict);
        }
        if self.positions.len() >= MAX_POSITIONS || self.next_id >= ID_LIMIT {
            return Err(TradeError::StoreFailure);
        }
        let usable: Option<u64> = match price {
            Some(p) => if 1 <= p && p <= MAX_AMOUNT {
                Some(p)
            } else {
                None
            },
            None => None,
        };
        proof {
            lemma_upper_idempotent(coin@);
        }
        let opp = side.opposite();
        if opposite_close_pnl {
            let entry_price = match usable {
                Some(p) => p,
                None => {
                    return Err(TradeError::PriceUnavailable);
                },
            };
            self.close_all_matching(&c, opp, Some((entry_price, now)));
            proof {
                assert forall|i: int|
                    0 <= i < self@.len() implies !spec_open_match(
                    #[trigger] self@[i],
                    c@,
                    side,
                ) by {
                    assert(self@[i] == spec_sweep(
                        old(self)@[i],
                        c@,
                        opp,
                        Some((entry_price, now)),
                    ));
                    assert(!spec_open_match(old(self)@[i], c@, side));
                }
            }
            let id = self.push_new(c, side, size, entry_price, now);
            Ok(OpenReceipt { id, entry_price, size })
        } else {
            self.close_all_matching(&c, opp, None);
            proof {
                assert forall|i: int|
                    0 <= i < self@.len() implies !spec_open_match(
                    #[trigger] self@[i],
                    c@,
                    side,
                ) by {
                    assert(self@[i] == spec_sweep(
                        old(self)@[i],
                        c@,
                        opp,
                        Option::<(u64, u64)>::None,
                    ));
                    assert(!spec_open_match(old(self)@[i], c@, side));
                }
            }
            let entry_price = match usable {
                Some(p) => p,
                None => {
                    return Err(TradeError::PriceUnavailable);
                },
            };
            let id = self.push_new(c, side, size, entry_price, now);
            Ok(OpenReceipt { id, entry_price, size })
        }
    }
}

impl Book {
    /// Close every open position for the coin and side at one exit price,
    /// fetched once and applied to all of them, with `now` as the exit time.
    /// Reports the closed records oldest first; closing nothing is not an
    /// error. Fails only when the price is missing or unusable, and then
    /// changes nothing.
    pub fn close_by_side(&mut self, coin: &Vec<u8>, side: Side, price: Option<u64>, now: u64) -> (r:
        Result<Vec<CloseReceipt>, TradeError>)
        requires
            old(self).wf(),
        ensures
            final(self).wf(),
            ({
                let c = spec_upper(coin@);
                let usable = price matches Some(p) && 1 <= p <= MAX_AMOUNT;
                &&& (!usable ==> r == Err::<Vec<CloseReceipt>, TradeError>(
                    TradeError::PriceUnavailable,
                ) && *final(self) == *old(self))
                &&& (usable ==> r is Ok)
                &&& (r matches Ok(rs) ==> {
                    &&& final(self)@.len() == old(self)@.len()
                    &&& final(self).next_id == old(self).next_id
                    &&& forall|i: int|
                        0 <= i < old(self)@.len() ==> final(self)@[i] == spec_sweep(
                            #[trigger] old(self)@[i],
                            c,
                            side,
                            Some((price->Some_0, now)),
                        )
                    &&& rs@ == old(self)@.filter(spec_side_filter(c, side)).map_values(
                        |q: Position| spec_close_receipt(q, price->Some_0, now),
                    )
                })
            }),
    {
        let exit_price = match price {
            Some(p) => if 1 <= p && p <= MAX_AMOUNT {
                p
            } else {
                return Err(TradeError::PriceUnavailable);
            },
            None => {
                return Err(TradeError::PriceUnavailable);
            },
        };
        let c = to_upper(coin);
        let ghost g_pred = spec_side_filter(c@, side);
        let ghost g_map = |q: Position| spec_close_receipt(q, exit_price, now);
        let mut receipts: Vec<CloseReceipt> = Vec::new();
        let mut i: usize = 0;
        proof {
            assert(self@.take(0int).filter(g_pred) =~= Seq::<Position>::empty());
            assert(receipts@ =~= self@.take(0int).filter(g_pred).map_values(g_map));
        }
        while i < self.positions.len()
            invariant
                self.wf(),
                i <= self@.len(),
                c@ == spec_upper(coin@),
                1 <= exit_price <= MAX_AMOUNT,
                g_pred == spec_side_filter(c@, side),
                g_map == (|q: Position| spec_close_receipt(q, exit_price, now)),
                receipts@ == self@.take(i as int).filter(g_pred).map_values(g_map),
            decreases self@.len() - i,
        {
            let is_match = {
                let p = &self.positions[i];
                matches!(p.status, Status::Open) && bytes_eq(&p.coin, &c) && matches!(
                    p.side,
                    Side::Long,
                ) == matches!(side, Side::Long)
            };
            proof {
                assert(self@.take(i + 1 as int).drop_last() =~= self@.take(i as int));
                assert(self@.take(i + 1 as int).last() == self@[i as int]);
                reveal(Seq::filter);
            }
            if is_match {
                let p = &self.positions[i];
                let gross = match gross_pnl_units(p.side, p.entry_price, exit_price, p.size) {
                    Ok(g) => g,
                    Err(_) => {
                        proof {
                            assert(false);
                        }
                        0
                    },
                };
                let fee = fee_units(p.size);
                let net = match net_pnl_units(p.side, p.entry_price, exit_price, p.size) {
                    Ok(v) => v,
                    Err(_) => {
                        proof {
                            assert(false);
                        }
                        0
                    },
                };
                let rec = CloseReceipt {
                    id: p.id,
                    entry_price: p.entry_price,
                    exit_price,
                    exit_time: now,
                    gross_pnl: gross,
                    fee,
                    pnl: net,
                };
                receipts.push(rec);
                proof {
                    assert(self@.take(i + 1 as int).filter(g_pred) =~= self@.take(
                        i as int,
                    ).filter(g_pred).push(self@[i as int]));
                    assert(receipts@ =~= self@.take(i + 1 as int).filter(g_pred).map_values(
                        g_map,
                    ));
                }
            } else {
                proof {
                    assert(self@.take(i + 1 as int).filter(g_pred) =~= self@.take(i as int).filter(
                        g_pred,
                    ));
                }
            }
            i = i + 1;
        }
        proof {
            assert(self@.take(self@.len() as int) =~= self@);
        }
        self.close_all_matching(&c, side, Some((exit_price, now)));
        Ok(receipts)
    }

    /// Close the one open position with the given textual identifier, at the
    /// given exit price and time. A malformed identifier, an unknown or
    /// already-closed position, and a missing price each fail without any
    /// change; in particular, closing the same identifier twice reports
    /// `NotFound` the second time, because only open records are eligible.
    pub fn close_by_id(&mut self, id_text: &Vec<u8>, price: Option<u64>, now: u64) -> (r: Result<
        CloseReceipt,
        TradeError,
    >)
        requires
            old(self).wf(),
        ensures
            final(self).wf(),
            ({
                let valid = spec_valid_id_text(id_text@);
                let id = spec_hex_value(id_text@) as u128;
                let found = exists|i: int|
                    0 <= i < old(self)@.len() && (#[trigger] old(self)@[i]).id == id
                        && old(self)@[i].status == Status::Open;
                let usable = price matches Some(p) && 1 <= p <= MAX_AMOUNT;
                &&& (!valid ==> r == Err::<CloseReceipt, TradeError>(TradeError::InvalidIdentifier)
                    && *final(self) == *old(self))
                &&& (valid && !found ==> r == Err::<CloseReceipt, TradeError>(TradeError::NotFound)
                    && *final(self) == *old(self))
                &&& (valid && found && !usable ==> r == Err::<CloseReceipt, TradeError>(
                    TradeError::PriceUnavailable,
                ) && *final(self) == *old(self))
                &&& (valid && found && usable <==> r is Ok)
                &&& (r matches Ok(rec) ==> exists|i: int|
                    {
                        &&& 0 <= i < old(self)@.len()
                        &&& (#[trigger] old(self)@[i]).id == id
                        &&& old(self)@[i].status == Status::Open
                        &&& final(self)@ == old(self)@.update(
                            i,
                            spec_closed_at(old(self)@[i], price->Some_0, now),
                        )
                        &&& rec == spec_close_receipt(old(self)@[i], price->Some_0, now)
                        &&& final(self).next_id == old(self).next_id
                    })
            }),
    {
        let id = match parse_id(id_text) {
            Some(v) => v,
            None => {
                return Err(TradeError::InvalidIdentifier);
            },
        };
        let mut i: usize = 0;
        let n = self.positions.len();
        while i < n
            invariant
                self.wf(),
                *self == *old(self),
                spec_valid_id_text(id_text@),
                id == spec_hex_value(id_text@) as u128,
                n == self@.len(),
                i <= n,
                forall|j: int|
                    0 <= j < i ==> !((#[trigger] self@[j]).id == id && self@[j].status
                        == Status::Open),
            decreases n - i,
        {
            let found = {
                let p = &self.positions[i];
                p.id == id && matches!(p.status, Status::Open)
            };
            if found {
                proof {
                    assert(0 <= i < old(self)@.len() && old(self)@[i as int].id == id && old(
                        self,
                    )@[i as int].status == Status::Open);
                }
                let exit_price = match price {
                    Some(p) => if 1 <= p && p <= MAX_AMOUNT {
                        p
                    } else {
                        return Err(TradeError::PriceUnavailable);
                    },
                    None => {
                        return Err(TradeError::PriceUnavailable);
                    },
                };
                let ghost prev = self@;
                let mut p = self.positions.remove(i);
                let gross = match gross_pnl_units(p.side, p.entry_price, exit_price, p.size) {
                    Ok(g) => g,
                    Err(_) => {
                        proof {
                            assert(false);
                        }
                        0
                    },
                };
                let fee = fee_units(p.size);
                let net = match net_pnl_units(p.side, p.entry_price, exit_price, p.size) {
                    Ok(v) => v,
                    Err(_) => {
                        proof {
                            assert(false);
                        }
                        0
                    },
                };
                let rec = CloseReceipt {
                    id: p.id,
                    entry_price: p.entry_price,
                    exit_price,
                    exit_time: now,
                    gross_pnl: gross,
                    fee,
                    pnl: net,
                };
                p.status = Status::Closed;
                p.exit_price = Some(exit_price);
                p.exit_time = now;
                p.gross_pnl = Some(gross);
                p.fee = Some(fee);
                p.pnl = Some(net);
                self.positions.insert(i, p);
                proof {
                    assert(self@ =~= prev.update(i as int, self@[i as int]));
                    assert(self@[i as int] == spec_closed_at(prev[i as int], exit_price, now));
                    crate::pnl::lemma_gross_magnitude_bounds(
                        prev[i as int].entry_price as int,
                        exit_price as int,
                        prev[i as int].size as int,
                    );
                    assert forall|a: int, b: int|
                        0 <= a < self@.len() && 0 <= b < self@.len() && a != b && (
                        #[trigger] self@[a]).status == Status::Open && (#[trigger] self@[b]).status
                            == Status::Open implies !(self@[a].coin@ == self@[b].coin@
                        && self@[a].side == self@[b].side) by {
                        assert(prev[a].status == Status::Open && prev[b].status == Status::Open);
                    }
                }
                proof {
                    assert(0 <= i < old(self)@.len() && old(self)@[i as int].id == id && old(
                        self,
                    )@[i as int].status == Status::Open && self@ == old(self)@.update(
                        i as int,
                        spec_closed_at(old(self)@[i as int], exit_price, now),
                    ) && rec == spec_close_receipt(old(self)@[i as int], exit_price, now)
                        && self.next_id == old(self).next_id);
                }
                return Ok(rec);
            }
            i = i + 1;
        }
        Err(TradeError::NotFound)
    }

    /// Delete the record with the given textual identifier, open or closed.
    /// Reports the parsed identifier back on success.
    pub fn delete_by_id(&mut self, id_text: &Vec<u8>) -> (r: Result<u128, TradeError>)
        requires
            old(self).wf(),
        ensures
            final(self).wf(),
            ({
                let valid = spec_valid_id_text(id_text@);
                let id = spec_hex_value(id_text@) as u128;
                let found = exists|i: int|
                    0 <= i < old(self)@.len() && (#[trigger] old(self)@[i]).id == id;
                &&& (!valid ==> r == Err::<u128, TradeError>(TradeError::InvalidIdentifier)
                    && *final(self) == *old(self))
                &&& (valid && !found ==> r == Err::<u128, TradeError>(TradeError::NotFound)
                    && *final(self) == *old(self))
                &&& (valid && found <==> r is Ok)
                &&& (r matches Ok(v) ==> v == id && exists|i: int|
                    {
                        &&& 0 <= i < old(self)@.len()
                        &&& (#[trigger] old(self)@[i]).id == id
                        &&& final(self)@ == old(self)@.remove(i)
                        &&& final(self).next_id == old(self).next_id
                    })
            }),
    {
        let id = match parse_id(id_text) {
            Some(v) => v,
            None => {
                return Err(TradeError::InvalidIdentifier);
            },
        };
        let mut i: usize = 0;
        let n = self.positions.len();
        while i < n
            invariant
                self.wf(),
                *self == *old(self),
                spec_valid_id_text(id_text@),
                id == spec_hex_value(id_text@) as u128,
                n == self@.len(),
                i <= n,
                forall|j: int| 0 <= j < i ==> (#[trigger] self@[j]).id != id,
            decreases n - i,
        {
            if self.positions[i].id == id {
                let ghost prev = self@;
                let _ = self.positions.remove(i);
                proof {
                    assert forall|a: int, b: int|
                        0 <= a < self@.len() && 0 <= b < self@.len() && a != b && (
                        #[trigger] self@[a]).status == Status::Open && (#[trigger] self@[b]).status
                            == Status::Open implies !(self@[a].coin@ == self@[b].coin@
                        && self@[a].side == self@[b].side) by {
                        let a0 = if a < i { a } else { a + 1 };
                        let b0 = if b < i { b } else { b + 1 };
                        assert(self@[a] == prev[a0] && self@[b] == prev[b0]);
                    }
                    assert forall|a: int, b: int|
                        0 <= a < self@.len() && 0 <= b < self@.len() && a != b implies (
                    #[trigger] self@[a]).id != (#[trigger] self@[b]).id by {
                        let a0 = if a < i { a } else { a + 1 };
                        let b0 = if b < i { b } else { b + 1 };
                        assert(self@[a] == prev[a0] && self@[b] == prev[b0]);
                    }
                    assert(0 <= i < old(self)@.len() && old(self)@[i as int].id == id && self@
                        == old(self)@.remove(i as int) && self.next_id == old(self).next_id);
                }
                return Ok(id);
            }
            i = i + 1;
        }
        Err(TradeError::NotFound)
    }

    /// Delete every record matching the filter. The filter must set at least
    /// one field: an empty filter would match the whole table and is refused.
    /// Reports how many records were removed.
    pub fn bulk_delete(&mut self, filter: &PositionFilter) -> (r: Result<usize, TradeError>)
        requires
            old(self).wf(),
        ensures
            final(self).wf(),
            filter.spec_is_empty() ==> r == Err::<usize, TradeError>(TradeError::InvalidArgument)
                && *final(self) == *old(self),
            !filter.spec_is_empty() ==> {
                &&& final(self)@ == old(self)@.filter(
                    |p: Position| !filter.spec_matches(p),
                )
                &&& final(self).next_id == old(self).next_id
                &&& r == Ok::<usize, TradeError>(
                    (old(self)@.len() - final(self)@.len()) as usize,
                )
            },
    {
        if filter.coin.is_none() && filter.side.is_none() && filter.status.is_none() {
            return Err(TradeError::InvalidArgument);
        }
        let coin_norm: Option<Vec<u8>> = match &filter.coin {
            Some(cv) => Some(to_upper(cv)),
            None => None,
        };
        let ghost g_keep = |p: Position| !filter.spec_matches(p);
        let ghost orig = self@;
        let mut kept: Vec<Position> = Vec::new();
        let mut removed: usize = 0;
        proof {
            assert(orig.take(0int).filter(g_keep) =~= Seq::<Position>::empty());
            assert(kept@ =~= orig.take(0int).filter(g_keep));
        }
        let mut k: usize = 0;
        let n = self.positions.len();
        while k < n
            invariant
                n == orig.len(),
                k <= n,
                self.positions@ == orig.skip(k as int),
                self.next_id == old(self).next_id,
                old(self).wf(),
                orig == old(self)@,
                g_keep == (|p: Position| !filter.spec_matches(p)),
                (coin_norm matches Some(cn) <==> filter.coin is Some),
                (coin_norm matches Some(cn) ==> cn@ == spec_upper(filter.coin->Some_0@)),
                kept@ == orig.take(k as int).filter(g_keep),
                removed == k - kept@.len(),
            decreases n - k,
        {
            let p = self.positions.remove(0);
            proof {
                assert(orig.skip(k as int)[0] == orig[k as int]);
                assert(self.positions@ =~= orig.skip(k + 1 as int));
            }
            let matches_coin = match &coin_norm {
                Some(cn) => bytes_eq(&p.coin, cn),
                None => true,
            };
            let matches_side = match filter.side {
                Some(s) => matches!(p.side, Side::Long) == matches!(s, Side::Long),
                None => true,
            };
            let matches_status = match filter.status {
                Some(st) => matches!(p.status, Status::Open) == matches!(st, Status::Open),
                None => true,
            };
            let is_match = matches_coin && matches_side && matches_status;
            proof {
                assert(orig.take(k + 1 as int).drop_last() =~= orig.take(k as int));
                assert(orig.take(k + 1 as int).last() == orig[k as int]);
                reveal(Seq::filter);
                assert(is_match == filter.spec_matches(orig[k as int]));
            }
            if !is_match {
                kept.push(p);
            } else {
                removed = removed + 1;
            }
            k = k + 1;
        }
        proof {
            assert(orig.take(n as int) =~= orig);
        }
        self.positions = kept;
        proof {
            lemma_filter_keeps_wf(orig, g_keep, self.next_id);
        }
        Ok(removed)
    }
}

/// Closing a position is terminal: once the record with the given
/// identifier has been rewritten to its closed form, no open record with
/// that identifier remains anywhere in the book, so a second close of the
/// same identifier can only report that nothing was found.
pub proof fn lemma_close_is_terminal(pre: Book, post: Book, i: int, exit_price: u64, now: u64)
    requires
        pre.wf(),
        0 <= i < pre@.len(),
        pre@[i].status == Status::Open,
        post@ == pre@.update(i, spec_closed_at(pre@[i], exit_price, now)),
    ensures
        !exists|j: int|
            0 <= j < post@.len() && (#[trigger] post@[j]).id == pre@[i].id && post@[j].status
                == Status::Open,
{
    assert forall|j: int|
        0 <= j < post@.len() implies !((#[trigger] post@[j]).id == pre@[i].id && post@[j].status
        == Status::Open) by {
        if j != i {
            assert(post@[j] == pre@[j]);
            assert(pre@[j].id != pre@[i].id);
        }
    }
}

/// Two records that hold the same data, field for field.
pub open spec fn spec_record_eq(a: Position, b: Position) -> bool {
    &&& a.id == b.id
    &&& a.coin@ == b.coin@
    &&& a.side == b.side
    &&& a.size == b.size
    &&& a.entry_price == b.entry_price
    &&& a.entry_time == b.entry_time
    &&& a.exit_price == b.exit_price
    &&& a.exit_time == b.exit_time
    &&& a.status == b.status
    &&& a.gross_pnl == b.gross_pnl
    &&& a.fee == b.fee
    &&& a.pnl == b.pnl
    &&& a.max_profit == b.max_profit
    &&& a.min_profit == b.min_profit
    &&& a.max_profit_time == b.max_profit_time
    &&& a.min_profit_time == b.min_profit_time
}

impl Book {
    /// The records matching the filter, oldest first, as copies. An empty
    /// filter lists the whole table.
    pub fn get_positions(&self, filter: &PositionFilter) -> (r: Vec<Position>)
        requires
            self.wf(),
        ensures
            r@.len() == self@.filter(|p: Position| filter.spec_matches(p)).len(),
            forall|k: int|
                0 <= k < r@.len() ==> spec_record_eq(
                    #[trigger] r@[k],
                    self@.filter(|p: Position| filter.spec_matches(p))[k],
                ),
    {
        let coin_norm: Option<Vec<u8>> = match &filter.coin {
            Some(cv) => Some(to_upper(cv)),
            None => None,
        };
        let ghost g_pred = |p: Position| filter.spec_matches(p);
        let mut r: Vec<Position> = Vec::new();
        let mut i: usize = 0;
        proof {
            assert(self@.take(0int).filter(g_pred) =~= Seq::<Position>::empty());
        }
        while i < self.positions.len()
            invariant
                i <= self@.len(),
                self.wf(),
                g_pred == (|p: Position| filter.spec_matches(p)),
                (coin_norm matches Some(cn) <==> filter.coin is Some),
                (coin_norm matches Some(cn) ==> cn@ == spec_upper(filter.coin->Some_0@)),
                r@.len() == self@.take(i as int).filter(g_pred).len(),
                forall|k: int|
                    0 <= k < r@.len() ==> spec_record_eq(
                        #[trigger] r@[k],
                        self@.take(i as int).filter(g_pred)[k],
                    ),
            decreases self@.len() - i,
        {
            let p = &self.positions[i];
            let matches_coin = match &coin_norm {
                Some(cn) => bytes_eq(&p.coin, cn),
                None => true,
            };
            let matches_side = match filter.side {
                Some(s) => matches!(p.side, Side::Long) == matches!(s, Side::Long),
                None => true,
            };
            let matches_status = match filter.status {
                Some(st) => matches!(p.status, Status::Open) == matches!(st, Status::Open),
                None => true,
            };
            proof {
                assert(self@.take(i + 1 as int).drop_last() =~= self@.take(i as int));
                assert(self@.take(i + 1 as int).last() == self@[i as int]);
                reveal(Seq::filter);
                assert((matches_coin && matches_side && matches_status) == g_pred(
                    self@[i as int],
                ));
            }
            if matches_coin && matches_side && matches_status {
                let copy = Position {
                    id: p.id,
                    coin: copy_bytes(&p.coin),
                    side: p.side,
                    size: p.size,
                    entry_price: p.entry_price,
                    entry_time: p.entry_time,
                    exit_price: p.exit_price,
                    exit_time: p.exit_time,
                    status: p.status,
                    gross_pnl: p.gross_pnl,
                    fee: p.fee,
                    pnl: p.pnl,
                    max_profit: p.max_profit,
                    min_profit: p.min_profit,
                    max_profit_time: p.max_profit_time,
                    min_profit_time: p.min_profit_time,
                };
                r.push(copy);
            }
            i = i + 1;
        }
        proof {
            assert(self@.take(self@.len() as int) =~= self@);
        }
        r
    }
}

/// The open positions of one coin and side, the records a close-by-side
/// sweeps.
pub open spec fn spec_side_filter(coin: Seq<u8>, side: Side) -> spec_fn(Position) -> bool {
    |p: Position| spec_open_match(p, coin, side)
}

/// What closing a record at the given exit price and time reports.
pub open spec fn spec_close_receipt(p: Position, exit_price: u64, now: u64) -> CloseReceipt {
    CloseReceipt {
        id: p.id,
        entry_price: p.entry_price,
        exit_price,
        exit_time: now,
        gross_pnl: spec_gross_pnl_units(
            p.side,
            p.entry_price as int,
            exit_price as int,
            p.size as int,
        ) as i128,
        fee: spec_fee_units(p.size as int) as u64,
        pnl: spec_net_pnl_units(
            p.side,
            p.entry_price as int,
            exit_price as int,
            p.size as int,
        ) as i128,
    }
}

/// Filtering a well-formed table keeps every record well formed, keeps
/// identifiers distinct and bounded, and keeps at most one open position per
/// coin and side.
proof fn lemma_filter_keeps_wf(s: Seq<Position>, g: spec_fn(Position) -> bool, nid: u128)
    requires
        forall|i: int| 0 <= i < s.len() ==> spec_position_wf(#[trigger] s[i]),
        forall|i: int| 0 <= i < s.len() ==> (#[trigger] s[i]).id < nid,
        forall|i: int, j: int|
            0 <= i < s.len() && 0 <= j < s.len() && i != j ==> (#[trigger] s[i]).id != (
            #[trigger] s[j]).id,
        forall|i: int, j: int|
            0 <= i < s.len() && 0 <= j < s.len() && i != j && (#[trigger] s[i]).status
                == Status::Open && (#[trigger] s[j]).status == Status::Open ==> !(s[i].coin@
                == s[j].coin@ && s[i].side == s[j].side),
    ensures
        s.filter(g).len() <= s.len(),
        forall|i: int| 0 <= i < s.filter(g).len() ==> spec_position_wf(#[trigger] s.filter(g)[i]),
        forall|i: int| 0 <= i < s.filter(g).len() ==> (#[trigger] s.filter(g)[i]).id < nid,
        forall|i: int, j: int|
            0 <= i < s.filter(g).len() && 0 <= j < s.filter(g).len() && i != j ==> (
            #[trigger] s.filter(g)[i]).id != (#[trigger] s.filter(g)[j]).id,
        forall|i: int, j: int|
            0 <= i < s.filter(g).len() && 0 <= j < s.filter(g).len() && i != j && (
            #[trigger] s.filter(g)[i]).status == Status::Open && (#[trigger] s.filter(g)[j]).status
                == Status::Open ==> !(s.filter(g)[i].coin@ == s.filter(g)[j].coin@ && s.filter(
                g,
            )[i].side == s.filter(g)[j].side),
    decreases s.len(),
{
    reveal(Seq::filter);
    s.lemma_filter_len(g);
    let f = s.filter(g);
    assert forall|i: int| 0 <= i < f.len() implies s.contains(#[trigger] f[i]) by {
        assert(f.contains(f[i]));
        s.lemma_filter_contains_rev(g, f[i]);
    }
    assert forall|i: int|
        0 <= i < f.len() implies spec_position_wf(#[trigger] f[i]) && f[i].id < nid by {
        let j = choose|j: int| 0 <= j < s.len() && s[j] == f[i];
        assert(spec_position_wf(s[j]));
    }
    if s.len() > 0 {
        let d = s.drop_last();
        lemma_filter_keeps_wf(d, g, nid);
        let fd = d.filter(g);
        if g(s.last()) {
            assert(f == fd.push(s.last()));
            assert forall|a: int| 0 <= a < fd.len() implies (#[trigger] fd[a]).id != s.last().id
                && !(fd[a].status == Status::Open && s.last().status == Status::Open && fd[a].coin@
                == s.last().coin@ && fd[a].side == s.last().side) by {
                assert(fd.contains(fd[a]));
                d.lemma_filter_contains_rev(g, fd[a]);
                let j = choose|j: int| 0 <= j < d.len() && d[j] == fd[a];
                assert(s[j] == fd[a]);
                assert(s[s.len() - 1] == s.last());
            }
        } else {
            assert(f == fd);
        }
    }
}

/// A freshly opened record: the given terms, open status, and cleared exit
/// data and extrema.
pub open spec fn spec_opened(
    p: Position,
    id: u128,
    coin: Seq<u8>,
    side: Side,
    size: u64,
    entry_price: u64,
    now: u64,
) -> bool {
    &&& p.id == id
    &&& p.coin@ == coin
    &&& p.side == side
    &&& p.size == size
    &&& p.entry_price == entry_price
    &&& p.entry_time == now
    &&& p.exit_price is None
    &&& p.exit_time == 0
    &&& p.status == Status::Open
    &&& p.gross_pnl is None
    &&& p.fee is None
    &&& p.pnl is None
    &&& p.max_profit == 0
    &&& p.min_profit == 0
    &&& p.max_profit_time is None
    &&& p.min_profit_time is None
}

/// Folding to upper case twice is folding once.
pub proof fn lemma_upper_idempotent(s: Seq<u8>)
    ensures
        spec_upper(spec_upper(s)) == spec_upper(s),
{
    assert(spec_upper(spec_upper(s)) =~= spec_upper(s));
}

/// The record after the lifecycle sweep: an open position for the coin and
/// side is closed (with full exit arithmetic when exit terms are given);
/// everything else is untouched.
pub open spec fn spec_sweep(
    p: Position,
    coin: Seq<u8>,
    side: Side,
    exit: Option<(u64, u64)>,
) -> Position {
    if spec_open_match(p, coin, side) {
        match exit {
            Some(e) => spec_closed_at(p, e.0, e.1),
            None => spec_bare_closed(p),
        }
    } else {
        p
    }
}

/// The record swept to the closed state with no exit data.
pub open spec fn spec_bare_closed(p: Position) -> Position {
    Position { status: Status::Closed, ..p }
}

/// The record closed at the given exit price and time, with gross profit,
/// fee and net profit computed by the calculator.
pub open spec fn spec_closed_at(p: Position, exit_price: u64, now: u64) -> Position {
    Position {
        status: Status::Closed,
        exit_price: Some(exit_price),
        exit_time: now,
        gross_pnl: Some(
            spec_gross_pnl_units(
                p.side,
                p.entry_price as int,
                exit_price as int,
                p.size as int,
            ) as i128,
        ),
        fee: Some(spec_fee_units(p.size as int) as u64),
        pnl: Some(
            spec_net_pnl_units(
                p.side,
                p.entry_price as int,
                exit_price as int,
                p.size as int,
            ) as i128,
        ),
        ..p
    }
}

/// Sweeping one coin-and-side's open positions closed preserves the book
/// invariant.
proof fn lemma_sweep_preserves_wf(
    pre: Book,
    post: Book,
    coin: Seq<u8>,
    side: Side,
    exit: Option<(u64, u64)>,
)
    requires
        pre.wf(),
        exit matches Some(e) ==> 1 <= e.0 <= MAX_AMOUNT,
        post.next_id == pre.next_id,
        post@.len() == pre@.len(),
        forall|i: int|
            0 <= i < pre@.len() ==> post@[i] == spec_sweep(#[trigger] pre@[i], coin, side, exit),
    ensures
        post.wf(),
{
    assert forall|i: int| 0 <= i < post@.len() implies spec_position_wf(#[trigger] post@[i]) by {
        assert(pre.wf());
        assert(spec_position_wf(pre@[i]));
        if spec_open_match(pre@[i], coin, side) {
            if let Some(e) = exit {
                let p = pre@[i];
                crate::pnl::lemma_gross_magnitude_bounds(
                    p.entry_price as int,
                    e.0 as int,
                    p.size as int,
                );
            }
        }
    }
    assert forall|i: int|
        0 <= i < post@.len() implies (#[trigger] post@[i]).id == pre@[i].id && post@[i].coin@
        == pre@[i].coin@ && post@[i].side == pre@[i].side && (post@[i].status == Status::Open
        ==> pre@[i].status == Status::Open) by {
        assert(post@[i] == spec_sweep(pre@[i], coin, side, exit));
    }
}

/// The records counted by an open-position query: open, for the coin, and on
/// the side when one is named.
pub open spec fn spec_open_filter(coin: Seq<u8>, side: Option<Side>) -> spec_fn(Position) -> bool {
    |p: Position|
        p.status == Status::Open && p.coin@ == spec_upper(coin) && (side matches Some(s) ==> p.side
            == s)
}

} // verus!
