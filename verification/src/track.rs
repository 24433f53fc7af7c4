//! The profit tracker and the historical recalculator. The tracker advances
//! each open position's running unrealized-profit extrema against the latest
//! quotes; the recalculator replays a closed position's lifetime against
//! historical candles and overwrites the live-tracked extrema with the true
//! ones.

use vstd::prelude::*;
use crate::pnl::{spec_net_pnl_units, net_pnl_units, MAX_AMOUNT, MAX_PNL_UNITS};
use crate::position::{Position, Status};
use crate::book::{Book, Quote, Candle, CandleBatch, spec_position_wf};
use crate::text::{spec_upper, to_upper, bytes_eq};

verus! {

/// The first quoted price for the coin, matched case-insensitively.
pub open spec fn spec_find_quote(qs: Seq<Quote>, coin: Seq<u8>) -> Option<u64>
    decreases qs.len(),
{
    if qs.len() == 0 {
        None
    } else if spec_upper(qs[0].coin@) == coin {
        Some(qs[0].price)
    } else {
        spec_find_quote(qs.skip(1), coin)
    }
}

/// The candle series fetched for the given record, if any.
pub open spec fn spec_find_batch(bs: Seq<CandleBatch>, id: u128) -> Option<Seq<Candle>>
    decreases bs.len(),
{
    if bs.len() == 0 {
        None
    } else if bs[0].id == id {
        Some(bs[0].candles@)
    } else {
        spec_find_batch(bs.skip(1), id)
    }
}

/// A quoted price the tracker can mark against: present, non-zero and within
/// the machine bound — the one price policy the book applies everywhere, a
/// reported price of zero being unusable data.
pub open spec fn spec_quote_usable(quote: Option<u64>) -> bool {
    quote matches Some(q) && 1 <= q <= MAX_AMOUNT
}

/// The unrealized net profit of an open position at the quoted mark price.
pub open spec fn spec_unrealized(p: Position, q: u64) -> int {
    spec_net_pnl_units(p.side, p.entry_price as int, q as int, p.size as int)
}

/// Whether one tracker pass advances the position's extrema: it is open, its
/// coin was quoted, and the unrealized profit escapes the stored band.
pub open spec fn spec_tracker_advances(p: Position, quote: Option<u64>) -> bool {
    &&& p.status == Status::Open
    &&& spec_quote_usable(quote)
    &&& (spec_unrealized(p, quote->Some_0) > p.max_profit || spec_unrealized(p, quote->Some_0)
        < p.min_profit)
}

/// The position after one tracker pass: a new high replaces the stored
/// maximum and stamps its time, a new low the stored minimum; anything else,
/// or a missing quote, leaves the record untouched.
pub open spec fn spec_tracked(p: Position, quote: Option<u64>, now: u64) -> Position {
    if p.status == Status::Open && spec_quote_usable(quote) {
        let cur = spec_unrealized(p, quote->Some_0);
        let up = if cur > p.max_profit {
            Position { max_profit: cur as i128, max_profit_time: Some(now), ..p }
        } else {
            p
        };
        if cur < p.min_profit {
            Position { min_profit: cur as i128, min_profit_time: Some(now), ..up }
        } else {
            up
        }
    } else {
        p
    }
}

/// A candle whose three prices are usable marks: each non-zero and within
/// the machine bound, the same price policy the tracker and the close paths
/// apply.
pub open spec fn spec_candle_ok(c: Candle) -> bool {
    1 <= c.high <= MAX_AMOUNT && 1 <= c.low <= MAX_AMOUNT && 1 <= c.close <= MAX_AMOUNT
}

/// Largest and smallest net profit reachable across the usable candles,
/// evaluating each candle at its high, its low and its close; nothing when
/// no candle is usable.
pub open spec fn spec_candle_extrema(p: Position, cs: Seq<Candle>) -> Option<(int, int)>
    decreases cs.len(),
{
    if cs.len() == 0 {
        None
    } else {
        let rest = spec_candle_extrema(p, cs.drop_last());
        let c = cs.last();
        if spec_candle_ok(c) {
            let hi = spec_unrealized(p, c.high);
            let lo = spec_unrealized(p, c.low);
            let cl = spec_unrealized(p, c.close);
            let mx = spec_max3(hi, lo, cl);
            let mn = spec_min3(hi, lo, cl);
            match rest {
                None => Some((mx, mn)),
                Some(e) => Some(
                    ((if e.0 >= mx {
                        e.0
                    } else {
                        mx
                    }), (if e.1 <= mn {
                        e.1
                    } else {
                        mn
                    })),
                ),
            }
        } else {
            rest
        }
    }
}

pub open spec fn spec_max3(a: int, b: int, c: int) -> int {
    if a >= b && a >= c {
        a
    } else if b >= c {
        b
    } else {
        c
    }
}

pub open spec fn spec_min3(a: int, b: int, c: int) -> int {
    if a <= b && a <= c {
        a
    } else if b <= c {
        b
    } else {
        c
    }
}

/// Whether the recalculator rewrites the record: closed with both lifetime
/// bounds recorded, a candle series at hand, and at least one usable candle.
pub open spec fn spec_recalc_applies(p: Position, batch: Option<Seq<Candle>>) -> bool {
    &&& p.status == Status::Closed
    &&& p.entry_time != 0
    &&& p.exit_time != 0
    &&& batch matches Some(cs) && spec_candle_extrema(p, cs) is Some
}

/// The position after one recalculator pass: where it applies, the stored
/// extrema are overwritten with the candle-derived ones; otherwise the
/// record is untouched.
pub open spec fn spec_recalced(p: Position, batch: Option<Seq<Candle>>) -> Position {
    if spec_recalc_applies(p, batch) {
        let e = spec_candle_extrema(p, batch->Some_0)->Some_0;
        Position { max_profit: e.0 as i128, min_profit: e.1 as i128, ..p }
    } else {
        p
    }
}

/// Recalculating a position from the same candle series twice gives the same
/// record as recalculating it once: the extrema depend only on the entry
/// terms and the candles, which the rewrite leaves untouched.
pub proof fn lemma_recalc_idempotent(p: Position, batch: Option<Seq<Candle>>)
    ensures
        spec_recalced(spec_recalced(p, batch), batch) == spec_recalced(p, batch),
{
    let p1 = spec_recalced(p, batch);
    if spec_recalc_applies(p, batch) {
        let cs = batch->Some_0;
        lemma_extrema_entry_terms(p, p1, cs);
    }
}

/// The candle extrema read only a position's side, entry price and size.
proof fn lemma_extrema_entry_terms(a: Position, b: Position, cs: Seq<Candle>)
    requires
        a.side == b.side,
        a.entry_price == b.entry_price,
        a.size == b.size,
    ensures
        spec_candle_extrema(a, cs) == spec_candle_extrema(b, cs),
    decreases cs.len(),
{
    if cs.len() > 0 {
        lemma_extrema_entry_terms(a, b, cs.drop_last());
    }
}

/// Find the first quote for a normalized coin symbol.
fn find_quote(quotes: &Vec<Quote>, coin: &Vec<u8>) -> (r: Option<u64>)
    ensures
        r == spec_find_quote(quotes@, coin@),
{
    let mut i: usize = 0;
    proof {
        assert(quotes@.skip(0int) =~= quotes@);
    }
    while i < quotes.len()
        invariant
            i <= quotes@.len(),
            spec_find_quote(quotes@, coin@) == spec_find_quote(quotes@.skip(i as int), coin@),
        decreases quotes@.len() - i,
    {
        proof {
            assert(quotes@.skip(i as int)[0] == quotes@[i as int]);
        }
        let qc = to_upper(&quotes[i].coin);
        if bytes_eq(&qc, coin) {
            return Some(quotes[i].price);
        }
        proof {
            assert(quotes@.skip(i as int).skip(1) =~= quotes@.skip(i + 1 as int));
        }
        i = i + 1;
    }
    proof {
        assert(quotes@.skip(quotes@.len() as int).len() == 0);
    }
    None
}

/// Find the candle series fetched for a record.
fn find_batch<'a>(batches: &'a Vec<CandleBatch>, id: u128) -> (r: Option<&'a Vec<Candle>>)
    ensures
        r matches Some(cs) ==> spec_find_batch(batches@, id) == Some(cs@),
        r is None ==> spec_find_batch(batches@, id) is None,
{
    let mut i: usize = 0;
    proof {
        assert(batches@.skip(0int) =~= batches@);
    }
    while i < batches.len()
        invariant
            i <= batches@.len(),
            spec_find_batch(batches@, id) == spec_find_batch(batches@.skip(i as int), id),
        decreases batches@.len() - i,
    {
        proof {
            assert(batches@.skip(i as int)[0] == batches@[i as int]);
        }
        if batches[i].id == id {
            return Some(&batches[i].candles);
        }
        proof {
            assert(batches@.skip(i as int).skip(1) =~= batches@.skip(i + 1 as int));
        }
        i = i + 1;
    }
    proof {
        assert(batches@.skip(batches@.len() as int).len() == 0);
    }
    None
}

/// Compute the candle extrema of one well-formed position.
fn candle_extrema(p: &Position, candles: &Vec<Candle>) -> (r: Option<(i128, i128)>)
    requires
        spec_position_wf(*p),
    ensures
        r matches Some(e) ==> spec_candle_extrema(*p, candles@) == Some(
            (e.0 as int, e.1 as int),
        ),
        r is None ==> spec_candle_extrema(*p, candles@) is None,
        r matches Some(e) ==> -MAX_PNL_UNITS <= e.0 <= MAX_PNL_UNITS && -MAX_PNL_UNITS <= e.1
            <= MAX_PNL_UNITS,
    {
    let mut acc: Option<(i128, i128)> = None;
    let mut k: usize = 0;
    proof {
        assert(candles@.take(0int).len() == 0);
    }
    while k < candles.len()
        invariant
            k <= candles@.len(),
            spec_position_wf(*p),
            acc matches Some(e) ==> spec_candle_extrema(*p, candles@.take(k as int)) == Some(
                (e.0 as int, e.1 as int),
            ),
            acc is None ==> spec_candle_extrema(*p, candles@.take(k as int)) is None,
            acc matches Some(e) ==> -MAX_PNL_UNITS <= e.0 <= MAX_PNL_UNITS && -MAX_PNL_UNITS <= e.1
                <= MAX_PNL_UNITS,
        decreases candles@.len() - k,
    {
        let c = candles[k];
        proof {
            assert(candles@.take(k + 1 as int).drop_last() =~= candles@.take(k as int));
            assert(candles@.take(k + 1 as int).last() == candles@[k as int]);
        }
        if 1 <= c.high && c.high <= MAX_AMOUNT && 1 <= c.low && c.low <= MAX_AMOUNT && 1 <= c.close
            && c.close <= MAX_AMOUNT {
            let hi = match net_pnl_units(p.side, p.entry_price, c.high, p.size) {
                Ok(v) => v,
                Err(_) => {
                    proof {
                        assert(false);
                    }
                    0
                },
            };
            let lo = match net_pnl_units(p.side, p.entry_price, c.low, p.size) {
                Ok(v) => v,
                Err(_) => {
                    proof {
                        assert(false);
                    }
                    0
                },
            };
            let cl = match net_pnl_units(p.side, p.entry_price, c.close, p.size) {
                Ok(v) => v,
                Err(_) => {
                    proof {
                        assert(false);
                    }
                    0
                },
            };
            let mx: i128 = if hi >= lo && hi >= cl {
                hi
            } else if lo >= cl {
                lo
            } else {
                cl
            };
            let mn: i128 = if hi <= lo && hi <= cl {
                hi
            } else if lo <= cl {
                lo
            } else {
                cl
            };
            acc = match acc {
                None => Some((mx, mn)),
                Some((a, b)) => Some(
                    ((if a >= mx {
                        a
                    } else {
                        mx
                    }), (if b <= mn {
                        b
                    } else {
                        mn
                    })),
                ),
            };
        }
        k = k + 1;
    }
    proof {
        assert(candles@.take(candles@.len() as int) =~= candles@);
    }
    acc
}

impl Book {
    /// One tracker pass. For every open position whose coin has a usable
    /// quote, revalue it at that mark price and advance the stored extrema
    /// where the unrealized profit escapes them, stamping `now`; positions
    /// without a usable quote are skipped, never failing the pass. Reports
    /// how many positions advanced.
    pub fn update_profits(&mut self, quotes: &Vec<Quote>, now: u64) -> (r: usize)
        requires
            old(self).wf(),
        ensures
            final(self).wf(),
            final(self)@.len() == old(self)@.len(),
            final(self).next_id == old(self).next_id,
            forall|i: int|
                0 <= i < old(self)@.len() ==> final(self)@[i] == spec_tracked(
                    #[trigger] old(self)@[i],
                    spec_find_quote(quotes@, old(self)@[i].coin@),
                    now,
                ),
            r == old(self)@.filter(
                |p: Position| spec_tracker_advances(p, spec_find_quote(quotes@, p.coin@)),
            ).len(),
    {
        let ghost g_adv = |p: Position|
            spec_tracker_advances(p, spec_find_quote(quotes@, p.coin@));
        let mut updated: usize = 0;
        let mut i: usize = 0;
        proof {
            assert(self@.take(0int).filter(g_adv) =~= Seq::<Position>::empty());
        }
        while i < self.positions.len()
            invariant
                i <= self@.len(),
                self@.len() == old(self)@.len(),
                self.next_id == old(self).next_id,
                old(self).wf(),
                g_adv == (|p: Position|
                    spec_tracker_advances(p, spec_find_quote(quotes@, p.coin@))),
                forall|j: int|
                    0 <= j < i ==> self@[j] == spec_tracked(
                        #[trigger] old(self)@[j],
                        spec_find_quote(quotes@, old(self)@[j].coin@),
                        now,
                    ),
                forall|j: int| i <= j < self@.len() ==> self@[j] == old(self)@[j],
                updated == old(self)@.take(i as int).filter(g_adv).len(),
                updated <= i,
            decreases self@.len() - i,
        {
            proof {
                assert(old(self)@.take(i + 1 as int).drop_last() =~= old(self)@.take(i as int));
                assert(old(self)@.take(i + 1 as int).last() == old(self)@[i as int]);
                reveal(Seq::filter);
            }
            let is_open = matches!(self.positions[i].status, Status::Open);
            let quote = find_quote(quotes, &self.positions[i].coin);
            let mut advanced = false;
            if is_open {
                if let Some(q) = quote {
                    if 1 <= q && q <= MAX_AMOUNT {
                        let ghost prev = self@;
                        let mut p = self.positions.remove(i);
                        let cur = match net_pnl_units(p.side, p.entry_price, q, p.size) {
                            Ok(v) => v,
                            Err(_) => {
                                proof {
                                    assert(false);
                                }
                                0
                            },
                        };
                        if cur > p.max_profit {
                            p.max_profit = cur;
                            p.max_profit_time = Some(now);
                            advanced = true;
                        }
                        if cur < p.min_profit {
                            p.min_profit = cur;
                            p.min_profit_time = Some(now);
                            advanced = true;
                        }
                        self.positions.insert(i, p);
                        proof {
                            assert(self@ =~= prev.update(i as int, self@[i as int]));
                            assert(self@[i as int] == spec_tracked(
                                old(self)@[i as int],
                                spec_find_quote(quotes@, old(self)@[i as int].coin@),
                                now,
                            ));
                            assert(advanced == g_adv(old(self)@[i as int]));
                        }
                    }
                }
            }
            proof {
                assert(self@[i as int] == spec_tracked(
                    old(self)@[i as int],
                    spec_find_quote(quotes@, old(self)@[i as int].coin@),
                    now,
                ));
                assert(advanced == g_adv(old(self)@[i as int]));
            }
            if advanced {
                updated = updated + 1;
            }
            i = i + 1;
        }
        proof {
            assert(old(self)@.take(old(self)@.len() as int) =~= old(self)@);
            lemma_track_preserves_wf(*old(self), *self, quotes@, now);
        }
        updated
    }

    /// One recalculator pass. For every closed position with recorded entry
    /// and exit times whose candle series is at hand and holds at least one
    /// usable candle, overwrite the stored extrema with the largest and
    /// smallest net profit reachable across the candles' highs, lows and
    /// closes; every other record is left untouched. Reports how many
    /// records were rewritten.
    pub fn recalculate_historical(&mut self, batches: &Vec<CandleBatch>) -> (r: usize)
        requires
            old(self).wf(),
        ensures
            final(self).wf(),
            final(self)@.len() == old(self)@.len(),
            final(self).next_id == old(self).next_id,
            forall|i: int|
                0 <= i < old(self)@.len() ==> final(self)@[i] == spec_recalced(
                    #[trigger] old(self)@[i],
                    spec_find_batch(batches@, old(self)@[i].id),
                ),
            r == old(self)@.filter(
                |p: Position| spec_recalc_applies(p, spec_find_batch(batches@, p.id)),
            ).len(),
    {
        let ghost g_app = |p: Position| spec_recalc_applies(p, spec_find_batch(batches@, p.id));
        let mut updated: usize = 0;
        let mut i: usize = 0;
        proof {
            assert(self@.take(0int).filter(g_app) =~= Seq::<Position>::empty());
        }
        while i < self.positions.len()
            invariant
                i <= self@.len(),
                self@.len() == old(self)@.len(),
                self.next_id == old(self).next_id,
                old(self).wf(),
                g_app == (|p: Position|
                    spec_recalc_applies(p, spec_find_batch(batches@, p.id))),
                forall|j: int|
                    0 <= j < i ==> self@[j] == spec_recalced(
                        #[trigger] old(self)@[j],
                        spec_find_batch(batches@, old(self)@[j].id),
                    ),
                forall|j: int| i <= j < self@.len() ==> self@[j] == old(self)@[j],
                updated == old(self)@.take(i as int).filter(g_app).len(),
                updated <= i,
            decreases self@.len() - i,
        {
            proof {
                assert(old(self)@.take(i + 1 as int).drop_last() =~= old(self)@.take(i as int));
                assert(old(self)@.take(i + 1 as int).last() == old(self)@[i as int]);
                reveal(Seq::filter);
            }
            let eligible = {
                let p = &self.positions[i];
                matches!(p.status, Status::Closed) && p.entry_time != 0 && p.exit_time != 0
            };
            let mut applied = false;
            if eligible {
                if let Some(cs) = find_batch(batches, self.positions[i].id) {
                    let extrema = candle_extrema(&self.positions[i], cs);
                    if let Some((mx, mn)) = extrema {
                        let ghost prev = self@;
                        let mut p = self.positions.remove(i);
                        p.max_profit = mx;
                        p.min_profit = mn;
                        self.positions.insert(i, p);
                        applied = true;
                        proof {
                            assert(self@ =~= prev.update(i as int, self@[i as int]));
                            assert(self@[i as int] == spec_recalced(
                                old(self)@[i as int],
                                spec_find_batch(batches@, old(self)@[i as int].id),
                            ));
                        }
                    }
                }
            }
            proof {
                assert(self@[i as int] == spec_recalced(
                    old(self)@[i as int],
                    spec_find_batch(batches@, old(self)@[i as int].id),
                ));
                assert(applied == g_app(old(self)@[i as int]));
            }
            if applied {
                updated = updated + 1;
            }
            i = i + 1;
        }
        proof {
            assert(old(self)@.take(old(self)@.len() as int) =~= old(self)@);
            lemma_recalc_preserves_wf(*old(self), *self, batches@);
        }
        updated
    }
}

/// One tracker pass preserves the book invariant: only extrema and their
/// stamps move, and only within the proven profit bounds.
proof fn lemma_track_preserves_wf(pre: Book, post: Book, quotes: Seq<Quote>, now: u64)
    requires
        pre.wf(),
        post.next_id == pre.next_id,
        post@.len() == pre@.len(),
        forall|i: int|
            0 <= i < pre@.len() ==> post@[i] == spec_tracked(
                #[trigger] pre@[i],
                spec_find_quote(quotes, pre@[i].coin@),
                now,
            ),
    ensures
        post.wf(),
{
    assert forall|i: int| 0 <= i < post@.len() implies spec_position_wf(#[trigger] post@[i]) by {
        let p = pre@[i];
        assert(spec_position_wf(p));
        let quote = spec_find_quote(quotes, p.coin@);
        if p.status == Status::Open && spec_quote_usable(quote) {
            crate::pnl::lemma_gross_magnitude_bounds(
                p.entry_price as int,
                quote->Some_0 as int,
                p.size as int,
            );
        }
    }
    assert forall|i: int|
        0 <= i < post@.len() implies (#[trigger] post@[i]).id == pre@[i].id && post@[i].coin@
        == pre@[i].coin@ && post@[i].side == pre@[i].side && post@[i].status == pre@[i].status by {
        assert(post@[i] == spec_tracked(pre@[i], spec_find_quote(quotes, pre@[i].coin@), now));
    }
}

/// One recalculator pass preserves the book invariant likewise.
proof fn lemma_recalc_preserves_wf(pre: Book, post: Book, batches: Seq<CandleBatch>)
    requires
        pre.wf(),
        post.next_id == pre.next_id,
        post@.len() == pre@.len(),
        forall|i: int|
            0 <= i < pre@.len() ==> post@[i] == spec_recalced(
                #[trigger] pre@[i],
                spec_find_batch(batches, pre@[i].id),
            ),
    ensures
        post.wf(),
{
    assert forall|i: int| 0 <= i < post@.len() implies spec_position_wf(#[trigger] post@[i]) by {
        let p = pre@[i];
        assert(spec_position_wf(p));
        let batch = spec_find_batch(batches, p.id);
        if spec_recalc_applies(p, batch) {
            lemma_extrema_bounds(p, batch->Some_0);
        }
    }
    assert forall|i: int|
        0 <= i < post@.len() implies (#[trigger] post@[i]).id == pre@[i].id && post@[i].coin@
        == pre@[i].coin@ && post@[i].side == pre@[i].side && post@[i].status == pre@[i].status by {
        assert(post@[i] == spec_recalced(pre@[i], spec_find_batch(batches, pre@[i].id)));
    }
}

/// Candle extrema of a well-formed position stay within the profit bounds.
proof fn lemma_extrema_bounds(p: Position, cs: Seq<Candle>)
    requires
        spec_position_wf(p),
    ensures
        spec_candle_extrema(p, cs) matches Some(e) ==> -MAX_PNL_UNITS <= e.0 <= MAX_PNL_UNITS
            && -MAX_PNL_UNITS <= e.1 <= MAX_PNL_UNITS,
    decreases cs.len(),
{
    if cs.len() > 0 {
        lemma_extrema_bounds(p, cs.drop_last());
        let c = cs.last();
        if spec_candle_ok(c) {
            crate::pnl::lemma_gross_magnitude_bounds(
                p.entry_price as int,
                c.high as int,
                p.size as int,
            );
            crate::pnl::lemma_gross_magnitude_bounds(
                p.entry_price as int,
                c.low as int,
                p.size as int,
            );
            crate::pnl::lemma_gross_magnitude_bounds(
                p.entry_price as int,
                c.close as int,
                p.size as int,
            );
        }
    }
}

} // verus!
