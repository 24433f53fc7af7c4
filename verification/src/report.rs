//! The performance aggregator: closed positions grouped per coin into trade,
//! win and loss counts, total net profit and a win rate, ranked by total
//! profit, best first.

use vstd::prelude::*;
use crate::pnl::MAX_PNL_UNITS;
use crate::position::{Position, Status};
use crate::book::{Book, spec_position_wf, MAX_POSITIONS};
use crate::text::{bytes_eq, bytes_lt, copy_bytes, spec_lex_lt, lemma_lex_transitive,
    lemma_lex_trichotomy};

verus! {

/// One coin's closed-trade record: totals over every closed position of the
/// coin, and the win rate as a whole percentage, rounded down (zero when the
/// coin has no trades).
pub struct CoinPerf {
    pub coin: Vec<u8>,
    pub total_pnl: i128,
    pub trades: u64,
    pub wins: u64,
    pub losses: u64,
    pub win_rate: u64,
}

/// The profit a closed record contributes: its net profit, or zero where
/// none was stored.
pub open spec fn spec_pnl_value(p: Position) -> int {
    match p.pnl {
        Some(v) => v as int,
        None => 0,
    }
}

/// A closed trade of the given coin.
pub open spec fn spec_is_closed_trade(p: Position, coin: Seq<u8>) -> bool {
    p.status == Status::Closed && p.coin@ == coin
}

/// Total net profit of the coin's closed trades.
pub open spec fn spec_total_pnl(s: Seq<Position>, coin: Seq<u8>) -> int
    decreases s.len(),
{
    if s.len() == 0 {
        0
    } else {
        spec_total_pnl(s.drop_last(), coin) + if spec_is_closed_trade(s.last(), coin) {
            spec_pnl_value(s.last())
        } else {
            0
        }
    }
}

/// Number of the coin's closed trades.
pub open spec fn spec_trades(s: Seq<Position>, coin: Seq<u8>) -> int
    decreases s.len(),
{
    if s.len() == 0 {
        0
    } else {
        spec_trades(s.drop_last(), coin) + if spec_is_closed_trade(s.last(), coin) {
            1int
        } else {
            0
        }
    }
}

/// Number of the coin's winning closed trades (positive net profit).
pub open spec fn spec_wins(s: Seq<Position>, coin: Seq<u8>) -> int
    decreases s.len(),
{
    if s.len() == 0 {
        0
    } else {
        spec_wins(s.drop_last(), coin) + if spec_is_closed_trade(s.last(), coin)
            && spec_pnl_value(s.last()) > 0 {
            1int
        } else {
            0
        }
    }
}

/// Number of the coin's losing closed trades (negative net profit).
pub open spec fn spec_losses(s: Seq<Position>, coin: Seq<u8>) -> int
    decreases s.len(),
{
    if s.len() == 0 {
        0
    } else {
        spec_losses(s.drop_last(), coin) + if spec_is_closed_trade(s.last(), coin)
            && spec_pnl_value(s.last()) < 0 {
            1int
        } else {
            0
        }
    }
}

/// A correct per-coin record over the table: the four aggregates, the win
/// rate, and the fact that the coin really has a closed trade.
pub open spec fn spec_perf_ok(g: CoinPerf, s: Seq<Position>) -> bool {
    &&& spec_group_ok(g, s)
    &&& g.win_rate as int == (if spec_trades(s, g.coin@) == 0 {
        0int
    } else {
        spec_wins(s, g.coin@) * 100 / spec_trades(s, g.coin@)
    })
}

/// The aggregate part of a per-coin record, without the win rate.
pub open spec fn spec_group_ok(g: CoinPerf, s: Seq<Position>) -> bool {
    &&& g.total_pnl as int == spec_total_pnl(s, g.coin@)
    &&& g.trades as int == spec_trades(s, g.coin@)
    &&& g.wins as int == spec_wins(s, g.coin@)
    &&& g.losses as int == spec_losses(s, g.coin@)
    &&& exists|i: int| 0 <= i < s.len() && spec_is_closed_trade(#[trigger] s[i], g.coin@)
}

/// The aggregates are bounded by the table: wins and losses by the trade
/// count, the trade count by the length, the total by length many maximal
/// profits.
proof fn lemma_aggregate_bounds(s: Seq<Position>, coin: Seq<u8>)
    requires
        forall|i: int| 0 <= i < s.len() ==> spec_position_wf(#[trigger] s[i]),
    ensures
        0 <= spec_wins(s, coin) <= spec_trades(s, coin),
        0 <= spec_losses(s, coin) <= spec_trades(s, coin),
        spec_trades(s, coin) <= s.len(),
        -(s.len() * MAX_PNL_UNITS) <= spec_total_pnl(s, coin) <= s.len() * MAX_PNL_UNITS,
    decreases s.len(),
{
    if s.len() == 0 {
    } else {
        assert(forall|i: int|
            0 <= i < s.drop_last().len() ==> spec_position_wf(#[trigger] s.drop_last()[i]));
        lemma_aggregate_bounds(s.drop_last(), coin);
        assert(spec_position_wf(s[s.len() - 1]));
        assert(-MAX_PNL_UNITS <= (if spec_is_closed_trade(s.last(), coin) {
            spec_pnl_value(s.last())
        } else {
            0
        }) <= MAX_PNL_UNITS);
        assert((s.len() - 1) * MAX_PNL_UNITS + MAX_PNL_UNITS == s.len() * MAX_PNL_UNITS)
            by (nonlinear_arith);
    }
}

/// A coin with no closed trade in the table aggregates to zero.
proof fn lemma_no_trades_zero(s: Seq<Position>, coin: Seq<u8>)
    requires
        forall|i: int| 0 <= i < s.len() ==> !spec_is_closed_trade(#[trigger] s[i], coin),
    ensures
        spec_total_pnl(s, coin) == 0,
        spec_trades(s, coin) == 0,
        spec_wins(s, coin) == 0,
        spec_losses(s, coin) == 0,
    decreases s.len(),
{
    if s.len() > 0 {
        assert(forall|i: int|
            0 <= i < s.drop_last().len() ==> !spec_is_closed_trade(
                #[trigger] s.drop_last()[i],
                coin,
            ));
        lemma_no_trades_zero(s.drop_last(), coin);
        assert(!spec_is_closed_trade(s[s.len() - 1], coin));
    }
}

/// The report's ranking: higher total profit first; equal totals are broken
/// by coin name, lexicographically ascending — the documented deterministic
/// secondary key.
pub open spec fn spec_ranked_before(a: CoinPerf, b: CoinPerf) -> bool {
    a.total_pnl > b.total_pnl || (a.total_pnl == b.total_pnl && spec_lex_lt(a.coin@, b.coin@))
}

/// The ranking is transitive.
proof fn lemma_ranked_before_transitive(a: CoinPerf, b: CoinPerf, c: CoinPerf)
    requires
        spec_ranked_before(a, b),
        spec_ranked_before(b, c),
    ensures
        spec_ranked_before(a, c),
{
    if a.total_pnl == b.total_pnl && b.total_pnl == c.total_pnl {
        lemma_lex_transitive(a.coin@, b.coin@, c.coin@);
    }
}

/// Find the per-coin record for a coin, if the scan has made one.
fn find_group(groups: &Vec<CoinPerf>, coin: &Vec<u8>) -> (r: Option<usize>)
    ensures
        r matches Some(f) ==> 0 <= f < groups@.len() && groups@[f as int].coin@ == coin@,
        r is None ==> forall|t: int| 0 <= t < groups@.len() ==> (#[trigger] groups@[t]).coin@
            != coin@,
{
    let mut k: usize = 0;
    while k < groups.len()
        invariant
            k <= groups@.len(),
            forall|t: int| 0 <= t < k ==> (#[trigger] groups@[t]).coin@ != coin@,
        decreases groups@.len() - k,
    {
        if bytes_eq(&groups[k].coin, coin) {
            return Some(k);
        }
        k = k + 1;
    }
    None
}

impl Book {
    /// Summarize the closed positions per coin: trade count, wins, losses,
    /// win rate and total net profit, one record per coin that has a closed
    /// trade, ranked by total profit, best first; coins with equal totals
    /// come in coin-name order, ascending.
    pub fn best_performing(&self) -> (r: Vec<CoinPerf>)
        requires
            self.wf(),
        ensures
            forall|k: int| 0 <= k < r@.len() ==> spec_perf_ok(#[trigger] r@[k], self@),
            forall|k: int, l: int|
                0 <= k < r@.len() && 0 <= l < r@.len() && k != l ==> (#[trigger] r@[k]).coin@ != (
                #[trigger] r@[l]).coin@,
            forall|i: int|
                0 <= i < self@.len() && (#[trigger] self@[i]).status == Status::Closed
                    ==> exists|k: int| 0 <= k < r@.len() && (#[trigger] r@[k]).coin@
                    == self@[i].coin@,
            forall|k: int, l: int|
                0 <= k < l < r@.len() ==> spec_ranked_before(#[trigger] r@[k], #[trigger] r@[l]),
    {
        let mut groups: Vec<CoinPerf> = Vec::new();
        let mut i: usize = 0;
        while i < self.positions.len()
            invariant
                self.wf(),
                i <= self@.len(),
                forall|k: int|
                    0 <= k < groups@.len() ==> spec_group_ok(
                        #[trigger] groups@[k],
                        self@.take(i as int),
                    ),
                forall|k: int, l: int|
                    0 <= k < groups@.len() && 0 <= l < groups@.len() && k != l ==> (
                    #[trigger] groups@[k]).coin@ != (#[trigger] groups@[l]).coin@,
                forall|j: int|
                    0 <= j < i && (#[trigger] self@[j]).status == Status::Closed ==> exists|k: int|
                        0 <= k < groups@.len() && (#[trigger] groups@[k]).coin@ == self@[j].coin@,
            decreases self@.len() - i,
        {
            proof {
                assert(self@.take(i + 1 as int).drop_last() =~= self@.take(i as int));
                assert(self@.take(i + 1 as int).last() == self@[i as int]);
            }
            let is_closed = matches!(self.positions[i].status, Status::Closed);
            if is_closed {
                let val: i128 = match self.positions[i].pnl {
                    Some(v) => v,
                    None => 0,
                };
                let found = find_group(&groups, &self.positions[i].coin);
                let ghost pre_groups = groups@;
                let ghost prefix = self@.take(i as int);
                let ghost c = self@[i as int].coin@;
                proof {
                    lemma_aggregate_bounds(prefix, c);
                    assert(prefix.len() <= MAX_POSITIONS);
                    assert(prefix.len() * MAX_PNL_UNITS <= MAX_POSITIONS * MAX_PNL_UNITS)
                        by (nonlinear_arith)
                        requires
                            0 <= prefix.len() <= MAX_POSITIONS,
                            MAX_PNL_UNITS > 0,
                    ;
                    assert(spec_position_wf(self@[i as int]));
                }
                match found {
                    Some(f) => {
                        let mut g = groups.remove(f);
                        g.total_pnl = g.total_pnl + val;
                        g.trades = g.trades + 1;
                        if val > 0 {
                            g.wins = g.wins + 1;
                        } else if val < 0 {
                            g.losses = g.losses + 1;
                        }
                        groups.insert(f, g);
                        proof {
                            assert(groups@ =~= pre_groups.update(f as int, groups@[f as int]));
                            assert(forall|k2: int|
                                0 <= k2 < groups@.len() ==> (#[trigger] groups@[k2]).coin@
                                    == pre_groups[k2].coin@);
                            assert(groups@[f as int].coin@ == c);
                            assert(spec_group_ok(groups@[f as int], self@.take(i + 1 as int)));
                            assert forall|k2: int|
                                0 <= k2 < groups@.len() && k2 != f implies spec_group_ok(
                                #[trigger] groups@[k2],
                                self@.take(i + 1 as int),
                            ) by {
                                assert(groups@[k2] == pre_groups[k2]);
                                assert(groups@[k2].coin@ != c);
                                assert(!spec_is_closed_trade(self@[i as int], groups@[k2].coin@));
                            }
                            assert forall|j: int|
                                0 <= j < i + 1 && (#[trigger] self@[j]).status == Status::Closed
                                    implies exists|k2: int|
                                    0 <= k2 < groups@.len() && (#[trigger] groups@[k2]).coin@
                                        == self@[j].coin@ by {
                                if j == i {
                                    assert(groups@[f as int].coin@ == self@[j].coin@);
                                } else {
                                    let w = choose|k2: int|
                                        0 <= k2 < pre_groups.len() && (
                                        #[trigger] pre_groups[k2]).coin@ == self@[j].coin@;
                                    assert(groups@[w].coin@ == self@[j].coin@);
                                }
                            }
                        }
                    },
                    None => {
                        proof {
                            assert forall|j: int|
                                0 <= j < prefix.len() implies !spec_is_closed_trade(
                                #[trigger] prefix[j],
                                c,
                            ) by {
                                if spec_is_closed_trade(prefix[j], c) {
                                    assert(prefix[j] == self@[j]);
                                    assert(self@[j].status == Status::Closed);
                                    let w = choose|k2: int|
                                        0 <= k2 < groups@.len() && (#[trigger] groups@[k2]).coin@
                                            == self@[j].coin@;
                                    assert(groups@[w].coin@ == c);
                                }
                            }
                            lemma_no_trades_zero(prefix, c);
                        }
                        let g = CoinPerf {
                            coin: copy_bytes(&self.positions[i].coin),
                            total_pnl: val,
                            trades: 1,
                            wins: if val > 0 {
                                1
                            } else {
                                0
                            },
                            losses: if val < 0 {
                                1
                            } else {
                                0
                            },
                            win_rate: 0,
                        };
                        groups.push(g);
                        proof {
                            assert(spec_group_ok(groups@[groups@.len() - 1], self@.take(
                                i + 1 as int,
                            )));
                            assert forall|k2: int|
                                0 <= k2 < groups@.len() - 1 implies spec_group_ok(
                                #[trigger] groups@[k2],
                                self@.take(i + 1 as int),
                            ) by {
                                assert(groups@[k2] == pre_groups[k2]);
                                assert(groups@[k2].coin@ != c);
                                assert(!spec_is_closed_trade(self@[i as int], groups@[k2].coin@));
                            }
                            assert forall|j: int|
                                0 <= j < i + 1 && (#[trigger] self@[j]).status == Status::Closed
                                    implies exists|k2: int|
                                    0 <= k2 < groups@.len() && (#[trigger] groups@[k2]).coin@
                                        == self@[j].coin@ by {
                                if j == i {
                                    assert(groups@[groups@.len() - 1].coin@ == self@[j].coin@);
                                } else {
                                    let w = choose|k2: int|
                                        0 <= k2 < pre_groups.len() && (
                                        #[trigger] pre_groups[k2]).coin@ == self@[j].coin@;
                                    assert(groups@[w] == pre_groups[w]);
                                    assert(groups@[w].coin@ == self@[j].coin@);
                                }
                            }
                        }
                    },
                }
            } else {
                proof {
                    assert forall|k2: int|
                        0 <= k2 < groups@.len() implies spec_group_ok(
                        #[trigger] groups@[k2],
                        self@.take(i + 1 as int),
                    ) by {
                        assert(!spec_is_closed_trade(self@[i as int], groups@[k2].coin@));
                    }
                }
            }
            i = i + 1;
        }
        proof {
            assert(self@.take(self@.len() as int) =~= self@);
        }
        // rank the groups by total profit, best first, fixing each win rate
        // as it is moved across
        let mut out: Vec<CoinPerf> = Vec::new();
        while groups.len() > 0
            invariant
                self.wf(),
                forall|k: int|
                    0 <= k < groups@.len() ==> spec_group_ok(#[trigger] groups@[k], self@),
                forall|k: int| 0 <= k < out@.len() ==> spec_perf_ok(#[trigger] out@[k], self@),
                forall|k: int, l: int|
                    0 <= k < groups@.len() && 0 <= l < groups@.len() && k != l ==> (
                    #[trigger] groups@[k]).coin@ != (#[trigger] groups@[l]).coin@,
                forall|k: int, l: int|
                    0 <= k < out@.len() && 0 <= l < out@.len() && k != l ==> (
                    #[trigger] out@[k]).coin@ != (#[trigger] out@[l]).coin@,
                forall|k: int, l: int|
                    0 <= k < out@.len() && 0 <= l < groups@.len() ==> (#[trigger] out@[k]).coin@
                        != (#[trigger] groups@[l]).coin@,
                forall|k: int, l: int|
                    0 <= k < l < out@.len() ==> spec_ranked_before(
                        #[trigger] out@[k],
                        #[trigger] out@[l],
                    ),
                forall|k: int, l: int|
                    0 <= k < out@.len() && 0 <= l < groups@.len() ==> spec_ranked_before(
                        #[trigger] out@[k],
                        #[trigger] groups@[l],
                    ),
                forall|i2: int|
                    0 <= i2 < self@.len() && (#[trigger] self@[i2]).status == Status::Closed
                        ==> (exists|k: int|
                        0 <= k < out@.len() && (#[trigger] out@[k]).coin@ == self@[i2].coin@)
                        || (exists|k: int|
                        0 <= k < groups@.len() && (#[trigger] groups@[k]).coin@
                            == self@[i2].coin@),
            decreases groups@.len(),
        {
            let mut m: usize = 0;
            let mut t: usize = 1;
            while t < groups.len()
                invariant
                    groups@.len() > 0,
                    m < t,
                    t <= groups@.len(),
                    forall|k: int, l: int|
                        0 <= k < groups@.len() && 0 <= l < groups@.len() && k != l ==> (
                        #[trigger] groups@[k]).coin@ != (#[trigger] groups@[l]).coin@,
                    forall|u: int|
                        0 <= u < t && u != m ==> spec_ranked_before(
                            groups@[m as int],
                            #[trigger] groups@[u],
                        ),
                decreases groups@.len() - t,
            {
                let better = groups[t].total_pnl > groups[m].total_pnl || (groups[t].total_pnl
                    == groups[m].total_pnl && bytes_lt(&groups[t].coin, &groups[m].coin));
                proof {
                    if better {
                        assert(spec_ranked_before(groups@[t as int], groups@[m as int]));
                        assert forall|u: int|
                            0 <= u < t && u != m implies spec_ranked_before(
                            groups@[t as int],
                            #[trigger] groups@[u],
                        ) by {
                            lemma_ranked_before_transitive(
                                groups@[t as int],
                                groups@[m as int],
                                groups@[u],
                            );
                        }
                    } else {
                        if groups@[t as int].total_pnl == groups@[m as int].total_pnl {
                            lemma_lex_trichotomy(
                                groups@[m as int].coin@,
                                groups@[t as int].coin@,
                            );
                        }
                        assert(spec_ranked_before(groups@[m as int], groups@[t as int]));
                    }
                }
                if better {
                    m = t;
                }
                t = t + 1;
            }
            let ghost pre_groups = groups@;
            let ghost pre_out = out@;
            let ghost sel = groups@[m as int];
            let mut g = groups.remove(m);
            g.win_rate = if g.trades == 0 {
                0
            } else {
                proof {
                    lemma_aggregate_bounds(self@, g.coin@);
                }
                g.wins * 100 / g.trades
            };
            out.push(g);
            proof {
                assert(out@[out@.len() - 1].total_pnl == sel.total_pnl);
                assert(out@[out@.len() - 1].coin@ == sel.coin@);
                assert forall|k: int, l: int|
                    0 <= k < groups@.len() && 0 <= l < groups@.len() && k != l implies (
                #[trigger] groups@[k]).coin@ != (#[trigger] groups@[l]).coin@ by {
                    let k0 = if k < m { k } else { k + 1 };
                    let l0 = if l < m { l } else { l + 1 };
                    assert(groups@[k] == pre_groups[k0] && groups@[l] == pre_groups[l0]);
                }
                assert forall|k: int, l: int|
                    0 <= k < l < out@.len() implies spec_ranked_before(
                    #[trigger] out@[k],
                    #[trigger] out@[l],
                ) by {
                    assert(out@[k] == pre_out[k]);
                    if l == out@.len() - 1 {
                        assert(spec_ranked_before(pre_out[k], pre_groups[m as int]));
                    } else {
                        assert(out@[l] == pre_out[l]);
                    }
                }
                assert forall|k: int, l: int|
                    0 <= k < out@.len() && 0 <= l < groups@.len() implies spec_ranked_before(
                    #[trigger] out@[k],
                    #[trigger] groups@[l],
                ) by {
                    let l0 = if l < m { l } else { l + 1 };
                    assert(groups@[l] == pre_groups[l0]);
                    if k == out@.len() - 1 {
                        assert(spec_ranked_before(sel, pre_groups[l0]));
                    } else {
                        assert(out@[k] == pre_out[k]);
                        assert(spec_ranked_before(pre_out[k], pre_groups[l0]));
                    }
                }
                assert forall|i2: int|
                    0 <= i2 < self@.len() && (#[trigger] self@[i2]).status == Status::Closed
                        implies (exists|k: int|
                    0 <= k < out@.len() && (#[trigger] out@[k]).coin@ == self@[i2].coin@) || (
                exists|k: int|
                    0 <= k < groups@.len() && (#[trigger] groups@[k]).coin@
                        == self@[i2].coin@) by {
                    if exists|k: int|
                        0 <= k < pre_out.len() && (#[trigger] pre_out[k]).coin@
                            == self@[i2].coin@ {
                        let w = choose|k: int|
                            0 <= k < pre_out.len() && (#[trigger] pre_out[k]).coin@
                                == self@[i2].coin@;
                        assert(out@[w] == pre_out[w]);
                    } else {
                        let w = choose|k: int|
                            0 <= k < pre_groups.len() && (#[trigger] pre_groups[k]).coin@
                                == self@[i2].coin@;
                        if w == m {
                            assert(out@[out@.len() - 1].coin@ == self@[i2].coin@);
                        } else {
                            let w2 = if w < m {
                                w
                            } else {
                                w - 1
                            };
                            assert(groups@[w2] == pre_groups[w]);
                        }
                    }
                }
            }
        }
        out
    }
}

} // verus!
