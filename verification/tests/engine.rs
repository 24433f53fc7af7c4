use tradecore::book::{Book, Candle, CandleBatch, PositionFilter, Quote};
use tradecore::pnl::{fee_units, gross_pnl_units, net_pnl_units, quantity_units};
use tradecore::position::{Side, Status, TradeError};
use tradecore::text::{format_id, parse_id, parse_status_word, table_name_ok, visible_tables};

fn coin(s: &str) -> Vec<u8> {
    s.as_bytes().to_vec()
}

#[test]
fn fee_is_two_legs_of_two_basis_points() {
    // 1000 * 0.0002 * 2 = 0.4, in millionths: 400_000
    assert_eq!(fee_units(1000), 400_000);
    assert_eq!(fee_units(0), 0);
}

#[test]
fn quantity_example() {
    // 1000 / 50000 = 0.02, in millionths: 20_000
    assert_eq!(quantity_units(1000, 50_000), Ok(20_000));
}

#[test]
fn quantity_divide_by_zero() {
    assert_eq!(quantity_units(1000, 0), Err(TradeError::DivideByZero));
}

#[test]
fn net_pnl_divide_by_zero_never_silent() {
    assert_eq!(
        net_pnl_units(Side::Long, 0, 51_000, 1000),
        Err(TradeError::DivideByZero)
    );
    assert_eq!(
        gross_pnl_units(Side::Short, 0, 51_000, 1000),
        Err(TradeError::DivideByZero)
    );
}

#[test]
fn net_pnl_formulas() {
    // (51000 - 50000) * (1000 / 50000) - 1000 * 0.0004 = 20 - 0.4 = 19.6
    let long = net_pnl_units(Side::Long, 50_000, 51_000, 1000).unwrap();
    assert_eq!(long, 19_600_000);
    // (50000 - 51000) * (1000 / 50000) - 0.4 = -20.4
    let short = net_pnl_units(Side::Short, 50_000, 51_000, 1000).unwrap();
    assert_eq!(short, -20_400_000);
    // gross profits are exact negatives of each other
    let gl = gross_pnl_units(Side::Long, 50_000, 51_000, 1000).unwrap();
    let gs = gross_pnl_units(Side::Short, 50_000, 51_000, 1000).unwrap();
    assert_eq!(gl, -gs);
    // net profits differ from exact negation by exactly the two fees
    assert_eq!(long + short, -2 * (fee_units(1000) as i128));
}

#[test]
fn open_close_round_trip_example() {
    let mut book = Book::new();
    let receipt = book
        .open_position(&coin("BTC"), Side::Long, 1000, Some(50_000), 100, false)
        .unwrap();
    assert_eq!(receipt.entry_price, 50_000);
    assert_eq!(receipt.size, 1000);
    let closed = book
        .close_by_side(&coin("BTC"), Side::Long, Some(51_000), 200)
        .unwrap();
    assert_eq!(closed.len(), 1);
    assert_eq!(closed[0].gross_pnl, 20_000_000); // 20.0
    assert_eq!(closed[0].fee, 400_000); // 0.4
    assert_eq!(closed[0].pnl, 19_600_000); // 19.6
    assert_eq!(closed[0].exit_time, 200);
    assert_eq!(book.positions[0].status, Status::Closed);
    assert_eq!(book.positions[0].exit_price, Some(51_000));
}

#[test]
fn duplicate_open_conflicts_and_inserts_nothing() {
    let mut book = Book::new();
    book.open_position(&coin("BTC"), Side::Long, 1000, Some(50_000), 100, false)
        .unwrap();
    let second = book.open_position(&coin("btc"), Side::Long, 500, Some(50_500), 150, false);
    assert_eq!(second.unwrap_err(), TradeError::Conflict);
    assert_eq!(book.positions.len(), 1);
}

#[test]
fn open_sweeps_opposite_side_closed() {
    let mut book = Book::new();
    book.open_position(&coin("ETH"), Side::Short, 1000, Some(3_000), 100, false)
        .unwrap();
    let r = book.open_position(&coin("ETH"), Side::Long, 2000, Some(3_100), 200, false);
    assert!(r.is_ok());
    // the short was swept closed without exit arithmetic
    assert_eq!(book.positions[0].status, Status::Closed);
    assert_eq!(book.positions[0].exit_price, None);
    assert_eq!(book.positions[0].pnl, None);
    // the long is open
    assert_eq!(book.positions[1].status, Status::Open);
    assert_eq!(book.positions[1].side, Side::Long);
}

#[test]
fn open_sweeps_opposite_with_pnl_when_configured() {
    let mut book = Book::new();
    book.open_position(&coin("ETH"), Side::Short, 1000, Some(3_000), 100, false)
        .unwrap();
    let r = book.open_position(&coin("ETH"), Side::Long, 2000, Some(3_100), 200, true);
    assert!(r.is_ok());
    assert_eq!(book.positions[0].status, Status::Closed);
    assert_eq!(book.positions[0].exit_price, Some(3_100));
    assert!(book.positions[0].pnl.is_some());
}

#[test]
fn open_requires_price() {
    let mut book = Book::new();
    let r = book.open_position(&coin("BTC"), Side::Long, 1000, None, 100, false);
    assert_eq!(r.unwrap_err(), TradeError::PriceUnavailable);
    assert_eq!(book.positions.len(), 0);
}

#[test]
fn open_rejects_bad_arguments() {
    let mut book = Book::new();
    let r = book.open_position(&coin("BTC"), Side::Long, 0, Some(50_000), 100, false);
    assert_eq!(r.unwrap_err(), TradeError::InvalidArgument);
    let r = book.open_position(&coin("B T C"), Side::Long, 10, Some(50_000), 100, false);
    assert_eq!(r.unwrap_err(), TradeError::InvalidArgument);
}

#[test]
fn close_by_id_twice_reports_not_found() {
    let mut book = Book::new();
    let receipt = book
        .open_position(&coin("BTC"), Side::Long, 1000, Some(50_000), 100, false)
        .unwrap();
    let id_text = format_id(receipt.id);
    let first = book.close_by_id(&id_text, Some(51_000), 200);
    assert!(first.is_ok());
    let second = book.close_by_id(&id_text, Some(52_000), 300);
    assert_eq!(second.unwrap_err(), TradeError::NotFound);
}

#[test]
fn close_by_id_rejects_malformed_identifier() {
    let mut book = Book::new();
    let r = book.close_by_id(&coin("zz"), Some(51_000), 200);
    assert_eq!(r.unwrap_err(), TradeError::InvalidIdentifier);
}

#[test]
fn close_by_side_uses_one_price_for_all() {
    let mut book = Book::new();
    book.open_position(&coin("BTC"), Side::Long, 1000, Some(50_000), 100, false)
        .unwrap();
    // a second long cannot exist, so close an empty side: not an error
    let none_closed = book
        .close_by_side(&coin("BTC"), Side::Short, Some(51_000), 200)
        .unwrap();
    assert_eq!(none_closed.len(), 0);
    let closed = book
        .close_by_side(&coin("btc"), Side::Long, Some(51_000), 200)
        .unwrap();
    assert_eq!(closed.len(), 1);
    assert_eq!(closed[0].exit_price, 51_000);
}

#[test]
fn close_by_side_requires_price() {
    let mut book = Book::new();
    book.open_position(&coin("BTC"), Side::Long, 1000, Some(50_000), 100, false)
        .unwrap();
    let r = book.close_by_side(&coin("BTC"), Side::Long, None, 200);
    assert_eq!(r.unwrap_err(), TradeError::PriceUnavailable);
    assert_eq!(book.positions[0].status, Status::Open);
}

#[test]
fn delete_by_id_then_not_found() {
    let mut book = Book::new();
    let receipt = book
        .open_position(&coin("BTC"), Side::Long, 1000, Some(50_000), 100, false)
        .unwrap();
    let id_text = format_id(receipt.id);
    assert!(book.delete_by_id(&id_text).is_ok());
    assert_eq!(book.positions.len(), 0);
    assert_eq!(book.delete_by_id(&id_text).unwrap_err(), TradeError::NotFound);
    assert_eq!(
        book.delete_by_id(&coin("1234")).unwrap_err(),
        TradeError::InvalidIdentifier
    );
}

#[test]
fn bulk_delete_rejects_empty_filter() {
    let mut book = Book::new();
    book.open_position(&coin("BTC"), Side::Long, 1000, Some(50_000), 100, false)
        .unwrap();
    let empty = PositionFilter { coin: None, side: None, status: None };
    assert_eq!(book.bulk_delete(&empty).unwrap_err(), TradeError::InvalidArgument);
    assert_eq!(book.positions.len(), 1);
}

#[test]
fn bulk_delete_by_coin() {
    let mut book = Book::new();
    book.open_position(&coin("BTC"), Side::Long, 1000, Some(50_000), 100, false)
        .unwrap();
    book.open_position(&coin("ETH"), Side::Long, 1000, Some(3_000), 100, false)
        .unwrap();
    let filter = PositionFilter { coin: Some(coin("btc")), side: None, status: None };
    assert_eq!(book.bulk_delete(&filter), Ok(1));
    assert_eq!(book.positions.len(), 1);
    assert_eq!(book.positions[0].coin, coin("ETH"));
}

#[test]
fn update_profits_advances_extrema() {
    let mut book = Book::new();
    book.open_position(&coin("BTC"), Side::Long, 1000, Some(50_000), 100, false)
        .unwrap();
    // price rose: unrealized profit 19.6 exceeds stored max 0
    let quotes = vec![Quote { coin: coin("btc"), price: 51_000 }];
    let updated = book.update_profits(&quotes, 150);
    assert_eq!(updated, 1);
    assert_eq!(book.positions[0].max_profit, 19_600_000);
    assert_eq!(book.positions[0].max_profit_time, Some(150));
    assert_eq!(book.positions[0].min_profit, 0);
    assert_eq!(book.positions[0].min_profit_time, None);
    // the same quote again advances nothing
    assert_eq!(book.update_profits(&quotes, 160), 0);
    // price fell: unrealized loss below stored min
    let down = vec![Quote { coin: coin("BTC"), price: 49_000 }];
    assert_eq!(book.update_profits(&down, 170), 1);
    assert_eq!(book.positions[0].min_profit, -20_400_000);
    assert_eq!(book.positions[0].min_profit_time, Some(170));
}

#[test]
fn update_profits_skips_unquoted_coins() {
    let mut book = Book::new();
    book.open_position(&coin("BTC"), Side::Long, 1000, Some(50_000), 100, false)
        .unwrap();
    let quotes = vec![Quote { coin: coin("ETH"), price: 3_000 }];
    assert_eq!(book.update_profits(&quotes, 150), 0);
    assert_eq!(book.positions[0].max_profit, 0);
}

#[test]
fn recalculate_overwrites_extrema_from_candles() {
    let mut book = Book::new();
    let receipt = book
        .open_position(&coin("BTC"), Side::Long, 1000, Some(50_000), 100, false)
        .unwrap();
    book.close_by_side(&coin("BTC"), Side::Long, Some(51_000), 200).unwrap();
    let batches = vec![CandleBatch {
        id: receipt.id,
        candles: vec![
            Candle { high: 52_000, low: 49_000, close: 51_000 },
            Candle { high: 53_000, low: 50_500, close: 52_500 },
        ],
    }];
    let updated = book.recalculate_historical(&batches);
    assert_eq!(updated, 1);
    // best: (53000-50000)*0.02 - 0.4 = 59.6; worst: (49000-50000)*0.02 - 0.4 = -20.4
    assert_eq!(book.positions[0].max_profit, 59_600_000);
    assert_eq!(book.positions[0].min_profit, -20_400_000);
}

#[test]
fn recalculate_is_idempotent_on_unchanged_candles() {
    let mut book = Book::new();
    let receipt = book
        .open_position(&coin("BTC"), Side::Long, 1000, Some(50_000), 100, false)
        .unwrap();
    book.close_by_side(&coin("BTC"), Side::Long, Some(51_000), 200).unwrap();
    let batches = vec![CandleBatch {
        id: receipt.id,
        candles: vec![Candle { high: 52_000, low: 49_000, close: 51_000 }],
    }];
    book.recalculate_historical(&batches);
    let max1 = book.positions[0].max_profit;
    let min1 = book.positions[0].min_profit;
    book.recalculate_historical(&batches);
    assert_eq!(book.positions[0].max_profit, max1);
    assert_eq!(book.positions[0].min_profit, min1);
}

#[test]
fn recalculate_skips_positions_without_candles() {
    let mut book = Book::new();
    book.open_position(&coin("BTC"), Side::Long, 1000, Some(50_000), 100, false)
        .unwrap();
    book.close_by_side(&coin("BTC"), Side::Long, Some(51_000), 200).unwrap();
    let updated = book.recalculate_historical(&vec![]);
    assert_eq!(updated, 0);
    assert_eq!(book.positions[0].max_profit, 0);
}

#[test]
fn best_performing_ranks_coins() {
    let mut book = Book::new();
    // coin X, two winning trades of +10.0 each:
    // gross = 104 * 1000 / 10000 = 10.4, fee = 0.4, net = +10.0
    for _ in 0..2 {
        book.open_position(&coin("X"), Side::Long, 1000, Some(10_000), 100, false)
            .unwrap();
        book.close_by_side(&coin("X"), Side::Long, Some(10_104), 200).unwrap();
    }
    // coin Y, one losing trade of -5.0:
    // short gross = -(46 * 1000 / 10000) = -4.6, fee = 0.4, net = -5.0
    book.open_position(&coin("Y"), Side::Short, 1000, Some(10_000), 100, false)
        .unwrap();
    book.close_by_side(&coin("Y"), Side::Short, Some(10_046), 200).unwrap();

    let coins = book.best_performing();
    assert_eq!(coins.len(), 2);
    assert_eq!(coins[0].coin, coin("X"));
    assert_eq!(coins[0].total_pnl, 20_000_000);
    assert_eq!(coins[0].trades, 2);
    assert_eq!(coins[0].wins, 2);
    assert_eq!(coins[0].losses, 0);
    assert_eq!(coins[0].win_rate, 100);
    assert_eq!(coins[1].coin, coin("Y"));
    assert_eq!(coins[1].total_pnl, -5_000_000);
    assert_eq!(coins[1].trades, 1);
    assert_eq!(coins[1].wins, 0);
    assert_eq!(coins[1].losses, 1);
    assert_eq!(coins[1].win_rate, 0);
}

#[test]
fn count_open_by_coin_and_side() {
    let mut book = Book::new();
    book.open_position(&coin("BTC"), Side::Long, 1000, Some(50_000), 100, false)
        .unwrap();
    book.open_position(&coin("ETH"), Side::Long, 1000, Some(3_000), 100, false)
        .unwrap();
    assert_eq!(book.count_open(&coin("btc"), None), 1);
    assert_eq!(book.count_open(&coin("BTC"), Some(Side::Long)), 1);
    assert_eq!(book.count_open(&coin("BTC"), Some(Side::Short)), 0);
    assert_eq!(book.count_open(&coin("DOGE"), None), 0);
}

#[test]
fn get_positions_filters_by_coin_and_status() {
    let mut book = Book::new();
    book.open_position(&coin("BTC"), Side::Long, 1000, Some(50_000), 100, false)
        .unwrap();
    book.open_position(&coin("ETH"), Side::Long, 1000, Some(3_000), 100, false)
        .unwrap();
    book.close_by_side(&coin("ETH"), Side::Long, Some(3_100), 200).unwrap();
    let all = book.get_positions(&PositionFilter { coin: None, side: None, status: None });
    assert_eq!(all.len(), 2);
    let closed = book.get_positions(&PositionFilter {
        coin: None,
        side: None,
        status: Some(Status::Closed),
    });
    assert_eq!(closed.len(), 1);
    assert_eq!(closed[0].coin, coin("ETH"));
    let btc = book.get_positions(&PositionFilter {
        coin: Some(coin("btc")),
        side: None,
        status: None,
    });
    assert_eq!(btc.len(), 1);
    assert_eq!(btc[0].coin, coin("BTC"));
}

#[test]
fn identifier_text_round_trip() {
    let text = format_id(12_345_678_901_234_567_890);
    assert_eq!(text.len(), 24);
    assert_eq!(parse_id(&text), Some(12_345_678_901_234_567_890));
    assert_eq!(parse_id(&coin("00000000000000000000000A")), Some(10));
    assert_eq!(parse_id(&coin("0000000000000000000000Ag")), None);
    assert_eq!(parse_id(&coin("abc")), None);
}

#[test]
fn table_names_and_status_words() {
    assert!(table_name_ok(&coin("positions_2024")));
    assert!(!table_name_ok(&coin("")));
    assert!(!table_name_ok(&coin("drop table")));
    assert_eq!(parse_status_word(&coin("OPEN")), Some(Status::Open));
    assert_eq!(parse_status_word(&coin("closed")), Some(Status::Closed));
    assert_eq!(parse_status_word(&coin("Close")), Some(Status::Closed));
    assert_eq!(parse_status_word(&coin("all")), None);
    let tables = visible_tables(vec![
        coin("positions"),
        coin("system.indexes"),
        coin("trades"),
    ]);
    assert_eq!(tables, vec![coin("positions"), coin("trades")]);
}

#[test]
fn open_reports_store_failure_when_identifiers_run_out() {
    let mut book = Book { positions: Vec::new(), next_id: 0x1_0000_0000_0000_0000_0000_0000 };
    let r = book.open_position(&coin("BTC"), Side::Long, 1000, Some(50_000), 100, false);
    assert_eq!(r.unwrap_err(), TradeError::StoreFailure);
    assert_eq!(book.positions.len(), 0);
}

#[test]
fn price_query_builds_market_symbol() {
    let q = tradecore::query::PriceQuery { coinname: coin("btc") };
    assert_eq!(q.market_symbol(), coin("BTCUSDT"));
}

#[test]
fn trades_query_resolves_table_and_filter() {
    let q = tradecore::query::TradesQuery {
        table_name: Some(coin("drop table")),
        coin_name: None,
        coinname: Some(coin("eth")),
        status: Some(coin("Closed")),
    };
    assert_eq!(q.table(), coin("positions"));
    let f = q.filter().unwrap();
    assert_eq!(f.coin, Some(coin("eth")));
    assert_eq!(f.status, Some(Status::Closed));
    let named = tradecore::query::TradesQuery {
        table_name: Some(coin("trades_2024")),
        coin_name: Some(coin("btc")),
        coinname: None,
        status: None,
    };
    assert_eq!(named.table(), coin("trades_2024"));
    let f2 = named.filter().unwrap();
    assert_eq!(f2.coin, Some(coin("btc")));
    assert_eq!(f2.status, None);
}

#[test]
fn trades_query_unknown_status_word_selects_nothing() {
    // the word "all", or no status, constrains nothing
    let all = tradecore::query::TradesQuery {
        table_name: None,
        coin_name: None,
        coinname: None,
        status: Some(coin("All")),
    };
    assert_eq!(all.filter().unwrap().status, None);
    // a word no record carries yields no filter: the listing holds nothing
    let unknown = tradecore::query::TradesQuery {
        table_name: None,
        coin_name: None,
        coinname: None,
        status: Some(coin("xyz")),
    };
    assert!(unknown.filter().is_none());
}

#[test]
fn update_profits_treats_zero_quote_as_unusable() {
    let mut book = Book::new();
    book.open_position(&coin("BTC"), Side::Long, 1000, Some(50_000), 100, false)
        .unwrap();
    let quotes = vec![Quote { coin: coin("BTC"), price: 0 }];
    assert_eq!(book.update_profits(&quotes, 150), 0);
    assert_eq!(book.positions[0].max_profit, 0);
    assert_eq!(book.positions[0].min_profit, 0);
}

#[test]
fn best_performing_breaks_total_ties_by_coin_name() {
    let mut book = Book::new();
    // two coins with identical single trades of +10.0 each, inserted in
    // descending name order
    for name in ["ZEC", "ADA"] {
        book.open_position(&coin(name), Side::Long, 1000, Some(10_000), 100, false)
            .unwrap();
        book.close_by_side(&coin(name), Side::Long, Some(10_104), 200).unwrap();
    }
    let coins = book.best_performing();
    assert_eq!(coins.len(), 2);
    assert_eq!(coins[0].total_pnl, coins[1].total_pnl);
    assert_eq!(coins[0].coin, coin("ADA"));
    assert_eq!(coins[1].coin, coin("ZEC"));
}
