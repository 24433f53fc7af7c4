//! The query records the transport layer hands in: the price-lookup query
//! and the trade-listing query, with the rules that turn their raw fields
//! into a market symbol, a table name and a position filter.

use vstd::prelude::*;
use crate::book::PositionFilter;
use crate::position::Status;
use crate::text::{
    spec_upper, spec_valid_table_name, spec_status_word, to_upper, table_name_ok, copy_bytes,
    parse_status_word, bytes_eq,
};

verus! {

/// A price lookup: the coin whose market price is wanted.
pub struct PriceQuery {
    pub coinname: Vec<u8>,
}

/// The quote-currency suffix every market symbol carries.
pub open spec fn spec_quote_suffix() -> Seq<u8> {
    seq![85u8, 83u8, 68u8, 84u8]
}

impl PriceQuery {
    /// The exchange market symbol for the coin: the symbol folded to upper
    /// case with the quote-currency suffix appended.
    pub fn market_symbol(&self) -> (r: Vec<u8>)
        ensures
            r@ == spec_upper(self.coinname@) + spec_quote_suffix(),
    {
        let mut r = to_upper(&self.coinname);
        r.push(85);
        r.push(83);
        r.push(68);
        r.push(84);
        proof {
            assert(r@ =~= spec_upper(self.coinname@) + spec_quote_suffix());
        }
        r
    }
}

/// A trade listing: an optional table, the coin under either of its accepted
/// spellings, and a status word.
pub struct TradesQuery {
    pub table_name: Option<Vec<u8>>,
    pub coin_name: Option<Vec<u8>>,
    pub coinname: Option<Vec<u8>>,
    pub status: Option<Vec<u8>>,
}

/// The default table a query without one reads: the word "positions".
pub open spec fn spec_default_table() -> Seq<u8> {
    seq![112u8, 111u8, 115u8, 105u8, 116u8, 105u8, 111u8, 110u8, 115u8]
}

impl TradesQuery {
    /// The table the query reads: the named one where it is a usable table
    /// name, else the default.
    pub fn table(&self) -> (r: Vec<u8>)
        ensures
            self.table_name is Some && spec_valid_table_name(self.table_name->Some_0@) ==> r@
                == self.table_name->Some_0@,
            (self.table_name is None || !spec_valid_table_name(self.table_name->Some_0@)) ==> r@
                == spec_default_table(),
    {
        match &self.table_name {
            Some(t) => {
                if table_name_ok(t) {
                    return copy_bytes(t);
                }
                let d: Vec<u8> = vec![112u8, 111u8, 115u8, 105u8, 116u8, 105u8, 111u8, 110u8, 115u8];
                proof {
                    assert(d@ =~= spec_default_table());
                }
                d
            },
            None => {
                let d: Vec<u8> = vec![112u8, 111u8, 115u8, 105u8, 116u8, 105u8, 111u8, 110u8, 115u8];
                proof {
                    assert(d@ =~= spec_default_table());
                }
                d
            },
        }
    }

    /// The position filter the query asks for. The coin is taken under its
    /// first accepted spelling; a missing status, or the word for every
    /// record, constrains nothing; a recognized status word constrains the
    /// status. A status word that names neither — one no record ever
    /// carries — selects no record at all, and the query yields no filter.
    pub fn filter(&self) -> (r: Option<PositionFilter>)
        ensures
            (r is None <==> (self.status matches Some(w) && !spec_status_selects(w@))),
            r matches Some(f) ==> {
                &&& f.side is None
                &&& (self.coin_name is Some ==> (f.coin matches Some(rc) && rc@
                    == self.coin_name->Some_0@))
                &&& ((self.coin_name is None && self.coinname is Some) ==> (f.coin matches Some(
                    rc,
                ) && rc@ == self.coinname->Some_0@))
                &&& ((self.coin_name is None && self.coinname is None) ==> f.coin is None)
                &&& f.status == (match self.status {
                    Some(w) => spec_status_word(w@),
                    None => None,
                })
            },
    {
        let status: Option<Status> = match &self.status {
            Some(w) => {
                let parsed = parse_status_word(w);
                if parsed.is_none() {
                    let upper = to_upper(w);
                    let all_w: Vec<u8> = vec![65u8, 76u8, 76u8];
                    proof {
                        assert(all_w@ =~= spec_all_word());
                    }
                    if !bytes_eq(&upper, &all_w) {
                        return None;
                    }
                }
                parsed
            },
            None => None,
        };
        let coin: Option<Vec<u8>> = match &self.coin_name {
            Some(c) => Some(copy_bytes(c)),
            None => match &self.coinname {
                Some(c) => Some(copy_bytes(c)),
                None => None,
            },
        };
        Some(PositionFilter { coin, side: None, status })
    }
}

/// The status word that asks for every record: the word "all".
pub open spec fn spec_all_word() -> Seq<u8> {
    seq![65u8, 76u8, 76u8]
}

/// Whether a status word selects any records: the word for every record, or
/// a recognized status.
pub open spec fn spec_status_selects(w: Seq<u8>) -> bool {
    spec_upper(w) == spec_all_word() || spec_status_word(w) is Some
}

} // verus!
