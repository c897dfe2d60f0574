//! Engine state: balances and the SOL order book, all in one place.

use std::collections::HashMap;
use vstd::prelude::*;
use crate::book_model::BookView;
use crate::ledger::{zero_balance, AssetBalances, Balance};
use crate::orderbook::Orderbook;

verus! {

broadcast use vstd::std_specs::hash::group_hash_axioms;

/// The symbol of the one asset the book trades.
pub open spec fn sol_symbol() -> Seq<char> {
    seq!['s', 'o', 'l']
}

/// `sol_symbol` as a `String`.
pub fn sol_string() -> (s: String)
    ensures
        s@ == sol_symbol(),
{
    let s = "sol".to_owned();
    proof {
        reveal_strlit("sol");
        assert(s@ =~= sol_symbol());
    }
    s
}

/// Whether `asset` is the one asset the exchange trades ("sol").
pub fn supported_asset(asset: &String) -> (b: bool)
    ensures
        b == (asset@ == sol_symbol()),
{
    let sol = sol_string();
    *asset == sol
}

/// The abstract state of the engine: USD balance per user, asset balances
/// per user and symbol, and the SOL book.
pub struct EngineView {
    pub usd: Map<u64, Balance>,
    pub assets: Map<u64, Map<Seq<char>, Balance>>,
    pub book: BookView,
}

/// The USD balance of `user` (zero if there is no entry).
pub open spec fn usd_of(v: EngineView, user: u64) -> Balance {
    if v.usd.contains_key(user) {
        v.usd[user]
    } else {
        zero_balance()
    }
}

/// The asset balances of `user` (none if there is no entry).
pub open spec fn assets_of(v: EngineView, user: u64) -> Map<Seq<char>, Balance> {
    if v.assets.contains_key(user) {
        v.assets[user]
    } else {
        Map::empty()
    }
}

/// The balance of `user` in `symbol` (zero if there is no entry).
pub open spec fn asset_of(v: EngineView, user: u64, symbol: Seq<char>) -> Balance {
    if assets_of(v, user).contains_key(symbol) {
        assets_of(v, user)[symbol]
    } else {
        zero_balance()
    }
}

/// The SOL balance of `user`.
pub open spec fn sol_of(v: EngineView, user: u64) -> Balance {
    asset_of(v, user, sol_symbol())
}

/// The state with the USD balance of `user` set to `b` (entry created if missing).
pub open spec fn with_usd(v: EngineView, user: u64, b: Balance) -> EngineView {
    EngineView { usd: v.usd.insert(user, b), ..v }
}

/// The state with the balance of `user` in `symbol` set to `b` (entries
/// created if missing).
pub open spec fn with_asset(v: EngineView, user: u64, symbol: Seq<char>, b: Balance) -> EngineView {
    EngineView { assets: v.assets.insert(user, assets_of(v, user).insert(symbol, b)), ..v }
}

/// The state with the SOL balance of `user` set to `b`.
pub open spec fn with_sol(v: EngineView, user: u64, b: Balance) -> EngineView {
    with_asset(v, user, sol_symbol(), b)
}

/// The asset balances of a user as a map from symbol to balance.
pub open spec fn assets_view() -> spec_fn(AssetBalances) -> Map<Seq<char>, Balance> {
    |a: AssetBalances| a@
}

/// Balances and the order book of the engine.
pub struct EngineState {
    /// USD balance per user: user_id → { available, locked }
    pub usd_balance: HashMap<u64, Balance>,
    /// Asset balances per user per symbol: user_id → symbol → { available, locked }
    pub stock_balance: HashMap<u64, AssetBalances>,
    /// The SOL/USD order book (the only market supported).
    pub sol_orderbook: Orderbook,
}

impl View for EngineState {
    type V = EngineView;

    open spec fn view(&self) -> EngineView {
        EngineView {
            usd: self.usd_balance@,
            assets: self.stock_balance@.map_values(assets_view()),
            book: self.sol_orderbook@,
        }
    }
}

/// Replacing the table of one user changes the map of tables at that user only.
proof fn lemma_assets_insert(m: Map<u64, AssetBalances>, user: u64)
    ensures
        forall|t: AssetBalances|
            #[trigger] m.insert(user, t).map_values(assets_view()) == m.map_values(assets_view()).insert(user, t@),
{
    assert forall|t: AssetBalances|
        #[trigger] m.insert(user, t).map_values(assets_view()) == m.map_values(assets_view()).insert(user, t@) by {
        assert(m.insert(user, t).map_values(assets_view()) =~= m.map_values(assets_view()).insert(user, t@));
    }
}

impl EngineState {
    /// The book is valid and every user's asset table is well formed.
    pub open spec fn wf(&self) -> bool {
        &&& self.sol_orderbook.wf()
        &&& forall|u: u64| #[trigger] self.stock_balance@.contains_key(u) ==> self.stock_balance@[u].wf()
    }

    /// No balances and an empty SOL book.
    pub fn new() -> (s: Self)
        ensures
            s.wf(),
            s@.usd == Map::<u64, Balance>::empty(),
            s@.assets == Map::<u64, Map<Seq<char>, Balance>>::empty(),
            s@.book.symbol == "SOL-USDT"@,
            s@.book.next_order_id == 1,
            s@.book.bids.len() == 0,
            s@.book.asks.len() == 0,
    {
        let s = EngineState {
            usd_balance: HashMap::new(),
            stock_balance: HashMap::new(),
            sol_orderbook: Orderbook::new("SOL-USDT"),
        };
        assert(s@.assets =~= Map::<u64, Map<Seq<char>, Balance>>::empty());
        s
    }

    /// Wipe everything: balances and the book.
    pub fn reset(&mut self)
        requires
            old(self).wf(),
        ensures
            final(self).wf(),
            final(self)@.usd == Map::<u64, Balance>::empty(),
            final(self)@.assets == Map::<u64, Map<Seq<char>, Balance>>::empty(),
            final(self)@.book == (BookView {
                symbol: old(self)@.book.symbol,
                next_order_id: 1,
                bids: Seq::empty(),
                asks: Seq::empty(),
            }),
    {
        self.usd_balance.clear();
        self.stock_balance.clear();
        self.sol_orderbook.reset();
        assert(self@.assets =~= Map::<u64, Map<Seq<char>, Balance>>::empty());
    }

    /// The USD balance of `user_id`, created empty if there is none yet.
    pub fn usd_mut(&mut self, user_id: u64) -> (b: &mut Balance)
        ensures
            *b == usd_of(old(self)@, user_id),
            final(self)@ == with_usd(old(self)@, user_id, *final(b)),
            final(self).stock_balance@ == old(self).stock_balance@,
            final(self).sol_orderbook == old(self).sol_orderbook,
    {
        self.usd_balance.entry(user_id).or_insert(Balance { available: 0, locked: 0 })
    }

    /// The SOL balance of `user_id`, created empty (with the user's asset
    /// table) if there is none yet.
    pub fn sol_mut(&mut self, user_id: u64) -> (b: &mut Balance)
        requires
            old(self).wf(),
        ensures
            final(self).wf(),
            *b == sol_of(old(self)@, user_id),
            final(self)@ == with_sol(old(self)@, user_id, *final(b)),
    {
        let sol = sol_string();
        self.asset_mut(user_id, &sol)
    }

    /// The balance of `user_id` in `symbol`, created empty (with the user's
    /// asset table) if there is none yet.
    pub fn asset_mut(&mut self, user_id: u64, symbol: &String) -> (b: &mut Balance)
        requires
            old(self).wf(),
        ensures
            final(self).wf(),
            *b == asset_of(old(self)@, user_id, symbol@),
            final(self)@ == with_asset(old(self)@, user_id, symbol@, *final(b)),
    {
        proof {
            lemma_assets_insert(self.stock_balance@, user_id);
        }
        let table = self.stock_balance.entry(user_id).or_insert(AssetBalances::new());
        table.balance_mut(symbol)
    }

    /// The asset table of `user_id`, created empty if there is none yet.
    pub fn assets_mut(&mut self, user_id: u64) -> (t: &mut AssetBalances)
        requires
            old(self).wf(),
        ensures
            t.wf(),
            t@ == assets_of(old(self)@, user_id),
            final(t).wf() ==> final(self).wf(),
            final(self)@ == (EngineView { assets: old(self)@.assets.insert(user_id, final(t)@), ..old(self)@ }),
    {
        proof {
            lemma_assets_insert(self.stock_balance@, user_id);
        }
        self.stock_balance.entry(user_id).or_insert(AssetBalances::new())
    }
}

} // verus!
