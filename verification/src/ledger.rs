//! Balances: funds ready to use vs funds locked in open orders, and the
//! per-user table of asset balances keyed by symbol.

use vstd::prelude::*;

verus! {

/// A split balance: funds ready to use vs funds locked in open orders.
#[derive(Debug, Clone, Copy, PartialEq, Eq, Structural)]
pub struct Balance {
    pub available: u64,
    pub locked: u64,
}

/// The balance of an account nobody has paid into yet.
pub open spec fn zero_balance() -> Balance {
    Balance { available: 0, locked: 0 }
}

impl Default for Balance {
    fn default() -> (b: Self)
        ensures
            b == zero_balance(),
    {
        Balance { available: 0, locked: 0 }
    }
}

/// The asset balances of one user, one entry per symbol.
pub struct AssetBalances {
    symbols: Vec<String>,
    balances: Vec<Balance>,
}

/// The map made of the first `n` entries (symbol, balance).
pub open spec fn entries_map(symbols: Seq<String>, balances: Seq<Balance>, n: int) -> Map<Seq<char>, Balance>
    decreases n,
{
    if n <= 0 {
        Map::empty()
    } else {
        entries_map(symbols, balances, n - 1).insert(symbols[n - 1]@, balances[n - 1])
    }
}

impl View for AssetBalances {
    type V = Map<Seq<char>, Balance>;

    closed spec fn view(&self) -> Map<Seq<char>, Balance> {
        entries_map(self.symbols@, self.balances@, self.symbols@.len() as int)
    }
}

/// The map made of the first `n` entries depends on those entries only.
proof fn lemma_entries_map_prefix(s1: Seq<String>, b1: Seq<Balance>, s2: Seq<String>, b2: Seq<Balance>, n: int)
    requires
        0 <= n <= s1.len(),
        n <= s2.len(),
        n <= b1.len(),
        n <= b2.len(),
        forall|i: int| #![trigger s1[i], s2[i]] 0 <= i < n ==> s1[i]@ == s2[i]@ && b1[i] == b2[i],
    ensures
        entries_map(s1, b1, n) == entries_map(s2, b2, n),
    decreases n,
{
    if n > 0 {
        assert(s1[n - 1]@ == s2[n - 1]@ && b1[n - 1] == b2[n - 1]);
        lemma_entries_map_prefix(s1, b1, s2, b2, n - 1);
    }
}

/// The keys of the map are the symbols among the first `n` entries.
proof fn lemma_entries_map_keys(s: Seq<String>, b: Seq<Balance>, n: int, k: Seq<char>)
    requires
        0 <= n <= s.len(),
        n <= b.len(),
    ensures
        entries_map(s, b, n).contains_key(k) <==> exists|i: int| 0 <= i < n && s[i]@ == k,
    decreases n,
{
    if n > 0 {
        lemma_entries_map_keys(s, b, n - 1, k);
        if entries_map(s, b, n - 1).contains_key(k) {
            let i = choose|i: int| 0 <= i < n - 1 && s[i]@ == k;
            assert(0 <= i < n && s[i]@ == k);
        }
    }
}

/// With distinct symbols, entry `i` is what the map holds for its symbol.
proof fn lemma_entries_map_at(s: Seq<String>, b: Seq<Balance>, n: int, i: int)
    requires
        0 <= i < n <= s.len(),
        n <= b.len(),
        forall|j: int, k: int| 0 <= j < k < n ==> s[j]@ != s[k]@,
    ensures
        entries_map(s, b, n).contains_key(s[i]@),
        entries_map(s, b, n)[s[i]@] == b[i],
    decreases n,
{
    if i < n - 1 {
        lemma_entries_map_at(s, b, n - 1, i);
    }
}

/// With distinct symbols, changing the balance of entry `i` changes the map
/// at its symbol only.
proof fn lemma_entries_map_update(s: Seq<String>, b: Seq<Balance>, n: int, i: int, v: Balance)
    requires
        0 <= i < n <= s.len(),
        n <= b.len(),
        forall|j: int, k: int| 0 <= j < k < n ==> s[j]@ != s[k]@,
    ensures
        entries_map(s, b.update(i, v), n) == entries_map(s, b, n).insert(s[i]@, v),
    decreases n,
{
    if i < n - 1 {
        lemma_entries_map_update(s, b, n - 1, i, v);
        assert(entries_map(s, b.update(i, v), n) =~= entries_map(s, b, n).insert(s[i]@, v));
    } else {
        lemma_entries_map_prefix(s, b.update(i, v), s, b, n - 1);
        assert(entries_map(s, b.update(i, v), n) =~= entries_map(s, b, n).insert(s[i]@, v));
    }
}

impl AssetBalances {
    /// Both columns have one entry per symbol and no symbol occurs twice.
    pub closed spec fn wf(&self) -> bool {
        &&& self.symbols@.len() == self.balances@.len()
        &&& forall|j: int, k: int|
            0 <= j < k < self.symbols@.len() ==> self.symbols@[j]@ != self.symbols@[k]@
    }

    /// No asset balances at all.
    pub fn new() -> (a: Self)
        ensures
            a.wf(),
            a@ == Map::<Seq<char>, Balance>::empty(),
    {
        let a = AssetBalances { symbols: Vec::new(), balances: Vec::new() };
        assert(a@ =~= Map::<Seq<char>, Balance>::empty());
        a
    }

    /// The index of `symbol`, if it has an entry.
    fn find(&self, symbol: &String) -> (r: Option<usize>)
        requires
            self.wf(),
        ensures
            match r {
                Some(i) => i < self.symbols@.len() && self.symbols@[i as int]@ == symbol@,
                None => !self@.contains_key(symbol@),
            },
    {
        let mut i: usize = 0;
        while i < self.symbols.len()
            invariant
                0 <= i <= self.symbols@.len(),
                forall|j: int| 0 <= j < i ==> (#[trigger] self.symbols@[j])@ != symbol@,
            decreases self.symbols@.len() - i,
        {
            if self.symbols[i] == *symbol {
                return Some(i);
            }
            i = i + 1;
        }
        proof {
            lemma_entries_map_keys(self.symbols@, self.balances@, self.symbols@.len() as int, symbol@);
        }
        None
    }

    /// The balance held in `symbol`, if it has an entry.
    pub fn get(&self, symbol: &String) -> (r: Option<Balance>)
        requires
            self.wf(),
        ensures
            match r {
                Some(b) => self@.contains_key(symbol@) && self@[symbol@] == b,
                None => !self@.contains_key(symbol@),
            },
    {
        match self.find(symbol) {
            Some(i) => {
                proof {
                    lemma_entries_map_at(self.symbols@, self.balances@, self.symbols@.len() as int, i as int);
                }
                Some(self.balances[i])
            },
            None => None,
        }
    }

    /// The balance held in `symbol`, created empty if there is none yet.
    pub fn balance_mut(&mut self, symbol: &String) -> (b: &mut Balance)
        requires
            old(self).wf(),
        ensures
            *b == (if old(self)@.contains_key(symbol@) { old(self)@[symbol@] } else { zero_balance() }),
            final(self).wf(),
            final(self)@ == old(self)@.insert(symbol@, *final(b)),
    {
        let i = match self.find(symbol) {
            Some(i) => {
                proof {
                    lemma_entries_map_at(self.symbols@, self.balances@, self.symbols@.len() as int, i as int);
                }
                i
            },
            None => {
                let ghost s0 = self.symbols@;
                let ghost b0 = self.balances@;
                self.symbols.push(symbol.clone());
                self.balances.push(Balance { available: 0, locked: 0 });
                proof {
                    lemma_entries_map_prefix(self.symbols@, self.balances@, s0, b0, s0.len() as int);
                    lemma_entries_map_keys(s0, b0, s0.len() as int, symbol@);
                }
                self.symbols.len() - 1
            },
        };
        let ghost s1 = self.symbols@;
        let ghost b1 = self.balances@;
        proof {
            lemma_entries_map_at(s1, b1, s1.len() as int, i as int);
            assert(self@.insert(symbol@, b1[i as int]) =~= self@);
        }
        let r = &mut self.balances[i];
        proof {
            lemma_entries_map_update(s1, b1, s1.len() as int, i as int, *final(r));
        }
        r
    }

    /// The symbols, in the order of their entries.
    pub closed spec fn symbols(&self) -> Seq<Seq<char>> {
        self.symbols@.map_values(|s: String| s@)
    }

    /// The entries enumerate the map: one entry per key, no key twice.
    pub proof fn lemma_symbols_enumerate(&self)
        requires
            self.wf(),
        ensures
            self.symbols().len() == self@.len(),
            self.symbols().no_duplicates(),
            forall|i: int| 0 <= i < self.symbols().len() ==> self@.contains_key(#[trigger] self.symbols()[i]),
            forall|k: Seq<char>| self@.contains_key(k) ==> self.symbols().contains(k),
    {
        let n = self.symbols@.len() as int;
        lemma_entries_map_len(self.symbols@, self.balances@, n);
        assert forall|i: int| 0 <= i < self.symbols().len() implies self@.contains_key(#[trigger] self.symbols()[i]) by {
            lemma_entries_map_at(self.symbols@, self.balances@, n, i);
        }
        assert forall|k: Seq<char>| self@.contains_key(k) implies self.symbols().contains(k) by {
            lemma_entries_map_keys(self.symbols@, self.balances@, n, k);
            let i = choose|i: int| 0 <= i < n && self.symbols@[i]@ == k;
            assert(self.symbols()[i] == k);
        }
    }

    /// How many symbols have an entry.
    pub fn len(&self) -> (n: usize)
        requires
            self.wf(),
        ensures
            n == self@.len(),
    {
        proof {
            lemma_entries_map_len(self.symbols@, self.balances@, self.symbols@.len() as int);
        }
        self.symbols.len()
    }

    /// Symbol and balance of entry `i` (entries in the order the symbols
    /// were first credited).
    pub fn entry(&self, i: usize) -> (r: (String, Balance))
        requires
            self.wf(),
            i < self@.len(),
        ensures
            r.0@ == self.symbols()[i as int],
            self@.contains_key(r.0@),
            self@[r.0@] == r.1,
    {
        proof {
            lemma_entries_map_len(self.symbols@, self.balances@, self.symbols@.len() as int);
            lemma_entries_map_at(self.symbols@, self.balances@, self.symbols@.len() as int, i as int);
        }
        (self.symbols[i].clone(), self.balances[i])
    }

    /// An independent copy.
    pub fn duplicate(&self) -> (c: Self)
        requires
            self.wf(),
        ensures
            c.wf(),
            c@ == self@,
            c.symbols() == self.symbols(),
    {
        let mut symbols: Vec<String> = Vec::new();
        let mut i: usize = 0;
        while i < self.symbols.len()
            invariant
                0 <= i <= self.symbols@.len(),
                symbols@.len() == i,
                forall|j: int| 0 <= j < i ==> (#[trigger] symbols@[j])@ == self.symbols@[j]@,
            decreases self.symbols@.len() - i,
        {
            symbols.push(self.symbols[i].clone());
            i = i + 1;
        }
        let c = AssetBalances { symbols, balances: self.balances.clone() };
        proof {
            lemma_entries_map_prefix(c.symbols@, c.balances@, self.symbols@, self.balances@, i as int);
            assert(c.symbols() =~= self.symbols());
        }
        c
    }
}

/// With distinct symbols, the map has one key per entry.
proof fn lemma_entries_map_len(s: Seq<String>, b: Seq<Balance>, n: int)
    requires
        0 <= n <= s.len(),
        n <= b.len(),
        forall|j: int, k: int| 0 <= j < k < s.len() ==> s[j]@ != s[k]@,
    ensures
        entries_map(s, b, n).len() == n,
        entries_map(s, b, n).dom().finite(),
    decreases n,
{
    if n > 0 {
        lemma_entries_map_len(s, b, n - 1);
        lemma_entries_map_keys(s, b, n - 1, s[n - 1]@);
    }
}

} // verus!
