//! The currency-pair store: quotes keyed by symbol, the upsert the price
//! endpoint performs, and the merge a startup feed pull applies.
//!
//! Prices are carried as integer micro-units (one one-millionth of the
//! quoted unit), so a quote of one and one tenth is 1_100_000.

use vstd::prelude::*;

verus! {

/// One currency pair: a symbol such as a six-letter pair code, and its
/// price in micro-units.
pub struct ForexPair {
    pub symbol: String,
    pub price_micros: u64,
}

/// Mathematical model of a currency pair.
pub ghost struct PairV {
    pub symbol: Seq<char>,
    pub price_micros: u64,
}

impl View for ForexPair {
    type V = PairV;

    open spec fn view(&self) -> PairV {
        PairV { symbol: self.symbol@, price_micros: self.price_micros }
    }
}

impl Clone for ForexPair {
    fn clone(&self) -> (r: Self)
        ensures
            r == *self,
    {
        ForexPair { symbol: self.symbol.clone(), price_micros: self.price_micros }
    }
}

/// True when no two pairs in the sequence quote the same symbol.
pub open spec fn pair_symbols_unique(s: Seq<ForexPair>) -> bool {
    forall|i: int, j: int| 0 <= i < j < s.len() ==> s[i].symbol@ != s[j].symbol@
}

/// The map a pair sequence denotes: symbol to quote, later entries winning.
pub open spec fn pair_map_of(s: Seq<ForexPair>) -> Map<Seq<char>, PairV>
    decreases s.len(),
{
    if s.len() == 0 {
        Map::empty()
    } else {
        pair_map_of(s.drop_last()).insert(s.last().symbol@, s.last()@)
    }
}

/// A symbol is in the denoted map exactly when some entry quotes it.
pub proof fn lemma_pair_map_domain(s: Seq<ForexPair>)
    ensures
        forall|k: Seq<char>|
            pair_map_of(s).contains_key(k) <==> (exists|i: int|
                0 <= i < s.len() && s[i].symbol@ == k),
    decreases s.len(),
{
    if s.len() > 0 {
        lemma_pair_map_domain(s.drop_last());
        assert forall|k: Seq<char>| pair_map_of(s).contains_key(k) implies (exists|i: int|
            0 <= i < s.len() && s[i].symbol@ == k) by {
            if k == s.last().symbol@ {
                assert(s[s.len() - 1].symbol@ == k);
            } else {
                assert(pair_map_of(s.drop_last()).contains_key(k));
                let i = choose|i: int| 0 <= i < s.drop_last().len() && s.drop_last()[i].symbol@
                    == k;
                assert(s.drop_last()[i] == s[i]);
                assert(s[i].symbol@ == k);
            }
        }
        assert forall|k: Seq<char>| (exists|i: int| 0 <= i < s.len() && s[i].symbol@ == k) implies
            pair_map_of(s).contains_key(k) by {
            let i = choose|i: int| 0 <= i < s.len() && s[i].symbol@ == k;
            if i < s.len() - 1 {
                assert(s.drop_last()[i] == s[i]);
                assert(s.drop_last()[i].symbol@ == k);
                assert(pair_map_of(s.drop_last()).contains_key(k));
            } else {
                assert(k == s.last().symbol@);
            }
        }
    }
}

/// With unique symbols, the entry at any position is what the map holds.
pub proof fn lemma_pair_map_get(s: Seq<ForexPair>, i: int)
    requires
        pair_symbols_unique(s),
        0 <= i < s.len(),
    ensures
        pair_map_of(s).contains_key(s[i].symbol@),
        pair_map_of(s)[s[i].symbol@] == s[i]@,
    decreases s.len(),
{
    if i < s.len() - 1 {
        lemma_pair_map_get(s.drop_last(), i);
        assert(s.drop_last()[i] == s[i]);
        assert(s[i].symbol@ != s.last().symbol@);
    }
}

/// Replacing the entry that quotes a symbol updates the map at that symbol.
pub proof fn lemma_pair_map_update(s: Seq<ForexPair>, i: int, t: ForexPair)
    requires
        pair_symbols_unique(s),
        0 <= i < s.len(),
        s[i].symbol@ == t.symbol@,
    ensures
        pair_map_of(s.update(i, t)) == pair_map_of(s).insert(t.symbol@, t@),
    decreases s.len(),
{
    let su = s.update(i, t);
    if i == s.len() - 1 {
        assert(su.drop_last() =~= s.drop_last());
        assert(su.last() == t);
        assert(pair_map_of(su) == pair_map_of(s.drop_last()).insert(t.symbol@, t@));
        assert(pair_map_of(s.drop_last()).insert(t.symbol@, t@) =~= pair_map_of(
            s.drop_last(),
        ).insert(s.last().symbol@, s.last()@).insert(t.symbol@, t@));
    } else {
        assert(su.drop_last() =~= s.drop_last().update(i, t));
        assert(su.last() == s.last());
        assert forall|a: int, b: int|
            0 <= a < b < s.drop_last().len() implies s.drop_last()[a].symbol@
            != s.drop_last()[b].symbol@ by {
            assert(s.drop_last()[a] == s[a] && s.drop_last()[b] == s[b]);
        }
        lemma_pair_map_update(s.drop_last(), i, t);
        assert(s[i].symbol@ != s.last().symbol@);
        assert(pair_map_of(su) == pair_map_of(s.drop_last()).insert(t.symbol@, t@).insert(
            s.last().symbol@,
            s.last()@,
        ));
        assert(pair_map_of(s.drop_last()).insert(t.symbol@, t@).insert(s.last().symbol@, s.last()@)
            =~= pair_map_of(s.drop_last()).insert(s.last().symbol@, s.last()@).insert(
            t.symbol@,
            t@,
        ));
    }
}

/// A feed batch as symbol and micro-unit price pairs, at the model level.
pub open spec fn rate_views(rs: Seq<(String, u64)>) -> Seq<(Seq<char>, u64)> {
    rs.map_values(|r: (String, u64)| (r.0@, r.1))
}

/// The map after a whole batch of upserts, earlier to later: a later entry
/// for a symbol silently overwrites an earlier one.
pub open spec fn upsert_all(m: Map<Seq<char>, PairV>, rates: Seq<(Seq<char>, u64)>) -> Map<
    Seq<char>,
    PairV,
>
    decreases rates.len(),
{
    if rates.len() == 0 {
        m
    } else {
        upsert_all(m, rates.drop_last()).insert(
            rates.last().0,
            PairV { symbol: rates.last().0, price_micros: rates.last().1 },
        )
    }
}

/// The last price a batch reports for a symbol, if the batch mentions it.
pub open spec fn last_rate(rates: Seq<(Seq<char>, u64)>, sym: Seq<char>) -> Option<u64>
    decreases rates.len(),
{
    if rates.len() == 0 {
        None
    } else if rates.last().0 == sym {
        Some(rates.last().1)
    } else {
        last_rate(rates.drop_last(), sym)
    }
}

/// What a feed merge does to every symbol: one the batch mentions ends at
/// the batch's last price for it, and one the batch never mentions keeps
/// its old quote untouched, present or absent as before.
pub proof fn lemma_merge_effect(m: Map<Seq<char>, PairV>, rates: Seq<(Seq<char>, u64)>)
    ensures
        forall|sym: Seq<char>|
            #![trigger last_rate(rates, sym)]
            match last_rate(rates, sym) {
                Some(p) => upsert_all(m, rates).contains_key(sym) && upsert_all(m, rates)[sym]
                    == (PairV { symbol: sym, price_micros: p }),
                None => upsert_all(m, rates).contains_key(sym) == m.contains_key(sym) && (
                m.contains_key(sym) ==> upsert_all(m, rates)[sym] == m[sym]),
            },
    decreases rates.len(),
{
    if rates.len() > 0 {
        lemma_merge_effect(m, rates.drop_last());
        assert forall|sym: Seq<char>|
            #![trigger last_rate(rates, sym)]
            match last_rate(rates, sym) {
                Some(p) => upsert_all(m, rates).contains_key(sym) && upsert_all(m, rates)[sym]
                    == (PairV { symbol: sym, price_micros: p }),
                None => upsert_all(m, rates).contains_key(sym) == m.contains_key(sym) && (
                m.contains_key(sym) ==> upsert_all(m, rates)[sym] == m[sym]),
            } by {
            if sym == rates.last().0 {
                assert(last_rate(rates, sym) == Some(rates.last().1));
            } else {
                assert(last_rate(rates, sym) == last_rate(rates.drop_last(), sym));
            }
        }
    }
}

/// The in-memory quote store: one entry per symbol.
pub struct ForexDatabase {
    pub pairs: Vec<ForexPair>,
}

impl ForexDatabase {
    /// Symbols are unique across the store.
    pub open spec fn wf(self) -> bool {
        pair_symbols_unique(self.pairs@)
    }

    /// The quote collection as a map from symbol to quote.
    pub open spec fn pair_map(self) -> Map<Seq<char>, PairV> {
        pair_map_of(self.pairs@)
    }

    /// An empty quote store.
    pub fn new() -> (db: ForexDatabase)
        ensures
            db.wf(),
            db.pair_map() == Map::<Seq<char>, PairV>::empty(),
            db.pairs@.len() == 0,
    {
        ForexDatabase { pairs: Vec::new() }
    }

    /// Upserts the quote for a symbol: an existing entry is replaced whole,
    /// an absent one is created. Never fails on valid input.
    pub fn update(&mut self, symbol: &String, price_micros: u64)
        requires
            old(self).wf(),
        ensures
            final(self).wf(),
            final(self).pair_map() == old(self).pair_map().insert(
                symbol@,
                PairV { symbol: symbol@, price_micros },
            ),
    {
        let pair = ForexPair { symbol: symbol.clone(), price_micros };
        let ghost s0 = old(self).pairs@;
        let mut i: usize = 0;
        while i < self.pairs.len()
            invariant
                self.pairs@ == s0,
                s0 == old(self).pairs@,
                pair.symbol@ == symbol@,
                pair.price_micros == price_micros,
                pair_symbols_unique(s0),
                i <= s0.len(),
                forall|j: int| 0 <= j < i ==> s0[j].symbol@ != symbol@,
            decreases s0.len() - i,
        {
            if self.pairs[i].symbol == *symbol {
                proof {
                    lemma_pair_map_update(s0, i as int, pair);
                }
                self.pairs.set(i, pair);
                proof {
                    assert(self.pairs@ == s0.update(i as int, pair));
                    assert forall|a: int, b: int|
                        0 <= a < b < self.pairs@.len() implies self.pairs@[a].symbol@
                        != self.pairs@[b].symbol@ by {
                        assert(s0[a].symbol@ != s0[b].symbol@);
                        assert(s0[i as int].symbol@ == pair.symbol@);
                        if a == i {
                            assert(self.pairs@[a].symbol@ == pair.symbol@ && self.pairs@[b].symbol@
                                == s0[b].symbol@);
                        } else if b == i {
                            assert(self.pairs@[a].symbol@ == s0[a].symbol@ && self.pairs@[b].symbol@
                                == pair.symbol@);
                        } else {
                            assert(self.pairs@[a].symbol@ == s0[a].symbol@ && self.pairs@[b].symbol@
                                == s0[b].symbol@);
                        }
                    }
                }
                return ;
            }
            i += 1;
        }
        self.pairs.push(pair);
        proof {
            assert(self.pairs@.drop_last() =~= s0);
            assert(self.pairs@.last() == pair);
            assert forall|a: int, b: int|
                0 <= a < b < self.pairs@.len() implies self.pairs@[a].symbol@
                != self.pairs@[b].symbol@ by {
                if b == s0.len() {
                    assert(s0[a].symbol@ != pair.symbol@);
                } else {
                    assert(s0[a].symbol@ != s0[b].symbol@);
                }
            }
        }
    }

    /// Seeds the store with its default pairs, each quoted at one unit.
    pub fn preload(&mut self)
        requires
            old(self).wf(),
        ensures
            final(self).wf(),
            final(self).pair_map() == old(self).pair_map().insert(
                "EURUSD"@,
                PairV { symbol: "EURUSD"@, price_micros: 1000000u64 },
            ).insert("USDJPY"@, PairV { symbol: "USDJPY"@, price_micros: 1000000u64 }),
    {
        let eur: String = "EURUSD".to_owned();
        self.update(&eur, 1000000);
        let jpy: String = "USDJPY".to_owned();
        self.update(&jpy, 1000000);
    }

    /// Looks the quote for a symbol up; an absent symbol yields nothing.
    pub fn get(&self, symbol: &String) -> (r: Option<&ForexPair>)
        requires
            self.wf(),
        ensures
            match r {
                Some(p) => self.pair_map().contains_key(symbol@) && self.pair_map()[symbol@] == p@
                    && p.symbol@ == symbol@,
                None => !self.pair_map().contains_key(symbol@),
            },
    {
        let mut i: usize = 0;
        while i < self.pairs.len()
            invariant
                self.wf(),
                i <= self.pairs@.len(),
                forall|j: int| 0 <= j < i ==> self.pairs@[j].symbol@ != symbol@,
            decreases self.pairs@.len() - i,
        {
            if self.pairs[i].symbol == *symbol {
                proof {
                    lemma_pair_map_get(self.pairs@, i as int);
                }
                return Some(&self.pairs[i]);
            }
            i += 1;
        }
        proof {
            lemma_pair_map_domain(self.pairs@);
        }
        None
    }

    /// Every quote in the store, in insertion order.
    pub fn get_all(&self) -> (r: Vec<ForexPair>)
        ensures
            r@ == self.pairs@,
    {
        let mut r: Vec<ForexPair> = Vec::new();
        let mut i: usize = 0;
        while i < self.pairs.len()
            invariant
                i <= self.pairs@.len(),
                r@ == self.pairs@.take(i as int),
            decreases self.pairs@.len() - i,
        {
            r.push(self.pairs[i].clone());
            proof {
                assert(self.pairs@.take((i + 1) as int) =~= self.pairs@.take(i as int).push(
                    self.pairs@[i as int],
                ));
            }
            i += 1;
        }
        proof {
            assert(self.pairs@.take(self.pairs@.len() as int) =~= self.pairs@);
        }
        r
    }

    /// Merges one decoded feed batch into the store, in batch order: an
    /// unconditional upsert per entry, so a later entry for a symbol wins
    /// and a symbol the batch never mentions keeps its quote.
    pub fn merge_rates(&mut self, rates: &Vec<(String, u64)>)
        requires
            old(self).wf(),
        ensures
            final(self).wf(),
            final(self).pair_map() == upsert_all(old(self).pair_map(), rate_views(rates@)),
    {
        let ghost rv = rate_views(rates@);
        let mut i: usize = 0;
        while i < rates.len()
            invariant
                rv == rate_views(rates@),
                i <= rates@.len(),
                rv.len() == rates@.len(),
                self.wf(),
                self.pair_map() == upsert_all(old(self).pair_map(), rv.take(i as int)),
            decreases rates@.len() - i,
        {
            let entry = &rates[i];
            self.update(&entry.0, entry.1);
            proof {
                assert(rv[i as int] == (rates@[i as int].0@, rates@[i as int].1));
                assert(rv.take((i + 1) as int).drop_last() =~= rv.take(i as int));
                assert(rv.take((i + 1) as int).last() == rv[i as int]);
            }
            i += 1;
        }
        proof {
            assert(rv.take(rv.len() as int) =~= rv);
        }
    }
}

} // verus!
