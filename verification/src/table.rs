//! The frequency table and its mathematical model, a `Multiset<u64>`.

use crate::symbol::{codes, Symbol};
use std::collections::HashMap;
use vstd::multiset::Multiset;
use vstd::prelude::*;
use vstd::std_specs::iter::IteratorSpec;

verus! {

/// The multiset in which each key of `counts` occurs as often as its value
/// says, and nothing else occurs at all.
spec fn multiset_of(counts: Map<u64, u64>) -> Multiset<u64> {
    Multiset::from_map(counts.map_values(|c: u64| c as nat))
}

/// How often a symbol occurs in `multiset_of(counts)`.
proof fn lemma_multiset_of_count(counts: Map<u64, u64>, symbol: u64)
    requires
        counts.dom().finite(),
    ensures
        multiset_of(counts).count(symbol) == if counts.contains_key(symbol) {
            counts[symbol] as nat
        } else {
            0
        },
{
    broadcast use vstd::multiset::group_multiset_axioms;

    let lifted = counts.map_values(|c: u64| c as nat);
    assert(lifted.dom() =~= counts.dom());
}

/// The symbols that `pairs` lists, in order.
pub open spec fn symbols_of(pairs: Seq<(u64, u64)>) -> Seq<u64> {
    pairs.map_values(|p: (u64, u64)| p.0)
}

/// `pairs` lists every distinct symbol of `m` exactly once, each beside the
/// number of times it occurs in `m`. This fixes `pairs` up to its order.
pub open spec fn enumerates(pairs: Seq<(u64, u64)>, m: Multiset<u64>) -> bool {
    &&& symbols_of(pairs).no_duplicates()
    &&& forall|s: u64| symbols_of(pairs).contains(s) <==> m.count(s) > 0
    &&& forall|i: int|
        0 <= i < pairs.len() ==> (#[trigger] pairs[i]).1 as nat == m.count(pairs[i].0)
}

/// Occurrence counts of the symbols seen so far.
pub struct FrequencyTable {
    counts: HashMap<u64, u64>,
    total: u64,
}

impl View for FrequencyTable {
    type V = Multiset<u64>;

    closed spec fn view(&self) -> Multiset<u64> {
        multiset_of(self.counts@)
    }
}

impl FrequencyTable {
    /// Well-formedness: every stored counter is positive, and the running
    /// total is the number of symbols recorded. Every constructor establishes
    /// it and every method preserves it.
    pub closed spec fn wf(&self) -> bool {
        &&& forall|s: u64| #[trigger] self.counts@.contains_key(s) ==> self.counts@[s] >= 1
        &&& self.total as nat == self@.len()
    }

    /// The stored keys are exactly the symbols that occur in the view.
    proof fn lemma_dom(&self)
        requires
            self.wf(),
        ensures
            self.counts@.dom() =~= self@.dom(),
    {
        assert forall|s: u64| self.counts@.dom().contains(s) <==> self@.dom().contains(s) by {
            lemma_multiset_of_count(self.counts@, s);
        }
    }

    /// The table of the empty input.
    pub fn new() -> (table: Self)
        ensures
            table.wf(),
            table@ == Multiset::<u64>::empty(),
    {
        let counts: HashMap<u64, u64> = HashMap::new();
        proof {
            broadcast use vstd::multiset::group_multiset_axioms;

            assert forall|s: u64| multiset_of(counts@).count(s) == 0 by {
                lemma_multiset_of_count(counts@, s);
            }
            assert(multiset_of(counts@) =~= Multiset::<u64>::empty());
        }
        FrequencyTable { counts, total: 0 }
    }

    /// Counts one more occurrence of the symbol with code `symbol`. The
    /// counters are 64 bits wide, so the table must hold fewer than `u64::MAX`
    /// symbols.
    pub fn record(&mut self, symbol: u64)
        requires
            old(self).wf(),
            old(self)@.len() < u64::MAX,
        ensures
            final(self).wf(),
            final(self)@ == old(self)@.insert(symbol),
    {
        proof {
            broadcast use vstd::multiset::group_multiset_axioms;

            lemma_multiset_of_count(self.counts@, symbol);
        }
        let ghost before = self.counts@;
        let counter = self.counts.entry(symbol).or_insert(0);
        *counter += 1;
        self.total += 1;
        proof {
            broadcast use vstd::multiset::group_multiset_axioms;
            broadcast use vstd::multiset::group_multiset_properties;

            let after = self.counts@;
            assert forall|s: u64|
                multiset_of(after).count(s) == multiset_of(before).insert(symbol).count(s) by {
                lemma_multiset_of_count(before, s);
                lemma_multiset_of_count(after, s);
            }
            assert(multiset_of(after) =~= multiset_of(before).insert(symbol));
        }
    }

    /// The table of `symbols`: the code of each symbol as often as the symbol
    /// occurs in the slice, whatever the order.
    pub fn tally<T: Symbol>(symbols: &[T]) -> (table: Self)
        ensures
            table.wf(),
            table@ == codes(symbols@).to_multiset(),
            table@.len() == symbols@.len(),
    {
        let ghost all = codes(symbols@);
        let mut table = FrequencyTable::new();
        proof {
            broadcast use vstd::multiset::group_multiset_axioms;

            all.take(0).to_multiset_ensures();
            assert(all.take(0).to_multiset() =~= Multiset::<u64>::empty());
        }
        for i in 0..symbols.len()
            invariant
                all == codes(symbols@),
                table.wf(),
                table@ == all.take(i as int).to_multiset(),
        {
            proof {
                all.take(i as int).to_multiset_ensures();
                assert(all.take(i + 1) =~= all.take(i as int).push(symbols@[i as int].code_of()));
            }
            table.record(symbols[i].code());
        }
        proof {
            assert(all.take(symbols.len() as int) =~= all);
            all.to_multiset_ensures();
        }
        table
    }

    /// How many symbols were recorded, repeats included.
    pub fn total(&self) -> (n: u64)
        requires
            self.wf(),
        ensures
            n == self@.len(),
    {
        self.total
    }

    /// Whether nothing was recorded.
    pub fn is_empty(&self) -> (b: bool)
        requires
            self.wf(),
        ensures
            b == (self@.len() == 0),
    {
        self.total == 0
    }

    /// How often the symbol with code `symbol` was recorded; zero if never.
    pub fn count(&self, symbol: u64) -> (c: u64)
        requires
            self.wf(),
        ensures
            c == self@.count(symbol),
    {
        proof {
            lemma_multiset_of_count(self.counts@, symbol);
        }
        match self.counts.get(&symbol) {
            Some(c) => *c,
            None => 0,
        }
    }

    /// How many different symbols were recorded.
    pub fn distinct(&self) -> (k: usize)
        requires
            self.wf(),
        ensures
            k == self@.dom().len(),
    {
        proof {
            self.lemma_dom();
        }
        self.counts.len()
    }

    /// The codes of the distinct symbols with their counts, each symbol
    /// once, in no particular order.
    pub fn entries(&self) -> (pairs: Vec<(u64, u64)>)
        requires
            self.wf(),
        ensures
            enumerates(pairs@, self@),
            pairs.len() == self@.dom().len(),
    {
        let mut pairs: Vec<(u64, u64)> = Vec::new();
        let ghost stored: Seq<(&u64, &u64)> = self.counts.iter().remaining();
        proof {
            vstd::std_specs::hash::axiom_spec_hash_map_iter(&self.counts);
        }
        for entry in it: self.counts.iter()
            invariant
                it.seq() == stored,
                stored.no_duplicates(),
                pairs.len() == it.index(),
                forall|j: int|
                    0 <= j < pairs.len() ==> (#[trigger] pairs[j]).0 == *stored[j].0 && pairs[j].1
                        == *stored[j].1,
        {
            pairs.push((*entry.0, *entry.1));
        }
        proof {
            self.lemma_dom();
            let listed = symbols_of(pairs@);
            assert forall|i: int| 0 <= i < pairs.len() implies self.counts@.contains_key(
                #[trigger] listed[i],
            ) && self.counts@[listed[i]] == pairs[i].1 by {
                assert(self.counts@.contains_key(*stored[i].0));
            }
            assert forall|i: int, j: int|
                0 <= i < listed.len() && 0 <= j < listed.len() && i != j implies listed[i]
                != listed[j] by {
                assert(stored[i] != stored[j]);
                assert(self.counts@.contains_key(listed[i]) && self.counts@.contains_key(listed[j]));
            }
            assert forall|s: u64| listed.contains(s) <==> self@.count(s) > 0 by {
                if self.counts@.contains_key(s) {
                    let at = stored.index_of((&s, &self.counts@[s]));
                    assert(listed[at] == s);
                }
            }
            assert forall|i: int| 0 <= i < pairs.len() implies (#[trigger] pairs[i]).1 as nat
                == self@.count(pairs[i].0) by {
                assert(self.counts@.contains_key(listed[i]));
                lemma_multiset_of_count(self.counts@, pairs[i].0);
            }
        }
        pairs
    }
}

} // verus!
