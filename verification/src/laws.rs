//! What holds of every frequency table, stated over the multiset model:
//! that the order of the input does not matter, that the counts are proper
//! shares of the total and add up to it, and what this makes of the entropy
//! in exact arithmetic.

use crate::symbol::{codes, Symbol};
use crate::table::{enumerates, symbols_of};
use vstd::arithmetic::power::{lemma_pow_adds, pow};
use vstd::multiset::Multiset;
use vstd::prelude::*;

verus! {

/// `ys` holds the items of `xs` in another order: the item at place `i` of
/// `ys` is the one at place `at[i]` of `xs`, and no place of `xs` is used
/// twice.
pub open spec fn rearranges<T>(at: Seq<int>, xs: Seq<T>, ys: Seq<T>) -> bool {
    &&& at.len() == xs.len()
    &&& ys.len() == xs.len()
    &&& at.no_duplicates()
    &&& forall|i: int| 0 <= i < at.len() ==> 0 <= #[trigger] at[i] < xs.len() && ys[i] == xs[at[i]]
}

/// The counts that `pairs` lists, added up.
pub open spec fn sum_of_counts(pairs: Seq<(u64, u64)>) -> nat
    decreases pairs.len(),
{
    if pairs.len() == 0 {
        0
    } else {
        sum_of_counts(pairs.drop_last()) + pairs.last().1 as nat
    }
}

/// The product, over the listed counts `c`, of `c` to the power `c`.
///
/// With `n` symbols in all, the entropy `h` of the table satisfies
/// `2^(n * h) == n^n / product_of_self_powers` in exact arithmetic.
pub open spec fn product_of_self_powers(pairs: Seq<(u64, u64)>) -> int
    decreases pairs.len(),
{
    if pairs.len() == 0 {
        1
    } else {
        product_of_self_powers(pairs.drop_last()) * pow(
            pairs.last().1 as int,
            pairs.last().1 as nat,
        )
    }
}

/// Order invariance: a sequence of symbols and any rearrangement of it have
/// the same frequency table.
pub proof fn lemma_order_invariance<T: Symbol>(at: Seq<int>, xs: Seq<T>, ys: Seq<T>)
    requires
        rearranges(at, xs, ys),
    ensures
        codes(xs).to_multiset() == codes(ys).to_multiset(),
{
    assert forall|i: int| 0 <= i < at.len() implies 0 <= #[trigger] at[i] < codes(xs).len()
        && codes(ys)[i] == codes(xs)[at[i]] by {
        assert(0 <= at[i] < xs.len() && ys[i] == xs[at[i]]);
    }
    lemma_rearranged_codes(at, codes(xs), codes(ys));
}

/// A sequence of codes and any rearrangement of it hold every code equally
/// often.
proof fn lemma_rearranged_codes(at: Seq<int>, xs: Seq<u64>, ys: Seq<u64>)
    requires
        rearranges(at, xs, ys),
    ensures
        xs.to_multiset() == ys.to_multiset(),
    decreases xs.len(),
{
    broadcast use vstd::multiset::group_multiset_axioms;

    if xs.len() == 0 {
        assert(xs =~= ys);
    } else {
        let n = xs.len() as int;
        let k = at[n - 1];
        let shorter_xs = xs.remove(k);
        let shorter_ys = ys.drop_last();
        let shorter_at = Seq::new(
            (n - 1) as nat,
            |i: int|
                if at[i] > k {
                    at[i] - 1
                } else {
                    at[i]
                },
        );
        assert forall|i: int| 0 <= i < n - 1 implies at[i] != k by {
            assert(at[i] != at[n - 1]);
        }
        assert forall|i: int, j: int|
            0 <= i < n - 1 && 0 <= j < n - 1 && i != j implies shorter_at[i] != shorter_at[j] by {
            assert(at[i] != at[j]);
        }
        assert forall|i: int| 0 <= i < n - 1 implies 0 <= #[trigger] shorter_at[i] < n - 1
            && shorter_ys[i] == shorter_xs[shorter_at[i]] by {
            assert(0 <= at[i] < n && ys[i] == xs[at[i]]);
        }
        lemma_rearranged_codes(shorter_at, shorter_xs, shorter_ys);
        xs.to_multiset_ensures();
        shorter_ys.to_multiset_ensures();
        assert(ys =~= shorter_ys.push(ys[n - 1]));
        assert(xs.contains(xs[k]));
        assert(xs.to_multiset() =~= shorter_xs.to_multiset().insert(xs[k]));
    }
}

/// Taking every copy of `symbol` out of `m` shortens it by exactly the
/// number of copies.
proof fn lemma_strip(m: Multiset<u64>, symbol: u64) -> (rest: Multiset<u64>)
    ensures
        rest.count(symbol) == 0,
        forall|s: u64| s != symbol ==> rest.count(s) == m.count(s),
        m.len() == rest.len() + m.count(symbol),
    decreases m.count(symbol),
{
    broadcast use vstd::multiset::group_multiset_axioms;

    if m.count(symbol) == 0 {
        m
    } else {
        let one = Multiset::singleton(symbol);
        assert(one.subset_of(m));
        lemma_strip(m.remove(symbol), symbol)
    }
}

/// A list of a table without one of its pairs lists the table without that
/// pair's symbol.
proof fn lemma_enumerates_without(
    pairs: Seq<(u64, u64)>,
    j: int,
    m: Multiset<u64>,
    rest: Multiset<u64>,
)
    requires
        enumerates(pairs, m),
        0 <= j < pairs.len(),
        rest.count(pairs[j].0) == 0,
        forall|s: u64| s != pairs[j].0 ==> rest.count(s) == m.count(s),
    ensures
        enumerates(pairs.remove(j), rest),
{
    let listed = symbols_of(pairs);
    let fewer = pairs.remove(j);
    let symbol = pairs[j].0;
    assert(symbols_of(fewer) =~= listed.remove(j));
    assert(listed[j] == symbol);
    assert forall|a: int, b: int|
        0 <= a < fewer.len() && 0 <= b < fewer.len() && a != b implies symbols_of(fewer)[a]
        != symbols_of(fewer)[b] by {
        let a0 = if a < j { a } else { a + 1 };
        let b0 = if b < j { b } else { b + 1 };
        assert(listed[a0] != listed[b0]);
    }
    assert forall|s: u64| symbols_of(fewer).contains(s) <==> rest.count(s) > 0 by {
        if symbols_of(fewer).contains(s) {
            let i = choose|i: int| 0 <= i < fewer.len() && symbols_of(fewer)[i] == s;
            let i0 = if i < j { i } else { i + 1 };
            assert(listed[i0] == s);
            assert(listed.contains(s));
            assert(listed[i0] != listed[j]);
        }
        if rest.count(s) > 0 {
            assert(listed.contains(s));
            let i = choose|i: int| 0 <= i < listed.len() && listed[i] == s;
            let i1 = if i < j { i } else { i - 1 };
            assert(symbols_of(fewer)[i1] == s);
        }
    }
    assert forall|i: int| 0 <= i < fewer.len() implies (#[trigger] fewer[i]).1 as nat
        == rest.count(fewer[i].0) by {
        let i0 = if i < j { i } else { i + 1 };
        assert(fewer[i] == pairs[i0]);
        assert(listed[i0] != listed[j]);
    }
}

/// The counts of a table add up to the number of symbols recorded.
pub proof fn lemma_counts_sum_to_total(pairs: Seq<(u64, u64)>, m: Multiset<u64>)
    requires
        enumerates(pairs, m),
    ensures
        sum_of_counts(pairs) == m.len(),
    decreases pairs.len(),
{
    broadcast use vstd::multiset::group_multiset_axioms;

    let listed = symbols_of(pairs);
    if pairs.len() == 0 {
        assert forall|s: u64| m.count(s) == 0 by {
            assert(!listed.contains(s));
        }
        assert(m =~= Multiset::<u64>::empty());
    } else {
        let last = pairs.len() - 1;
        let rest = lemma_strip(m, pairs[last].0);
        let shorter = pairs.drop_last();
        assert(pairs.remove(last) =~= shorter);
        lemma_enumerates_without(pairs, last, m, rest);
        lemma_counts_sum_to_total(shorter, rest);
    }
}

/// A list of positive counts adds up to at least its length.
proof fn lemma_sum_at_least_len(pairs: Seq<(u64, u64)>)
    requires
        forall|i: int| 0 <= i < pairs.len() ==> (#[trigger] pairs[i]).1 >= 1,
    ensures
        sum_of_counts(pairs) >= pairs.len(),
    decreases pairs.len(),
{
    if pairs.len() > 0 {
        let shorter = pairs.drop_last();
        assert forall|i: int| 0 <= i < shorter.len() implies (#[trigger] shorter[i]).1 >= 1 by {
            assert(shorter[i] == pairs[i]);
        }
        lemma_sum_at_least_len(shorter);
    }
}

/// Every listed count is a proper share of the whole: at least one and at
/// most the number of symbols recorded, so each symbol's relative frequency
/// `count / total` lies above zero and does not exceed one.
pub proof fn lemma_counts_are_shares(pairs: Seq<(u64, u64)>, m: Multiset<u64>)
    requires
        enumerates(pairs, m),
    ensures
        forall|i: int| 0 <= i < pairs.len() ==> 1 <= (#[trigger] pairs[i]).1 <= m.len(),
{
    broadcast use vstd::multiset::group_multiset_axioms;

    let listed = symbols_of(pairs);
    assert forall|i: int| 0 <= i < pairs.len() implies 1 <= (#[trigger] pairs[i]).1 <= m.len() by {
        assert(listed[i] == pairs[i].0);
        assert(listed.contains(pairs[i].0));
    }
}

/// There are no more distinct symbols than symbols, a table lists as many
/// pairs as it has distinct symbols, and a non-empty table lists at least
/// one.
pub proof fn lemma_distinct_bounds(pairs: Seq<(u64, u64)>, m: Multiset<u64>)
    requires
        enumerates(pairs, m),
    ensures
        pairs.len() == m.dom().len(),
        pairs.len() <= m.len(),
        m.len() >= 1 ==> pairs.len() >= 1,
{
    let listed = symbols_of(pairs);
    lemma_counts_are_shares(pairs, m);
    lemma_sum_at_least_len(pairs);
    lemma_counts_sum_to_total(pairs, m);
    listed.unique_seq_to_set();
    assert(listed.to_set() =~= m.dom());
}

/// An input that repeats one symbol gives a table with a single entry, whose
/// count is the whole length `n`: the symbol's relative frequency is exactly
/// one, and the product of the self-powers is `n^n`, so that two to the power
/// `n` times the entropy is one and the entropy is zero.
pub proof fn lemma_constant_input<T: Symbol>(xs: Seq<T>, symbol: T, pairs: Seq<(u64, u64)>)
    requires
        xs.len() >= 1,
        forall|i: int| 0 <= i < xs.len() ==> xs[i] == symbol,
        enumerates(pairs, codes(xs).to_multiset()),
    ensures
        codes(xs).to_multiset().count(symbol.code_of()) == xs.len(),
        codes(xs).to_multiset().dom() == set![symbol.code_of()],
        pairs.len() == 1,
        pairs[0].0 == symbol.code_of(),
        pairs[0].1 == xs.len(),
        product_of_self_powers(pairs) == pow(xs.len() as int, xs.len()),
{
    broadcast use vstd::multiset::group_multiset_axioms;

    let all = codes(xs);
    let only = symbol.code_of();
    let m = all.to_multiset();
    let listed = symbols_of(pairs);
    all.to_multiset_ensures();
    assert(all[0] == only);
    assert(all.contains(only));
    assert forall|s: u64| s != only implies m.count(s) == 0 by {
        if all.contains(s) {
            let i = choose|i: int| 0 <= i < all.len() && all[i] == s;
            assert(xs[i] == symbol);
        }
    }
    assert(m.dom() =~= set![only]);
    lemma_distinct_bounds(pairs, m);
    assert(set![only].len() == 1) by {
        broadcast use vstd::set::group_set_axioms;

    }
    assert(listed[0] == pairs[0].0);
    assert(listed.contains(pairs[0].0));
    lemma_counts_sum_to_total(pairs, m);
    assert(pairs.drop_last().len() == 0);
    assert(sum_of_counts(pairs) == pairs[0].1 as nat) by {
        reveal_with_fuel(sum_of_counts, 2);
    }
    assert(product_of_self_powers(pairs) == pow(pairs[0].1 as int, pairs[0].1 as nat)) by {
        reveal_with_fuel(product_of_self_powers, 2);
    }
}

/// A list in which every count is `share` adds up to its length times
/// `share`.
proof fn lemma_sum_of_equal_counts(pairs: Seq<(u64, u64)>, share: u64)
    requires
        forall|i: int| 0 <= i < pairs.len() ==> (#[trigger] pairs[i]).1 == share,
    ensures
        sum_of_counts(pairs) == pairs.len() * share,
    decreases pairs.len(),
{
    if pairs.len() > 0 {
        let shorter = pairs.drop_last();
        assert forall|i: int| 0 <= i < shorter.len() implies (#[trigger] shorter[i]).1 == share by {
            assert(shorter[i] == pairs[i]);
        }
        lemma_sum_of_equal_counts(shorter, share);
        assert(pairs.len() * share == shorter.len() * share + share) by (nonlinear_arith)
            requires
                pairs.len() == shorter.len() + 1,
        ;
    }
}

/// A list in which every count is `share` has `share` to the power of the
/// sum of its counts as its product of self-powers.
proof fn lemma_self_powers_of_equal_counts(pairs: Seq<(u64, u64)>, share: u64)
    requires
        forall|i: int| 0 <= i < pairs.len() ==> (#[trigger] pairs[i]).1 == share,
    ensures
        product_of_self_powers(pairs) == pow(share as int, sum_of_counts(pairs)),
    decreases pairs.len(),
{
    if pairs.len() == 0 {
        reveal(pow);
    } else {
        let shorter = pairs.drop_last();
        assert forall|i: int| 0 <= i < shorter.len() implies (#[trigger] shorter[i]).1 == share by {
            assert(shorter[i] == pairs[i]);
        }
        lemma_self_powers_of_equal_counts(shorter, share);
        assert(pairs[pairs.len() - 1].1 == share);
        lemma_pow_adds(share as int, sum_of_counts(shorter), share as nat);
    }
}

/// The uniform table, in which each of the `k` distinct symbols occurs
/// equally often. The total `n` is `k` times that count, so every relative
/// frequency is exactly `1 / k`; and `n^n` is `k^n` times the product of the
/// self-powers, so that two to the power `n` times the entropy is `k^n`: the
/// entropy reaches the binary logarithm of `k`.
pub proof fn lemma_uniform_shares(pairs: Seq<(u64, u64)>, m: Multiset<u64>, share: u64)
    requires
        enumerates(pairs, m),
        forall|i: int| 0 <= i < pairs.len() ==> (#[trigger] pairs[i]).1 == share,
    ensures
        m.len() == pairs.len() * share,
        pow(m.len() as int, m.len()) == pow(pairs.len() as int, m.len()) * product_of_self_powers(
            pairs,
        ),
{
    lemma_sum_of_equal_counts(pairs, share);
    lemma_counts_sum_to_total(pairs, m);
    lemma_self_powers_of_equal_counts(pairs, share);
    vstd::arithmetic::power::lemma_pow_distributes(pairs.len() as int, share as int, m.len());
}

/// A table of bytes never holds more than 256 distinct symbols, however long
/// the input.
pub proof fn lemma_byte_table_is_small(bytes: Seq<u8>)
    ensures
        codes(bytes).to_multiset().dom().len() <= 256,
{
    let symbols = codes(bytes);
    let seen = symbols.to_multiset().dom();
    let range = vstd::set_lib::set_int_range(0, 256);
    let code = |i: int| i as u64;
    let all = range.map(code);
    vstd::set_lib::lemma_int_range(0, 256);
    vstd::set_lib::lemma_map_size_bound(range, all, code);
    symbols.to_multiset_ensures();
    assert forall|s: u64| seen.contains(s) implies all.contains(s) by {
        assert(symbols.contains(s));
        let i = choose|i: int| 0 <= i < symbols.len() && symbols[i] == s;
        assert(s == bytes[i] as u64);
        assert(range.contains(s as int) && s == code(s as int));
    }
    vstd::set_lib::lemma_len_subset(seen, all);
}

/// Raising to a fixed power keeps the order of non-negative bases.
proof fn lemma_pow_base_monotonic(a: int, b: int, e: nat)
    requires
        0 <= a <= b,
    ensures
        0 <= pow(a, e) <= pow(b, e),
    decreases e,
{
    reveal(pow);
    if e > 0 {
        lemma_pow_base_monotonic(a, b, (e - 1) as nat);
        let x = pow(a, (e - 1) as nat);
        let y = pow(b, (e - 1) as nat);
        assert(0 <= a * x <= b * y) by (nonlinear_arith)
            requires
                0 <= a <= b,
                0 <= x <= y,
        ;
    }
}

/// Counts that lie between one and `n` have a product of self-powers of at
/// most `n` to the power of their sum.
proof fn lemma_self_powers_bounded(pairs: Seq<(u64, u64)>, n: nat)
    requires
        forall|i: int| 0 <= i < pairs.len() ==> 1 <= (#[trigger] pairs[i]).1 <= n,
    ensures
        0 < product_of_self_powers(pairs) <= pow(n as int, sum_of_counts(pairs)),
    decreases pairs.len(),
{
    if pairs.len() == 0 {
        reveal(pow);
    } else {
        let shorter = pairs.drop_last();
        let c = pairs.last().1;
        assert forall|i: int| 0 <= i < shorter.len() implies 1 <= (#[trigger] shorter[i]).1
            <= n by {
            assert(shorter[i] == pairs[i]);
        }
        lemma_self_powers_bounded(shorter, n);
        assert(1 <= pairs[pairs.len() - 1].1 <= n);
        lemma_pow_base_monotonic(c as int, n as int, c as nat);
        vstd::arithmetic::power::lemma_pow_positive(c as int, c as nat);
        lemma_pow_adds(n as int, sum_of_counts(shorter), c as nat);
        let p = product_of_self_powers(shorter);
        let q = pow(c as int, c as nat);
        let p_bound = pow(n as int, sum_of_counts(shorter));
        let q_bound = pow(n as int, c as nat);
        assert(0 < p * q <= p_bound * q_bound) by (nonlinear_arith)
            requires
                0 < p <= p_bound,
                0 < q <= q_bound,
        ;
    }
}

/// With `n` symbols recorded, the product of the self-powers of the counts
/// is positive and at most `n^n`. This is the non-negativity of the entropy,
/// cleared of logarithms: the quotient of `n^n` and the product, which is two
/// to the power `n` times the entropy, is at least one.
pub proof fn lemma_product_at_most_total_power(pairs: Seq<(u64, u64)>, m: Multiset<u64>)
    requires
        enumerates(pairs, m),
    ensures
        0 < product_of_self_powers(pairs) <= pow(m.len() as int, m.len()),
{
    lemma_counts_are_shares(pairs, m);
    lemma_counts_sum_to_total(pairs, m);
    lemma_self_powers_bounded(pairs, m.len());
}

/// Taking one pair out of a list takes the self-power of its count out of
/// the product.
proof fn lemma_product_without(pairs: Seq<(u64, u64)>, j: int)
    requires
        0 <= j < pairs.len(),
    ensures
        product_of_self_powers(pairs) == product_of_self_powers(pairs.remove(j)) * pow(
            pairs[j].1 as int,
            pairs[j].1 as nat,
        ),
    decreases pairs.len(),
{
    let shorter = pairs.drop_last();
    if j == pairs.len() - 1 {
        assert(pairs.remove(j) =~= shorter);
    } else {
        lemma_product_without(shorter, j);
        let fewer = pairs.remove(j);
        assert(fewer.drop_last() =~= shorter.remove(j));
        assert(fewer.last() == pairs.last());
        let base = product_of_self_powers(shorter.remove(j));
        let taken = pow(pairs[j].1 as int, pairs[j].1 as nat);
        let kept = pow(pairs.last().1 as int, pairs.last().1 as nat);
        assert(shorter[j] == pairs[j]);
        assert((base * taken) * kept == (base * kept) * taken) by (nonlinear_arith);
    }
}

/// The product of the self-powers belongs to the table, not to the order in
/// which its entries are listed: any two lists of one table have the same.
pub proof fn lemma_product_ignores_order(
    first: Seq<(u64, u64)>,
    second: Seq<(u64, u64)>,
    m: Multiset<u64>,
)
    requires
        enumerates(first, m),
        enumerates(second, m),
    ensures
        product_of_self_powers(first) == product_of_self_powers(second),
        first.len() == second.len(),
    decreases first.len(),
{
    lemma_distinct_bounds(first, m);
    lemma_distinct_bounds(second, m);
    if first.len() > 0 {
        let last = first.len() - 1;
        let symbol = first[last].0;
        assert(symbols_of(first)[last] == symbol);
        assert(symbols_of(first).contains(symbol));
        assert(symbols_of(second).contains(symbol));
        let j = choose|j: int| 0 <= j < second.len() && symbols_of(second)[j] == symbol;
        assert(second[j].0 == symbol);
        assert(second[j].1 == first[last].1);
        let rest = lemma_strip(m, symbol);
        assert(first.remove(last) =~= first.drop_last());
        lemma_enumerates_without(first, last, m, rest);
        lemma_enumerates_without(second, j, m, rest);
        lemma_product_ignores_order(first.drop_last(), second.remove(j), rest);
        lemma_product_without(second, j);
    }
}

} // verus!
