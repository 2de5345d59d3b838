//! The order in which the prices of one side of a book are served.

use crate::price_level::Level;
use crate::types::{Price, Side};
use vstd::prelude::*;

verus! {

/// Whether `price` is the one that `side` serves first among `prices`.
pub open spec fn is_best(prices: Set<Price>, side: Side, price: Price) -> bool {
    &&& prices.contains(price)
    &&& forall|other: Price| prices.contains(other) ==> !side.prefers(other, price)
}

/// The price that `side` serves first among `prices`, if there is any.
pub open spec fn best(prices: Set<Price>, side: Side) -> Option<Price> {
    if exists|price: Price| is_best(prices, side, price) {
        Some(choose|price: Price| is_best(prices, side, price))
    } else {
        None
    }
}

/// The prices in the order in which `side` serves them: bids from the highest
/// one down, asks from the lowest one up.
pub open spec fn ladder(prices: Set<Price>, side: Side) -> Seq<Price>
    decreases prices.len(),
{
    if prices.finite() {
        match best(prices, side) {
            Some(price) => seq![price] + ladder(prices.remove(price), side),
            None => Seq::empty(),
        }
    } else {
        Seq::empty()
    }
}

/// Those of the prices resting on `side` that an incoming order limited to
/// `limit` accepts. An order without a limit accepts all of them.
pub open spec fn reachable(prices: Set<Price>, side: Side, limit: Option<Price>) -> Set<Price> {
    prices.filter(
        |price: Price| limit is None || side.other().accepts(limit->0, price),
    )
}

/// Whether a sequence of prices runs in the order in which `side` serves them.
pub open spec fn runs_best_first(prices: Seq<Price>, side: Side) -> bool {
    forall|i: int, j: int| 0 <= i < j < prices.len() ==> side.prefers(prices[i], prices[j])
}

/// The total quantities kept for the levels at `prices`, added up.
pub open spec fn sum_of_totals(levels: Map<Price, Level>, prices: Seq<Price>) -> nat
    decreases prices.len(),
{
    if prices.len() == 0 {
        0
    } else {
        sum_of_totals(levels, prices.drop_last()) + levels[prices.last()].total_quantity as nat
    }
}

/// The total quantities kept for all levels, added up.
pub open spec fn depth(levels: Map<Price, Level>) -> nat {
    sum_of_totals(levels, ladder(levels.dom(), Side::Ask))
}

/// An increasing sequence runs in the order in which asks are served.
pub proof fn lemma_increasing_is_best_first(prices: Seq<Price>)
    requires
        vstd::std_specs::btree::increasing_seq(prices),
    ensures
        runs_best_first(prices, Side::Ask),
{
    assert forall|i: int, j: int| 0 <= i < j < prices.len() implies Side::Ask.prefers(
        prices[i],
        prices[j],
    ) by {
        assert(vstd::std_specs::cmp::OrdSpec::cmp_spec(&prices[i], &prices[j]) is Less);
    }
}

/// A part of the levels holds no more than all of them.
pub proof fn lemma_sum_of_totals_grows(levels: Map<Price, Level>, prices: Seq<Price>, n: int)
    requires
        0 <= n <= prices.len(),
    ensures
        sum_of_totals(levels, prices.take(n)) <= sum_of_totals(levels, prices),
    decreases prices.len(),
{
    if n == prices.len() {
        assert(prices.take(n) =~= prices);
    } else {
        lemma_sum_of_totals_grows(levels, prices.drop_last(), n);
        assert(prices.drop_last().take(n) =~= prices.take(n));
    }
}

/// There is at most one best price.
pub proof fn lemma_best_is(prices: Set<Price>, side: Side, price: Price)
    requires
        is_best(prices, side, price),
    ensures
        best(prices, side) == Some(price),
{
    let chosen = choose|p: Price| is_best(prices, side, p);
    assert(is_best(prices, side, chosen));
    assert(!side.prefers(chosen, price));
    assert(!side.prefers(price, chosen));
}

/// Where there are prices, one of them is best.
pub proof fn lemma_best_exists(prices: Set<Price>, side: Side)
    requires
        prices.finite(),
        prices.len() > 0,
    ensures
        best(prices, side) is Some,
        is_best(prices, side, best(prices, side)->0),
    decreases prices.len(),
{
    let some = prices.choose();
    assert(prices.contains(some));
    let rest = prices.remove(some);
    if rest.len() == 0 {
        assert(rest =~= Set::empty());
        assert forall|other: Price| prices.contains(other) implies !side.prefers(other, some) by {
            if other != some {
                assert(rest.contains(other));
            }
        }
        assert(is_best(prices, side, some));
        lemma_best_is(prices, side, some);
    } else {
        lemma_best_exists(rest, side);
        let b = best(rest, side)->0;
        let winner = if side.prefers(some, b) {
            some
        } else {
            b
        };
        assert forall|other: Price| prices.contains(other) implies !side.prefers(
            other,
            winner,
        ) by {
            if other != some {
                assert(rest.contains(other));
            }
        }
        assert(is_best(prices, side, winner));
        lemma_best_is(prices, side, winner);
    }
}

/// No prices, no best one.
pub proof fn lemma_best_of_none(prices: Set<Price>, side: Side)
    requires
        forall|price: Price| !prices.contains(price),
    ensures
        best(prices, side) is None,
{
}

/// The ladder is the one sequence that holds the prices, best first.
pub proof fn lemma_ladder_is(s: Seq<Price>, prices: Set<Price>, side: Side)
    requires
        runs_best_first(s, side),
        forall|price: Price| prices.contains(price) <==> s.contains(price),
    ensures
        ladder(prices, side) == s,
    decreases s.len(),
{
    assert(prices =~= s.to_set());
    vstd::seq_lib::seq_to_set_is_finite(s);
    if s.len() == 0 {
        assert forall|price: Price| !prices.contains(price) by {
            assert(!s.contains(price));
        }
        lemma_best_of_none(prices, side);
    } else {
        let first = s[0];
        let rest = s.drop_first();
        assert(s.contains(first));
        assert(is_best(prices, side, first)) by {
            assert forall|other: Price| prices.contains(other) implies !side.prefers(
                other,
                first,
            ) by {
                let i = choose|i: int| 0 <= i < s.len() && s[i] == other;
                if i > 0 {
                    assert(side.prefers(s[0], s[i]));
                }
            }
        }
        lemma_best_is(prices, side, first);
        assert(runs_best_first(rest, side)) by {
            assert forall|i: int, j: int| 0 <= i < j < rest.len() implies side.prefers(
                rest[i],
                rest[j],
            ) by {
                assert(side.prefers(s[i + 1], s[j + 1]));
            }
        }
        assert forall|price: Price| prices.remove(first).contains(price) <==> rest.contains(
            price,
        ) by {
            if prices.remove(first).contains(price) {
                let i = choose|i: int| 0 <= i < s.len() && s[i] == price;
                assert(rest[i - 1] == price);
            }
            if rest.contains(price) {
                let i = choose|i: int| 0 <= i < rest.len() && rest[i] == price;
                assert(s[i + 1] == price);
                assert(side.prefers(s[0], s[i + 1]));
            }
        }
        lemma_ladder_is(rest, prices.remove(first), side);
        assert(seq![first] + rest =~= s);
    }
}

/// The ladder holds exactly the prices, best first.
pub proof fn lemma_ladder_holds(prices: Set<Price>, side: Side)
    requires
        prices.finite(),
    ensures
        runs_best_first(ladder(prices, side), side),
        forall|price: Price| prices.contains(price) <==> ladder(prices, side).contains(price),
    decreases prices.len(),
{
    let s = ladder(prices, side);
    if prices.len() == 0 {
        assert(prices =~= Set::empty());
        lemma_best_of_none(prices, side);
        assert(s.len() == 0);
    } else {
        lemma_best_exists(prices, side);
        let first = best(prices, side)->0;
        let rest = ladder(prices.remove(first), side);
        lemma_ladder_holds(prices.remove(first), side);
        assert(s == seq![first] + rest);
        assert(s.drop_first() =~= rest);
        assert forall|i: int, j: int| 0 <= i < j < s.len() implies side.prefers(s[i], s[j]) by {
            assert(rest.contains(s[j])) by {
                assert(rest[j - 1] == s[j]);
            }
            if i == 0 {
                assert(prices.remove(first).contains(s[j]));
                assert(!side.prefers(s[j], first));
            } else {
                assert(side.prefers(rest[i - 1], rest[j - 1]));
            }
        }
        assert forall|price: Price| prices.contains(price) <==> s.contains(price) by {
            if prices.contains(price) {
                if price == first {
                    assert(s[0] == price);
                } else {
                    assert(rest.contains(price));
                    let i = choose|i: int| 0 <= i < rest.len() && rest[i] == price;
                    assert(s[i + 1] == price);
                }
            }
            if s.contains(price) {
                let i = choose|i: int| 0 <= i < s.len() && s[i] == price;
                if i > 0 {
                    assert(rest[i - 1] == price);
                    assert(rest.contains(price));
                }
            }
        }
    }
}

/// Law: the best one of some prices is the highest bid or the lowest ask, and
/// only where there are none is there no best one.
pub proof fn law_best_price_is_the_extreme(prices: Set<Price>, side: Side)
    requires
        prices.finite(),
    ensures
        match best(prices, side) {
            Some(price) => {
                &&& prices.contains(price)
                &&& side is Bid ==> forall|other: Price| #[trigger]
                    prices.contains(other) ==> other <= price
                &&& side is Ask ==> forall|other: Price| #[trigger]
                    prices.contains(other) ==> other >= price
            },
            None => forall|other: Price| !#[trigger] prices.contains(other),
        },
{
    match best(prices, side) {
        Some(price) => {
            assert(is_best(prices, side, price));
        },
        None => {
            assert forall|other: Price| !#[trigger] prices.contains(other) by {
                if prices.contains(other) {
                    assert(prices.len() > 0) by {
                        if prices.len() == 0 {
                            assert(prices =~= Set::empty());
                        }
                    }
                    lemma_best_exists(prices, side);
                }
            }
        },
    }
}

} // verus!
