//! Sums over sequences, and the sums of amounts that the settlement rules speak of.
use vstd::prelude::*;

use crate::types::{Balance, Coin};

verus! {

/// The sum of a sequence of integers.
pub open spec fn total(s: Seq<int>) -> int
    decreases s.len(),
{
    if s.len() == 0 {
        0
    } else {
        total(s.drop_last()) + s.last()
    }
}

/// Appending `x` adds `x`.
pub proof fn lemma_total_push(s: Seq<int>, x: int)
    ensures
        total(s.push(x)) == total(s) + x,
{
    assert(s.push(x).drop_last() =~= s);
}

/// The sum of a concatenation is the sum of the sums.
pub proof fn lemma_total_concat(s: Seq<int>, t: Seq<int>)
    ensures
        total(s + t) == total(s) + total(t),
    decreases t.len(),
{
    if t.len() == 0 {
        assert(s + t =~= s);
    } else {
        assert((s + t).drop_last() =~= s + t.drop_last());
        lemma_total_concat(s, t.drop_last());
    }
}

/// Replacing element `i` by `x` changes the sum by the difference.
pub proof fn lemma_total_update(s: Seq<int>, i: int, x: int)
    requires
        0 <= i < s.len(),
    ensures
        total(s.update(i, x)) == total(s) - s[i] + x,
    decreases s.len(),
{
    if i == s.len() - 1 {
        assert(s.update(i, x).drop_last() =~= s.drop_last());
    } else {
        assert(s.update(i, x).drop_last() =~= s.drop_last().update(i, x));
        lemma_total_update(s.drop_last(), i, x);
    }
}

/// Zeros add up to zero.
pub proof fn lemma_total_zero(s: Seq<int>)
    requires
        forall|k: int| 0 <= k < s.len() ==> s[k] == 0,
    ensures
        total(s) == 0,
    decreases s.len(),
{
    if s.len() > 0 {
        lemma_total_zero(s.drop_last());
    }
}

/// Where all elements but `s[i]` are zero, the sum is `s[i]`.
pub proof fn lemma_total_single(s: Seq<int>, i: int)
    requires
        0 <= i < s.len(),
        forall|k: int| 0 <= k < s.len() && k != i ==> s[k] == 0,
    ensures
        total(s) == s[i],
{
    lemma_total_update(s, i, 0);
    lemma_total_zero(s.update(i, 0));
}

/// Sums keep an order that holds element by element.
pub proof fn lemma_total_le(s: Seq<int>, t: Seq<int>)
    requires
        s.len() == t.len(),
        forall|k: int| 0 <= k < s.len() ==> s[k] <= t[k],
    ensures
        total(s) <= total(t),
    decreases s.len(),
{
    if s.len() > 0 {
        lemma_total_le(s.drop_last(), t.drop_last());
    }
}

/// Elements that are not negative have a sum that is not negative.
pub proof fn lemma_total_nonneg(s: Seq<int>)
    requires
        forall|k: int| 0 <= k < s.len() ==> s[k] >= 0,
    ensures
        total(s) >= 0,
{
    lemma_total_le(Seq::new(s.len(), |k: int| 0), s);
    lemma_total_zero(Seq::new(s.len(), |k: int| 0));
}

/// With no negative element, a prefix adds up to at most the whole, and an
/// element to at most the whole.
pub proof fn lemma_total_prefix(s: Seq<int>, i: int)
    requires
        0 <= i <= s.len(),
        forall|k: int| 0 <= k < s.len() ==> s[k] >= 0,
    ensures
        0 <= total(s.take(i)) <= total(s),
        i < s.len() ==> total(s.take(i)) + s[i] <= total(s),
    decreases s.len() - i,
{
    lemma_total_nonneg(s.take(i));
    if i < s.len() {
        assert(s.take(i + 1).drop_last() =~= s.take(i));
        lemma_total_prefix(s, i + 1);
    } else {
        assert(s.take(i) =~= s);
    }
}

/// A prefix one longer adds the image of the next element.
pub proof fn lemma_total_take_map<A>(s: Seq<A>, f: spec_fn(A) -> int, i: int)
    requires
        0 <= i < s.len(),
    ensures
        total(s.take(i + 1).map_values(f)) == total(s.take(i).map_values(f)) + f(s[i]),
{
    assert(s.take(i + 1).map_values(f).drop_last() =~= s.take(i).map_values(f));
}

/// The image of a sequence adds up to that of all but its last element, plus
/// the image of the last.
pub proof fn lemma_total_drop_last_map<A>(s: Seq<A>, f: spec_fn(A) -> int)
    requires
        s.len() > 0,
    ensures
        total(s.map_values(f)) == total(s.drop_last().map_values(f)) + f(s.last()),
{
    assert(s.map_values(f).drop_last() =~= s.drop_last().map_values(f));
}

/// The prefix of full length is the whole.
pub proof fn lemma_total_take_all<A>(s: Seq<A>, f: spec_fn(A) -> int)
    ensures
        total(s.take(s.len() as int).map_values(f)) == total(s.map_values(f)),
{
    assert(s.take(s.len() as int) =~= s);
}

/// Appending `x` adds its image.
pub proof fn lemma_total_push_map<A>(s: Seq<A>, f: spec_fn(A) -> int, x: A)
    ensures
        total(s.push(x).map_values(f)) == total(s.map_values(f)) + f(x),
{
    assert(s.push(x).map_values(f) =~= s.map_values(f).push(f(x)));
    lemma_total_push(s.map_values(f), f(x));
}

/// Replacing element `i` by `x` changes the sum of images by the difference of theirs.
pub proof fn lemma_total_update_map<A>(s: Seq<A>, f: spec_fn(A) -> int, i: int, x: A)
    requires
        0 <= i < s.len(),
    ensures
        total(s.update(i, x).map_values(f)) == total(s.map_values(f)) - f(s[i]) + f(x),
{
    assert(s.update(i, x).map_values(f) =~= s.map_values(f).update(i, f(x)));
    lemma_total_update(s.map_values(f), i, f(x));
}

/// The images of a concatenation add up to the sums of both parts.
pub proof fn lemma_total_concat_map<A>(s: Seq<A>, t: Seq<A>, f: spec_fn(A) -> int)
    ensures
        total((s + t).map_values(f)) == total(s.map_values(f)) + total(t.map_values(f)),
{
    assert((s + t).map_values(f) =~= s.map_values(f) + t.map_values(f));
    lemma_total_concat(s.map_values(f), t.map_values(f));
}

/// What coin `c` holds of denomination `d`.
pub open spec fn coin_value(c: Coin, d: Seq<char>) -> int {
    if c.denom@ == d {
        c.amount as int
    } else {
        0
    }
}

/// What `coins` hold of denomination `d`.
pub open spec fn coins_sum(coins: Seq<Coin>, d: Seq<char>) -> int {
    total(coins.map_values(|c: Coin| coin_value(c, d)))
}

/// The amounts of `coins`, whatever their denominations.
pub open spec fn coins_total(coins: Seq<Coin>) -> int {
    total(coins.map_values(|c: Coin| c.amount as int))
}

/// What `b` holds of denomination `d`, unless `b` belongs to `excluded`.
pub open spec fn leg_value(b: Balance, d: Seq<char>, excluded: Option<Seq<char>>) -> int {
    if excluded == Some(b.address@) {
        0
    } else {
        coins_sum(b.coins@, d)
    }
}

/// What `legs` hold of denomination `d`, leaving out those of `excluded`.
pub open spec fn legs_sum_excluding(legs: Seq<Balance>, d: Seq<char>, excluded: Option<Seq<char>>) -> int {
    total(legs.map_values(|b: Balance| leg_value(b, d, excluded)))
}

/// What `legs` hold of denomination `d`.
pub open spec fn legs_sum(legs: Seq<Balance>, d: Seq<char>) -> int {
    legs_sum_excluding(legs, d, None)
}

/// What the balances of address `a` in `legs` hold of denomination `d`.
pub open spec fn address_value(b: Balance, a: Seq<char>, d: Seq<char>) -> int {
    if b.address@ == a {
        coins_sum(b.coins@, d)
    } else {
        0
    }
}

/// What the entries of `legs` for address `a` hold of denomination `d`.
pub open spec fn amount_of(legs: Seq<Balance>, a: Seq<char>, d: Seq<char>) -> int {
    total(legs.map_values(|b: Balance| address_value(b, a, d)))
}

/// All the amounts in `legs`, whatever their denominations.
pub open spec fn side_total(legs: Seq<Balance>) -> int {
    total(legs.map_values(|b: Balance| coins_total(b.coins@)))
}

/// No amount in `legs` is negative.
pub open spec fn non_negative(legs: Seq<Balance>) -> bool {
    forall|i: int, j: int|
        0 <= i < legs.len() && 0 <= j < legs[i].coins@.len() ==> legs[i].coins@[j].amount >= 0
}

/// Of coins with no negative amount, the sum of one denomination lies between
/// zero and the total of all amounts.
pub proof fn lemma_coins_bounds(coins: Seq<Coin>, d: Seq<char>)
    requires
        forall|j: int| 0 <= j < coins.len() ==> coins[j].amount >= 0,
    ensures
        0 <= coins_sum(coins, d) <= coins_total(coins),
{
    let f = |c: Coin| coin_value(c, d);
    let g = |c: Coin| c.amount as int;
    lemma_total_le(coins.map_values(f), coins.map_values(g));
    lemma_total_nonneg(coins.map_values(f));
}

/// Of legs with no negative amount, each sum of one denomination lies between
/// zero and the total of all amounts, and so does each leg's.
pub proof fn lemma_legs_bounds(legs: Seq<Balance>, d: Seq<char>, excluded: Option<Seq<char>>)
    requires
        non_negative(legs),
    ensures
        0 <= legs_sum_excluding(legs, d, excluded) <= side_total(legs),
        forall|i: int|
            0 <= i < legs.len() ==> 0 <= #[trigger] coins_total(legs[i].coins@) <= side_total(legs),
{
    let f = |b: Balance| leg_value(b, d, excluded);
    let g = |b: Balance| coins_total(b.coins@);
    assert forall|i: int| 0 <= i < legs.len() implies 0 <= f(#[trigger] legs[i]) <= g(legs[i]) by {
        lemma_coins_bounds(legs[i].coins@, d);
        lemma_total_nonneg(legs[i].coins@.map_values(|c: Coin| c.amount as int));
    }
    lemma_total_le(legs.map_values(f), legs.map_values(g));
    lemma_total_nonneg(legs.map_values(f));
    assert forall|i: int| 0 <= i < legs.len() implies 0 <= #[trigger] coins_total(legs[i].coins@)
        <= side_total(legs) by {
        lemma_total_prefix(legs.map_values(g), i);
    }
}

/// The totals of the first legs of legs with no negative amount grow with
/// each leg and stay below the total of all.
pub proof fn lemma_prefix_bounds(legs: Seq<Balance>, i: int)
    requires
        non_negative(legs),
        0 <= i < legs.len(),
    ensures
        non_negative(legs.take(i)),
        0 <= side_total(legs.take(i)),
        side_total(legs.take(i)) + coins_total(legs[i].coins@) == side_total(legs.take(i + 1)),
        side_total(legs.take(i + 1)) <= side_total(legs),
{
    let g = |b: Balance| coins_total(b.coins@);
    lemma_total_take_map(legs, g, i);
    assert(legs.take(i + 1).map_values(g) =~= legs.map_values(g).take(i + 1));
    assert forall|k: int| 0 <= k < legs.len() implies legs.map_values(g)[k] >= 0 by {
        lemma_coins_bounds(legs[k].coins@, Seq::empty());
    }
    lemma_total_prefix(legs.map_values(g), i + 1);
    assert(legs.take(i).map_values(g) =~= legs.map_values(g).take(i));
    lemma_total_prefix(legs.map_values(g), i);
}

/// The first coins of coins with no negative amount add up to at most all of them.
pub proof fn lemma_coins_prefix_bounds(coins: Seq<Coin>, d: Seq<char>, j: int)
    requires
        forall|k: int| 0 <= k < coins.len() ==> coins[k].amount >= 0,
        0 <= j <= coins.len(),
    ensures
        0 <= coins_sum(coins.take(j), d) <= coins_total(coins.take(j)) <= coins_total(coins),
{
    let g = |c: Coin| c.amount as int;
    lemma_coins_bounds(coins.take(j), d);
    assert(coins.take(j).map_values(g) =~= coins.map_values(g).take(j));
    lemma_total_prefix(coins.map_values(g), j);
}

/// The view of an optional string.
pub open spec fn opt_view(o: Option<&String>) -> Option<Seq<char>> {
    match o {
        Some(s) => Some(s@),
        None => None,
    }
}

/// What `legs` hold of `denom`, leaving out the legs of `excluded`.
pub fn sum_for_denom(legs: &Vec<Balance>, denom: &String, excluded: Option<&String>) -> (r: i128)
    requires
        non_negative(legs@),
        side_total(legs@) <= i128::MAX,
    ensures
        r == legs_sum_excluding(legs@, denom@, opt_view(excluded)),
        0 <= r <= side_total(legs@),
{
    let mut acc: i128 = 0;
    let mut i: usize = 0;
    while i < legs.len()
        invariant
            i <= legs.len(),
            non_negative(legs@),
            side_total(legs@) <= i128::MAX,
            acc == total(
                legs@.take(i as int).map_values(
                    |b: Balance| leg_value(b, denom@, opt_view(excluded)),
                ),
            ),
            0 <= acc <= side_total(legs@.take(i as int)),
        decreases legs.len() - i,
    {
        let leg = &legs[i];
        proof {
            lemma_prefix_bounds(legs@, i as int);
            lemma_total_take_map(
                legs@,
                |b: Balance| leg_value(b, denom@, opt_view(excluded)),
                i as int,
            );
        }
        let counts = match excluded {
            Some(e) => !(leg.address == *e),
            None => true,
        };
        assert(forall|k: int| 0 <= k < leg.coins@.len() ==> leg.coins@[k].amount >= 0);
        if counts {
            let ghost start = acc;
            let mut j: usize = 0;
            while j < leg.coins.len()
                invariant
                    j <= leg.coins.len(),
                    forall|k: int| 0 <= k < leg.coins@.len() ==> leg.coins@[k].amount >= 0,
                    acc == start + total(
                        leg.coins@.take(j as int).map_values(|c: Coin| coin_value(c, denom@)),
                    ),
                    0 <= start <= side_total(legs@.take(i as int)),
                    side_total(legs@.take(i as int)) + coins_total(leg.coins@) <= i128::MAX,
                decreases leg.coins.len() - j,
            {
                proof {
                    lemma_total_take_map(leg.coins@, |c: Coin| coin_value(c, denom@), j as int);
                    lemma_coins_prefix_bounds(leg.coins@, denom@, j as int + 1);
                }
                if leg.coins[j].denom == *denom {
                    acc = acc + leg.coins[j].amount;
                }
                j = j + 1;
            }
            proof {
                lemma_total_take_all(leg.coins@, |c: Coin| coin_value(c, denom@));
                lemma_coins_prefix_bounds(leg.coins@, denom@, j as int);
                assert(leg.coins@.take(j as int) =~= leg.coins@);
            }
        }
        proof {
            lemma_coins_bounds(leg.coins@, denom@);
        }
        i = i + 1;
    }
    proof {
        lemma_total_take_all(legs@, |b: Balance| leg_value(b, denom@, opt_view(excluded)));
        assert(legs@.take(i as int) =~= legs@);
    }
    acc
}

} // verus!
