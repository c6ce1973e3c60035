//! Laws of the settlement calculation, stated over the model and proved.
use vstd::prelude::*;

use crate::model::{
    balanced, burn_fee, coin_postings, coins_shortfall, commission_fee, credit_postings,
    definition_of, definitions_wf, denom_net, falls_short, input_postings,
    issuer_of, leg_postings, legs_shortfall, lemma_definition_is_listed, net, output_postings, posting_denom_value,
    posting_value, postings_of, required, Posting,
};
use crate::settlement::{lemma_net_concat, settlement_outcome};
use crate::sums::{
    address_value, amount_of, coin_value, coins_sum, leg_value, legs_sum, lemma_total_drop_last_map,
total,
};
use crate::types::{Balance, Coin, DenomDefinition, MultiSend, SettlementError};

verus! {

/// The burn charged on input coin `c` of sender `a`, counted in denomination `d`.
pub open spec fn coin_burn(defs: Seq<DenomDefinition>, tx: MultiSend, a: Seq<char>, c: Coin, d: Seq<char>) -> int {
    if c.denom@ == d {
        burn_fee(defs, tx, a, d, c.amount as int)
    } else {
        0
    }
}

/// The burn charged on the coins of input leg `b` in denomination `d`.
pub open spec fn leg_burn(defs: Seq<DenomDefinition>, tx: MultiSend, b: Balance, d: Seq<char>) -> int {
    total(b.coins@.map_values(|c: Coin| coin_burn(defs, tx, b.address@, c, d)))
}

/// The burn charged on input legs `legs` in denomination `d`.
pub open spec fn legs_burn(defs: Seq<DenomDefinition>, tx: MultiSend, legs: Seq<Balance>, d: Seq<char>) -> int {
    total(legs.map_values(|b: Balance| leg_burn(defs, tx, b, d)))
}

/// All that transfer `tx` burns of denomination `d`.
pub open spec fn total_burn(defs: Seq<DenomDefinition>, tx: MultiSend, d: Seq<char>) -> int {
    legs_burn(defs, tx, tx.inputs@, d)
}

proof fn lemma_small_nets(ps: Seq<Posting>, a: Seq<char>, d: Seq<char>)
    requires
        ps.len() <= 2,
    ensures
        net(ps, a, d) == (if ps.len() > 0 { posting_value(ps[0], a, d) } else { 0 }) + (if ps.len()
            > 1 {
            posting_value(ps[1], a, d)
        } else {
            0
        }),
        denom_net(ps, d) == (if ps.len() > 0 { posting_denom_value(ps[0], d) } else { 0 }) + (if ps.len()
            > 1 {
            posting_denom_value(ps[1], d)
        } else {
            0
        }),
{
    let f = |q: Posting| posting_value(q, a, d);
    let g = |q: Posting| posting_denom_value(q, d);
    if ps.len() > 0 {
        lemma_total_drop_last_map(ps, f);
        lemma_total_drop_last_map(ps, g);
        if ps.len() > 1 {
            lemma_total_drop_last_map(ps.drop_last(), f);
            lemma_total_drop_last_map(ps.drop_last(), g);
        }
    }
}

/// What the postings of one input coin change in denomination `d`: minus the
/// coin and its burn, where the coin is of `d`.
proof fn lemma_coin_postings_denom(defs: Seq<DenomDefinition>, tx: MultiSend, a: Seq<char>, c: Coin, d: Seq<char>)
    ensures
        denom_net(coin_postings(defs, tx, a, c), d) == -(coin_value(c, d) + coin_burn(defs, tx, a, c, d)),
{
    lemma_small_nets(coin_postings(defs, tx, a, c), a, d);
}

proof fn lemma_leg_postings_denom(defs: Seq<DenomDefinition>, tx: MultiSend, a: Seq<char>, coins: Seq<Coin>, d: Seq<char>)
    ensures
        denom_net(leg_postings(defs, tx, a, coins), d) == -(coins_sum(coins, d) + total(
            coins.map_values(|c: Coin| coin_burn(defs, tx, a, c, d)),
        )),
    decreases coins.len(),
{
    if coins.len() == 0 {
        assert(coins.map_values(|c: Coin| coin_value(c, d)).len() == 0);
        assert(coins.map_values(|c: Coin| coin_burn(defs, tx, a, c, d)).len() == 0);
        assert(leg_postings(defs, tx, a, coins).map_values(|q: Posting| posting_denom_value(q, d)).len() == 0);
    } else {
        lemma_leg_postings_denom(defs, tx, a, coins.drop_last(), d);
        lemma_net_concat(
            leg_postings(defs, tx, a, coins.drop_last()),
            coin_postings(defs, tx, a, coins.last()),
        );
        lemma_coin_postings_denom(defs, tx, a, coins.last(), d);
        lemma_total_drop_last_map(coins, |c: Coin| coin_value(c, d));
        lemma_total_drop_last_map(coins, |c: Coin| coin_burn(defs, tx, a, c, d));
    }
}

proof fn lemma_input_postings_denom(defs: Seq<DenomDefinition>, tx: MultiSend, legs: Seq<Balance>, d: Seq<char>)
    ensures
        denom_net(input_postings(defs, tx, legs), d) == -(legs_sum(legs, d) + legs_burn(defs, tx, legs, d)),
    decreases legs.len(),
{
    if legs.len() == 0 {
        assert(legs.map_values(|b: Balance| leg_value(b, d, None)).len() == 0);
        assert(legs.map_values(|b: Balance| leg_burn(defs, tx, b, d)).len() == 0);
        assert(input_postings(defs, tx, legs).map_values(|q: Posting| posting_denom_value(q, d)).len() == 0);
    } else {
        let b = legs.last();
        lemma_input_postings_denom(defs, tx, legs.drop_last(), d);
        lemma_net_concat(
            input_postings(defs, tx, legs.drop_last()),
            leg_postings(defs, tx, b.address@, b.coins@),
        );
        lemma_leg_postings_denom(defs, tx, b.address@, b.coins@, d);
        lemma_total_drop_last_map(legs, |b: Balance| leg_value(b, d, None));
        lemma_total_drop_last_map(legs, |b: Balance| leg_burn(defs, tx, b, d));
    }
}

proof fn lemma_output_postings_denom(legs: Seq<Balance>, d: Seq<char>)
    ensures
        denom_net(output_postings(legs), d) == legs_sum(legs, d),
    decreases legs.len(),
{
    if legs.len() == 0 {
        assert(legs.map_values(|b: Balance| leg_value(b, d, None)).len() == 0);
        assert(output_postings(legs).map_values(|q: Posting| posting_denom_value(q, d)).len() == 0);
    } else {
        let b = legs.last();
        lemma_output_postings_denom(legs.drop_last(), d);
        lemma_net_concat(output_postings(legs.drop_last()), credit_postings(b.address@, b.coins@));
        assert(credit_postings(b.address@, b.coins@).map_values(|q: Posting| posting_denom_value(q, d))
            =~= b.coins@.map_values(|c: Coin| coin_value(c, d)));
        lemma_total_drop_last_map(legs, |b: Balance| leg_value(b, d, None));
    }
}

/// Burn leaves the ledger and nothing else does: in the settlement of a
/// transfer, the changes in any denomination add up to minus what the
/// transfer burns of it.
pub proof fn lemma_settlement_loses_only_burn(
    balances: Seq<Balance>,
    defs: Seq<DenomDefinition>,
    tx: MultiSend,
    s: Vec<Balance>,
    d: Seq<char>,
)
    requires
        settlement_outcome(balances, defs, tx, Ok(s)),
    ensures
        legs_sum(s@, d) == -total_burn(defs, tx, d),
{
    lemma_input_postings_denom(defs, tx, tx.inputs@, d);
    lemma_output_postings_denom(tx.outputs@, d);
    lemma_net_concat(input_postings(defs, tx, tx.inputs@), output_postings(tx.outputs@));
    assert(legs_sum(tx.inputs@, d) == legs_sum(tx.outputs@, d));
}

/// No definition of `defs` charges a fee.
pub open spec fn fee_free(defs: Seq<DenomDefinition>) -> bool {
    forall|k: int|
        0 <= k < defs.len() ==> (#[trigger] defs[k]).burn_rate.numerator == 0
            && defs[k].commission_rate.numerator == 0
}

proof fn lemma_fee_free_fees(defs: Seq<DenomDefinition>, tx: MultiSend, a: Seq<char>, d: Seq<char>, x: int)
    requires
        definitions_wf(defs),
        fee_free(defs),
    ensures
        burn_fee(defs, tx, a, d, x) == 0,
        commission_fee(defs, tx, a, d, x) == 0,
{
    lemma_definition_is_listed(defs, d);
    if let Some(def) = definition_of(defs, d) {
        let k = choose|k: int| 0 <= k < defs.len() && defs[k] == def;
        assert(defs[k].wf());
        let s = crate::model::non_issuer_input_sum(defs, tx, d);
        if s > 0 {
            let dd = def.burn_rate.denominator * s;
            let dc = def.commission_rate.denominator * s;
            assert(dd > 0 && dc > 0) by (nonlinear_arith)
                requires
                    def.burn_rate.denominator > 0,
                    def.commission_rate.denominator > 0,
                    s > 0,
                    dd == def.burn_rate.denominator * s,
                    dc == def.commission_rate.denominator * s,
            ;
            let base = crate::model::burn_base(defs, tx, d);
            assert(defs[k].burn_rate.numerator == 0 && defs[k].commission_rate.numerator == 0);
            assert(base * def.burn_rate.numerator * x == 0) by (nonlinear_arith)
                requires def.burn_rate.numerator == 0;
            assert(base * def.commission_rate.numerator * x == 0) by (nonlinear_arith)
                requires def.commission_rate.numerator == 0;
            vstd::arithmetic::div_mod::lemma_basic_div(dd - 1, dd);
            vstd::arithmetic::div_mod::lemma_basic_div(dc - 1, dc);
        }
    }
}

proof fn lemma_leg_postings_fee_free(
    defs: Seq<DenomDefinition>,
    tx: MultiSend,
    a: Seq<char>,
    coins: Seq<Coin>,
    a2: Seq<char>,
    d: Seq<char>,
)
    requires
        definitions_wf(defs),
        fee_free(defs),
    ensures
        net(leg_postings(defs, tx, a, coins), a2, d) == if a == a2 {
            -coins_sum(coins, d)
        } else {
            0
        },
    decreases coins.len(),
{
    if coins.len() == 0 {
        assert(coins.map_values(|c: Coin| coin_value(c, d)).len() == 0);
        assert(leg_postings(defs, tx, a, coins).map_values(|q: Posting| posting_value(q, a2, d)).len() == 0);
    } else {
        let c = coins.last();
        lemma_leg_postings_fee_free(defs, tx, a, coins.drop_last(), a2, d);
        lemma_net_concat(
            leg_postings(defs, tx, a, coins.drop_last()),
            coin_postings(defs, tx, a, c),
        );
        lemma_fee_free_fees(defs, tx, a, c.denom@, c.amount as int);
        lemma_small_nets(coin_postings(defs, tx, a, c), a2, d);
        lemma_total_drop_last_map(coins, |c: Coin| coin_value(c, d));
    }
}

proof fn lemma_input_postings_fee_free(
    defs: Seq<DenomDefinition>,
    tx: MultiSend,
    legs: Seq<Balance>,
    a: Seq<char>,
    d: Seq<char>,
)
    requires
        definitions_wf(defs),
        fee_free(defs),
    ensures
        net(input_postings(defs, tx, legs), a, d) == -amount_of(legs, a, d),
    decreases legs.len(),
{
    if legs.len() == 0 {
        assert(legs.map_values(|b: Balance| address_value(b, a, d)).len() == 0);
        assert(input_postings(defs, tx, legs).map_values(|q: Posting| posting_value(q, a, d)).len() == 0);
    } else {
        let b = legs.last();
        lemma_input_postings_fee_free(defs, tx, legs.drop_last(), a, d);
        lemma_net_concat(
            input_postings(defs, tx, legs.drop_last()),
            leg_postings(defs, tx, b.address@, b.coins@),
        );
        lemma_leg_postings_fee_free(defs, tx, b.address@, b.coins@, a, d);
        lemma_total_drop_last_map(legs, |b: Balance| address_value(b, a, d));
    }
}

proof fn lemma_output_postings_net(legs: Seq<Balance>, a: Seq<char>, d: Seq<char>)
    ensures
        net(output_postings(legs), a, d) == amount_of(legs, a, d),
    decreases legs.len(),
{
    if legs.len() == 0 {
        assert(legs.map_values(|b: Balance| address_value(b, a, d)).len() == 0);
        assert(output_postings(legs).map_values(|q: Posting| posting_value(q, a, d)).len() == 0);
    } else {
        let b = legs.last();
        lemma_output_postings_net(legs.drop_last(), a, d);
        lemma_net_concat(output_postings(legs.drop_last()), credit_postings(b.address@, b.coins@));
        if b.address@ == a {
            assert(credit_postings(b.address@, b.coins@).map_values(|q: Posting| posting_value(q, a, d))
                =~= b.coins@.map_values(|c: Coin| coin_value(c, d)));
        } else {
            assert(credit_postings(b.address@, b.coins@).map_values(|q: Posting| posting_value(q, a, d))
                =~= Seq::new(b.coins@.len(), |k: int| 0int));
            crate::sums::lemma_total_zero(Seq::new(b.coins@.len(), |k: int| 0int));
        }
        lemma_total_drop_last_map(legs, |b: Balance| address_value(b, a, d));
    }
}

/// Without fees a settlement moves only what the legs say: each address gains
/// in each denomination what the outputs credit it, less what the inputs debit it.
pub proof fn lemma_fee_free_settlement(
    balances: Seq<Balance>,
    defs: Seq<DenomDefinition>,
    tx: MultiSend,
    s: Vec<Balance>,
    a: Seq<char>,
    d: Seq<char>,
)
    requires
        settlement_outcome(balances, defs, tx, Ok(s)),
        definitions_wf(defs),
        fee_free(defs),
    ensures
        amount_of(s@, a, d) == amount_of(tx.outputs@, a, d) - amount_of(tx.inputs@, a, d),
{
    lemma_input_postings_fee_free(defs, tx, tx.inputs@, a, d);
    lemma_output_postings_net(tx.outputs@, a, d);
    lemma_net_concat(input_postings(defs, tx, tx.inputs@), output_postings(tx.outputs@));
}

/// The issuer of a denomination sends it free of fees: it needs to hold only
/// what it sends, and its one posting is the debit of that amount.
pub proof fn lemma_issuer_sends_fee_free(defs: Seq<DenomDefinition>, tx: MultiSend, a: Seq<char>, c: Coin)
    requires
        issuer_of(defs, c.denom@) == Some(a),
    ensures
        burn_fee(defs, tx, a, c.denom@, c.amount as int) == 0,
        commission_fee(defs, tx, a, c.denom@, c.amount as int) == 0,
        required(defs, tx, a, c) == c.amount,
        coin_postings(defs, tx, a, c) == seq![(a, c.denom@, -c.amount as int)],
{
}

proof fn lemma_coins_shortfall_found(
    balances: Seq<Balance>,
    defs: Seq<DenomDefinition>,
    tx: MultiSend,
    a: Seq<char>,
    coins: Seq<Coin>,
    j: int,
)
    requires
        0 <= j < coins.len(),
        falls_short(balances, defs, tx, a, coins[j]),
    ensures
        coins_shortfall(balances, defs, tx, a, coins) is Some,
    decreases coins.len(),
{
    if j < coins.len() - 1 {
        lemma_coins_shortfall_found(balances, defs, tx, a, coins.drop_last(), j);
    }
}

proof fn lemma_coins_shortfall_names(
    balances: Seq<Balance>,
    defs: Seq<DenomDefinition>,
    tx: MultiSend,
    a: Seq<char>,
    coins: Seq<Coin>,
)
    ensures
        coins_shortfall(balances, defs, tx, a, coins) matches Some(s) ==> s.0 == a && exists|q: int|
            0 <= q < coins.len() && coins[q].denom@ == s.1 && falls_short(balances, defs, tx, a, coins[q]),
    decreases coins.len(),
{
    if coins.len() > 0 {
        lemma_coins_shortfall_names(balances, defs, tx, a, coins.drop_last());
        if let Some(s) = coins_shortfall(balances, defs, tx, a, coins.drop_last()) {
            let q = choose|q: int|
                0 <= q < coins.drop_last().len() && coins.drop_last()[q].denom@ == s.1 && falls_short(
                    balances,
                    defs,
                    tx,
                    a,
                    coins.drop_last()[q],
                );
            assert(coins[q] == coins.drop_last()[q]);
        } else if falls_short(balances, defs, tx, a, coins.last()) {
            assert(coins[coins.len() - 1] == coins.last());
        }
    }
}

proof fn lemma_legs_shortfall_found(
    balances: Seq<Balance>,
    defs: Seq<DenomDefinition>,
    tx: MultiSend,
    legs: Seq<Balance>,
    i: int,
    j: int,
)
    requires
        0 <= i < legs.len(),
        0 <= j < legs[i].coins@.len(),
        falls_short(balances, defs, tx, legs[i].address@, legs[i].coins@[j]),
    ensures
        legs_shortfall(balances, defs, tx, legs) is Some,
    decreases legs.len(),
{
    if i < legs.len() - 1 {
        lemma_legs_shortfall_found(balances, defs, tx, legs.drop_last(), i, j);
    } else {
        lemma_coins_shortfall_found(balances, defs, tx, legs[i].address@, legs[i].coins@, j);
    }
}

proof fn lemma_legs_shortfall_names(
    balances: Seq<Balance>,
    defs: Seq<DenomDefinition>,
    tx: MultiSend,
    legs: Seq<Balance>,
)
    ensures
        legs_shortfall(balances, defs, tx, legs) matches Some(s) ==> exists|p: int, q: int|
            0 <= p < legs.len() && 0 <= q < legs[p].coins@.len() && legs[p].address@ == s.0
                && legs[p].coins@[q].denom@ == s.1 && falls_short(
                balances,
                defs,
                tx,
                legs[p].address@,
                legs[p].coins@[q],
            ),
    decreases legs.len(),
{
    if legs.len() > 0 {
        let init = legs.drop_last();
        lemma_legs_shortfall_names(balances, defs, tx, init);
        if let Some(s) = legs_shortfall(balances, defs, tx, init) {
            let (p, q) = choose|p: int, q: int|
                0 <= p < init.len() && 0 <= q < init[p].coins@.len() && init[p].address@ == s.0
                    && init[p].coins@[q].denom@ == s.1 && falls_short(
                    balances,
                    defs,
                    tx,
                    init[p].address@,
                    init[p].coins@[q],
                );
            assert(legs[p] == init[p]);
        } else {
            let b = legs.last();
            lemma_coins_shortfall_names(balances, defs, tx, b.address@, b.coins@);
            assert(legs[legs.len() - 1] == b);
        }
    }
}

/// A balanced transfer with an input coin whose sender cannot cover it and its
/// fees is rejected, and the rejection names the address and denomination of
/// an input coin whose sender falls short.
pub proof fn lemma_shortfall_rejects(
    balances: Seq<Balance>,
    defs: Seq<DenomDefinition>,
    tx: MultiSend,
    r: Result<Vec<Balance>, SettlementError>,
    i: int,
    j: int,
)
    requires
        settlement_outcome(balances, defs, tx, r),
        balanced(tx),
        0 <= i < tx.inputs@.len(),
        0 <= j < tx.inputs@[i].coins@.len(),
        falls_short(balances, defs, tx, tx.inputs@[i].address@, tx.inputs@[i].coins@[j]),
    ensures
        r matches Err(SettlementError::InsufficientBalance { address, denom }) && exists|p: int, q: int|
            0 <= p < tx.inputs@.len() && 0 <= q < tx.inputs@[p].coins@.len() && tx.inputs@[p].address@
                == address@ && tx.inputs@[p].coins@[q].denom@ == denom@ && falls_short(
                balances,
                defs,
                tx,
                tx.inputs@[p].address@,
                tx.inputs@[p].coins@[q],
            ),
{
    lemma_legs_shortfall_found(balances, defs, tx, tx.inputs@, i, j);
    lemma_legs_shortfall_names(balances, defs, tx, tx.inputs@);
}

/// The outcome depends on the balances, definitions and transfer alone: two
/// calculations on the same ones reject for the same reason, or settle with
/// the same change for every address and denomination.
pub proof fn lemma_outcome_is_determined(
    balances: Seq<Balance>,
    defs: Seq<DenomDefinition>,
    tx: MultiSend,
    r1: Result<Vec<Balance>, SettlementError>,
    r2: Result<Vec<Balance>, SettlementError>,
)
    requires
        settlement_outcome(balances, defs, tx, r1),
        settlement_outcome(balances, defs, tx, r2),
    ensures
        match (r1, r2) {
            (Ok(s1), Ok(s2)) => {
                &&& forall|a: Seq<char>, d: Seq<char>| #[trigger] amount_of(s1@, a, d) == amount_of(s2@, a, d)
                &&& forall|d: Seq<char>| #[trigger] legs_sum(s1@, d) == legs_sum(s2@, d)
            },
            (Err(SettlementError::UnbalancedTransaction), Err(SettlementError::UnbalancedTransaction)) => true,
            (
                Err(SettlementError::InsufficientBalance { address: a1, denom: d1 }),
                Err(SettlementError::InsufficientBalance { address: a2, denom: d2 }),
            ) => a1@ == a2@ && d1@ == d2@,
            _ => false,
        },
{
    if let (Ok(s1), Ok(s2)) = (r1, r2) {
        assert forall|a: Seq<char>, d: Seq<char>| #[trigger] amount_of(s1@, a, d) == amount_of(s2@, a, d) by {
            assert(amount_of(s1@, a, d) == net(postings_of(defs, tx), a, d));
            assert(amount_of(s2@, a, d) == net(postings_of(defs, tx), a, d));
        }
        assert forall|d: Seq<char>| #[trigger] legs_sum(s1@, d) == legs_sum(s2@, d) by {
            assert(legs_sum(s1@, d) == denom_net(postings_of(defs, tx), d));
            assert(legs_sum(s2@, d) == denom_net(postings_of(defs, tx), d));
        }
    }
}

/// The commission charged on input coin `c` of sender `a`, counted in denomination `d`.
pub open spec fn coin_commission(defs: Seq<DenomDefinition>, tx: MultiSend, a: Seq<char>, c: Coin, d: Seq<char>) -> int {
    if c.denom@ == d {
        commission_fee(defs, tx, a, d, c.amount as int)
    } else {
        0
    }
}

/// The commission charged on the coins of input leg `b` in denomination `d`.
pub open spec fn leg_commission(defs: Seq<DenomDefinition>, tx: MultiSend, b: Balance, d: Seq<char>) -> int {
    total(b.coins@.map_values(|c: Coin| coin_commission(defs, tx, b.address@, c, d)))
}

/// The commission charged on input legs `legs` in denomination `d`.
pub open spec fn legs_commission(defs: Seq<DenomDefinition>, tx: MultiSend, legs: Seq<Balance>, d: Seq<char>) -> int {
    total(legs.map_values(|b: Balance| leg_commission(defs, tx, b, d)))
}

/// All the commission that transfer `tx` charges in denomination `d`.
pub open spec fn total_commission(defs: Seq<DenomDefinition>, tx: MultiSend, d: Seq<char>) -> int {
    legs_commission(defs, tx, tx.inputs@, d)
}

proof fn lemma_leg_postings_issuer(
    defs: Seq<DenomDefinition>,
    tx: MultiSend,
    a: Seq<char>,
    coins: Seq<Coin>,
    issuer: Seq<char>,
    d: Seq<char>,
)
    requires
        issuer_of(defs, d) == Some(issuer),
    ensures
        net(leg_postings(defs, tx, a, coins), issuer, d) == (if a == issuer {
            -coins_sum(coins, d)
        } else {
            0
        }) + total(coins.map_values(|c: Coin| coin_commission(defs, tx, a, c, d))),
    decreases coins.len(),
{
    if coins.len() == 0 {
        assert(coins.map_values(|c: Coin| coin_value(c, d)).len() == 0);
        assert(coins.map_values(|c: Coin| coin_commission(defs, tx, a, c, d)).len() == 0);
        assert(leg_postings(defs, tx, a, coins).map_values(|q: Posting| posting_value(q, issuer, d)).len()
            == 0);
    } else {
        let c = coins.last();
        lemma_leg_postings_issuer(defs, tx, a, coins.drop_last(), issuer, d);
        lemma_net_concat(
            leg_postings(defs, tx, a, coins.drop_last()),
            coin_postings(defs, tx, a, c),
        );
        lemma_small_nets(coin_postings(defs, tx, a, c), issuer, d);
        lemma_total_drop_last_map(coins, |c: Coin| coin_value(c, d));
        lemma_total_drop_last_map(coins, |c: Coin| coin_commission(defs, tx, a, c, d));
    }
}

proof fn lemma_input_postings_issuer(
    defs: Seq<DenomDefinition>,
    tx: MultiSend,
    legs: Seq<Balance>,
    issuer: Seq<char>,
    d: Seq<char>,
)
    requires
        issuer_of(defs, d) == Some(issuer),
    ensures
        net(input_postings(defs, tx, legs), issuer, d) == -amount_of(legs, issuer, d) + legs_commission(
            defs,
            tx,
            legs,
            d,
        ),
    decreases legs.len(),
{
    if legs.len() == 0 {
        assert(legs.map_values(|b: Balance| address_value(b, issuer, d)).len() == 0);
        assert(legs.map_values(|b: Balance| leg_commission(defs, tx, b, d)).len() == 0);
        assert(input_postings(defs, tx, legs).map_values(|q: Posting| posting_value(q, issuer, d)).len()
            == 0);
    } else {
        let b = legs.last();
        lemma_input_postings_issuer(defs, tx, legs.drop_last(), issuer, d);
        lemma_net_concat(
            input_postings(defs, tx, legs.drop_last()),
            leg_postings(defs, tx, b.address@, b.coins@),
        );
        lemma_leg_postings_issuer(defs, tx, b.address@, b.coins@, issuer, d);
        lemma_total_drop_last_map(legs, |b: Balance| address_value(b, issuer, d));
        lemma_total_drop_last_map(legs, |b: Balance| leg_commission(defs, tx, b, d));
    }
}

/// The issuer of a denomination pays no fees on what it sends of it: in a
/// settlement its change in that denomination is what the outputs credit it,
/// less what it sends, plus the commission that the other senders pay.
pub proof fn lemma_issuer_change(
    balances: Seq<Balance>,
    defs: Seq<DenomDefinition>,
    tx: MultiSend,
    s: Vec<Balance>,
    issuer: Seq<char>,
    d: Seq<char>,
)
    requires
        settlement_outcome(balances, defs, tx, Ok(s)),
        issuer_of(defs, d) == Some(issuer),
    ensures
        amount_of(s@, issuer, d) == amount_of(tx.outputs@, issuer, d) - amount_of(tx.inputs@, issuer, d)
            + total_commission(defs, tx, d),
{
    lemma_input_postings_issuer(defs, tx, tx.inputs@, issuer, d);
    lemma_output_postings_net(tx.outputs@, issuer, d);
    lemma_net_concat(input_postings(defs, tx, tx.inputs@), output_postings(tx.outputs@));
}

} // verus!
