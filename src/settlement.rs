//! The settlement calculation: checks a transfer, charges its fees, and returns
//! the net change of every address, or the reason the transfer is rejected.
use vstd::prelude::*;

use crate::arith::{evaluate_rate, min};
use crate::ledger::{
    find_definition, has_totals, held_amount, indexes_balances, indexes_definitions, totals_correct,
    totals_cover, TxData,
};
use crate::model::{
    balanced, coin_postings, coins_shortfall, credit_postings, definitions_wf, denom_net,
    amounts_fit, falls_short, first_shortfall, input_postings, instruction_fits, issuer_of, leg_postings,
    legs_shortfall, ledger_wf, net, output_postings, posting_denom_value, posting_value,
    postings_of, settles, Posting,
};
use crate::sums::{
    amount_of, coin_value, coins_total, leg_value, legs_sum, legs_sum_excluding,
    lemma_coins_bounds, lemma_coins_prefix_bounds, lemma_legs_bounds, lemma_prefix_bounds,
    lemma_total_concat_map, lemma_total_prefix, lemma_total_push_map, lemma_total_zero,
    non_negative, side_total, sum_for_denom,
};
use crate::types::{Balance, Coin, DenomDefinition, MultiSend, SettlementError, MAX_TOTAL};

verus! {

/// No coin of `legs` is of denomination `d`.
pub open spec fn lacks_denom(legs: Seq<Balance>, d: Seq<char>) -> bool {
    forall|i: int, j: int|
        0 <= i < legs.len() && 0 <= j < legs[i].coins@.len() ==> (#[trigger] legs[i].coins@[j]).denom@ != d
}

proof fn lemma_lacking_sums_to_zero(legs: Seq<Balance>, d: Seq<char>)
    requires
        lacks_denom(legs, d),
    ensures
        legs_sum(legs, d) == 0,
{
    let f = |b: Balance| leg_value(b, d, None);
    assert forall|i: int| 0 <= i < legs.len() implies #[trigger] legs.map_values(f)[i] == 0 by {
        let g = |c: Coin| coin_value(c, d);
        assert forall|j: int| 0 <= j < legs[i].coins@.len() implies #[trigger] legs[i].coins@.map_values(
            g,
        )[j] == 0 by {
            assert(legs[i].coins@[j].denom@ != d);
        }
        lemma_total_zero(legs[i].coins@.map_values(g));
    }
    lemma_total_zero(legs.map_values(f));
}

/// Whether inputs and outputs of `tx` add up the same in every denomination
/// that some coin of `side` has.
fn denoms_of_side_balance(tx: &MultiSend, side: &Vec<Balance>) -> (r: bool)
    requires
        amounts_fit(*tx),
    ensures
        r == forall|i: int, j: int|
            0 <= i < side@.len() && 0 <= j < side@[i].coins@.len() ==> legs_sum(
                tx.inputs@,
                (#[trigger] side@[i].coins@[j]).denom@,
            ) == legs_sum(tx.outputs@, side@[i].coins@[j].denom@),
{
    let mut i: usize = 0;
    while i < side.len()
        invariant
            i <= side@.len(),
            amounts_fit(*tx),
            forall|p: int, j: int|
                0 <= p < i && 0 <= j < side@[p].coins@.len() ==> legs_sum(
                    tx.inputs@,
                    (#[trigger] side@[p].coins@[j]).denom@,
                ) == legs_sum(tx.outputs@, side@[p].coins@[j].denom@),
        decreases side@.len() - i,
    {
        let mut j: usize = 0;
        while j < side[i].coins.len()
            invariant
                i < side@.len(),
                j <= side@[i as int].coins@.len(),
                amounts_fit(*tx),
                forall|p: int, q: int|
                    0 <= p < i && 0 <= q < side@[p].coins@.len() ==> legs_sum(
                        tx.inputs@,
                        (#[trigger] side@[p].coins@[q]).denom@,
                    ) == legs_sum(tx.outputs@, side@[p].coins@[q].denom@),
                forall|q: int|
                    0 <= q < j ==> legs_sum(tx.inputs@, (#[trigger] side@[i as int].coins@[q]).denom@)
                        == legs_sum(tx.outputs@, side@[i as int].coins@[q].denom@),
            decreases side@[i as int].coins@.len() - j,
        {
            let denom = &side[i].coins[j].denom;
            let sent = sum_for_denom(&tx.inputs, denom, None);
            let received = sum_for_denom(&tx.outputs, denom, None);
            if sent != received {
                return false;
            }
            j = j + 1;
        }
        i = i + 1;
    }
    true
}

impl MultiSend {
    /// Checks that for every denomination the inputs and the outputs add up
    /// the same.
    pub fn validate_multi_send_tx(&self) -> (r: Result<(), SettlementError>)
        requires
            amounts_fit(*self),
        ensures
            r == if balanced(*self) {
                Ok::<(), SettlementError>(())
            } else {
                Err(SettlementError::UnbalancedTransaction)
            },
    {
        let inputs_ok = denoms_of_side_balance(self, &self.inputs);
        let outputs_ok = denoms_of_side_balance(self, &self.outputs);
        if inputs_ok && outputs_ok {
            assert forall|d: Seq<char>| #[trigger] legs_sum(self.inputs@, d) == legs_sum(self.outputs@, d) by {
                if lacks_denom(self.inputs@, d) && lacks_denom(self.outputs@, d) {
                    lemma_lacking_sums_to_zero(self.inputs@, d);
                    lemma_lacking_sums_to_zero(self.outputs@, d);
                }
            }
            Ok(())
        } else {
            Err(SettlementError::UnbalancedTransaction)
        }
    }
}

proof fn lemma_net_one(ps: Seq<Posting>, p: Posting)
    requires
        ps == seq![p],
    ensures
        forall|a: Seq<char>, d: Seq<char>| #[trigger] net(ps, a, d) == posting_value(p, a, d),
        forall|d: Seq<char>| #[trigger] denom_net(ps, d) == posting_denom_value(p, d),
{
    assert(Seq::<Posting>::empty().push(p) =~= ps);
    assert forall|a: Seq<char>, d: Seq<char>| #[trigger] net(ps, a, d) == posting_value(p, a, d) by {
        lemma_total_push_map(Seq::<Posting>::empty(), |q: Posting| posting_value(q, a, d), p);
        assert(Seq::<Posting>::empty().map_values(|q: Posting| posting_value(q, a, d))
            =~= Seq::<int>::empty());
    }
    assert forall|d: Seq<char>| #[trigger] denom_net(ps, d) == posting_denom_value(p, d) by {
        lemma_total_push_map(Seq::<Posting>::empty(), |q: Posting| posting_denom_value(q, d), p);
        assert(Seq::<Posting>::empty().map_values(|q: Posting| posting_denom_value(q, d))
            =~= Seq::<int>::empty());
    }
}

proof fn lemma_net_two(ps: Seq<Posting>, p: Posting, q: Posting)
    requires
        ps == seq![p, q],
    ensures
        forall|a: Seq<char>, d: Seq<char>|
            #[trigger] net(ps, a, d) == posting_value(p, a, d) + posting_value(q, a, d),
        forall|d: Seq<char>|
            #[trigger] denom_net(ps, d) == posting_denom_value(p, d) + posting_denom_value(q, d),
{
    let first = seq![p];
    lemma_net_one(first, p);
    assert(first.push(q) =~= ps);
    assert forall|a: Seq<char>, d: Seq<char>|
        #[trigger] net(ps, a, d) == posting_value(p, a, d) + posting_value(q, a, d) by {
        lemma_total_push_map(first, |r: Posting| posting_value(r, a, d), q);
        assert(net(first, a, d) == posting_value(p, a, d));
    }
    assert forall|d: Seq<char>|
        #[trigger] denom_net(ps, d) == posting_denom_value(p, d) + posting_denom_value(q, d) by {
        lemma_total_push_map(first, |r: Posting| posting_denom_value(r, d), q);
        assert(denom_net(first, d) == posting_denom_value(p, d));
    }
}

/// A coin of a leg that is not `excluded`'s counts in full towards the sum of its denomination.
proof fn lemma_coin_le_sum(legs: Seq<Balance>, i: int, j: int, excluded: Option<Seq<char>>)
    requires
        non_negative(legs),
        0 <= i < legs.len(),
        0 <= j < legs[i].coins@.len(),
        excluded != Some(legs[i].address@),
    ensures
        0 <= legs[i].coins@[j].amount <= legs_sum_excluding(legs, legs[i].coins@[j].denom@, excluded),
{
    let d = legs[i].coins@[j].denom@;
    let coins = legs[i].coins@;
    let g = |c: Coin| coin_value(c, d);
    let f = |b: Balance| leg_value(b, d, excluded);
    assert forall|k: int| 0 <= k < coins.len() implies #[trigger] coins.map_values(g)[k] >= 0 by {
        assert(coins[k].amount >= 0);
    }
    lemma_total_prefix(coins.map_values(g), j);
    assert forall|k: int| 0 <= k < legs.len() implies #[trigger] legs.map_values(f)[k] >= 0 by {
        lemma_coins_bounds(legs[k].coins@, d);
    }
    lemma_total_prefix(legs.map_values(f), i);
}

/// The input coin `j` of input leg `i` of `tx`.
pub open spec fn input_coin(tx: MultiSend, i: int, j: int) -> Coin {
    tx.inputs@[i].coins@[j]
}

impl TxData {
    /// Ready to post: the transfer fits, the rates are valid, the fee sums are
    /// in place and the ledger has distinct keys.
    pub open spec fn prepared(&self) -> bool {
        &&& instruction_fits(self.multi_send_tx)
        &&& definitions_wf(self.definitions@)
        &&& indexes_balances(self.balances_map@, self.original_balances@)
        &&& indexes_definitions(self.denom_definitions_map@, self.definitions@)
        &&& totals_correct(self.definitions@, self.multi_send_tx, self.denom_totals@)
        &&& totals_cover(self.multi_send_tx, self.denom_totals@)
        &&& ledger_wf(self.coin_balance_changes@)
    }

    /// Every accumulated change lies between `lo` and `hi`.
    pub open spec fn within(&self, lo: int, hi: int) -> bool {
        forall|a: Seq<char>, d: Seq<char>|
            lo <= #[trigger] amount_of(self.coin_balance_changes@, a, d) <= hi
    }

    /// Posts input coin `j` of input leg `i` with its fees, or reports that its
    /// sender cannot cover them.
    fn charge_input(&mut self, i: usize, j: usize) -> (r: Result<(), SettlementError>)
        requires
            old(self).prepared(),
            i < old(self).multi_send_tx.inputs@.len(),
            j < old(self).multi_send_tx.inputs@[i as int].coins@.len(),
            old(self).within(
                3 * input_coin(old(self).multi_send_tx, i as int, j as int).amount - i128::MAX,
                i128::MAX - input_coin(old(self).multi_send_tx, i as int, j as int).amount,
            ),
        ensures
            final(self).unchanged_inputs(old(self)),
            ({
                let tx = old(self).multi_send_tx;
                let defs = old(self).definitions@;
                let a = tx.inputs@[i as int].address@;
                let c = input_coin(tx, i as int, j as int);
                let ps = coin_postings(defs, tx, a, c);
                match r {
                    Ok(()) => {
                        &&& !falls_short(old(self).original_balances@, defs, tx, a, c)
                        &&& final(self).prepared()
                        &&& forall|x: Seq<char>, d: Seq<char>|
                            #[trigger] amount_of(final(self).coin_balance_changes@, x, d) == amount_of(
                                old(self).coin_balance_changes@,
                                x,
                                d,
                            ) + net(ps, x, d)
                        &&& forall|d: Seq<char>|
                            #[trigger] legs_sum(final(self).coin_balance_changes@, d) == legs_sum(
                                old(self).coin_balance_changes@,
                                d,
                            ) + denom_net(ps, d)
                        &&& forall|x: Seq<char>, d: Seq<char>|
                            -3 * c.amount <= #[trigger] net(ps, x, d) <= c.amount
                    },
                    Err(e) => {
                        &&& falls_short(old(self).original_balances@, defs, tx, a, c)
                        &&& e matches SettlementError::InsufficientBalance { address, denom } && address@
                            == a && denom@ == c.denom@
                    },
                }
            }),
    {
        let ghost tx = self.multi_send_tx;
        let ghost defs = self.definitions@;
        let address = self.multi_send_tx.inputs[i].address.clone();
        let denom = self.multi_send_tx.inputs[i].coins[j].denom.clone();
        let x = self.multi_send_tx.inputs[i].coins[j].amount;
        proof {
            lemma_coin_le_sum(tx.inputs@, i as int, j as int, None);
            lemma_legs_bounds(tx.inputs@, denom@, None);
        }
        let mut burn: i128 = 0;
        let mut comm: i128 = 0;
        let mut issuer: Option<String> = None;
        match find_definition(&self.denom_definitions_map, &denom) {
            Some(k) => {
                if !(self.denom_definitions_map[k].issuer == address) {
                    proof {
                        lemma_coin_le_sum(tx.inputs@, i as int, j as int, issuer_of(defs, denom@));
                        lemma_legs_bounds(tx.inputs@, denom@, issuer_of(defs, denom@));
                        lemma_legs_bounds(tx.outputs@, denom@, issuer_of(defs, denom@));
                        assert(has_totals(self.denom_totals@, tx.inputs@[i as int].coins@[j as int].denom@));
                        crate::model::lemma_definition_is_listed(defs, denom@);
                        let m = choose|m: int|
                            0 <= m < defs.len() && defs[m] == self.denom_definitions_map@[k as int];
                        assert(defs[m].wf());
                    }
                    let (s_in, s_out) = self.totals_for(&denom);
                    let base = min(s_in, s_out);
                    burn = evaluate_rate(x, self.denom_definitions_map[k].burn_rate, base, s_in);
                    comm = evaluate_rate(x, self.denom_definitions_map[k].commission_rate, base, s_in);
                    issuer = Some(self.denom_definitions_map[k].issuer.clone());
                }
            },
            None => {},
        }
        let ghost c = input_coin(tx, i as int, j as int);
        assert(burn == crate::model::burn_fee(defs, tx, address@, denom@, x as int));
        assert(comm == crate::model::commission_fee(defs, tx, address@, denom@, x as int));
        let need = x + burn + comm;
        let have = held_amount(&self.balances_map, &address, &denom);
        if have < need {
            return Err(SettlementError::InsufficientBalance { address, denom });
        }
        let ghost before = self.coin_balance_changes@;
        let ghost debit: Posting = (address@, denom@, -need as int);
        self.record(&address, &denom, -need);
        match issuer {
            Some(iss) => {
                if comm != 0 {
                    let ghost credit: Posting = (iss@, denom@, comm as int);
                    self.record(&iss, &denom, comm);
                    proof {
                        lemma_net_two(coin_postings(defs, tx, address@, c), debit, credit);
                    }
                } else {
                    proof {
                        lemma_net_one(coin_postings(defs, tx, address@, c), debit);
                    }
                }
            },
            None => {
                proof {
                    lemma_net_one(coin_postings(defs, tx, address@, c), debit);
                }
            },
        }
        Ok(())
    }
}

/// The net changes of two runs of postings add up.
pub proof fn lemma_net_concat(p1: Seq<Posting>, p2: Seq<Posting>)
    ensures
        forall|a: Seq<char>, d: Seq<char>| #[trigger] net(p1 + p2, a, d) == net(p1, a, d) + net(p2, a, d),
        forall|d: Seq<char>| #[trigger] denom_net(p1 + p2, d) == denom_net(p1, d) + denom_net(p2, d),
{
    assert forall|a: Seq<char>, d: Seq<char>| #[trigger] net(p1 + p2, a, d) == net(p1, a, d) + net(p2, a, d) by {
        lemma_total_concat_map(p1, p2, |q: Posting| posting_value(q, a, d));
    }
    assert forall|d: Seq<char>| #[trigger] denom_net(p1 + p2, d) == denom_net(p1, d) + denom_net(p2, d) by {
        lemma_total_concat_map(p1, p2, |q: Posting| posting_denom_value(q, d));
    }
}

proof fn lemma_net_push(ps: Seq<Posting>, p: Posting)
    ensures
        forall|a: Seq<char>, d: Seq<char>| #[trigger] net(ps.push(p), a, d) == net(ps, a, d) + posting_value(p, a, d),
        forall|d: Seq<char>| #[trigger] denom_net(ps.push(p), d) == denom_net(ps, d) + posting_denom_value(p, d),
{
    assert forall|a: Seq<char>, d: Seq<char>| #[trigger] net(ps.push(p), a, d) == net(ps, a, d) + posting_value(p, a, d) by {
        lemma_total_push_map(ps, |q: Posting| posting_value(q, a, d), p);
    }
    assert forall|d: Seq<char>| #[trigger] denom_net(ps.push(p), d) == denom_net(ps, d) + posting_denom_value(p, d) by {
        lemma_total_push_map(ps, |q: Posting| posting_denom_value(q, d), p);
    }
}

proof fn lemma_coins_shortfall_extends(
    balances: Seq<Balance>,
    defs: Seq<DenomDefinition>,
    tx: MultiSend,
    a: Seq<char>,
    coins: Seq<Coin>,
    k: int,
)
    requires
        0 <= k <= coins.len(),
        coins_shortfall(balances, defs, tx, a, coins.take(k)) is Some,
    ensures
        coins_shortfall(balances, defs, tx, a, coins) == coins_shortfall(balances, defs, tx, a, coins.take(k)),
    decreases coins.len(),
{
    if k == coins.len() {
        assert(coins.take(k) =~= coins);
    } else {
        assert(coins.drop_last().take(k) =~= coins.take(k));
        lemma_coins_shortfall_extends(balances, defs, tx, a, coins.drop_last(), k);
    }
}

proof fn lemma_legs_shortfall_extends(
    balances: Seq<Balance>,
    defs: Seq<DenomDefinition>,
    tx: MultiSend,
    legs: Seq<Balance>,
    k: int,
)
    requires
        0 <= k <= legs.len(),
        legs_shortfall(balances, defs, tx, legs.take(k)) is Some,
    ensures
        legs_shortfall(balances, defs, tx, legs) == legs_shortfall(balances, defs, tx, legs.take(k)),
    decreases legs.len(),
{
    if k == legs.len() {
        assert(legs.take(k) =~= legs);
    } else {
        assert(legs.drop_last().take(k) =~= legs.take(k));
        lemma_legs_shortfall_extends(balances, defs, tx, legs.drop_last(), k);
    }
}

/// What `calculate_balance_changes` owes on `balances`, `defs` and `tx`: an
/// unbalanced transfer is rejected as such; a balanced one is rejected at its
/// first input coin whose sender cannot cover it and its fees; any other is
/// settled by the net change of its postings.
pub open spec fn settlement_outcome(
    balances: Seq<Balance>,
    defs: Seq<DenomDefinition>,
    tx: MultiSend,
    r: Result<Vec<Balance>, SettlementError>,
) -> bool {
    match r {
        Ok(s) => {
            &&& balanced(tx)
            &&& first_shortfall(balances, defs, tx) == None::<(Seq<char>, Seq<char>)>
            &&& settles(s@, postings_of(defs, tx))
        },
        Err(SettlementError::UnbalancedTransaction) => !balanced(tx),
        Err(SettlementError::InsufficientBalance { address, denom }) => {
            &&& balanced(tx)
            &&& first_shortfall(balances, defs, tx) == Some((address@, denom@))
        },
    }
}

/// The change that the transfer `multi_send_tx` makes to each account, given
/// what the accounts hold before (`original_balances`) and the rules of each
/// denomination (`definitions`), or the reason it is rejected.
pub fn calculate_balance_changes(
    original_balances: Vec<Balance>,
    definitions: Vec<DenomDefinition>,
    multi_send_tx: MultiSend,
) -> (r: Result<Vec<Balance>, SettlementError>)
    requires
        instruction_fits(multi_send_tx),
        definitions_wf(definitions@),
    ensures
        settlement_outcome(original_balances@, definitions@, multi_send_tx, r),
{
    match multi_send_tx.validate_multi_send_tx() {
        Ok(()) => {},
        Err(e) => {
            return Err(e);
        },
    }
    let mut tx = TxData::new(multi_send_tx, original_balances, definitions);
    tx.initialize_balances_map();
    tx.initialize_definitions_map();
    tx.initialize_bc_data();
    let ghost ms = tx.multi_send_tx;
    let ghost defs = tx.definitions@;
    let ghost bals = tx.original_balances@;
    proof {
        assert(ms.inputs@.take(0) =~= Seq::<Balance>::empty());
        assert(input_postings(defs, ms, ms.inputs@.take(0)) =~= Seq::<Posting>::empty());
        assert forall|a: Seq<char>, d: Seq<char>|
            #[trigger] amount_of(tx.coin_balance_changes@, a, d) == net(
                input_postings(defs, ms, ms.inputs@.take(0)),
                a,
                d,
            ) by {
            assert(tx.coin_balance_changes@.map_values(
                |b: Balance| crate::sums::address_value(b, a, d),
            ).len() == 0);
        }
        assert forall|d: Seq<char>|
            #[trigger] legs_sum(tx.coin_balance_changes@, d) == denom_net(
                input_postings(defs, ms, ms.inputs@.take(0)),
                d,
            ) by {
            assert(tx.coin_balance_changes@.map_values(|b: Balance| leg_value(b, d, None)).len() == 0);
        }
    }
    let mut i: usize = 0;
    while i < tx.multi_send_tx.inputs.len()
        invariant
            tx.multi_send_tx == ms,
            tx.definitions@ == defs,
            tx.original_balances@ == bals,
            ms == multi_send_tx,
            defs == definitions@,
            bals == original_balances@,
            i <= ms.inputs@.len(),
            balanced(ms),
            tx.prepared(),
            legs_shortfall(bals, defs, ms, ms.inputs@.take(i as int)) == None::<(Seq<char>, Seq<char>)>,
            forall|a: Seq<char>, d: Seq<char>|
                #[trigger] amount_of(tx.coin_balance_changes@, a, d) == net(
                    input_postings(defs, ms, ms.inputs@.take(i as int)),
                    a,
                    d,
                ),
            forall|d: Seq<char>|
                #[trigger] legs_sum(tx.coin_balance_changes@, d) == denom_net(
                    input_postings(defs, ms, ms.inputs@.take(i as int)),
                    d,
                ),
            tx.within(-3 * side_total(ms.inputs@.take(i as int)), side_total(ms.inputs@.take(i as int))),
        decreases ms.inputs@.len() - i,
    {
        let ghost a = ms.inputs@[i as int].address@;
        let ghost coins = ms.inputs@[i as int].coins@;
        let ghost done = input_postings(defs, ms, ms.inputs@.take(i as int));
        proof {
            lemma_prefix_bounds(ms.inputs@, i as int);
            assert(coins.take(0) =~= Seq::<Coin>::empty());
            assert(done + leg_postings(defs, ms, a, coins.take(0)) =~= done);
        }
        let mut j: usize = 0;
        while j < tx.multi_send_tx.inputs[i].coins.len()
            invariant
                tx.multi_send_tx == ms,
                tx.definitions@ == defs,
                tx.original_balances@ == bals,
                ms == multi_send_tx,
                defs == definitions@,
                bals == original_balances@,
                i < ms.inputs@.len(),
                a == ms.inputs@[i as int].address@,
                coins == ms.inputs@[i as int].coins@,
                done == input_postings(defs, ms, ms.inputs@.take(i as int)),
                j <= coins.len(),
                balanced(ms),
                tx.prepared(),
                legs_shortfall(bals, defs, ms, ms.inputs@.take(i as int)) == None::<(Seq<char>, Seq<char>)>,
                coins_shortfall(bals, defs, ms, a, coins.take(j as int)) == None::<(Seq<char>, Seq<char>)>,
                forall|x: Seq<char>, d: Seq<char>|
                    #[trigger] amount_of(tx.coin_balance_changes@, x, d) == net(
                        done + leg_postings(defs, ms, a, coins.take(j as int)),
                        x,
                        d,
                    ),
                forall|d: Seq<char>|
                    #[trigger] legs_sum(tx.coin_balance_changes@, d) == denom_net(
                        done + leg_postings(defs, ms, a, coins.take(j as int)),
                        d,
                    ),
                tx.within(
                    -3 * (side_total(ms.inputs@.take(i as int)) + coins_total(coins.take(j as int))),
                    side_total(ms.inputs@.take(i as int)) + coins_total(coins.take(j as int)),
                ),
                side_total(ms.inputs@.take(i as int)) + coins_total(coins) <= MAX_TOTAL,
                0 <= side_total(ms.inputs@.take(i as int)),
            decreases coins.len() - j,
        {
            let ghost before = tx.coin_balance_changes@;
            let ghost c = coins[j as int];
            let ghost cp = coin_postings(defs, ms, a, c);
            let ghost prev = leg_postings(defs, ms, a, coins.take(j as int));
            proof {
                lemma_coins_prefix_bounds(coins, Seq::empty(), j as int + 1);
                lemma_coins_prefix_bounds(coins, Seq::empty(), j as int);
                assert(coins.take(j as int + 1).drop_last() =~= coins.take(j as int));
                crate::sums::lemma_total_take_map(coins, |c: Coin| c.amount as int, j as int);
                assert(ms.inputs@[i as int].coins@[j as int].amount >= 0);
            }
            match tx.charge_input(i, j) {
                Err(e) => {
                    proof {
                        assert(coins_shortfall(bals, defs, ms, a, coins.take(j as int + 1)) == Some(
                            (a, c.denom@),
                        ));
                        lemma_coins_shortfall_extends(bals, defs, ms, a, coins, j as int + 1);
                        assert(ms.inputs@.take(i as int + 1).drop_last() =~= ms.inputs@.take(i as int));
                        assert(legs_shortfall(bals, defs, ms, ms.inputs@.take(i as int + 1)) == Some(
                            (a, c.denom@),
                        ));
                        lemma_legs_shortfall_extends(bals, defs, ms, ms.inputs@, i as int + 1);
                        assert(first_shortfall(bals, defs, ms) == Some((a, c.denom@)));
                        assert(e matches SettlementError::InsufficientBalance { address, denom } && address@
                            == a && denom@ == c.denom@);
                    }
                    return Err(e);
                },
                Ok(()) => {},
            }
            proof {
                assert(leg_postings(defs, ms, a, coins.take(j as int + 1)) == prev + cp);
                assert(done + (prev + cp) =~= (done + prev) + cp);
                lemma_net_concat(done + prev, cp);
                assert(coins_shortfall(bals, defs, ms, a, coins.take(j as int + 1)) == None::<(Seq<char>, Seq<char>)>);
            }
            j = j + 1;
        }
        proof {
            assert(coins.take(j as int) =~= coins);
            assert(ms.inputs@.take(i as int + 1).drop_last() =~= ms.inputs@.take(i as int));
            assert(input_postings(defs, ms, ms.inputs@.take(i as int + 1)) == done + leg_postings(defs, ms, a, coins));
        }
        i = i + 1;
    }
    let ghost ins = input_postings(defs, ms, ms.inputs@);
    proof {
        assert(ms.inputs@.take(i as int) =~= ms.inputs@);
        assert(ms.outputs@.take(0) =~= Seq::<Balance>::empty());
        assert(ins + output_postings(ms.outputs@.take(0)) =~= ins);
    }
    let mut i: usize = 0;
    while i < tx.multi_send_tx.outputs.len()
        invariant
            tx.multi_send_tx == ms,
            tx.definitions@ == defs,
            tx.original_balances@ == bals,
            ins == input_postings(defs, ms, ms.inputs@),
            i <= ms.outputs@.len(),
            tx.prepared(),
            side_total(ms.inputs@) <= MAX_TOTAL,
            forall|a: Seq<char>, d: Seq<char>|
                #[trigger] amount_of(tx.coin_balance_changes@, a, d) == net(
                    ins + output_postings(ms.outputs@.take(i as int)),
                    a,
                    d,
                ),
            forall|d: Seq<char>|
                #[trigger] legs_sum(tx.coin_balance_changes@, d) == denom_net(
                    ins + output_postings(ms.outputs@.take(i as int)),
                    d,
                ),
            tx.within(-3 * side_total(ms.inputs@), side_total(ms.inputs@) + side_total(ms.outputs@.take(i as int))),
        decreases ms.outputs@.len() - i,
    {
        let ghost a = ms.outputs@[i as int].address@;
        let ghost coins = ms.outputs@[i as int].coins@;
        let ghost done = ins + output_postings(ms.outputs@.take(i as int));
        proof {
            lemma_prefix_bounds(ms.outputs@, i as int);
            assert(coins.take(0) =~= Seq::<Coin>::empty());
            assert(done + credit_postings(a, coins.take(0)) =~= done);
        }
        let mut j: usize = 0;
        while j < tx.multi_send_tx.outputs[i].coins.len()
            invariant
                tx.multi_send_tx == ms,
                tx.definitions@ == defs,
                tx.original_balances@ == bals,
                i < ms.outputs@.len(),
                a == ms.outputs@[i as int].address@,
                coins == ms.outputs@[i as int].coins@,
                j <= coins.len(),
                tx.prepared(),
                forall|x: Seq<char>, d: Seq<char>|
                    #[trigger] amount_of(tx.coin_balance_changes@, x, d) == net(
                        done + credit_postings(a, coins.take(j as int)),
                        x,
                        d,
                    ),
                forall|d: Seq<char>|
                    #[trigger] legs_sum(tx.coin_balance_changes@, d) == denom_net(
                        done + credit_postings(a, coins.take(j as int)),
                        d,
                    ),
                tx.within(
                    -3 * side_total(ms.inputs@),
                    side_total(ms.inputs@) + side_total(ms.outputs@.take(i as int)) + coins_total(
                        coins.take(j as int),
                    ),
                ),
                side_total(ms.inputs@) <= MAX_TOTAL,
                side_total(ms.outputs@.take(i as int)) + coins_total(coins) <= MAX_TOTAL,
                0 <= side_total(ms.outputs@.take(i as int)),
            decreases coins.len() - j,
        {
            let address = tx.multi_send_tx.outputs[i].address.clone();
            let denom = tx.multi_send_tx.outputs[i].coins[j].denom.clone();
            let x = tx.multi_send_tx.outputs[i].coins[j].amount;
            let ghost p: Posting = (a, denom@, x as int);
            let ghost prev = done + credit_postings(a, coins.take(j as int));
            proof {
                lemma_coins_prefix_bounds(coins, Seq::empty(), j as int + 1);
                lemma_coins_prefix_bounds(coins, Seq::empty(), j as int);
                crate::sums::lemma_total_take_map(coins, |c: Coin| c.amount as int, j as int);
                assert(ms.outputs@[i as int].coins@[j as int].amount >= 0);
                lemma_legs_bounds(ms.inputs@, Seq::empty(), None);
            }
            tx.record(&address, &denom, x);
            proof {
                assert(credit_postings(a, coins.take(j as int + 1)) =~= credit_postings(
                    a,
                    coins.take(j as int),
                ).push(p));
                assert(done + credit_postings(a, coins.take(j as int + 1)) =~= prev.push(p));
                lemma_net_push(prev, p);
            }
            j = j + 1;
        }
        proof {
            assert(coins.take(j as int) =~= coins);
            assert(ms.outputs@.take(i as int + 1).drop_last() =~= ms.outputs@.take(i as int));
            assert(output_postings(ms.outputs@.take(i as int + 1)) == output_postings(
                ms.outputs@.take(i as int),
            ) + credit_postings(a, coins));
            assert(done + credit_postings(a, coins) =~= ins + output_postings(
                ms.outputs@.take(i as int + 1),
            ));
        }
        i = i + 1;
    }
    proof {
        assert(ms.outputs@.take(i as int) =~= ms.outputs@);
    }
    Ok(tx.collect_balance_changes())
}

} // verus!
