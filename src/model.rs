//! What a settlement is: the fees each input leg owes, the postings a transfer
//! makes, and when a transfer is rejected.
use vstd::prelude::*;

use crate::arith::fee_share;
use crate::sums::{amount_of, legs_sum, legs_sum_excluding, non_negative, side_total, total};
use crate::types::{Balance, Coin, DenomDefinition, MultiSend, MAX_TOTAL};

verus! {

/// The definition of denomination `d`: the last one in `defs` that names it.
pub open spec fn definition_of(defs: Seq<DenomDefinition>, d: Seq<char>) -> Option<DenomDefinition>
    decreases defs.len(),
{
    if defs.len() == 0 {
        None
    } else if defs.last().denom@ == d {
        Some(defs.last())
    } else {
        definition_of(defs.drop_last(), d)
    }
}

/// The issuer of denomination `d`, where `d` is defined.
pub open spec fn issuer_of(defs: Seq<DenomDefinition>, d: Seq<char>) -> Option<Seq<char>> {
    match definition_of(defs, d) {
        Some(def) => Some(def.issuer@),
        None => None,
    }
}

/// What `coins` hold of `d`: the last coin that names it, or nothing.
pub open spec fn coin_held(coins: Seq<Coin>, d: Seq<char>) -> int
    decreases coins.len(),
{
    if coins.len() == 0 {
        0
    } else if coins.last().denom@ == d {
        coins.last().amount as int
    } else {
        coin_held(coins.drop_last(), d)
    }
}

/// What address `a` holds of `d` before the transfer: by the last entry of
/// `balances` for `a`, and nothing where `a` has no entry.
pub open spec fn held(balances: Seq<Balance>, a: Seq<char>, d: Seq<char>) -> int
    decreases balances.len(),
{
    if balances.len() == 0 {
        0
    } else if balances.last().address@ == a {
        coin_held(balances.last().coins@, d)
    } else {
        held(balances.drop_last(), a, d)
    }
}

/// What the inputs send of `d` from addresses other than its issuer.
pub open spec fn non_issuer_input_sum(defs: Seq<DenomDefinition>, tx: MultiSend, d: Seq<char>) -> int {
    legs_sum_excluding(tx.inputs@, d, issuer_of(defs, d))
}

/// What the outputs credit of `d` to addresses other than its issuer.
pub open spec fn non_issuer_output_sum(defs: Seq<DenomDefinition>, tx: MultiSend, d: Seq<char>) -> int {
    legs_sum_excluding(tx.outputs@, d, issuer_of(defs, d))
}

/// The amount of `d` on which fees are charged: the smaller of the two sums above.
pub open spec fn burn_base(defs: Seq<DenomDefinition>, tx: MultiSend, d: Seq<char>) -> int {
    let i = non_issuer_input_sum(defs, tx, d);
    let o = non_issuer_output_sum(defs, tx, d);
    if i < o {
        i
    } else {
        o
    }
}

/// The burn that a sender `a` of `x` of `d` owes: its share of the burn on the
/// base, and nothing from the issuer or for an undefined denomination.
pub open spec fn burn_fee(defs: Seq<DenomDefinition>, tx: MultiSend, a: Seq<char>, d: Seq<char>, x: int) -> int {
    match definition_of(defs, d) {
        Some(def) => if def.issuer@ == a {
            0
        } else {
            fee_share(burn_base(defs, tx, d), def.burn_rate, x, non_issuer_input_sum(defs, tx, d))
        },
        None => 0,
    }
}

/// The commission that a sender `a` of `x` of `d` owes the issuer, by the same
/// rule as the burn.
pub open spec fn commission_fee(defs: Seq<DenomDefinition>, tx: MultiSend, a: Seq<char>, d: Seq<char>, x: int) -> int {
    match definition_of(defs, d) {
        Some(def) => if def.issuer@ == a {
            0
        } else {
            fee_share(burn_base(defs, tx, d), def.commission_rate, x, non_issuer_input_sum(defs, tx, d))
        },
        None => 0,
    }
}

/// What the sender `a` of coin `c` must hold of its denomination: the amount and its fees.
pub open spec fn required(defs: Seq<DenomDefinition>, tx: MultiSend, a: Seq<char>, c: Coin) -> int {
    c.amount + burn_fee(defs, tx, a, c.denom@, c.amount as int) + commission_fee(
        defs,
        tx,
        a,
        c.denom@,
        c.amount as int,
    )
}

/// A change of `.2` to what address `.0` holds of denomination `.1`.
pub type Posting = (Seq<char>, Seq<char>, int);

/// The postings of an input coin `c` sent by `a`: its debit, amount and fees,
/// and the issuer's commission where there is one.
pub open spec fn coin_postings(defs: Seq<DenomDefinition>, tx: MultiSend, a: Seq<char>, c: Coin) -> Seq<Posting> {
    let d = c.denom@;
    let comm = commission_fee(defs, tx, a, d, c.amount as int);
    let debit = (a, d, -required(defs, tx, a, c));
    match definition_of(defs, d) {
        Some(def) => if comm != 0 {
            seq![debit, (def.issuer@, d, comm)]
        } else {
            seq![debit]
        },
        None => seq![debit],
    }
}

/// The postings of the coins of one input leg of `a`, in order.
pub open spec fn leg_postings(defs: Seq<DenomDefinition>, tx: MultiSend, a: Seq<char>, coins: Seq<Coin>) -> Seq<Posting>
    decreases coins.len(),
{
    if coins.len() == 0 {
        seq![]
    } else {
        leg_postings(defs, tx, a, coins.drop_last()) + coin_postings(defs, tx, a, coins.last())
    }
}

/// The postings of input legs, in order.
pub open spec fn input_postings(defs: Seq<DenomDefinition>, tx: MultiSend, legs: Seq<Balance>) -> Seq<Posting>
    decreases legs.len(),
{
    if legs.len() == 0 {
        seq![]
    } else {
        input_postings(defs, tx, legs.drop_last()) + leg_postings(
            defs,
            tx,
            legs.last().address@,
            legs.last().coins@,
        )
    }
}

/// The credits of one output leg of `a`.
pub open spec fn credit_postings(a: Seq<char>, coins: Seq<Coin>) -> Seq<Posting> {
    coins.map_values(|c: Coin| (a, c.denom@, c.amount as int))
}

/// The credits of output legs, in order.
pub open spec fn output_postings(legs: Seq<Balance>) -> Seq<Posting>
    decreases legs.len(),
{
    if legs.len() == 0 {
        seq![]
    } else {
        output_postings(legs.drop_last()) + credit_postings(legs.last().address@, legs.last().coins@)
    }
}

/// Every change that transfer `tx` makes under `defs`.
pub open spec fn postings_of(defs: Seq<DenomDefinition>, tx: MultiSend) -> Seq<Posting> {
    input_postings(defs, tx, tx.inputs@) + output_postings(tx.outputs@)
}

pub open spec fn posting_value(p: Posting, a: Seq<char>, d: Seq<char>) -> int {
    if p.0 == a && p.1 == d {
        p.2
    } else {
        0
    }
}

pub open spec fn posting_denom_value(p: Posting, d: Seq<char>) -> int {
    if p.1 == d {
        p.2
    } else {
        0
    }
}

/// The net change that postings `ps` make to what `a` holds of `d`.
pub open spec fn net(ps: Seq<Posting>, a: Seq<char>, d: Seq<char>) -> int {
    total(ps.map_values(|p: Posting| posting_value(p, a, d)))
}

/// The net change that postings `ps` make to all holdings of `d`.
pub open spec fn denom_net(ps: Seq<Posting>, d: Seq<char>) -> int {
    total(ps.map_values(|p: Posting| posting_denom_value(p, d)))
}

/// The sender `a` of coin `c` holds less than the coin and its fees.
pub open spec fn falls_short(
    balances: Seq<Balance>,
    defs: Seq<DenomDefinition>,
    tx: MultiSend,
    a: Seq<char>,
    c: Coin,
) -> bool {
    held(balances, a, c.denom@) < required(defs, tx, a, c)
}

/// The first coin of `coins`, sent by `a`, whose sender falls short: its address and denomination.
pub open spec fn coins_shortfall(
    balances: Seq<Balance>,
    defs: Seq<DenomDefinition>,
    tx: MultiSend,
    a: Seq<char>,
    coins: Seq<Coin>,
) -> Option<(Seq<char>, Seq<char>)>
    decreases coins.len(),
{
    if coins.len() == 0 {
        None
    } else {
        match coins_shortfall(balances, defs, tx, a, coins.drop_last()) {
            Some(s) => Some(s),
            None => if falls_short(balances, defs, tx, a, coins.last()) {
                Some((a, coins.last().denom@))
            } else {
                None
            },
        }
    }
}

/// The first coin of input legs `legs`, in order, whose sender falls short.
pub open spec fn legs_shortfall(
    balances: Seq<Balance>,
    defs: Seq<DenomDefinition>,
    tx: MultiSend,
    legs: Seq<Balance>,
) -> Option<(Seq<char>, Seq<char>)>
    decreases legs.len(),
{
    if legs.len() == 0 {
        None
    } else {
        match legs_shortfall(balances, defs, tx, legs.drop_last()) {
            Some(s) => Some(s),
            None => coins_shortfall(balances, defs, tx, legs.last().address@, legs.last().coins@),
        }
    }
}

/// The first input coin of `tx` whose sender cannot cover it and its fees.
pub open spec fn first_shortfall(balances: Seq<Balance>, defs: Seq<DenomDefinition>, tx: MultiSend) -> Option<
    (Seq<char>, Seq<char>),
> {
    legs_shortfall(balances, defs, tx, tx.inputs@)
}

/// For every denomination the inputs and the outputs add up the same.
pub open spec fn balanced(tx: MultiSend) -> bool {
    forall|d: Seq<char>| #[trigger] legs_sum(tx.inputs@, d) == legs_sum(tx.outputs@, d)
}

/// No amount of `tx` is negative, and each side adds up to at most `i128::MAX`.
pub open spec fn amounts_fit(tx: MultiSend) -> bool {
    &&& non_negative(tx.inputs@)
    &&& non_negative(tx.outputs@)
    &&& side_total(tx.inputs@) <= i128::MAX
    &&& side_total(tx.outputs@) <= i128::MAX
}

/// No amount of `tx` is negative, and each side adds up to at most `MAX_TOTAL`.
pub open spec fn instruction_fits(tx: MultiSend) -> bool {
    &&& non_negative(tx.inputs@)
    &&& non_negative(tx.outputs@)
    &&& side_total(tx.inputs@) <= MAX_TOTAL
    &&& side_total(tx.outputs@) <= MAX_TOTAL
}

/// Every rate of `defs` lies in `[0, 1]`.
pub open spec fn definitions_wf(defs: Seq<DenomDefinition>) -> bool {
    forall|k: int| 0 <= k < defs.len() ==> #[trigger] defs[k].wf()
}

/// No two coins of `coins` share a denomination.
pub open spec fn distinct_denoms(coins: Seq<Coin>) -> bool {
    forall|j: int, k: int| 0 <= j < k < coins.len() ==> coins[j].denom@ != coins[k].denom@
}

/// No two entries of `bs` share an address, and no entry names a denomination twice.
pub open spec fn ledger_wf(bs: Seq<Balance>) -> bool {
    &&& forall|i: int, k: int| 0 <= i < k < bs.len() ==> bs[i].address@ != bs[k].address@
    &&& forall|i: int| 0 <= i < bs.len() ==> distinct_denoms(#[trigger] bs[i].coins@)
}

/// A ledger in which every entry has a coin and every coin a change other than zero.
pub open spec fn is_settlement(bs: Seq<Balance>) -> bool {
    &&& ledger_wf(bs)
    &&& forall|i: int| 0 <= i < bs.len() ==> (#[trigger] bs[i].coins@).len() > 0
    &&& forall|i: int, j: int|
        0 <= i < bs.len() && 0 <= j < bs[i].coins@.len() ==> (#[trigger] bs[i].coins@[j]).amount != 0
}

/// `bs` is the settlement of postings `ps`: one entry for each address and
/// denomination whose net change is not zero, holding that change.
pub open spec fn settles(bs: Seq<Balance>, ps: Seq<Posting>) -> bool {
    &&& is_settlement(bs)
    &&& forall|a: Seq<char>, d: Seq<char>| #[trigger] amount_of(bs, a, d) == net(ps, a, d)
    &&& forall|d: Seq<char>| #[trigger] legs_sum(bs, d) == denom_net(ps, d)
}

/// The definition of a denomination is one of the listed ones.
pub proof fn lemma_definition_is_listed(defs: Seq<DenomDefinition>, d: Seq<char>)
    ensures
        definition_of(defs, d) matches Some(def) ==> exists|k: int| 0 <= k < defs.len() && defs[k] == def,
    decreases defs.len(),
{
    if defs.len() > 0 {
        lemma_definition_is_listed(defs.drop_last(), d);
        match definition_of(defs, d) {
            Some(def) => {
                if defs.last().denom@ == d {
                    assert(defs[defs.len() - 1] == def);
                } else {
                    let k = choose|k: int|
                        0 <= k < defs.drop_last().len() && defs.drop_last()[k] == def;
                    assert(defs[k] == def);
                }
            },
            None => {},
        }
    }
}

} // verus!
