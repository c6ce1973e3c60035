//! The working state of one settlement: the transfer, what it is checked against,
//! the per-denomination sums its fees are based on, and the changes accumulated so far.
use vstd::prelude::*;

use crate::model::{
    coin_held, definition_of, distinct_denoms, held, instruction_fits, is_settlement, ledger_wf,
    non_issuer_input_sum, non_issuer_output_sum,
};
use crate::sums::{
    address_value, amount_of, coin_value, coins_sum, leg_value, legs_sum, lemma_total_push_map,
    lemma_total_single, lemma_total_take_all, lemma_total_take_map, lemma_total_update_map,
    opt_view, sum_for_denom, total,
};
use crate::types::{Balance, Coin, DenomDefinition, MultiSend};

verus! {

/// The sums that the fees of one denomination are based on.
pub struct DenomTotals {
    pub denom: String,
    pub non_issuer_input_sum: i128,
    pub non_issuer_output_sum: i128,
}

/// One settlement in progress. `balances_map` holds one entry per address of
/// `original_balances`, the last; `denom_definitions_map` one definition per
/// denomination, the last. `coin_balance_changes` holds, per address and
/// denomination, the change accumulated so far.
pub struct TxData {
    pub multi_send_tx: MultiSend,
    pub original_balances: Vec<Balance>,
    pub definitions: Vec<DenomDefinition>,
    pub balances_map: Vec<Balance>,
    pub denom_definitions_map: Vec<DenomDefinition>,
    pub denom_totals: Vec<DenomTotals>,
    pub coin_balance_changes: Vec<Balance>,
}

/// Each entry of `totals` holds the right sums for its denomination.
pub open spec fn totals_correct(defs: Seq<DenomDefinition>, tx: MultiSend, totals: Seq<DenomTotals>) -> bool {
    forall|k: int|
        0 <= k < totals.len() ==> {
            &&& (#[trigger] totals[k]).non_issuer_input_sum == non_issuer_input_sum(defs, tx, totals[k].denom@)
            &&& totals[k].non_issuer_output_sum == non_issuer_output_sum(defs, tx, totals[k].denom@)
        }
}

/// Some entry of `totals` is for denomination `d`.
pub open spec fn has_totals(totals: Seq<DenomTotals>, d: Seq<char>) -> bool {
    exists|k: int| 0 <= k < totals.len() && (#[trigger] totals[k]).denom@ == d
}

/// Every denomination that the inputs of `tx` send has an entry in `totals`.
pub open spec fn totals_cover(tx: MultiSend, totals: Seq<DenomTotals>) -> bool {
    forall|i: int, j: int|
        0 <= i < tx.inputs@.len() && 0 <= j < tx.inputs@[i].coins@.len() ==> has_totals(
            totals,
            (#[trigger] tx.inputs@[i].coins@[j]).denom@,
        )
}

proof fn lemma_has_totals_push(totals: Seq<DenomTotals>, x: DenomTotals, d: Seq<char>)
    requires
        has_totals(totals, d),
    ensures
        has_totals(totals.push(x), d),
{
    let k = choose|k: int| 0 <= k < totals.len() && (#[trigger] totals[k]).denom@ == d;
    assert(totals.push(x)[k] == totals[k]);
}

/// The index of the definition of `denom`, the last in `defs` that names it.
pub fn find_definition(defs: &Vec<DenomDefinition>, denom: &String) -> (r: Option<usize>)
    ensures
        match r {
            Some(k) => k < defs@.len() && definition_of(defs@, denom@) == Some(defs@[k as int]),
            None => definition_of(defs@, denom@) == None::<DenomDefinition>,
        },
{
    let mut k: usize = defs.len();
    assert(defs@.take(k as int) =~= defs@);
    while k > 0
        invariant
            k <= defs.len(),
            definition_of(defs@, denom@) == definition_of(defs@.take(k as int), denom@),
        decreases k,
    {
        assert(defs@.take(k as int).drop_last() =~= defs@.take(k - 1));
        if defs[k - 1].denom == *denom {
            return Some(k - 1);
        }
        k = k - 1;
    }
    None
}

/// What `coins` hold of `denom`: the last coin that names it, or nothing.
fn coin_held_amount(coins: &Vec<Coin>, denom: &String) -> (r: i128)
    ensures
        r == coin_held(coins@, denom@),
{
    let mut k: usize = coins.len();
    assert(coins@.take(k as int) =~= coins@);
    while k > 0
        invariant
            k <= coins.len(),
            coin_held(coins@, denom@) == coin_held(coins@.take(k as int), denom@),
        decreases k,
    {
        assert(coins@.take(k as int).drop_last() =~= coins@.take(k - 1));
        if coins[k - 1].denom == *denom {
            return coins[k - 1].amount;
        }
        k = k - 1;
    }
    0
}

/// What `address` holds of `denom` by the snapshot `balances`.
pub fn held_amount(balances: &Vec<Balance>, address: &String, denom: &String) -> (r: i128)
    ensures
        r == held(balances@, address@, denom@),
{
    let mut k: usize = balances.len();
    assert(balances@.take(k as int) =~= balances@);
    while k > 0
        invariant
            k <= balances.len(),
            held(balances@, address@, denom@) == held(balances@.take(k as int), address@, denom@),
        decreases k,
    {
        assert(balances@.take(k as int).drop_last() =~= balances@.take(k - 1));
        if balances[k - 1].address == *address {
            return coin_held_amount(&balances[k - 1].coins, denom);
        }
        k = k - 1;
    }
    0
}

/// The index of the entry of `address` in `bs`.
fn find_address(bs: &Vec<Balance>, address: &String) -> (r: Option<usize>)
    ensures
        match r {
            Some(i) => i < bs@.len() && bs@[i as int].address@ == address@,
            None => forall|k: int| 0 <= k < bs@.len() ==> bs@[k].address@ != address@,
        },
{
    let mut i: usize = 0;
    while i < bs.len()
        invariant
            i <= bs.len(),
            forall|k: int| 0 <= k < i ==> bs@[k].address@ != address@,
        decreases bs.len() - i,
    {
        if bs[i].address == *address {
            return Some(i);
        }
        i = i + 1;
    }
    None
}

/// The index of the coin of `denom` in `coins`.
fn find_coin(coins: &Vec<Coin>, denom: &String) -> (r: Option<usize>)
    ensures
        match r {
            Some(j) => j < coins@.len() && coins@[j as int].denom@ == denom@,
            None => forall|k: int| 0 <= k < coins@.len() ==> coins@[k].denom@ != denom@,
        },
{
    let mut j: usize = 0;
    while j < coins.len()
        invariant
            j <= coins.len(),
            forall|k: int| 0 <= k < j ==> coins@[k].denom@ != denom@,
        decreases coins.len() - j,
    {
        if coins[j].denom == *denom {
            return Some(j);
        }
        j = j + 1;
    }
    None
}

/// The index of the entry of `denom` in `totals`.
fn find_totals(totals: &Vec<DenomTotals>, denom: &String) -> (r: Option<usize>)
    ensures
        match r {
            Some(k) => k < totals@.len() && totals@[k as int].denom@ == denom@,
            None => !has_totals(totals@, denom@),
        },
{
    let mut k: usize = 0;
    while k < totals.len()
        invariant
            k <= totals.len(),
            forall|m: int| 0 <= m < k ==> totals@[m].denom@ != denom@,
        decreases totals.len() - k,
    {
        if totals[k].denom == *denom {
            return Some(k);
        }
        k = k + 1;
    }
    None
}

/// In a ledger with distinct keys, what an address holds of a denomination is
/// the amount of its one entry.
proof fn lemma_entry_is_amount(bs: Seq<Balance>, i: int, j: int)
    requires
        ledger_wf(bs),
        0 <= i < bs.len(),
        0 <= j < bs[i].coins@.len(),
    ensures
        amount_of(bs, bs[i].address@, bs[i].coins@[j].denom@) == bs[i].coins@[j].amount,
{
    let a = bs[i].address@;
    let d = bs[i].coins@[j].denom@;
    let f = |b: Balance| address_value(b, a, d);
    let g = |c: Coin| coin_value(c, d);
    assert(distinct_denoms(bs[i].coins@));
    lemma_total_single(bs[i].coins@.map_values(g), j);
    lemma_total_single(bs.map_values(f), i);
}

/// One coin holds of a denomination what it holds of it.
proof fn lemma_single_coin(c: Coin, d: Seq<char>)
    ensures
        coins_sum(seq![c], d) == coin_value(c, d),
{
    let g = |c: Coin| coin_value(c, d);
    assert(Seq::<Coin>::empty().push(c) =~= seq![c]);
    lemma_total_push_map(Seq::<Coin>::empty(), g, c);
    assert(Seq::<Coin>::empty().map_values(g) =~= Seq::<int>::empty());
}

/// `map` has one entry per address, and by it each address holds what it
/// holds by `balances`.
pub open spec fn indexes_balances(map: Seq<Balance>, balances: Seq<Balance>) -> bool {
    &&& forall|i: int, k: int| 0 <= i < k < map.len() ==> map[i].address@ != map[k].address@
    &&& forall|a: Seq<char>, d: Seq<char>| #[trigger] held(map, a, d) == held(balances, a, d)
}

/// `map` has one definition per denomination, and by it each denomination has
/// the definition it has by `defs`.
pub open spec fn indexes_definitions(map: Seq<DenomDefinition>, defs: Seq<DenomDefinition>) -> bool {
    &&& forall|i: int, k: int| 0 <= i < k < map.len() ==> map[i].denom@ != map[k].denom@
    &&& forall|d: Seq<char>| #[trigger] definition_of(map, d) == definition_of(defs, d)
}

/// An entry of a balance index: an address and its coins.
pub type BalanceEntry = (Seq<char>, Seq<Coin>);

/// The entry that balance `b` makes.
pub open spec fn entry_of(b: Balance) -> BalanceEntry {
    (b.address@, b.coins@)
}

/// `m` with entry `e` put in: in place of the entry of its address, or at the
/// end where `m` has none.
pub open spec fn put_entry(m: Seq<BalanceEntry>, e: BalanceEntry) -> Seq<BalanceEntry> {
    if exists|k: int| 0 <= k < m.len() && m[k].0 == e.0 {
        m.update(choose|k: int| 0 <= k < m.len() && m[k].0 == e.0, e)
    } else {
        m.push(e)
    }
}

/// The index of `balances`: their entries put in one after the other, so that
/// a later entry of an address takes the place of an earlier one.
pub open spec fn balances_index(balances: Seq<Balance>) -> Seq<BalanceEntry>
    decreases balances.len(),
{
    if balances.len() == 0 {
        seq![]
    } else {
        put_entry(balances_index(balances.drop_last()), entry_of(balances.last()))
    }
}

/// Some entry of `balances` is of address `a`.
pub open spec fn has_entry(balances: Seq<Balance>, a: Seq<char>) -> bool {
    exists|i: int| 0 <= i < balances.len() && (#[trigger] balances[i]).address@ == a
}

/// The last entry of address `a` in `balances`, where there is one.
pub open spec fn last_entry(balances: Seq<Balance>, a: Seq<char>) -> Option<Balance>
    decreases balances.len(),
{
    if balances.len() == 0 {
        None
    } else if balances.last().address@ == a {
        Some(balances.last())
    } else {
        last_entry(balances.drop_last(), a)
    }
}

/// `m` with definition `e` put in: in place of the definition of its
/// denomination, or at the end where `m` has none.
pub open spec fn put_definition(m: Seq<DenomDefinition>, e: DenomDefinition) -> Seq<DenomDefinition> {
    if exists|k: int| 0 <= k < m.len() && (#[trigger] m[k]).denom@ == e.denom@ {
        m.update(choose|k: int| 0 <= k < m.len() && (#[trigger] m[k]).denom@ == e.denom@, e)
    } else {
        m.push(e)
    }
}

/// The index of `defs`: their definitions put in one after the other, so that
/// a later definition of a denomination takes the place of an earlier one.
pub open spec fn definitions_index(defs: Seq<DenomDefinition>) -> Seq<DenomDefinition>
    decreases defs.len(),
{
    if defs.len() == 0 {
        seq![]
    } else {
        put_definition(definitions_index(defs.drop_last()), defs.last())
    }
}

/// In a map with one entry per address, an address holds what its entry holds.
proof fn lemma_held_at(m: Seq<Balance>, k: int, d: Seq<char>)
    requires
        forall|i: int, j: int| 0 <= i < j < m.len() ==> m[i].address@ != m[j].address@,
        0 <= k < m.len(),
    ensures
        held(m, m[k].address@, d) == coin_held(m[k].coins@, d),
    decreases m.len(),
{
    if k < m.len() - 1 {
        assert(m.drop_last()[k] == m[k]);
        lemma_held_at(m.drop_last(), k, d);
    }
}

/// An address with no entry holds nothing.
proof fn lemma_held_absent(m: Seq<Balance>, a: Seq<char>, d: Seq<char>)
    requires
        forall|k: int| 0 <= k < m.len() ==> m[k].address@ != a,
    ensures
        held(m, a, d) == 0,
    decreases m.len(),
{
    if m.len() > 0 {
        lemma_held_absent(m.drop_last(), a, d);
    }
}

/// In a map with one definition per denomination, a denomination has its entry.
proof fn lemma_definition_at(m: Seq<DenomDefinition>, k: int)
    requires
        forall|i: int, j: int| 0 <= i < j < m.len() ==> m[i].denom@ != m[j].denom@,
        0 <= k < m.len(),
    ensures
        definition_of(m, m[k].denom@) == Some(m[k]),
    decreases m.len(),
{
    if k < m.len() - 1 {
        assert(m.drop_last()[k] == m[k]);
        lemma_definition_at(m.drop_last(), k);
    }
}

/// A denomination with no entry has no definition.
proof fn lemma_definition_absent(m: Seq<DenomDefinition>, d: Seq<char>)
    requires
        forall|k: int| 0 <= k < m.len() ==> m[k].denom@ != d,
    ensures
        definition_of(m, d) == None::<DenomDefinition>,
    decreases m.len(),
{
    if m.len() > 0 {
        lemma_definition_absent(m.drop_last(), d);
    }
}

/// A copy of `b`.
fn copy_balance(b: &Balance) -> (r: Balance)
    ensures
        r.address@ == b.address@,
        r.coins@ == b.coins@,
{
    let mut coins: Vec<Coin> = Vec::new();
    let mut j: usize = 0;
    while j < b.coins.len()
        invariant
            j <= b.coins@.len(),
            coins@ == b.coins@.take(j as int),
        decreases b.coins@.len() - j,
    {
        coins.push(Coin { denom: b.coins[j].denom.clone(), amount: b.coins[j].amount });
        assert(coins@ =~= b.coins@.take(j as int + 1));
        j = j + 1;
    }
    assert(b.coins@.take(j as int) =~= b.coins@);
    Balance { address: b.address.clone(), coins }
}

/// A copy of `def`.
fn copy_definition(def: &DenomDefinition) -> (r: DenomDefinition)
    ensures
        r == *def,
{
    DenomDefinition {
        denom: def.denom.clone(),
        issuer: def.issuer.clone(),
        burn_rate: def.burn_rate,
        commission_rate: def.commission_rate,
    }
}

/// The index of the definition of `denom` in `defs`, where there is one.
fn find_denom(defs: &Vec<DenomDefinition>, denom: &String) -> (r: Option<usize>)
    ensures
        match r {
            Some(k) => k < defs@.len() && defs@[k as int].denom@ == denom@,
            None => forall|k: int| 0 <= k < defs@.len() ==> defs@[k].denom@ != denom@,
        },
{
    let mut k: usize = 0;
    while k < defs.len()
        invariant
            k <= defs.len(),
            forall|m: int| 0 <= m < k ==> defs@[m].denom@ != denom@,
        decreases defs.len() - k,
    {
        if defs[k].denom == *denom {
            return Some(k);
        }
        k = k + 1;
    }
    None
}

impl TxData {
    /// `self` and `other` settle the same transfer, against the same balances,
    /// under the same definitions and with the same fee sums.
    pub open spec fn unchanged_inputs(&self, other: &TxData) -> bool {
        &&& self.multi_send_tx == other.multi_send_tx
        &&& self.original_balances == other.original_balances
        &&& self.definitions == other.definitions
        &&& self.balances_map == other.balances_map
        &&& self.denom_definitions_map == other.denom_definitions_map
        &&& self.denom_totals == other.denom_totals
    }

    /// A settlement of `multi_send_tx` against `original_balances` under
    /// `definitions`, with no sums and no changes yet.
    pub fn new(multi_send_tx: MultiSend, original_balances: Vec<Balance>, definitions: Vec<
        DenomDefinition,
    >) -> (r: TxData)
        ensures
            r.multi_send_tx == multi_send_tx,
            r.original_balances == original_balances,
            r.definitions == definitions,
            r.balances_map@.len() == 0,
            r.denom_definitions_map@.len() == 0,
            r.denom_totals@.len() == 0,
            r.coin_balance_changes@.len() == 0,
    {
        TxData {
            multi_send_tx,
            original_balances,
            definitions,
            balances_map: Vec::new(),
            denom_definitions_map: Vec::new(),
            denom_totals: Vec::new(),
            coin_balance_changes: Vec::new(),
        }
    }

    /// Fills `balances_map` with one entry per address of `original_balances`:
    /// its last entry there. Whatever the map held before is replaced.
    pub fn initialize_balances_map(&mut self)
        ensures
            final(self).multi_send_tx == old(self).multi_send_tx,
            final(self).original_balances == old(self).original_balances,
            final(self).definitions == old(self).definitions,
            final(self).denom_definitions_map == old(self).denom_definitions_map,
            final(self).denom_totals == old(self).denom_totals,
            final(self).coin_balance_changes == old(self).coin_balance_changes,
            final(self).balances_map@.map_values(|b: Balance| entry_of(b)) == balances_index(
                old(self).original_balances@,
            ),
            forall|a: Seq<char>|
                #[trigger] has_entry(old(self).original_balances@, a) == has_entry(
                    final(self).balances_map@,
                    a,
                ),
            forall|k: int|
                0 <= k < final(self).balances_map@.len() ==> (last_entry(
                    old(self).original_balances@,
                    (#[trigger] final(self).balances_map@[k]).address@,
                ) matches Some(b) && b.coins@ == final(self).balances_map@[k].coins@),
            indexes_balances(final(self).balances_map@, final(self).original_balances@),
    {
        let mut map: Vec<Balance> = Vec::new();
        let mut i: usize = 0;
        while i < self.original_balances.len()
            invariant
                i <= self.original_balances@.len(),
                forall|p: int, k: int| 0 <= p < k < map@.len() ==> map@[p].address@ != map@[k].address@,
                forall|a: Seq<char>, d: Seq<char>|
                    #[trigger] held(map@, a, d) == held(self.original_balances@.take(i as int), a, d),
                map@.map_values(|b: Balance| entry_of(b)) == balances_index(
                    self.original_balances@.take(i as int),
                ),
                forall|a: Seq<char>|
                    #[trigger] has_entry(self.original_balances@.take(i as int), a) == has_entry(
                        map@,
                        a,
                    ),
                forall|k: int|
                    0 <= k < map@.len() ==> (last_entry(
                        self.original_balances@.take(i as int),
                        (#[trigger] map@[k]).address@,
                    ) matches Some(b) && b.coins@ == map@[k].coins@),
            decreases self.original_balances@.len() - i,
        {
            let ghost src = self.original_balances@;
            let ghost before = map@;
            let b = copy_balance(&self.original_balances[i]);
            let ghost nb = b;
            proof {
                assert(src.take(i as int + 1).drop_last() =~= src.take(i as int));
                assert(src.take(i as int + 1).last() == src[i as int]);
                assert forall|a: Seq<char>, d: Seq<char>|
                    #[trigger] held(src.take(i as int + 1), a, d) == if a == nb.address@ {
                        coin_held(nb.coins@, d)
                    } else {
                        held(before, a, d)
                    } by {}
                assert(balances_index(src.take(i as int + 1)) == put_entry(
                    balances_index(src.take(i as int)),
                    entry_of(src[i as int]),
                ));
                assert(entry_of(nb) == entry_of(src[i as int]));
                assert forall|a: Seq<char>|
                    #[trigger] last_entry(src.take(i as int + 1), a) == if a == nb.address@ {
                        Some(src[i as int])
                    } else {
                        last_entry(src.take(i as int), a)
                    } by {}
            }
            let ghost views = before.map_values(|b: Balance| entry_of(b));
            match find_address(&map, &b.address) {
                Some(k) => {
                    map[k] = b;
                    assert(map@ =~= before.update(k as int, nb));
                    proof {
                        assert(views[k as int].0 == nb.address@);
                        let kc = choose|kc: int| 0 <= kc < views.len() && views[kc].0 == entry_of(nb).0;
                        assert(before[kc].address@ == before[k as int].address@);
                        assert(kc == k);
                        assert(map@.map_values(|b: Balance| entry_of(b)) =~= views.update(
                            k as int,
                            entry_of(nb),
                        ));
                        assert forall|a: Seq<char>|
                            #[trigger] has_entry(src.take(i as int + 1), a) == has_entry(map@, a) by {
                            assert(has_entry(src.take(i as int), a) == has_entry(before, a));
                            if has_entry(src.take(i as int + 1), a) {
                                let p = choose|p: int|
                                    0 <= p < src.take(i as int + 1).len()
                                        && (#[trigger] src.take(i as int + 1)[p]).address@ == a;
                                if p < i {
                                    assert(src.take(i as int)[p] == src.take(i as int + 1)[p]);
                                    let m = choose|m: int|
                                        0 <= m < before.len() && (#[trigger] before[m]).address@ == a;
                                    assert(map@[m].address@ == a);
                                } else {
                                    assert(map@[k as int].address@ == a);
                                }
                            }
                            if has_entry(map@, a) {
                                let m = choose|m: int|
                                    0 <= m < map@.len() && (#[trigger] map@[m]).address@ == a;
                                if m < before.len() && before[m].address@ == a {
                                    let p = choose|p: int|
                                        0 <= p < src.take(i as int).len()
                                            && (#[trigger] src.take(i as int)[p]).address@ == a;
                                    assert(src.take(i as int + 1)[p] == src.take(i as int)[p]);
                                } else {
                                    assert(src.take(i as int + 1)[i as int].address@ == a);
                                }
                            }
                        }
                        assert forall|m: int| 0 <= m < map@.len() implies (last_entry(
                            src.take(i as int + 1),
                            (#[trigger] map@[m]).address@,
                        ) matches Some(e) && e.coins@ == map@[m].coins@) by {
                            if m != k {
                                assert(map@[m] == before[m]);
                                assert(before[m].address@ != before[k as int].address@);
                            }
                        }
                    }
                    assert forall|a: Seq<char>, d: Seq<char>|
                        #[trigger] held(map@, a, d) == held(src.take(i as int + 1), a, d) by {
                        if a == nb.address@ {
                            lemma_held_at(map@, k as int, d);
                        } else if exists|m: int| 0 <= m < before.len() && before[m].address@ == a {
                            let m = choose|m: int| 0 <= m < before.len() && before[m].address@ == a;
                            lemma_held_at(before, m, d);
                            lemma_held_at(map@, m, d);
                        } else {
                            lemma_held_absent(before, a, d);
                            lemma_held_absent(map@, a, d);
                        }
                    }
                },
                None => {
                    map.push(b);
                    assert(map@.drop_last() =~= before);
                    assert forall|a: Seq<char>, d: Seq<char>|
                        #[trigger] held(map@, a, d) == held(src.take(i as int + 1), a, d) by {
                        assert(map@.last() == nb);
                    }
                    proof {
                        assert(!exists|kc: int| 0 <= kc < views.len() && views[kc].0 == entry_of(nb).0);
                        assert(map@.map_values(|b: Balance| entry_of(b)) =~= views.push(entry_of(nb)));
                        assert forall|a: Seq<char>|
                            #[trigger] has_entry(src.take(i as int + 1), a) == has_entry(map@, a) by {
                            assert(has_entry(src.take(i as int), a) == has_entry(before, a));
                            if has_entry(src.take(i as int + 1), a) {
                                let p = choose|p: int|
                                    0 <= p < src.take(i as int + 1).len()
                                        && (#[trigger] src.take(i as int + 1)[p]).address@ == a;
                                if p < i {
                                    assert(src.take(i as int)[p] == src.take(i as int + 1)[p]);
                                    let m = choose|m: int|
                                        0 <= m < before.len() && (#[trigger] before[m]).address@ == a;
                                    assert(map@[m].address@ == a);
                                } else {
                                    assert(map@[before.len() as int].address@ == a);
                                }
                            }
                            if has_entry(map@, a) {
                                let m = choose|m: int|
                                    0 <= m < map@.len() && (#[trigger] map@[m]).address@ == a;
                                if m < before.len() && before[m].address@ == a {
                                    let p = choose|p: int|
                                        0 <= p < src.take(i as int).len()
                                            && (#[trigger] src.take(i as int)[p]).address@ == a;
                                    assert(src.take(i as int + 1)[p] == src.take(i as int)[p]);
                                } else {
                                    assert(src.take(i as int + 1)[i as int].address@ == a);
                                }
                            }
                        }
                        assert forall|m: int| 0 <= m < map@.len() implies (last_entry(
                            src.take(i as int + 1),
                            (#[trigger] map@[m]).address@,
                        ) matches Some(e) && e.coins@ == map@[m].coins@) by {
                            if m < before.len() {
                                assert(map@[m] == before[m]);
                            }
                        }
                    }
                },
            }
            i = i + 1;
        }
        assert(self.original_balances@.take(i as int) =~= self.original_balances@);
        assert(map@.map_values(|b: Balance| entry_of(b)) == balances_index(self.original_balances@));
        self.balances_map = map;
    }

    /// Fills `denom_definitions_map` with one definition per denomination of
    /// `definitions`: its last definition there.
    pub fn initialize_definitions_map(&mut self)
        ensures
            final(self).multi_send_tx == old(self).multi_send_tx,
            final(self).original_balances == old(self).original_balances,
            final(self).definitions == old(self).definitions,
            final(self).balances_map == old(self).balances_map,
            final(self).denom_totals == old(self).denom_totals,
            final(self).coin_balance_changes == old(self).coin_balance_changes,
            final(self).denom_definitions_map@ == definitions_index(old(self).definitions@),
            indexes_definitions(final(self).denom_definitions_map@, final(self).definitions@),
    {
        let mut map: Vec<DenomDefinition> = Vec::new();
        let mut i: usize = 0;
        while i < self.definitions.len()
            invariant
                i <= self.definitions@.len(),
                forall|p: int, k: int| 0 <= p < k < map@.len() ==> map@[p].denom@ != map@[k].denom@,
                forall|d: Seq<char>|
                    #[trigger] definition_of(map@, d) == definition_of(self.definitions@.take(i as int), d),
                map@ == definitions_index(self.definitions@.take(i as int)),
            decreases self.definitions@.len() - i,
        {
            let ghost src = self.definitions@;
            let ghost before = map@;
            let def = copy_definition(&self.definitions[i]);
            let ghost nd = def;
            proof {
                assert(src.take(i as int + 1).drop_last() =~= src.take(i as int));
                assert(src.take(i as int + 1).last() == src[i as int]);
                assert forall|d: Seq<char>|
                    #[trigger] definition_of(src.take(i as int + 1), d) == if d == nd.denom@ {
                        Some(nd)
                    } else {
                        definition_of(before, d)
                    } by {}
                assert(definitions_index(src.take(i as int + 1)) == put_definition(before, src[i as int]));
            }
            match find_denom(&map, &def.denom) {
                Some(k) => {
                    map[k] = def;
                    assert(map@ =~= before.update(k as int, nd));
                    proof {
                        assert(before[k as int].denom@ == nd.denom@);
                        let kc = choose|kc: int|
                            0 <= kc < before.len() && (#[trigger] before[kc]).denom@ == nd.denom@;
                        assert(kc == k);
                    }
                    assert forall|d: Seq<char>|
                        #[trigger] definition_of(map@, d) == definition_of(src.take(i as int + 1), d) by {
                        if d == nd.denom@ {
                            lemma_definition_at(map@, k as int);
                        } else if exists|m: int| 0 <= m < before.len() && before[m].denom@ == d {
                            let m = choose|m: int| 0 <= m < before.len() && before[m].denom@ == d;
                            lemma_definition_at(before, m);
                            lemma_definition_at(map@, m);
                        } else {
                            lemma_definition_absent(before, d);
                            lemma_definition_absent(map@, d);
                        }
                    }
                },
                None => {
                    map.push(def);
                    assert(map@.drop_last() =~= before);
                    assert(!exists|kc: int|
                        0 <= kc < before.len() && (#[trigger] before[kc]).denom@ == nd.denom@);
                    assert forall|d: Seq<char>|
                        #[trigger] definition_of(map@, d) == definition_of(src.take(i as int + 1), d) by {
                        assert(map@.last() == nd);
                    }
                },
            }
            i = i + 1;
        }
        assert(self.definitions@.take(i as int) =~= self.definitions@);
        assert(map@ == definitions_index(self.definitions@));
        self.denom_definitions_map = map;
    }

    /// Adds `amount` to the change of `address` in `denom`.
    pub fn record(&mut self, address: &String, denom: &String, amount: i128)
        requires
            ledger_wf(old(self).coin_balance_changes@),
            i128::MIN <= amount_of(old(self).coin_balance_changes@, address@, denom@) + amount
                <= i128::MAX,
        ensures
            final(self).unchanged_inputs(old(self)),
            ledger_wf(final(self).coin_balance_changes@),
            forall|a: Seq<char>, d: Seq<char>|
                #[trigger] amount_of(final(self).coin_balance_changes@, a, d) == amount_of(
                    old(self).coin_balance_changes@,
                    a,
                    d,
                ) + if a == address@ && d == denom@ {
                    amount as int
                } else {
                    0
                },
            forall|d: Seq<char>|
                #[trigger] legs_sum(final(self).coin_balance_changes@, d) == legs_sum(
                    old(self).coin_balance_changes@,
                    d,
                ) + if d == denom@ {
                    amount as int
                } else {
                    0
                },
    {
        let ghost old_bs = self.coin_balance_changes@;
        match find_address(&self.coin_balance_changes, address) {
            Some(i) => {
                let ghost old_coins = old_bs[i as int].coins@;
                match find_coin(&self.coin_balance_changes[i].coins, denom) {
                    Some(j) => {
                        proof {
                            lemma_entry_is_amount(old_bs, i as int, j as int);
                        }
                        let v = self.coin_balance_changes[i].coins[j].amount + amount;
                        self.coin_balance_changes[i].coins[j].amount = v;
                        let ghost new_c = self.coin_balance_changes@[i as int].coins@[j as int];
                        let ghost new_b = self.coin_balance_changes@[i as int];
                        assert(new_b.coins@ =~= old_coins.update(j as int, new_c));
                        assert(self.coin_balance_changes@ =~= old_bs.update(i as int, new_b));
                        assert forall|a: Seq<char>, d: Seq<char>|
                            #[trigger] amount_of(self.coin_balance_changes@, a, d) == amount_of(
                                old_bs,
                                a,
                                d,
                            ) + if a == address@ && d == denom@ {
                                amount as int
                            } else {
                                0
                            } by {
                            lemma_total_update_map(
                                old_bs,
                                |b: Balance| address_value(b, a, d),
                                i as int,
                                new_b,
                            );
                            lemma_total_update_map(
                                old_coins,
                                |c: Coin| coin_value(c, d),
                                j as int,
                                new_c,
                            );
                        }
                        assert forall|d: Seq<char>|
                            #[trigger] legs_sum(self.coin_balance_changes@, d) == legs_sum(old_bs, d)
                                + if d == denom@ {
                                amount as int
                            } else {
                                0
                            } by {
                            lemma_total_update_map(
                                old_bs,
                                |b: Balance| leg_value(b, d, None),
                                i as int,
                                new_b,
                            );
                            lemma_total_update_map(
                                old_coins,
                                |c: Coin| coin_value(c, d),
                                j as int,
                                new_c,
                            );
                        }
                        assert(ledger_wf(self.coin_balance_changes@)) by {
                            assert forall|k: int|
                                0 <= k < self.coin_balance_changes@.len() implies distinct_denoms(
                                #[trigger] self.coin_balance_changes@[k].coins@,
                            ) by {
                                assert(distinct_denoms(old_bs[k].coins@));
                            }
                        }
                    },
                    None => {
                        let coin = Coin { denom: denom.clone(), amount };
                        proof {
                            lemma_total_single(
                                old_bs.map_values(|b: Balance| address_value(b, address@, denom@)),
                                i as int,
                            );
                            assert(old_bs[i as int].coins@.map_values(
                                |c: Coin| coin_value(c, denom@),
                            ) =~= Seq::new(old_coins.len(), |k: int| 0int));
                            crate::sums::lemma_total_zero(
                                old_bs[i as int].coins@.map_values(|c: Coin| coin_value(c, denom@)),
                            );
                        }
                        self.coin_balance_changes[i].coins.push(coin);
                        let ghost new_b = self.coin_balance_changes@[i as int];
                        assert(new_b.coins@ =~= old_coins.push(coin));
                        assert(self.coin_balance_changes@ =~= old_bs.update(i as int, new_b));
                        assert forall|a: Seq<char>, d: Seq<char>|
                            #[trigger] amount_of(self.coin_balance_changes@, a, d) == amount_of(
                                old_bs,
                                a,
                                d,
                            ) + if a == address@ && d == denom@ {
                                amount as int
                            } else {
                                0
                            } by {
                            lemma_total_update_map(
                                old_bs,
                                |b: Balance| address_value(b, a, d),
                                i as int,
                                new_b,
                            );
                            lemma_total_push_map(old_coins, |c: Coin| coin_value(c, d), coin);
                        }
                        assert forall|d: Seq<char>|
                            #[trigger] legs_sum(self.coin_balance_changes@, d) == legs_sum(old_bs, d)
                                + if d == denom@ {
                                amount as int
                            } else {
                                0
                            } by {
                            lemma_total_update_map(
                                old_bs,
                                |b: Balance| leg_value(b, d, None),
                                i as int,
                                new_b,
                            );
                            lemma_total_push_map(old_coins, |c: Coin| coin_value(c, d), coin);
                        }
                        assert(ledger_wf(self.coin_balance_changes@)) by {
                            assert forall|k: int|
                                0 <= k < self.coin_balance_changes@.len() implies distinct_denoms(
                                #[trigger] self.coin_balance_changes@[k].coins@,
                            ) by {
                                assert(distinct_denoms(old_bs[k].coins@));
                            }
                        }
                    },
                }
            },
            None => {
                let coin = Coin { denom: denom.clone(), amount };
                let b = Balance { address: address.clone(), coins: vec![coin] };
                proof {
                    assert(old_bs.map_values(|b: Balance| address_value(b, address@, denom@))
                        =~= Seq::new(old_bs.len(), |k: int| 0int));
                    crate::sums::lemma_total_zero(
                        old_bs.map_values(|b: Balance| address_value(b, address@, denom@)),
                    );
                    assert(b.coins@ =~= seq![coin]);
                }
                self.coin_balance_changes.push(b);
                assert forall|a: Seq<char>, d: Seq<char>|
                    #[trigger] amount_of(self.coin_balance_changes@, a, d) == amount_of(old_bs, a, d)
                        + if a == address@ && d == denom@ {
                        amount as int
                    } else {
                        0
                    } by {
                    lemma_total_push_map(old_bs, |b: Balance| address_value(b, a, d), b);
                    lemma_single_coin(coin, d);
                }
                assert forall|d: Seq<char>|
                    #[trigger] legs_sum(self.coin_balance_changes@, d) == legs_sum(old_bs, d)
                        + if d == denom@ {
                        amount as int
                    } else {
                        0
                    } by {
                    lemma_total_push_map(old_bs, |b: Balance| leg_value(b, d, None), b);
                    lemma_single_coin(coin, d);
                }
                assert(ledger_wf(self.coin_balance_changes@)) by {
                    assert forall|k: int|
                        0 <= k < self.coin_balance_changes@.len() implies distinct_denoms(
                        #[trigger] self.coin_balance_changes@[k].coins@,
                    ) by {
                        if k < old_bs.len() {
                            assert(distinct_denoms(old_bs[k].coins@));
                        }
                    }
                }
            },
        }
    }

    /// Fills `denom_totals` with the sums that the fees of each denomination sent
    /// by the inputs are based on, each computed once.
    pub fn initialize_bc_data(&mut self)
        requires
            instruction_fits(old(self).multi_send_tx),
            indexes_definitions(old(self).denom_definitions_map@, old(self).definitions@),
        ensures
            final(self).multi_send_tx == old(self).multi_send_tx,
            final(self).original_balances == old(self).original_balances,
            final(self).definitions == old(self).definitions,
            final(self).balances_map == old(self).balances_map,
            final(self).denom_definitions_map == old(self).denom_definitions_map,
            final(self).coin_balance_changes == old(self).coin_balance_changes,
            totals_correct(final(self).definitions@, final(self).multi_send_tx, final(self).denom_totals@),
            totals_cover(final(self).multi_send_tx, final(self).denom_totals@),
    {
        let mut totals: Vec<DenomTotals> = Vec::new();
        let mut i: usize = 0;
        while i < self.multi_send_tx.inputs.len()
            invariant
                i <= self.multi_send_tx.inputs@.len(),
                instruction_fits(self.multi_send_tx),
                indexes_definitions(self.denom_definitions_map@, self.definitions@),
                totals_correct(self.definitions@, self.multi_send_tx, totals@),
                forall|p: int, j: int|
                    0 <= p < i && 0 <= j < self.multi_send_tx.inputs@[p].coins@.len() ==> has_totals(
                        totals@,
                        (#[trigger] self.multi_send_tx.inputs@[p].coins@[j]).denom@,
                    ),
            decreases self.multi_send_tx.inputs@.len() - i,
        {
            let mut j: usize = 0;
            while j < self.multi_send_tx.inputs[i].coins.len()
                invariant
                    i < self.multi_send_tx.inputs@.len(),
                    j <= self.multi_send_tx.inputs@[i as int].coins@.len(),
                    instruction_fits(self.multi_send_tx),
                    indexes_definitions(self.denom_definitions_map@, self.definitions@),
                    totals_correct(self.definitions@, self.multi_send_tx, totals@),
                    forall|p: int, q: int|
                        0 <= p < i && 0 <= q < self.multi_send_tx.inputs@[p].coins@.len()
                            ==> has_totals(
                            totals@,
                            (#[trigger] self.multi_send_tx.inputs@[p].coins@[q]).denom@,
                        ),
                    forall|q: int|
                        0 <= q < j ==> has_totals(
                            totals@,
                            (#[trigger] self.multi_send_tx.inputs@[i as int].coins@[q]).denom@,
                        ),
                decreases self.multi_send_tx.inputs@[i as int].coins@.len() - j,
            {
                let denom = &self.multi_send_tx.inputs[i].coins[j].denom;
                match find_totals(&totals, denom) {
                    Some(_) => {
                        assert(has_totals(totals@, denom@));
                    },
                    None => {
                        let excluded = match find_definition(&self.denom_definitions_map, denom) {
                            Some(k) => Some(&self.denom_definitions_map[k].issuer),
                            None => None,
                        };
                        assert(opt_view(excluded) == crate::model::issuer_of(self.definitions@, denom@));
                        let s_in = sum_for_denom(&self.multi_send_tx.inputs, denom, excluded);
                        let s_out = sum_for_denom(&self.multi_send_tx.outputs, denom, excluded);
                        let entry = DenomTotals {
                            denom: denom.clone(),
                            non_issuer_input_sum: s_in,
                            non_issuer_output_sum: s_out,
                        };
                        let ghost before = totals@;
                        totals.push(entry);
                        proof {
                            assert forall|p: int, q: int|
                                0 <= p < i && 0 <= q < self.multi_send_tx.inputs@[p].coins@.len()
                                    implies has_totals(
                                    totals@,
                                    (#[trigger] self.multi_send_tx.inputs@[p].coins@[q]).denom@,
                                ) by {
                                lemma_has_totals_push(before, entry, self.multi_send_tx.inputs@[p].coins@[q].denom@);
                            }
                            assert forall|q: int| 0 <= q < j implies has_totals(
                                totals@,
                                (#[trigger] self.multi_send_tx.inputs@[i as int].coins@[q]).denom@,
                            ) by {
                                lemma_has_totals_push(before, entry, self.multi_send_tx.inputs@[i as int].coins@[q].denom@);
                            }
                            assert(totals@[totals@.len() - 1] == entry);
                            assert(has_totals(totals@, denom@));
                        }
                    },
                }
                j = j + 1;
            }
            i = i + 1;
        }
        self.denom_totals = totals;
    }

    /// The non-issuer input and output sums of `denom`.
    pub fn totals_for(&self, denom: &String) -> (r: (i128, i128))
        requires
            totals_correct(self.definitions@, self.multi_send_tx, self.denom_totals@),
            has_totals(self.denom_totals@, denom@),
        ensures
            r.0 == non_issuer_input_sum(self.definitions@, self.multi_send_tx, denom@),
            r.1 == non_issuer_output_sum(self.definitions@, self.multi_send_tx, denom@),
    {
        match find_totals(&self.denom_totals, denom) {
            Some(k) => (self.denom_totals[k].non_issuer_input_sum, self.denom_totals[k].non_issuer_output_sum),
            None => {
                assert(false);
                (0, 0)
            },
        }
    }

    /// The changes accumulated so far, without those that came to zero: one
    /// entry for each address with a change, holding one coin for each
    /// denomination whose change is not zero.
    pub fn collect_balance_changes(self) -> (r: Vec<Balance>)
        requires
            ledger_wf(self.coin_balance_changes@),
        ensures
            is_settlement(r@),
            forall|a: Seq<char>, d: Seq<char>|
                #[trigger] amount_of(r@, a, d) == amount_of(self.coin_balance_changes@, a, d),
            forall|d: Seq<char>| #[trigger] legs_sum(r@, d) == legs_sum(self.coin_balance_changes@, d),
    {
        let changes = self.coin_balance_changes;
        let mut out: Vec<Balance> = Vec::new();
        let ghost src: Seq<int> = Seq::empty();
        let mut i: usize = 0;
        while i < changes.len()
            invariant
                i <= changes@.len(),
                ledger_wf(changes@),
                is_settlement(out@),
                src.len() == out@.len(),
                forall|k: int| 0 <= k < src.len() ==> 0 <= #[trigger] src[k] < i,
                forall|k: int, m: int| 0 <= k < m < src.len() ==> src[k] < src[m],
                forall|k: int|
                    0 <= k < out@.len() ==> (#[trigger] out@[k]).address@ == changes@[src[k]].address@,
                forall|a: Seq<char>, d: Seq<char>|
                    #[trigger] amount_of(out@, a, d) == total(
                        changes@.take(i as int).map_values(|b: Balance| address_value(b, a, d)),
                    ),
                forall|d: Seq<char>|
                    #[trigger] legs_sum(out@, d) == total(
                        changes@.take(i as int).map_values(|b: Balance| leg_value(b, d, None)),
                    ),
            decreases changes@.len() - i,
        {
            let b = &changes[i];
            let mut coins: Vec<Coin> = Vec::new();
            let ghost csrc: Seq<int> = Seq::empty();
            assert(distinct_denoms(b.coins@));
            let mut j: usize = 0;
            while j < b.coins.len()
                invariant
                    j <= b.coins@.len(),
                    distinct_denoms(b.coins@),
                    csrc.len() == coins@.len(),
                    forall|k: int| 0 <= k < csrc.len() ==> 0 <= #[trigger] csrc[k] < j,
                    forall|k: int, m: int| 0 <= k < m < csrc.len() ==> csrc[k] < csrc[m],
                    forall|k: int|
                        0 <= k < coins@.len() ==> (#[trigger] coins@[k]).denom@ == b.coins@[csrc[k]].denom@,
                    forall|k: int| 0 <= k < coins@.len() ==> (#[trigger] coins@[k]).amount != 0,
                    forall|d: Seq<char>|
                        #[trigger] coins_sum(coins@, d) == total(
                            b.coins@.take(j as int).map_values(|c: Coin| coin_value(c, d)),
                        ),
                decreases b.coins@.len() - j,
            {
                let amount = b.coins[j].amount;
                if amount != 0 {
                    let c = Coin { denom: b.coins[j].denom.clone(), amount };
                    let ghost before = coins@;
                    coins.push(c);
                    proof {
                        csrc = csrc.push(j as int);
                        assert forall|d: Seq<char>|
                            #[trigger] coins_sum(coins@, d) == total(
                                b.coins@.take(j as int + 1).map_values(|c: Coin| coin_value(c, d)),
                            ) by {
                            lemma_total_push_map(before, |c: Coin| coin_value(c, d), c);
                            lemma_total_take_map(b.coins@, |c: Coin| coin_value(c, d), j as int);
                            assert(coins_sum(before, d) == total(
                                b.coins@.take(j as int).map_values(|c: Coin| coin_value(c, d)),
                            ));
                        }
                    }
                } else {
                    assert forall|d: Seq<char>|
                        #[trigger] coins_sum(coins@, d) == total(
                            b.coins@.take(j as int + 1).map_values(|c: Coin| coin_value(c, d)),
                        ) by {
                        lemma_total_take_map(b.coins@, |c: Coin| coin_value(c, d), j as int);
                    }
                }
                j = j + 1;
            }
            proof {
                assert(b.coins@.take(j as int) =~= b.coins@);
                assert(distinct_denoms(coins@));
            }
            let ghost before = out@;
            if coins.len() > 0 {
                let nb = Balance { address: b.address.clone(), coins };
                out.push(nb);
                proof {
                    src = src.push(i as int);
                    assert forall|a: Seq<char>, d: Seq<char>|
                        #[trigger] amount_of(out@, a, d) == total(
                            changes@.take(i as int + 1).map_values(|b: Balance| address_value(b, a, d)),
                        ) by {
                        lemma_total_push_map(before, |b: Balance| address_value(b, a, d), nb);
                        lemma_total_take_map(changes@, |b: Balance| address_value(b, a, d), i as int);
                        assert(amount_of(before, a, d) == total(
                            changes@.take(i as int).map_values(|b: Balance| address_value(b, a, d)),
                        ));
                        assert(coins_sum(nb.coins@, d) == coins_sum(b.coins@, d));
                    }
                    assert forall|d: Seq<char>|
                        #[trigger] legs_sum(out@, d) == total(
                            changes@.take(i as int + 1).map_values(|b: Balance| leg_value(b, d, None)),
                        ) by {
                        lemma_total_push_map(before, |b: Balance| leg_value(b, d, None), nb);
                        lemma_total_take_map(changes@, |b: Balance| leg_value(b, d, None), i as int);
                        assert(legs_sum(before, d) == total(
                            changes@.take(i as int).map_values(|b: Balance| leg_value(b, d, None)),
                        ));
                        assert(coins_sum(nb.coins@, d) == coins_sum(b.coins@, d));
                    }
                }
            } else {
                proof {
                    assert forall|a: Seq<char>, d: Seq<char>|
                        #[trigger] amount_of(out@, a, d) == total(
                            changes@.take(i as int + 1).map_values(|b: Balance| address_value(b, a, d)),
                        ) by {
                        lemma_total_take_map(changes@, |b: Balance| address_value(b, a, d), i as int);
                        assert(coins_sum(coins@, d) == 0);
                    }
                    assert forall|d: Seq<char>|
                        #[trigger] legs_sum(out@, d) == total(
                            changes@.take(i as int + 1).map_values(|b: Balance| leg_value(b, d, None)),
                        ) by {
                        lemma_total_take_map(changes@, |b: Balance| leg_value(b, d, None), i as int);
                        assert(coins_sum(coins@, d) == 0);
                    }
                }
            }
            i = i + 1;
        }
        proof {
            assert forall|a: Seq<char>, d: Seq<char>|
                #[trigger] amount_of(out@, a, d) == amount_of(changes@, a, d) by {
                lemma_total_take_all(changes@, |b: Balance| address_value(b, a, d));
            }
            assert forall|d: Seq<char>| #[trigger] legs_sum(out@, d) == legs_sum(changes@, d) by {
                lemma_total_take_all(changes@, |b: Balance| leg_value(b, d, None));
            }
        }
        out
    }
}

} // verus!
