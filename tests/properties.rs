use std::collections::HashMap;

use multisend::{
    calculate_balance_changes, evaluate_rate, min, roundup, Balance, Coin, DenomDefinition,
    MultiSend, Rate, SettlementError, MAX_TOTAL,
};

fn coin(denom: &str, amount: i128) -> Coin {
    Coin { denom: denom.to_string(), amount }
}

fn balance(address: &str, coins: Vec<Coin>) -> Balance {
    Balance { address: address.to_string(), coins }
}

fn rate(numerator: u32, denominator: u32) -> Rate {
    Rate::new(numerator, denominator).unwrap()
}

fn definition(denom: &str, issuer: &str, burn_rate: Rate, commission_rate: Rate) -> DenomDefinition {
    DenomDefinition {
        denom: denom.to_string(),
        issuer: issuer.to_string(),
        burn_rate,
        commission_rate,
    }
}

fn changes(settlement: &[Balance]) -> HashMap<(String, String), i128> {
    let mut map = HashMap::new();
    for b in settlement {
        assert!(!b.coins.is_empty());
        for c in &b.coins {
            assert_ne!(c.amount, 0);
            assert!(map.insert((b.address.clone(), c.denom.clone()), c.amount).is_none());
        }
    }
    map
}

fn change(map: &HashMap<(String, String), i128>, address: &str, denom: &str) -> i128 {
    *map.get(&(address.to_string(), denom.to_string())).unwrap_or(&0)
}

fn denom_sum(settlement: &[Balance], denom: &str) -> i128 {
    settlement
        .iter()
        .flat_map(|b| b.coins.iter())
        .filter(|c| c.denom == denom)
        .map(|c| c.amount)
        .sum()
}

fn worked_example() -> (Vec<Balance>, Vec<DenomDefinition>, MultiSend) {
    let balances = vec![
        balance("sender60", vec![coin("tok", 1000)]),
        balance("sender90", vec![coin("tok", 1000)]),
        balance("issuer", vec![coin("tok", 1000)]),
    ];
    let definitions = vec![definition("tok", "issuer", rate(10, 100), Rate::zero())];
    let tx = MultiSend {
        inputs: vec![
            balance("sender60", vec![coin("tok", 60)]),
            balance("sender90", vec![coin("tok", 90)]),
            balance("issuer", vec![coin("tok", 25)]),
        ],
        outputs: vec![
            balance("out50", vec![coin("tok", 50)]),
            balance("issuer", vec![coin("tok", 100)]),
            balance("out25", vec![coin("tok", 25)]),
        ],
    };
    (balances, definitions, tx)
}

fn two_denom_example() -> (Vec<Balance>, Vec<DenomDefinition>, MultiSend) {
    let balances = vec![
        balance("account1", vec![coin("denom1", 1_000_000)]),
        balance("account2", vec![coin("denom2", 1_000_000)]),
    ];
    let definitions = vec![
        definition("denom1", "issuer_a", rate(8, 100), rate(12, 100)),
        definition("denom2", "issuer_b", rate(1, 1), Rate::zero()),
    ];
    let tx = MultiSend {
        inputs: vec![
            balance("account1", vec![coin("denom1", 1000)]),
            balance("account2", vec![coin("denom2", 1000)]),
        ],
        outputs: vec![balance("recipient", vec![coin("denom1", 1000), coin("denom2", 1000)])],
    };
    (balances, definitions, tx)
}

#[test]
fn worked_example_apportions_burn() {
    let (balances, definitions, tx) = worked_example();
    let s = calculate_balance_changes(balances, definitions, tx).unwrap();
    let m = changes(&s);
    assert_eq!(change(&m, "sender60", "tok"), -63);
    assert_eq!(change(&m, "sender90", "tok"), -95);
    assert_eq!(change(&m, "issuer", "tok"), 75);
    assert_eq!(change(&m, "out50", "tok"), 50);
    assert_eq!(change(&m, "out25", "tok"), 25);
    assert_eq!(m.len(), 5);
}

#[test]
fn worked_example_fee_shares() {
    assert_eq!(evaluate_rate(60, rate(10, 100), 75, 150), 3);
    assert_eq!(evaluate_rate(90, rate(10, 100), 75, 150), 5);
}

#[test]
fn burn_is_all_that_leaves() {
    let (balances, definitions, tx) = worked_example();
    let s = calculate_balance_changes(balances, definitions, tx).unwrap();
    assert_eq!(denom_sum(&s, "tok"), -8);

    let (balances, definitions, tx) = two_denom_example();
    let s = calculate_balance_changes(balances, definitions, tx).unwrap();
    assert_eq!(denom_sum(&s, "denom1"), -80);
    assert_eq!(denom_sum(&s, "denom2"), -1000);
}

#[test]
fn same_inputs_same_settlement() {
    let (b1, d1, t1) = two_denom_example();
    let (b2, d2, t2) = two_denom_example();
    let s1 = calculate_balance_changes(b1, d1, t1).unwrap();
    let s2 = calculate_balance_changes(b2, d2, t2).unwrap();
    assert_eq!(changes(&s1), changes(&s2));
}

#[test]
fn same_inputs_same_rejection() {
    let (_, d1, t1) = worked_example();
    let (_, d2, t2) = worked_example();
    let r1 = calculate_balance_changes(vec![], d1, t1).err();
    let r2 = calculate_balance_changes(vec![], d2, t2).err();
    assert_eq!(
        r1,
        Some(SettlementError::InsufficientBalance {
            address: "sender60".to_string(),
            denom: "tok".to_string(),
        })
    );
    assert_eq!(r1, r2);
}

#[test]
fn zero_rates_move_only_the_legs() {
    let balances = vec![
        balance("a", vec![coin("x", 500), coin("y", 500)]),
        balance("b", vec![coin("x", 500)]),
    ];
    let definitions = vec![
        definition("x", "issuer_x", Rate::zero(), Rate::zero()),
        definition("y", "issuer_y", rate(0, 7), rate(0, 3)),
    ];
    let tx = MultiSend {
        inputs: vec![
            balance("a", vec![coin("x", 100), coin("y", 40)]),
            balance("b", vec![coin("x", 30)]),
        ],
        outputs: vec![
            balance("c", vec![coin("x", 120), coin("y", 40)]),
            balance("a", vec![coin("x", 10)]),
        ],
    };
    let s = calculate_balance_changes(balances, definitions, tx).unwrap();
    let m = changes(&s);
    assert_eq!(change(&m, "a", "x"), -90);
    assert_eq!(change(&m, "a", "y"), -40);
    assert_eq!(change(&m, "b", "x"), -30);
    assert_eq!(change(&m, "c", "x"), 120);
    assert_eq!(change(&m, "c", "y"), 40);
    assert_eq!(m.len(), 5);
}

#[test]
fn issuer_sends_without_fees() {
    let balances = vec![balance("issuer", vec![coin("tok", 100)])];
    let definitions = vec![definition("tok", "issuer", rate(1, 2), rate(1, 2))];
    let tx = MultiSend {
        inputs: vec![balance("issuer", vec![coin("tok", 100)])],
        outputs: vec![balance("someone", vec![coin("tok", 100)])],
    };
    let s = calculate_balance_changes(balances, definitions, tx).unwrap();
    let m = changes(&s);
    assert_eq!(change(&m, "issuer", "tok"), -100);
    assert_eq!(change(&m, "someone", "tok"), 100);
    assert_eq!(m.len(), 2);
}

#[test]
fn issuer_change_is_credit_less_send_plus_commission() {
    let balances = vec![
        balance("a", vec![coin("tok", 1000)]),
        balance("iss", vec![coin("tok", 20)]),
    ];
    let definitions = vec![definition("tok", "iss", Rate::zero(), rate(1, 10))];
    let tx = MultiSend {
        inputs: vec![balance("a", vec![coin("tok", 100)]), balance("iss", vec![coin("tok", 20)])],
        outputs: vec![balance("b", vec![coin("tok", 90)]), balance("iss", vec![coin("tok", 30)])],
    };
    let s = calculate_balance_changes(balances, definitions, tx).unwrap();
    let m = changes(&s);
    assert_eq!(change(&m, "iss", "tok"), 30 - 20 + 9);
    assert_eq!(change(&m, "a", "tok"), -109);
    assert_eq!(change(&m, "b", "tok"), 90);
    assert_eq!(denom_sum(&s, "tok"), 0);
}

#[test]
fn balance_short_of_fees_is_rejected() {
    // 1000 sent with 8% burn and 12% commission needs 1200.
    let definitions = || vec![definition("tok", "issuer", rate(8, 100), rate(12, 100))];
    let tx = || MultiSend {
        inputs: vec![balance("sender", vec![coin("tok", 1000)])],
        outputs: vec![balance("receiver", vec![coin("tok", 1000)])],
    };
    let short = vec![balance("sender", vec![coin("tok", 1199)])];
    let result = calculate_balance_changes(short, definitions(), tx());
    assert_eq!(
        result.err(),
        Some(SettlementError::InsufficientBalance {
            address: "sender".to_string(),
            denom: "tok".to_string(),
        })
    );

    let exact = vec![balance("sender", vec![coin("tok", 1200)])];
    let s = calculate_balance_changes(exact, definitions(), tx()).unwrap();
    let m = changes(&s);
    assert_eq!(change(&m, "sender", "tok"), -1200);
    assert_eq!(change(&m, "issuer", "tok"), 120);
    assert_eq!(change(&m, "receiver", "tok"), 1000);
}

#[test]
fn rejection_names_the_first_short_sender() {
    let balances = vec![
        balance("rich", vec![coin("tok", 1000)]),
        balance("poor1", vec![coin("tok", 1)]),
        balance("poor2", vec![coin("other", 1)]),
    ];
    let tx = MultiSend {
        inputs: vec![
            balance("rich", vec![coin("tok", 10)]),
            balance("poor1", vec![coin("tok", 10)]),
            balance("poor2", vec![coin("other", 10)]),
        ],
        outputs: vec![balance("dest", vec![coin("tok", 20), coin("other", 10)])],
    };
    let err = calculate_balance_changes(balances, vec![], tx).unwrap_err();
    assert_eq!(err.message(), "Inssuficient wallet balance on poor1 for coin tok");
}

#[test]
fn unbalanced_denom_rejected_though_another_balances() {
    let balances = vec![balance("a", vec![coin("denomA", 1000), coin("denomB", 1000)])];
    let tx = MultiSend {
        inputs: vec![balance("a", vec![coin("denomA", 100), coin("denomB", 50)])],
        outputs: vec![balance("b", vec![coin("denomA", 90), coin("denomB", 50)])],
    };
    let result = calculate_balance_changes(balances, vec![], tx);
    assert_eq!(result.err(), Some(SettlementError::UnbalancedTransaction));
}

#[test]
fn swap_of_denoms_with_equal_total_is_unbalanced() {
    let tx = MultiSend {
        inputs: vec![balance("a", vec![coin("denomA", 100)])],
        outputs: vec![balance("b", vec![coin("denomA", 50), coin("denomB", 50)])],
    };
    assert_eq!(tx.validate_multi_send_tx(), Err(SettlementError::UnbalancedTransaction));
    let ok = MultiSend {
        inputs: vec![balance("a", vec![coin("denomA", 100)]), balance("c", vec![])],
        outputs: vec![balance("b", vec![coin("denomA", 60)]), balance("d", vec![coin("denomA", 40)])],
    };
    assert_eq!(ok.validate_multi_send_tx(), Ok(()));
}

#[test]
fn undefined_denom_passes_fee_free() {
    let balances = vec![balance("a", vec![coin("free", 10)])];
    let definitions = vec![definition("tok", "issuer", rate(1, 2), rate(1, 2))];
    let tx = MultiSend {
        inputs: vec![balance("a", vec![coin("free", 10)])],
        outputs: vec![balance("b", vec![coin("free", 10)])],
    };
    let s = calculate_balance_changes(balances, definitions, tx).unwrap();
    let m = changes(&s);
    assert_eq!(change(&m, "a", "free"), -10);
    assert_eq!(change(&m, "b", "free"), 10);
    assert_eq!(m.len(), 2);
}

#[test]
fn commission_reaches_issuer_outside_the_legs() {
    let balances = vec![balance("a", vec![coin("tok", 1000)])];
    let definitions = vec![definition("tok", "issuer", Rate::zero(), rate(1, 10))];
    let tx = MultiSend {
        inputs: vec![balance("a", vec![coin("tok", 100)])],
        outputs: vec![balance("b", vec![coin("tok", 100)])],
    };
    let s = calculate_balance_changes(balances, definitions, tx).unwrap();
    let m = changes(&s);
    assert_eq!(change(&m, "a", "tok"), -110);
    assert_eq!(change(&m, "issuer", "tok"), 10);
    assert_eq!(change(&m, "b", "tok"), 100);
    assert_eq!(denom_sum(&s, "tok"), 0);
}

#[test]
fn zero_net_changes_are_omitted() {
    let balances = vec![balance("a", vec![coin("tok", 100)])];
    let tx = MultiSend {
        inputs: vec![balance("a", vec![coin("tok", 50)])],
        outputs: vec![balance("a", vec![coin("tok", 50)])],
    };
    let s = calculate_balance_changes(balances, vec![], tx).unwrap();
    assert!(s.is_empty());
}

#[test]
fn empty_transfer_settles_to_nothing() {
    let tx = MultiSend { inputs: vec![], outputs: vec![] };
    let s = calculate_balance_changes(vec![], vec![], tx).unwrap();
    assert!(s.is_empty());
}

#[test]
fn fees_round_up() {
    // 1% of 10 is 0.1, charged as 1.
    let balances = vec![balance("a", vec![coin("tok", 11)])];
    let definitions = vec![definition("tok", "issuer", rate(1, 100), Rate::zero())];
    let tx = MultiSend {
        inputs: vec![balance("a", vec![coin("tok", 10)])],
        outputs: vec![balance("b", vec![coin("tok", 10)])],
    };
    let s = calculate_balance_changes(balances, definitions, tx).unwrap();
    let m = changes(&s);
    assert_eq!(change(&m, "a", "tok"), -11);
    assert_eq!(denom_sum(&s, "tok"), -1);
}

#[test]
fn burn_base_is_the_smaller_non_issuer_sum() {
    // Non-issuer inputs 100, non-issuer outputs 40: the base is 40.
    let balances = vec![balance("a", vec![coin("tok", 1000)])];
    let definitions = vec![definition("tok", "issuer", rate(1, 2), Rate::zero())];
    let tx = MultiSend {
        inputs: vec![balance("a", vec![coin("tok", 100)])],
        outputs: vec![balance("b", vec![coin("tok", 40)]), balance("issuer", vec![coin("tok", 60)])],
    };
    let s = calculate_balance_changes(balances, definitions, tx).unwrap();
    let m = changes(&s);
    assert_eq!(change(&m, "a", "tok"), -120);
    assert_eq!(change(&m, "issuer", "tok"), 60);
}

#[test]
fn later_snapshot_entry_wins() {
    let balances = vec![
        balance("a", vec![coin("tok", 1000)]),
        balance("a", vec![coin("tok", 5)]),
    ];
    let tx = MultiSend {
        inputs: vec![balance("a", vec![coin("tok", 10)])],
        outputs: vec![balance("b", vec![coin("tok", 10)])],
    };
    let result = calculate_balance_changes(balances, vec![], tx);
    assert!(matches!(result, Err(SettlementError::InsufficientBalance { .. })));
}

#[test]
fn fee_shares_of_the_largest_amounts_are_exact() {
    let top = i128::MAX;
    assert_eq!(
        evaluate_rate(top, rate(1, 3), top, top),
        56_713_727_820_156_410_577_229_101_238_628_035_243
    );
    assert_eq!(
        evaluate_rate(top - 5, rate(u32::MAX - 1, u32::MAX), top, top),
        170_141_183_420_855_150_465_331_762_880_109_871_098
    );
    assert_eq!(
        evaluate_rate(12_345_678_901_234_567_890_123, rate(7, 10), top / 2, top),
        4_320_987_615_432_098_761_544
    );
    assert_eq!(evaluate_rate(top, rate(1, 1), top, top), top);
    assert_eq!(evaluate_rate(1, rate(u32::MAX, u32::MAX), top, top), 1);
    let big: i128 = 18_446_744_073_709_551_615;
    assert_eq!(evaluate_rate(big, rate(1, 3), big, big), 6_148_914_691_236_517_205);
}

#[test]
fn largest_transfer_settles() {
    let big = MAX_TOTAL;
    let half = 28_356_863_910_078_205_288_614_550_619_314_017_621;
    let balances = vec![balance("a", vec![coin("tok", 2 * big)])];
    let definitions = vec![definition("tok", "issuer", rate(1, 2), rate(1, 2))];
    let tx = MultiSend {
        inputs: vec![balance("a", vec![coin("tok", big)])],
        outputs: vec![balance("b", vec![coin("tok", big)])],
    };
    let s = calculate_balance_changes(balances, definitions, tx).unwrap();
    let m = changes(&s);
    assert_eq!(change(&m, "a", "tok"), -2 * big);
    assert_eq!(change(&m, "issuer", "tok"), half);
    assert_eq!(change(&m, "b", "tok"), big);
    assert_eq!(denom_sum(&s, "tok"), -half);
}

#[test]
fn sums_beyond_sixty_four_bits_are_checked() {
    let half = i128::MAX / 2;
    let ok = MultiSend {
        inputs: vec![balance("a", vec![coin("tok", half)]), balance("b", vec![coin("tok", half)])],
        outputs: vec![balance("c", vec![coin("tok", i128::MAX - 1)])],
    };
    assert_eq!(ok.validate_multi_send_tx(), Ok(()));
    let off = MultiSend {
        inputs: vec![balance("a", vec![coin("tok", half)]), balance("b", vec![coin("tok", half)])],
        outputs: vec![balance("c", vec![coin("tok", i128::MAX)])],
    };
    assert_eq!(off.validate_multi_send_tx(), Err(SettlementError::UnbalancedTransaction));
}

#[test]
fn rate_must_lie_in_unit_interval() {
    assert!(Rate::new(3, 2).is_none());
    assert!(Rate::new(1, 0).is_none());
    let r = Rate::new(2, 2).unwrap();
    assert_eq!((r.numerator, r.denominator), (2, 2));
    assert_eq!(Rate::zero().numerator, 0);
}

#[test]
fn arithmetic_helpers() {
    assert_eq!(min(3, 7), 3);
    assert_eq!(min(7, 3), 3);
    assert_eq!(min(-2, -2), -2);
    assert_eq!(roundup(0, 5), 0);
    assert_eq!(roundup(10, 5), 2);
    assert_eq!(roundup(11, 5), 3);
    assert_eq!(evaluate_rate(0, rate(1, 2), 0, 0), 0);
    assert_eq!(evaluate_rate(7, rate(1, 3), 10, 10), 3);
}

#[test]
fn messages_name_the_cause() {
    assert_eq!(SettlementError::UnbalancedTransaction.message(), "Invalid Multi Send Tx");
    let e = SettlementError::InsufficientBalance {
        address: "acc".to_string(),
        denom: "den".to_string(),
    };
    assert_eq!(e.message(), "Inssuficient wallet balance on acc for coin den");
}
