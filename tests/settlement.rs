use std::collections::HashMap;

use multisend::{
    calculate_balance_changes, Balance, Coin, DenomDefinition, MultiSend, Rate, SettlementError,
};

fn coin(denom: &str, amount: i128) -> Coin {
    Coin { denom: denom.to_string(), amount }
}

fn balance(address: &str, coins: Vec<Coin>) -> Balance {
    Balance { address: address.to_string(), coins }
}

fn rate(numerator: u32, denominator: u32) -> Rate {
    Rate::new(numerator, denominator).unwrap()
}

fn definition(denom: &str, issuer: &str, burn_rate: Rate, commission_rate: Rate) -> DenomDefinition {
    DenomDefinition {
        denom: denom.to_string(),
        issuer: issuer.to_string(),
        burn_rate,
        commission_rate,
    }
}

fn invalid_sum_data() -> (Vec<Balance>, Vec<DenomDefinition>, MultiSend) {
    let original_balances = vec![balance("account1", vec![coin("denom1", 1_000_000)])];
    let definitions = vec![definition("denom1", "issuer_account_A", Rate::zero(), Rate::zero())];
    let multi_send = MultiSend {
        inputs: vec![balance("account1", vec![coin("denom1", 350)])],
        outputs: vec![balance("account_recipient", vec![coin("denom1", 450)])],
    };
    (original_balances, definitions, multi_send)
}

fn no_issuer_on_sender_or_receiver_data() -> (Vec<Balance>, Vec<DenomDefinition>, MultiSend) {
    let original_balances = vec![
        balance("account1", vec![coin("denom1", 1_000_000)]),
        balance("account2", vec![coin("denom2", 1_000_000)]),
    ];
    let definitions = vec![
        definition("denom1", "issuer_account_A", rate(8, 100), rate(12, 100)),
        definition("denom2", "issuer_account_B", rate(1, 1), Rate::zero()),
    ];
    let multi_send = MultiSend {
        inputs: vec![
            balance("account1", vec![coin("denom1", 1000)]),
            balance("account2", vec![coin("denom2", 1000)]),
        ],
        outputs: vec![balance(
            "account_recipient",
            vec![coin("denom1", 1000), coin("denom2", 1000)],
        )],
    };
    (original_balances, definitions, multi_send)
}

fn issuer_exists_on_sender_receiver_data(
    account2_holdings: Vec<Coin>,
) -> (Vec<Balance>, Vec<DenomDefinition>, MultiSend) {
    let original_balances = vec![
        balance("account1", vec![coin("denom1", 1_000_000)]),
        balance("account2", account2_holdings),
    ];
    let definitions = vec![definition("denom1", "issuer_account_A", rate(8, 100), rate(12, 100))];
    let multi_send = MultiSend {
        inputs: vec![
            balance("account1", vec![coin("denom1", 650)]),
            balance("account2", vec![coin("denom1", 350)]),
        ],
        outputs: vec![
            balance("account_recipient", vec![coin("denom1", 500)]),
            balance("issuer_account_A", vec![coin("denom1", 500)]),
        ],
    };
    (original_balances, definitions, multi_send)
}

fn insufficient_balance_data() -> (Vec<Balance>, Vec<DenomDefinition>, MultiSend) {
    let original_balances = vec![balance("account1", vec![])];
    let definitions = vec![definition("denom1", "issuer_account_A", Rate::zero(), Rate::zero())];
    let multi_send = MultiSend {
        inputs: vec![balance("account1", vec![coin("denom1", 350)])],
        outputs: vec![balance("account_recipient", vec![coin("denom1", 350)])],
    };
    (original_balances, definitions, multi_send)
}

/// Checks each change against the expected coins of its address, in order.
fn assert_changes(expected: &HashMap<String, Vec<Coin>>, balance_changes: &[Balance]) {
    for balance_change in balance_changes.iter() {
        let expected_coins = expected.get(&balance_change.address).unwrap();
        assert_eq!(expected_coins.len(), balance_change.coins.len());
        for (expected_coin, coin) in expected_coins.iter().zip(balance_change.coins.iter()) {
            assert_eq!(expected_coin.denom, coin.denom);
            assert_eq!(expected_coin.amount, coin.amount);
        }
    }
    assert_eq!(expected.len(), balance_changes.len());
}

#[test]
fn test_invalid_sum() {
    let (original_balances, definitions, multi_send) = invalid_sum_data();
    let result = calculate_balance_changes(original_balances, definitions, multi_send);
    assert_eq!(
        result.err().map(|e| e.message()),
        Some("Invalid Multi Send Tx".to_string())
    );
}

#[test]
fn test_no_issuer_on_sender_or_receiver() {
    let (original_balances, definitions, multi_send) = no_issuer_on_sender_or_receiver_data();
    let mut expected = HashMap::new();
    expected.insert(
        "account_recipient".to_string(),
        vec![coin("denom1", 1000), coin("denom2", 1000)],
    );
    expected.insert("issuer_account_A".to_string(), vec![coin("denom1", 120)]);
    expected.insert("account1".to_string(), vec![coin("denom1", -1200)]);
    expected.insert("account2".to_string(), vec![coin("denom2", -2000)]);

    let balance_changes =
        calculate_balance_changes(original_balances, definitions, multi_send).unwrap();
    assert_changes(&expected, &balance_changes);
}

/// account2 sends denom1 but holds only denom2: balances are looked up by
/// denomination, so the transfer is rejected at account2's coin.
#[test]
fn test_issuer_exists_on_sender_receiver() {
    let (original_balances, definitions, multi_send) =
        issuer_exists_on_sender_receiver_data(vec![coin("denom2", 1_000_000)]);
    let result = calculate_balance_changes(original_balances, definitions, multi_send);
    assert_eq!(
        result.err(),
        Some(SettlementError::InsufficientBalance {
            address: "account2".to_string(),
            denom: "denom1".to_string(),
        })
    );
}

/// The same transfer once account2 holds the denom1 it sends.
#[test]
fn issuer_exists_with_funded_senders() {
    let (original_balances, definitions, multi_send) =
        issuer_exists_on_sender_receiver_data(vec![coin("denom1", 1_000_000)]);
    let mut expected = HashMap::new();
    expected.insert("account_recipient".to_string(), vec![coin("denom1", 500)]);
    expected.insert("issuer_account_A".to_string(), vec![coin("denom1", 560)]);
    expected.insert("account1".to_string(), vec![coin("denom1", -715)]);
    expected.insert("account2".to_string(), vec![coin("denom1", -385)]);

    let balance_changes =
        calculate_balance_changes(original_balances, definitions, multi_send).unwrap();
    assert_changes(&expected, &balance_changes);
}

#[test]
fn test_insufficient_balance() {
    let (original_balances, definitions, multi_send) = insufficient_balance_data();
    let result = calculate_balance_changes(original_balances, definitions, multi_send);
    assert_eq!(
        result.err().map(|e| e.message()),
        Some(format!(
            "Inssuficient wallet balance on {} for coin {}",
            "account1", "denom1"
        ))
    );
}
