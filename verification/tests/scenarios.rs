use std::collections::HashMap;
use payments_engine::csv_process::deserialize_inputs;
use payments_engine::model::{AccountDetails, Transactions};
use payments_engine::operations::process_operation;

/// Expected balances of one account, in currency units.
struct Expected {
    available: f32,
    held: f32,
    total: f32,
    locked: bool,
}

fn units_to_f32(units: i128) -> f32 {
    units as f32 / 10000.0
}

/// Applies every row of the text with the same line number, as the scenario
/// tests do, panicking with the message of a rejected row.
fn run_fixed_line(str_: &str) -> HashMap<u16, AccountDetails> {
    let mut accounts: HashMap<u16, AccountDetails> = HashMap::new();
    let mut transactions: HashMap<u32, Transactions> = HashMap::new();
    for result in deserialize_inputs(str_).unwrap() {
        let tr = result.unwrap();
        match process_operation(tr, &mut accounts, 1, &mut transactions) {
            Ok(()) => {}
            Err(error) => panic!("{}", error),
        }
    }
    accounts
}

/// Applies the rows with line numbers counting from 1, panicking with the
/// message of a rejected row.
fn run_counting_lines(str_: &str) {
    let mut accounts: HashMap<u16, AccountDetails> = HashMap::new();
    let mut transactions: HashMap<u32, Transactions> = HashMap::new();
    let mut line = 1; //skip headers
    for result in deserialize_inputs(str_).unwrap() {
        let tr = result.unwrap();
        match process_operation(tr, &mut accounts, line, &mut transactions) {
            Ok(()) => line = line + 1,
            Err(error) => panic!("{}", error),
        }
    }
}

fn check(accounts: &HashMap<u16, AccountDetails>, expected: &HashMap<u16, Expected>) {
    for (key, value) in expected.iter() {
        let expected_value = accounts.get(key);
        match expected_value {
            Some(acc) => {
                assert_eq!(units_to_f32(acc.total()), value.total);
                assert_eq!(units_to_f32(acc.held()), value.held);
                assert_eq!(acc.locked(), value.locked);
                assert_eq!(units_to_f32(acc.available()), value.available);
            }
            None => assert!(false),
        }
    }
}

#[test]
fn default_test() {
    let str_ = "type, client, tx, amount
    deposit, 1, 1, 1.0
    deposit, 2, 2, 2.0
    deposit, 1, 3, 2.0
    withdrawal, 1, 4, 1.5
    withdrawal, 2, 5, 3.0";

    let mut expected: HashMap<u16, Expected> = HashMap::new();
    expected.insert(1, Expected { available: 1.5, held: 0.0, total: 1.5, locked: false });
    expected.insert(2, Expected { available: 2.0, held: 0.0, total: 2.0, locked: false });
    let accounts = run_fixed_line(str_);
    check(&accounts, &expected);
}

#[test]
fn withdrawal_non_existent_clientid_test() {
    let str_ = "type, client, tx, amount
    deposit, 1, 1, 1.0
    deposit, 1, 3, 2.0
    withdrawal, 1, 4, 1.5
    withdrawal, 2, 5, 3.0";

    let mut expected: HashMap<u16, Expected> = HashMap::new();
    expected.insert(1, Expected { available: 1.5, held: 0.0, total: 1.5, locked: false });
    let accounts = run_fixed_line(str_);
    check(&accounts, &expected);
}

#[test]
fn dispute_non_existent_clientid_test() {
    let str_ = "type, client, tx, amount
    deposit, 1, 1, 1.223298
    deposit, 1, 3, 2.3455987
    withdrawal, 1, 4, 1.5123987
    dispute, 2, 5, ";

    let mut expected: HashMap<u16, Expected> = HashMap::new();
    expected.insert(1, Expected { available: 2.0565, held: 0.0, total: 2.0565, locked: false });
    let accounts = run_fixed_line(str_);
    check(&accounts, &expected);
}

#[test]
fn four_decimal_test() {
    let str_ = "type, client, tx, amount
    deposit, 1, 1, 1.223298
    deposit, 2, 2, 2.122398
    deposit, 1, 3, 2.3455987
    withdrawal, 1, 4, 1.5123987
    withdrawal, 2, 5, 1.2332889";

    let mut expected: HashMap<u16, Expected> = HashMap::new();
    expected.insert(1, Expected { available: 2.0565, held: 0.0, total: 2.0565, locked: false });
    expected.insert(2, Expected { available: 0.8891, held: 0.0, total: 0.8891, locked: false });
    let accounts = run_fixed_line(str_);
    check(&accounts, &expected);
}

#[test]
#[should_panic(expected = "Invalid Operation at line: 3")]
fn invalid_type_test() {
    let str_ = "type, client, tx, amount
    deposit, 1, 1, 1.0
    deposit, 2, 2, 2.0
    invalid, 1, 3, 2.0
    withdrawal, 1, 4, 1.5
    withdrawal, 2, 5, 3.0";
    run_counting_lines(str_);
}

#[test]
#[should_panic(expected = "Invalid Client at line: 1")]
fn invalid_client_test() {
    let str_ = "type, client, tx, amount
    deposit, abc, 1, 1.0
    deposit, 2, 2, 2.0
    deposit, 1, 3, 2.0
    withdrawal, 1, 4, 1.5
    withdrawal, 2, 5, 3.0";
    run_counting_lines(str_);
}

#[test]
#[should_panic(expected = "Invalid Tx at line: 1")]
fn invalid_tx_test() {
    let str_ = "type, client, tx, amount
    deposit, 1, abc, 1.0
    deposit, 2, 2, 2.0
    deposit, 1, 3, 2.0
    withdrawal, 1, 4, 1.5
    withdrawal, 2, 5, 3.0";
    run_counting_lines(str_);
}

#[test]
#[should_panic(expected = "Invalid Amount at line: 1")]
fn invalid_amount_test() {
    let str_ = "type, client, tx, amount
    deposit, 1, 1, abc
    deposit, 2, 2, 2.0
    deposit, 1, 3, 2.0
    withdrawal, 1, 4, 1.5
    withdrawal, 2, 5, 3.0";
    run_counting_lines(str_);
}

#[test]
#[should_panic(expected = "Conflicting Transaction at line: 2")]
fn conflicting_transaction() {
    let str_ = "type, client, tx, amount
    deposit, 1, 1, 1.0
    deposit, 2, 1, 2.0
    deposit, 1, 3, 2.0
    withdrawal, 1, 4, 1.5
    withdrawal, 2, 5, 3.0";
    run_counting_lines(str_);
}

#[test]
#[should_panic(expected = "Divergent Transaction and Client ID at line: 6")]
fn divergent_transaction_id() {
    let str_ = "type, client, tx, amount
    deposit, 1, 1, 1.0
    deposit, 2, 2, 2.0
    deposit, 1, 3, 2.0
    withdrawal, 1, 4, 1.5
    withdrawal, 2, 5, 3.0
    dispute, 1, 2, ";
    run_counting_lines(str_);
}

#[test]
fn dispute_test() {
    let str_ = "type, client, tx, amount
    deposit, 1, 1, 1.0
    deposit, 2, 2, 2.0
    deposit, 1, 3, 2.0
    withdrawal, 1, 4, 1.5
    withdrawal, 2, 5, 3.0
    dispute, 1, 1, ";

    let mut expected: HashMap<u16, Expected> = HashMap::new();
    expected.insert(1, Expected { available: 0.5, held: 1.0, total: 1.5, locked: false });
    expected.insert(2, Expected { available: 2.0, held: 0.0, total: 2.0, locked: false });
    let accounts = run_fixed_line(str_);
    check(&accounts, &expected);
}

#[test]
fn resolve_test() {
    let str_ = "type, client, tx, amount
    deposit, 1, 1, 1.0
    deposit, 2, 2, 2.0
    deposit, 1, 3, 2.0
    withdrawal, 1, 4, 1.5
    withdrawal, 2, 5, 3.0
    dispute, 1, 1, 
    resolve, 1, 1, ";

    let mut expected: HashMap<u16, Expected> = HashMap::new();
    expected.insert(1, Expected { available: 1.5, held: 0.0, total: 1.5, locked: false });
    expected.insert(2, Expected { available: 2.0, held: 0.0, total: 2.0, locked: false });
    let accounts = run_fixed_line(str_);
    check(&accounts, &expected);
}

#[test]
fn chargeback_test() {
    let str_ = "type, client, tx, amount
    deposit, 1, 1, 1.0
    deposit, 2, 2, 2.0
    deposit, 1, 3, 2.0
    withdrawal, 1, 4, 1.5
    withdrawal, 2, 5, 3.0
    dispute, 1, 1, 
    chargeback, 1, 1, ";

    let mut expected: HashMap<u16, Expected> = HashMap::new();
    expected.insert(1, Expected { available: 0.5, held: 0.0, total: 0.5, locked: true });
    expected.insert(2, Expected { available: 2.0, held: 0.0, total: 2.0, locked: false });
    let accounts = run_fixed_line(str_);
    check(&accounts, &expected);
}

#[test]
fn frozen_account_test() {
    let str_ = "type, client, tx, amount
    deposit, 1, 1, 1.0
    deposit, 2, 2, 2.0
    deposit, 1, 3, 2.0
    withdrawal, 1, 4, 1.5
    withdrawal, 2, 5, 3.0
    dispute, 1, 1, 
    chargeback, 1, 1, 
    deposit, 1, 6, 1.0
    withdrawal, 1, 7, 1.5
    dispute, 1, 3, 
    resolve, 1, 3, 
    dispute, 1, 4, 
    chargeback, 1, 4, ";

    let mut expected: HashMap<u16, Expected> = HashMap::new();
    expected.insert(1, Expected { available: 0.5, held: 0.0, total: 0.5, locked: true });
    expected.insert(2, Expected { available: 2.0, held: 0.0, total: 2.0, locked: false });
    let accounts = run_fixed_line(str_);
    check(&accounts, &expected);
}

#[test]
fn resolve_without_dispute_test() {
    let str_ = "type, client, tx, amount
    deposit, 1, 1, 1.0
    deposit, 2, 2, 2.0
    deposit, 1, 3, 2.0
    withdrawal, 1, 4, 1.5
    withdrawal, 2, 5, 3.0
    resolve, 1, 1, 
    deposit, 1, 6, 1.0";

    let mut expected: HashMap<u16, Expected> = HashMap::new();
    expected.insert(1, Expected { available: 2.5, held: 0.0, total: 2.5, locked: false });
    expected.insert(2, Expected { available: 2.0, held: 0.0, total: 2.0, locked: false });
    let accounts = run_fixed_line(str_);
    check(&accounts, &expected);
}

#[test]
fn chargeback_without_dispute_test() {
    let str_ = "type, client, tx, amount
    deposit, 1, 1, 1.0
    deposit, 2, 2, 2.0
    deposit, 1, 3, 2.0
    withdrawal, 1, 4, 1.5
    withdrawal, 2, 5, 3.0
    chargeback, 1, 1, 
    deposit, 1, 6, 1.0";

    let mut expected: HashMap<u16, Expected> = HashMap::new();
    expected.insert(1, Expected { available: 2.5, held: 0.0, total: 2.5, locked: false });
    expected.insert(2, Expected { available: 2.0, held: 0.0, total: 2.0, locked: false });
    let accounts = run_fixed_line(str_);
    check(&accounts, &expected);
}
