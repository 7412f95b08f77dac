use std::collections::HashMap;
use payments_engine::csv_process::{deserialize_inputs, process_csv_text, process_inputs, ProcessError};
use payments_engine::decode::{parse_amount, parse_operation, parse_unsigned};
use payments_engine::model::{AccountDetails, Errors, Input, Operations, Transactions};
use payments_engine::operations::{process_chargeback, process_dispute, process_operation, process_resolve};
use payments_engine::output::format_output;

fn chars(s: &str) -> Vec<char> {
    s.chars().collect()
}

fn row(op: Operations, client: u16, tx: u32, amount: Option<i64>) -> Input {
    Input::new(Some(op), Some(client), Some(tx), amount)
}

fn apply(rows: &[Input]) -> (HashMap<u16, AccountDetails>, HashMap<u32, Transactions>) {
    let mut accounts: HashMap<u16, AccountDetails> = HashMap::new();
    let mut transactions: HashMap<u32, Transactions> = HashMap::new();
    for r in rows {
        process_operation(*r, &mut accounts, 1, &mut transactions).unwrap();
    }
    (accounts, transactions)
}

#[test]
fn amount_rounds_half_away_from_zero() {
    assert_eq!(parse_amount(&chars("1.23455")), Some(12346));
    assert_eq!(parse_amount(&chars("1.23454999")), Some(12345));
    assert_eq!(parse_amount(&chars("-1.23455")), Some(-12346));
    assert_eq!(parse_amount(&chars("2.3455987")), Some(23456));
    assert_eq!(parse_amount(&chars("0.00005")), Some(1));
}

#[test]
fn amount_forms() {
    assert_eq!(parse_amount(&chars("1")), Some(10000));
    assert_eq!(parse_amount(&chars("1.")), Some(10000));
    assert_eq!(parse_amount(&chars(".5")), Some(5000));
    assert_eq!(parse_amount(&chars("+2")), Some(20000));
    assert_eq!(parse_amount(&chars("-0.5")), Some(-5000));
    assert_eq!(parse_amount(&chars("007.25")), Some(72500));
    assert_eq!(parse_amount(&chars("900000000000000")), Some(9_000_000_000_000_000_000));
}

#[test]
fn amount_refusals() {
    assert_eq!(parse_amount(&chars("")), None);
    assert_eq!(parse_amount(&chars(".")), None);
    assert_eq!(parse_amount(&chars("-")), None);
    assert_eq!(parse_amount(&chars("abc")), None);
    assert_eq!(parse_amount(&chars("1.2.3")), None);
    assert_eq!(parse_amount(&chars("--1")), None);
    assert_eq!(parse_amount(&chars("900000000000001")), None);
}

#[test]
fn amount_exponents() {
    assert_eq!(parse_amount(&chars("1e3")), Some(10_000_000));
    assert_eq!(parse_amount(&chars("2E-1")), Some(2000));
    assert_eq!(parse_amount(&chars("1.5e+2")), Some(1_500_000));
    assert_eq!(parse_amount(&chars("-12.5e-1")), Some(-12500));
    assert_eq!(parse_amount(&chars("1.e2")), Some(1_000_000));
    assert_eq!(parse_amount(&chars("1e-5")), Some(0));
    assert_eq!(parse_amount(&chars("5e-5")), Some(1));
    assert_eq!(parse_amount(&chars("123456e-9")), Some(1));
    assert_eq!(parse_amount(&chars("1e100")), None);
    assert_eq!(parse_amount(&chars("0e1000000000000000000000000000000000000000")), Some(0));
    assert_eq!(parse_amount(&chars("7e-1000000000000000000000000000000000000000")), Some(0));
    assert_eq!(parse_amount(&chars("9e14")), Some(9_000_000_000_000_000_000));
    assert_eq!(parse_amount(&chars("9.0000000000000001e14")), None);
    assert_eq!(parse_amount(&chars("8.9999999999999999e14")), Some(8_999_999_999_999_999_900));
}

#[test]
fn amount_exponent_refusals() {
    assert_eq!(parse_amount(&chars("1e")), None);
    assert_eq!(parse_amount(&chars("1e+")), None);
    assert_eq!(parse_amount(&chars("e5")), None);
    assert_eq!(parse_amount(&chars(".e5")), None);
    assert_eq!(parse_amount(&chars("1e5.0")), None);
    assert_eq!(parse_amount(&chars("1e2e3")), None);
    assert_eq!(parse_amount(&chars("inf")), None);
    assert_eq!(parse_amount(&chars("NaN")), None);
}

#[test]
fn unsigned_fields() {
    assert_eq!(parse_unsigned(&chars("42"), 0xffff), Some(42));
    assert_eq!(parse_unsigned(&chars("+7"), 0xffff), Some(7));
    assert_eq!(parse_unsigned(&chars("0x1F"), 0xffff), Some(31));
    assert_eq!(parse_unsigned(&chars("0x+a"), 0xffff), Some(10));
    assert_eq!(parse_unsigned(&chars("65535"), 0xffff), Some(65535));
    assert_eq!(parse_unsigned(&chars("65536"), 0xffff), None);
    assert_eq!(parse_unsigned(&chars("4294967295"), 0xffff_ffff), Some(4294967295));
    assert_eq!(parse_unsigned(&chars("-1"), 0xffff), None);
    assert_eq!(parse_unsigned(&chars("+"), 0xffff), None);
    assert_eq!(parse_unsigned(&chars(""), 0xffff), None);
    assert_eq!(parse_unsigned(&chars("0x"), 0xffff), None);
    assert_eq!(parse_unsigned(&chars("1f"), 0xffff), None);
}

#[test]
fn operation_names() {
    assert_eq!(parse_operation(&chars("deposit")), Some(Operations::Deposit));
    assert_eq!(parse_operation(&chars("withdrawal")), Some(Operations::Withdrawal));
    assert_eq!(parse_operation(&chars("dispute")), Some(Operations::Dispute));
    assert_eq!(parse_operation(&chars("resolve")), Some(Operations::Resolve));
    assert_eq!(parse_operation(&chars("chargeback")), Some(Operations::Chargeback));
    assert_eq!(parse_operation(&chars("Deposit")), None);
    assert_eq!(parse_operation(&chars("")), None);
}

#[test]
fn rows_follow_the_header() {
    let rows = deserialize_inputs("amount,tx , type,client\n 1.5 , 9,deposit, 3\n2,4").unwrap();
    assert_eq!(rows.len(), 2);
    assert_eq!(rows[0], Some(row(Operations::Deposit, 3, 9, Some(15000))));
    assert_eq!(rows[1], Some(Input::new(None, None, Some(4), Some(20000))));
}

#[test]
fn short_rows_lack_the_last_fields() {
    let rows = deserialize_inputs("type, client, tx, amount\n dispute, 1, 1\n deposit").unwrap();
    assert_eq!(rows[0], Some(Input::new(Some(Operations::Dispute), Some(1), Some(1), None)));
    assert_eq!(rows[1], Some(Input::new(Some(Operations::Deposit), None, None, None)));
}

#[test]
fn short_rows_must_reach_other_columns() {
    let rows = deserialize_inputs("type,client,tx,note,amount\ndeposit,1,1\ndeposit,1,1,x\ndeposit,1,1,x,2").unwrap();
    assert_eq!(rows[0], None);
    assert_eq!(rows[1], Some(Input::new(Some(Operations::Deposit), Some(1), Some(1), None)));
    assert_eq!(rows[2], Some(row(Operations::Deposit, 1, 1, Some(20000))));
}

#[test]
fn rows_need_every_column() {
    let rows = deserialize_inputs("type,client,tx\ndeposit,1,1").unwrap();
    assert_eq!(rows, vec![None]);
    let rows = deserialize_inputs("type,client,tx,amount,tx\ndeposit,1,1,1,1").unwrap();
    assert_eq!(rows, vec![None]);
    let rows = deserialize_inputs("").unwrap();
    assert_eq!(rows.len(), 0);
}

#[test]
fn unreadable_fields_are_none() {
    let rows = deserialize_inputs("type,client,tx,amount\nrefund,x,-3,").unwrap();
    assert_eq!(rows, vec![Some(Input::new(None, None, None, None))]);
}

#[test]
fn error_messages() {
    assert_eq!(Errors::InvalidOperation(3).message(), "Invalid Operation at line: 3");
    assert_eq!(Errors::InvalidClient(1).message(), "Invalid Client at line: 1");
    assert_eq!(Errors::InvalidTx(12).message(), "Invalid Tx at line: 12");
    assert_eq!(Errors::InvalidAmount(0).message(), "Invalid Amount at line: 0");
    assert_eq!(Errors::ConflictTransaction(2).message(), "Conflicting Transaction at line: 2");
    assert_eq!(
        Errors::SecurityErrDivergentClientId(-6).message(),
        "Divergent Transaction and Client ID at line: -6"
    );
}

#[test]
fn missing_fields_are_rejected_in_order() {
    let mut accounts: HashMap<u16, AccountDetails> = HashMap::new();
    let mut transactions: HashMap<u32, Transactions> = HashMap::new();
    let r = process_operation(Input::new(None, None, None, None), &mut accounts, 4, &mut transactions);
    assert_eq!(r, Err("Invalid Operation at line: 4".to_string()));
    let r = process_operation(Input::new(Some(Operations::Deposit), None, None, None), &mut accounts, 4, &mut transactions);
    assert_eq!(r, Err("Invalid Client at line: 4".to_string()));
    let r = process_operation(Input::new(Some(Operations::Deposit), Some(1), None, None), &mut accounts, 4, &mut transactions);
    assert_eq!(r, Err("Invalid Tx at line: 4".to_string()));
    let r = process_operation(Input::new(Some(Operations::Withdrawal), Some(1), Some(1), None), &mut accounts, 4, &mut transactions);
    assert_eq!(r, Err("Invalid Amount at line: 4".to_string()));
    let r = process_operation(Input::new(Some(Operations::Dispute), Some(1), Some(1), None), &mut accounts, 4, &mut transactions);
    assert_eq!(r, Ok(()));
    assert!(accounts.is_empty());
    assert!(transactions.is_empty());
}

#[test]
fn rejected_row_changes_nothing() {
    let (mut accounts, mut transactions) = apply(&[row(Operations::Deposit, 1, 1, Some(10000))]);
    let r = process_operation(row(Operations::Deposit, 2, 1, Some(50000)), &mut accounts, 7, &mut transactions);
    assert_eq!(r, Err("Conflicting Transaction at line: 7".to_string()));
    assert_eq!(accounts.len(), 1);
    assert_eq!(accounts[&1].available(), 10000);
    assert_eq!(transactions.len(), 1);
    assert_eq!(transactions[&1].details.client, Some(1));
}

#[test]
fn totals_are_available_plus_held() {
    let (accounts, _) = apply(&[
        row(Operations::Deposit, 1, 1, Some(30000)),
        row(Operations::Deposit, 1, 2, Some(12345)),
        row(Operations::Dispute, 1, 1, None),
        row(Operations::Withdrawal, 1, 3, Some(2000)),
        row(Operations::Dispute, 1, 2, None),
        row(Operations::Resolve, 1, 1, None),
    ]);
    let a = accounts[&1];
    assert_eq!(a.total(), a.available() + a.held());
    assert_eq!(a.total(), 40345);
    assert_eq!(a.held(), 12345);
}

#[test]
fn locked_account_is_frozen() {
    let (mut accounts, mut transactions) = apply(&[
        row(Operations::Deposit, 1, 1, Some(30000)),
        row(Operations::Deposit, 1, 2, Some(10000)),
        row(Operations::Dispute, 1, 1, None),
        row(Operations::Chargeback, 1, 1, None),
    ]);
    let before = accounts[&1];
    assert!(before.locked());
    for r in [
        row(Operations::Deposit, 1, 3, Some(5000)),
        row(Operations::Withdrawal, 1, 4, Some(5000)),
        row(Operations::Dispute, 1, 2, None),
        row(Operations::Resolve, 1, 2, None),
        row(Operations::Chargeback, 1, 2, None),
    ] {
        process_operation(r, &mut accounts, 1, &mut transactions).unwrap();
        assert_eq!(accounts[&1], before);
    }
    assert!(transactions.contains_key(&3) && transactions.contains_key(&4));
}

#[test]
fn resolve_undoes_dispute() {
    let (mut accounts, mut transactions) = apply(&[
        row(Operations::Deposit, 5, 1, Some(30000)),
        row(Operations::Withdrawal, 5, 2, Some(10000)),
    ]);
    let before = accounts.clone();
    process_operation(row(Operations::Dispute, 5, 2, None), &mut accounts, 1, &mut transactions).unwrap();
    assert_eq!(accounts[&5].available(), 10000);
    assert_eq!(accounts[&5].held(), 10000);
    assert!(transactions[&2].dispute);
    process_operation(row(Operations::Resolve, 5, 2, None), &mut accounts, 1, &mut transactions).unwrap();
    assert_eq!(accounts, before);
    assert!(!transactions[&2].dispute);
}

#[test]
fn chargeback_after_dispute() {
    let (accounts, transactions) = apply(&[
        row(Operations::Deposit, 1, 1, Some(30000)),
        row(Operations::Deposit, 1, 2, Some(10000)),
        row(Operations::Dispute, 1, 2, None),
        row(Operations::Chargeback, 1, 2, None),
    ]);
    assert_eq!(accounts[&1].available(), 30000);
    assert_eq!(accounts[&1].held(), 0);
    assert_eq!(accounts[&1].total(), 30000);
    assert!(accounts[&1].locked());
    assert!(!transactions[&2].dispute);
}

#[test]
fn withdrawal_needs_more_than_the_amount() {
    let (accounts, transactions) = apply(&[
        row(Operations::Deposit, 1, 1, Some(20000)),
        row(Operations::Withdrawal, 1, 2, Some(20000)),
    ]);
    assert_eq!(accounts[&1].available(), 20000);
    assert!(transactions.contains_key(&2));
    let (accounts, _) = apply(&[
        row(Operations::Deposit, 1, 1, Some(20000)),
        row(Operations::Withdrawal, 1, 2, Some(19999)),
    ]);
    assert_eq!(accounts[&1].available(), 1);
    assert_eq!(accounts[&1].total(), 1);
}

#[test]
fn withdrawal_opens_no_account() {
    let (accounts, transactions) = apply(&[row(Operations::Withdrawal, 9, 1, Some(100))]);
    assert!(accounts.is_empty());
    assert_eq!(transactions[&1].details.amount, Some(100));
}

#[test]
fn unfounded_claims_are_ignored() {
    let (mut accounts, mut transactions) = apply(&[row(Operations::Deposit, 1, 1, Some(20000))]);
    let before = accounts.clone();
    for r in [
        row(Operations::Dispute, 1, 99, None),
        row(Operations::Resolve, 1, 1, None),
        row(Operations::Chargeback, 1, 1, None),
        row(Operations::Resolve, 2, 1, None),
    ] {
        assert_eq!(process_operation(r, &mut accounts, 1, &mut transactions), Ok(()));
    }
    assert_eq!(accounts, before);
}

#[test]
fn divergent_client_rejected() {
    let (mut accounts, mut transactions) = apply(&[
        row(Operations::Deposit, 1, 1, Some(20000)),
        row(Operations::Deposit, 2, 2, Some(20000)),
        row(Operations::Dispute, 1, 1, None),
    ]);
    let r = process_operation(row(Operations::Chargeback, 2, 1, None), &mut accounts, 8, &mut transactions);
    assert_eq!(r, Err("Divergent Transaction and Client ID at line: 8".to_string()));
    assert_eq!(accounts[&1].held(), 20000);
}

#[test]
fn report_lists_each_account_once() {
    let (accounts, _) = apply(&[
        row(Operations::Deposit, 1, 1, Some(15000)),
        row(Operations::Deposit, 2, 2, Some(-5000)),
        row(Operations::Deposit, 3, 3, Some(20565)),
        row(Operations::Dispute, 3, 3, None),
    ]);
    let out = format_output(accounts);
    let mut lines: Vec<&str> = out.split('\n').collect();
    assert_eq!(lines[0], "client, available, held, total, locked");
    lines.remove(0);
    lines.sort();
    assert_eq!(lines, vec!["1,1.5,0,1.5,false", "2,-0.5,0,-0.5,false", "3,0,2.0565,2.0565,false"]);
}

#[test]
fn report_of_no_accounts() {
    assert_eq!(format_output(HashMap::new()), "client, available, held, total, locked");
}

#[test]
fn text_run_stops_at_first_failure() {
    let text = "type, client, tx, amount\n deposit, 1, 1, 1.0\n deposit, 1, 1, 1.0";
    assert_eq!(
        process_csv_text(text),
        Err(ProcessError::Rejected("Conflicting Transaction at line: 2".to_string()))
    );
    let text = "type, client, tx, amount\n deposit, 1, 1, 1.0\n deposit, 1\n deposit, 1, 3, 1.0";
    assert_eq!(
        process_csv_text(text),
        Err(ProcessError::Rejected("Invalid Tx at line: 2".to_string()))
    );
    let text = "type, client, tx, note, amount\n deposit, 1, 1, a, 1.0\n deposit, 1, 2";
    assert_eq!(process_csv_text(text), Err(ProcessError::UnreadableRow(2)));
}

#[test]
fn dispute_of_client_without_account_is_skipped() {
    let text = "type, client, tx, amount\n deposit, 1, 1, 1.0\n withdrawal, 3, 2, 1.0\n dispute, 3, 2,\n dispute, 1, 1";
    let accounts = process_csv_text(text).unwrap();
    assert_eq!(accounts.len(), 1);
    assert_eq!(accounts[&1].held(), 10000);
    assert_eq!(accounts[&1].available(), 0);
}

#[test]
fn claims_without_a_client() {
    let (mut accounts, mut transactions) = apply(&[
        row(Operations::Deposit, 1, 1, Some(20000)),
        row(Operations::Dispute, 1, 1, None),
    ]);
    let before = accounts.clone();
    let no_client = |op| Input::new(Some(op), None, Some(1), None);
    assert_eq!(
        process_dispute(no_client(Operations::Dispute), &mut accounts, &mut transactions, 5),
        Err("Divergent Transaction and Client ID at line: 5".to_string())
    );
    assert_eq!(
        process_resolve(no_client(Operations::Resolve), &mut accounts, &mut transactions, 6),
        Err("Divergent Transaction and Client ID at line: 6".to_string())
    );
    assert_eq!(
        process_chargeback(Input::new(Some(Operations::Chargeback), None, Some(9), None), &mut accounts, &mut transactions, 7),
        Ok(())
    );
    assert_eq!(accounts, before);
}

#[test]
fn text_run_returns_accounts() {
    let text = "type, client, tx, amount\n deposit, 1, 1, 1.0\n deposit, 2, 2, 2.0\n withdrawal, 1, 3, 0.25\n\n";
    let accounts = process_csv_text(text).unwrap();
    assert_eq!(accounts.len(), 2);
    assert_eq!(accounts[&1].available(), 7500);
    assert_eq!(accounts[&2].total(), 20000);
    let rows = deserialize_inputs(text).unwrap();
    assert_eq!(process_inputs(&rows), Ok(accounts));
}

