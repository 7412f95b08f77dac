//! The operation handlers: what each kind of row does to the accounts and to
//! the record of transactions, stated over maps and proved of the code.
use std::collections::HashMap;
use vstd::prelude::*;
use crate::model::{AccountDetails, Errors, Input, Operations, Transactions};

verus! {

broadcast use vstd::std_specs::hash::group_hash_axioms;

/// The abstract state of the engine: the accounts by client, and the recorded
/// deposits and withdrawals by transaction id.
pub type Accounts = Map<u16, AccountDetails>;
pub type Ledger = Map<u32, Transactions>;

/// What an operation leads to: the next state, or the error that rejects it.
pub type Step = Result<(Accounts, Ledger), Errors>;

/// The largest magnitude of a balance for which one more operation cannot
/// leave the range of `i128`.
pub open spec fn balance_limit() -> int {
    0x4000_0000_0000_0000_0000_0000_0000_0000
}

pub open spec fn balance_in_range(x: i128) -> bool {
    -balance_limit() <= x <= balance_limit()
}

/// Every balance of every account lies within `balance_limit()`.
pub open spec fn accounts_in_range(a: Accounts) -> bool {
    forall|c: u16|
        #![trigger a[c]]
        a.contains_key(c) ==> balance_in_range(a[c].available) && balance_in_range(a[c].held)
            && balance_in_range(a[c].total)
}

/// What the handlers rely on in the record of transactions: each recorded row
/// has a client and an amount.
pub open spec fn ledger_wf(t: Ledger) -> bool {
    forall|tx: u32|
        #![trigger t[tx]]
        t.contains_key(tx) ==> t[tx].details.client is Some && t[tx].details.amount is Some
}

/// The state the handlers accept.
pub open spec fn state_wf(a: Accounts, t: Ledger) -> bool {
    accounts_in_range(a) && ledger_wf(t)
}

/// The total of an account is its available funds plus its held funds.
pub open spec fn account_consistent(d: AccountDetails) -> bool {
    d.total == d.available + d.held
}

pub open spec fn accounts_consistent(a: Accounts) -> bool {
    forall|c: u16| #![trigger a[c]] a.contains_key(c) ==> account_consistent(a[c])
}

/// A new deposit or withdrawal as it is recorded.
pub open spec fn recorded(row: Input) -> Transactions {
    Transactions { details: row, dispute: false }
}

/// A deposit: a transaction id seen before is rejected; otherwise the row is
/// recorded, a new account is opened with the amount, and an unlocked account
/// gains the amount in its available funds and total.
pub open spec fn deposit_step(a: Accounts, t: Ledger, row: Input, line: i32) -> Step {
    let tx = row.tx.unwrap();
    let c = row.client.unwrap();
    let amt = row.amount.unwrap() as int;
    if t.contains_key(tx) {
        Err(Errors::ConflictTransaction(line))
    } else {
        let t2 = t.insert(tx, recorded(row));
        if !a.contains_key(c) {
            Ok(
                (
                    a.insert(
                        c,
                        AccountDetails {
                            available: amt as i128,
                            held: 0,
                            total: amt as i128,
                            locked: false,
                        },
                    ),
                    t2,
                ),
            )
        } else if a[c].locked {
            Ok((a, t2))
        } else {
            Ok(
                (
                    a.insert(
                        c,
                        AccountDetails {
                            available: (a[c].available + amt) as i128,
                            total: (a[c].total + amt) as i128,
                            ..a[c]
                        },
                    ),
                    t2,
                ),
            )
        }
    }
}

/// A withdrawal: a transaction id seen before is rejected; otherwise the row is
/// recorded, and an unlocked account whose available funds exceed the amount
/// loses it from its available funds and total. No account is opened.
pub open spec fn withdrawal_step(a: Accounts, t: Ledger, row: Input, line: i32) -> Step {
    let tx = row.tx.unwrap();
    let c = row.client.unwrap();
    let amt = row.amount.unwrap() as int;
    if t.contains_key(tx) {
        Err(Errors::ConflictTransaction(line))
    } else {
        let t2 = t.insert(tx, recorded(row));
        if a.contains_key(c) && !a[c].locked && a[c].available > amt {
            Ok(
                (
                    a.insert(
                        c,
                        AccountDetails {
                            available: (a[c].available - amt) as i128,
                            total: (a[c].total - amt) as i128,
                            ..a[c]
                        },
                    ),
                    t2,
                ),
            )
        } else {
            Ok((a, t2))
        }
    }
}

/// The amount of a recorded transaction.
pub open spec fn recorded_amount(t: Ledger, tx: u32) -> int {
    t[tx].details.amount.unwrap() as int
}

/// A dispute: an unknown transaction is ignored; one of another client is
/// rejected; otherwise, unless the account is missing or locked, the
/// transaction is marked disputed and its amount moves from available to held
/// funds. (A withdrawal of a client without an account is recorded without
/// opening one, so a dispute of it has no account to hold funds in, and is
/// skipped.)
pub open spec fn dispute_step(a: Accounts, t: Ledger, row: Input, line: i32) -> Step {
    let tx = row.tx.unwrap();
    let c = row.client.unwrap();
    if !t.contains_key(tx) {
        Ok((a, t))
    } else if t[tx].details.client != row.client {
        Err(Errors::SecurityErrDivergentClientId(line))
    } else if !a.contains_key(c) || a[c].locked {
        Ok((a, t))
    } else {
        let amt = recorded_amount(t, tx);
        Ok(
            (
                a.insert(
                    c,
                    AccountDetails {
                        available: (a[c].available - amt) as i128,
                        held: (a[c].held + amt) as i128,
                        ..a[c]
                    },
                ),
                t.insert(tx, Transactions { dispute: true, ..t[tx] }),
            ),
        )
    }
}

/// A resolve: a transaction that is unknown or not under dispute is ignored;
/// one of another client is rejected; otherwise, unless the account is missing
/// or locked, the dispute ends and the amount moves back from held to available
/// funds.
pub open spec fn resolve_step(a: Accounts, t: Ledger, row: Input, line: i32) -> Step {
    let tx = row.tx.unwrap();
    let c = row.client.unwrap();
    if !t.contains_key(tx) || !t[tx].dispute {
        Ok((a, t))
    } else if t[tx].details.client != row.client {
        Err(Errors::SecurityErrDivergentClientId(line))
    } else if !a.contains_key(c) || a[c].locked {
        Ok((a, t))
    } else {
        let amt = recorded_amount(t, tx);
        Ok(
            (
                a.insert(
                    c,
                    AccountDetails {
                        available: (a[c].available + amt) as i128,
                        held: (a[c].held - amt) as i128,
                        ..a[c]
                    },
                ),
                t.insert(tx, Transactions { dispute: false, ..t[tx] }),
            ),
        )
    }
}

/// A chargeback: a transaction that is unknown or not under dispute is
/// ignored; one of another client is rejected; otherwise, unless the account is
/// missing or locked, the dispute ends, the amount leaves the held funds and the
/// total, and the account is locked.
pub open spec fn chargeback_step(a: Accounts, t: Ledger, row: Input, line: i32) -> Step {
    let tx = row.tx.unwrap();
    let c = row.client.unwrap();
    if !t.contains_key(tx) || !t[tx].dispute {
        Ok((a, t))
    } else if t[tx].details.client != row.client {
        Err(Errors::SecurityErrDivergentClientId(line))
    } else if !a.contains_key(c) || a[c].locked {
        Ok((a, t))
    } else {
        let amt = recorded_amount(t, tx);
        Ok(
            (
                a.insert(
                    c,
                    AccountDetails {
                        held: (a[c].held - amt) as i128,
                        total: (a[c].total - amt) as i128,
                        locked: true,
                        ..a[c]
                    },
                ),
                t.insert(tx, Transactions { dispute: false, ..t[tx] }),
            ),
        )
    }
}

/// Any row: a missing or unreadable operation, client or transaction id is
/// rejected, in that order, and so is a deposit or withdrawal without an
/// amount; the rest goes to the step of the operation.
pub open spec fn operation_step(a: Accounts, t: Ledger, row: Input, line: i32) -> Step {
    match row.op_type {
        None => Err(Errors::InvalidOperation(line)),
        Some(op) => if row.client is None {
            Err(Errors::InvalidClient(line))
        } else if row.tx is None {
            Err(Errors::InvalidTx(line))
        } else {
            match op {
                Operations::Deposit => if row.amount is None {
                    Err(Errors::InvalidAmount(line))
                } else {
                    deposit_step(a, t, row, line)
                },
                Operations::Withdrawal => if row.amount is None {
                    Err(Errors::InvalidAmount(line))
                } else {
                    withdrawal_step(a, t, row, line)
                },
                Operations::Dispute => dispute_step(a, t, row, line),
                Operations::Resolve => resolve_step(a, t, row, line),
                Operations::Chargeback => chargeback_step(a, t, row, line),
            }
        },
    }
}

/// The handler's result and the maps after it agree with a step: on success
/// the maps are the next state; on an error the message is the error's and the
/// maps are unchanged.
pub open spec fn follows_step(
    step: Step,
    r: Result<(), String>,
    a0: Accounts,
    t0: Ledger,
    a1: Accounts,
    t1: Ledger,
) -> bool {
    match step {
        Ok((a2, t2)) => r is Ok && a1 == a2 && t1 == t2,
        Err(e) => r matches Err(s) && s@ == e.spec_message() && a1 == a0 && t1 == t0,
    }
}

/// Processes a deposit row.
pub fn process_deposit(
    row: Input,
    accounts: &mut HashMap<u16, AccountDetails>,
    transactions: &mut HashMap<u32, Transactions>,
    line: i32,
) -> (r: Result<(), String>)
    requires
        state_wf(old(accounts)@, old(transactions)@),
        row.client is Some,
        row.tx is Some,
        row.amount is Some,
    ensures
        follows_step(
            deposit_step(old(accounts)@, old(transactions)@, row, line),
            r,
            old(accounts)@,
            old(transactions)@,
            final(accounts)@,
            final(transactions)@,
        ),
{
    let amount: i128 = row.amount.unwrap() as i128;
    let client = row.client.unwrap();
    let tx = row.tx.unwrap();
    if transactions.contains_key(&tx) {
        return Err(Errors::ConflictTransaction(line).message());
    }
    transactions.insert(tx, Transactions { details: row, dispute: false });
    match accounts.get(&client) {
        None => {
            accounts.insert(
                client,
                AccountDetails { available: amount, held: 0, total: amount, locked: false },
            );
        },
        Some(d) => {
            let d: AccountDetails = *d;
            if !d.locked {
                assert(balance_in_range(d.available) && balance_in_range(d.total));
                accounts.insert(
                    client,
                    AccountDetails {
                        available: d.available + amount,
                        total: d.total + amount,
                        ..d
                    },
                );
            }
        },
    }
    Ok(())
}

/// Processes a withdrawal row.
pub fn process_withdrawal(
    row: Input,
    accounts: &mut HashMap<u16, AccountDetails>,
    transactions: &mut HashMap<u32, Transactions>,
    line: i32,
) -> (r: Result<(), String>)
    requires
        state_wf(old(accounts)@, old(transactions)@),
        row.client is Some,
        row.tx is Some,
        row.amount is Some,
    ensures
        follows_step(
            withdrawal_step(old(accounts)@, old(transactions)@, row, line),
            r,
            old(accounts)@,
            old(transactions)@,
            final(accounts)@,
            final(transactions)@,
        ),
{
    let amount: i128 = row.amount.unwrap() as i128;
    let client = row.client.unwrap();
    let tx = row.tx.unwrap();
    if transactions.contains_key(&tx) {
        return Err(Errors::ConflictTransaction(line).message());
    }
    transactions.insert(tx, Transactions { details: row, dispute: false });
    match accounts.get(&client) {
        None => {},
        Some(d) => {
            let d: AccountDetails = *d;
            if !d.locked && d.available > amount {
                assert(balance_in_range(d.available) && balance_in_range(d.total));
                accounts.insert(
                    client,
                    AccountDetails {
                        available: d.available - amount,
                        total: d.total - amount,
                        ..d
                    },
                );
            }
        },
    }
    Ok(())
}

/// Whether the client ids of a recorded row and a new row agree.
fn same_client(a: Option<u16>, b: Option<u16>) -> (r: bool)
    ensures
        r == (a == b),
{
    match (a, b) {
        (Some(x), Some(y)) => x == y,
        (None, None) => true,
        _ => false,
    }
}

/// Processes a dispute row.
pub fn process_dispute(
    row: Input,
    accounts: &mut HashMap<u16, AccountDetails>,
    transactions: &mut HashMap<u32, Transactions>,
    line: i32,
) -> (r: Result<(), String>)
    requires
        state_wf(old(accounts)@, old(transactions)@),
        row.tx is Some,
    ensures
        follows_step(
            dispute_step(old(accounts)@, old(transactions)@, row, line),
            r,
            old(accounts)@,
            old(transactions)@,
            final(accounts)@,
            final(transactions)@,
        ),
{
    let tx = row.tx.unwrap();
    match transactions.get(&tx) {
        None => Ok(()),
        Some(e) => {
            let e: Transactions = *e;
            if same_client(e.details.client, row.client) {
                let client = row.client.unwrap();
                let d: AccountDetails = match accounts.get(&client) {
                    Some(d) => *d,
                    None => return Ok(()),
                };
                if !d.locked {
                    let amount: i128 = e.details.amount.unwrap() as i128;
                    transactions.insert(tx, Transactions { dispute: true, ..e });
                    accounts.insert(
                        client,
                        AccountDetails {
                            available: d.available - amount,
                            held: d.held + amount,
                            ..d
                        },
                    );
                }
                Ok(())
            } else {
                Err(Errors::SecurityErrDivergentClientId(line).message())
            }
        },
    }
}

/// Processes a resolve row.
pub fn process_resolve(
    row: Input,
    accounts: &mut HashMap<u16, AccountDetails>,
    transactions: &mut HashMap<u32, Transactions>,
    line: i32,
) -> (r: Result<(), String>)
    requires
        state_wf(old(accounts)@, old(transactions)@),
        row.tx is Some,
    ensures
        follows_step(
            resolve_step(old(accounts)@, old(transactions)@, row, line),
            r,
            old(accounts)@,
            old(transactions)@,
            final(accounts)@,
            final(transactions)@,
        ),
{
    let tx = row.tx.unwrap();
    match transactions.get(&tx) {
        None => Ok(()),
        Some(e) => {
            let e: Transactions = *e;
            if !e.dispute {
                Ok(())
            } else if same_client(e.details.client, row.client) {
                let client = row.client.unwrap();
                let d: AccountDetails = match accounts.get(&client) {
                    Some(d) => *d,
                    None => return Ok(()),
                };
                if !d.locked {
                    let amount: i128 = e.details.amount.unwrap() as i128;
                    transactions.insert(tx, Transactions { dispute: false, ..e });
                    accounts.insert(
                        client,
                        AccountDetails {
                            available: d.available + amount,
                            held: d.held - amount,
                            ..d
                        },
                    );
                }
                Ok(())
            } else {
                Err(Errors::SecurityErrDivergentClientId(line).message())
            }
        },
    }
}

/// Processes a chargeback row.
pub fn process_chargeback(
    row: Input,
    accounts: &mut HashMap<u16, AccountDetails>,
    transactions: &mut HashMap<u32, Transactions>,
    line: i32,
) -> (r: Result<(), String>)
    requires
        state_wf(old(accounts)@, old(transactions)@),
        row.tx is Some,
    ensures
        follows_step(
            chargeback_step(old(accounts)@, old(transactions)@, row, line),
            r,
            old(accounts)@,
            old(transactions)@,
            final(accounts)@,
            final(transactions)@,
        ),
{
    let tx = row.tx.unwrap();
    match transactions.get(&tx) {
        None => Ok(()),
        Some(e) => {
            let e: Transactions = *e;
            if !e.dispute {
                Ok(())
            } else if same_client(e.details.client, row.client) {
                let client = row.client.unwrap();
                let d: AccountDetails = match accounts.get(&client) {
                    Some(d) => *d,
                    None => return Ok(()),
                };
                if !d.locked {
                    let amount: i128 = e.details.amount.unwrap() as i128;
                    transactions.insert(tx, Transactions { dispute: false, ..e });
                    accounts.insert(
                        client,
                        AccountDetails {
                            held: d.held - amount,
                            total: d.total - amount,
                            locked: true,
                            ..d
                        },
                    );
                }
                Ok(())
            } else {
                Err(Errors::SecurityErrDivergentClientId(line).message())
            }
        },
    }
}

/// Processes one row: checks that its fields are present, then hands it to the
/// handler of its operation.
pub fn process_operation(
    row: Input,
    accounts: &mut HashMap<u16, AccountDetails>,
    line: i32,
    transactions: &mut HashMap<u32, Transactions>,
) -> (r: Result<(), String>)
    requires
        state_wf(old(accounts)@, old(transactions)@),
    ensures
        follows_step(
            operation_step(old(accounts)@, old(transactions)@, row, line),
            r,
            old(accounts)@,
            old(transactions)@,
            final(accounts)@,
            final(transactions)@,
        ),
{
    let op_type = match row.op_type {
        Some(op) => op,
        None => return Err(Errors::InvalidOperation(line).message()),
    };
    if row.client.is_none() {
        return Err(Errors::InvalidClient(line).message());
    }
    if row.tx.is_none() {
        return Err(Errors::InvalidTx(line).message());
    }
    match op_type {
        Operations::Deposit => {
            if row.amount.is_none() {
                return Err(Errors::InvalidAmount(line).message());
            }
            process_deposit(row, accounts, transactions, line)
        },
        Operations::Withdrawal => {
            if row.amount.is_none() {
                return Err(Errors::InvalidAmount(line).message());
            }
            process_withdrawal(row, accounts, transactions, line)
        },
        Operations::Dispute => process_dispute(row, accounts, transactions, line),
        Operations::Resolve => process_resolve(row, accounts, transactions, line),
        Operations::Chargeback => process_chargeback(row, accounts, transactions, line),
    }
}

} // verus!
