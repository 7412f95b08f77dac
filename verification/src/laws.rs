//! Properties of the engine that hold across operations and across calls.
use vstd::prelude::*;
use crate::model::{Errors, Input, Operations};
use crate::csv_process::run_rows;
use crate::operations::{
    Accounts, Ledger, Step, accounts_consistent, balance_limit, chargeback_step, dispute_step,
    ledger_wf, operation_step, recorded_amount, resolve_step, state_wf,
};

verus! {

/// Every balance of every account has magnitude at most `b`.
pub open spec fn accounts_bounded(a: Accounts, b: int) -> bool {
    forall|c: u16|
        #![trigger a[c]]
        a.contains_key(c) ==> -b <= a[c].available <= b && -b <= a[c].held <= b && -b <= a[c].total
            <= b
}

/// One operation moves each balance by at most the largest magnitude of an
/// amount, and keeps the record of transactions usable by the next operation.
pub proof fn lemma_step_keeps_state(a: Accounts, t: Ledger, row: Input, line: i32, b: int)
    requires
        state_wf(a, t),
        accounts_bounded(a, b),
        b >= 0,
        operation_step(a, t, row, line) is Ok,
    ensures
        ({
            let (a2, t2) = operation_step(a, t, row, line)->Ok_0;
            &&& accounts_bounded(a2, b + 0x1_0000_0000_0000_0000)
            &&& ledger_wf(t2)
        }),
{
}

/// The total of every account stays its available plus its held funds: each
/// operation that changes one changes the other two to match.
pub proof fn lemma_step_keeps_totals(a: Accounts, t: Ledger, row: Input, line: i32)
    requires
        state_wf(a, t),
        accounts_consistent(a),
        operation_step(a, t, row, line) is Ok,
    ensures
        accounts_consistent(operation_step(a, t, row, line)->Ok_0.0),
{
}

/// A locked account is frozen: no operation changes it, and it stays locked.
pub proof fn lemma_locked_account_frozen(a: Accounts, t: Ledger, row: Input, line: i32, c: u16)
    requires
        a.contains_key(c),
        a[c].locked,
        operation_step(a, t, row, line) is Ok,
    ensures
        operation_step(a, t, row, line)->Ok_0.0.contains_key(c),
        operation_step(a, t, row, line)->Ok_0.0[c] == a[c],
{
}

/// Nothing is ever forgotten: accounts are never closed, and a recorded
/// transaction stays recorded with the same row.
pub proof fn lemma_records_persist(a: Accounts, t: Ledger, row: Input, line: i32)
    requires
        operation_step(a, t, row, line) is Ok,
    ensures
        ({
            let (a2, t2) = operation_step(a, t, row, line)->Ok_0;
            &&& a.dom().subset_of(a2.dom())
            &&& forall|tx: u32|
                #![trigger t2[tx]]
                t.contains_key(tx) ==> t2.contains_key(tx) && t2[tx].details == t[tx].details
        }),
{
}

/// A transaction id can be used once: a second deposit or withdrawal with it
/// is rejected as a conflicting transaction.
pub proof fn lemma_repeated_transaction_rejected(a: Accounts, t: Ledger, row: Input, line: i32)
    requires
        row.op_type == Some(Operations::Deposit) || row.op_type == Some(Operations::Withdrawal),
        row.client is Some,
        row.amount is Some,
        row.tx is Some,
        t.contains_key(row.tx.unwrap()),
    ensures
        operation_step(a, t, row, line) == Err::<(Accounts, Ledger), Errors>(
            Errors::ConflictTransaction(line),
        ),
{
}

/// The step of the dispute, resolve or chargeback handler for a row.
pub open spec fn claim_step(a: Accounts, t: Ledger, row: Input, line: i32) -> Step {
    match row.op_type {
        Some(Operations::Dispute) => dispute_step(a, t, row, line),
        Some(Operations::Resolve) => resolve_step(a, t, row, line),
        _ => chargeback_step(a, t, row, line),
    }
}

/// A dispute, resolve or chargeback handler given a transaction of another
/// client, or a row without a client, rejects it (a resolve or chargeback only
/// when the transaction is under dispute; otherwise it is ignored).
pub proof fn lemma_divergent_client_rejected(a: Accounts, t: Ledger, row: Input, line: i32)
    requires
        ledger_wf(t),
        row.op_type == Some(Operations::Dispute) || ((row.op_type == Some(Operations::Resolve)
            || row.op_type == Some(Operations::Chargeback)) && t[row.tx.unwrap()].dispute),
        row.tx is Some,
        t.contains_key(row.tx.unwrap()),
        row.client is None || t[row.tx.unwrap()].details.client != row.client,
    ensures
        claim_step(a, t, row, line) == Err::<(Accounts, Ledger), Errors>(
            Errors::SecurityErrDivergentClientId(line),
        ),
        row.client is Some ==> operation_step(a, t, row, line) == Err::<(Accounts, Ledger), Errors>(
            Errors::SecurityErrDivergentClientId(line),
        ),
{
}

/// A dispute of an unknown transaction, a resolve or chargeback of a
/// transaction that is unknown or not under dispute, and any of them for a
/// client without an account, change nothing, with or without a client id in
/// the row.
pub proof fn lemma_unfounded_claims_ignored(a: Accounts, t: Ledger, row: Input, line: i32)
    requires
        row.tx is Some,
        row.op_type == Some(Operations::Dispute) || row.op_type == Some(Operations::Resolve)
            || row.op_type == Some(Operations::Chargeback),
        !t.contains_key(row.tx.unwrap()) || (row.op_type != Some(Operations::Dispute)
            && !t[row.tx.unwrap()].dispute) || (t[row.tx.unwrap()].details.client == row.client
            && row.client is Some && !a.contains_key(row.client.unwrap())),
    ensures
        claim_step(a, t, row, line) == Ok::<(Accounts, Ledger), Errors>((a, t)),
        row.client is Some ==> operation_step(a, t, row, line) == Ok::<(Accounts, Ledger), Errors>(
            (a, t),
        ),
{
}

/// A dispute holds exactly the disputed amount: it moves from available to
/// held funds, and the total does not change.
pub proof fn lemma_dispute_holds_amount(a: Accounts, t: Ledger, row: Input, line: i32)
    requires
        state_wf(a, t),
        row.op_type == Some(Operations::Dispute),
        row.client is Some,
        row.tx is Some,
        t.contains_key(row.tx.unwrap()),
        t[row.tx.unwrap()].details.client == row.client,
        a.contains_key(row.client.unwrap()),
        !a[row.client.unwrap()].locked,
    ensures
        ({
            let c = row.client.unwrap();
            let amt = recorded_amount(t, row.tx.unwrap());
            let (a2, t2) = operation_step(a, t, row, line)->Ok_0;
            &&& operation_step(a, t, row, line) is Ok
            &&& a2[c].available == a[c].available - amt
            &&& a2[c].held == a[c].held + amt
            &&& a2[c].total == a[c].total
            &&& !a2[c].locked
            &&& t2[row.tx.unwrap()].dispute
        }),
{
}

/// A resolve undoes a dispute: after a dispute and a resolve of the same
/// transaction by the same client, every account is as it was before, and so
/// is the record of transactions when the transaction was not under dispute
/// before. Where the balances leave room for one more operation, the state
/// between the two is one the handlers accept.
pub proof fn lemma_resolve_undoes_dispute(
    a: Accounts,
    t: Ledger,
    dispute: Input,
    resolve: Input,
    line1: i32,
    line2: i32,
)
    requires
        state_wf(a, t),
        dispute.op_type == Some(Operations::Dispute),
        resolve.op_type == Some(Operations::Resolve),
        resolve.client == dispute.client,
        resolve.tx == dispute.tx,
        operation_step(a, t, dispute, line1) is Ok,
        ({
            let (a1, t1) = operation_step(a, t, dispute, line1)->Ok_0;
            operation_step(a1, t1, resolve, line2) is Ok
        }),
    ensures
        ({
            let (a1, t1) = operation_step(a, t, dispute, line1)->Ok_0;
            let (a2, t2) = operation_step(a1, t1, resolve, line2)->Ok_0;
            &&& a2 == a
            &&& (!t.contains_key(dispute.tx.unwrap()) || !t[dispute.tx.unwrap()].dispute) ==> t2
                == t
            &&& accounts_bounded(a, balance_limit() - 0x1_0000_0000_0000_0000) ==> state_wf(a1, t1)
        }),
{
    let (a1, t1) = operation_step(a, t, dispute, line1)->Ok_0;
    let (a2, t2) = operation_step(a1, t1, resolve, line2)->Ok_0;
    let c = dispute.client.unwrap();
    let tx = dispute.tx.unwrap();
    if t.contains_key(tx) && t[tx].details.client == dispute.client && a.contains_key(c)
        && !a[c].locked {
        assert(a2[c] == a[c]);
        assert(a2 =~= a);
        if !t[tx].dispute {
            assert(t2[tx] == t[tx]);
            assert(t2 =~= t);
        }
    }
    if accounts_bounded(a, balance_limit() - 0x1_0000_0000_0000_0000) {
        lemma_step_keeps_state(a, t, dispute, line1, balance_limit() - 0x1_0000_0000_0000_0000);
    }
}

/// A chargeback after a dispute takes the disputed amount out of the account
/// and locks it: available funds are down by the amount, held funds are back
/// where they were, and the total is down by the amount.
pub proof fn lemma_chargeback_after_dispute(
    a: Accounts,
    t: Ledger,
    dispute: Input,
    chargeback: Input,
    line1: i32,
    line2: i32,
)
    requires
        state_wf(a, t),
        dispute.op_type == Some(Operations::Dispute),
        chargeback.op_type == Some(Operations::Chargeback),
        dispute.client is Some,
        dispute.tx is Some,
        chargeback.client == dispute.client,
        chargeback.tx == dispute.tx,
        t.contains_key(dispute.tx.unwrap()),
        t[dispute.tx.unwrap()].details.client == dispute.client,
        a.contains_key(dispute.client.unwrap()),
        !a[dispute.client.unwrap()].locked,
    ensures
        ({
            let c = dispute.client.unwrap();
            let amt = recorded_amount(t, dispute.tx.unwrap());
            let (a1, t1) = operation_step(a, t, dispute, line1)->Ok_0;
            let (a2, t2) = operation_step(a1, t1, chargeback, line2)->Ok_0;
            &&& operation_step(a, t, dispute, line1) is Ok
            &&& operation_step(a1, t1, chargeback, line2) is Ok
            &&& a2[c].available == a[c].available - amt
            &&& a2[c].held == a[c].held
            &&& a2[c].total == a[c].total - amt
            &&& a2[c].locked
            &&& !t2[dispute.tx.unwrap()].dispute
        }),
{
}

/// A withdrawal never overdraws: an account it changes is left with positive
/// available funds.
pub proof fn lemma_withdrawal_never_overdraws(a: Accounts, t: Ledger, row: Input, line: i32, c: u16)
    requires
        state_wf(a, t),
        row.op_type == Some(Operations::Withdrawal),
        operation_step(a, t, row, line) is Ok,
        operation_step(a, t, row, line)->Ok_0.0.contains_key(c),
    ensures
        ({
            let a2 = operation_step(a, t, row, line)->Ok_0.0;
            (a.contains_key(c) && a2[c] == a[c]) || a2[c].available > 0
        }),
{
}

/// Along a run over rows, every account keeps its total equal to its
/// available plus its held funds.
pub proof fn lemma_run_keeps_totals(a: Accounts, t: Ledger, rows: Seq<Option<Input>>, i: nat, b: int)
    requires
        state_wf(a, t),
        accounts_consistent(a),
        accounts_bounded(a, b),
        b >= 0,
        i <= 0x7fff_ffff,
        b + (0x7fff_ffff - i) * 0x1_0000_0000_0000_0000 <= balance_limit(),
        run_rows(a, t, rows, i) is Finished,
    ensures
        accounts_consistent(run_rows(a, t, rows, i)->Finished_0),
    decreases rows.len() - i,
{
    if i < rows.len() && i < 0x7fff_ffff {
        let row = rows[i as int]->Some_0;
        let line = (i + 1) as i32;
        let (a2, t2) = operation_step(a, t, row, line)->Ok_0;
        lemma_step_keeps_state(a, t, row, line, b);
        lemma_step_keeps_totals(a, t, row, line);
        assert(accounts_bounded(a2, b + 0x1_0000_0000_0000_0000));
        assert((0x7fff_ffff - i) * 0x1_0000_0000_0000_0000 == (0x7fff_ffff - (i + 1))
            * 0x1_0000_0000_0000_0000 + 0x1_0000_0000_0000_0000);
        lemma_run_keeps_totals(a2, t2, rows, i + 1, b + 0x1_0000_0000_0000_0000);
    }
}

/// Every account that a completed run reports has a total equal to its
/// available plus its held funds.
pub proof fn lemma_reported_totals_consistent(rows: Seq<Option<Input>>)
    requires
        run_rows(Map::empty(), Map::empty(), rows, 0) is Finished,
    ensures
        accounts_consistent(run_rows(Map::empty(), Map::empty(), rows, 0)->Finished_0),
{
    lemma_run_keeps_totals(Map::empty(), Map::empty(), rows, 0, 0);
}

/// Every account other than `c` is exactly as it was.
pub open spec fn others_unchanged(a: Accounts, a2: Accounts, c: u16) -> bool {
    forall|k: u16|
        k != c ==> (#[trigger] a2.contains_key(k) == a.contains_key(k)) && (a.contains_key(k) ==> a2[k]
            == a[k])
}

/// Every transaction other than `tx` is exactly as it was.
pub open spec fn other_records_unchanged(t: Ledger, t2: Ledger, tx: u32) -> bool {
    forall|k: u32|
        k != tx ==> (#[trigger] t2.contains_key(k) == t.contains_key(k)) && (t.contains_key(k) ==> t2[k]
            == t[k])
}

/// A deposit with a new transaction id is accepted, whatever the line, and
/// recorded as not under dispute. It opens a missing account with the amount
/// as available funds and total and nothing held; it adds the amount to the
/// available funds and the total of an unlocked account, whatever that
/// account holds; a locked account is left as it is. No other account and no
/// other transaction changes.
pub proof fn lemma_deposit_credits(a: Accounts, t: Ledger, row: Input, line: i32)
    requires
        state_wf(a, t),
        row.op_type == Some(Operations::Deposit),
        row.client is Some,
        row.tx is Some,
        row.amount is Some,
        !t.contains_key(row.tx.unwrap()),
    ensures
        ({
            let c = row.client.unwrap();
            let x = row.tx.unwrap();
            let m = row.amount.unwrap() as int;
            let (a2, t2) = operation_step(a, t, row, line)->Ok_0;
            &&& operation_step(a, t, row, line) is Ok
            &&& t2.contains_key(x) && t2[x].details == row && !t2[x].dispute
            &&& other_records_unchanged(t, t2, x)
            &&& others_unchanged(a, a2, c)
            &&& a2.contains_key(c)
            &&& !a.contains_key(c) ==> a2[c].available == m && a2[c].held == 0 && a2[c].total == m
                && !a2[c].locked
            &&& a.contains_key(c) && !a[c].locked ==> a2[c].available == a[c].available + m
                && a2[c].held == a[c].held && a2[c].total == a[c].total + m && !a2[c].locked
            &&& a.contains_key(c) && a[c].locked ==> a2[c] == a[c]
        }),
{
}

/// A withdrawal with a new transaction id is accepted, whatever the line, and
/// recorded as not under dispute. It takes the amount from the available
/// funds and the total of an unlocked account exactly when its available
/// funds exceed the amount; otherwise no account changes, and no account is
/// opened. No other account and no other transaction changes.
pub proof fn lemma_withdrawal_debits(a: Accounts, t: Ledger, row: Input, line: i32)
    requires
        state_wf(a, t),
        row.op_type == Some(Operations::Withdrawal),
        row.client is Some,
        row.tx is Some,
        row.amount is Some,
        !t.contains_key(row.tx.unwrap()),
    ensures
        ({
            let c = row.client.unwrap();
            let x = row.tx.unwrap();
            let m = row.amount.unwrap() as int;
            let (a2, t2) = operation_step(a, t, row, line)->Ok_0;
            &&& operation_step(a, t, row, line) is Ok
            &&& t2.contains_key(x) && t2[x].details == row && !t2[x].dispute
            &&& other_records_unchanged(t, t2, x)
            &&& others_unchanged(a, a2, c)
            &&& a2.contains_key(c) == a.contains_key(c)
            &&& a.contains_key(c) && !a[c].locked && a[c].available > m ==> a2[c].available
                == a[c].available - m && a2[c].held == a[c].held && a2[c].total == a[c].total - m
                && !a2[c].locked
            &&& a.contains_key(c) && (a[c].locked || a[c].available <= m) ==> a2[c] == a[c]
        }),
{
}

/// A resolve of a transaction under dispute, by its client, on an existing
/// unlocked account, is accepted whatever the line: the recorded amount moves
/// from held back to available funds, the total stays, and the dispute ends.
/// No other account and no other transaction changes.
pub proof fn lemma_resolve_releases(a: Accounts, t: Ledger, row: Input, line: i32)
    requires
        state_wf(a, t),
        row.op_type == Some(Operations::Resolve),
        row.client is Some,
        row.tx is Some,
        t.contains_key(row.tx.unwrap()),
        t[row.tx.unwrap()].dispute,
        t[row.tx.unwrap()].details.client == row.client,
        a.contains_key(row.client.unwrap()),
        !a[row.client.unwrap()].locked,
    ensures
        ({
            let c = row.client.unwrap();
            let x = row.tx.unwrap();
            let m = t[x].details.amount.unwrap() as int;
            let (a2, t2) = operation_step(a, t, row, line)->Ok_0;
            &&& operation_step(a, t, row, line) is Ok
            &&& a2.contains_key(c)
            &&& a2[c].available == a[c].available + m
            &&& a2[c].held == a[c].held - m
            &&& a2[c].total == a[c].total
            &&& !a2[c].locked
            &&& t2.contains_key(x) && t2[x].details == t[x].details && !t2[x].dispute
            &&& others_unchanged(a, a2, c)
            &&& other_records_unchanged(t, t2, x)
        }),
{
}

/// A chargeback of a transaction under dispute, by its client, on an
/// existing unlocked account, is accepted whatever the line: the recorded
/// amount leaves the held funds and the total, the available funds stay, the
/// dispute ends and the account is locked. No other account and no other
/// transaction changes.
pub proof fn lemma_chargeback_reverses(a: Accounts, t: Ledger, row: Input, line: i32)
    requires
        state_wf(a, t),
        row.op_type == Some(Operations::Chargeback),
        row.client is Some,
        row.tx is Some,
        t.contains_key(row.tx.unwrap()),
        t[row.tx.unwrap()].dispute,
        t[row.tx.unwrap()].details.client == row.client,
        a.contains_key(row.client.unwrap()),
        !a[row.client.unwrap()].locked,
    ensures
        ({
            let c = row.client.unwrap();
            let x = row.tx.unwrap();
            let m = t[x].details.amount.unwrap() as int;
            let (a2, t2) = operation_step(a, t, row, line)->Ok_0;
            &&& operation_step(a, t, row, line) is Ok
            &&& a2.contains_key(c)
            &&& a2[c].available == a[c].available
            &&& a2[c].held == a[c].held - m
            &&& a2[c].total == a[c].total - m
            &&& a2[c].locked
            &&& t2.contains_key(x) && t2[x].details == t[x].details && !t2[x].dispute
            &&& others_unchanged(a, a2, c)
            &&& other_records_unchanged(t, t2, x)
        }),
{
}

/// The line number only names errors: a row is accepted or rejected alike at
/// any two lines, an accepted row leads to the same state, and a rejected
/// row to the same kind of error, each naming its own line.
pub proof fn lemma_line_only_names_errors(a: Accounts, t: Ledger, row: Input, l1: i32, l2: i32)
    ensures
        (operation_step(a, t, row, l1) is Ok) == (operation_step(a, t, row, l2) is Ok),
        operation_step(a, t, row, l1) is Ok ==> operation_step(a, t, row, l1)
            == operation_step(a, t, row, l2),
        operation_step(a, t, row, l1) is Err ==> {
            let e1 = operation_step(a, t, row, l1)->Err_0;
            let e2 = operation_step(a, t, row, l2)->Err_0;
            &&& e1.line() == l1
            &&& e2.line() == l2
            &&& e1.prefix() == e2.prefix()
        },
{
}

/// A dispute of a transaction of its client, on an existing unlocked
/// account, touches nothing but that account and that transaction.
pub proof fn lemma_dispute_touches_one_account(a: Accounts, t: Ledger, row: Input, line: i32)
    requires
        state_wf(a, t),
        row.op_type == Some(Operations::Dispute),
        row.client is Some,
        row.tx is Some,
        t.contains_key(row.tx.unwrap()),
        t[row.tx.unwrap()].details.client == row.client,
        a.contains_key(row.client.unwrap()),
        !a[row.client.unwrap()].locked,
    ensures
        ({
            let (a2, t2) = operation_step(a, t, row, line)->Ok_0;
            &&& others_unchanged(a, a2, row.client.unwrap())
            &&& other_records_unchanged(t, t2, row.tx.unwrap())
            &&& t2[row.tx.unwrap()].details == t[row.tx.unwrap()].details
        }),
{
}

/// A row lacking a field its operation needs is rejected, naming the first
/// missing field in the order operation, client, transaction id, amount (the
/// amount only for deposits and withdrawals), and the row's line.
pub proof fn lemma_missing_fields_rejected(a: Accounts, t: Ledger, row: Input, line: i32)
    ensures
        row.op_type is None ==> operation_step(a, t, row, line) == Err::<(Accounts, Ledger), Errors>(
            Errors::InvalidOperation(line),
        ),
        row.op_type is Some && row.client is None ==> operation_step(a, t, row, line) == Err::<
            (Accounts, Ledger),
            Errors,
        >(Errors::InvalidClient(line)),
        row.op_type is Some && row.client is Some && row.tx is None ==> operation_step(a, t, row, line)
            == Err::<(Accounts, Ledger), Errors>(Errors::InvalidTx(line)),
        (row.op_type == Some(Operations::Deposit) || row.op_type == Some(Operations::Withdrawal))
            && row.client is Some && row.tx is Some && row.amount is None ==> operation_step(
            a,
            t,
            row,
            line,
        ) == Err::<(Accounts, Ledger), Errors>(Errors::InvalidAmount(line)),
        (row.op_type == Some(Operations::Dispute) || row.op_type == Some(Operations::Resolve)
            || row.op_type == Some(Operations::Chargeback)) && row.client is Some && row.tx is Some
            ==> !(operation_step(a, t, row, line) matches Err(Errors::InvalidAmount(_))),
{
}

} // verus!
