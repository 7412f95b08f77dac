//! Reading a CSV text of operations and applying its rows in order.
use std::collections::HashMap;
use vstd::prelude::*;
use crate::decode::{decode_all, decode_records};
use crate::laws::{accounts_bounded, lemma_step_keeps_state};
use crate::model::{AccountDetails, Errors, Input, Transactions};
use crate::operations::{Accounts, Ledger, operation_step, process_operation, state_wf};

verus! {

broadcast use vstd::std_specs::hash::group_hash_axioms;

/// The records that the `csv` crate reads from a text, each field trimmed of
/// surrounding whitespace, records of any length accepted; `None` where the
/// reader reports an error.
pub uninterp spec fn csv_records(text: Seq<char>) -> Option<Seq<Seq<Seq<char>>>>;

/// Splits a text into CSV records with the `csv` crate (`ReaderBuilder` with
/// no header row, `flexible(true)` and `Trim::All`, then `records()`). The
/// contract claims only that the records, or the failure, are those that
/// `csv_records` names for the text: the CSV grammar itself is the crate's.
#[verifier::external_body]
fn read_csv_records(text: &str) -> (r: Option<Vec<Vec<Vec<char>>>>)
    ensures
        match r {
            Some(v) => csv_records(text@) == Some(v.deep_view()),
            None => csv_records(text@) is None,
        },
{
    let mut rdr = csv::ReaderBuilder::new().has_headers(false).flexible(true).trim(
        csv::Trim::All,
    ).from_reader(text.as_bytes());
    let mut out: Vec<Vec<Vec<char>>> = Vec::new();
    for rec in rdr.records() {
        match rec {
            Ok(r) => out.push(r.iter().map(|f| f.chars().collect()).collect()),
            Err(_) => return None,
        }
    }
    Some(out)
}

/// Reads the rows of a CSV text whose first record is the header
/// `type, client, tx, amount` (in any order). `None` where the text is not
/// CSV; a row that cannot be read is `None` in its place.
pub fn deserialize_inputs(text: &str) -> (r: Option<Vec<Option<Input>>>)
    ensures
        match csv_records(text@) {
            Some(recs) => r matches Some(rows) && rows@ == decode_all(recs),
            None => r is None,
        },
{
    match read_csv_records(text) {
        Some(recs) => Some(decode_records(&recs)),
        None => None,
    }
}

/// Why processing the rows of a text stopped.
#[derive(Debug, PartialEq, Eq)]
pub enum ProcessError {
    /// The text is not CSV.
    Csv,
    /// The run reached a row beyond the last line number an `i32` holds.
    TooManyRows,
    /// The row at this line could not be read.
    UnreadableRow(i32),
    /// The row was rejected, with this message.
    Rejected(String),
}

/// How a run over rows ends, in terms of the abstract state.
pub enum RunOutcome {
    Finished(Accounts),
    TooManyRows,
    UnreadableRow(i32),
    Rejected(Errors),
}

/// Applies the rows from the `i`-th on, the row at index `i` being line `i + 1`:
/// the run stops at the first row that cannot be read or is rejected, or at a
/// row whose line number would not fit in an `i32`.
pub open spec fn run_rows(a: Accounts, t: Ledger, rows: Seq<Option<Input>>, i: nat) -> RunOutcome
    decreases rows.len() - i,
{
    if i >= rows.len() {
        RunOutcome::Finished(a)
    } else if i >= i32::MAX {
        RunOutcome::TooManyRows
    } else {
        match rows[i as int] {
            None => RunOutcome::UnreadableRow((i + 1) as i32),
            Some(row) => match operation_step(a, t, row, (i + 1) as i32) {
                Err(e) => RunOutcome::Rejected(e),
                Ok((a2, t2)) => run_rows(a2, t2, rows, i + 1),
            },
        }
    }
}

/// The result of a run agrees with its outcome.
pub open spec fn ends_as(o: RunOutcome, r: Result<HashMap<u16, AccountDetails>, ProcessError>) -> bool {
    match o {
        RunOutcome::Finished(a) => r matches Ok(m) && m@ == a,
        RunOutcome::TooManyRows => r matches Err(ProcessError::TooManyRows),
        RunOutcome::UnreadableRow(l) => r matches Err(ProcessError::UnreadableRow(l2)) && l2 == l,
        RunOutcome::Rejected(e) => r matches Err(ProcessError::Rejected(s)) && s@
            == e.spec_message(),
    }
}

/// Applies the rows in order to empty accounts, line numbers counting from 1,
/// and returns the accounts, or why the run stopped.
pub fn process_inputs(rows: &Vec<Option<Input>>) -> (r: Result<HashMap<u16, AccountDetails>, ProcessError>)
    ensures
        ends_as(run_rows(Map::empty(), Map::empty(), rows@, 0), r),
{
    let mut accounts: HashMap<u16, AccountDetails> = HashMap::new();
    let mut transactions: HashMap<u32, Transactions> = HashMap::new();
    let ghost start = run_rows(Map::empty(), Map::empty(), rows@, 0);
    let mut i: usize = 0;
    while i < rows.len()
        invariant
            i <= rows.len(),
            i <= i32::MAX,
            run_rows(accounts@, transactions@, rows@, i as nat) == start,
            start == run_rows(Map::empty(), Map::empty(), rows@, 0),
            state_wf(accounts@, transactions@),
            accounts_bounded(accounts@, i * 0x1_0000_0000_0000_0000),
        decreases rows.len() - i,
    {
        if i >= 2147483647 {
            return Err(ProcessError::TooManyRows);
        }
        let line: i32 = (i + 1) as i32;
        match rows[i] {
            None => return Err(ProcessError::UnreadableRow(line)),
            Some(row) => {
                let ghost a0 = accounts@;
                let ghost t0 = transactions@;
                match process_operation(row, &mut accounts, line, &mut transactions) {
                    Ok(()) => {
                        proof {
                            lemma_step_keeps_state(a0, t0, row, line, i * 0x1_0000_0000_0000_0000);
                            assert((i + 1) * 0x1_0000_0000_0000_0000 == i * 0x1_0000_0000_0000_0000
                                + 0x1_0000_0000_0000_0000);
                        }
                    },
                    Err(s) => return Err(ProcessError::Rejected(s)),
                }
            },
        }
        i += 1;
    }
    Ok(accounts)
}

/// Reads the rows of a CSV text and applies them in order to empty accounts.
pub fn process_csv_text(text: &str) -> (r: Result<HashMap<u16, AccountDetails>, ProcessError>)
    ensures
        match csv_records(text@) {
            None => r == Err::<HashMap<u16, AccountDetails>, ProcessError>(ProcessError::Csv),
            Some(recs) => ends_as(run_rows(Map::empty(), Map::empty(), decode_all(recs), 0), r),
        },
{
    match deserialize_inputs(text) {
        None => Err(ProcessError::Csv),
        Some(rows) => process_inputs(&rows),
    }
}

} // verus!
