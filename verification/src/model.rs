//! The data the engine works on: operations, input rows, stored transactions,
//! account balances and the errors that reject a row.
use vstd::prelude::*;
use crate::text::{int_text, push_int, push_str, string_from_chars};

verus! {

/// Number of amount units in one unit of currency: amounts are kept exactly,
/// to four decimal places.
pub const UNITS_PER_CURRENCY: i64 = 10000;

/// The kind of operation a row asks for.
#[derive(Debug, PartialEq, Eq, Structural, Clone, Copy)]
pub enum Operations {
    Deposit,
    Withdrawal,
    Dispute,
    Resolve,
    Chargeback,
}

/// One input row. A field that was absent or could not be read is `None`;
/// the amount is counted in ten-thousandths of a currency unit.
#[derive(Debug, PartialEq, Eq, Structural, Clone, Copy)]
pub struct Input {
    pub op_type: Option<Operations>,
    pub client: Option<u16>,
    pub tx: Option<u32>,
    pub amount: Option<i64>,
}

impl Input {
    pub fn new(op_type: Option<Operations>, client: Option<u16>, tx: Option<u32>, amount: Option<i64>) -> (r: Input)
        ensures
            r.op_type == op_type,
            r.client == client,
            r.tx == tx,
            r.amount == amount,
    {
        Input { op_type, client, tx, amount }
    }
}

/// A deposit or withdrawal that was recorded, and whether it is under dispute.
#[derive(Debug, PartialEq, Eq, Structural, Clone, Copy)]
pub struct Transactions {
    pub details: Input,
    pub dispute: bool,
}

/// The balances of one client account, in ten-thousandths of a currency unit.
#[derive(Debug, PartialEq, Eq, Structural, Clone, Copy)]
pub struct AccountDetails {
    pub available: i128,
    pub held: i128,
    pub total: i128,
    pub locked: bool,
}

impl AccountDetails {
    pub fn available(&self) -> (r: i128)
        ensures r == self.available,
    {
        self.available
    }

    pub fn held(&self) -> (r: i128)
        ensures r == self.held,
    {
        self.held
    }

    pub fn total(&self) -> (r: i128)
        ensures r == self.total,
    {
        self.total
    }

    pub fn locked(&self) -> (r: bool)
        ensures r == self.locked,
    {
        self.locked
    }
}

/// Why a row was rejected, with the line it was read from.
#[derive(Debug, PartialEq, Eq, Structural, Clone, Copy)]
pub enum Errors {
    InvalidOperation(i32),
    InvalidClient(i32),
    InvalidTx(i32),
    InvalidAmount(i32),
    ConflictTransaction(i32),
    SecurityErrDivergentClientId(i32),
}

impl Errors {
    /// The line the rejected row was read from.
    pub open spec fn line(self) -> i32 {
        match self {
            Errors::InvalidOperation(l) => l,
            Errors::InvalidClient(l) => l,
            Errors::InvalidTx(l) => l,
            Errors::InvalidAmount(l) => l,
            Errors::ConflictTransaction(l) => l,
            Errors::SecurityErrDivergentClientId(l) => l,
        }
    }

    /// The text that opens the message of each kind of error.
    pub open spec fn prefix(self) -> Seq<char> {
        match self {
            Errors::InvalidOperation(_) => "Invalid Operation at line: "@,
            Errors::InvalidClient(_) => "Invalid Client at line: "@,
            Errors::InvalidTx(_) => "Invalid Tx at line: "@,
            Errors::InvalidAmount(_) => "Invalid Amount at line: "@,
            Errors::ConflictTransaction(_) => "Conflicting Transaction at line: "@,
            Errors::SecurityErrDivergentClientId(_) => "Divergent Transaction and Client ID at line: "@,
        }
    }

    /// The message of an error: its kind, then the line number in decimal.
    pub open spec fn spec_message(self) -> Seq<char> {
        self.prefix() + int_text(self.line() as int)
    }

    pub fn message(&self) -> (s: String)
        ensures
            s@ == self.spec_message(),
    {
        let mut v: Vec<char> = Vec::new();
        let line = match self {
            Errors::InvalidOperation(l) => {
                push_str(&mut v, "Invalid Operation at line: ");
                *l
            },
            Errors::InvalidClient(l) => {
                push_str(&mut v, "Invalid Client at line: ");
                *l
            },
            Errors::InvalidTx(l) => {
                push_str(&mut v, "Invalid Tx at line: ");
                *l
            },
            Errors::InvalidAmount(l) => {
                push_str(&mut v, "Invalid Amount at line: ");
                *l
            },
            Errors::ConflictTransaction(l) => {
                push_str(&mut v, "Conflicting Transaction at line: ");
                *l
            },
            Errors::SecurityErrDivergentClientId(l) => {
                push_str(&mut v, "Divergent Transaction and Client ID at line: ");
                *l
            },
        };
        push_int(&mut v, line as i128);
        string_from_chars(&v)
    }
}

} // verus!
