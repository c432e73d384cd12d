use crate::amount::{amount_of, parse_amount};
use vstd::prelude::*;
use vstd::string::StringSliceAdditionalSpecFns;

verus! {

/// Unique identifier for a client.
#[derive(Clone, Copy, Debug, PartialEq, Eq, Structural, Hash, PartialOrd, Ord)]
pub struct Client(pub u16);

impl Client {
    pub fn new(id: u16) -> (r: Client)
        ensures
            r.0 == id,
    {
        Client(id)
    }
}

/// Unique identifier for a transaction.
#[derive(Clone, Copy, Debug, PartialEq, Eq, Structural, Hash)]
pub struct Tx(pub u32);

impl Tx {
    pub fn new(id: u32) -> (r: Tx)
        ensures
            r.0 == id,
    {
        Tx(id)
    }
}

/// Description of the action a transaction would like to perform.
/// Amounts count 1/10_000's of a currency unit.
#[derive(Clone, Copy, Debug, PartialEq, Eq, Structural)]
pub enum Action {
    Deposit(u64),
    Withdrawal(u64),
    Dispute,
    Resolve,
    ChargeBack,
}

/// Why a raw row cannot become a transaction.
#[derive(Clone, Copy, Debug, PartialEq, Eq, Structural)]
pub enum RowError {
    /// The type is none of the five known kinds.
    UnrecognizedType,
    /// A deposit or withdrawal came without an amount.
    MissingAmount,
    /// A deposit or withdrawal came with an amount that is no unsigned
    /// decimal, or that does not fit in a `u64` once scaled.
    InvalidAmount,
}

/// Whether a transaction type, as written, is exactly `name` (case matters).
pub open spec fn type_is(t: &str, name: &str) -> bool {
    t@ == name@
}

/// The action that a row of the given type and amount stands for.
pub open spec fn action_of(t: &str, amount: Option<u64>) -> Result<Action, RowError> {
    if type_is(t, "deposit") {
        match amount {
            Some(a) => Ok(Action::Deposit(a)),
            None => Err(RowError::MissingAmount),
        }
    } else if type_is(t, "withdrawal") {
        match amount {
            Some(a) => Ok(Action::Withdrawal(a)),
            None => Err(RowError::MissingAmount),
        }
    } else if type_is(t, "dispute") {
        Ok(Action::Dispute)
    } else if type_is(t, "resolve") {
        Ok(Action::Resolve)
    } else if type_is(t, "chargeback") {
        Ok(Action::ChargeBack)
    } else {
        Err(RowError::UnrecognizedType)
    }
}

fn bytes_eq(a: &[u8], b: &[u8]) -> (r: bool)
    ensures
        r == (a@ == b@),
{
    if a.len() != b.len() {
        return false;
    }
    let mut i: usize = 0;
    while i < a.len()
        invariant
            a@.len() == b@.len(),
            i <= a@.len(),
            forall|j: int| 0 <= j < i ==> a@[j] == b@[j],
        decreases a@.len() - i,
    {
        if a[i] != b[i] {
            return false;
        }
        i = i + 1;
    }
    proof {
        assert(a@ =~= b@);
    }
    true
}

fn is_type(t: &str, name: &str) -> (r: bool)
    ensures
        r == type_is(t, name),
{
    let r = bytes_eq(t.as_bytes(), name.as_bytes());
    proof {
        vstd::utf8::encode_utf8_decode_utf8(t@);
        vstd::utf8::encode_utf8_decode_utf8(name@);
    }
    r
}

impl Action {
    /// Builds the action of a row from its type and its amount, already scaled
    /// to 1/10_000's. An amount given with a dispute, resolve or chargeback is
    /// ignored.
    pub fn from_type_and_amount(type_: &str, amount: Option<u64>) -> (r: Result<Action, RowError>)
        ensures
            r == action_of(type_, amount),
    {
        if is_type(type_, "deposit") {
            match amount {
                Some(a) => Ok(Action::Deposit(a)),
                None => Err(RowError::MissingAmount),
            }
        } else if is_type(type_, "withdrawal") {
            match amount {
                Some(a) => Ok(Action::Withdrawal(a)),
                None => Err(RowError::MissingAmount),
            }
        } else if is_type(type_, "dispute") {
            Ok(Action::Dispute)
        } else if is_type(type_, "resolve") {
            Ok(Action::Resolve)
        } else if is_type(type_, "chargeback") {
            Ok(Action::ChargeBack)
        } else {
            Err(RowError::UnrecognizedType)
        }
    }
}

/// A single client transaction.
#[derive(Clone, Copy, Debug, PartialEq, Eq, Structural)]
pub struct Transaction {
    pub client: Client,
    pub tx: Tx,
    pub detail: Action,
}

pub open spec fn needs_amount(t: &str) -> bool {
    type_is(t, "deposit") || type_is(t, "withdrawal")
}

/// The amount of a row in 1/10_000's: none where the field is absent, empty
/// or no decimal.
pub open spec fn scaled_amount(amount: Option<&str>) -> Option<u64> {
    match amount {
        Some(text) => amount_of(text.spec_bytes()),
        None => None,
    }
}

/// The transaction that a row stands for. An amount is read only where the
/// type needs one.
pub open spec fn transaction_of(type_: &str, client: Client, tx: Tx, amount: Option<&str>) -> Result<
    Transaction,
    RowError,
> {
    if needs_amount(type_) && amount is Some && amount->Some_0.spec_bytes().len() > 0
        && scaled_amount(amount) is None {
        Err(RowError::InvalidAmount)
    } else {
        match action_of(type_, scaled_amount(amount)) {
            Ok(a) => Ok(Transaction { client, tx, detail: a }),
            Err(e) => Err(e),
        }
    }
}

impl Transaction {
    /// Validates the fields of an input row into a transaction. The amount is
    /// its decimal text, if the row has one.
    pub fn from_row(type_: &str, client: Client, tx: Tx, amount: Option<&str>) -> (r: Result<
        Transaction,
        RowError,
    >)
        ensures
            r == transaction_of(type_, client, tx, amount),
    {
        let scaled = match amount {
            Some(text) => {
                let v = parse_amount(text);
                if v.is_none() && text.as_bytes().len() > 0 && (is_type(type_, "deposit") || is_type(
                    type_,
                    "withdrawal",
                )) {
                    return Err(RowError::InvalidAmount);
                }
                v
            },
            None => None,
        };
        match Action::from_type_and_amount(type_, scaled) {
            Ok(d) => Ok(Transaction { client, tx, detail: d }),
            Err(e) => Err(e),
        }
    }
}

} // verus!
