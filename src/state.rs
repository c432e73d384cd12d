use crate::transaction::{Action, Client, Transaction, Tx};
use std::collections::HashMap;
use vstd::prelude::*;

verus! {

/// The information kept about a deposit in case it is disputed, resolved or
/// charged back.
#[derive(Clone, Copy, Debug, PartialEq, Eq, Structural)]
pub struct DepositDetail {
    pub amount: u64,
    pub under_dispute: bool,
}

/// Why a transaction was rejected. A rejected transaction changes nothing.
#[derive(Clone, Copy, Debug, PartialEq, Eq, Structural)]
pub enum LedgerError {
    /// The transaction belongs to another client.
    WrongClient,
    /// The account was charged back and is frozen.
    AccountLocked,
    /// A deposit or withdrawal reuses the id of a recorded deposit.
    DuplicateTransaction,
    /// The amount exceeds the available funds.
    InsufficientFunds,
    /// No deposit has the referenced id.
    TransactionNotFound,
    /// The deposit is already under dispute.
    AlreadyDisputed,
    /// The deposit is not under dispute.
    NotDisputed,
    /// The deposit would take the account's total past what a `u64` holds.
    BalanceOverflow,
}

/// What an account holds, as plain values.
pub struct AccountModel {
    pub client: Client,
    pub available: u64,
    pub held: u64,
    pub locked: bool,
    pub deposits: Seq<(Tx, DepositDetail)>,
}

pub open spec fn disputed_amount(d: DepositDetail) -> int {
    if d.under_dispute {
        d.amount as int
    } else {
        0
    }
}

/// The sum of the amounts of the deposits under dispute.
pub open spec fn held_sum(s: Seq<(Tx, DepositDetail)>) -> int
    decreases s.len(),
{
    if s.len() == 0 {
        0
    } else {
        held_sum(s.drop_last()) + disputed_amount(s.last().1)
    }
}

pub open spec fn has_tx(s: Seq<(Tx, DepositDetail)>, tx: Tx) -> bool {
    exists|i: int| 0 <= i < s.len() && s[i].0 == tx
}

pub open spec fn tx_index(s: Seq<(Tx, DepositDetail)>, tx: Tx) -> int {
    choose|i: int| 0 <= i < s.len() && s[i].0 == tx
}

pub open spec fn unique_txs(s: Seq<(Tx, DepositDetail)>) -> bool {
    forall|i: int, j: int| 0 <= i < j < s.len() ==> s[i].0 != s[j].0
}

pub open spec fn new_model(client: Client) -> AccountModel {
    AccountModel { client, available: 0, held: 0, locked: false, deposits: Seq::empty() }
}

/// The well-formedness of an account: deposit ids are unique, the total fits
/// in a `u64`, and while unlocked `held` is the sum of the disputed deposits.
pub open spec fn model_wf(a: AccountModel) -> bool {
    &&& unique_txs(a.deposits)
    &&& a.available + a.held <= u64::MAX
    &&& !a.locked ==> a.held == held_sum(a.deposits)
}

/// The effect of one transaction on an account: its new state, or the reason
/// it is rejected.
pub open spec fn step(a: AccountModel, t: Transaction) -> Result<AccountModel, LedgerError> {
    if t.client != a.client {
        Err(LedgerError::WrongClient)
    } else if a.locked {
        Err(LedgerError::AccountLocked)
    } else {
        match t.detail {
            Action::Deposit(amount) => if has_tx(a.deposits, t.tx) {
                Err(LedgerError::DuplicateTransaction)
            } else if a.available + a.held + amount > u64::MAX {
                Err(LedgerError::BalanceOverflow)
            } else {
                Ok(
                    AccountModel {
                        available: (a.available + amount) as u64,
                        deposits: a.deposits.push(
                            (t.tx, DepositDetail { amount, under_dispute: false }),
                        ),
                        ..a
                    },
                )
            },
            Action::Withdrawal(amount) => if has_tx(a.deposits, t.tx) {
                Err(LedgerError::DuplicateTransaction)
            } else if amount > a.available {
                Err(LedgerError::InsufficientFunds)
            } else {
                Ok(AccountModel { available: (a.available - amount) as u64, ..a })
            },
            Action::Dispute => if !has_tx(a.deposits, t.tx) {
                Err(LedgerError::TransactionNotFound)
            } else {
                let i = tx_index(a.deposits, t.tx);
                let d = a.deposits[i].1;
                if d.under_dispute {
                    Err(LedgerError::AlreadyDisputed)
                } else if d.amount > a.available {
                    Err(LedgerError::InsufficientFunds)
                } else {
                    Ok(
                        AccountModel {
                            available: (a.available - d.amount) as u64,
                            held: (a.held + d.amount) as u64,
                            deposits: a.deposits.update(
                                i,
                                (t.tx, DepositDetail { amount: d.amount, under_dispute: true }),
                            ),
                            ..a
                        },
                    )
                }
            },
            Action::Resolve => if !has_tx(a.deposits, t.tx) {
                Err(LedgerError::TransactionNotFound)
            } else {
                let i = tx_index(a.deposits, t.tx);
                let d = a.deposits[i].1;
                if !d.under_dispute {
                    Err(LedgerError::NotDisputed)
                } else {
                    Ok(
                        AccountModel {
                            available: (a.available + d.amount) as u64,
                            held: (a.held - d.amount) as u64,
                            deposits: a.deposits.update(
                                i,
                                (t.tx, DepositDetail { amount: d.amount, under_dispute: false }),
                            ),
                            ..a
                        },
                    )
                }
            },
            Action::ChargeBack => if !has_tx(a.deposits, t.tx) {
                Err(LedgerError::TransactionNotFound)
            } else {
                let d = a.deposits[tx_index(a.deposits, t.tx)].1;
                if !d.under_dispute {
                    Err(LedgerError::NotDisputed)
                } else {
                    Ok(AccountModel { held: (a.held - d.amount) as u64, locked: true, ..a })
                }
            },
        }
    }
}

pub proof fn lemma_held_sum_nonneg(s: Seq<(Tx, DepositDetail)>)
    ensures
        held_sum(s) >= 0,
    decreases s.len(),
{
    if s.len() > 0 {
        lemma_held_sum_nonneg(s.drop_last());
    }
}

pub proof fn lemma_held_sum_push(s: Seq<(Tx, DepositDetail)>, e: (Tx, DepositDetail))
    ensures
        held_sum(s.push(e)) == held_sum(s) + disputed_amount(e.1),
{
    assert(s.push(e).drop_last() =~= s);
}

pub proof fn lemma_held_sum_update(s: Seq<(Tx, DepositDetail)>, i: int, e: (Tx, DepositDetail))
    requires
        0 <= i < s.len(),
    ensures
        held_sum(s.update(i, e)) == held_sum(s) - disputed_amount(s[i].1) + disputed_amount(e.1),
    decreases s.len(),
{
    if i == s.len() - 1 {
        assert(s.update(i, e).drop_last() =~= s.drop_last());
    } else {
        lemma_held_sum_update(s.drop_last(), i, e);
        assert(s.update(i, e).drop_last() =~= s.drop_last().update(i, e));
    }
}

pub proof fn lemma_held_sum_ge(s: Seq<(Tx, DepositDetail)>, i: int)
    requires
        0 <= i < s.len(),
    ensures
        held_sum(s) >= disputed_amount(s[i].1),
{
    lemma_held_sum_nonneg(s);
    lemma_held_sum_update(s, i, (s[i].0, DepositDetail { amount: 0, under_dispute: false }));
    lemma_held_sum_nonneg(s.update(i, (s[i].0, DepositDetail { amount: 0, under_dispute: false })));
}

/// The state of a single client account.
pub struct Account {
    client: Client,
    held: u64,
    available: u64,
    locked: bool,
    transactions: Vec<(Tx, DepositDetail)>,
}

impl View for Account {
    type V = AccountModel;

    closed spec fn view(&self) -> AccountModel {
        AccountModel {
            client: self.client,
            available: self.available,
            held: self.held,
            locked: self.locked,
            deposits: self.transactions@,
        }
    }
}

impl Account {
    pub open spec fn wf(&self) -> bool {
        model_wf(self@)
    }

    /// Creates a new empty account.
    pub fn new(client: Client) -> (r: Account)
        ensures
            r@ == new_model(client),
            r.wf(),
    {
        let r = Account { client, held: 0, available: 0, locked: false, transactions: Vec::new() };
        proof {
            assert(r@.deposits =~= Seq::<(Tx, DepositDetail)>::empty());
        }
        r
    }

    pub fn client(&self) -> (r: Client)
        ensures
            r == self@.client,
    {
        self.client
    }

    pub fn available(&self) -> (r: u64)
        ensures
            r == self@.available,
    {
        self.available
    }

    pub fn held(&self) -> (r: u64)
        ensures
            r == self@.held,
    {
        self.held
    }

    pub fn locked(&self) -> (r: bool)
        ensures
            r == self@.locked,
    {
        self.locked
    }

    /// The number of recorded deposits.
    pub fn transaction_count(&self) -> (r: usize)
        ensures
            r == self@.deposits.len(),
    {
        self.transactions.len()
    }

    /// The recorded deposit with the given id, if any.
    pub fn transaction(&self, tx: Tx) -> (r: Option<DepositDetail>)
        requires
            self.wf(),
        ensures
            match r {
                Some(d) => has_tx(self@.deposits, tx) && d == self@.deposits[tx_index(
                    self@.deposits,
                    tx,
                )].1,
                None => !has_tx(self@.deposits, tx),
            },
    {
        match self.find(tx) {
            Some(i) => Some(self.transactions[i].1),
            None => None,
        }
    }

    /// The position of the deposit with the given id; with unique ids it is
    /// the one that `tx_index` picks.
    fn find(&self, tx: Tx) -> (r: Option<usize>)
        requires
            self.wf(),
        ensures
            match r {
                Some(i) => has_tx(self@.deposits, tx) && i == tx_index(self@.deposits, tx),
                None => !has_tx(self@.deposits, tx),
            },
    {
        let mut i: usize = 0;
        while i < self.transactions.len()
            invariant
                self.wf(),
                i <= self.transactions@.len(),
                forall|j: int| 0 <= j < i ==> self.transactions@[j].0 != tx,
            decreases self.transactions@.len() - i,
        {
            if self.transactions[i].0 == tx {
                proof {
                    let s = self@.deposits;
                    assert(s[i as int].0 == tx);
                    let k = tx_index(s, tx);
                    assert(0 <= k < s.len() && s[k].0 == tx);
                    if k != i as int {
                        if k < i {
                            assert(s[k].0 != s[i as int].0);
                        } else {
                            assert(s[i as int].0 != s[k].0);
                        }
                    }
                }
                return Some(i);
            }
            i = i + 1;
        }
        None
    }

    /// Applies a transaction addressed to this account, which is not locked.
    fn handle_valid_transaction(&mut self, transaction: Transaction) -> (r: Result<(), LedgerError>)
        requires
            old(self).wf(),
            !old(self)@.locked,
            transaction.client == old(self)@.client,
        ensures
            final(self).wf(),
            match step(old(self)@, transaction) {
                Ok(m) => r == Ok::<(), LedgerError>(()) && final(self)@ == m,
                Err(e) => r == Err::<(), LedgerError>(e) && final(self)@ == old(self)@,
            },
    {
        let tx = transaction.tx;
        let ghost s = self@.deposits;
        match transaction.detail {
            Action::Deposit(amount) => {
                if self.find(tx).is_some() {
                    return Err(LedgerError::DuplicateTransaction);
                }
                if amount > u64::MAX - self.available - self.held {
                    return Err(LedgerError::BalanceOverflow);
                }
                self.available = self.available + amount;
                let e = (tx, DepositDetail { amount, under_dispute: false });
                self.transactions.push(e);
                proof {
                    lemma_held_sum_push(s, e);
                    assert(self@.deposits =~= s.push(e));
                }
                Ok(())
            },
            Action::Withdrawal(amount) => {
                if self.find(tx).is_some() {
                    return Err(LedgerError::DuplicateTransaction);
                }
                if amount > self.available {
                    return Err(LedgerError::InsufficientFunds);
                }
                self.available = self.available - amount;
                Ok(())
            },
            Action::Dispute => {
                let i = match self.find(tx) {
                    Some(i) => i,
                    None => return Err(LedgerError::TransactionNotFound),
                };
                let d = self.transactions[i].1;
                if d.under_dispute {
                    return Err(LedgerError::AlreadyDisputed);
                }
                if d.amount > self.available {
                    return Err(LedgerError::InsufficientFunds);
                }
                let e = (tx, DepositDetail { amount: d.amount, under_dispute: true });
                proof {
                    lemma_held_sum_update(s, i as int, e);
                }
                self.transactions.set(i, e);
                self.available = self.available - d.amount;
                self.held = self.held + d.amount;
                proof {
                    assert(self@.deposits =~= s.update(i as int, e));
                }
                Ok(())
            },
            Action::Resolve => {
                let i = match self.find(tx) {
                    Some(i) => i,
                    None => return Err(LedgerError::TransactionNotFound),
                };
                let d = self.transactions[i].1;
                if !d.under_dispute {
                    return Err(LedgerError::NotDisputed);
                }
                let e = (tx, DepositDetail { amount: d.amount, under_dispute: false });
                proof {
                    lemma_held_sum_ge(s, i as int);
                    lemma_held_sum_update(s, i as int, e);
                }
                self.transactions.set(i, e);
                self.held = self.held - d.amount;
                self.available = self.available + d.amount;
                proof {
                    assert(self@.deposits =~= s.update(i as int, e));
                }
                Ok(())
            },
            Action::ChargeBack => {
                let i = match self.find(tx) {
                    Some(i) => i,
                    None => return Err(LedgerError::TransactionNotFound),
                };
                let d = self.transactions[i].1;
                if !d.under_dispute {
                    return Err(LedgerError::NotDisputed);
                }
                proof {
                    lemma_held_sum_ge(s, i as int);
                }
                self.held = self.held - d.amount;
                self.locked = true;
                Ok(())
            },
        }
    }

    /// Applies the effects of the given transaction: exactly `step` on the
    /// account's model; a rejected transaction leaves the account as it was.
    pub fn handle_transaction(&mut self, transaction: Transaction) -> (r: Result<(), LedgerError>)
        requires
            old(self).wf(),
        ensures
            final(self).wf(),
            match step(old(self)@, transaction) {
                Ok(m) => r == Ok::<(), LedgerError>(()) && final(self)@ == m,
                Err(e) => r == Err::<(), LedgerError>(e) && final(self)@ == old(self)@,
            },
    {
        if self.client != transaction.client {
            return Err(LedgerError::WrongClient);
        }
        if self.locked {
            return Err(LedgerError::AccountLocked);
        }
        self.handle_valid_transaction(transaction)
    }
}


/// One line of the final summary of an account.
#[derive(Clone, Copy, Debug, PartialEq, Eq, Structural)]
pub struct AccountSummary {
    pub client: Client,
    pub available: u64,
    pub held: u64,
    pub total: u64,
    pub locked: bool,
}

pub open spec fn summary_of(a: AccountModel) -> AccountSummary {
    AccountSummary {
        client: a.client,
        available: a.available,
        held: a.held,
        total: (a.available + a.held) as u64,
        locked: a.locked,
    }
}

/// The account a transaction goes to: the client's own, or a fresh one.
pub open spec fn account_for(l: Map<u16, AccountModel>, c: Client) -> AccountModel {
    if l.contains_key(c.0) {
        l[c.0]
    } else {
        new_model(c)
    }
}

/// The effect of one transaction on the ledger. The client's account is
/// created on its first transaction, even where that transaction is rejected.
pub open spec fn ledger_step(l: Map<u16, AccountModel>, t: Transaction) -> (
    Map<u16, AccountModel>,
    Result<(), LedgerError>,
) {
    let a = account_for(l, t.client);
    match step(a, t) {
        Ok(m) => (l.insert(t.client.0, m), Ok(())),
        Err(e) => (l.insert(t.client.0, a), Err(e)),
    }
}

pub open spec fn ledger_wf(l: Map<u16, AccountModel>) -> bool {
    forall|c: u16| #[trigger] l.contains_key(c) ==> model_wf(l[c]) && l[c].client.0 == c
}

/// State of all known accounts.
pub struct State {
    accounts: HashMap<u16, Account>,
}

impl View for State {
    type V = Map<u16, AccountModel>;

    closed spec fn view(&self) -> Map<u16, AccountModel> {
        self.accounts@.map_values(|a: Account| a@)
    }
}

impl State {
    pub open spec fn wf(&self) -> bool {
        ledger_wf(self@)
    }

    /// Creates an empty `State`.
    pub fn new() -> (r: State)
        ensures
            r@ == Map::<u16, AccountModel>::empty(),
            r.wf(),
    {
        let r = State { accounts: HashMap::new() };
        proof {
            assert(r@ =~= Map::<u16, AccountModel>::empty());
        }
        r
    }

    /// Routes a transaction to its client's account, created if new.
    pub fn handle_transaction(&mut self, transaction: Transaction) -> (r: Result<(), LedgerError>)
        requires
            old(self).wf(),
        ensures
            final(self).wf(),
            (final(self)@, r) == ledger_step(old(self)@, transaction),
    {
        broadcast use vstd::std_specs::hash::group_hash_axioms;

        let c = transaction.client.0;
        let ghost before = self.accounts@;
        let mut account = match self.accounts.remove(&c) {
            Some(a) => a,
            None => Account::new(transaction.client),
        };
        assert(account@ == account_for(old(self)@, transaction.client));
        let r = account.handle_transaction(transaction);
        let ghost am = account@;
        self.accounts.insert(c, account);
        proof {
            assert(self.accounts@ == before.insert(c, account));
            let l = old(self)@;
            assert(self@ =~= l.insert(c, am));
            match step(account_for(l, transaction.client), transaction) {
                Ok(m) => {
                    assert(am == m);
                    assert(r == Ok::<(), LedgerError>(()));
                },
                Err(e) => {
                    assert(am == account_for(l, transaction.client));
                    assert(r == Err::<(), LedgerError>(e));
                },
            }
            assert forall|k: u16| #[trigger] self@.contains_key(k) implies model_wf(self@[k])
                && self@[k].client.0 == k by {
                if k != c {
                    assert(l.contains_key(k));
                }
            }
        }
        r
    }

    /// The summary of every known account, in ascending order of client id.
    pub fn summary(&self) -> (r: Vec<AccountSummary>)
        requires
            self.wf(),
        ensures
            forall|j: int|
                0 <= j < r@.len() ==> self@.contains_key(#[trigger] r@[j].client.0) && r@[j]
                    == summary_of(self@[r@[j].client.0]),
            forall|j: int, k: int| 0 <= j < k < r@.len() ==> r@[j].client.0 < r@[k].client.0,
            forall|c: u16|
                #[trigger] self@.contains_key(c) ==> exists|j: int|
                    0 <= j < r@.len() && r@[j].client.0 == c,
    {
        broadcast use vstd::std_specs::hash::group_hash_axioms;

        let mut r: Vec<AccountSummary> = Vec::new();
        let mut c: u32 = 0;
        while c <= 0xFFFF
            invariant
                self.wf(),
                c <= 0x10000,
                forall|j: int|
                    0 <= j < r@.len() ==> self@.contains_key(#[trigger] r@[j].client.0)
                        && r@[j] == summary_of(self@[r@[j].client.0]) && r@[j].client.0 < c,
                forall|j: int, k: int| 0 <= j < k < r@.len() ==> r@[j].client.0 < r@[k].client.0,
                forall|k: u16|
                    #[trigger] self@.contains_key(k) && k < c ==> exists|j: int|
                        0 <= j < r@.len() && r@[j].client.0 == k,
            decreases 0x10000 - c,
        {
            let id = c as u16;
            match self.accounts.get(&id) {
                Some(a) => {
                    assert(self@.contains_key(id));
                    assert(self@[id] == a@);
                    let ghost old_r = r@;
                    let row = AccountSummary {
                        client: a.client,
                        available: a.available,
                        held: a.held,
                        total: a.available + a.held,
                        locked: a.locked,
                    };
                    assert(self@.contains_key(id));
                    r.push(row);
                    proof {
                        assert(r@[r@.len() - 1].client.0 == id);
                        assert forall|k: u16|
                            #[trigger] self@.contains_key(k) && k < c + 1 implies exists|j: int|
                            0 <= j < r@.len() && r@[j].client.0 == k by {
                            if k == id {
                                assert(r@[r@.len() - 1].client.0 == k);
                            } else {
                                assert(self@.contains_key(k) && k < c);
                                let j = choose|j: int|
                                    0 <= j < old_r.len() && old_r[j].client.0 == k;
                                assert(r@[j] == old_r[j]);
                            }
                        }
                    }
                },
                None => {
                    assert(!self@.contains_key(id));
                },
            }
            c = c + 1;
        }
        r
    }
}

} // verus!
