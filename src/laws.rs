use crate::state::{
    account_for, has_tx, lemma_held_sum_ge, lemma_held_sum_push,
    lemma_held_sum_update, ledger_step, ledger_wf, model_wf, step, tx_index, AccountModel,
    DepositDetail, LedgerError,
};
use crate::transaction::{Action, Client, Transaction, Tx};
use vstd::prelude::*;

verus! {

/// Every accepted transaction keeps an account well formed: in particular,
/// while the account is unlocked, `held` stays the sum of the amounts of the
/// deposits under dispute.
pub proof fn lemma_step_preserves_wf(a: AccountModel, t: Transaction)
    requires
        model_wf(a),
    ensures
        step(a, t) is Ok ==> model_wf(step(a, t)->Ok_0),
{
    if step(a, t) is Ok {
        let s = a.deposits;
        let m = step(a, t)->Ok_0;
        match t.detail {
            Action::Deposit(amount) => {
                let e = (t.tx, DepositDetail { amount, under_dispute: false });
                lemma_held_sum_push(s, e);
                assert(m.deposits == s.push(e));
                assert forall|i: int, j: int| 0 <= i < j < m.deposits.len() implies m.deposits[i].0
                    != m.deposits[j].0 by {
                    if j == s.len() {
                        assert(s[i].0 != t.tx);
                    }
                }
            },
            Action::Withdrawal(_) => {},
            Action::Dispute | Action::Resolve => {
                let i = tx_index(s, t.tx);
                let d = s[i].1;
                let e = (t.tx, DepositDetail { amount: d.amount, under_dispute: !d.under_dispute });
                lemma_held_sum_update(s, i, e);
                lemma_held_sum_ge(s, i);
                assert(m.deposits == s.update(i, e));
                assert forall|p: int, q: int| 0 <= p < q < m.deposits.len() implies m.deposits[p].0
                    != m.deposits[q].0 by {
                    assert(s[p].0 != s[q].0);
                }
            },
            Action::ChargeBack => {
                lemma_held_sum_ge(s, tx_index(s, t.tx));
            },
        }
    }
}

/// Every account of a well-formed ledger stays well formed.
pub proof fn lemma_ledger_step_preserves_wf(l: Map<u16, AccountModel>, t: Transaction)
    requires
        ledger_wf(l),
    ensures
        ledger_wf(ledger_step(l, t).0),
{
    let a = account_for(l, t.client);
    if !l.contains_key(t.client.0) {
        assert(a.deposits =~= Seq::<(Tx, DepositDetail)>::empty());
    }
    lemma_step_preserves_wf(a, t);
    let l2 = ledger_step(l, t).0;
    assert forall|c: u16| #[trigger] l2.contains_key(c) implies model_wf(l2[c]) && l2[c].client.0
        == c by {
        if c != t.client.0 {
            assert(l.contains_key(c));
        }
    }
}

/// How much an accepted transaction adds to `available`, as an integer.
pub open spec fn available_change(a: AccountModel, t: Transaction) -> int {
    match t.detail {
        Action::Deposit(x) => x as int,
        Action::Withdrawal(x) => -x,
        Action::Dispute => -a.deposits[tx_index(a.deposits, t.tx)].1.amount,
        Action::Resolve => a.deposits[tx_index(a.deposits, t.tx)].1.amount as int,
        Action::ChargeBack => 0,
    }
}

/// How much an accepted transaction adds to `held`, as an integer.
pub open spec fn held_change(a: AccountModel, t: Transaction) -> int {
    match t.detail {
        Action::Deposit(_) | Action::Withdrawal(_) => 0,
        Action::Dispute => a.deposits[tx_index(a.deposits, t.tx)].1.amount as int,
        Action::Resolve | Action::ChargeBack => -a.deposits[tx_index(a.deposits, t.tx)].1.amount,
    }
}

/// Balances never go negative: an accepted transaction changes `available`
/// and `held` by exactly its amount, with nothing clamped or wrapped, and a
/// withdrawal or dispute beyond the available funds is rejected.
pub proof fn lemma_balances_exact(a: AccountModel, t: Transaction)
    requires
        model_wf(a),
    ensures
        step(a, t) is Ok ==> {
            &&& step(a, t)->Ok_0.available == a.available + available_change(a, t)
            &&& step(a, t)->Ok_0.held == a.held + held_change(a, t)
        },
        t.client == a.client && !a.locked && t.detail is Withdrawal && !has_tx(a.deposits, t.tx)
            && t.detail->Withdrawal_0 > a.available ==> step(a, t) == Err::<
            AccountModel,
            LedgerError,
        >(LedgerError::InsufficientFunds),
{
    if step(a, t) is Ok {
        match t.detail {
            Action::Resolve | Action::ChargeBack => {
                lemma_held_sum_ge(a.deposits, tx_index(a.deposits, t.tx));
            },
            _ => {},
        }
    }
}

/// A resolve right after a deposit, with no dispute between, fails with
/// `NotDisputed` and changes nothing.
pub proof fn lemma_resolve_without_dispute(
    a: AccountModel,
    client: Client,
    tx: Tx,
    amount: u64,
)
    requires
        model_wf(a),
        step(a, Transaction { client, tx, detail: Action::Deposit(amount) }) is Ok,
    ensures
        step(
            step(a, Transaction { client, tx, detail: Action::Deposit(amount) })->Ok_0,
            Transaction { client, tx, detail: Action::Resolve },
        ) == Err::<AccountModel, LedgerError>(LedgerError::NotDisputed),
{
    let t = Transaction { client, tx, detail: Action::Deposit(amount) };
    let m = step(a, t)->Ok_0;
    lemma_step_preserves_wf(a, t);
    let n = a.deposits.len() as int;
    assert(m.deposits[n].0 == tx);
    let i = tx_index(m.deposits, tx);
    if i != n {
        assert(m.deposits[i].0 != m.deposits[n].0);
    }
}

/// A second deposit that reuses the id of an accepted deposit is rejected as
/// a duplicate, whatever its amount, and so leaves the balances unchanged.
pub proof fn lemma_duplicate_deposit_ignored(
    a: AccountModel,
    client: Client,
    tx: Tx,
    first: u64,
    second: u64,
)
    requires
        step(a, Transaction { client, tx, detail: Action::Deposit(first) }) is Ok,
    ensures
        step(
            step(a, Transaction { client, tx, detail: Action::Deposit(first) })->Ok_0,
            Transaction { client, tx, detail: Action::Deposit(second) },
        ) == Err::<AccountModel, LedgerError>(LedgerError::DuplicateTransaction),
{
    let m = step(a, Transaction { client, tx, detail: Action::Deposit(first) })->Ok_0;
    assert(m.deposits[a.deposits.len() as int].0 == tx);
}

/// Once an account is locked, every transaction for its client is rejected
/// and the ledger stays as it was.
pub proof fn lemma_locked_account_frozen(l: Map<u16, AccountModel>, t: Transaction)
    requires
        ledger_wf(l),
        l.contains_key(t.client.0),
        l[t.client.0].locked,
    ensures
        ledger_step(l, t).0 == l,
        ledger_step(l, t).1 == Err::<(), LedgerError>(LedgerError::AccountLocked),
{
    assert(l.insert(t.client.0, l[t.client.0]) =~= l);
}

/// Applying a rejected transaction a second time gives the same error again
/// and leaves the ledger as the first attempt left it.
pub proof fn lemma_rejection_idempotent(l: Map<u16, AccountModel>, t: Transaction)
    requires
        ledger_step(l, t).1 is Err,
    ensures
        ledger_step(ledger_step(l, t).0, t) == ledger_step(l, t),
{
    let l1 = ledger_step(l, t).0;
    let a = account_for(l, t.client);
    assert(account_for(l1, t.client) == a);
    assert(l1.insert(t.client.0, a) =~= l1);
}

} // verus!
