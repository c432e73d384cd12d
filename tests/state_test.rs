use atm::state::{Account, DepositDetail, LedgerError, State};
use atm::amount::parse_amount;
use atm::transaction::{Action, Client, RowError, Transaction, Tx};

fn read_line(line: &str) -> Result<Transaction, String> {
    let fields: Vec<&str> = line.split(',').map(|f| f.trim()).collect();
    if fields.len() != 4 {
        return Err(format!("expected 4 fields, found {}", fields.len()));
    }
    let client: u16 = fields[1].parse().map_err(|_| "bad client".to_string())?;
    let tx: u32 = fields[2].parse().map_err(|_| "bad tx".to_string())?;
    Transaction::from_row(fields[0], Client::new(client), Tx::new(tx), Some(fields[3]))
        .map_err(|e| format!("{:?}", e))
}

fn read_transactions(s: &str) -> Vec<Transaction> {
    s.lines()
        .filter(|l| !l.trim().is_empty())
        .map(|l| read_line(l).unwrap())
        .collect()
}

fn apply_transactions(account: &mut Account, transaction_data: &str) {
    for transaction in read_transactions(transaction_data) {
        account.handle_transaction(transaction).unwrap()
    }
}

fn amount_text(amount: u64) -> String {
    format!("{}", (amount as f64) / 10_000.0)
}

fn apply_transactions_to_empty_state(transaction_data: &str) -> Result<String, String> {
    let mut state = State::new();
    for transaction in read_transactions(transaction_data) {
        let _ = state.handle_transaction(transaction);
    }
    let mut out = String::from("client,available,held,total,locked\n");
    for row in state.summary() {
        out.push_str(&format!(
            "{},{},{},{},{}\n",
            row.client.0,
            amount_text(row.available),
            amount_text(row.held),
            amount_text(row.total),
            row.locked
        ));
    }
    Ok(out)
}

#[test]
fn simple_deposit() {
    let mut account = Account::new(Client::new(1));
    let data = "deposit,1,3,5";
    apply_transactions(&mut account, data);
    assert_eq!(account.held(), 0);
    assert_eq!(account.available(), 50_000);
    assert!(!account.locked());
    assert_eq!(account.transaction_count(), 1);
    assert_eq!(
        account.transaction(Tx::new(3)).unwrap(),
        DepositDetail {
            amount: 50_000,
            under_dispute: false
        }
    );
}

#[test]
fn simple_withrawal() {
    let mut account = Account::new(Client::new(1));
    let data = r#"deposit,1,3,5
        withdrawal,1,35,2"#;
    apply_transactions(&mut account, data);
    assert_eq!(account.available(), 30_000);
}

#[test]
fn simple_dispute() {
    let mut account = Account::new(Client::new(1));
    let data = r#"deposit,1,3,5
        dispute,1,3,"#;
    apply_transactions(&mut account, data);
    assert_eq!(account.held(), 50_000);
    assert_eq!(account.available(), 0);
    assert!(!account.locked());
    assert_eq!(
        account.transaction(Tx::new(3)).unwrap(),
        DepositDetail {
            amount: 50_000,
            under_dispute: true
        }
    );
}

#[test]
fn simple_resolve() {
    let mut account = Account::new(Client::new(1));
    let data = r#"deposit,1,3,5
        dispute,1,3,
        resolve,1,3,"#;
    apply_transactions(&mut account, data);
    assert_eq!(account.held(), 0);
    assert_eq!(account.available(), 50_000);
    assert!(!account.locked());
    assert_eq!(
        account.transaction(Tx::new(3)).unwrap(),
        DepositDetail {
            amount: 50_000,
            under_dispute: false
        }
    );
}

#[test]
fn simple_chargeback() {
    let mut account = Account::new(Client::new(1));
    let data = r#"deposit,1,3,5
        dispute,1,3,
        chargeback,1,3,"#;
    apply_transactions(&mut account, data);
    assert_eq!(account.held(), 0);
    assert_eq!(account.available(), 0);
    assert!(account.locked());
    assert_eq!(
        account.transaction(Tx::new(3)).unwrap(),
        DepositDetail {
            amount: 50_000,
            under_dispute: true
        }
    );
}

#[test]
fn problem_example_with_integers() {
    let data = r#"deposit, 1, 1, 1
            deposit, 2, 2, 2
            deposit, 1, 3, 2
            withdrawal, 1, 4, 1
            withdrawal, 2, 5, 3"#;
    assert_eq!(
        apply_transactions_to_empty_state(data),
        Ok(r#"client,available,held,total,locked
1,2,0,2,false
2,2,0,2,false
"#
        .to_string())
    );
}

#[test]
fn problem_example() {
    let data = r#"deposit, 1, 1, 1.0
            deposit, 2, 2, 2.0
            deposit, 1, 3, 2.0
            withdrawal, 1, 4, 1.5
            withdrawal, 2, 5, 3.0"#;
    assert_eq!(
        apply_transactions_to_empty_state(data),
        Ok(r#"client,available,held,total,locked
1,1.5,0,1.5,false
2,2,0,2,false
"#
        .to_string())
    );
}

#[test]
fn cant_withdraw_without_funds() {
    let data = r#"deposit, 1, 1, 1.0
            withdrawal, 1, 5, 3.0"#;
    assert_eq!(
        apply_transactions_to_empty_state(data),
        Ok(r#"client,available,held,total,locked
1,1,0,1,false
"#
        .to_string())
    );
}

#[test]
fn cant_chargeback_without_dispute() {
    let data = r#"deposit, 1, 1, 1.0
            chargeback, 1, 1, "#;
    assert_eq!(
        apply_transactions_to_empty_state(data),
        Ok(r#"client,available,held,total,locked
1,1,0,1,false
"#
        .to_string())
    );
}

#[test]
fn cant_resolve_without_dispute() {
    let data = r#"deposit, 1, 1, 1.0
            resolve, 1, 1, "#;
    assert_eq!(
        apply_transactions_to_empty_state(data),
        Ok(r#"client,available,held,total,locked
1,1,0,1,false
"#
        .to_string())
    );
}

#[test]
fn cant_dispute_missing_deposit() {
    let data = r#"deposit, 1, 122, 1.0
            dispute, 1, 123, "#;
    assert_eq!(
        apply_transactions_to_empty_state(data),
        Ok(r#"client,available,held,total,locked
1,1,0,1,false
"#
        .to_string())
    );
}

#[test]
fn cant_dispute_without_funds() {
    let data = r#"deposit, 1, 122, 5.0
            withdrawal, 1, 123, 0.55
            dispute, 1, 122, "#;
    assert_eq!(
        apply_transactions_to_empty_state(data),
        Ok(r#"client,available,held,total,locked
1,4.45,0,4.45,false
"#
        .to_string())
    );
}

#[test]
fn successfull_dispute_and_resolve() {
    let data = r#"deposit, 1, 122, 5.0
            dispute, 1, 122,
            resolve, 1, 122,
            withdrawal, 1, 123, .1234"#;
    assert_eq!(
        apply_transactions_to_empty_state(data),
        Ok(r#"client,available,held,total,locked
1,4.8766,0,4.8766,false
"#
        .to_string())
    );
}

#[test]
fn successfull_chargeback() {
    let data = r#"deposit, 1, 122, 5.0
            deposit, 1, 123, 10.0
            dispute, 1, 122,
            chargeback, 1, 122,
            withdrawal, 1, 123, .1234"#;
    assert_eq!(
        apply_transactions_to_empty_state(data),
        Ok(r#"client,available,held,total,locked
1,10,0,10,true
"#
        .to_string())
    );
}

#[test]
fn successfull_dispute() {
    let data = r#"deposit, 1, 122, 5.0
            deposit, 1, 123, 11.0
            dispute, 1, 123,"#;
    assert_eq!(
        apply_transactions_to_empty_state(data),
        Ok(r#"client,available,held,total,locked
1,5,11,16,false
"#
        .to_string())
    );
}

#[test]
fn cant_transact_after_chargeback() {
    let data = r#"deposit, 1, 122, 5.0
            deposit, 1, 123, 11.0
            dispute, 1, 123,
            chargeback, 1, 123,
            deposit, 1, 124, 35.0
            withdrawal, 1, 125, .1111"#;
    assert_eq!(
        apply_transactions_to_empty_state(data),
        Ok(r#"client,available,held,total,locked
1,5,0,5,true
"#
        .to_string())
    );
}

#[test]
fn duplicate_tx_ignored() {
    let data = r#"deposit, 1, 122, 5.0
            deposit, 1, 122, 11.0
            withdrawal, 1, 122, 1.0"#;
    assert_eq!(
        apply_transactions_to_empty_state(data),
        Ok(r#"client,available,held,total,locked
1,5,0,5,false
"#
        .to_string())
    );
}

#[test]
fn read_deposit() {
    let t = read_line("deposit,4,5,6").unwrap();
    assert_eq!(t.client, Client::new(4));
    assert_eq!(t.tx, Tx::new(5));
    assert_eq!(t.detail, Action::Deposit(6_0000));
}

#[test]
fn read_withdrawal() {
    let t = read_line("withdrawal,0,0,0").unwrap();
    assert_eq!(t.client, Client::new(0));
    assert_eq!(t.tx, Tx::new(0));
    assert_eq!(t.detail, Action::Withdrawal(0));
}

#[test]
fn read_dispute() {
    let t = read_line("dispute,0,0,").unwrap();
    assert_eq!(t.detail, Action::Dispute);
}

#[test]
fn no_amount_field_is_error() {
    assert!(read_line("dispute,0,0").is_err())
}

#[test]
fn read_resolve() {
    let t = read_line("resolve,0,0,").unwrap();
    assert_eq!(t.detail, Action::Resolve);
}

#[test]
fn read_charge_back() {
    let t = read_line("chargeback,0,0,").unwrap();
    assert_eq!(t.detail, Action::ChargeBack);
}

#[test]
fn unknown_type_is_rejected() {
    assert_eq!(
        Transaction::from_row("transfer", Client::new(1), Tx::new(1), Some("5")),
        Err(RowError::UnrecognizedType)
    );
    assert_eq!(
        Transaction::from_row("Deposit", Client::new(1), Tx::new(1), Some("5")),
        Err(RowError::UnrecognizedType)
    );
}

#[test]
fn missing_amount_is_rejected() {
    assert_eq!(
        Transaction::from_row("deposit", Client::new(1), Tx::new(1), None),
        Err(RowError::MissingAmount)
    );
    assert_eq!(
        Transaction::from_row("withdrawal", Client::new(1), Tx::new(1), None),
        Err(RowError::MissingAmount)
    );
}

#[test]
fn amount_on_dispute_is_ignored() {
    let t = Transaction::from_row("dispute", Client::new(2), Tx::new(7), Some("3")).unwrap();
    assert_eq!(t.detail, Action::Dispute);
    assert_eq!(t.client, Client::new(2));
    assert_eq!(t.tx, Tx::new(7));
}

fn tx(line: &str) -> Transaction {
    read_line(line).unwrap()
}

#[test]
fn resolve_without_dispute_changes_nothing() {
    let mut account = Account::new(Client::new(1));
    account.handle_transaction(tx("deposit,1,1,2.5")).unwrap();
    assert_eq!(
        account.handle_transaction(tx("resolve,1,1,")),
        Err(LedgerError::NotDisputed)
    );
    assert_eq!(account.available(), 25_000);
    assert_eq!(account.held(), 0);
    assert!(!account.transaction(Tx::new(1)).unwrap().under_dispute);
}

#[test]
fn duplicate_deposit_changes_nothing() {
    let mut account = Account::new(Client::new(1));
    account.handle_transaction(tx("deposit,1,9,1.0")).unwrap();
    assert_eq!(
        account.handle_transaction(tx("deposit,1,9,7.0")),
        Err(LedgerError::DuplicateTransaction)
    );
    assert_eq!(account.available(), 10_000);
    assert_eq!(account.transaction_count(), 1);
    assert_eq!(account.transaction(Tx::new(9)).unwrap().amount, 10_000);
}

#[test]
fn locked_account_rejects_everything() {
    let mut account = Account::new(Client::new(3));
    account.handle_transaction(tx("deposit,3,1,5.0")).unwrap();
    account.handle_transaction(tx("deposit,3,2,1.0")).unwrap();
    account.handle_transaction(tx("dispute,3,1,")).unwrap();
    account.handle_transaction(tx("chargeback,3,1,")).unwrap();
    assert!(account.locked());
    for line in [
        "deposit,3,4,1.0",
        "withdrawal,3,5,0.5",
        "dispute,3,2,",
        "resolve,3,1,",
        "chargeback,3,1,",
    ] {
        assert_eq!(
            account.handle_transaction(tx(line)),
            Err(LedgerError::AccountLocked)
        );
    }
    assert_eq!(account.available(), 10_000);
    assert_eq!(account.held(), 0);
    assert_eq!(account.transaction_count(), 2);
}

#[test]
fn repeated_rejection_gives_same_error() {
    let mut state = State::new();
    let t = tx("withdrawal,5,1,1.0");
    assert_eq!(state.handle_transaction(t), Err(LedgerError::InsufficientFunds));
    let first = state.summary();
    assert_eq!(state.handle_transaction(t), Err(LedgerError::InsufficientFunds));
    assert_eq!(state.summary(), first);
    assert_eq!(first.len(), 1);
    assert_eq!(first[0].available, 0);
}

#[test]
fn each_ledger_error_has_a_cause() {
    let mut account = Account::new(Client::new(1));
    assert_eq!(
        account.handle_transaction(tx("deposit,2,1,1.0")),
        Err(LedgerError::WrongClient)
    );
    assert_eq!(
        account.handle_transaction(tx("dispute,1,1,")),
        Err(LedgerError::TransactionNotFound)
    );
    account.handle_transaction(tx("deposit,1,1,1.0")).unwrap();
    assert_eq!(
        account.handle_transaction(tx("withdrawal,1,1,0.5")),
        Err(LedgerError::DuplicateTransaction)
    );
    account.handle_transaction(tx("dispute,1,1,")).unwrap();
    assert_eq!(
        account.handle_transaction(tx("dispute,1,1,")),
        Err(LedgerError::AlreadyDisputed)
    );
    account.handle_transaction(tx("deposit,1,2,0.5")).unwrap();
    account.handle_transaction(tx("withdrawal,1,3,0.5")).unwrap();
    account.handle_transaction(tx("resolve,1,1,")).unwrap();
    account.handle_transaction(tx("deposit,1,4,0.5")).unwrap();
    account.handle_transaction(tx("withdrawal,1,5,1.2")).unwrap();
    assert_eq!(
        account.handle_transaction(tx("dispute,1,2,")),
        Err(LedgerError::InsufficientFunds)
    );
    assert_eq!(account.available(), 3_000);
    assert_eq!(account.held(), 0);
}

#[test]
fn overflowing_deposit_is_rejected() {
    let mut account = Account::new(Client::new(1));
    let big = Transaction {
        client: Client::new(1),
        tx: Tx::new(1),
        detail: Action::Deposit(u64::MAX),
    };
    account.handle_transaction(big).unwrap();
    let more = Transaction::from_row("deposit", Client::new(1), Tx::new(2), Some("0.0001")).unwrap();
    assert_eq!(account.handle_transaction(more), Err(LedgerError::BalanceOverflow));
    assert_eq!(account.available(), u64::MAX);
    assert_eq!(account.transaction_count(), 1);
}

#[test]
fn summary_is_sorted_by_client() {
    let mut state = State::new();
    for line in ["deposit,9,1,1.0", "deposit,2,2,2.0", "dispute,65535,3,", "deposit,0,4,0.0001"] {
        let _ = state.handle_transaction(tx(line));
    }
    let rows = state.summary();
    let ids: Vec<u16> = rows.iter().map(|r| r.client.0).collect();
    assert_eq!(ids, vec![0, 2, 9, 65535]);
    assert_eq!(rows[0].total, 1);
    assert_eq!(rows[3].available, 0);
}

#[test]
fn empty_ledger_has_empty_summary() {
    assert!(State::new().summary().is_empty());
}

#[test]
fn dispute_moves_funds_to_held() {
    let mut state = State::new();
    for line in ["deposit,1,122,5.0", "deposit,1,123,11.0", "dispute,1,123,"] {
        state.handle_transaction(tx(line)).unwrap();
    }
    let rows = state.summary();
    assert_eq!(rows[0].available, 50_000);
    assert_eq!(rows[0].held, 110_000);
    assert_eq!(rows[0].total, 160_000);
}

#[test]
fn amounts_are_scaled_and_rounded() {
    assert_eq!(parse_amount("2.5"), Some(25_000));
    assert_eq!(parse_amount("6"), Some(60_000));
    assert_eq!(parse_amount(".1234"), Some(1_234));
    assert_eq!(parse_amount("3."), Some(30_000));
    assert_eq!(parse_amount("0"), Some(0));
    assert_eq!(parse_amount("1.00005"), Some(10_001));
    assert_eq!(parse_amount("1.00004999"), Some(10_000));
    assert_eq!(parse_amount("0.99995"), Some(10_000));
    assert_eq!(parse_amount("007.10"), Some(71_000));
    assert_eq!(parse_amount("1844674407370955.1615"), Some(u64::MAX));
}

#[test]
fn malformed_amounts_are_refused() {
    assert_eq!(parse_amount(""), None);
    assert_eq!(parse_amount("."), None);
    assert_eq!(parse_amount("abc"), None);
    assert_eq!(parse_amount("1.2.3"), None);
    assert_eq!(parse_amount("-1"), None);
    assert_eq!(parse_amount("1 0"), None);
    assert_eq!(parse_amount("1844674407370955.1616"), None);
    assert_eq!(parse_amount("99999999999999999999"), None);
}

#[test]
fn row_amount_errors() {
    assert_eq!(
        Transaction::from_row("deposit", Client::new(1), Tx::new(1), Some("x")),
        Err(RowError::InvalidAmount)
    );
    assert_eq!(
        Transaction::from_row("withdrawal", Client::new(1), Tx::new(1), Some("")),
        Err(RowError::MissingAmount)
    );
    assert_eq!(
        Transaction::from_row("resolve", Client::new(1), Tx::new(1), Some("x"))
            .unwrap()
            .detail,
        Action::Resolve
    );
    assert_eq!(
        Transaction::from_row("withdrawal", Client::new(8), Tx::new(2), Some("1.5")),
        Ok(Transaction {
            client: Client::new(8),
            tx: Tx::new(2),
            detail: Action::Withdrawal(15_000),
        })
    );
}

#[test]
fn scaled_action_from_type() {
    assert_eq!(Action::from_type_and_amount("deposit", Some(7)), Ok(Action::Deposit(7)));
    assert_eq!(Action::from_type_and_amount("chargeback", Some(7)), Ok(Action::ChargeBack));
    assert_eq!(Action::from_type_and_amount("withdrawal", None), Err(RowError::MissingAmount));
    assert_eq!(Action::from_type_and_amount("", None), Err(RowError::UnrecognizedType));
}
