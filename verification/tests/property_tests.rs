use tx_maybe::client::{Client, LedgerError, Transactions};
use tx_maybe::client::write_csv;
use tx_maybe::csv_parser::{parse_amount, InputError, Record};
use tx_maybe::{process_transactions, route};

fn assert_balanced(c: &Client) {
    assert_eq!(c.total(), c.available() + c.held());
}

#[test]
fn invariant_total_is_available_plus_held() {
    let mut c = Client::new(1);
    assert_balanced(&c);
    let steps = vec![
        Transactions::Deposit(1, 1, 100000),
        Transactions::Withdrawal(1, 2, 40000),
        Transactions::Dispute(1, 1),
        Transactions::Dispute(1, 2),
        Transactions::Resolve(1, 7),
        Transactions::Chargeback(1, 1),
        Transactions::Deposit(1, 1, 5000),
        Transactions::Withdrawal(1, 3, 999999999),
    ];
    for tx in steps.into_iter() {
        let _ = c.handle_transaction(tx);
        assert_balanced(&c);
    }
}

#[test]
fn resolve_and_chargeback_are_idempotent() {
    let mut a = Client::new(1);
    assert_eq!(a.handle_transaction(Transactions::Deposit(1, 1, 100000)), Ok(()));
    assert_eq!(a.handle_transaction(Transactions::Dispute(1, 1)), Ok(()));
    assert_eq!(a.handle_transaction(Transactions::Resolve(1, 1)), Ok(()));
    let (av, h, t) = (a.available(), a.held(), a.total());
    assert_eq!(a.handle_transaction(Transactions::Resolve(1, 1)), Ok(()));
    assert_eq!((a.available(), a.held(), a.total()), (av, h, t));

    let mut b = Client::new(1);
    assert_eq!(b.handle_transaction(Transactions::Deposit(1, 1, 100000)), Ok(()));
    assert_eq!(b.handle_transaction(Transactions::Dispute(1, 1)), Ok(()));
    assert_eq!(b.handle_transaction(Transactions::Chargeback(1, 1)), Ok(()));
    let snap = (b.available(), b.held(), b.total(), b.locked());
    assert_eq!(b.handle_transaction(Transactions::Chargeback(1, 1)), Ok(()));
    assert_eq!((b.available(), b.held(), b.total(), b.locked()), snap);
}

#[test]
fn duplicate_deposit_is_rejected() {
    let mut c = Client::new(1);
    assert_eq!(c.handle_transaction(Transactions::Deposit(1, 5, 100000)), Ok(()));
    assert_eq!(
        c.handle_transaction(Transactions::Deposit(1, 5, 30000)),
        Err(LedgerError::DuplicateTransaction)
    );
    assert_eq!(c.available(), 100000);
    assert_eq!(c.total(), 100000);
}

#[test]
fn duplicate_withdrawal_is_rejected() {
    let mut c = Client::new(1);
    assert_eq!(c.handle_transaction(Transactions::Deposit(1, 1, 100000)), Ok(()));
    assert_eq!(c.handle_transaction(Transactions::Withdrawal(1, 1, 10000)), Err(LedgerError::DuplicateTransaction));
    assert_eq!(c.available(), 100000);
    assert_eq!(c.total(), 100000);
}

#[test]
fn overdraft_is_rejected() {
    let mut c = Client::new(1);
    assert_eq!(c.handle_transaction(Transactions::Deposit(1, 1, 50000)), Ok(()));
    assert_eq!(
        c.handle_transaction(Transactions::Withdrawal(1, 9, 70000)),
        Err(LedgerError::InsufficientFunds)
    );
    assert_eq!(c.available(), 50000);
    assert_eq!(c.total(), 50000);
}

#[test]
fn dispute_resolve_round_trip_restores_state() {
    let mut c = Client::new(1);
    assert_eq!(c.handle_transaction(Transactions::Deposit(1, 1, 100000)), Ok(()));
    assert_eq!(c.handle_transaction(Transactions::Dispute(1, 1)), Ok(()));
    assert_eq!(c.available(), 0);
    assert_eq!(c.held(), 100000);
    assert_eq!(c.total(), 100000);
    assert_eq!(c.handle_transaction(Transactions::Resolve(1, 1)), Ok(()));
    assert_eq!(c.available(), 100000);
    assert_eq!(c.held(), 0);
    assert_eq!(c.total(), 100000);
    assert!(!c.locked());
}

#[test]
fn dispute_then_chargeback_goes_negative_and_locks() {
    let mut c = Client::new(1);
    assert_eq!(c.handle_transaction(Transactions::Deposit(1, 1, 100000)), Ok(()));
    assert_eq!(c.handle_transaction(Transactions::Withdrawal(1, 2, 40000)), Ok(()));
    assert_eq!(c.available(), 60000);
    assert_eq!(c.total(), 60000);
    assert_eq!(c.handle_transaction(Transactions::Dispute(1, 1)), Ok(()));
    assert_eq!(c.available(), -40000);
    assert_eq!(c.held(), 100000);
    assert_eq!(c.total(), 60000);
    assert_eq!(c.handle_transaction(Transactions::Chargeback(1, 1)), Ok(()));
    assert_eq!(c.available(), -40000);
    assert_eq!(c.held(), 0);
    assert_eq!(c.total(), -40000);
    assert!(c.locked());
}

#[test]
fn unknown_tx_reference_is_a_silent_no_op() {
    let mut c = Client::new(1);
    assert_eq!(c.handle_transaction(Transactions::Deposit(1, 1, 100000)), Ok(()));
    for tx in [
        Transactions::Dispute(1, 42),
        Transactions::Resolve(1, 42),
        Transactions::Chargeback(1, 42),
    ] {
        assert_eq!(c.handle_transaction(tx), Ok(()));
        assert_eq!(c.available(), 100000);
        assert_eq!(c.held(), 0);
        assert_eq!(c.total(), 100000);
        assert!(!c.locked());
    }
}

#[test]
fn disputing_a_withdrawal_is_rejected() {
    let mut c = Client::new(1);
    assert_eq!(c.handle_transaction(Transactions::Deposit(1, 1, 100000)), Ok(()));
    assert_eq!(c.handle_transaction(Transactions::Withdrawal(1, 2, 30000)), Ok(()));
    assert_eq!(
        c.handle_transaction(Transactions::Dispute(1, 2)),
        Err(LedgerError::NotDisputable)
    );
    assert_eq!(c.available(), 70000);
    assert_eq!(c.held(), 0);
    assert_eq!(c.total(), 70000);
}

#[test]
fn balance_out_of_range_is_rejected_whole() {
    let mut c = Client::new(1);
    assert_eq!(c.handle_transaction(Transactions::Deposit(1, 1, 100000)), Ok(()));
    assert_eq!(
        c.handle_transaction(Transactions::Deposit(1, 2, u64::MAX)),
        Err(LedgerError::BalanceOutOfRange)
    );
    assert_eq!(c.available(), 100000);
    assert_eq!(c.total(), 100000);
}

#[test]
fn locked_account_still_processes_events() {
    let mut c = Client::new(1);
    assert_eq!(c.handle_transaction(Transactions::Deposit(1, 1, 100000)), Ok(()));
    assert_eq!(c.handle_transaction(Transactions::Dispute(1, 1)), Ok(()));
    assert_eq!(c.handle_transaction(Transactions::Chargeback(1, 1)), Ok(()));
    assert!(c.locked());
    assert_eq!(c.handle_transaction(Transactions::Deposit(1, 2, 5000)), Ok(()));
    assert_eq!(c.available(), 5000);
    assert!(c.locked());
}

#[test]
fn route_groups_events_by_client_in_first_appearance_order() {
    let events = vec![
        Transactions::Deposit(2, 1, 10000),
        Transactions::Deposit(1, 2, 20000),
        Transactions::Withdrawal(2, 3, 70000),
        Transactions::Deposit(2, 4, 5000),
    ];
    let (accounts, outcomes) = route(&events);
    assert_eq!(accounts.len(), 2);
    assert_eq!(accounts[0].id(), 2);
    assert_eq!(accounts[0].available(), 15000);
    assert_eq!(accounts[1].id(), 1);
    assert_eq!(accounts[1].available(), 20000);
    assert_eq!(
        outcomes,
        vec![Ok(()), Ok(()), Err(LedgerError::InsufficientFunds), Ok(())]
    );
}

#[test]
fn process_transactions_end_to_end() {
    let data = "type,client,tx,amount\nDEPOSIT, 1, 1, 2.5\nwithdrawal,1,2,1.0\n";
    let (table, outcomes) = process_transactions(&data.as_bytes().to_vec()).unwrap();
    assert_eq!(table, "client,available,held,total,locked\n1,1.5,0.0,1.5,false\n");
    assert_eq!(outcomes, vec![Ok(()), Ok(())]);
}

#[test]
fn process_transactions_empty_input_gives_header_only() {
    let (table, outcomes) = process_transactions(&Vec::new()).unwrap();
    assert_eq!(table, "client,available,held,total,locked\n");
    assert_eq!(outcomes, Vec::new());
}

#[test]
fn unknown_type_is_fatal() {
    let data = "type,client,tx,amount\ntransfer,1,1,1.0\n";
    assert_eq!(
        process_transactions(&data.as_bytes().to_vec()),
        Err(InputError::UnrecognizedTransactionType)
    );
}

#[test]
fn malformed_amount_is_fatal() {
    let data = "type,client,tx,amount\ndeposit,1,1,abc\n";
    assert_eq!(
        process_transactions(&data.as_bytes().to_vec()),
        Err(InputError::MalformedRecord)
    );
    let missing = "type,client,tx,amount\ndeposit,1,1,\n";
    assert_eq!(
        process_transactions(&missing.as_bytes().to_vec()),
        Err(InputError::MalformedRecord)
    );
    let bad_header = "kind,client,tx,amount\ndeposit,1,1,1.0\n";
    assert_eq!(
        process_transactions(&bad_header.as_bytes().to_vec()),
        Err(InputError::MalformedRecord)
    );
}

#[test]
fn amounts_parse_as_fixed_point() {
    let some = |v: u64| Some(v);
    assert_eq!(parse_amount(&b"1".to_vec()), some(10000));
    assert_eq!(parse_amount(&b"1.5".to_vec()), some(15000));
    assert_eq!(parse_amount(&b"0.1234".to_vec()), some(1234));
    assert_eq!(parse_amount(&b".5".to_vec()), some(5000));
    assert_eq!(parse_amount(&b"5.".to_vec()), some(50000));
    assert_eq!(parse_amount(&b"1.00005".to_vec()), some(10000));
    assert_eq!(parse_amount(&b"0.123456789".to_vec()), some(1234));
    assert_eq!(parse_amount(&b"".to_vec()), None);
    assert_eq!(parse_amount(&b".".to_vec()), None);
    assert_eq!(parse_amount(&b"1.2.3".to_vec()), None);
    assert_eq!(parse_amount(&b"-1".to_vec()), None);
    assert_eq!(parse_amount(&b"1e3".to_vec()), None);
}

#[test]
fn negative_balances_render_with_sign() {
    let c = Client::from_parts(1, -40000, 0, -40000, true);
    assert_eq!(
        write_csv(&vec![c]),
        Ok("client,available,held,total,locked\n1,-4.0,0.0,-4.0,true\n".to_string())
    );
}
