use tx_maybe::client::{Client, Transactions};
use tx_maybe::client::write_csv;
use tx_maybe::csv_parser::Record;

#[test]
fn test_client_deposit() {
    let mut c0 = Client::new(1);

    let records = vec![
        Record::new(b"deposit".to_vec(), 1, 1, Some(10000)),
        Record::new(b"deposit".to_vec(), 1, 3, Some(20000)),
        Record::new(b"withdrawal".to_vec(), 1, 4, Some(15000)),
    ];

    for r in records.iter() {
        let _ = c0.handle_transaction(Transactions::from_record(r).unwrap());
    }

    assert_eq!(c0.available(), 15000);
    assert_eq!(c0.total(), 15000);

    // dispute 1
    let _ = c0.handle_transaction(Transactions::Dispute(1, 1));
    assert_eq!(c0.available(), 5000);
    assert_eq!(c0.total(), 15000);
    assert_eq!(c0.held(), 10000);

    // dispute 1 again, shouldn't happen anything
    let _ = c0.handle_transaction(Transactions::Dispute(1, 1));
    assert_eq!(c0.available(), 5000);
    assert_eq!(c0.total(), 15000);
    assert_eq!(c0.held(), 10000);

    // resolve 1
    let _ = c0.handle_transaction(Transactions::Resolve(1, 1));
    assert_eq!(c0.available(), 15000);
    assert_eq!(c0.total(), 15000);
    assert_eq!(c0.held(), 0);

    // resolve 1 again, shouldn't happen anything
    let _ = c0.handle_transaction(Transactions::Resolve(1, 1));
    assert_eq!(c0.available(), 15000);
    assert_eq!(c0.total(), 15000);
    assert_eq!(c0.held(), 0);

    // nothing happens, dispute set doesn't have tx_id 1 anymore
    let _ = c0.handle_transaction(Transactions::Chargeback(1, 1));
    assert_eq!(c0.available(), 15000);
    assert_eq!(c0.total(), 15000);
    assert_eq!(c0.held(), 0);

    // dispute
    let _ = c0.handle_transaction(Transactions::Dispute(1, 1));
    // chargeback
    let _ = c0.handle_transaction(Transactions::Chargeback(1, 1));
    assert_eq!(c0.available(), 5000);
    assert_eq!(c0.total(), 5000);
    assert_eq!(c0.held(), 0);
}

#[test]
fn test_clients_write_to_csv() {
    let mut c0 = Client::new(1);

    let records = vec![
        Record::new(b"deposit".to_vec(), 1, 1, Some(10000)),
        Record::new(b"deposit".to_vec(), 1, 3, Some(20000)),
        Record::new(b"withdrawal".to_vec(), 1, 4, Some(15000)),
    ];

    for r in records.iter() {
        let _ = c0.handle_transaction(Transactions::from_record(r).unwrap());
    }

    let mut test_set = vec![c0];
    assert_eq!(
        write_csv(&test_set),
        Ok("client,available,held,total,locked\n1,1.5,0.0,1.5,false\n".to_string())
    );

    // balances of 0.1234 units: what 0.123456789 and 0.12345 become when
    // truncated to four fractional digits
    let c1 = Client::from_parts(2, 1234, 1234, 1234, false);
    test_set.push(c1);

    assert_eq!(
        write_csv(&test_set),
        Ok("client,available,held,total,locked\n1,1.5,0.0,1.5,false\n2,0.1234,0.1234,0.1234,false\n".to_string())
    );
}
