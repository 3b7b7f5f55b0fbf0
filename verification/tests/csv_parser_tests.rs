use tx_maybe::csv_parser::{clean, parse_record, read_records, Record};

#[test]
fn test_read() {
    let test_case = "\
        type,  client,  tx,     amount

deposit,     1,1, 1.0000
deposit,  2,2, 2
deposit,  1,3, 2
withdrawal,  1,     4, 1.5000
    withdrawal,2,5,3.0
";
    let result_case = vec![
        Record::new(b"deposit".to_vec(), 1, 1, Some(10000)),
        Record::new(b"deposit".to_vec(), 2, 2, Some(20000)),
        Record::new(b"deposit".to_vec(), 1, 3, Some(20000)),
        Record::new(b"withdrawal".to_vec(), 1, 4, Some(15000)),
        Record::new(b"withdrawal".to_vec(), 2, 5, Some(30000)),
    ];

    let clean_data = clean(&test_case.as_bytes().to_vec());
    let records = read_records(&clean_data).unwrap();
    assert_eq!(records.len(), result_case.len());
    for (ind, record) in records.iter().enumerate() {
        assert_eq!(*record, result_case[ind]);
    }
}

#[test]
fn test_read_single_line() {
    let row = vec![
        b"deposit".to_vec(),
        b"1".to_vec(),
        b"1".to_vec(),
        b"1.0000".to_vec(),
    ];

    assert_eq!(
        parse_record(&row, 0, 1, 2, 3).unwrap(),
        Record::new(b"deposit".to_vec(), 1, 1, Some(10000))
    );
}

#[test]
fn test_read_reordered_header() {
    let test_case = "client,type,amount,tx\n7,deposit,2.5,11\n";
    let records = read_records(&clean(&test_case.as_bytes().to_vec())).unwrap();
    assert_eq!(records, vec![Record::new(b"deposit".to_vec(), 7, 11, Some(25000))]);
}

#[test]
fn test_read_quoted_field() {
    // the csv reader unquotes fields before the grammar sees them
    let test_case = "type,client,tx,amount\n\"deposit\",1,1,\"1.0\"\n";
    let records = read_records(&test_case.as_bytes().to_vec()).unwrap();
    assert_eq!(records, vec![Record::new(b"deposit".to_vec(), 1, 1, Some(10000))]);
}

#[test]
fn test_read_missing_amount_column_value() {
    // dispute rows need no amount value
    let test_case = "type,client,tx,amount\ndispute,1,9,\n";
    let records = read_records(&test_case.as_bytes().to_vec()).unwrap();
    assert_eq!(records, vec![Record::new(b"dispute".to_vec(), 1, 9, None)]);
}
