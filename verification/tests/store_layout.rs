use pair_discovery::decimal::{decimal_text, hex_text_of, parse_decimal};
use pair_discovery::events::Address;
use pair_discovery::record::{ProgressState, Record, RecordStore, GENESIS_BLOCK};
use pair_discovery::store::{
    encode_record, record_fields, recover, recover_from_rows, trimmed_len, CorruptStateError,
};

fn address(tag: u8) -> Address {
    Address { bytes: [tag; 20] }
}

fn record(id: u64, block: u64) -> Record {
    Record { id, block, address: address(0x11), token0: address(0xab), token1: address(0x0f) }
}

fn row(fields: &[&str]) -> Vec<Vec<u8>> {
    fields.iter().map(|f| f.as_bytes().to_vec()).collect()
}

#[test]
fn parse_decimal_reads_digits() {
    assert_eq!(parse_decimal(b"0"), Some(0));
    assert_eq!(parse_decimal(b"251"), Some(251));
    assert_eq!(parse_decimal(b"007"), Some(7));
    assert_eq!(parse_decimal(b"18446744073709551615"), Some(u64::MAX));
}

#[test]
fn parse_decimal_takes_one_plus_sign() {
    assert_eq!(parse_decimal(b"+5"), Some(5));
    assert_eq!(parse_decimal(b"++5"), None);
    assert_eq!(parse_decimal(b"+"), None);
}

#[test]
fn parse_decimal_rejects_what_is_no_number() {
    assert_eq!(parse_decimal(b""), None);
    assert_eq!(parse_decimal(b"-1"), None);
    assert_eq!(parse_decimal(b"12a"), None);
    assert_eq!(parse_decimal(b" 12"), None);
    assert_eq!(parse_decimal(b"12 "), None);
    assert_eq!(parse_decimal(b"0x10"), None);
}

#[test]
fn parse_decimal_rejects_what_does_not_fit() {
    assert_eq!(parse_decimal(b"18446744073709551616"), None);
    assert_eq!(parse_decimal(b"99999999999999999999"), None);
    assert_eq!(parse_decimal(b"184467440737095516150"), None);
}

#[test]
fn decimal_text_has_no_padding() {
    assert_eq!(decimal_text(0), b"0".to_vec());
    assert_eq!(decimal_text(9), b"9".to_vec());
    assert_eq!(decimal_text(10), b"10".to_vec());
    assert_eq!(decimal_text(1000), b"1000".to_vec());
    assert_eq!(decimal_text(u64::MAX), b"18446744073709551615".to_vec());
}

#[test]
fn decimal_text_reads_back() {
    for n in [0u64, 1, 9, 10, 99, 100, 12345, u64::MAX - 1, u64::MAX] {
        assert_eq!(parse_decimal(&decimal_text(n)), Some(n));
    }
}

#[test]
fn hex_text_is_lower_case_with_prefix() {
    let mut bytes = [0u8; 20];
    bytes[0] = 0x5c;
    bytes[1] = 0x69;
    bytes[19] = 0xaf;
    let text = hex_text_of(&bytes);
    assert_eq!(
        String::from_utf8(text).unwrap(),
        "0x5c690000000000000000000000000000000000af"
    );
}

#[test]
fn record_fields_are_id_block_and_three_addresses() {
    let fields = record_fields(&record(3, 400));
    assert_eq!(fields.len(), 5);
    assert_eq!(fields[0], b"3".to_vec());
    assert_eq!(fields[1], b"400".to_vec());
    assert_eq!(fields[2], b"0x1111111111111111111111111111111111111111".to_vec());
    assert_eq!(fields[3], b"0xabababababababababababababababababababab".to_vec());
    assert_eq!(fields[4], b"0x0f0f0f0f0f0f0f0f0f0f0f0f0f0f0f0f0f0f0f0f".to_vec());
}

#[test]
fn encode_record_writes_one_row() {
    let bytes = encode_record(&record(3, 400)).unwrap();
    let expected = "3,400,0x1111111111111111111111111111111111111111,\
0xabababababababababababababababababababab,0x0f0f0f0f0f0f0f0f0f0f0f0f0f0f0f0f0f0f0f0f\n";
    assert_eq!(String::from_utf8(bytes).unwrap(), expected);
}

#[test]
fn recover_of_nothing_starts_at_genesis() {
    assert_eq!(recover(b"", GENESIS_BLOCK), Ok(ProgressState { found_count: 0, next_block: 0 }));
    assert_eq!(recover(b"", 77), Ok(ProgressState { found_count: 0, next_block: 77 }));
    assert_eq!(recover(b"\n \r\n\t", 5), Ok(ProgressState { found_count: 0, next_block: 5 }));
}

#[test]
fn recover_counts_rows_and_resumes_after_last_block() {
    let data = b"0,100,0xa,0xb,0xc\n1,250,0xa,0xb,0xc\n";
    assert_eq!(recover(data, 0), Ok(ProgressState { found_count: 2, next_block: 251 }));
}

#[test]
fn recover_has_no_header_row() {
    let data = b"0,100,0xa,0xb,0xc\n";
    assert_eq!(recover(data, 0), Ok(ProgressState { found_count: 1, next_block: 101 }));
    let with_header = b"id,block,address,token0,token1\n0,100,0xa,0xb,0xc\n";
    assert_eq!(recover(with_header, 0), Err(CorruptStateError::Id { row: 0 }));
}

#[test]
fn recover_tolerates_blanks_at_the_end() {
    let expected = Ok(ProgressState { found_count: 2, next_block: 251 });
    assert_eq!(recover(b"0,100,0xa,0xb,0xc\n1,250,0xa,0xb,0xc", 0), expected);
    assert_eq!(recover(b"0,100,0xa,0xb,0xc\n1,250,0xa,0xb,0xc\n\n\n", 0), expected);
    assert_eq!(recover(b"0,100,0xa,0xb,0xc\r\n1,250,0xa,0xb,0xc\r\n", 0), expected);
    assert_eq!(recover(b"0,100,0xa,0xb,0xc\n1,250,0xa,0xb,0xc\n   \n\t ", 0), expected);
    assert_eq!(recover(b"0,100,0xa,0xb,0xc\n1,250,0xa,0xb,0xc   ", 0), expected);
}

#[test]
fn recover_does_not_use_the_id_of_the_last_row() {
    let data = b"7,100,0xa,0xb,0xc\n9,250,0xa,0xb,0xc\n";
    assert_eq!(recover(data, 0), Ok(ProgressState { found_count: 2, next_block: 251 }));
}

#[test]
fn recover_rejects_wrong_field_count() {
    assert_eq!(recover(b"0,100,0xa,0xb\n", 0), Err(CorruptStateError::FieldCount { row: 0 }));
    assert_eq!(
        recover(b"0,100,0xa,0xb,0xc\n1,250,0xa,0xb,0xc,extra\n", 0),
        Err(CorruptStateError::FieldCount { row: 1 })
    );
    assert_eq!(
        recover(b"0,100,0xa,0xb,0xc\n1\n2,300,0xa,0xb,0xc\n", 0),
        Err(CorruptStateError::FieldCount { row: 1 })
    );
}

#[test]
fn recover_rejects_unparsable_id() {
    assert_eq!(recover(b"x,100,0xa,0xb,0xc\n", 0), Err(CorruptStateError::Id { row: 0 }));
    assert_eq!(
        recover(b"0,100,0xa,0xb,0xc\n,250,0xa,0xb,0xc\n", 0),
        Err(CorruptStateError::Id { row: 1 })
    );
    assert_eq!(
        recover(b"18446744073709551616,100,0xa,0xb,0xc\n", 0),
        Err(CorruptStateError::Id { row: 0 })
    );
}

#[test]
fn recover_rejects_unparsable_block() {
    assert_eq!(recover(b"0,abc,0xa,0xb,0xc\n", 0), Err(CorruptStateError::Block { row: 0 }));
    assert_eq!(recover(b"0,-5,0xa,0xb,0xc\n", 0), Err(CorruptStateError::Block { row: 0 }));
    assert_eq!(recover(b"0,1.5,0xa,0xb,0xc\n", 0), Err(CorruptStateError::Block { row: 0 }));
    assert_eq!(
        recover(b"0,100,0xa,0xb,0xc\n1, 250,0xa,0xb,0xc\n", 0),
        Err(CorruptStateError::Block { row: 1 })
    );
}

#[test]
fn recover_rejects_block_that_none_can_follow() {
    assert_eq!(
        recover(b"0,18446744073709551615,0xa,0xb,0xc\n", 0),
        Err(CorruptStateError::Block { row: 0 })
    );
    assert_eq!(
        recover(b"0,18446744073709551614,0xa,0xb,0xc\n", 0),
        Ok(ProgressState { found_count: 1, next_block: u64::MAX })
    );
}

#[test]
fn recover_reports_the_first_bad_row() {
    let data = b"0,100,0xa,0xb,0xc\n1,bad,0xa,0xb,0xc\nworse\n";
    assert_eq!(recover(data, 0), Err(CorruptStateError::Block { row: 1 }));
    let data = b"0,100,0xa,0xb,0xc\nbad,bad,0xa,0xb,0xc\n";
    assert_eq!(recover(data, 0), Err(CorruptStateError::Id { row: 1 }));
}

#[test]
fn recover_rejects_bytes_that_are_no_text() {
    let data = [b'0', b',', b'1', b',', 0xff, 0xfe, b',', b'a', b',', b'b', b'\n'];
    assert_eq!(recover(&data, 0), Err(CorruptStateError::Unreadable));
}

#[test]
fn recover_reads_quoted_fields() {
    let data = b"\"0\",\"100\",\"0x,a\",0xb,0xc\n";
    assert_eq!(recover(data, 0), Ok(ProgressState { found_count: 1, next_block: 101 }));
}

#[test]
fn recover_from_rows_checks_each_row() {
    let rows = vec![row(&["0", "100", "a", "b", "c"]), row(&["1", "250", "a", "b", "c"])];
    assert_eq!(recover_from_rows(&rows, 9), Ok(ProgressState { found_count: 2, next_block: 251 }));
    assert_eq!(
        recover_from_rows(&Vec::new(), 9),
        Ok(ProgressState { found_count: 0, next_block: 9 })
    );
    let rows = vec![row(&["0", "100", "a", "b", "c"]), row(&["1", "250", "a", "b"])];
    assert_eq!(recover_from_rows(&rows, 9), Err(CorruptStateError::FieldCount { row: 1 }));
    let rows = vec![row(&["", "100", "a", "b", "c"])];
    assert_eq!(recover_from_rows(&rows, 9), Err(CorruptStateError::Id { row: 0 }));
    let rows = vec![row(&["0", "", "a", "b", "c"])];
    assert_eq!(recover_from_rows(&rows, 9), Err(CorruptStateError::Block { row: 0 }));
}

#[test]
fn trimmed_len_drops_blanks_at_the_end_only() {
    assert_eq!(trimmed_len(b""), 0);
    assert_eq!(trimmed_len(b"  \n"), 0);
    assert_eq!(trimmed_len(b"a,b\n"), 3);
    assert_eq!(trimmed_len(b" a b \t\r\n"), 4);
    assert_eq!(trimmed_len(b"a\nb"), 3);
}

#[test]
fn written_records_are_recovered() {
    let records = [record(0, 100), record(1, 250), record(2, 250), record(3, 400)];
    let mut data = Vec::new();
    for (n, r) in records.iter().enumerate() {
        data.extend(encode_record(r).unwrap());
        assert_eq!(
            recover(&data, 0),
            Ok(ProgressState { found_count: n as u64 + 1, next_block: r.block + 1 })
        );
    }
    assert_eq!(recover(&data, 0), Ok(ProgressState { found_count: 4, next_block: 401 }));
}

#[test]
fn store_in_memory_recovers_what_was_flushed() {
    let mut store = RecordStore::new();
    assert_eq!(store.recover(12), ProgressState { found_count: 0, next_block: 12 });
    store.append(record(0, 100));
    store.append(record(1, 250));
    store.flush();
    store.append(record(2, 250));
    assert_eq!(store.records.len(), 3);
    assert_eq!(store.recover(12), ProgressState { found_count: 2, next_block: 251 });
    assert_eq!(store.records, vec![record(0, 100), record(1, 250)]);
}

#[test]
fn store_in_memory_appends_in_order() {
    let mut store = RecordStore::new();
    store.append_all(&vec![record(0, 100), record(1, 250)]);
    store.append_all(&Vec::new());
    store.append_all(&vec![record(2, 250)]);
    store.flush();
    assert_eq!(store.records, vec![record(0, 100), record(1, 250), record(2, 250)]);
    assert_eq!(store.durable, 3);
    assert_eq!(store.recover(0), ProgressState { found_count: 3, next_block: 251 });
}

#[test]
fn encoded_row_is_what_serializing_the_values_writes() {
    let mut pair = [0u8; 20];
    let mut token0 = [0u8; 20];
    let mut token1 = [0u8; 20];
    for i in 0..20 {
        pair[i] = (i as u8) * 13 + 1;
        token0[i] = 255 - i as u8;
        token1[i] = if i % 2 == 0 { 0 } else { 0xa0 + i as u8 };
    }
    let record = Record {
        id: 10007,
        block: 10000835,
        address: Address { bytes: pair },
        token0: Address { bytes: token0 },
        token1: Address { bytes: token1 },
    };
    let mut writer = csv::WriterBuilder::new().has_headers(false).from_writer(Vec::new());
    writer
        .serialize((
            record.id,
            record.block,
            ethers::types::Address::from(pair),
            ethers::types::Address::from(token0),
            ethers::types::Address::from(token1),
        ))
        .unwrap();
    let expected = writer.into_inner().unwrap();
    assert_eq!(encode_record(&record).unwrap(), expected);
}

#[test]
fn rows_read_back_by_a_reader_hold_the_fields() {
    let record = record(3, 400);
    let bytes = encode_record(&record).unwrap();
    let mut reader = csv::ReaderBuilder::new().has_headers(false).from_reader(bytes.as_slice());
    let rows: Vec<csv::ByteRecord> = reader.byte_records().map(|row| row.unwrap()).collect();
    assert_eq!(rows.len(), 1);
    let fields: Vec<Vec<u8>> = rows[0].iter().map(|field| field.to_vec()).collect();
    assert_eq!(fields, record_fields(&record));
}
