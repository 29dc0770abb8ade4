//! The persisted layout of the records, and recovery from it.
//!
//! The records are kept as rows of comma-separated values without a header
//! row, one record per row, with the fields id, block, address, token0 and
//! token1 in this order. Splitting bytes into rows and joining fields into a
//! row is the work of the `csv` crate; which fields a row must hold and what
//! they mean is decided here.
use vstd::prelude::*;
use crate::decimal::{
    decimal_of, decimal_text, decimal_value, hex_text, hex_text_of, lemma_decimal_round_trip,
    parse_decimal,
};
use crate::record::{progress_of, ProgressState, Record};

verus! {

/// Number of fields in a row.
pub const FIELD_COUNT: usize = 5;

/// Why the persisted records cannot be trusted. Rows are counted from zero.
#[derive(Clone, Copy, Debug, PartialEq, Eq)]
pub enum CorruptStateError {
    /// The bytes could not be split into rows of text.
    Unreadable,
    /// The row does not have five fields.
    FieldCount { row: u64 },
    /// The first field of the row is no number.
    Id { row: u64 },
    /// The second field of the row is no number, or no block can follow it.
    Block { row: u64 },
}

/// A row could not be written.
#[derive(Clone, Copy, Debug, PartialEq, Eq)]
pub struct WriteError {}

/// The error type of the `csv` crate.
#[verifier::external_type_specification]
#[verifier::external_body]
pub struct ExCsvError(csv::Error);

/// The rows that the `csv` crate reads from `data` when told that there is no
/// header row and that rows may differ in their number of fields, each row
/// as the bytes of its fields, or `None` where it reports an error.
pub uninterp spec fn csv_rows(data: Seq<u8>) -> Option<Seq<Seq<Seq<u8>>>>;

/// The bytes that the `csv` crate writes for one row with the given fields,
/// or `None` where it reports an error.
pub uninterp spec fn csv_row_bytes(fields: Seq<Seq<u8>>) -> Option<Seq<u8>>;

/// Reads all rows of `data` with `csv::Reader::records`, from a reader built
/// by `csv::ReaderBuilder` with `has_headers(false)` and `flexible(true)`.
/// The contract claims only that the outcome is a function of `data`: the
/// rows in order with the bytes of each field, or an error where the reader
/// reports one.
#[verifier::external_body]
fn read_rows(data: &[u8]) -> (parsed: Result<Vec<Vec<Vec<u8>>>, csv::Error>)
    ensures
        match parsed {
            Ok(rows) => csv_rows(data@) == Some(rows.deep_view()),
            Err(_) => csv_rows(data@).is_none(),
        },
{
    let mut reader =
        csv::ReaderBuilder::new().has_headers(false).flexible(true).from_reader(data);
    let mut rows = Vec::new();
    for record in reader.records() {
        rows.push(record?.iter().map(|field| field.as_bytes().to_vec()).collect());
    }
    Ok(rows)
}

/// Writes one row with `csv::Writer::write_record` into a buffer in memory,
/// through a writer built by `csv::WriterBuilder` with `has_headers(false)`.
/// The contract claims only that the outcome is a function of the fields:
/// the bytes written, or an error.
#[verifier::external_body]
fn write_row(fields: &Vec<Vec<u8>>) -> (written: Result<Vec<u8>, csv::Error>)
    ensures
        match written {
            Ok(bytes) => csv_row_bytes(fields.deep_view()) == Some(bytes@),
            Err(_) => csv_row_bytes(fields.deep_view()).is_none(),
        },
{
    let mut writer = csv::WriterBuilder::new().has_headers(false).from_writer(Vec::new());
    writer.write_record(fields)?;
    writer.into_inner().map_err(|e| csv::Error::from(e.into_error()))
}

/// The byte is a space, a tab, a line feed or a carriage return.
pub open spec fn is_blank(c: u8) -> bool {
    c == 32 || c == 9 || c == 10 || c == 13
}

/// `data` without the blanks at its end.
pub open spec fn trimmed(data: Seq<u8>) -> Seq<u8>
    decreases data.len(),
{
    if data.len() > 0 && is_blank(data.last()) {
        trimmed(data.drop_last())
    } else {
        data
    }
}

/// The block that the second field of a row denotes: a number that another
/// block can follow.
pub open spec fn block_value(field: Seq<u8>) -> Option<u64> {
    match decimal_value(field) {
        Some(block) => if block < u64::MAX {
            Some(block)
        } else {
            None
        },
        None => None,
    }
}

/// What is wrong with the row at position `index`, if anything: the number
/// of fields is checked first, then the id, then the block.
pub open spec fn row_error(row: Seq<Seq<u8>>, index: int) -> Option<CorruptStateError> {
    if row.len() != FIELD_COUNT {
        Some(CorruptStateError::FieldCount { row: index as u64 })
    } else if decimal_value(row[0]) is None {
        Some(CorruptStateError::Id { row: index as u64 })
    } else if block_value(row[1]) is None {
        Some(CorruptStateError::Block { row: index as u64 })
    } else {
        None
    }
}

/// The progress that rows stand for. The first row with something wrong
/// decides the error. Sound rows count one found event each, and the scan
/// goes on at the block after that of the last row, or at `genesis` where
/// there is no row.
pub open spec fn recovered(rows: Seq<Seq<Seq<u8>>>, genesis: u64) -> Result<
    ProgressState,
    CorruptStateError,
>
    decreases rows.len(),
{
    if rows.len() == 0 {
        Ok(ProgressState { found_count: 0, next_block: genesis })
    } else {
        match recovered(rows.drop_last(), genesis) {
            Err(e) => Err(e),
            Ok(_) => match row_error(rows.last(), rows.len() - 1) {
                Some(e) => Err(e),
                None => Ok(
                    ProgressState {
                        found_count: rows.len() as u64,
                        next_block: (block_value(rows.last()[1]).unwrap() + 1) as u64,
                    },
                ),
            },
        }
    }
}

/// The progress that the outcome of reading rows stands for.
pub open spec fn recovered_from(parsed: Option<Seq<Seq<Seq<u8>>>>, genesis: u64) -> Result<
    ProgressState,
    CorruptStateError,
> {
    match parsed {
        Some(rows) => recovered(rows, genesis),
        None => Err(CorruptStateError::Unreadable),
    }
}

/// The fields of the row that holds `record`.
pub open spec fn fields_of(record: Record) -> Seq<Seq<u8>> {
    seq![
        decimal_of(record.id as nat),
        decimal_of(record.block as nat),
        hex_text(record.address.bytes@),
        hex_text(record.token0.bytes@),
        hex_text(record.token1.bytes@),
    ]
}

/// The rows that hold `records`, in order.
pub open spec fn rows_of(records: Seq<Record>) -> Seq<Seq<Seq<u8>>> {
    Seq::new(records.len(), |i: int| fields_of(records[i]))
}

/// Length of `data` without the blanks at its end.
pub fn trimmed_len(data: &[u8]) -> (len: usize)
    ensures
        len <= data@.len(),
        data@.take(len as int) == trimmed(data@),
{
    let mut len: usize = data.len();
    proof {
        assert(data@.take(len as int) =~= data@);
    }
    while len > 0 && (data[len - 1] == 32 || data[len - 1] == 9 || data[len - 1] == 10 || data[len
        - 1] == 13)
        invariant
            len <= data@.len(),
            trimmed(data@.take(len as int)) == trimmed(data@),
        decreases len,
    {
        proof {
            assert(data@.take(len as int).drop_last() =~= data@.take(len - 1));
        }
        len = len - 1;
    }
    len
}

/// Reads the progress off rows that were already split into fields.
pub fn recover_from_rows(rows: &Vec<Vec<Vec<u8>>>, genesis: u64) -> (progress: Result<
    ProgressState,
    CorruptStateError,
>)
    ensures
        progress == recovered(rows.deep_view(), genesis),
{
    let ghost all = rows.deep_view();
    let mut next_block: u64 = genesis;
    let mut i: usize = 0;
    while i < rows.len()
        invariant
            i <= rows.len(),
            all == rows.deep_view(),
            recovered(all.take(i as int), genesis) == Ok::<ProgressState, CorruptStateError>(
                ProgressState { found_count: i as u64, next_block },
            ),
        decreases rows.len() - i,
    {
        let row = &rows[i];
        proof {
            assert(all.take(i + 1).drop_last() =~= all.take(i as int));
            assert(all.take(i + 1).last() == row.deep_view());
            assert(row.deep_view().len() == row@.len());
            if row@.len() == FIELD_COUNT {
                assert(row.deep_view()[0] == row@[0]@);
                assert(row.deep_view()[1] == row@[1]@);
            }
        }
        if row.len() != FIELD_COUNT {
            proof {
                lemma_recovered_error_stays(all, i + 1, genesis);
            }
            return Err(CorruptStateError::FieldCount { row: i as u64 });
        }
        if parse_decimal(row[0].as_slice()).is_none() {
            proof {
                lemma_recovered_error_stays(all, i + 1, genesis);
            }
            return Err(CorruptStateError::Id { row: i as u64 });
        }
        match parse_decimal(row[1].as_slice()) {
            Some(block) => {
                if block == u64::MAX {
                    proof {
                        lemma_recovered_error_stays(all, i + 1, genesis);
                    }
                    return Err(CorruptStateError::Block { row: i as u64 });
                }
                next_block = block + 1;
            },
            None => {
                proof {
                    lemma_recovered_error_stays(all, i + 1, genesis);
                }
                return Err(CorruptStateError::Block { row: i as u64 });
            },
        }
        i = i + 1;
    }
    proof {
        assert(all.take(i as int) =~= all);
    }
    Ok(ProgressState { found_count: i as u64, next_block })
}

/// An error among the first rows is the error of all rows.
pub proof fn lemma_recovered_error_stays(rows: Seq<Seq<Seq<u8>>>, k: int, genesis: u64)
    requires
        0 <= k <= rows.len(),
        recovered(rows.take(k), genesis) is Err,
    ensures
        recovered(rows, genesis) == recovered(rows.take(k), genesis),
    decreases rows.len(),
{
    if k == rows.len() {
        assert(rows.take(k) =~= rows);
    } else {
        assert(rows.drop_last().take(k) =~= rows.take(k));
        lemma_recovered_error_stays(rows.drop_last(), k, genesis);
    }
}

/// Reads the progress off the bytes of a store.
///
/// Blanks at the end of the bytes are not read. What is left is split into
/// rows by the `csv` crate, and whatever it reports as an error makes the
/// store unreadable. The rows then decide as `recovered` says.
pub fn recover(data: &[u8], genesis: u64) -> (progress: Result<ProgressState, CorruptStateError>)
    ensures
        progress == recovered_from(csv_rows(trimmed(data@)), genesis),
{
    let len = trimmed_len(data);
    let kept = vstd::slice::slice_subrange(data, 0, len);
    proof {
        assert(kept@ =~= data@.take(len as int));
    }
    match read_rows(kept) {
        Ok(rows) => recover_from_rows(&rows, genesis),
        Err(_) => Err(CorruptStateError::Unreadable),
    }
}

/// The fields of the row that holds `record`.
pub fn record_fields(record: &Record) -> (fields: Vec<Vec<u8>>)
    ensures
        fields.deep_view() == fields_of(*record),
{
    let mut fields: Vec<Vec<u8>> = Vec::new();
    fields.push(decimal_text(record.id));
    fields.push(decimal_text(record.block));
    fields.push(hex_text_of(&record.address.bytes));
    fields.push(hex_text_of(&record.token0.bytes));
    fields.push(hex_text_of(&record.token1.bytes));
    proof {
        let texts = fields.deep_view();
        assert(texts.len() == 5);
        assert(texts[0] == fields@[0]@);
        assert(texts[1] == fields@[1]@);
        assert(texts[2] == fields@[2]@);
        assert(texts[3] == fields@[3]@);
        assert(texts[4] == fields@[4]@);
        assert(texts =~= fields_of(*record));
    }
    fields
}

/// The bytes of the row that holds `record`, as the `csv` crate writes the
/// fields of the record, or the error that it could not write them.
pub fn encode_record(record: &Record) -> (row: Result<Vec<u8>, WriteError>)
    ensures
        match row {
            Ok(bytes) => csv_row_bytes(fields_of(*record)) == Some(bytes@),
            Err(_) => csv_row_bytes(fields_of(*record)) is None,
        },
{
    let fields = record_fields(record);
    match write_row(&fields) {
        Ok(bytes) => Ok(bytes),
        Err(_) => Err(WriteError {  }),
    }
}

/// A row that holds a record has nothing wrong with it, and its block is the
/// record's block.
pub proof fn lemma_row_of_record(record: Record, index: int)
    requires
        record.block < u64::MAX,
    ensures
        row_error(fields_of(record), index) is None,
        block_value(fields_of(record)[1]) == Some(record.block),
        decimal_value(fields_of(record)[0]) == Some(record.id),
{
    lemma_decimal_round_trip(record.id);
    lemma_decimal_round_trip(record.block);
}

/// Recovery round trip: the rows that hold `records` stand for as many found
/// events as there are records, and the scan goes on at the block after that
/// of the last record, or at `genesis` where there is none.
pub proof fn lemma_recover_written_rows(records: Seq<Record>, genesis: u64)
    requires
        records.len() <= u64::MAX,
        forall|i: int| 0 <= i < records.len() ==> (#[trigger] records[i]).block < u64::MAX,
    ensures
        recovered(rows_of(records), genesis) == Ok::<ProgressState, CorruptStateError>(
            progress_of(records, genesis),
        ),
    decreases records.len(),
{
    if records.len() > 0 {
        let front = records.drop_last();
        lemma_recover_written_rows(front, genesis);
        assert(rows_of(records).drop_last() =~= rows_of(front));
        lemma_row_of_record(records.last(), records.len() - 1);
    }
}

} // verus!
