use vstd::prelude::*;

verus! {

/// The views of a list of strings.
pub open spec fn strings_view(fields: Seq<String>) -> Seq<Seq<char>> {
    fields.map_values(|f: String| f@)
}

/// The views of a list of records.
pub open spec fn records_view(rows: Seq<Vec<String>>) -> Seq<Seq<Seq<char>>> {
    rows.map_values(|r: Vec<String>| strings_view(r@))
}

/// The header fields that `csv::Reader::headers` reads from `source` with the
/// crate's default settings, or `None` when it fails.
pub uninterp spec fn csv_header_fields(source: Seq<u8>) -> Option<Seq<Seq<char>>>;

/// The records that `csv::Reader::records` reads from `source` with the
/// crate's default settings, or `None` when any of them fails.
pub uninterp spec fn csv_record_fields(source: Seq<u8>) -> Option<Seq<Seq<Seq<char>>>>;

/// Reads the header record of `source` with `csv::Reader::headers`, each field
/// as a `String`; the error is the crate's message. The contract names the
/// result; it says nothing of the message.
#[verifier::external_body]
pub(crate) fn read_csv_headers(source: &[u8]) -> (r: Result<Vec<String>, String>)
    ensures
        match csv_header_fields(source@) {
            Some(fields) => r matches Ok(v) && strings_view(v@) == fields,
            None => r is Err,
        },
{
    let mut reader = csv::Reader::from_reader(source);
    match reader.headers() {
        Ok(record) => Ok(record.iter().map(|field| field.to_string()).collect()),
        Err(e) => Err(e.to_string()),
    }
}

/// Reads every record of `source` after the header with
/// `csv::Reader::records`, each field as a `String`; on the first failing
/// record the error is the crate's message. The contract names the result; it
/// says nothing of the message.
#[verifier::external_body]
pub(crate) fn read_csv_records(source: &[u8]) -> (r: Result<Vec<Vec<String>>, String>)
    ensures
        match csv_record_fields(source@) {
            Some(rows) => r matches Ok(v) && records_view(v@) == rows,
            None => r is Err,
        },
{
    let mut reader = csv::Reader::from_reader(source);
    let mut rows = Vec::new();
    for record in reader.records() {
        match record {
            Ok(fields) => rows.push(fields.iter().map(|field| field.to_string()).collect()),
            Err(e) => return Err(e.to_string()),
        }
    }
    Ok(rows)
}

} // verus!
