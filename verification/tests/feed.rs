use gqodb::adaptive;
use gqodb::data::{digest_hex, Kind, Rng};
use gqodb::error::FormatError;
use gqodb::market::{finish_projection, payload_matches, project_event, BookEvent, Projection, Step};
use arrow_array::{ArrayRef, Int64Array, RecordBatch};
use arrow_schema::{DataType, Field, Schema};
use gqodb::parquet_file::{
    parquet_assemble, parquet_decode, parquet_framing, parquet_framing_bytes, parquet_kind, parquet_settings, ParquetBatches,
    ParquetCompression, ParquetHeader, ParquetReadError, ParquetSettings,
};
use gqodb::codec::ParquetMode;
use gqodb::real_block::{encode_native, seal, Decoder};
use parquet::arrow::{arrow_reader::ParquetRecordBatchReaderBuilder, ArrowWriter};
use std::collections::HashMap;
use std::sync::Arc;
use sha2::{Digest, Sha256};

fn hex(bytes: &[u8]) -> String {
    bytes.iter().map(|b| format!("{b:02x}")).collect()
}

#[test]
fn payload_hashes_are_checked_against_lowercase_hex_sha256() {
    let raw = b"{\"type\":\"delta\"}";
    let good = hex(&Sha256::digest(raw));
    assert!(payload_matches(raw, good.as_bytes()));
    assert!(!payload_matches(raw, good.to_uppercase().as_bytes()));
    assert!(!payload_matches(raw, &good.as_bytes()[..63]));
    assert!(!payload_matches(b"other", good.as_bytes()));
    assert_eq!(digest_hex(b"abc"), "ba7816bf8f01cfea414140de5dae2223b00361a396177a9cb410ff61f20015ad");
}

fn pairs(v: &[(&str, &str)]) -> Vec<(String, String)> {
    v.iter().map(|(p, q)| (p.to_string(), q.to_string())).collect()
}

fn event(bids: &[(&str, &str)], asks: &[(&str, &str)], snapshot: bool) -> BookEvent {
    BookEvent {
        receipt_ns: 1_000,
        exchange_ms: 7,
        cts_ms: 6,
        update_id: 42,
        sequence: 9,
        snapshot,
        symbol: "BTCUSDT".to_string(),
        bids: pairs(bids),
        asks: pairs(asks),
    }
}

#[test]
fn events_project_to_level_rows_in_batches_and_stop_at_event_boundaries() {
    let mut state = Projection::new();
    let first = event(&[("100.5", "2"), ("100.25", "0.5")], &[("101", "1")], true);
    assert_eq!(project_event(&mut state, &first, 4, 2), Ok(Step::More));
    assert_eq!(state.batches.len(), 1);
    assert_eq!(state.batches[0][0].0, vec![0, 1_000, 7, 6, 42, 9, 0, 0, 10_050_000_000, 200_000_000, 1]);
    assert_eq!(state.batches[0][1].0, vec![0, 1_000, 7, 6, 42, 9, 0, 1, 10_025_000_000, 50_000_000, 1]);
    assert_eq!(state.pending.len(), 1);
    assert_eq!(state.pending[0].0, vec![0, 1_000, 7, 6, 42, 9, 1, 0, 10_100_000_000, 100_000_000, 1]);
    assert_eq!(state.pending[0].1, "BTCUSDT");
    let empty = event(&[], &[], false);
    assert_eq!(project_event(&mut state, &empty, 4, 2), Ok(Step::More));
    assert_eq!((state.events, state.levels, state.empty_events), (2, 3, 1));
    let bad = event(&[("1", "2")], &[("1.123456789", "1")], false);
    assert_eq!(project_event(&mut state, &bad, 4, 2), Err(FormatError::InvalidDecimal));
    assert_eq!((state.events, state.levels, state.pending.len()), (2, 3, 1));
    let last = event(&[("5", "1"), ("4", "1")], &[], false);
    assert_eq!(project_event(&mut state, &last, 4, 2), Ok(Step::Done));
    assert_eq!(state.levels, 5);
    assert_eq!(state.pending[0].0[0], 2);
    finish_projection(&mut state);
    assert_eq!(state.batches.iter().map(|b| b.len()).collect::<Vec<_>>(), vec![2, 2, 1]);
    assert!(state.pending.is_empty());
}

fn names(kind: Kind) -> Vec<(String, bool, bool)> {
    kind.names().iter().map(|n| (n.to_string(), true, false)).collect()
}

#[test]
fn parquet_footers_and_columns_are_checked() {
    let header = ParquetHeader { schema_id: Some("2".to_string()), fields: names(Kind::Trade), rows: 3 };
    assert_eq!(parquet_kind(&header), Ok(Kind::Trade));
    let missing = ParquetHeader { schema_id: None, ..header.clone() };
    assert_eq!(parquet_kind(&missing), Err(FormatError::MissingSchemaId));
    let bad_id = ParquetHeader { schema_id: Some("x".to_string()), ..header.clone() };
    assert_eq!(parquet_kind(&bad_id), Err(FormatError::InvalidSchemaId));
    let unknown = ParquetHeader { schema_id: Some("9".to_string()), ..header.clone() };
    assert_eq!(parquet_kind(&unknown), Err(FormatError::UnknownSchema));
    let wrong = ParquetHeader { fields: names(Kind::Quote), ..header.clone() };
    assert_eq!(parquet_kind(&wrong), Err(FormatError::InvalidParquetSchema));
    let negative = ParquetHeader { rows: -1, ..header.clone() };
    assert_eq!(parquet_kind(&negative), Err(FormatError::InvalidRowCount));
    let batch = |v: Vec<i64>, nulls: usize| (0..8).map(|_| (Some(v.clone()), nulls)).collect::<Vec<_>>();
    let read = |batches| ParquetBatches { batches, failed: None };
    let two = read(vec![batch(vec![1, 2], 0), batch(vec![3], 0)]);
    assert_eq!(parquet_assemble(Kind::Trade, 3, two).unwrap().values, vec![vec![1, 2, 3]; 8]);
    let short = read(vec![batch(vec![1, 2], 0)]);
    assert_eq!(
        parquet_assemble(Kind::Trade, 3, short).map(|c| c.kind),
        Err(ParquetReadError::Invalid(FormatError::RowCountMismatch))
    );
    let nulls = read(vec![batch(vec![1, 2, 3], 1)]);
    assert_eq!(
        parquet_assemble(Kind::Trade, 3, nulls).map(|c| c.kind),
        Err(ParquetReadError::Invalid(FormatError::UnexpectedNulls))
    );
    let mut floats = batch(vec![1, 2, 3], 0);
    floats[5] = (None, 0);
    assert_eq!(
        parquet_assemble(Kind::Trade, 3, read(vec![floats])).map(|c| c.kind),
        Err(ParquetReadError::Invalid(FormatError::InvalidIntegerArray))
    );
    assert_eq!(parquet_framing(1000, &vec![100, 250]), Ok(650));
    assert_eq!(parquet_framing(100, &vec![100, 1]), Err(FormatError::InvalidColumnLengths));
}

fn parquet_file(kind: Kind, values: &[Vec<i64>], id: &str) -> Vec<u8> {
    let fields: Vec<Field> = kind.names().iter().map(|n| Field::new(*n, DataType::Int64, false)).collect();
    let metadata = HashMap::from([("gqodb.schema_id".to_string(), id.to_string())]);
    let schema = Arc::new(Schema::new_with_metadata(fields, metadata));
    let arrays: Vec<ArrayRef> = values.iter().map(|v| Arc::new(Int64Array::from(v.clone())) as ArrayRef).collect();
    let batch = RecordBatch::try_new(schema.clone(), arrays).unwrap();
    let mut out = Vec::new();
    let mut writer = ArrowWriter::try_new(&mut out, schema, None).unwrap();
    writer.write(&batch).unwrap();
    writer.close().unwrap();
    out
}

#[test]
fn parquet_files_are_read_into_checked_columns() {
    let values: Vec<Vec<i64>> = (0..8).map(|c| (0..300).map(|r| (r * 7 + c) as i64).collect()).collect();
    let file = parquet_file(Kind::Trade, &values, "2");
    let read = parquet_decode(&file).unwrap();
    assert_eq!(read.kind, Kind::Trade);
    assert_eq!(read.values, values);
    let quote = parquet_file(Kind::Trade, &values, "1");
    assert_eq!(parquet_decode(&quote).map(|c| c.kind), Err(ParquetReadError::Invalid(FormatError::InvalidParquetSchema)));
    assert_eq!(parquet_decode(&file[..file.len() - 9]).map(|c| c.kind), Err(ParquetReadError::Unreadable));
    let mut sealed = file.clone();
    seal(&mut sealed);
    let footer = ParquetRecordBatchReaderBuilder::try_new(bytes::Bytes::from(file.clone())).unwrap();
    let chunks: i64 = footer.metadata().row_groups().iter().flat_map(|r| r.columns()).map(|c| c.compressed_size()).sum();
    assert_eq!(parquet_framing_bytes(&sealed), Ok(sealed.len() - chunks as usize));
    let last = sealed.len() - 1;
    sealed[last] ^= 1;
    assert_eq!(parquet_framing_bytes(&sealed), Err(ParquetReadError::Invalid(FormatError::ChecksumMismatch)));
}

#[test]
fn released_decoders_retain_nothing() {
    let mut decoder = Decoder::new();
    assert_eq!(decoder.retained_bytes(), 0);
    let values: Vec<Vec<i64>> = (0..3).map(|c| (0..4096).map(|r| (r % 7 + c) as i64).collect()).collect();
    let bytes = encode_native(&values, b"{}", false).unwrap();
    assert_eq!(decoder.decode_payload(&bytes, 2, false).unwrap(), values);
    assert!(decoder.retained_bytes() > 0);
    decoder.release();
    assert_eq!(decoder.retained_bytes(), 0);
    assert_eq!(decoder.decode_payload(&bytes, 2, false).unwrap(), values);
    let again = adaptive::decode_values(&bytes[14..bytes.len() - 4]).unwrap();
    assert_eq!(again.1, values);
}

fn mix(z: u64) -> u64 {
    let z = (z ^ (z >> 30)).wrapping_mul(0xbf58476d1ce4e5b9);
    let z = (z ^ (z >> 27)).wrapping_mul(0x94d049bb133111eb);
    z ^ (z >> 31)
}

#[test]
fn kth_draw_depends_on_seed_and_k_alone() {
    let seed = 0x6710_db01;
    let mut rng = Rng::new(seed);
    for k in 1..=100u64 {
        assert_eq!(rng.draw(), mix(seed.wrapping_add(0x9e3779b97f4a7c15u64.wrapping_mul(k))));
    }
}

#[test]
fn parquet_writer_settings_follow_the_mode() {
    let delta = ParquetSettings {
        compression: ParquetCompression::Lz4Raw,
        brotli_level: 5,
        dictionary: false,
        plain: false,
        group_rows: 4096,
        page_rows: 65536,
        page_bytes: 1048576,
    };
    assert_eq!(parquet_settings(ParquetMode::DeltaLz4, 4096), delta);
    assert_eq!(parquet_settings(ParquetMode::PlainLz4, 0), ParquetSettings { plain: true, group_rows: 1, ..delta });
    assert_eq!(parquet_settings(ParquetMode::DictionaryLz4, 7), ParquetSettings { dictionary: true, group_rows: 7, ..delta });
    assert_eq!(
        parquet_settings(ParquetMode::DeltaSnappy, 4096),
        ParquetSettings { compression: ParquetCompression::Snappy, ..delta }
    );
    assert_eq!(
        parquet_settings(ParquetMode::DeltaBrotli, 4096),
        ParquetSettings { compression: ParquetCompression::Brotli, ..delta }
    );
}
