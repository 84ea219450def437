use gqodb::adaptive;
use gqodb::codec::{Codec, Encoded};
use gqodb::data::{generate, Columns, Kind, Regime};
use gqodb::error::FormatError;
use arrow_schema::{DataType, Field, Schema};
use gqodb::limits::{bounded_check, bounded_dimensions, BoundError};
use gqodb::market::decimal;
use gqodb::native::{detect, preflight, preflight_dimensions, preflight_frame, Family, Format};
use gqodb::real_block::{checked_envelope, encode_native, native_frame_panics_at, Decoder, Mode};
use gqodb::schema::{validate_schema, FieldKind, FieldModel, SchemaModel};
use sha2::{Digest, Sha256};

fn rechecksum(bytes: &mut [u8]) {
    let n = bytes.len() - 4;
    let crc = crc32fast::hash(&bytes[..n]);
    bytes[n..].copy_from_slice(&crc.to_le_bytes());
}

#[test]
fn decimals_scale_by_ten_to_the_eighth() {
    assert_eq!(decimal("0"), Ok(0));
    assert_eq!(decimal("123.45"), Ok(12_345_000_000));
    assert_eq!(decimal("1.00000001"), Ok(100_000_001));
    assert_eq!(decimal("7."), Ok(700_000_000));
    assert_eq!(decimal("92233720368.54775807"), Ok(i64::MAX));
    assert_eq!(decimal("92233720368.54775808"), Err(FormatError::DecimalOverflow));
    assert_eq!(decimal("99999999999999999999"), Err(FormatError::DecimalOverflow));
    assert_eq!(decimal("1.123456789"), Err(FormatError::InvalidDecimal));
    assert_eq!(decimal(""), Err(FormatError::InvalidDecimal));
    assert_eq!(decimal(".5"), Err(FormatError::InvalidDecimal));
    assert_eq!(decimal("-1"), Err(FormatError::InvalidDecimal));
    assert_eq!(decimal("1.2.3"), Err(FormatError::InvalidDecimal));
}

fn field(name: &str, kind: FieldKind, nullable: bool) -> FieldModel {
    FieldModel { name: name.to_string(), kind, nullable }
}

fn trade_schema() -> SchemaModel {
    SchemaModel {
        fields: vec![
            field("source_utc_ns", FieldKind::Int64, true),
            field("received_utc_ns", FieldKind::Int64, true),
            field("clock_error_ns", FieldKind::Int64, true),
            field("available_utc_ns", FieldKind::Int64, false),
            field("sequence", FieldKind::Int64, false),
            field("symbol", FieldKind::LargeUtf8, false),
            field("price", FieldKind::Int64, false),
            field("quantity", FieldKind::Int64, false),
            field("side", FieldKind::Int8, false),
        ],
        metadata: vec![
            ("gqodb.family".to_string(), "tick".to_string()),
            ("gqodb.schema_version".to_string(), "1".to_string()),
            ("gqodb.source_sha256".to_string(), "ab".repeat(32)),
            ("gqodb.price_decimals".to_string(), "8".to_string()),
            ("gqodb.quantity_decimals".to_string(), "+12".to_string()),
            ("gqodb.subtype".to_string(), "trade".to_string()),
        ],
    }
}

fn with_meta(mut schema: SchemaModel, key: &str, value: &str) -> SchemaModel {
    for entry in schema.metadata.iter_mut() {
        if entry.0 == key {
            entry.1 = value.to_string();
        }
    }
    schema
}

#[test]
fn schemas_follow_the_normalized_contract() {
    assert_eq!(validate_schema(&trade_schema(), Family::Tick), Ok(()));
    assert_eq!(validate_schema(&trade_schema(), Family::Orderbook), Err(FormatError::FamilyMismatch));
    assert_eq!(
        validate_schema(&with_meta(trade_schema(), "gqodb.schema_version", "999"), Family::Tick),
        Err(FormatError::UnknownSchemaVersion)
    );
    assert_eq!(
        validate_schema(&with_meta(trade_schema(), "gqodb.source_sha256", &"0".repeat(64)), Family::Tick),
        Err(FormatError::InvalidSourceSha)
    );
    assert_eq!(
        validate_schema(&with_meta(trade_schema(), "gqodb.source_sha256", &"AB".repeat(32)), Family::Tick),
        Err(FormatError::InvalidSourceSha)
    );
    assert_eq!(
        validate_schema(&with_meta(trade_schema(), "gqodb.price_decimals", "13"), Family::Tick),
        Err(FormatError::ScaleTooLarge)
    );
    assert_eq!(
        validate_schema(&with_meta(trade_schema(), "gqodb.price_decimals", "256"), Family::Tick),
        Err(FormatError::InvalidScale)
    );
    assert_eq!(
        validate_schema(&with_meta(trade_schema(), "gqodb.subtype", "fill"), Family::Tick),
        Err(FormatError::InvalidSubtype)
    );
    let mut nullable_price = trade_schema();
    nullable_price.fields[6].nullable = true;
    assert_eq!(validate_schema(&nullable_price, Family::Tick), Err(FormatError::WrongFieldType));
    let mut missing = trade_schema();
    missing.fields.remove(5);
    assert_eq!(validate_schema(&missing, Family::Tick), Err(FormatError::MissingField));
    let mut twice = trade_schema();
    twice.fields.push(field("price", FieldKind::Int64, false));
    assert_eq!(validate_schema(&twice, Family::Tick), Err(FormatError::InvalidFieldName));
    let empty = SchemaModel { fields: vec![], metadata: trade_schema().metadata };
    assert_eq!(validate_schema(&empty, Family::Tick), Err(FormatError::SchemaFieldBound));
}

fn tick_block() -> (Vec<u8>, usize) {
    let values: Vec<Vec<i64>> = (0..3).map(|c| (0..100).map(|r| r * 10 + c).collect()).collect();
    let meta = b"{\"columns\":[1,2,3]}".to_vec();
    (encode_native(&values, &meta, false).unwrap(), meta.len())
}

#[test]
fn file_magic_decides_the_format() {
    let (bytes, _) = tick_block();
    assert_eq!(detect(&bytes), Ok(Format::AdaptiveBlockV3));
    assert_eq!(detect(&bytes[..7]), Err(FormatError::TruncatedMagic));
    let mut bad = bytes.clone();
    bad[..8].copy_from_slice(b"GQOREAL9");
    assert_eq!(detect(&bad), Err(FormatError::UnknownFormat));
    assert_eq!(detect(b"GQOREAL4xxxx"), Ok(Format::BookBlockV4));
    assert_eq!(detect(b"GQOBHDR1"), Ok(Format::NativeSegmentV1));
    assert_eq!(Format::BookBlockV4.family(), Family::Orderbook);
}

#[test]
fn preflight_bounds_come_before_decoding() {
    let (bytes, meta) = tick_block();
    assert_eq!(preflight_frame(&bytes), Ok(meta));
    assert_eq!(preflight_dimensions(&bytes, meta, Format::AdaptiveBlockV3, 3, 3), Ok((100, 3)));
    assert_eq!(preflight_dimensions(&bytes, meta, Format::AdaptiveBlockV3, 3, 2), Err(FormatError::MappingMismatch));
    assert_eq!(preflight_dimensions(&bytes, meta, Format::NativeSegmentV1, 3, 3), Err(FormatError::NotABlock));
    assert_eq!(preflight_dimensions(&bytes, meta, Format::BookBlockV4, 3, 3), Err(FormatError::UnknownPayload));
    let mut long_meta = bytes.clone();
    long_meta[8..12].copy_from_slice(&u32::MAX.to_le_bytes());
    rechecksum(&mut long_meta);
    assert_eq!(preflight_frame(&long_meta), Err(FormatError::InvalidSchemaLength));
    let mut rows = bytes.clone();
    rows[12 + meta + 12..12 + meta + 16].copy_from_slice(&u32::MAX.to_le_bytes());
    rechecksum(&mut rows);
    assert_eq!(preflight_dimensions(&rows, meta, Format::AdaptiveBlockV3, 3, 3), Err(FormatError::InvalidDimensions));
    let mut corrupt = bytes.clone();
    corrupt[20] ^= 1;
    assert_eq!(preflight_frame(&corrupt), Err(FormatError::ChecksumMismatch));
    assert_eq!(preflight_frame(&bytes[..31]), Err(FormatError::InvalidBlockSize));
    assert_eq!(checked_envelope(&bytes[..11]), Err(FormatError::InvalidBlockSize));
}

fn layout_block(rows: i64, columns: serde_json::Value) -> (Vec<u8>, usize) {
    let schema = Schema::new(vec![Field::new("a", DataType::Int64, false), Field::new("s", DataType::LargeUtf8, false)]);
    let mut layout = serde_json::Map::new();
    layout.insert("schema".to_string(), serde_json::to_value(&schema).unwrap());
    layout.insert("columns".to_string(), columns);
    let meta = serde_json::to_vec(&serde_json::Value::Object(layout)).unwrap();
    let values: Vec<Vec<i64>> = (0..3).map(|c| (0..rows).map(|r| r * 10 + c).collect()).collect();
    (encode_native(&values, &meta, false).unwrap(), meta.len())
}

#[test]
fn preflight_reads_the_schema_and_dictionaries_of_the_block() {
    let string_column = |dictionary: serde_json::Value| {
        let text = format!("[{{\"value\":0}},{{\"value\":1,\"dictionary\":{dictionary}}}]");
        serde_json::from_str::<serde_json::Value>(&text).unwrap()
    };
    let (good, _) = layout_block(100, string_column(serde_json::from_str("[\"x\",\"yyyy\"]").unwrap()));
    assert_eq!(preflight(&good, Format::AdaptiveBlockV3), Ok(()));
    assert_eq!(preflight(&good, Format::BookBlockV4), Err(BoundError::Format(FormatError::UnknownPayload)));
    let (missing, _) = layout_block(100, serde_json::from_str("[{\"value\":0},{\"value\":1}]").unwrap());
    assert_eq!(preflight(&missing, Format::AdaptiveBlockV3), Err(BoundError::MissingDictionary));
    let (number, _) = layout_block(100, string_column(serde_json::from_str("[\"x\",7]").unwrap()));
    assert_eq!(preflight(&number, Format::AdaptiveBlockV3), Err(BoundError::InvalidDictionaryEntry));
    let (fewer, _) = layout_block(100, serde_json::from_str("[{\"value\":0}]").unwrap());
    assert_eq!(preflight(&fewer, Format::AdaptiveBlockV3), Err(BoundError::Format(FormatError::MappingMismatch)));
    let (none, _) = layout_block(100, serde_json::Value::Null);
    assert_eq!(preflight(&none, Format::AdaptiveBlockV3), Err(BoundError::MissingColumnMapping));
    let wide = serde_json::Value::Array(vec![serde_json::Value::String("w".repeat(1_000_000))]);
    let (bomb, _) = layout_block(200, string_column(wide));
    assert_eq!(preflight(&bomb, Format::AdaptiveBlockV3), Err(BoundError::Format(FormatError::ExpansionLimit)));
    let (no_schema, _) = tick_block();
    assert_eq!(preflight(&no_schema, Format::AdaptiveBlockV3), Err(BoundError::InvalidSchema));
    let garbled = encode_native(&vec![vec![1, 2, 3]], b"{not json", false).unwrap();
    assert_eq!(preflight(&garbled, Format::AdaptiveBlockV3), Err(BoundError::UnreadableMetadata));
    assert_eq!(preflight(&good[..31], Format::AdaptiveBlockV3), Err(BoundError::Format(FormatError::InvalidBlockSize)));
}

#[test]
fn bounded_reads_count_every_mapping_dictionary() {
    let (good, _) = layout_block(5, serde_json::from_str("[{\"dictionary\":[]},{\"dictionary\":[\"x\"]}]").unwrap());
    assert_eq!(bounded_check(&good, 5, 1024, 5 * (3 + 2) * 8 + 5, Mode::Gqodb), Ok(()));
    assert_eq!(
        bounded_check(&good, 5, 1024, 5 * (3 + 2) * 8 + 4, Mode::Gqodb),
        Err(BoundError::Format(FormatError::ExpansionLimit))
    );
    assert_eq!(bounded_check(&good, 4, 1024, usize::MAX, Mode::Gqodb), Err(BoundError::Format(FormatError::InvalidDimensions)));
    let (first, _) = layout_block(5, serde_json::from_str("[{\"value\":0},{\"dictionary\":[\"x\"]}]").unwrap());
    assert_eq!(bounded_check(&first, 5, 1024, usize::MAX, Mode::Gqodb), Err(BoundError::MissingDictionary));
    let many = serde_json::Value::Array(vec![serde_json::from_str("{\"dictionary\":[]}").unwrap(); 65]);
    let (wide, _) = layout_block(5, many);
    assert_eq!(bounded_check(&wide, 5, 1024, usize::MAX, Mode::Gqodb), Err(BoundError::Format(FormatError::MappingLimit)));
    let (none, _) = layout_block(5, serde_json::Value::Null);
    assert_eq!(bounded_check(&none, 5, 1024, usize::MAX, Mode::Gqodb), Err(BoundError::MissingColumnMapping));
}

#[test]
fn native_blocks_are_framed_then_decoded() {
    let values: Vec<Vec<i64>> = (0..3).map(|c| (0..100).map(|r| r * 10 + c).collect()).collect();
    let bytes = encode_native(&values, b"{}", false).unwrap();
    let mut decoder = Decoder::new();
    assert_eq!(decoder.decode_native(&bytes, false), Ok((2, values)));
    assert_eq!(decoder.decode_native(&bytes, true), Err(FormatError::BadMagic));
    let mut short = b"GQOREAL3".to_vec();
    short.extend_from_slice(&crc32fast::hash(b"GQOREAL3").to_le_bytes());
    assert!(native_frame_panics_at(&short, false));
    assert_eq!(decoder.decode_native(&short, false), Err(FormatError::InvalidSchemaLength));
}

#[test]
fn bounded_access_checks_index_rows_and_codec() {
    let (bytes, meta) = tick_block();
    assert_eq!(bounded_dimensions(&bytes, 100, 1024, Mode::Gqodb), Ok((100, 3, meta)));
    assert_eq!(bounded_dimensions(&bytes, 99, 1024, Mode::Gqodb), Err(FormatError::InvalidDimensions));
    assert_eq!(bounded_dimensions(&bytes, 100, 99, Mode::Gqodb), Err(FormatError::BoundedLength));
    assert_eq!(bounded_dimensions(&bytes, 100, 1024, Mode::GqodbBook), Err(FormatError::CodecMismatch));
    assert_eq!(bounded_dimensions(&bytes, 100, 1024, Mode::ParquetLz4), Err(FormatError::UnsupportedCodec));
    assert_eq!(bounded_dimensions(&bytes[..31], 100, 1024, Mode::Gqodb), Err(FormatError::BoundedLength));
}

#[test]
fn digest_is_the_sha256_of_kind_rows_and_values() {
    let data = generate(Kind::L2, Regime::Quiet, 10, 3).unwrap();
    let mut message = vec![data.kind.id()];
    message.extend_from_slice(&(data.values[0].len() as u64).to_le_bytes());
    for column in &data.values {
        for v in column {
            message.extend_from_slice(&v.to_le_bytes());
        }
    }
    let expected: String = Sha256::digest(&message).iter().map(|b| format!("{b:02x}")).collect();
    assert_eq!(data.digest(), expected);
    assert_eq!(data.digest().len(), 64);
}

#[test]
fn compressing_codecs_shrink_redundant_columns() {
    let data = Columns { kind: Kind::Trade, values: vec![vec![7; 10_000]; 8] };
    let raw = 10_000 * 8 * 8;
    for codec in [Codec::ColumnLz4, Codec::DeltaVarintLz4, Codec::DeltaBitpackLz4, Codec::AdaptiveSimdLz4] {
        match codec.encode(&data).unwrap() {
            Encoded::Block(bytes) => assert!(bytes.len() < raw / 20, "{codec:?}: {}", bytes.len()),
            Encoded::Parquet(_) => panic!("native codec gave parquet settings"),
        }
    }
    let small: Vec<Vec<i64>> = vec![(0..1024).map(|r| r % 5).collect()];
    let packed = adaptive::encode_values(&small, false, 0).unwrap();
    assert!(packed.len() < 1024 * 2, "{}", packed.len());
    assert_eq!(adaptive::decode_values(&packed).unwrap().1, small);
}
