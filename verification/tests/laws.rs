use gqodb::recovery::{recovery_accept, recovery_frame, Recovery, RecoveryError, RecoveryStep};
use gqodb::adaptive;
use gqodb::batch::Options;
use gqodb::book;
use gqodb::data::{generate, Columns, Kind, Regime};
use gqodb::error::FormatError;
use gqodb::index::{block_info, check_index, plan_query, query_mask, BlockInfo};
use gqodb::native::Family;
use gqodb::real_block::{check_native_frame, encode_native, seal, Decoder, Mode};
use gqodb::segment::{
    check_frame_body, codec_name, footer, frame, native_mode, parse_footer, parse_frame_header, FrameKind,
};
use gqodb::text::{text_before, text_equal};

fn columns(rows: usize, cols: usize) -> Vec<Vec<i64>> {
    (0..cols)
        .map(|c| (0..rows).map(|r| (r as i64) * (c as i64 + 1) - 7 * c as i64).collect())
        .collect()
}

#[test]
fn adaptive_block_reads_back_what_was_written() {
    for kind in Kind::all() {
        for regime in Regime::all() {
            for use_lz4 in [false, true] {
                let data = generate(kind, regime, 1000, 5).unwrap();
                let bytes = adaptive::encode(&data, use_lz4).unwrap();
                assert_eq!(adaptive::decode(&bytes).unwrap(), data);
            }
        }
    }
}

#[test]
fn adaptive_values_read_back_for_any_column_count() {
    for cols in [1usize, 2, 3, 64] {
        let values = columns(300, cols);
        let bytes = adaptive::encode_values(&values, true, 0).unwrap();
        let (kind, decoded) = adaptive::decode_values(&bytes).unwrap();
        assert_eq!(kind, 0);
        assert_eq!(decoded, values);
    }
}

#[test]
fn adaptive_encoding_refuses_bad_shapes() {
    assert_eq!(adaptive::encode_values(&vec![], true, 0), Err(FormatError::InvalidColumns));
    assert_eq!(adaptive::encode_values(&vec![vec![1]; 65], true, 0), Err(FormatError::InvalidColumns));
    assert_eq!(adaptive::encode_values(&vec![vec![1, 2], vec![3]], true, 0), Err(FormatError::InvalidRows));
}

#[test]
fn book_block_reads_back_what_was_written() {
    let values = vec![vec![5, 5, 5, 6, 7, i64::MIN, i64::MAX], vec![0, 0, 0, 0, 0, 0, 0], vec![-1, 2, -3, 4, -5, 6, -7]];
    let bytes = book::encode(&values).unwrap();
    let mut scratch = Vec::new();
    assert_eq!(book::decode(&bytes, &mut scratch).unwrap(), values);
}

#[test]
fn native_blocks_frame_their_metadata_and_read_back() {
    let values = columns(500, 8);
    let meta = b"{\"columns\":[]}".to_vec();
    for book in [false, true] {
        let bytes = encode_native(&values, &meta, book).unwrap();
        assert_eq!(check_native_frame(&bytes, book), Ok(meta.len()));
        assert_eq!(&bytes[12..12 + meta.len()], &meta[..]);
        let mut decoder = Decoder::new();
        assert_eq!(decoder.decode_payload(&bytes, meta.len(), book).unwrap(), values);
        decoder.release();
        assert_eq!(check_native_frame(&bytes, !book), Err(FormatError::BadMagic));
    }
}

#[test]
fn sealed_bytes_carry_their_crc32() {
    let mut out = b"123456789".to_vec();
    seal(&mut out);
    assert_eq!(&out[9..], &0xCBF4_3926u32.to_le_bytes());
}

#[test]
fn frames_read_back_their_head_and_body() {
    let meta = b"meta".to_vec();
    let payload = vec![9u8; 100];
    let bytes = frame(FrameKind::Block, &meta, &payload).unwrap();
    assert_eq!(bytes.len(), 24 + 4 + 100);
    let header = parse_frame_header(&bytes[..24], bytes.len() as u64).unwrap().unwrap();
    assert_eq!(header.magic, *b"GQOBBLK1");
    assert_eq!(header.meta_len, 4);
    assert_eq!(header.payload_len, 100);
    assert_eq!(header.length, 128);
    assert_eq!(check_frame_body(&header, &bytes[24..28], &bytes[28..]), Ok(()));
    let mut flipped = bytes[28..].to_vec();
    flipped[0] ^= 1;
    assert_eq!(check_frame_body(&header, &bytes[24..28], &flipped), Err(FormatError::FrameBodyChecksum));
    assert_eq!(parse_frame_header(&bytes[..24], 127).unwrap().map(|h| h.length), None);
    let mut bad = bytes[..24].to_vec();
    bad[9] ^= 1;
    assert_eq!(parse_frame_header(&bad, 1000).map(|h| h.is_some()), Err(FormatError::FrameHeadChecksum));
}

#[test]
fn footers_read_back_their_offset() {
    let tail = footer(1234);
    assert_eq!(tail.len(), 20);
    assert_eq!(parse_footer(&tail, 100, 2000), Ok(1234));
    assert_eq!(parse_footer(&tail, 1235, 2000), Err(FormatError::InvalidIndexOffset));
    assert_eq!(parse_footer(&tail, 100, 1254), Err(FormatError::InvalidIndexOffset));
    let mut bad = tail.clone();
    bad[10] ^= 1;
    assert_eq!(parse_footer(&bad, 100, 2000), Err(FormatError::InvalidFooter));
}

#[test]
fn codec_and_family_names_read_back() {
    for mode in [Mode::Gqodb, Mode::GqodbBook] {
        assert_eq!(native_mode(codec_name(mode).unwrap()), Ok(mode));
    }
    assert_eq!(codec_name(Mode::ParquetLz4), Err(FormatError::UnsupportedCodec));
    assert_eq!(native_mode("GQOREAL9/GQOADP02"), Err(FormatError::UnsupportedCodec));
    for family in [Family::Tick, Family::Orderbook] {
        assert_eq!(Family::parse(family.name()), Ok(family));
    }
    assert_eq!(Family::parse("ticks"), Err(FormatError::UnknownFamily));
    assert_eq!(Family::Tick.mode(), Mode::Gqodb);
    assert_eq!(Family::Orderbook.mode(), Mode::GqodbBook);
}

fn strings(v: &[&str]) -> Vec<String> {
    v.iter().map(|s| s.to_string()).collect()
}

#[test]
fn skipped_blocks_hold_no_selected_rows() {
    let a_times = [10i64, 11, 12];
    let a_symbols = strings(&["BTC", "ETH", "BTC"]);
    let b_times = [100i64, 102, 110];
    let b_symbols = strings(&["ETH", "ETH", "ETH"]);
    let a = block_info(&a_times, &a_symbols, 24, 500).unwrap();
    let b = block_info(&b_times, &b_symbols, 524, 300).unwrap();
    assert_eq!(a.symbols, strings(&["BTC", "ETH"]));
    assert_eq!((a.min_time, a.max_time, a.rows), (10, 12, 3));
    let blocks = vec![a, b];
    assert_eq!(check_index(&blocks, 24, 824), Ok(()));
    assert_eq!(check_index(&blocks, 24, 900), Err(FormatError::IndexOmitsBlocks));
    let (chosen, stats) = plan_query(&blocks, "BTC", 0, 1000).unwrap();
    assert_eq!(chosen, vec![0]);
    assert_eq!((stats.blocks_read, stats.bytes_read), (1, 500));
    assert_eq!(query_mask(&b_times, &b_symbols, "BTC", 0, 1000), None);
    let (chosen, stats) = plan_query(&blocks, "ETH", 101, 200).unwrap();
    assert_eq!(chosen, vec![1]);
    assert_eq!(stats.bytes_read, 300);
    assert_eq!(query_mask(&b_times, &b_symbols, "ETH", 101, 200), Some(vec![false, true, true]));
    assert!(plan_query(&blocks, "absent", 0, 1000).unwrap().0.is_empty());
    assert_eq!(plan_query(&blocks, "BTC", 5, 4).map(|r| r.0), Err(FormatError::ReversedRange));
    assert_eq!(block_info(&[], &vec![], 0, 0).map(|b| b.rows), Err(FormatError::EmptyBlock));
}

#[test]
fn index_checks_tiling_and_statistics() {
    let good = BlockInfo { offset: 24, length: 100, rows: 1, min_time: 0, max_time: 0, symbols: strings(&["A"]) };
    let gap = BlockInfo { offset: 130, ..good.clone() };
    assert_eq!(check_index(&vec![good.clone(), gap], 24, 230), Err(FormatError::NoncontiguousIndex));
    let unsorted = BlockInfo { symbols: strings(&["B", "A"]), ..good.clone() };
    assert_eq!(check_index(&vec![unsorted], 24, 124), Err(FormatError::InvalidIndexStats));
    let reversed = BlockInfo { min_time: 5, max_time: 4, ..good.clone() };
    assert_eq!(check_index(&vec![reversed], 24, 124), Err(FormatError::InvalidIndexStats));
    assert_eq!(check_index(&vec![good], 24, 124), Ok(()));
}

#[test]
fn worker_plans_cover_inputs_in_order() {
    assert_eq!(Options::default().workers, 1);
    assert_eq!(Options { workers: 3 }.plan(10), Ok(vec![(0, 4), (4, 8), (8, 10)]));
    assert_eq!(Options { workers: 8 }.plan(3), Ok(vec![(0, 1), (1, 2), (2, 3)]));
    assert_eq!(Options { workers: 1 }.plan(5), Ok(vec![(0, 5)]));
    assert_eq!(Options { workers: 4 }.plan(0), Ok(vec![]));
    assert_eq!(Options { workers: 0 }.plan(5), Err(FormatError::InvalidWorkers));
    assert_eq!(Options { workers: 65 }.plan(5), Err(FormatError::InvalidWorkers));
}

#[test]
fn symbol_order_is_strict_and_total() {
    assert!(text_before("BTC", "ETH"));
    assert!(!text_before("ETH", "BTC"));
    assert!(!text_before("BTC", "BTC"));
    assert!(text_before("BT", "BTC"));
    assert!(text_before("", "A"));
    assert!(text_before("Z", "a"));
    assert!(text_equal("ÄB", "ÄB"));
    assert!(!text_equal("AB", "A"));
}

#[test]
fn generated_columns_are_deterministic_and_digested() {
    let a = generate(Kind::Trade, Regime::Volatile, 64, 9).unwrap();
    let b = generate(Kind::Trade, Regime::Volatile, 64, 9).unwrap();
    assert_eq!(a, b);
    assert_eq!(a.digest(), b.digest());
    let c = Columns { kind: a.kind, values: a.values.iter().map(|v| v[..63].to_vec()).collect() };
    assert_ne!(a.digest(), c.digest());
}

#[test]
fn recovery_stops_at_the_index_and_checks_each_block() {
    let times = vec![10, 11];
    let symbols = strings(&["BTC", "BTC"]);
    let decoded = block_info(&times, &symbols, 24, 100).unwrap();
    let record = BlockInfo { length: 0, ..decoded.clone() };
    let mut state = Recovery { blocks: vec![], valid_bytes: 24 };
    assert_eq!(recovery_frame(&state, &FrameKind::Index.magic(), &None), Ok(RecoveryStep::Done));
    assert_eq!(recovery_frame(&state, &FrameKind::End.magic(), &None), Err(RecoveryError::UnknownFrameOrLimit));
    assert_eq!(recovery_frame(&state, &FrameKind::Block.magic(), &None), Err(RecoveryError::InvalidMetadata));
    let stored = Some(BlockInfo { length: 5, ..record.clone() });
    assert_eq!(recovery_frame(&state, &FrameKind::Block.magic(), &stored), Err(RecoveryError::InvalidMetadataLength));
    assert_eq!(recovery_frame(&state, &FrameKind::Block.magic(), &Some(record.clone())), Ok(RecoveryStep::Decode));
    let moved = BlockInfo { offset: 25, ..record.clone() };
    assert_eq!(recovery_accept(&mut state, moved, 100, &decoded), Err(RecoveryError::MetadataMismatch));
    assert_eq!((state.blocks.len(), state.valid_bytes), (0, 24));
    assert_eq!(recovery_accept(&mut state, record, 100, &decoded), Ok(()));
    assert_eq!((state.blocks.len(), state.valid_bytes), (1, 124));
    assert_eq!(state.blocks[0].length, 100);
}
