//! The block codecs that benchmarks compare, and which of them this library runs itself.
use crate::adaptive::{adaptive_block, adaptive_block_decoded};
use crate::block::{decode_block, encode_block, Layout};
use crate::data::{columns_error, Columns, Kind};
use crate::error::FormatError;
use crate::real_block::{checked_envelope, envelope_end};
use vstd::prelude::*;

verus! {

/// Parquet writer settings that benchmarks compare.
#[derive(Clone, Copy, Debug, PartialEq, Eq, Structural)]
pub enum ParquetMode {
    PlainLz4,
    DeltaLz4,
    DictionaryLz4,
    DeltaSnappy,
    DeltaBrotli,
}

#[derive(Clone, Copy, Debug, PartialEq, Eq, Structural)]
pub enum Codec {
    ColumnLz4,
    DeltaVarintLz4,
    DeltaBitpackLz4,
    AdaptiveSimd,
    AdaptiveSimdLz4,
    ParquetPlainLz4,
    ParquetDeltaLz4,
    ParquetDictionaryLz4,
    ParquetDeltaSnappy,
    ParquetDeltaBrotli,
}

/// The Parquet settings of a Parquet codec.
pub open spec fn parquet_mode_of(codec: Codec) -> Option<ParquetMode> {
    match codec {
        Codec::ParquetPlainLz4 => Some(ParquetMode::PlainLz4),
        Codec::ParquetDeltaLz4 => Some(ParquetMode::DeltaLz4),
        Codec::ParquetDictionaryLz4 => Some(ParquetMode::DictionaryLz4),
        Codec::ParquetDeltaSnappy => Some(ParquetMode::DeltaSnappy),
        Codec::ParquetDeltaBrotli => Some(ParquetMode::DeltaBrotli),
        _ => None,
    }
}

/// The block layout of a fixed-layout codec.
pub open spec fn layout_of_codec(codec: Codec) -> Layout {
    match codec {
        Codec::ColumnLz4 => Layout::Raw,
        Codec::DeltaVarintLz4 => Layout::Varint,
        _ => Layout::Bitpack,
    }
}

/// Whether a codec is one of the adaptive ones.
pub open spec fn is_adaptive(codec: Codec) -> bool {
    codec == Codec::AdaptiveSimd || codec == Codec::AdaptiveSimdLz4
}

/// What encoding gives: the block itself, or the Parquet settings with which the caller
/// writes the (already validated) columns as Parquet and seals them with a CRC-32.
#[derive(Debug)]
pub enum Encoded {
    Block(Vec<u8>),
    Parquet(ParquetMode),
}

/// What decoding gives: the columns, or, for a Parquet block whose envelope checks out, the
/// length of the Parquet file that precedes the checksum, for the caller to read.
#[derive(Debug)]
pub enum Decoded {
    Columns(Columns),
    Parquet(usize),
}

/// What a codec makes of columns of the fixed schema: a block, or Parquet settings.
pub open spec fn codec_encoded(codec: Codec, kind: Kind, cols: Seq<Seq<i64>>) -> Result<Option<Seq<u8>>, FormatError> {
    if is_adaptive(codec) {
        match adaptive_block(kind, cols, codec == Codec::AdaptiveSimdLz4) {
            Err(e) => Err(e),
            Ok(v) => Ok(Some(v)),
        }
    } else if parquet_mode_of(codec) is Some {
        if columns_error(cols) is Some {
            Err(columns_error(cols).unwrap())
        } else {
            Ok(None)
        }
    } else if columns_error(cols) is Some {
        Err(columns_error(cols).unwrap())
    } else {
        Ok(Some(encode_block(kind, cols, layout_of_codec(codec))))
    }
}

/// What a codec decodes a block to: the schema and columns, or, for Parquet, the file length.
pub open spec fn codec_decoded(codec: Codec, input: Seq<u8>) -> Result<Result<(Kind, Seq<Seq<i64>>), nat>, FormatError> {
    if is_adaptive(codec) {
        match adaptive_block_decoded(input) {
            Err(e) => Err(e),
            Ok(t) => Ok(Ok(t)),
        }
    } else if parquet_mode_of(codec) is Some {
        match envelope_end(input) {
            Err(e) => Err(e),
            Ok(n) => Ok(Err(n)),
        }
    } else {
        match decode_block(input) {
            Err(e) => Err(e),
            Ok(t) => Ok(Ok(t)),
        }
    }
}

impl Codec {
    pub fn all() -> (r: [Codec; 10])
        ensures
            r@ == seq![Codec::ColumnLz4, Codec::DeltaVarintLz4, Codec::DeltaBitpackLz4, Codec::AdaptiveSimd,
                Codec::AdaptiveSimdLz4, Codec::ParquetPlainLz4, Codec::ParquetDeltaLz4, Codec::ParquetDictionaryLz4,
                Codec::ParquetDeltaSnappy, Codec::ParquetDeltaBrotli],
    {
        [
            Codec::ColumnLz4,
            Codec::DeltaVarintLz4,
            Codec::DeltaBitpackLz4,
            Codec::AdaptiveSimd,
            Codec::AdaptiveSimdLz4,
            Codec::ParquetPlainLz4,
            Codec::ParquetDeltaLz4,
            Codec::ParquetDictionaryLz4,
            Codec::ParquetDeltaSnappy,
            Codec::ParquetDeltaBrotli,
        ]
    }

    pub fn parquet_mode(self) -> (r: Option<ParquetMode>)
        ensures
            r == parquet_mode_of(self),
    {
        match self {
            Codec::ParquetPlainLz4 => Some(ParquetMode::PlainLz4),
            Codec::ParquetDeltaLz4 => Some(ParquetMode::DeltaLz4),
            Codec::ParquetDictionaryLz4 => Some(ParquetMode::DictionaryLz4),
            Codec::ParquetDeltaSnappy => Some(ParquetMode::DeltaSnappy),
            Codec::ParquetDeltaBrotli => Some(ParquetMode::DeltaBrotli),
            _ => None,
        }
    }

    pub fn is_parquet(self) -> (r: bool)
        ensures
            r == (parquet_mode_of(self) is Some),
    {
        self.parquet_mode().is_some()
    }

    /// Encodes with the codec: a native block, which decodes back to the same kind and
    /// columns within the 128 MiB block limit, or the Parquet settings to write them with.
    pub fn encode(self, data: &Columns) -> (r: Result<Encoded, FormatError>)
        ensures
            r matches Ok(Encoded::Block(v)) ==> codec_encoded(self, data.kind, data.cols()) == Ok::<Option<Seq<u8>>, FormatError>(Some(v@)),
            r matches Ok(Encoded::Parquet(m)) ==> codec_encoded(self, data.kind, data.cols()) == Ok::<Option<Seq<u8>>, FormatError>(None)
                && parquet_mode_of(self) == Some(m),
            r matches Err(e) ==> codec_encoded(self, data.kind, data.cols()) == Err::<Option<Seq<u8>>, FormatError>(e),
            r matches Ok(Encoded::Block(v)) ==> (v@.len() <= 128 * 1024 * 1024 ==> codec_decoded(self, v@) == Ok::<
                Result<(Kind, Seq<Seq<i64>>), nat>,
                FormatError,
            >(Ok((data.kind, data.cols())))),
    {
        if self == Codec::AdaptiveSimd || self == Codec::AdaptiveSimdLz4 {
            return match crate::adaptive::encode(data, self == Codec::AdaptiveSimdLz4) {
                Ok(v) => Ok(Encoded::Block(v)),
                Err(e) => Err(e),
            };
        }
        if let Some(mode) = self.parquet_mode() {
            return match data.validate() {
                Ok(()) => Ok(Encoded::Parquet(mode)),
                Err(e) => Err(e),
            };
        }
        let layout = match self {
            Codec::ColumnLz4 => Layout::Raw,
            Codec::DeltaVarintLz4 => Layout::Varint,
            _ => Layout::Bitpack,
        };
        match crate::block::encode(data, layout) {
            Ok(v) => Ok(Encoded::Block(v)),
            Err(e) => Err(e),
        }
    }

    pub fn decode(self, input: &[u8]) -> (r: Result<Decoded, FormatError>)
        ensures
            r matches Ok(Decoded::Columns(c)) ==> codec_decoded(self, input@)
                == Ok::<Result<(Kind, Seq<Seq<i64>>), nat>, FormatError>(Ok((c.kind, c.cols()))),
            r matches Ok(Decoded::Parquet(n)) ==> codec_decoded(self, input@)
                == Ok::<Result<(Kind, Seq<Seq<i64>>), nat>, FormatError>(Err(n as nat)),
            r matches Err(e) ==> codec_decoded(self, input@) == Err::<Result<(Kind, Seq<Seq<i64>>), nat>, FormatError>(e),
    {
        if self == Codec::AdaptiveSimd || self == Codec::AdaptiveSimdLz4 {
            return match crate::adaptive::decode(input) {
                Ok(c) => Ok(Decoded::Columns(c)),
                Err(e) => Err(e),
            };
        }
        if self.is_parquet() {
            return match checked_envelope(input) {
                Ok(n) => Ok(Decoded::Parquet(n)),
                Err(e) => Err(e),
            };
        }
        match crate::block::decode(input) {
            Ok(c) => Ok(Decoded::Columns(c)),
            Err(e) => Err(e),
        }
    }

    /// The framing bytes of a native codec's block, a constant; `None` for Parquet, whose
    /// framing is read from the file's metadata.
    pub fn native_framing_bytes(self) -> (r: Option<usize>)
        ensures
            is_adaptive(self) ==> r == Some((16 + 44 * 8 + 4) as usize),
            parquet_mode_of(self) is Some ==> r is None,
            !is_adaptive(self) && parquet_mode_of(self) is None ==> r == Some((16 + 8 * 8 + 4) as usize),
    {
        if self == Codec::AdaptiveSimd || self == Codec::AdaptiveSimdLz4 {
            return Some(crate::adaptive::framing_bytes());
        }
        if self.is_parquet() {
            None
        } else {
            Some(crate::block::framing_bytes())
        }
    }
}

} // verus!
