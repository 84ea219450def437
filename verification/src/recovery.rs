//! The decisions of a scan that recovers the blocks of a segment without its index: frame by
//! frame, what the next frame is taken for, and whether a decoded block agrees with what its
//! frame recorded. The scan's reading and decoding are the caller's.
use crate::index::{texts, BlockInfo};
use crate::segment::{frame_magic, FrameKind, MAX_BLOCKS};
use crate::text::text_equal;
use vstd::prelude::*;

verus! {

/// What the scan does next.
#[derive(Clone, Copy, Debug, PartialEq, Eq, Structural)]
pub enum RecoveryStep {
    /// The index frame was reached: the scan ends.
    Done,
    /// A block frame whose payload is to be decoded.
    Decode,
}

/// Why a scan stops on a frame.
#[derive(Clone, Copy, Debug, PartialEq, Eq, Structural)]
pub enum RecoveryError {
    /// A frame that is neither a block nor the index, or a block past the block limit.
    UnknownFrameOrLimit,
    /// Block metadata that is not a block record.
    InvalidMetadata,
    /// Block metadata that records a frame length other than zero.
    InvalidMetadataLength,
    /// A block whose decoded statistics differ from what its frame recorded.
    MetadataMismatch,
}

/// The blocks accepted so far, and the end of the last of them.
#[derive(Clone, Debug)]
pub struct Recovery {
    pub blocks: Vec<BlockInfo>,
    pub valid_bytes: u64,
}

/// The next frame, by its magic and the block record of its metadata (`None` where that is not
/// a block record): the index frame ends the scan; any other frame must be a block within the
/// block limit whose record leaves its own length zero.
pub open spec fn frame_step(blocks: nat, magic: Seq<u8>, record: Option<BlockInfo>) -> Result<RecoveryStep, RecoveryError> {
    if magic == frame_magic(FrameKind::Index) {
        Ok(RecoveryStep::Done)
    } else if magic != frame_magic(FrameKind::Block) || blocks >= MAX_BLOCKS {
        Err(RecoveryError::UnknownFrameOrLimit)
    } else {
        match record {
            None => Err(RecoveryError::InvalidMetadata),
            Some(b) => if b.length != 0 {
                Err(RecoveryError::InvalidMetadataLength)
            } else {
                Ok(RecoveryStep::Decode)
            },
        }
    }
}

fn same_magic(a: &[u8; 8], b: &[u8; 8]) -> (r: bool)
    ensures
        r == (a@ == b@),
{
    let mut i: usize = 0;
    while i < 8
        invariant
            i <= 8,
            a@.len() == 8 && b@.len() == 8,
            forall|j: int| 0 <= j < i ==> a@[j] == b@[j],
        decreases 8 - i,
    {
        if a[i] != b[i] {
            return false;
        }
        i = i + 1;
    }
    assert(a@ =~= b@);
    true
}

/// Decides what the next frame of the scan is taken for.
pub fn recovery_frame(state: &Recovery, magic: &[u8; 8], record: &Option<BlockInfo>) -> (r: Result<RecoveryStep, RecoveryError>)
    ensures
        r == frame_step(state.blocks@.len(), magic@, *record),
{
    if same_magic(magic, &FrameKind::Index.magic()) {
        return Ok(RecoveryStep::Done);
    }
    if !same_magic(magic, &FrameKind::Block.magic()) || state.blocks.len() >= MAX_BLOCKS {
        return Err(RecoveryError::UnknownFrameOrLimit);
    }
    match record {
        None => Err(RecoveryError::InvalidMetadata),
        Some(b) => if b.length != 0 {
            Err(RecoveryError::InvalidMetadataLength)
        } else {
            Ok(RecoveryStep::Decode)
        },
    }
}

/// Two block records that agree field by field, the symbols as texts in order.
pub open spec fn same_block(a: BlockInfo, b: BlockInfo) -> bool {
    &&& a.offset == b.offset
    &&& a.length == b.length
    &&& a.rows == b.rows
    &&& a.min_time == b.min_time
    &&& a.max_time == b.max_time
    &&& texts(a.symbols@) == texts(b.symbols@)
}

fn same_symbols(a: &Vec<String>, b: &Vec<String>) -> (r: bool)
    ensures
        r == (texts(a@) == texts(b@)),
{
    if a.len() != b.len() {
        assert(texts(a@).len() != texts(b@).len());
        return false;
    }
    let mut i: usize = 0;
    while i < a.len()
        invariant
            i <= a@.len() == b@.len(),
            forall|j: int| 0 <= j < i ==> #[trigger] a@[j]@ == b@[j]@,
        decreases a@.len() - i,
    {
        if !text_equal(a[i].as_str(), b[i].as_str()) {
            assert(texts(a@)[i as int] != texts(b@)[i as int]);
            return false;
        }
        i = i + 1;
    }
    assert(texts(a@) =~= texts(b@));
    true
}

/// Accepts a decoded block: the record that its frame held, with the frame's length put in,
/// must agree with the statistics of the block as decoded at the scan's position; the block
/// is then added and the scan moves past its frame.
pub fn recovery_accept(state: &mut Recovery, record: BlockInfo, frame_length: u64, decoded: &BlockInfo) -> (r: Result<(), RecoveryError>)
    requires
        old(state).valid_bytes + frame_length <= u64::MAX,
    ensures
        ({
            let recorded = BlockInfo { length: frame_length, ..record };
            &&& same_block(recorded, *decoded) ==> r is Ok && final(state).blocks@ == old(state).blocks@.push(recorded)
                && final(state).valid_bytes == old(state).valid_bytes + frame_length
            &&& !same_block(recorded, *decoded) ==> r == Err::<(), RecoveryError>(RecoveryError::MetadataMismatch)
                && final(state).blocks@ == old(state).blocks@ && final(state).valid_bytes == old(state).valid_bytes
        }),
{
    let recorded = BlockInfo { length: frame_length, ..record };
    let same = recorded.offset == decoded.offset && recorded.length == decoded.length && recorded.rows == decoded.rows
        && recorded.min_time == decoded.min_time && recorded.max_time == decoded.max_time && same_symbols(
        &recorded.symbols,
        &decoded.symbols,
    );
    if !same {
        return Err(RecoveryError::MetadataMismatch);
    }
    state.blocks.push(recorded);
    state.valid_bytes = state.valid_bytes + frame_length;
    Ok(())
}

} // verus!
