//! Block statistics of a segment index: what they record, the checks an index must pass,
//! and which blocks and rows a query reads.
use crate::adaptive::min_of;
use crate::data::MAX_ROWS;
use crate::error::FormatError;
use crate::segment::{FRAME_BYTES, MAX_BLOCKS};
use crate::text::{lemma_text_less_facts, text_before, text_equal, text_less};
use vstd::prelude::*;

verus! {

/// One indexed block: where its frame lies, its rows, its time range and its symbols.
#[derive(Clone, Debug)]
pub struct BlockInfo {
    pub offset: u64,
    pub length: u64,
    pub rows: usize,
    pub min_time: i64,
    pub max_time: i64,
    pub symbols: Vec<String>,
}

impl BlockInfo {
    /// The symbols as texts.
    pub open spec fn symbol_texts(&self) -> Seq<Seq<char>> {
        texts(self.symbols@)
    }
}

/// Query counters: blocks read and their frame bytes.
#[derive(Clone, Copy, Debug)]
pub struct QueryStats {
    pub blocks_read: usize,
    pub bytes_read: u64,
}

impl Default for QueryStats {
    fn default() -> (r: QueryStats)
        ensures
            r.blocks_read == 0 && r.bytes_read == 0,
    {
        QueryStats { blocks_read: 0, bytes_read: 0 }
    }
}

/// Optional diagnostic timings of a read, in nanoseconds.
#[derive(Clone, Copy, Debug)]
pub struct ReadProfile {
    pub frame_and_metadata_ns: u128,
    pub decode_ns: u128,
    pub decoded_index_check_ns: u128,
}

impl Default for ReadProfile {
    fn default() -> (r: ReadProfile)
        ensures
            r.frame_and_metadata_ns == 0 && r.decode_ns == 0 && r.decoded_index_check_ns == 0,
    {
        ReadProfile { frame_and_metadata_ns: 0, decode_ns: 0, decoded_index_check_ns: 0 }
    }
}

/// The largest value, or zero for none.
pub open spec fn max_of(values: Seq<i64>) -> i64
    decreases values.len(),
{
    if values.len() == 0 {
        0
    } else if values.len() == 1 {
        values[0]
    } else {
        let m = max_of(values.drop_last());
        if values.last() > m {
            values.last()
        } else {
            m
        }
    }
}

/// The minimum and maximum of nonempty values bound every value and occur among them.
pub proof fn lemma_min_max(values: Seq<i64>)
    requires
        values.len() > 0,
    ensures
        forall|i: int| 0 <= i < values.len() ==> min_of(values) <= #[trigger] values[i] <= max_of(values),
        values.contains(min_of(values)),
        values.contains(max_of(values)),
    decreases values.len(),
{
    if values.len() > 1 {
        let p = values.drop_last();
        lemma_min_max(p);
        assert forall|i: int| 0 <= i < values.len() implies min_of(values) <= #[trigger] values[i] <= max_of(values) by {
            if i < p.len() {
                assert(p[i] == values[i]);
            }
        }
        if min_of(values) != values.last() {
            let j = choose|j: int| 0 <= j < p.len() && #[trigger] p[j] == min_of(p);
            assert(values[j] == min_of(values));
        }
        if max_of(values) != values.last() {
            let j = choose|j: int| 0 <= j < p.len() && #[trigger] p[j] == max_of(p);
            assert(values[j] == max_of(values));
        }
        assert(values[values.len() - 1] == values.last());
    } else {
        assert(values[0] == min_of(values));
    }
}

/// The texts of strings.
pub open spec fn texts(l: Seq<String>) -> Seq<Seq<char>> {
    l.map_values(|t: String| t@)
}

/// Texts in strictly increasing byte order.
pub open spec fn sorted_texts(l: Seq<Seq<char>>) -> bool {
    forall|i: int, j: int| 0 <= i < j < l.len() ==> text_less(#[trigger] l[i], #[trigger] l[j])
}

/// Two lists of texts with the same members.
pub open spec fn same_texts(a: Seq<Seq<char>>, b: Seq<Seq<char>>) -> bool {
    &&& forall|i: int| 0 <= i < a.len() ==> b.contains(#[trigger] a[i])
    &&& forall|i: int| 0 <= i < b.len() ==> a.contains(#[trigger] b[i])
}

/// Inserts a symbol into a sorted list of distinct symbols, unless it is there already.
fn insert_symbol(list: &mut Vec<String>, s: &String)
    requires
        sorted_texts(texts(old(list)@)),
    ensures
        sorted_texts(texts(final(list)@)),
        forall|x: Seq<char>| #[trigger] texts(final(list)@).contains(x) <==> (texts(old(list)@).contains(x)
            || x == s@),
{
    let ghost before = texts(list@);
    let mut k: usize = 0;
    while k < list.len() && text_before(list[k].as_str(), s.as_str())
        invariant
            k <= list@.len(),
            texts(list@) == before,
            forall|i: int| 0 <= i < k ==> text_less(#[trigger] before[i], s@),
        decreases list@.len() - k,
    {
        k = k + 1;
    }
    if k < list.len() && text_equal(list[k].as_str(), s.as_str()) {
        assert(before[k as int] == s@);
        assert forall|x: Seq<char>| before.contains(x) <==> (before.contains(x) || x == s@) by {
            if x == s@ {
                assert(before[k as int] == x);
            }
        }
        return;
    }
    proof {
        if k < before.len() {
            lemma_text_less_facts(before[k as int], s@, s@);
            assert(text_less(s@, before[k as int]));
        }
    }
    let copy = s.clone();
    list.insert(k, copy);
    proof {
        let after = texts(list@);
        assert(after =~= before.insert(k as int, s@));
        assert forall|i: int, j: int| 0 <= i < j < after.len() implies text_less(#[trigger] after[i], #[trigger] after[j]) by {
            if j < k {
                assert(after[i] == before[i] && after[j] == before[j]);
            } else if j == k {
                assert(after[i] == before[i]);
            } else if i > k {
                assert(after[i] == before[i - 1] && after[j] == before[j - 1]);
            } else if i == k {
                assert(after[j] == before[j - 1]);
                if j - 1 > k {
                    lemma_text_less_facts(s@, before[k as int], before[j - 1]);
                }
            } else {
                assert(after[i] == before[i] && after[j] == before[j - 1]);
                lemma_text_less_facts(before[i], s@, before[j - 1]);
                if j - 1 > k {
                    lemma_text_less_facts(s@, before[k as int], before[j - 1]);
                }
                lemma_text_less_facts(before[i], s@, before[j - 1]);
            }
        }
        assert forall|x: Seq<char>| after.contains(x) <==> (before.contains(x) || x == s@) by {
            if after.contains(x) {
                let i = choose|i: int| 0 <= i < after.len() && #[trigger] after[i] == x;
                if i < k {
                    assert(before[i] == x);
                } else if i > k {
                    assert(before[i - 1] == x);
                }
            }
            if before.contains(x) {
                let i = choose|i: int| 0 <= i < before.len() && #[trigger] before[i] == x;
                if i < k {
                    assert(after[i] == x);
                } else {
                    assert(after[i + 1] == x);
                }
            }
            if x == s@ {
                assert(after[k as int] == x);
            }
        }
    }
}

/// Statistics of a nonempty block from its time and symbol columns.
pub fn block_info(times: &[i64], symbols: &Vec<String>, offset: u64, length: u64) -> (r: Result<BlockInfo, FormatError>)
    requires
        times@.len() == symbols@.len(),
    ensures
        times@.len() == 0 ==> r == Err::<BlockInfo, FormatError>(FormatError::EmptyBlock),
        times@.len() > 0 ==> (r matches Ok(b) && {
            &&& b.offset == offset && b.length == length && b.rows == times@.len()
            &&& b.min_time == min_of(times@) && b.max_time == max_of(times@)
            &&& sorted_texts(b.symbol_texts())
            &&& same_texts(b.symbol_texts(), texts(symbols@))
        }),
{
    let n = times.len();
    if n == 0 {
        return Err(FormatError::EmptyBlock);
    }
    let ghost rows = texts(symbols@);
    let mut list: Vec<String> = Vec::new();
    let mut min = times[0];
    let mut max = times[0];
    let mut i: usize = 0;
    while i < n
        invariant
            n == times@.len() == symbols@.len() > 0,
            rows == texts(symbols@),
            i <= n,
            i > 0 ==> min == min_of(times@.take(i as int)) && max == max_of(times@.take(i as int)),
            i == 0 ==> min == times@[0] && max == times@[0],
            sorted_texts(texts(list@)),
            forall|x: Seq<char>| #[trigger] texts(list@).contains(x) <==> rows.take(i as int).contains(x),
        decreases n - i,
    {
        let t = times[i];
        if i > 0 {
            if t < min {
                min = t;
            }
            if t > max {
                max = t;
            }
        }
        proof {
            assert(times@.take(i + 1).drop_last() =~= times@.take(i as int));
        }
        let ghost old_list = texts(list@);
        if i == 0 || !text_equal(symbols[i - 1].as_str(), symbols[i].as_str()) {
            insert_symbol(&mut list, &symbols[i]);
        } else {
            proof {
                assert(rows[i - 1] == rows[i as int]);
                assert(rows.take(i as int).contains(rows[i as int])) by {
                    assert(rows.take(i as int)[i - 1] == rows[i as int]);
                }
            }
        }
        proof {
            let now = texts(list@);
            assert forall|x: Seq<char>| now.contains(x) <==> rows.take(i + 1).contains(x) by {
                if rows.take(i + 1).contains(x) {
                    let j = choose|j: int| 0 <= j < i + 1 && #[trigger] rows.take(i + 1)[j] == x;
                    if j < i {
                        assert(rows.take(i as int)[j] == x);
                    }
                }
                if rows.take(i as int).contains(x) {
                    let j = choose|j: int| 0 <= j < i && #[trigger] rows.take(i as int)[j] == x;
                    assert(rows.take(i + 1)[j] == x);
                }
                if x == rows[i as int] {
                    assert(rows.take(i + 1)[i as int] == x);
                }
            }
        }
        i = i + 1;
    }
    proof {
        assert(times@.take(n as int) =~= times@);
        assert(rows.take(n as int) =~= rows);
        let l = texts(list@);
        assert forall|j: int| 0 <= j < l.len() implies rows.contains(#[trigger] l[j]) by {
            assert(l.contains(l[j]));
        }
        assert forall|j: int| 0 <= j < rows.len() implies l.contains(#[trigger] rows[j]) by {
            assert(rows.contains(rows[j]));
        }
    }
    Ok(BlockInfo { offset, length, rows: n, min_time: min, max_time: max, symbols: list })
}

/// Statistics that can describe a block: rows within bounds, an ordered time range and
/// strictly increasing, nonempty symbols.
pub open spec fn stats_valid(b: BlockInfo) -> bool {
    &&& 0 < b.rows <= MAX_ROWS
    &&& b.min_time <= b.max_time
    &&& b.symbols@.len() > 0
    &&& forall|i: int| 0 <= i < b.symbols@.len() - 1 ==> text_less(#[trigger] b.symbol_texts()[i], b.symbol_texts()[i + 1])
}

/// The first problem of an index from block `i` on, the next frame expected at `pos`.
pub open spec fn index_error_from(blocks: Seq<BlockInfo>, i: nat, pos: nat, offset: nat) -> Option<FormatError>
    decreases blocks.len() - i,
{
    if i >= blocks.len() {
        if pos == offset {
            None
        } else {
            Some(FormatError::IndexOmitsBlocks)
        }
    } else {
        let b = blocks[i as int];
        if !(b.offset == pos && b.length >= FRAME_BYTES && b.length <= offset - pos) {
            Some(FormatError::NoncontiguousIndex)
        } else if !stats_valid(b) {
            Some(FormatError::InvalidIndexStats)
        } else {
            index_error_from(blocks, i + 1, (pos + b.length) as nat, offset)
        }
    }
}

/// The first problem of an index whose blocks start at `first` and whose frame is at `offset`:
/// too many blocks, blocks that do not tile the frames before it, or invalid statistics.
pub open spec fn index_error(blocks: Seq<BlockInfo>, first: nat, offset: nat) -> Option<FormatError> {
    if blocks.len() > MAX_BLOCKS {
        Some(FormatError::TooManyBlocks)
    } else {
        index_error_from(blocks, 0, first, offset)
    }
}

fn check_stats(b: &BlockInfo) -> (r: bool)
    ensures
        r == stats_valid(*b),
{
    if !(0 < b.rows && b.rows <= MAX_ROWS && b.min_time <= b.max_time && b.symbols.len() > 0) {
        return false;
    }
    let mut i: usize = 0;
    while i < b.symbols.len() - 1
        invariant
            b.symbols@.len() > 0,
            i + 1 <= b.symbols@.len(),
            forall|j: int| 0 <= j < i ==> text_less(#[trigger] b.symbol_texts()[j], b.symbol_texts()[j + 1]),
        decreases b.symbols@.len() - i,
    {
        if !text_before(b.symbols[i].as_str(), b.symbols[i + 1].as_str()) {
            assert(!text_less(b.symbol_texts()[i as int], b.symbol_texts()[i + 1]));
            return false;
        }
        i = i + 1;
    }
    true
}

/// Checks that an index tiles the frames from `first` to its own frame at `offset`.
pub fn check_index(blocks: &Vec<BlockInfo>, first: u64, offset: u64) -> (r: Result<(), FormatError>)
    requires
        first <= offset,
    ensures
        r matches Err(e) ==> index_error(blocks@, first as nat, offset as nat) == Some(e),
        r is Ok ==> index_error(blocks@, first as nat, offset as nat) is None,
{
    if blocks.len() > MAX_BLOCKS {
        return Err(FormatError::TooManyBlocks);
    }
    let mut pos: u64 = first;
    let mut i: usize = 0;
    while i < blocks.len()
        invariant
            i <= blocks@.len() <= MAX_BLOCKS,
            pos <= offset,
            index_error_from(blocks@, 0, first as nat, offset as nat) == index_error_from(blocks@, i as nat, pos as nat, offset as nat),
        decreases blocks@.len() - i,
    {
        let b = &blocks[i];
        if !(b.offset == pos && b.length >= 24 && b.length <= offset - pos) {
            return Err(FormatError::NoncontiguousIndex);
        }
        if !check_stats(b) {
            return Err(FormatError::InvalidIndexStats);
        }
        pos = pos + b.length;
        i = i + 1;
    }
    if pos != offset {
        return Err(FormatError::IndexOmitsBlocks);
    }
    Ok(())
}

/// Whether a block's statistics admit a row of `symbol` timed within `start..=end`.
pub open spec fn may_match(b: BlockInfo, symbol: Seq<char>, start: i64, end: i64) -> bool {
    !(b.max_time < start || b.min_time > end || !b.symbol_texts().contains(symbol))
}

/// Whether a row is selected: its time within `start..=end` and its symbol the one asked for.
pub open spec fn row_selected(time: i64, row_symbol: Seq<char>, symbol: Seq<char>, start: i64, end: i64) -> bool {
    start <= time <= end && row_symbol == symbol
}

/// The blocks from the first `n` that may match, by index.
pub open spec fn candidates(blocks: Seq<BlockInfo>, symbol: Seq<char>, start: i64, end: i64, n: nat) -> Seq<usize>
    decreases n,
{
    if n == 0 {
        Seq::empty()
    } else {
        let c = candidates(blocks, symbol, start, end, (n - 1) as nat);
        if may_match(blocks[n - 1], symbol, start, end) {
            c.push((n - 1) as usize)
        } else {
            c
        }
    }
}

/// The frame bytes of the first `n` blocks that may match.
pub open spec fn candidate_bytes(blocks: Seq<BlockInfo>, symbol: Seq<char>, start: i64, end: i64, n: nat) -> nat
    decreases n,
{
    if n == 0 {
        0
    } else {
        candidate_bytes(blocks, symbol, start, end, (n - 1) as nat) + if may_match(blocks[n - 1], symbol, start, end) {
            blocks[n - 1].length as nat
        } else {
            0
        }
    }
}

fn has_symbol(symbols: &Vec<String>, symbol: &str) -> (r: bool)
    ensures
        r == texts(symbols@).contains(symbol@),
{
    let mut i: usize = 0;
    while i < symbols.len()
        invariant
            i <= symbols@.len(),
            forall|j: int| 0 <= j < i ==> texts(symbols@)[j] != symbol@,
        decreases symbols@.len() - i,
    {
        if text_equal(symbols[i].as_str(), symbol) {
            assert(texts(symbols@)[i as int] == symbol@);
            return true;
        }
        i = i + 1;
    }
    false
}

/// The blocks that a query for `symbol` within `start..=end` reads, in index order, with the
/// counts of blocks and frame bytes that reading them costs.
pub fn plan_query(blocks: &Vec<BlockInfo>, symbol: &str, start: i64, end: i64) -> (r: Result<(Vec<usize>, QueryStats), FormatError>)
    requires
        candidate_bytes(blocks@, symbol@, start, end, blocks@.len()) <= u64::MAX,
    ensures
        start > end ==> r == Err::<(Vec<usize>, QueryStats), FormatError>(FormatError::ReversedRange),
        start <= end ==> (r matches Ok((v, stats)) && v@ == candidates(blocks@, symbol@, start, end, blocks@.len())
            && stats.blocks_read == v@.len() && stats.bytes_read == candidate_bytes(blocks@, symbol@, start, end, blocks@.len())),
{
    if start > end {
        return Err(FormatError::ReversedRange);
    }
    let mut chosen: Vec<usize> = Vec::new();
    let mut stats = QueryStats::default();
    let mut i: usize = 0;
    while i < blocks.len()
        invariant
            i <= blocks@.len(),
            chosen@ == candidates(blocks@, symbol@, start, end, i as nat),
            chosen@.len() <= i,
            stats.blocks_read == chosen@.len(),
            stats.bytes_read == candidate_bytes(blocks@, symbol@, start, end, i as nat),
            candidate_bytes(blocks@, symbol@, start, end, blocks@.len()) <= u64::MAX,
        decreases blocks@.len() - i,
    {
        proof {
            lemma_candidate_bytes_grow(blocks@, symbol@, start, end, (i + 1) as nat, blocks@.len());
        }
        let b = &blocks[i];
        if !(b.max_time < start || b.min_time > end || !has_symbol(&b.symbols, symbol)) {
            chosen.push(i);
            stats.blocks_read = stats.blocks_read + 1;
            stats.bytes_read = stats.bytes_read + b.length;
        }
        i = i + 1;
    }
    Ok((chosen, stats))
}

proof fn lemma_candidate_bytes_grow(blocks: Seq<BlockInfo>, symbol: Seq<char>, start: i64, end: i64, m: nat, n: nat)
    requires
        m <= n,
    ensures
        candidate_bytes(blocks, symbol, start, end, m) <= candidate_bytes(blocks, symbol, start, end, n),
    decreases n - m,
{
    if m < n {
        lemma_candidate_bytes_grow(blocks, symbol, start, end, m, (n - 1) as nat);
    }
}

/// Which rows of a block a query selects, in row order: a mask over the rows, or `None` where
/// no row is selected and the block adds no batch to the result.
pub fn query_mask(times: &[i64], symbols: &Vec<String>, symbol: &str, start: i64, end: i64) -> (r: Option<Vec<bool>>)
    requires
        times@.len() == symbols@.len(),
    ensures
        r is None <==> forall|j: int| 0 <= j < times@.len() ==> !#[trigger] row_selected(times@[j], texts(symbols@)[j], symbol@, start, end),
        r matches Some(m) ==> m@.len() == times@.len() && forall|j: int| 0 <= j < m@.len() ==> #[trigger] m@[j] == row_selected(times@[j], texts(symbols@)[j], symbol@, start, end),
        r matches Some(m) ==> forall|j: int|
            0 <= j < times@.len() ==> (#[trigger] m@[j] <==> (symbols@[j]@ == symbol@ && start <= times@[j] && times@[j] <= end)),
        r is None ==> forall|j: int|
            0 <= j < times@.len() ==> !(#[trigger] symbols@[j]@ == symbol@ && start <= times@[j] && times@[j] <= end),
{
    let mut mask: Vec<bool> = Vec::new();
    let mut any = false;
    let mut j: usize = 0;
    while j < times.len()
        invariant
            j <= times@.len() == symbols@.len(),
            mask@.len() == j,
            forall|k: int| 0 <= k < j ==> #[trigger] mask@[k] == row_selected(times@[k], texts(symbols@)[k], symbol@, start, end),
            any == exists|k: int| 0 <= k < j && #[trigger] mask@[k],
        decreases times@.len() - j,
    {
        let t = times[j];
        let selected = t >= start && t <= end && text_equal(symbols[j].as_str(), symbol);
        let ghost before = mask@;
        mask.push(selected);
        assert(forall|k: int| 0 <= k < j ==> mask@[k] == before[k]);
        assert(mask@[j as int] == selected);
        proof {
            if any {
                let k = choose|k: int| 0 <= k < j && #[trigger] before[k];
                assert(mask@[k]);
            }
        }
        any = any || selected;
        j = j + 1;
    }
    proof {
        lemma_texts_index(symbols@);
    }
    if any {
        Some(mask)
    } else {
        assert forall|k: int| 0 <= k < times@.len() implies !#[trigger] row_selected(times@[k], texts(symbols@)[k], symbol@, start, end) by {
            assert(!mask@[k]);
        }
        assert forall|k: int| 0 <= k < times@.len() implies !(#[trigger] symbols@[k]@ == symbol@ && start <= times@[k] && times@[k] <= end) by {
            assert(!mask@[k]);
            assert(texts(symbols@)[k] == symbols@[k]@);
        }
        None
    }
}

/// A query that skips a block loses no rows: where a block's statistics rule out a match,
/// none of its rows is selected.
pub proof fn lemma_skipped_blocks_hold_no_selected_rows(
    b: BlockInfo,
    times: Seq<i64>,
    row_symbols: Seq<Seq<char>>,
    symbol: Seq<char>,
    start: i64,
    end: i64,
)
    requires
        times.len() == row_symbols.len(),
        times.len() > 0,
        b.min_time == min_of(times),
        b.max_time == max_of(times),
        same_texts(b.symbol_texts(), row_symbols),
        !may_match(b, symbol, start, end),
    ensures
        forall|j: int| 0 <= j < times.len() ==> !row_selected(#[trigger] times[j], row_symbols[j], symbol, start, end),
{
    lemma_min_max(times);
    assert forall|j: int| 0 <= j < times.len() implies !row_selected(#[trigger] times[j], row_symbols[j], symbol, start, end) by {
        if row_selected(times[j], row_symbols[j], symbol, start, end) {
            assert(b.symbol_texts().contains(row_symbols[j]));
        }
    }
}

proof fn lemma_texts_index(l: Seq<String>)
    ensures
        forall|j: int| 0 <= j < l.len() ==> #[trigger] texts(l)[j] == l[j]@,
{
}

/// Query ranges are inclusive at both ends: a row is selected exactly when its symbol is the
/// queried one and `start <= time <= end`. In particular the rows at `start` and at `end` are
/// selected, and a range with `start == end` selects the rows at that instant.
pub proof fn lemma_query_range_is_inclusive(time: i64, row_symbol: Seq<char>, symbol: Seq<char>, start: i64, end: i64)
    ensures
        row_selected(time, row_symbol, symbol, start, end) <==> (row_symbol == symbol && start <= time && time <= end),
        start <= end ==> row_selected(start, symbol, symbol, start, end) && row_selected(end, symbol, symbol, start, end),
        row_selected(time, symbol, symbol, time, time),
{
}

} // verus!
