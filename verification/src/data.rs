//! Deterministic integer fixtures. L2 fixtures are records, not exchange-valid books.
use crate::error::FormatError;
use crate::le::le64;
use crate::wrappers::{ascii_chars, ascii_string, sha256, sha256_of};
use vstd::prelude::*;
use vstd::wrapping::u64_specs;

verus! {

pub const MAX_ROWS: usize = 1_048_576;

#[derive(Clone, Copy, Debug, PartialEq, Eq, Structural)]
pub enum Kind {
    Quote,
    Trade,
    L2,
}

/// The stored schema id of each kind.
pub open spec fn kind_id(kind: Kind) -> u8 {
    match kind {
        Kind::Quote => 1,
        Kind::Trade => 2,
        Kind::L2 => 3,
    }
}

/// The kind with a stored schema id.
pub open spec fn kind_of_id(id: u8) -> Option<Kind> {
    if id == 1 {
        Some(Kind::Quote)
    } else if id == 2 {
        Some(Kind::Trade)
    } else if id == 3 {
        Some(Kind::L2)
    } else {
        None
    }
}

/// The column names of each kind: four shared timing/sequence columns, then four of its own.
pub open spec fn kind_names(kind: Kind) -> Seq<Seq<char>> {
    let tail = match kind {
        Kind::Quote => seq!["bid"@, "ask"@, "bid_quantity"@, "ask_quantity"@],
        Kind::Trade => seq!["trade_id"@, "price"@, "quantity"@, "side"@],
        Kind::L2 => seq!["price"@, "quantity"@, "side"@, "action"@],
    };
    seq!["exchange_ns"@, "receive_ns"@, "ingest_sequence"@, "source_sequence"@] + tail
}

impl Kind {
    pub fn all() -> (r: [Kind; 3])
        ensures
            r@ == seq![Kind::Quote, Kind::Trade, Kind::L2],
    {
        [Kind::Quote, Kind::Trade, Kind::L2]
    }

    pub fn id(self) -> (r: u8)
        ensures
            r == kind_id(self),
    {
        match self {
            Kind::Quote => 1,
            Kind::Trade => 2,
            Kind::L2 => 3,
        }
    }

    pub fn from_id(id: u8) -> (r: Result<Kind, FormatError>)
        ensures
            kind_of_id(id) matches Some(k) ==> r == Ok::<Kind, FormatError>(k),
            kind_of_id(id) is None ==> r == Err::<Kind, FormatError>(FormatError::UnknownSchema),
    {
        match id {
            1 => Ok(Kind::Quote),
            2 => Ok(Kind::Trade),
            3 => Ok(Kind::L2),
            _ => Err(FormatError::UnknownSchema),
        }
    }

    pub fn names(self) -> (r: [&'static str; 8])
        ensures
            r@.map_values(|s: &str| s@) == kind_names(self),
    {
        let tail = match self {
            Kind::Quote => ["bid", "ask", "bid_quantity", "ask_quantity"],
            Kind::Trade => ["trade_id", "price", "quantity", "side"],
            Kind::L2 => ["price", "quantity", "side", "action"],
        };
        let r = ["exchange_ns", "receive_ns", "ingest_sequence", "source_sequence", tail[0], tail[1], tail[2], tail[3]];
        assert(r@.map_values(|s: &str| s@) =~= kind_names(self));
        r
    }
}

#[derive(Clone, Copy, Debug, PartialEq, Eq, Structural)]
pub enum Regime {
    Quiet,
    Volatile,
}

impl Regime {
    pub fn all() -> (r: [Regime; 2])
        ensures
            r@ == seq![Regime::Quiet, Regime::Volatile],
    {
        [Regime::Quiet, Regime::Volatile]
    }
}

/// Schema v1 fixes synthetic venue/instrument/session labels and decimal scales.
/// These blocks are fixtures, not an arbitrary real-world ingestion format.
#[derive(Clone, Debug, PartialEq, Eq)]
pub struct Columns {
    pub kind: Kind,
    pub values: Vec<Vec<i64>>,
}

/// The rows of a set of columns: the length of the first column, or zero.
pub open spec fn rows_of(cols: Seq<Seq<i64>>) -> nat {
    if cols.len() == 0 {
        0
    } else {
        cols[0].len()
    }
}

/// Why a set of columns does not fit the fixed schema, checked in this order.
pub open spec fn columns_error(cols: Seq<Seq<i64>>) -> Option<FormatError> {
    if cols.len() != 8 {
        Some(FormatError::WrongColumnCount)
    } else if rows_of(cols) > MAX_ROWS {
        Some(FormatError::TooManyRows)
    } else if exists|i: int| 0 <= i < cols.len() && #[trigger] cols[i].len() != rows_of(cols) {
        Some(FormatError::RaggedColumns)
    } else {
        None
    }
}

/// The little-endian bytes of each value in turn.
pub open spec fn le64_concat(values: Seq<i64>) -> Seq<u8>
    decreases values.len(),
{
    if values.len() == 0 {
        Seq::empty()
    } else {
        le64_concat(values.drop_last()) + le64(values.last() as u64)
    }
}

/// The bytes of each column's values, column after column.
pub open spec fn columns_bytes(cols: Seq<Seq<i64>>) -> Seq<u8>
    decreases cols.len(),
{
    if cols.len() == 0 {
        Seq::empty()
    } else {
        columns_bytes(cols.drop_last()) + le64_concat(cols.last())
    }
}

/// The bytes that a fixture's digest covers: schema id, row count and every value.
pub open spec fn digest_message(kind: Kind, cols: Seq<Seq<i64>>) -> Seq<u8> {
    seq![kind_id(kind)] + le64(rows_of(cols) as u64) + columns_bytes(cols)
}

/// The lowercase hexadecimal digit for a nibble.
pub open spec fn hex_digit(n: int) -> u8 {
    if n < 10 {
        (48 + n) as u8
    } else {
        (87 + n) as u8
    }
}

/// Two lowercase hexadecimal digits per byte, high nibble first.
pub open spec fn hex_bytes(bytes: Seq<u8>) -> Seq<u8>
    decreases bytes.len(),
{
    if bytes.len() == 0 {
        Seq::empty()
    } else {
        hex_bytes(bytes.drop_last()) + seq![hex_digit((bytes.last() / 16) as int), hex_digit((bytes.last() % 16) as int)]
    }
}

pub fn push_le64_values(out: &mut Vec<u8>, values: &Vec<i64>)
    ensures
        final(out)@ == old(out)@ + le64_concat(values@),
{
    let mut i: usize = 0;
    while i < values.len()
        invariant
            i <= values@.len(),
            out@ == old(out)@ + le64_concat(values@.subrange(0, i as int)),
        decreases values@.len() - i,
    {
        let ghost before = out@;
        crate::le::push_u64(out, values[i] as u64);
        proof {
            let next = values@.subrange(0, i + 1);
            assert(next.drop_last() =~= values@.subrange(0, i as int));
            assert(out@ =~= old(out)@ + le64_concat(next));
        }
        i = i + 1;
    }
    assert(values@.subrange(0, values@.len() as int) =~= values@);
}

impl Columns {
    /// The values, column by column.
    pub open spec fn cols(self) -> Seq<Seq<i64>> {
        self.values@.map_values(|v: Vec<i64>| v@)
    }

    pub fn rows(&self) -> (r: usize)
        ensures
            r == rows_of(self.cols()),
    {
        if self.values.len() == 0 {
            0
        } else {
            self.values[0].len()
        }
    }

    pub fn validate(&self) -> (r: Result<(), FormatError>)
        ensures
            columns_error(self.cols()) matches Some(e) ==> r == Err::<(), FormatError>(e),
            columns_error(self.cols()) is None ==> r is Ok,
    {
        if self.values.len() != 8 {
            return Err(FormatError::WrongColumnCount);
        }
        let rows = self.rows();
        if rows > MAX_ROWS {
            return Err(FormatError::TooManyRows);
        }
        let mut i: usize = 0;
        while i < 8
            invariant
                i <= 8,
                self.values@.len() == 8,
                rows == rows_of(self.cols()),
                rows <= MAX_ROWS,
                forall|j: int| 0 <= j < i ==> #[trigger] self.cols()[j].len() == rows,
            decreases 8 - i,
        {
            if self.values[i].len() != rows {
                assert(self.cols().len() == 8);
                assert(self.cols()[i as int].len() != rows_of(self.cols()));
                assert(columns_error(self.cols()) == Some(FormatError::RaggedColumns));
                return Err(FormatError::RaggedColumns);
            }
            i = i + 1;
        }
        Ok(())
    }

    pub fn raw_bytes(&self) -> (r: usize)
        requires
            rows_of(self.cols()) * self.values@.len() * 8 <= usize::MAX,
        ensures
            r == rows_of(self.cols()) * self.values@.len() * 8,
    {
        self.rows() * self.values.len() * 8
    }

    /// Lowercase hexadecimal SHA-256 over the schema id, the row count and every value.
    pub fn digest(&self) -> (r: String)
        ensures
            r@ == ascii_chars(hex_bytes(sha256_of(digest_message(self.kind, self.cols())))),
    {
        let mut message: Vec<u8> = Vec::new();
        message.push(self.kind.id());
        crate::le::push_u64(&mut message, self.rows() as u64);
        let mut c: usize = 0;
        while c < self.values.len()
            invariant
                c <= self.values@.len(),
                message@ == seq![kind_id(self.kind)] + le64(rows_of(self.cols()) as u64)
                    + columns_bytes(self.cols().subrange(0, c as int)),
            decreases self.values@.len() - c,
        {
            push_le64_values(&mut message, &self.values[c]);
            proof {
                let next = self.cols().subrange(0, c + 1);
                assert(next.drop_last() =~= self.cols().subrange(0, c as int));
                assert(next.last() == self.values@[c as int]@);
            }
            c = c + 1;
        }
        assert(self.cols().subrange(0, self.values@.len() as int) =~= self.cols());
        digest_hex(message.as_slice())
    }
}

/// The lowercase hexadecimal SHA-256 of bytes.
pub fn digest_hex(bytes: &[u8]) -> (r: String)
    ensures
        r@ == ascii_chars(hex_bytes(sha256_of(bytes@))),
{
    let digest = sha256(bytes);
    let hex = hex_of(&digest);
    ascii_string(hex)
}

fn hex_nibble(n: u8) -> (r: u8)
    requires
        n < 16,
    ensures
        r == hex_digit(n as int),
        r < 128,
{
    if n < 10 {
        48 + n
    } else {
        87 + n
    }
}

pub(crate) fn hex_of(bytes: &Vec<u8>) -> (r: Vec<u8>)
    ensures
        r@ == hex_bytes(bytes@),
        forall|i: int| 0 <= i < r@.len() ==> r@[i] < 128,
{
    let mut out: Vec<u8> = Vec::new();
    let mut i: usize = 0;
    while i < bytes.len()
        invariant
            i <= bytes@.len(),
            out@ == hex_bytes(bytes@.subrange(0, i as int)),
            forall|j: int| 0 <= j < out@.len() ==> out@[j] < 128,
        decreases bytes@.len() - i,
    {
        let b = bytes[i];
        out.push(hex_nibble(b / 16));
        out.push(hex_nibble(b % 16));
        proof {
            let next = bytes@.subrange(0, i + 1);
            assert(next.drop_last() =~= bytes@.subrange(0, i as int));
        }
        i = i + 1;
    }
    assert(bytes@.subrange(0, bytes@.len() as int) =~= bytes@);
    out
}


/// SplitMix64; fixed algorithm makes datasets reproducible across platforms.
pub struct Rng(u64);

/// The state after one SplitMix64 step.
pub open spec fn splitmix_next(state: u64) -> u64 {
    u64_specs::wrapping_add(state, 0x9e3779b97f4a7c15)
}

/// The SplitMix64 output mixing of a state.
#[verifier::opaque]
pub open spec fn splitmix_mix(z: u64) -> u64 {
    let z1 = u64_specs::wrapping_mul(z ^ (z >> 30u64), 0xbf58476d1ce4e5b9);
    let z2 = u64_specs::wrapping_mul(z1 ^ (z1 >> 27u64), 0x94d049bb133111eb);
    z2 ^ (z2 >> 31u64)
}

/// The value drawn from a generator in `state`.
pub open spec fn splitmix_output(state: u64) -> u64 {
    splitmix_mix(splitmix_next(state))
}

impl Rng {
    pub closed spec fn state(self) -> u64 {
        self.0
    }

    pub fn new(seed: u64) -> (r: Self)
        ensures
            r.state() == seed,
    {
        Rng(seed)
    }

    pub fn draw(&mut self) -> (r: u64)
        ensures
            final(self).state() == splitmix_next(old(self).state()),
            r == splitmix_output(old(self).state()),
    {
        reveal(splitmix_mix);
        self.0 = self.0.wrapping_add(0x9e3779b97f4a7c15);
        let mut z = self.0;
        z = (z ^ (z >> 30u64)).wrapping_mul(0xbf58476d1ce4e5b9);
        z = (z ^ (z >> 27u64)).wrapping_mul(0x94d049bb133111eb);
        z ^ (z >> 31u64)
    }
}

/// The state of a generator seeded with `seed` after `k` draws.
pub open spec fn state_after(seed: u64, k: nat) -> u64
    decreases k,
{
    if k == 0 {
        seed
    } else {
        splitmix_next(state_after(seed, (k - 1) as nat))
    }
}

proof fn lemma_state_after_mod(seed: u64, k: nat)
    ensures
        state_after(seed, k) as int == (seed + k * 0x9e3779b97f4a7c15) % 0x1_0000_0000_0000_0000,
    decreases k,
{
    let m: int = 0x1_0000_0000_0000_0000;
    let g: int = 0x9e3779b97f4a7c15;
    if k == 0 {
        vstd::arithmetic::div_mod::lemma_small_mod(seed as nat, m as nat);
    } else {
        lemma_state_after_mod(seed, (k - 1) as nat);
        let prev = state_after(seed, (k - 1) as nat);
        assert(splitmix_next(prev) as int == (prev + g) % m) by {
            if prev + g >= m {
                vstd::arithmetic::div_mod::lemma_mod_add_multiples_vanish((prev + g - m) as int, m);
                vstd::arithmetic::div_mod::lemma_small_mod((prev + g - m) as nat, m as nat);
            } else {
                vstd::arithmetic::div_mod::lemma_small_mod((prev + g) as nat, m as nat);
            }
        }
        vstd::arithmetic::div_mod::lemma_add_mod_noop(seed + (k - 1) * g, g, m);
        vstd::arithmetic::div_mod::lemma_mod_twice(seed + (k - 1) * g, m);
        vstd::arithmetic::div_mod::lemma_small_mod(g as nat, m as nat);
        assert(seed + (k - 1) * g + g == seed + k * g) by (nonlinear_arith);
    }
}

/// The `k`-th draw (from one) of a generator made by `Rng::new(seed)` is the SplitMix64 mix of
/// `seed + k * 0x9e3779b97f4a7c15`, wrapping: the sequence depends on the seed alone.
pub proof fn lemma_kth_draw(seed: u64, k: nat)
    requires
        k >= 1,
    ensures
        splitmix_output(state_after(seed, (k - 1) as nat)) == splitmix_mix(u64_specs::wrapping_add(
            seed,
            u64_specs::wrapping_mul(0x9e3779b97f4a7c15, (k % 0x1_0000_0000_0000_0000) as u64),
        )),
{
    let m: int = 0x1_0000_0000_0000_0000;
    let g: int = 0x9e3779b97f4a7c15;
    lemma_state_after_mod(seed, k);
    assert(state_after(seed, k) == splitmix_next(state_after(seed, (k - 1) as nat)));
    let kk = (k % 0x1_0000_0000_0000_0000) as u64;
    let w = u64_specs::wrapping_mul(0x9e3779b97f4a7c15, kk);
    assert(w as int == (g * k) % m) by {
        vstd::arithmetic::div_mod::lemma_mod_bound(k as int, m);
        vstd::arithmetic::div_mod::lemma_mul_mod_noop_right(g, k as int, m);
        vstd::arithmetic::div_mod::lemma_mod_bound(g * kk, m);
    }
    let t = u64_specs::wrapping_add(seed, w);
    assert(t as int == (seed + w) % m) by {
        if seed + w >= m {
            vstd::arithmetic::div_mod::lemma_mod_add_multiples_vanish((seed + w - m) as int, m);
            vstd::arithmetic::div_mod::lemma_small_mod((seed + w - m) as nat, m as nat);
        } else {
            vstd::arithmetic::div_mod::lemma_small_mod((seed + w) as nat, m as nat);
        }
    }
    vstd::arithmetic::div_mod::lemma_add_mod_noop_right(seed as int, g * k, m);
    assert(g * k == k * g) by (nonlinear_arith);
    assert(t == state_after(seed, k));
}

/// The generator state between rows: random state, running receive time and price,
/// and the eight columns so far.
pub struct GenState {
    pub rng: u64,
    pub receive: int,
    pub price: int,
    pub cols: Seq<Seq<i64>>,
}

pub open spec fn gen_start(seed: u64) -> GenState {
    GenState {
        rng: seed,
        receive: 1_780_000_000_000_000_000,
        price: 6_000_000,
        cols: Seq::new(8, |i: int| Seq::<i64>::empty()),
    }
}

/// The fields of one fixture row and the generator state after it.
pub struct RowDraw {
    pub values: Seq<int>,
    pub rng: u64,
    pub receive: int,
    pub price: int,
}

/// The shared part of a row: times, price and quantity steps, side; then `tail_draw`.
/// Draws happen in a fixed order, so every field is a function of the seed and earlier rows.
#[verifier::opaque]
pub open spec fn row_draw(
    kind: Kind,
    regime: Regime,
    row: int,
    r0: u64,
    receive0: int,
    price0: int,
    previous_exchange: int,
) -> RowDraw {
    let v = regime == Regime::Volatile;
    let (step, r1) = if v {
        ((splitmix_output(r0) % 2_000_001) as int, splitmix_next(r0))
    } else {
        (1_000_000int, r0)
    };
    let receive = receive0 + step;
    let late = if v && row % 97 == 0 { 10_000_000int } else { 0int };
    let (jitter, r2) = if v {
        ((splitmix_output(r1) % 200_000) as int, splitmix_next(r1))
    } else {
        (0int, r1)
    };
    let fresh = receive - 100_000 - late - jitter;
    let exchange = if row > 0 && row % 13 == 0 { previous_exchange } else { fresh };
    let dp = if v {
        (splitmix_output(r2) % 2001) as int - 1000
    } else {
        (splitmix_output(r2) % 3) as int - 1
    };
    let r3 = splitmix_next(r2);
    let price = price0 + dp;
    let qty = if v {
        (splitmix_output(r3) % 1_000_000) as int
    } else {
        ((splitmix_output(r3) % 8 + 1) * 100) as int
    };
    let r4 = splitmix_next(r3);
    let side = (splitmix_output(r4) % 2) as int;
    let r5 = splitmix_next(r4);
    let source_seq = if v { row % 32_768 } else { row };
    let (tail, r6) = tail_draw(kind, v, row, r5, price, qty, side);
    RowDraw { values: seq![exchange, receive, row, source_seq] + tail, rng: r6, receive, price }
}

/// The four kind-specific fields of a row and the random state after them.
#[verifier::opaque]
pub open spec fn tail_draw(kind: Kind, v: bool, row: int, r5: u64, price: int, qty: int, side: int) -> (Seq<int>, u64) {
    match kind {
        Kind::Quote => {
            let (ask_add, ra) = if v {
                ((splitmix_output(r5) % 50 + 1) as int, splitmix_next(r5))
            } else {
                (2int, r5)
            };
            let qty_add = (splitmix_output(ra) % 8) as int;
            (seq![price, price + ask_add, qty, qty + qty_add], splitmix_next(ra))
        },
        Kind::Trade => (seq![row + 5_000_000, price, qty, side], r5),
        Kind::L2 => {
            let spread = (splitmix_output(r5) % (if v { 2000u64 } else { 20u64 })) as int;
            (
                seq![
                    price + spread,
                    if row % 11 == 0 { 0int } else { qty },
                    side,
                    if row % 11 == 0 { 2int } else { 1int },
                ],
                splitmix_next(r5),
            )
        },
    }
}

/// One fixture row appended to the generator state.
pub open spec fn gen_row(kind: Kind, regime: Regime, row: int, st: GenState) -> GenState {
    let previous = if row > 0 { st.cols[0][row - 1] as int } else { 0 };
    let d = row_draw(kind, regime, row, st.rng, st.receive, st.price, previous);
    GenState {
        rng: d.rng,
        receive: d.receive,
        price: d.price,
        cols: Seq::new(8, |i: int| st.cols[i].push(d.values[i] as i64)),
    }
}

/// The generator state after `n` rows.
pub open spec fn gen_rows(kind: Kind, regime: Regime, seed: u64, n: nat) -> GenState
    decreases n,
{
    if n == 0 {
        gen_start(seed)
    } else {
        gen_row(kind, regime, n - 1, gen_rows(kind, regime, seed, (n - 1) as nat))
    }
}

/// Receive time and price drift by bounded steps, so no value leaves `i64`.
pub proof fn lemma_gen_bounds(kind: Kind, regime: Regime, seed: u64, n: nat)
    ensures
        ({
            let st = gen_rows(kind, regime, seed, n);
            &&& 1_780_000_000_000_000_000 <= st.receive <= 1_780_000_000_000_000_000 + 2_000_000 * n
            &&& 6_000_000 - 1000 * n <= st.price <= 6_000_000 + 1000 * n
            &&& st.cols.len() == 8
            &&& forall|i: int| 0 <= i < 8 ==> #[trigger] st.cols[i].len() == n
        }),
    decreases n,
{
    if n > 0 {
        lemma_gen_bounds(kind, regime, seed, (n - 1) as nat);
        let st = gen_rows(kind, regime, seed, (n - 1) as nat);
        let previous = if n - 1 > 0 { st.cols[0][n - 2] as int } else { 0 };
        lemma_gen_next(kind, regime, seed, (n - 1) as nat);
        lemma_row_shape(kind, regime, n - 1, st.rng, st.receive, st.price, previous);
        reveal(row_draw);
    }
}

/// The columns after one more row are the columns before it, each with its field appended.
proof fn lemma_gen_next(kind: Kind, regime: Regime, seed: u64, row: nat)
    ensures
        ({
            let st = gen_rows(kind, regime, seed, row);
            let nx = gen_rows(kind, regime, seed, row + 1);
            let previous = if row > 0 { st.cols[0][row - 1] as int } else { 0 };
            let d = row_draw(kind, regime, row as int, st.rng, st.receive, st.price, previous);
            &&& nx.rng == d.rng
            &&& nx.receive == d.receive
            &&& nx.price == d.price
            &&& forall|i: int| 0 <= i < 8 ==> #[trigger] nx.cols[i] == st.cols[i].push(d.values[i] as i64)
        }),
{
    assert(gen_rows(kind, regime, seed, row + 1) == gen_row(kind, regime, row as int, gen_rows(kind, regime, seed, row)));
}

/// Every row has eight fields, the third being the row index and the fourth the source sequence.
proof fn lemma_row_shape(kind: Kind, regime: Regime, row: int, r0: u64, receive0: int, price0: int, previous: int)
    ensures
        ({
            let d = row_draw(kind, regime, row, r0, receive0, price0, previous);
            &&& d.values.len() == 8
            &&& d.values[1] == d.receive
            &&& d.values[2] == row
            &&& d.values[3] == if regime == Regime::Volatile { row % 32_768 } else { row }
        }),
{
    reveal(row_draw);
    reveal(tail_draw);
}

fn draw_mod(rng: &mut Rng, m: u64) -> (r: u64)
    requires
        m > 0,
    ensures
        final(rng).state() == splitmix_next(old(rng).state()),
        r == splitmix_output(old(rng).state()) % m,
{
    rng.draw() % m
}

/// One row of draws: the exchange time and the four kind-specific fields, with the
/// running receive time, price and random state advanced as `row_draw` says.
#[verifier::rlimit(40)]
fn next_row(
    kind: Kind,
    volatile: bool,
    row: usize,
    rng: &mut Rng,
    receive: &mut i64,
    price: &mut i64,
    previous: i64,
) -> (r: (i64, i64, i64, i64, i64))
    requires
        row < MAX_ROWS,
        1_780_000_000_000_000_000 <= *old(receive) <= 1_780_000_000_000_000_000 + 2_000_000 * row,
        6_000_000 - 1000 * row <= *old(price) <= 6_000_000 + 1000 * row,
    ensures
        ({
            let regime = if volatile { Regime::Volatile } else { Regime::Quiet };
            let d = row_draw(kind, regime, row as int, old(rng).state(), *old(receive) as int, *old(price) as int, previous as int);
            &&& final(rng).state() == d.rng
            &&& *final(receive) == d.receive
            &&& *final(price) == d.price
            &&& r.0 == d.values[0] && r.1 == d.values[4] && r.2 == d.values[5]
            &&& r.3 == d.values[6] && r.4 == d.values[7]
        }),
{
    reveal(row_draw);
    let step: i64 = if volatile { draw_mod(rng, 2_000_001) as i64 } else { 1_000_000 };
    *receive = *receive + step;
    let late: i64 = if volatile && row % 97 == 0 { 10_000_000 } else { 0 };
    let jitter: i64 = if volatile { draw_mod(rng, 200_000) as i64 } else { 0 };
    let fresh = *receive - 100_000 - late - jitter;
    let exchange = if row > 0 && row % 13 == 0 { previous } else { fresh };
    let dp: i64 = if volatile {
        draw_mod(rng, 2001) as i64 - 1000
    } else {
        draw_mod(rng, 3) as i64 - 1
    };
    *price = *price + dp;
    let qty: i64 = if volatile {
        draw_mod(rng, 1_000_000) as i64
    } else {
        (draw_mod(rng, 8) + 1) as i64 * 100
    };
    let side_draw = rng.draw();
    assert(side_draw & 1 == side_draw % 2) by (bit_vector);
    let side = (side_draw & 1) as i64;
    let ghost r5 = rng.state();
    let (t0, t1, t2, t3) = next_tail(kind, volatile, row, rng, *price, qty, side);
    proof {
        let regime = if volatile { Regime::Volatile } else { Regime::Quiet };
        let d = row_draw(kind, regime, row as int, old(rng).state(), *old(receive) as int, *old(price) as int, previous as int);
        let (tail, rb) = tail_draw(kind, volatile, row as int, r5, *price as int, qty as int, side as int);
        let source_seq = if volatile { (row as int) % 32_768 } else { row as int };
        assert(d.values == seq![exchange as int, *receive as int, row as int, source_seq] + tail);
        assert(d.rng == rb);
        assert(d.values[4] == tail[0]);
        assert(d.values[7] == tail[3]);
    }
    (exchange, t0, t1, t2, t3)
}

fn next_tail(kind: Kind, volatile: bool, row: usize, rng: &mut Rng, price: i64, qty: i64, side: i64) -> (r: (i64, i64, i64, i64))
    requires
        row < MAX_ROWS,
        -2_000_000_000 <= price <= 2_000_000_000,
        0 <= qty <= 1_000_000,
    ensures
        ({
            let (tail, rb) = tail_draw(kind, volatile, row as int, old(rng).state(), price as int, qty as int, side as int);
            &&& final(rng).state() == rb
            &&& tail.len() == 4
            &&& r.0 == tail[0] && r.1 == tail[1] && r.2 == tail[2] && r.3 == tail[3]
        }),
{
    reveal(tail_draw);
    match kind {
        Kind::Quote => {
            let ask_add: i64 = if volatile { (draw_mod(rng, 50) + 1) as i64 } else { 2 };
            let qty_add = draw_mod(rng, 8) as i64;
            (price, price + ask_add, qty, qty + qty_add)
        },
        Kind::Trade => (row as i64 + 5_000_000, price, qty, side),
        Kind::L2 => {
            let spread = draw_mod(rng, if volatile { 2000 } else { 20 }) as i64;
            (price + spread, if row % 11 == 0 { 0 } else { qty }, side, if row % 11 == 0 { 2 } else { 1 })
        },
    }
}

#[verifier::rlimit(40)]
pub fn generate(kind: Kind, regime: Regime, rows: usize, seed: u64) -> (r: Result<Columns, FormatError>)
    ensures
        rows > MAX_ROWS ==> r == Err::<Columns, FormatError>(FormatError::TooManyRows),
        rows <= MAX_ROWS ==> (r matches Ok(c) && c.kind == kind && c.cols() == gen_rows(kind, regime, seed, rows as nat).cols
            && columns_error(c.cols()) is None),
{
    if rows > MAX_ROWS {
        return Err(FormatError::TooManyRows);
    }
    let mut rng = Rng::new(seed);
    let mut c0: Vec<i64> = Vec::with_capacity(rows);
    let mut c1: Vec<i64> = Vec::with_capacity(rows);
    let mut c2: Vec<i64> = Vec::with_capacity(rows);
    let mut c3: Vec<i64> = Vec::with_capacity(rows);
    let mut c4: Vec<i64> = Vec::with_capacity(rows);
    let mut c5: Vec<i64> = Vec::with_capacity(rows);
    let mut c6: Vec<i64> = Vec::with_capacity(rows);
    let mut c7: Vec<i64> = Vec::with_capacity(rows);
    let mut receive: i64 = 1_780_000_000_000_000_000;
    let mut price: i64 = 6_000_000;
    let volatile = match regime {
        Regime::Volatile => true,
        Regime::Quiet => false,
    };
    let mut row: usize = 0;
    while row < rows
        invariant
            row <= rows <= MAX_ROWS,
            volatile == (regime == Regime::Volatile),
            ({
                let st = gen_rows(kind, regime, seed, row as nat);
                &&& rng.state() == st.rng
                &&& receive == st.receive
                &&& price == st.price
                &&& c0@ == st.cols[0] && c1@ == st.cols[1] && c2@ == st.cols[2] && c3@ == st.cols[3]
                &&& c4@ == st.cols[4] && c5@ == st.cols[5] && c6@ == st.cols[6] && c7@ == st.cols[7]
            }),
        decreases rows - row,
    {
        proof {
            lemma_gen_bounds(kind, regime, seed, row as nat);
            lemma_gen_bounds(kind, regime, seed, (row + 1) as nat);
        }
        let ghost st = gen_rows(kind, regime, seed, row as nat);
        proof {
            let previous = if row > 0 { st.cols[0][row - 1] as int } else { 0 };
            lemma_row_shape(kind, regime, row as int, st.rng, st.receive, st.price, previous);
        }
        let previous: i64 = if row > 0 { c0[row - 1] } else { 0 };
        let (exchange, t0, t1, t2, t3) = next_row(kind, volatile, row, &mut rng, &mut receive, &mut price, previous);
        let source_seq: i64 = if volatile { (row % 32_768) as i64 } else { row as i64 };
        c0.push(exchange);
        c1.push(receive);
        c2.push(row as i64);
        c3.push(source_seq);
        c4.push(t0);
        c5.push(t1);
        c6.push(t2);
        c7.push(t3);
        row = row + 1;
        proof {
            lemma_gen_next(kind, regime, seed, (row - 1) as nat);
            let nx = gen_rows(kind, regime, seed, row as nat);
            assert(c0@ =~= nx.cols[0]);
            assert(c1@ =~= nx.cols[1]);
            assert(c2@ =~= nx.cols[2]);
            assert(c3@ =~= nx.cols[3]);
            assert(c4@ =~= nx.cols[4]);
            assert(c5@ =~= nx.cols[5]);
            assert(c6@ =~= nx.cols[6]);
            assert(c7@ =~= nx.cols[7]);
        }
    }
    proof {
        lemma_gen_bounds(kind, regime, seed, rows as nat);
    }
    let result = Columns { kind, values: vec![c0, c1, c2, c3, c4, c5, c6, c7] };
    proof {
        let st = gen_rows(kind, regime, seed, rows as nat);
        assert(result.cols() =~= st.cols);
    }
    match result.validate() {
        Ok(()) => Ok(result),
        Err(e) => Err(e),
    }
}

} // verus!
