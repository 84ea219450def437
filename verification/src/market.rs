//! Exact decimal prices and quantities of market-data fixtures, as integers scaled by 10^8.
use crate::data::hex_of;
use crate::error::FormatError;
use crate::wrappers::sha256;
use vstd::prelude::*;

verus! {

pub open spec fn is_digit(c: char) -> bool {
    '0' <= c <= '9'
}

pub open spec fn all_digits(cs: Seq<char>) -> bool {
    forall|i: int| 0 <= i < cs.len() ==> is_digit(#[trigger] cs[i])
}

/// The number that decimal digits spell.
pub open spec fn digits_value(cs: Seq<char>) -> nat
    decreases cs.len(),
{
    if cs.len() == 0 {
        0
    } else {
        digits_value(cs.drop_last()) * 10 + (cs.last() as nat - '0' as nat) as nat
    }
}

/// Ten to the `n`.
pub open spec fn pow10(n: nat) -> nat
    decreases n,
{
    if n == 0 {
        1
    } else {
        10 * pow10((n - 1) as nat)
    }
}

/// The index of the first '.' at or after `i`, or -1.
pub open spec fn first_dot(s: Seq<char>, i: int) -> int
    decreases s.len() - i,
{
    if i < 0 || i >= s.len() {
        -1
    } else if s[i] == '.' {
        i
    } else {
        first_dot(s, i + 1)
    }
}

/// A nonnegative decimal with at most eight fraction digits, times 10^8: digits, then
/// optionally '.' and up to eight digits; too large a value is an overflow.
pub open spec fn decimal_of(s: Seq<char>) -> Result<i64, FormatError> {
    let k = first_dot(s, 0);
    let whole = if k < 0 { s } else { s.take(k) };
    let fraction = if k < 0 { Seq::<char>::empty() } else { s.skip(k + 1) };
    if whole.len() == 0 || !all_digits(whole) || fraction.len() > 8 || !all_digits(fraction) {
        Err(FormatError::InvalidDecimal)
    } else if digits_value(whole) > i64::MAX {
        Err(FormatError::DecimalOverflow)
    } else {
        let v = digits_value(whole) * 100_000_000 + digits_value(fraction) * pow10((8 - fraction.len()) as nat);
        if v > i64::MAX {
            Err(FormatError::DecimalOverflow)
        } else {
            Ok(v as i64)
        }
    }
}

proof fn lemma_first_dot(s: Seq<char>, i: int)
    requires
        0 <= i <= s.len(),
    ensures
        first_dot(s, i) == -1 || (i <= first_dot(s, i) < s.len() && s[first_dot(s, i)] == '.'),
        forall|j: int| i <= j < s.len() && (first_dot(s, i) == -1 || j < first_dot(s, i)) ==> s[j] != '.',
    decreases s.len() - i,
{
    if i < s.len() && s[i] != '.' {
        lemma_first_dot(s, i + 1);
    }
}

/// The value of the digits `s[from..to]`, or `None` past `i64::MAX` (or for a non-digit).
fn parse_digits(s: &str, from: usize, to: usize) -> (r: Option<u64>)
    requires
        from <= to <= s@.len(),
    ensures
        r matches Some(v) ==> all_digits(s@.subrange(from as int, to as int)) && v == digits_value(s@.subrange(from as int, to as int))
            && v <= i64::MAX,
        r is None ==> !all_digits(s@.subrange(from as int, to as int)) || digits_value(s@.subrange(from as int, to as int)) > i64::MAX,
{
    let mut v: u64 = 0;
    let mut i: usize = from;
    while i < to
        invariant
            from <= i <= to <= s@.len(),
            all_digits(s@.subrange(from as int, i as int)),
            v == digits_value(s@.subrange(from as int, i as int)),
            v <= i64::MAX,
        decreases to - i,
    {
        let c = s.get_char(i);
        proof {
            assert(s@.subrange(from as int, i + 1).drop_last() =~= s@.subrange(from as int, i as int));
        }
        if !('0' <= c && c <= '9') {
            proof {
                assert(!is_digit(s@.subrange(from as int, to as int)[i - from]));
            }
            return None;
        }
        let d = (c as u32 - '0' as u32) as u64;
        if v > (0x7fff_ffff_ffff_ffffu64 - d) / 10 {
            proof {
                if all_digits(s@.subrange(from as int, to as int)) {
                    lemma_digits_prefix_le(s@.subrange(from as int, to as int), (i + 1 - from) as nat);
                    assert(s@.subrange(from as int, to as int).take((i + 1 - from) as int) =~= s@.subrange(from as int, i + 1));
                }
                assert(v * 10 + d > 0x7fff_ffff_ffff_ffffu64) by (nonlinear_arith)
                    requires
                        v > (0x7fff_ffff_ffff_ffffu64 - d) / 10,
                        d <= 9,
                ;
            }
            return None;
        }
        v = v * 10 + d;
        proof {
            assert forall|j: int| 0 <= j < i + 1 - from implies is_digit(#[trigger] s@.subrange(from as int, i + 1)[j]) by {
                if j < i - from {
                    assert(s@.subrange(from as int, i + 1)[j] == s@.subrange(from as int, i as int)[j]);
                }
            }
        }
        i = i + 1;
    }
    Some(v)
}

/// The value of a prefix of all-digit text is at most that of the whole.
proof fn lemma_digits_prefix_le(cs: Seq<char>, n: nat)
    requires
        n <= cs.len(),
        all_digits(cs),
    ensures
        digits_value(cs.take(n as int)) <= digits_value(cs),
    decreases cs.len() - n,
{
    if n < cs.len() {
        let m = (n + 1) as nat;
        assert(cs.take(m as int).drop_last() =~= cs.take(n as int));
        lemma_digits_prefix_le(cs, m);
    } else {
        assert(cs.take(n as int) =~= cs);
    }
}

/// Parses a nonnegative decimal price or quantity into an integer scaled by 10^8.
pub fn decimal(s: &str) -> (r: Result<i64, FormatError>)
    ensures
        r matches Ok(v) ==> decimal_of(s@) == Ok::<i64, FormatError>(v),
        r matches Err(e) ==> decimal_of(s@) == Err::<i64, FormatError>(e),
{
    let n = s.unicode_len();
    let mut k: usize = 0;
    let mut found = false;
    while k < n && !found
        invariant
            k <= n == s@.len(),
            forall|j: int| 0 <= j < k ==> s@[j] != '.',
            found ==> k < n && s@[k as int] == '.',
        decreases 2 * (n - k) + if found { 0int } else { 1int },
    {
        if s.get_char(k) == '.' {
            found = true;
        } else {
            k = k + 1;
        }
    }
    proof {
        lemma_first_dot(s@, 0);
        let f = first_dot(s@, 0);
        if k < n {
            assert(f != -1);
            assert(f == k as int);
        } else {
            assert(f == -1);
        }
    }
    let (whole_end, fraction_start) = if k < n { (k, k + 1) } else { (n, n) };
    assert(first_dot(s@, 0) == if k < n { k as int } else { -1 });
    assert(s@.subrange(0, whole_end as int) =~= if k < n { s@.take(k as int) } else { s@ });
    assert(s@.subrange(fraction_start as int, n as int) =~= if k < n { s@.skip(k + 1) } else { Seq::<char>::empty() });
    let fraction_len = n - fraction_start;
    if whole_end == 0 || fraction_len > 8 {
        return Err(FormatError::InvalidDecimal);
    }
    let whole = parse_digits(s, 0, whole_end);
    let fraction = parse_digits(s, fraction_start, n);
    let fraction = match fraction {
        Some(f) => f,
        None => {
            proof {
                if all_digits(s@.subrange(fraction_start as int, n as int)) {
                    lemma_digits_small(s@.subrange(fraction_start as int, n as int));
                    lemma_pow10_bound(fraction_len as nat);
                }
            }
            return Err(FormatError::InvalidDecimal);
        },
    };
    let whole = match whole {
        Some(w) => w,
        None => {
            if !all_digits_exec(s, 0, whole_end) {
                return Err(FormatError::InvalidDecimal);
            }
            return Err(FormatError::DecimalOverflow);
        },
    };
    proof {
        lemma_digits_small(s@.subrange(fraction_start as int, n as int));
    }
    let mut scale: u64 = 1;
    let mut i: usize = fraction_len;
    while i < 8
        invariant
            fraction_len <= i <= 8,
            scale == pow10((i - fraction_len) as nat),
            scale <= 100_000_000,
        decreases 8 - i,
    {
        proof {
            lemma_pow10_bound((i + 1 - fraction_len) as nat);
        }
        scale = scale * 10;
        i = i + 1;
    }
    assert(fraction * scale < 100_000_000) by (nonlinear_arith)
        requires
            fraction < pow10(fraction_len as nat),
            scale == pow10((8 - fraction_len) as nat),
            pow10(fraction_len as nat) * pow10((8 - fraction_len) as nat) == 100_000_000,
    {
    }
    let tail = fraction * scale;
    if whole > (0x7fff_ffff_ffff_ffffu64 - tail) / 100_000_000 {
        assert(whole * 100_000_000 + tail > 0x7fff_ffff_ffff_ffffu64) by (nonlinear_arith)
            requires
                whole > (0x7fff_ffff_ffff_ffffu64 - tail) / 100_000_000,
                tail < 100_000_000,
        ;
        return Err(FormatError::DecimalOverflow);
    }
    assert(whole * 100_000_000 + tail <= 0x7fff_ffff_ffff_ffffu64) by (nonlinear_arith)
        requires
            whole <= (0x7fff_ffff_ffff_ffffu64 - tail) / 100_000_000,
            tail < 100_000_000,
    ;
    Ok((whole * 100_000_000 + tail) as i64)
}

fn all_digits_exec(s: &str, from: usize, to: usize) -> (r: bool)
    requires
        from <= to <= s@.len(),
    ensures
        r == all_digits(s@.subrange(from as int, to as int)),
{
    let mut i: usize = from;
    while i < to
        invariant
            from <= i <= to <= s@.len(),
            forall|j: int| from <= j < i ==> is_digit(#[trigger] s@[j]),
        decreases to - i,
    {
        let c = s.get_char(i);
        if !('0' <= c && c <= '9') {
            assert(!is_digit(s@.subrange(from as int, to as int)[i - from]));
            return false;
        }
        i = i + 1;
    }
    assert forall|j: int| 0 <= j < to - from implies is_digit(#[trigger] s@.subrange(from as int, to as int)[j]) by {
        assert(s@.subrange(from as int, to as int)[j] == s@[from + j]);
    }
    true
}

proof fn lemma_pow10_bound(n: nat)
    requires
        n <= 8,
    ensures
        pow10(n) <= 100_000_000,
        pow10(n) >= 1,
{
    reveal_with_fuel(pow10, 9);
}

proof fn lemma_pow10_split(a: nat)
    requires
        a <= 8,
    ensures
        pow10(a) * pow10((8 - a) as nat) == 100_000_000,
{
    reveal_with_fuel(pow10, 9);
    assert(pow10(0) == 1);
    assert(pow10(1) == 10);
    assert(pow10(2) == 100);
    assert(pow10(3) == 1000);
    assert(pow10(4) == 10000);
    assert(pow10(5) == 100000);
    assert(pow10(6) == 1000000);
    assert(pow10(7) == 10000000);
    assert(pow10(8) == 100000000);
    let b = (8 - a) as nat;
    assert(a == 0 || a == 1 || a == 2 || a == 3 || a == 4 || a == 5 || a == 6 || a == 7 || a == 8);
}

/// Up to eight digits spell less than 10^(their count).
proof fn lemma_digits_small(cs: Seq<char>)
    requires
        all_digits(cs),
        cs.len() <= 8,
    ensures
        digits_value(cs) < pow10(cs.len()),
        pow10(cs.len()) * pow10((8 - cs.len()) as nat) == 100_000_000,
    decreases cs.len(),
{
    reveal_with_fuel(pow10, 9);
    lemma_pow10_split(cs.len());
    if cs.len() > 0 {
        let p = cs.drop_last();
        assert(all_digits(p)) by {
            assert forall|i: int| 0 <= i < p.len() implies is_digit(#[trigger] p[i]) by {
                assert(p[i] == cs[i]);
            }
        }
        lemma_digits_small(p);
        assert(is_digit(cs[cs.len() - 1]));
        assert(digits_value(cs) < pow10(cs.len())) by (nonlinear_arith)
            requires
                digits_value(cs) == digits_value(p) * 10 + (cs.last() as nat - '0' as nat),
                digits_value(p) < pow10(p.len()),
                pow10(cs.len()) == 10 * pow10(p.len()),
                cs.last() as nat - '0' as nat <= 9,
        ;
    }
}

/// Whether a claimed payload hash is the lowercase hexadecimal SHA-256 of the raw payload.
pub fn payload_matches(raw: &[u8], claimed: &[u8]) -> (r: bool)
    ensures
        r == (claimed@ == crate::data::hex_bytes(crate::wrappers::sha256_of(raw@))),
{
    let digest = sha256(raw);
    let hex = hex_of(&digest);
    if hex.len() != claimed.len() {
        return false;
    }
    let mut i: usize = 0;
    while i < hex.len()
        invariant
            i <= hex@.len() == claimed@.len(),
            hex@ == crate::data::hex_bytes(crate::wrappers::sha256_of(raw@)),
            forall|j: int| 0 <= j < i ==> hex@[j] == claimed@[j],
        decreases hex@.len() - i,
    {
        if hex[i] != claimed[i] {
            assert(hex@[i as int] != claimed@[i as int]);
            return false;
        }
        i = i + 1;
    }
    assert(hex@ =~= claimed@);
    true
}

/// One order-book update of a recorded feed: its receipt time in nanoseconds, exchange and
/// matching-engine times in milliseconds, update id, sequence, whether it is a snapshot, its
/// symbol, and its bid and ask levels as (price, quantity) decimal texts, best first.
#[derive(Clone, Debug)]
pub struct BookEvent {
    pub receipt_ns: i64,
    pub exchange_ms: i64,
    pub cts_ms: i64,
    pub update_id: i64,
    pub sequence: i64,
    pub snapshot: bool,
    pub symbol: String,
    pub bids: Vec<(String, String)>,
    pub asks: Vec<(String, String)>,
}

/// Level rows projected so far: full batches, the batch being filled, and counts of events,
/// level rows and events without levels. A row is eleven integers (event index, receipt,
/// exchange and matching times, update id, sequence, side, level index, price and quantity
/// times 10^8, snapshot flag) and the symbol.
pub struct Projection {
    pub batches: Vec<Vec<(Vec<i64>, String)>>,
    pub pending: Vec<(Vec<i64>, String)>,
    pub events: usize,
    pub levels: usize,
    pub empty_events: usize,
}

/// Whether the projection goes on after an event.
#[derive(Clone, Copy, Debug, PartialEq, Eq, Structural)]
pub enum Step {
    More,
    Done,
}

/// The rows as plain values.
pub open spec fn rows_view(rows: Seq<(Vec<i64>, String)>) -> Seq<(Seq<i64>, Seq<char>)> {
    rows.map_values(|r: (Vec<i64>, String)| (r.0@, r.1@))
}

/// The batches as plain values.
pub open spec fn batches_view(batches: Seq<Vec<(Vec<i64>, String)>>) -> Seq<Seq<(Seq<i64>, Seq<char>)>> {
    batches.map_values(|b: Vec<(Vec<i64>, String)>| rows_view(b@))
}

/// The first six values of every row of an event.
pub open spec fn event_prefix(events: nat, ev: BookEvent) -> Seq<i64> {
    seq![events as i64, ev.receipt_ns, ev.exchange_ms, ev.cts_ms, ev.update_id, ev.sequence]
}

/// The row of level `index` on `side` (0 bids, 1 asks).
pub open spec fn level_values(prefix: Seq<i64>, side: i64, index: int, price: i64, quantity: i64, snapshot: bool) -> Seq<i64> {
    prefix + seq![side, index as i64, price, quantity, if snapshot { 1i64 } else { 0i64 }]
}

/// The rows of one side's levels in order, or the first price or quantity (in that order)
/// that is not an exact decimal.
pub open spec fn side_rows(prefix: Seq<i64>, side: i64, pairs: Seq<(String, String)>, snapshot: bool) -> Result<Seq<Seq<i64>>, FormatError>
    decreases pairs.len(),
{
    if pairs.len() == 0 {
        Ok(Seq::empty())
    } else {
        match side_rows(prefix, side, pairs.drop_last(), snapshot) {
            Err(e) => Err(e),
            Ok(rows) => match decimal_of(pairs.last().0@) {
                Err(e) => Err(e),
                Ok(p) => match decimal_of(pairs.last().1@) {
                    Err(e) => Err(e),
                    Ok(q) => Ok(rows.push(level_values(prefix, side, pairs.len() - 1, p, q, snapshot))),
                },
            },
        }
    }
}

/// The rows of an event: its bid levels, then its ask levels.
pub open spec fn event_rows(events: nat, ev: BookEvent) -> Result<Seq<Seq<i64>>, FormatError> {
    let prefix = event_prefix(events, ev);
    match side_rows(prefix, 0, ev.bids@, ev.snapshot) {
        Err(e) => Err(e),
        Ok(b) => match side_rows(prefix, 1, ev.asks@, ev.snapshot) {
            Err(e) => Err(e),
            Ok(a) => Ok(b + a),
        },
    }
}

/// Rows with the event's symbol.
pub open spec fn with_symbol(rows: Seq<Seq<i64>>, symbol: Seq<char>) -> Seq<(Seq<i64>, Seq<char>)> {
    Seq::new(rows.len(), |i: int| (rows[i], symbol))
}

/// Rows appended one at a time to the batch being filled, which becomes a full batch as soon
/// as it holds `batch_rows` rows.
pub open spec fn batched(
    batches: Seq<Seq<(Seq<i64>, Seq<char>)>>,
    pending: Seq<(Seq<i64>, Seq<char>)>,
    rows: Seq<(Seq<i64>, Seq<char>)>,
    batch_rows: nat,
) -> (Seq<Seq<(Seq<i64>, Seq<char>)>>, Seq<(Seq<i64>, Seq<char>)>)
    decreases rows.len(),
{
    if rows.len() == 0 {
        (batches, pending)
    } else {
        let (b, p) = batched(batches, pending, rows.drop_last(), batch_rows);
        let p2 = p.push(rows.last());
        if p2.len() == batch_rows {
            (b.push(p2), Seq::empty())
        } else {
            (b, p2)
        }
    }
}

proof fn lemma_side_rows_len(prefix: Seq<i64>, side: i64, pairs: Seq<(String, String)>, snapshot: bool)
    ensures
        side_rows(prefix, side, pairs, snapshot) matches Ok(rows) ==> rows.len() == pairs.len(),
    decreases pairs.len(),
{
    if pairs.len() > 0 {
        lemma_side_rows_len(prefix, side, pairs.drop_last(), snapshot);
    }
}

/// Appends the rows of one side's levels to `out`.
fn push_side(prefix: &Vec<i64>, side: i64, pairs: &Vec<(String, String)>, snapshot: bool, out: &mut Vec<Vec<i64>>) -> (r: Result<(), FormatError>)
    ensures
        r is Ok ==> (side_rows(prefix@, side, pairs@, snapshot) matches Ok(rows) && final(out)@.map_values(
            |v: Vec<i64>| v@,
        ) == old(out)@.map_values(|v: Vec<i64>| v@) + rows),
        r matches Err(e) ==> side_rows(prefix@, side, pairs@, snapshot) == Err::<Seq<Seq<i64>>, FormatError>(e),
{
    let ghost start = out@.map_values(|v: Vec<i64>| v@);
    let mut i: usize = 0;
    while i < pairs.len()
        invariant
            i <= pairs@.len(),
            side_rows(prefix@, side, pairs@.take(i as int), snapshot) matches Ok(rows) && out@.map_values(
                |v: Vec<i64>| v@,
            ) == start + rows,
        decreases pairs@.len() - i,
    {
        let ghost before = out@.map_values(|v: Vec<i64>| v@);
        assert(pairs@.take(i + 1).drop_last() =~= pairs@.take(i as int));
        let price = match decimal(pairs[i].0.as_str()) {
            Ok(v) => v,
            Err(e) => {
                proof {
                    lemma_side_rows_prefix_err(prefix@, side, pairs@, snapshot, (i + 1) as nat);
                }
                return Err(e);
            },
        };
        let quantity = match decimal(pairs[i].1.as_str()) {
            Ok(v) => v,
            Err(e) => {
                proof {
                    lemma_side_rows_prefix_err(prefix@, side, pairs@, snapshot, (i + 1) as nat);
                }
                return Err(e);
            },
        };
        let mut row = prefix.clone();
        assert(row@ =~= prefix@);
        row.push(side);
        row.push(i as i64);
        row.push(price);
        row.push(quantity);
        row.push(if snapshot { 1i64 } else { 0i64 });
        proof {
            assert(row@ =~= level_values(prefix@, side, i as int, price, quantity, snapshot));
        }
        out.push(row);
        proof {
            assert(out@.map_values(|v: Vec<i64>| v@) =~= before.push(row@));
        }
        i = i + 1;
    }
    assert(pairs@.take(pairs@.len() as int) =~= pairs@);
    Ok(())
}

/// An error in the first `k` levels is the side's error.
proof fn lemma_side_rows_prefix_err(prefix: Seq<i64>, side: i64, pairs: Seq<(String, String)>, snapshot: bool, k: nat)
    requires
        k <= pairs.len(),
        side_rows(prefix, side, pairs.take(k as int), snapshot) is Err,
    ensures
        side_rows(prefix, side, pairs, snapshot) == side_rows(prefix, side, pairs.take(k as int), snapshot),
    decreases pairs.len() - k,
{
    if k < pairs.len() {
        assert(pairs.take(k as int + 1).drop_last() =~= pairs.take(k as int));
        lemma_side_rows_prefix_err(prefix, side, pairs, snapshot, k + 1);
    } else {
        assert(pairs.take(k as int) =~= pairs);
    }
}

/// The rows of an event, or the first price or quantity that is not an exact decimal.
fn event_level_rows(events: usize, ev: &BookEvent) -> (r: Result<Vec<Vec<i64>>, FormatError>)
    ensures
        r matches Ok(v) ==> event_rows(events as nat, *ev) == Ok::<Seq<Seq<i64>>, FormatError>(v@.map_values(
            |x: Vec<i64>| x@,
        )),
        r matches Err(e) ==> event_rows(events as nat, *ev) == Err::<Seq<Seq<i64>>, FormatError>(e),
{
    let mut prefix: Vec<i64> = Vec::new();
    prefix.push(events as i64);
    prefix.push(ev.receipt_ns);
    prefix.push(ev.exchange_ms);
    prefix.push(ev.cts_ms);
    prefix.push(ev.update_id);
    prefix.push(ev.sequence);
    assert(prefix@ =~= event_prefix(events as nat, *ev));
    let mut rows: Vec<Vec<i64>> = Vec::new();
    assert(rows@.map_values(|x: Vec<i64>| x@) =~= Seq::<Seq<i64>>::empty());
    match push_side(&prefix, 0, &ev.bids, ev.snapshot, &mut rows) {
        Err(e) => {
            return Err(e);
        },
        Ok(()) => {},
    }
    match push_side(&prefix, 1, &ev.asks, ev.snapshot, &mut rows) {
        Err(e) => {
            return Err(e);
        },
        Ok(()) => {},
    }
    proof {
        let b = side_rows(prefix@, 0, ev.bids@, ev.snapshot).unwrap();
        let a = side_rows(prefix@, 1, ev.asks@, ev.snapshot).unwrap();
        assert(Seq::<Seq<i64>>::empty() + b + a =~= b + a);
    }
    Ok(rows)
}

impl Projection {
    /// No rows and no events yet.
    pub fn new() -> (r: Projection)
        ensures
            r.batches@.len() == 0 && r.pending@.len() == 0,
            r.events == 0 && r.levels == 0 && r.empty_events == 0,
    {
        Projection { batches: Vec::new(), pending: Vec::new(), events: 0, levels: 0, empty_events: 0 }
    }
}

/// Projects one event into level rows: its bid levels, then its ask levels, each a row of the
/// next event index, the event's times, ids and snapshot flag, the side and level index, and
/// the price and quantity times 10^8. Rows fill the current batch, which is closed when it
/// holds `batch_rows` rows. The projection is done when at least `limit` levels have been
/// projected, at an event boundary, so an event is never split. An event with a price or
/// quantity that is not an exact decimal is refused and changes nothing.
pub fn project_event(state: &mut Projection, ev: &BookEvent, limit: usize, batch_rows: usize) -> (r: Result<Step, FormatError>)
    requires
        old(state).events < usize::MAX,
        old(state).empty_events < usize::MAX,
        old(state).levels + ev.bids@.len() + ev.asks@.len() <= usize::MAX,
    ensures
        event_rows(old(state).events as nat, *ev) matches Err(e) ==> r == Err::<Step, FormatError>(e) && final(state).batches@
            == old(state).batches@ && final(state).pending@ == old(state).pending@ && final(state).events == old(state).events
            && final(state).levels == old(state).levels && final(state).empty_events == old(state).empty_events,
        event_rows(old(state).events as nat, *ev) matches Ok(rows) ==> {
            let (b, p) = batched(
                batches_view(old(state).batches@),
                rows_view(old(state).pending@),
                with_symbol(rows, ev.symbol@),
                batch_rows as nat,
            );
            &&& batches_view(final(state).batches@) == b
            &&& rows_view(final(state).pending@) == p
            &&& final(state).events == old(state).events + 1
            &&& final(state).levels == old(state).levels + rows.len()
            &&& rows.len() == ev.bids@.len() + ev.asks@.len()
            &&& final(state).empty_events == old(state).empty_events + if rows.len() == 0 { 1int } else { 0int }
            &&& r == Ok::<Step, FormatError>(if final(state).levels >= limit { Step::Done } else { Step::More })
        },
{
    let rows = match event_level_rows(state.events, ev) {
        Ok(v) => v,
        Err(e) => {
            return Err(e);
        },
    };
    let ghost all = with_symbol(rows@.map_values(|x: Vec<i64>| x@), ev.symbol@);
    proof {
        let prefix = event_prefix(state.events as nat, *ev);
        lemma_side_rows_len(prefix, 0, ev.bids@, ev.snapshot);
        lemma_side_rows_len(prefix, 1, ev.asks@, ev.snapshot);
    }
    let ghost b0 = batches_view(state.batches@);
    let ghost p0 = rows_view(state.pending@);
    let count = rows.len();
    assert(count == ev.bids@.len() + ev.asks@.len());
    let mut k: usize = 0;
    while k < count
        invariant
            count == rows@.len(),
            k <= count,
            state.events == old(state).events < usize::MAX,
            state.levels == old(state).levels,
            state.levels + count <= usize::MAX,
            state.empty_events == old(state).empty_events < usize::MAX,
            all == with_symbol(rows@.map_values(|x: Vec<i64>| x@), ev.symbol@),
            (batches_view(state.batches@), rows_view(state.pending@)) == batched(b0, p0, all.take(k as int),
                batch_rows as nat),
        decreases count - k,
    {
        let ghost before = (batches_view(state.batches@), rows_view(state.pending@));
        let row = rows[k].clone();
        assert(row@ =~= rows@[k as int]@);
        let symbol = ev.symbol.clone();
        state.pending.push((row, symbol));
        proof {
            assert(all.take(k + 1).drop_last() =~= all.take(k as int));
            assert(all.take(k + 1).last() == all[k as int]);
            assert(rows_view(state.pending@) =~= before.1.push(all[k as int]));
        }
        if state.pending.len() == batch_rows {
            let mut full: Vec<(Vec<i64>, String)> = Vec::new();
            std::mem::swap(&mut full, &mut state.pending);
            state.batches.push(full);
            proof {
                assert(rows_view(state.pending@) =~= Seq::<(Seq<i64>, Seq<char>)>::empty());
                assert(batches_view(state.batches@) =~= before.0.push(before.1.push(all[k as int])));
            }
        }
        k = k + 1;
    }
    assert(all.take(count as int) =~= all);
    state.events = state.events + 1;
    state.levels = state.levels + count;
    if count == 0 {
        state.empty_events = state.empty_events + 1;
    }
    Ok(if state.levels >= limit { Step::Done } else { Step::More })
}

/// Closes the batch being filled, if it holds any rows, once the feed ends.
pub fn finish_projection(state: &mut Projection)
    ensures
        old(state).pending@.len() == 0 ==> final(state).batches@ == old(state).batches@,
        old(state).pending@.len() > 0 ==> batches_view(final(state).batches@) == batches_view(old(state).batches@).push(
            rows_view(old(state).pending@)),
        final(state).pending@.len() == 0,
        final(state).events == old(state).events && final(state).levels == old(state).levels
            && final(state).empty_events == old(state).empty_events,
{
    if state.pending.len() > 0 {
        let ghost b = batches_view(state.batches@);
        let ghost p = rows_view(state.pending@);
        let mut full: Vec<(Vec<i64>, String)> = Vec::new();
            std::mem::swap(&mut full, &mut state.pending);
        state.batches.push(full);
        assert(batches_view(state.batches@) =~= b.push(p));
    }
}

/// The flag that ends each projected row: 1 for a snapshot, 0 for a delta.
pub open spec fn snapshot_flag(snapshot: bool) -> i64 {
    if snapshot {
        1
    } else {
        0
    }
}

proof fn lemma_side_rows_shape(prefix: Seq<i64>, side: i64, pairs: Seq<(String, String)>, snapshot: bool)
    requires
        prefix.len() == 6,
        side_rows(prefix, side, pairs, snapshot) is Ok,
    ensures
        ({
            let rows = side_rows(prefix, side, pairs, snapshot).unwrap();
            &&& rows.len() == pairs.len()
            &&& forall|i: int|
                0 <= i < rows.len() ==> {
                    &&& #[trigger] rows[i].len() == 11
                    &&& rows[i].subrange(0, 6) == prefix
                    &&& rows[i][6] == side
                    &&& rows[i][7] == i as i64
                    &&& decimal_of(pairs[i].0@) == Ok::<i64, FormatError>(rows[i][8])
                    &&& decimal_of(pairs[i].1@) == Ok::<i64, FormatError>(rows[i][9])
                    &&& rows[i][10] == snapshot_flag(snapshot)
                }
        }),
    decreases pairs.len(),
{
    if pairs.len() > 0 {
        lemma_side_rows_shape(prefix, side, pairs.drop_last(), snapshot);
        let prev = side_rows(prefix, side, pairs.drop_last(), snapshot).unwrap();
        let p = decimal_of(pairs.last().0@).unwrap();
        let q = decimal_of(pairs.last().1@).unwrap();
        let row = level_values(prefix, side, pairs.len() - 1, p, q, snapshot);
        let rows = side_rows(prefix, side, pairs, snapshot).unwrap();
        assert(rows == prev.push(row));
        assert(row.subrange(0, 6) =~= prefix);
        assert(row.len() == 11);
        assert(row[6] == side);
        assert(row[7] == (pairs.len() - 1) as i64);
        assert(row[10] == snapshot_flag(snapshot));
        assert(row[8] == p && row[9] == q);
        assert forall|i: int| 0 <= i < rows.len() implies {
            &&& #[trigger] rows[i].len() == 11
            &&& rows[i].subrange(0, 6) == prefix
            &&& rows[i][6] == side
            &&& rows[i][7] == i as i64
            &&& decimal_of(pairs[i].0@) == Ok::<i64, FormatError>(rows[i][8])
            &&& decimal_of(pairs[i].1@) == Ok::<i64, FormatError>(rows[i][9])
            &&& rows[i][10] == snapshot_flag(snapshot)
        } by {
            if i < prev.len() {
                assert(rows[i] == prev[i]);
                assert(pairs[i] == pairs.drop_last()[i]);
            }
        }
    }
}

/// Every row that a book event projects to has eleven values: the event's index and times, ids
/// and sequence, then the side (0 for bids, 1 for asks), the level's index within its side, the
/// level's price and quantity as exact decimals times 10^8, and last 1 when the event is a snapshot and 0 when it is a delta. The
/// bids come first, in order, then the asks.
pub proof fn lemma_event_rows_shape(events: nat, ev: BookEvent)
    requires
        event_rows(events, ev) is Ok,
    ensures
        ({
            let rows = event_rows(events, ev).unwrap();
            let bids = ev.bids@.len();
            &&& rows.len() == bids + ev.asks@.len()
            &&& forall|i: int|
                0 <= i < rows.len() ==> {
                    &&& #[trigger] rows[i].len() == 11
                    &&& rows[i][0] == events as i64
                    &&& rows[i][6] == if i < bids { 0i64 } else { 1i64 }
                    &&& rows[i][7] == (if i < bids { i } else { i - bids }) as i64
                    &&& i < bids ==> decimal_of(ev.bids@[i].0@) == Ok::<i64, FormatError>(rows[i][8])
                        && decimal_of(ev.bids@[i].1@) == Ok::<i64, FormatError>(rows[i][9])
                    &&& i >= bids ==> decimal_of(ev.asks@[i - bids].0@) == Ok::<i64, FormatError>(rows[i][8])
                        && decimal_of(ev.asks@[i - bids].1@) == Ok::<i64, FormatError>(rows[i][9])
                    &&& rows[i][10] == snapshot_flag(ev.snapshot)
                }
        }),
{
    let prefix = event_prefix(events, ev);
    lemma_side_rows_shape(prefix, 0, ev.bids@, ev.snapshot);
    lemma_side_rows_shape(prefix, 1, ev.asks@, ev.snapshot);
    let b = side_rows(prefix, 0, ev.bids@, ev.snapshot).unwrap();
    let a = side_rows(prefix, 1, ev.asks@, ev.snapshot).unwrap();
    let rows = b + a;
    assert(event_rows(events, ev).unwrap() == rows);
    assert(prefix[0] == events as i64);
    assert forall|i: int| 0 <= i < rows.len() implies {
        &&& #[trigger] rows[i].len() == 11
        &&& rows[i][0] == events as i64
        &&& rows[i][6] == if i < b.len() { 0i64 } else { 1i64 }
        &&& rows[i][7] == (if i < b.len() { i } else { i - b.len() }) as i64
        &&& i < b.len() ==> decimal_of(ev.bids@[i].0@) == Ok::<i64, FormatError>(rows[i][8])
            && decimal_of(ev.bids@[i].1@) == Ok::<i64, FormatError>(rows[i][9])
        &&& i >= b.len() ==> decimal_of(ev.asks@[i - b.len()].0@) == Ok::<i64, FormatError>(rows[i][8])
            && decimal_of(ev.asks@[i - b.len()].1@) == Ok::<i64, FormatError>(rows[i][9])
        &&& rows[i][10] == snapshot_flag(ev.snapshot)
    } by {
        if i < b.len() {
            assert(rows[i] == b[i]);
            assert(b[i].subrange(0, 6)[0] == b[i][0]);
        } else {
            assert(rows[i] == a[i - b.len()]);
            assert(a[i - b.len()].subrange(0, 6)[0] == a[i - b.len()][0]);
        }
    }
}

} // verus!
