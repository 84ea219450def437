//! The normalized schema contract of tick and order-book data, checked on a model of an Arrow
//! schema: field names, kinds and nullability, and the schema's metadata.
use crate::error::FormatError;
use crate::market::{all_digits, digits_value, is_digit};
use crate::native::{family_name, Family};
use crate::text::text_equal;
use vstd::prelude::*;

verus! {

/// The Arrow types that the contract names; every other type is `Other`.
#[derive(Clone, Copy, Debug, PartialEq, Eq, Structural)]
pub enum FieldKind {
    Int8,
    Int64,
    LargeUtf8,
    Other,
}

#[derive(Clone, Debug)]
pub struct FieldModel {
    pub name: String,
    pub kind: FieldKind,
    pub nullable: bool,
}

/// A schema's fields in order and its metadata entries (distinct keys).
#[derive(Clone, Debug)]
pub struct SchemaModel {
    pub fields: Vec<FieldModel>,
    pub metadata: Vec<(String, String)>,
}

/// The value of the first metadata entry with `key`.
pub open spec fn lookup(meta: Seq<(String, String)>, key: Seq<char>) -> Option<Seq<char>>
    decreases meta.len(),
{
    if meta.len() == 0 {
        None
    } else if meta[0].0@ == key {
        Some(meta[0].1@)
    } else {
        lookup(meta.drop_first(), key)
    }
}

/// The first field named `name`.
pub open spec fn find_field(fields: Seq<FieldModel>, name: Seq<char>) -> Option<FieldModel>
    decreases fields.len(),
{
    if fields.len() == 0 {
        None
    } else if fields[0].name@ == name {
        Some(fields[0])
    } else {
        find_field(fields.drop_first(), name)
    }
}

/// Whether field `name` exists with the kind and, unless `nullable`, is not nullable.
pub open spec fn field_error(fields: Seq<FieldModel>, name: Seq<char>, kind: FieldKind, nullable: bool) -> Option<FormatError> {
    match find_field(fields, name) {
        None => Some(FormatError::MissingField),
        Some(f) => if f.kind == kind && (nullable || !f.nullable) {
            None
        } else {
            Some(FormatError::WrongFieldType)
        },
    }
}

/// A name that is empty, longer than 128 bytes, or that an earlier field already has.
pub open spec fn names_invalid(fields: Seq<FieldModel>) -> bool {
    exists|i: int|
        0 <= i < fields.len() && (fields[i].name@.len() == 0 || vstd::utf8::encode_utf8(#[trigger] fields[i].name@).len() > 128
            || exists|j: int| 0 <= j < i && fields[j].name@ == fields[i].name@)
}

pub open spec fn is_lower_hex(c: char) -> bool {
    is_digit(c) || ('a' <= c <= 'f')
}

/// A SHA-256 in lower-case hex, not all zeros.
pub open spec fn sha_valid(s: Seq<char>) -> bool {
    &&& s.len() == 64
    &&& forall|i: int| 0 <= i < s.len() ==> is_lower_hex(#[trigger] s[i])
    &&& exists|i: int| 0 <= i < s.len() && s[i] != '0'
}

/// An unsigned decimal as Rust parses one: an optional '+', then one or more digits.
pub open spec fn unsigned_of(s: Seq<char>) -> Option<nat> {
    let digits = if s.len() > 0 && s[0] == '+' { s.drop_first() } else { s };
    if digits.len() == 0 || !all_digits(digits) {
        None
    } else {
        Some(digits_value(digits))
    }
}

/// Why a scale entry is refused: missing, not a `u8`, or above twelve.
pub open spec fn scale_error(meta: Seq<(String, String)>, key: Seq<char>) -> Option<FormatError> {
    match lookup(meta, key) {
        None => Some(FormatError::MissingScale),
        Some(v) => match unsigned_of(v) {
            None => Some(FormatError::InvalidScale),
            Some(n) => if n > 255 {
                Some(FormatError::InvalidScale)
            } else if n > 12 {
                Some(FormatError::ScaleTooLarge)
            } else {
                None
            },
        },
    }
}

/// The first of the given checks that fails.
pub open spec fn first_error(checks: Seq<Option<FormatError>>) -> Option<FormatError>
    decreases checks.len(),
{
    if checks.len() == 0 {
        None
    } else if checks[0] is Some {
        checks[0]
    } else {
        first_error(checks.drop_first())
    }
}

/// The field checks shared by both families: timestamps and error may be null, availability,
/// sequence and symbol may not.
pub open spec fn common_field_checks(fields: Seq<FieldModel>) -> Seq<Option<FormatError>> {
    seq![
        field_error(fields, "source_utc_ns"@, FieldKind::Int64, true),
        field_error(fields, "received_utc_ns"@, FieldKind::Int64, true),
        field_error(fields, "clock_error_ns"@, FieldKind::Int64, true),
        field_error(fields, "available_utc_ns"@, FieldKind::Int64, false),
        field_error(fields, "sequence"@, FieldKind::Int64, false),
        field_error(fields, "symbol"@, FieldKind::LargeUtf8, false),
    ]
}

/// What the family itself requires: a trade or quote subtype and its fields, or a source book
/// depth of one to 100000 and the book fields.
pub open spec fn family_error(schema: SchemaModel, family: Family) -> Option<FormatError> {
    let fields = schema.fields@;
    let meta = schema.metadata@;
    match family {
        Family::Tick => {
            let subtype = lookup(meta, "gqodb.subtype"@);
            if subtype == Some("trade"@) {
                first_error(seq![
                    field_error(fields, "price"@, FieldKind::Int64, false),
                    field_error(fields, "quantity"@, FieldKind::Int64, false),
                    field_error(fields, "side"@, FieldKind::Int8, false),
                ])
            } else if subtype == Some("quote"@) {
                first_error(seq![
                    field_error(fields, "bid"@, FieldKind::Int64, false),
                    field_error(fields, "ask"@, FieldKind::Int64, false),
                    field_error(fields, "bid_quantity"@, FieldKind::Int64, false),
                    field_error(fields, "ask_quantity"@, FieldKind::Int64, false),
                ])
            } else {
                Some(FormatError::InvalidSubtype)
            }
        },
        Family::Orderbook => match lookup(meta, "gqodb.depth"@) {
            None => Some(FormatError::MissingDepth),
            Some(v) => match unsigned_of(v) {
                None => Some(FormatError::InvalidDepth),
                Some(d) => if d > usize::MAX || !(1 <= d <= 100_000) {
                    Some(FormatError::InvalidDepth)
                } else {
                    first_error(seq![
                        field_error(fields, "price"@, FieldKind::Int64, false),
                        field_error(fields, "quantity"@, FieldKind::Int64, false),
                        field_error(fields, "level"@, FieldKind::Int64, false),
                        field_error(fields, "side"@, FieldKind::Int8, false),
                        field_error(fields, "action"@, FieldKind::Int8, false),
                    ])
                },
            },
        },
    }
}

/// The first way a schema breaks the normalized contract of a family, in the order checked.
pub open spec fn schema_error(schema: SchemaModel, family: Family) -> Option<FormatError> {
    let fields = schema.fields@;
    let meta = schema.metadata@;
    if !(1 <= fields.len() <= 64) {
        Some(FormatError::SchemaFieldBound)
    } else if names_invalid(fields) {
        Some(FormatError::InvalidFieldName)
    } else if lookup(meta, "gqodb.family"@) != Some(family_name(family)) {
        Some(FormatError::FamilyMismatch)
    } else if lookup(meta, "gqodb.schema_version"@) != Some("1"@) {
        Some(FormatError::UnknownSchemaVersion)
    } else if lookup(meta, "gqodb.source_sha256"@) is None {
        Some(FormatError::MissingSourceSha)
    } else if !sha_valid(lookup(meta, "gqodb.source_sha256"@).unwrap()) {
        Some(FormatError::InvalidSourceSha)
    } else if scale_error(meta, "gqodb.price_decimals"@) is Some {
        scale_error(meta, "gqodb.price_decimals"@)
    } else if scale_error(meta, "gqodb.quantity_decimals"@) is Some {
        scale_error(meta, "gqodb.quantity_decimals"@)
    } else if first_error(common_field_checks(fields)) is Some {
        first_error(common_field_checks(fields))
    } else {
        family_error(schema, family)
    }
}

pub(crate) fn get<'a>(meta: &'a Vec<(String, String)>, key: &str) -> (r: Option<&'a String>)
    ensures
        r matches Some(v) ==> lookup(meta@, key@) == Some(v@),
        r is None ==> lookup(meta@, key@) is None,
{
    let mut i: usize = 0;
    assert(meta@.skip(0) =~= meta@);
    while i < meta.len()
        invariant
            i <= meta@.len(),
            lookup(meta@, key@) == lookup(meta@.skip(i as int), key@),
        decreases meta@.len() - i,
    {
        proof {
            assert(meta@.skip(i as int).drop_first() =~= meta@.skip(i + 1));
            assert(meta@.skip(i as int)[0] == meta@[i as int]);
        }
        if text_equal(meta[i].0.as_str(), key) {
            return Some(&meta[i].1);
        }
        i = i + 1;
    }
    proof {
        assert(meta@.skip(i as int).len() == 0);
    }
    None
}

fn field_check(fields: &Vec<FieldModel>, name: &str, kind: FieldKind, nullable: bool) -> (r: Option<FormatError>)
    ensures
        r == field_error(fields@, name@, kind, nullable),
{
    let mut i: usize = 0;
    assert(fields@.skip(0) =~= fields@);
    while i < fields.len()
        invariant
            i <= fields@.len(),
            find_field(fields@, name@) == find_field(fields@.skip(i as int), name@),
        decreases fields@.len() - i,
    {
        proof {
            assert(fields@.skip(i as int).drop_first() =~= fields@.skip(i + 1));
            assert(fields@.skip(i as int)[0] == fields@[i as int]);
        }
        if text_equal(fields[i].name.as_str(), name) {
            let f = &fields[i];
            if f.kind == kind && (nullable || !f.nullable) {
                return None;
            }
            return Some(FormatError::WrongFieldType);
        }
        i = i + 1;
    }
    Some(FormatError::MissingField)
}

pub(crate) fn parse_unsigned(s: &str) -> (r: Option<u64>)
    ensures
        r matches Some(v) ==> unsigned_of(s@) == Some(v as nat),
        r is None ==> unsigned_of(s@) is None || unsigned_of(s@).unwrap() > u64::MAX,
{
    let n = s.unicode_len();
    let start: usize = if n > 0 && s.get_char(0) == '+' { 1 } else { 0 };
    let ghost digits = if s@.len() > 0 && s@[0] == '+' { s@.drop_first() } else { s@ };
    assert(s@.subrange(start as int, n as int) =~= digits);
    if start == n {
        return None;
    }
    let mut v: u64 = 0;
    let mut i: usize = start;
    while i < n
        invariant
            start < n == s@.len(),
            start <= i <= n,
            digits == s@.subrange(start as int, n as int),
            digits == (if s@.len() > 0 && s@[0] == '+' { s@.drop_first() } else { s@ }),
            all_digits(s@.subrange(start as int, i as int)),
            v == digits_value(s@.subrange(start as int, i as int)),
        decreases n - i,
    {
        let c = s.get_char(i);
        proof {
            assert(s@.subrange(start as int, i + 1).drop_last() =~= s@.subrange(start as int, i as int));
        }
        if !('0' <= c && c <= '9') {
            assert(!is_digit(digits[i - start]));
            assert(!all_digits(digits));
            return None;
        }
        let d = (c as u32 - '0' as u32) as u64;
        assert(s@.subrange(start as int, i + 1).last() == c);
        assert(digits_value(s@.subrange(start as int, i + 1)) == v * 10 + d);
        if v > (u64::MAX - d) / 10 {
            proof {
                assert(v * 10 + d > u64::MAX) by (nonlinear_arith)
                    requires
                        v > (u64::MAX - d) / 10,
                        d <= 9,
                ;
                if all_digits(digits) {
                    lemma_digits_monotone(digits, (i + 1 - start) as nat);
                    assert(digits.take((i + 1 - start) as int) =~= s@.subrange(start as int, i + 1));
                }
            }
            return None;
        }
        v = v * 10 + d;
        proof {
            assert forall|j: int| 0 <= j < i + 1 - start implies is_digit(#[trigger] s@.subrange(start as int, i + 1)[j]) by {
                if j < i - start {
                    assert(s@.subrange(start as int, i + 1)[j] == s@.subrange(start as int, i as int)[j]);
                }
            }
        }
        i = i + 1;
    }
    Some(v)
}

proof fn lemma_digits_monotone(cs: Seq<char>, n: nat)
    requires
        n <= cs.len(),
        all_digits(cs),
    ensures
        digits_value(cs.take(n as int)) <= digits_value(cs),
    decreases cs.len() - n,
{
    if n < cs.len() {
        assert(cs.take(n as int + 1).drop_last() =~= cs.take(n as int));
        lemma_digits_monotone(cs, n + 1);
    } else {
        assert(cs.take(n as int) =~= cs);
    }
}

fn check_scale(meta: &Vec<(String, String)>, key: &str) -> (r: Option<FormatError>)
    ensures
        r == scale_error(meta@, key@),
{
    match get(meta, key) {
        None => Some(FormatError::MissingScale),
        Some(v) => match parse_unsigned(v.as_str()) {
            None => Some(FormatError::InvalidScale),
            Some(n) => {
                if n > 255 {
                    Some(FormatError::InvalidScale)
                } else if n > 12 {
                    Some(FormatError::ScaleTooLarge)
                } else {
                    None
                }
            },
        },
    }
}

fn check_sha(s: &str) -> (r: bool)
    ensures
        r == sha_valid(s@),
{
    let n = s.unicode_len();
    if n != 64 {
        return false;
    }
    let mut nonzero = false;
    let mut i: usize = 0;
    while i < n
        invariant
            i <= n == s@.len() == 64,
            forall|j: int| 0 <= j < i ==> is_lower_hex(#[trigger] s@[j]),
            nonzero == exists|j: int| 0 <= j < i && s@[j] != '0',
        decreases n - i,
    {
        let c = s.get_char(i);
        if !(('0' <= c && c <= '9') || ('a' <= c && c <= 'f')) {
            assert(!is_lower_hex(s@[i as int]));
            return false;
        }
        if c != '0' {
            nonzero = true;
        }
        i = i + 1;
    }
    nonzero
}

fn check_names(fields: &Vec<FieldModel>) -> (r: bool)
    ensures
        r == !names_invalid(fields@),
{
    let mut i: usize = 0;
    while i < fields.len()
        invariant
            i <= fields@.len(),
            forall|k: int| 0 <= k < i ==> !(fields@[k].name@.len() == 0 || vstd::utf8::encode_utf8(#[trigger] fields@[k].name@).len() > 128
                || exists|j: int| 0 <= j < k && fields@[j].name@ == fields@[k].name@),
        decreases fields@.len() - i,
    {
        let name = fields[i].name.as_str();
        if name.unicode_len() == 0 || name.as_bytes().len() > 128 {
            assert(fields@[i as int].name@.len() == 0 || vstd::utf8::encode_utf8(fields@[i as int].name@).len() > 128);
            return false;
        }
        let mut j: usize = 0;
        while j < i
            invariant
                j <= i < fields@.len(),
                name@ == fields@[i as int].name@,
                forall|k: int| 0 <= k < j ==> fields@[k].name@ != fields@[i as int].name@,
            decreases i - j,
        {
            if text_equal(fields[j].name.as_str(), name) {
                assert(fields@[j as int].name@ == fields@[i as int].name@);
                assert(exists|jj: int| 0 <= jj < i && fields@[jj].name@ == fields@[i as int].name@);
                return false;
            }
            j = j + 1;
        }
        assert(!(exists|jj: int| 0 <= jj < i && fields@[jj].name@ == fields@[i as int].name@));
        assert(!(fields@[i as int].name@.len() == 0 || vstd::utf8::encode_utf8(fields@[i as int].name@).len() > 128
            || exists|jj: int| 0 <= jj < i && fields@[jj].name@ == fields@[i as int].name@));
        i = i + 1;
    }
    true
}

fn first_of(checks: Vec<Option<FormatError>>) -> (r: Option<FormatError>)
    ensures
        r == first_error(checks@),
{
    let mut i: usize = 0;
    assert(checks@.skip(0) =~= checks@);
    while i < checks.len()
        invariant
            i <= checks@.len(),
            first_error(checks@) == first_error(checks@.skip(i as int)),
        decreases checks@.len() - i,
    {
        proof {
            assert(checks@.skip(i as int).drop_first() =~= checks@.skip(i + 1));
            assert(checks@.skip(i as int)[0] == checks@[i as int]);
        }
        if checks[i].is_some() {
            return checks[i];
        }
        i = i + 1;
    }
    None
}

fn check_family(schema: &SchemaModel, family: Family) -> (r: Option<FormatError>)
    ensures
        r == family_error(*schema, family),
{
    let fields = &schema.fields;
    let meta = &schema.metadata;
    match family {
        Family::Tick => {
            let subtype = get(meta, "gqodb.subtype");
            let trade = match subtype { Some(v) => text_equal(v.as_str(), "trade"), None => false };
            let quote = match subtype { Some(v) => text_equal(v.as_str(), "quote"), None => false };
            if trade {
                let checks = vec![
                    field_check(fields, "price", FieldKind::Int64, false),
                    field_check(fields, "quantity", FieldKind::Int64, false),
                    field_check(fields, "side", FieldKind::Int8, false),
                ];
                first_of(checks)
            } else if quote {
                let checks = vec![
                    field_check(fields, "bid", FieldKind::Int64, false),
                    field_check(fields, "ask", FieldKind::Int64, false),
                    field_check(fields, "bid_quantity", FieldKind::Int64, false),
                    field_check(fields, "ask_quantity", FieldKind::Int64, false),
                ];
                first_of(checks)
            } else {
                Some(FormatError::InvalidSubtype)
            }
        },
        Family::Orderbook => {
            let depth = match get(meta, "gqodb.depth") {
                None => {
                    return Some(FormatError::MissingDepth);
                },
                Some(v) => v,
            };
            let d = match parse_unsigned(depth.as_str()) {
                None => {
                    return Some(FormatError::InvalidDepth);
                },
                Some(d) => d,
            };
            if d > usize::MAX as u64 || !(1 <= d && d <= 100_000) {
                return Some(FormatError::InvalidDepth);
            }
            let checks = vec![
                field_check(fields, "price", FieldKind::Int64, false),
                field_check(fields, "quantity", FieldKind::Int64, false),
                field_check(fields, "level", FieldKind::Int64, false),
                field_check(fields, "side", FieldKind::Int8, false),
                field_check(fields, "action", FieldKind::Int8, false),
            ];
            first_of(checks)
        },
    }
}

/// Checks a schema against the normalized contract of a family.
pub fn validate_schema(schema: &SchemaModel, family: Family) -> (r: Result<(), FormatError>)
    ensures
        schema_error(*schema, family) matches Some(e) ==> r == Err::<(), FormatError>(e),
        schema_error(*schema, family) is None ==> r is Ok,
{
    let fields = &schema.fields;
    let meta = &schema.metadata;
    if !(1 <= fields.len() && fields.len() <= 64) {
        return Err(FormatError::SchemaFieldBound);
    }
    if !check_names(fields) {
        return Err(FormatError::InvalidFieldName);
    }
    let family_ok = match get(meta, "gqodb.family") {
        Some(v) => text_equal(v.as_str(), family.name()),
        None => false,
    };
    if !family_ok {
        return Err(FormatError::FamilyMismatch);
    }
    let version_ok = match get(meta, "gqodb.schema_version") {
        Some(v) => text_equal(v.as_str(), "1"),
        None => false,
    };
    if !version_ok {
        return Err(FormatError::UnknownSchemaVersion);
    }
    let sha = match get(meta, "gqodb.source_sha256") {
        Some(v) => v,
        None => {
            return Err(FormatError::MissingSourceSha);
        },
    };
    if !check_sha(sha.as_str()) {
        return Err(FormatError::InvalidSourceSha);
    }
    if let Some(e) = check_scale(meta, "gqodb.price_decimals") {
        return Err(e);
    }
    if let Some(e) = check_scale(meta, "gqodb.quantity_decimals") {
        return Err(e);
    }
    let common = vec![
        field_check(fields, "source_utc_ns", FieldKind::Int64, true),
        field_check(fields, "received_utc_ns", FieldKind::Int64, true),
        field_check(fields, "clock_error_ns", FieldKind::Int64, true),
        field_check(fields, "available_utc_ns", FieldKind::Int64, false),
        field_check(fields, "sequence", FieldKind::Int64, false),
        field_check(fields, "symbol", FieldKind::LargeUtf8, false),
    ];
    assert(common@ =~= common_field_checks(fields@));
    if let Some(e) = first_of(common) {
        return Err(e);
    }
    match check_family(schema, family) {
        Some(e) => Err(e),
        None => Ok(()),
    }
}

/// Whether field `name` is present (its first occurrence) with the given kind and not nullable.
pub open spec fn has_required_field(fields: Seq<FieldModel>, name: Seq<char>, kind: FieldKind) -> bool {
    find_field(fields, name) matches Some(f) && f.kind == kind && !f.nullable
}

/// The order-book family's own contract: a source book depth of one to 100000, and non-null
/// fields `price`, `quantity` and `level` of 64-bit integers and `side` and `action` of 8-bit
/// integers. A schema meets it exactly when the family's check finds nothing.
pub proof fn lemma_orderbook_contract(schema: SchemaModel)
    ensures
        family_error(schema, Family::Orderbook) is None <==> {
            let fields = schema.fields@;
            &&& lookup(schema.metadata@, "gqodb.depth"@) matches Some(v) && unsigned_of(v) matches Some(d) && 1 <= d
                <= 100_000
            &&& has_required_field(fields, "price"@, FieldKind::Int64)
            &&& has_required_field(fields, "quantity"@, FieldKind::Int64)
            &&& has_required_field(fields, "level"@, FieldKind::Int64)
            &&& has_required_field(fields, "side"@, FieldKind::Int8)
            &&& has_required_field(fields, "action"@, FieldKind::Int8)
        },
{
    reveal_with_fuel(first_error, 6);
}

/// The trade contract of the tick family: subtype `trade`, and non-null fields `price` and
/// `quantity` of 64-bit integers and `side` of 8-bit integers. The quote contract: subtype
/// `quote`, and non-null 64-bit `bid`, `ask`, `bid_quantity` and `ask_quantity`.
pub proof fn lemma_tick_contract(schema: SchemaModel)
    ensures
        family_error(schema, Family::Tick) is None <==> {
            let fields = schema.fields@;
            ||| lookup(schema.metadata@, "gqodb.subtype"@) == Some("trade"@) && has_required_field(fields, "price"@, FieldKind::Int64)
                && has_required_field(fields, "quantity"@, FieldKind::Int64) && has_required_field(fields, "side"@, FieldKind::Int8)
            ||| lookup(schema.metadata@, "gqodb.subtype"@) == Some("quote"@) && has_required_field(fields, "bid"@, FieldKind::Int64)
                && has_required_field(fields, "ask"@, FieldKind::Int64) && has_required_field(fields, "bid_quantity"@, FieldKind::Int64)
                && has_required_field(fields, "ask_quantity"@, FieldKind::Int64)
        },
{
    reveal_with_fuel(first_error, 6);
    reveal_strlit("trade");
    reveal_strlit("quote");
    assert("trade"@[0] != "quote"@[0]);
    assert("trade"@ != "quote"@);
}

/// A schema that meets the whole normalized contract meets its family's own contract, and has
/// one to sixty-four fields.
pub proof fn lemma_schema_meets_family(schema: SchemaModel, family: Family)
    ensures
        schema_error(schema, family) is None ==> family_error(schema, family) is None && 1 <= schema.fields@.len() <= 64,
{
}

/// Whether field `name` is present (its first occurrence) as a 64-bit integer, nulls allowed.
pub open spec fn has_int64_field(fields: Seq<FieldModel>, name: Seq<char>) -> bool {
    find_field(fields, name) matches Some(f) && f.kind == FieldKind::Int64
}

/// The fields both families share: `source_utc_ns`, `received_utc_ns` and `clock_error_ns` of
/// 64-bit integers that may be null, `available_utc_ns` and `sequence` of non-null 64-bit
/// integers, and a non-null `symbol` of large strings.
pub proof fn lemma_common_fields_contract(fields: Seq<FieldModel>)
    ensures
        first_error(common_field_checks(fields)) is None <==> {
            &&& has_int64_field(fields, "source_utc_ns"@)
            &&& has_int64_field(fields, "received_utc_ns"@)
            &&& has_int64_field(fields, "clock_error_ns"@)
            &&& has_required_field(fields, "available_utc_ns"@, FieldKind::Int64)
            &&& has_required_field(fields, "sequence"@, FieldKind::Int64)
            &&& has_required_field(fields, "symbol"@, FieldKind::LargeUtf8)
        },
{
    reveal_with_fuel(first_error, 7);
}

} // verus!
