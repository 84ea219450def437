//! The checks that a real block's layout and its integer columns pass before Arrow arrays are
//! rebuilt from them: every field names columns that exist, validity columns are 0/1 masks of the
//! right length, and each field's values fit its type.
use vstd::prelude::*;

verus! {

/// The Arrow type of a field, as far as the rebuild tells types apart.
#[derive(Clone, Copy, Debug, PartialEq, Eq, Structural)]
pub enum ColumnType {
    Int8,
    /// A timestamp in milliseconds, with or without a time zone.
    TimestampMillis,
    Int64,
    Float64,
    Boolean,
    LargeUtf8,
    /// Any other type, which real blocks do not hold.
    Unsupported,
}

/// Where a field's values live among the block's integer columns.
#[derive(Clone, Debug)]
pub struct ColumnLayout {
    /// The integer column holding the field's values (dictionary indices for strings).
    pub value: usize,
    /// The integer column holding the field's 0/1 validity mask, when it has nulls.
    pub validity: Option<usize>,
    /// The byte length of each string in the field's dictionary.
    pub text_lens: Vec<usize>,
}

/// Why a layout does not fit the columns it came with.
#[derive(Clone, Copy, Debug, PartialEq, Eq, Structural)]
pub enum LayoutError {
    /// A field count other than the layout's column count.
    SchemaDimensions,
    /// A field whose value column is past the block's columns.
    BadColumn,
    /// A field whose validity column is past the block's columns.
    BadValidity,
    /// A validity column of another length than the values, or with values other than 0 and 1.
    InvalidValidity,
    /// An 8-bit integer field with a value out of range.
    InvalidInt8,
    /// A boolean field with values other than 0 and 1.
    InvalidBool,
    /// A string field with an index outside its dictionary.
    BadDictionaryIndex,
    /// A string field without nulls whose text takes more bytes than memory can address.
    StringCapacityOverflow,
    /// A field of a type that real blocks do not hold.
    UnsupportedType,
}

pub open spec fn all_bits(s: Seq<i64>) -> bool {
    forall|j: int| 0 <= j < s.len() ==> #[trigger] s[j] == 0 || s[j] == 1
}

pub open spec fn all_int8(s: Seq<i64>) -> bool {
    forall|j: int| 0 <= j < s.len() ==> -128 <= #[trigger] s[j] <= 127
}

pub open spec fn all_indices(s: Seq<i64>, n: int) -> bool {
    forall|j: int| 0 <= j < s.len() ==> 0 <= #[trigger] s[j] < n
}

/// The bytes of text that the dictionary indices `ids` spell out.
pub open spec fn text_bytes(ids: Seq<i64>, lens: Seq<usize>) -> int
    decreases ids.len(),
{
    if ids.len() == 0 {
        0
    } else {
        text_bytes(ids.drop_last(), lens) + lens[ids.last() as int]
    }
}

/// The first field, from `k` on, whose value or validity column is not among `count` columns.
pub open spec fn refs_error_from(cols: Seq<ColumnLayout>, count: int, k: int) -> Option<LayoutError>
    decreases cols.len() - k,
{
    if k < 0 || k >= cols.len() {
        None
    } else if cols[k].value >= count {
        Some(LayoutError::BadColumn)
    } else if cols[k].validity is Some && cols[k].validity.unwrap() >= count {
        Some(LayoutError::BadValidity)
    } else {
        refs_error_from(cols, count, k + 1)
    }
}

/// What is wrong with one field whose columns exist, if anything: first its validity mask, then
/// its values against its type.
pub open spec fn field_error(ty: ColumnType, col: ColumnLayout, values: Seq<Vec<i64>>) -> Option<LayoutError> {
    let v = values[col.value as int]@;
    if col.validity is Some && !(values[col.validity.unwrap() as int]@.len() == v.len() && all_bits(
        values[col.validity.unwrap() as int]@,
    )) {
        Some(LayoutError::InvalidValidity)
    } else {
        match ty {
            ColumnType::Int8 => if all_int8(v) {
                None
            } else {
                Some(LayoutError::InvalidInt8)
            },
            ColumnType::Boolean => if all_bits(v) {
                None
            } else {
                Some(LayoutError::InvalidBool)
            },
            ColumnType::LargeUtf8 => if !all_indices(v, col.text_lens@.len() as int) {
                Some(LayoutError::BadDictionaryIndex)
            } else if col.validity is None && text_bytes(v, col.text_lens@) > usize::MAX {
                Some(LayoutError::StringCapacityOverflow)
            } else {
                None
            },
            ColumnType::Unsupported => Some(LayoutError::UnsupportedType),
            _ => None,
        }
    }
}

/// The first field, from `k` on, that [`field_error`] refuses.
pub open spec fn fields_error_from(types: Seq<ColumnType>, cols: Seq<ColumnLayout>, values: Seq<Vec<i64>>, k: int) -> Option<
    LayoutError,
>
    decreases cols.len() - k,
{
    if k < 0 || k >= cols.len() {
        None
    } else if field_error(types[k], cols[k], values) is Some {
        field_error(types[k], cols[k], values)
    } else {
        fields_error_from(types, cols, values, k + 1)
    }
}

/// What rebuilding fields of types `types`, laid out as `cols`, from `values` is refused for:
/// first a field count other than the layout's, then a column that is not there, then the first
/// field whose columns do not fit its type.
pub open spec fn restore_error(types: Seq<ColumnType>, cols: Seq<ColumnLayout>, values: Seq<Vec<i64>>) -> Option<LayoutError> {
    if types.len() != cols.len() {
        Some(LayoutError::SchemaDimensions)
    } else if refs_error_from(cols, values.len() as int, 0) is Some {
        refs_error_from(cols, values.len() as int, 0)
    } else {
        fields_error_from(types, cols, values, 0)
    }
}

pub open spec fn restore_result(types: Seq<ColumnType>, cols: Seq<ColumnLayout>, values: Seq<Vec<i64>>) -> Result<(), LayoutError> {
    match restore_error(types, cols, values) {
        None => Ok(()),
        Some(e) => Err(e),
    }
}

proof fn lemma_text_bytes_grows(ids: Seq<i64>, lens: Seq<usize>, i: int, j: int)
    requires
        0 <= i <= j <= ids.len(),
    ensures
        0 <= text_bytes(ids.subrange(0, i), lens) <= text_bytes(ids.subrange(0, j), lens),
    decreases j,
{
    if i < j {
        lemma_text_bytes_grows(ids, lens, i, j - 1);
        assert(ids.subrange(0, j).drop_last() =~= ids.subrange(0, j - 1));
    } else {
        lemma_text_bytes_nonneg(ids.subrange(0, i), lens);
    }
}

proof fn lemma_text_bytes_nonneg(ids: Seq<i64>, lens: Seq<usize>)
    ensures
        0 <= text_bytes(ids, lens),
    decreases ids.len(),
{
    if ids.len() > 0 {
        lemma_text_bytes_nonneg(ids.drop_last(), lens);
    }
}

/// The bytes of text that `ids` spell out, or `None` where that count does not fit in `usize`.
fn text_total(ids: &Vec<i64>, lens: &Vec<usize>) -> (r: Option<usize>)
    requires
        all_indices(ids@, lens@.len() as int),
    ensures
        r is Some <==> text_bytes(ids@, lens@) <= usize::MAX,
        r is Some ==> r.unwrap() == text_bytes(ids@, lens@),
{
    let mut total: usize = 0;
    let mut i: usize = 0;
    while i < ids.len()
        invariant
            i <= ids.len(),
            all_indices(ids@, lens@.len() as int),
            total == text_bytes(ids@.subrange(0, i as int), lens@),
        decreases ids.len() - i,
    {
        let id = ids[i];
        assert(0 <= id < lens@.len());
        let len = lens.len();
        let idx = id as usize;
        assert(idx as int == id as int) by (bit_vector)
            requires
                0 <= id,
                id < len,
                idx == id as usize,
        ;
        let n = lens[idx];
        proof {
            let pre = ids@.subrange(0, i + 1);
            assert(pre.drop_last() =~= ids@.subrange(0, i as int));
            assert(pre.last() == id);
            assert(n == lens@[id as int]);
            assert(text_bytes(pre, lens@) == text_bytes(pre.drop_last(), lens@) + lens@[pre.last() as int]);
            assert(text_bytes(pre, lens@) == text_bytes(ids@.subrange(0, i as int), lens@) + n);
        }
        match total.checked_add(n) {
            Some(t) => {
                total = t;
            },
            None => {
                proof {
                    lemma_text_bytes_grows(ids@, lens@, i + 1, ids@.len() as int);
                    assert(ids@.subrange(0, ids@.len() as int) =~= ids@);
                }
                return None;
            },
        }
        i = i + 1;
    }
    assert(ids@.subrange(0, i as int) =~= ids@);
    Some(total)
}

fn all_bits_of(s: &Vec<i64>) -> (r: bool)
    ensures
        r == all_bits(s@),
{
    let mut i: usize = 0;
    while i < s.len()
        invariant
            i <= s.len(),
            forall|j: int| 0 <= j < i ==> #[trigger] s@[j] == 0 || s@[j] == 1,
        decreases s.len() - i,
    {
        if s[i] != 0 && s[i] != 1 {
            return false;
        }
        i = i + 1;
    }
    true
}

fn all_int8_of(s: &Vec<i64>) -> (r: bool)
    ensures
        r == all_int8(s@),
{
    let mut i: usize = 0;
    while i < s.len()
        invariant
            i <= s.len(),
            forall|j: int| 0 <= j < i ==> -128 <= #[trigger] s@[j] <= 127,
        decreases s.len() - i,
    {
        if s[i] < -128 || s[i] > 127 {
            return false;
        }
        i = i + 1;
    }
    true
}

fn all_indices_of(s: &Vec<i64>, n: usize) -> (r: bool)
    ensures
        r == all_indices(s@, n as int),
{
    let mut i: usize = 0;
    while i < s.len()
        invariant
            i <= s.len(),
            forall|j: int| 0 <= j < i ==> 0 <= #[trigger] s@[j] < n,
        decreases s.len() - i,
    {
        if s[i] < 0 || (s[i] as u64) >= (n as u64) {
            return false;
        }
        i = i + 1;
    }
    true
}

/// The first field whose value or validity column is not among `count` columns.
fn check_refs(cols: &Vec<ColumnLayout>, count: usize) -> (r: Option<LayoutError>)
    ensures
        r == refs_error_from(cols@, count as int, 0),
{
    let mut k: usize = 0;
    while k < cols.len()
        invariant
            k <= cols.len(),
            refs_error_from(cols@, count as int, 0) == refs_error_from(cols@, count as int, k as int),
        decreases cols.len() - k,
    {
        if cols[k].value >= count {
            return Some(LayoutError::BadColumn);
        }
        match cols[k].validity {
            Some(i) => {
                if i >= count {
                    return Some(LayoutError::BadValidity);
                }
            },
            None => {},
        }
        k = k + 1;
    }
    None
}

/// What is wrong with one field whose columns exist, if anything.
fn check_field(ty: ColumnType, col: &ColumnLayout, values: &Vec<Vec<i64>>) -> (r: Option<LayoutError>)
    requires
        col.value < values.len(),
        col.validity is Some ==> col.validity.unwrap() < values.len(),
    ensures
        r == field_error(ty, *col, values@),
{
    let v = &values[col.value];
    match col.validity {
        Some(i) => {
            if values[i].len() != v.len() || !all_bits_of(&values[i]) {
                return Some(LayoutError::InvalidValidity);
            }
        },
        None => {},
    }
    match ty {
        ColumnType::Int8 => if all_int8_of(v) {
            None
        } else {
            Some(LayoutError::InvalidInt8)
        },
        ColumnType::Boolean => if all_bits_of(v) {
            None
        } else {
            Some(LayoutError::InvalidBool)
        },
        ColumnType::LargeUtf8 => {
            if !all_indices_of(v, col.text_lens.len()) {
                Some(LayoutError::BadDictionaryIndex)
            } else if col.validity.is_none() && text_total(v, &col.text_lens).is_none() {
                Some(LayoutError::StringCapacityOverflow)
            } else {
                None
            }
        },
        ColumnType::Unsupported => Some(LayoutError::UnsupportedType),
        _ => None,
    }
}

/// Checks a real block's layout against its integer columns before its fields are rebuilt:
/// `Ok` exactly when [`restore_error`] finds nothing, else the error it names.
pub fn check_restore(types: &Vec<ColumnType>, cols: &Vec<ColumnLayout>, values: &Vec<Vec<i64>>) -> (r: Result<(), LayoutError>)
    ensures
        r == restore_result(types@, cols@, values@),
{
    if types.len() != cols.len() {
        return Err(LayoutError::SchemaDimensions);
    }
    match check_refs(cols, values.len()) {
        Some(e) => {
            return Err(e);
        },
        None => {},
    }
    let mut k: usize = 0;
    while k < cols.len()
        invariant
            k <= cols.len(),
            types.len() == cols.len(),
            refs_error_from(cols@, values@.len() as int, 0) is None,
            fields_error_from(types@, cols@, values@, 0) == fields_error_from(types@, cols@, values@, k as int),
        decreases cols.len() - k,
    {
        proof {
            lemma_refs_hold(cols@, values@.len() as int, 0, k as int);
        }
        match check_field(types[k], &cols[k], values) {
            Some(e) => {
                return Err(e);
            },
            None => {},
        }
        k = k + 1;
    }
    Ok(())
}

/// Where no field from `from` on lacks a column, field `k` has both of its.
proof fn lemma_refs_hold(cols: Seq<ColumnLayout>, count: int, from: int, k: int)
    requires
        0 <= from <= k < cols.len(),
        refs_error_from(cols, count, from) is None,
    ensures
        cols[k].value < count,
        cols[k].validity is Some ==> cols[k].validity.unwrap() < count,
    decreases k - from,
{
    if from < k {
        lemma_refs_hold(cols, count, from + 1, k);
    }
}

} // verus!
