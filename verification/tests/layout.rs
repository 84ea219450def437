use gqodb::dictionary::dictionary_ids;
use gqodb::real_layout::{check_restore, ColumnLayout, ColumnType, LayoutError};

fn col(value: usize, validity: Option<usize>, text_lens: Vec<usize>) -> ColumnLayout {
    ColumnLayout { value, validity, text_lens }
}

#[test]
fn layout_of_every_supported_type_passes() {
    let types = vec![
        ColumnType::Int8,
        ColumnType::TimestampMillis,
        ColumnType::Int64,
        ColumnType::Float64,
        ColumnType::Boolean,
        ColumnType::LargeUtf8,
        ColumnType::LargeUtf8,
    ];
    let values = vec![
        vec![-128, 0, 127],
        vec![1, 2, 3],
        vec![i64::MIN, 0, i64::MAX],
        vec![5, 6, 7],
        vec![0, 1, 1],
        vec![0, 1, 0],
        vec![1, 0, 1],
        vec![2, 0, 1],
    ];
    let cols = vec![
        col(0, Some(6), vec![]),
        col(1, None, vec![]),
        col(2, None, vec![]),
        col(3, Some(4), vec![]),
        col(4, None, vec![]),
        col(5, None, vec![3, 4]),
        col(7, Some(6), vec![1, 1, 1]),
    ];
    assert_eq!(check_restore(&types, &cols, &values), Ok(()));
}

#[test]
fn layout_errors_come_in_order() {
    let values = vec![vec![300], vec![2]];
    // A field count other than the layout's comes first.
    assert_eq!(
        check_restore(&vec![ColumnType::Int8], &vec![], &values),
        Err(LayoutError::SchemaDimensions)
    );
    // A missing column comes before any field's values are looked at.
    let types = vec![ColumnType::Int8, ColumnType::Int64];
    let cols = vec![col(0, None, vec![]), col(2, None, vec![])];
    assert_eq!(check_restore(&types, &cols, &values), Err(LayoutError::BadColumn));
    let cols = vec![col(0, None, vec![]), col(1, Some(9), vec![])];
    assert_eq!(check_restore(&types, &cols, &values), Err(LayoutError::BadValidity));
    // A validity mask is checked before the values against the type.
    let cols = vec![col(0, Some(1), vec![]), col(1, None, vec![])];
    assert_eq!(check_restore(&types, &cols, &values), Err(LayoutError::InvalidValidity));
    let cols = vec![col(0, None, vec![]), col(1, None, vec![])];
    assert_eq!(check_restore(&types, &cols, &values), Err(LayoutError::InvalidInt8));
}

#[test]
fn layout_field_errors() {
    let values = vec![vec![0, 2], vec![0, 1, 1], vec![-1], vec![0, 0]];
    assert_eq!(
        check_restore(&vec![ColumnType::Boolean], &vec![col(0, None, vec![])], &values),
        Err(LayoutError::InvalidBool)
    );
    assert_eq!(
        check_restore(&vec![ColumnType::Int64], &vec![col(0, Some(1), vec![])], &values),
        Err(LayoutError::InvalidValidity)
    );
    assert_eq!(
        check_restore(&vec![ColumnType::LargeUtf8], &vec![col(2, None, vec![4])], &values),
        Err(LayoutError::BadDictionaryIndex)
    );
    assert_eq!(
        check_restore(&vec![ColumnType::LargeUtf8], &vec![col(0, None, vec![1, 1])], &values),
        Err(LayoutError::BadDictionaryIndex)
    );
    assert_eq!(
        check_restore(&vec![ColumnType::Unsupported], &vec![col(3, None, vec![])], &values),
        Err(LayoutError::UnsupportedType)
    );
    let half = usize::MAX / 2 + 1;
    assert_eq!(
        check_restore(&vec![ColumnType::LargeUtf8], &vec![col(3, None, vec![half])], &values),
        Err(LayoutError::StringCapacityOverflow)
    );
    // With nulls, the text is not added up.
    assert_eq!(
        check_restore(&vec![ColumnType::LargeUtf8], &vec![col(3, Some(3), vec![half])], &values),
        Ok(())
    );
    assert_eq!(
        check_restore(&vec![ColumnType::Float64], &vec![col(2, None, vec![])], &values),
        Ok(())
    );
}

#[test]
fn string_columns_get_first_occurrence_dictionaries() {
    let (ids, dictionary) = dictionary_ids(&vec!["b", "a", "b", "", "a"]);
    assert_eq!(ids, vec![0, 1, 0, 2, 1]);
    assert_eq!(dictionary, vec!["b".to_string(), "a".to_string(), String::new()]);
    let (ids, dictionary) = dictionary_ids(&vec![]);
    assert!(ids.is_empty() && dictionary.is_empty());
}
