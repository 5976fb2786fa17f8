use rumoca_lower::ranges::{build_range_values, positive_range_indices};
use rumoca_lower::root_relations::relation_memory_key;
use rumoca_lower::shape::{flat_index_from_one_based_indices, projection_indices_for_dims};
use rumoca_lower::span::{SourceId, Span};
use rumoca_lower::strings::find_string_special_value;
use rumoca_lower::subscripts::{positive_i64_index, Subscript};
use rumoca_lower::text::{format_i64_dims, format_usize_dims};

fn span(source: u64) -> Span {
    Span::from_offsets(SourceId::new(source), 1, 2)
}

#[test]
fn dims_are_written_as_bracketed_lists() {
    assert_eq!(format_usize_dims(&[2, 3]), "[2, 3]");
    assert_eq!(format_i64_dims(&[-1, 0, 12]), "[-1, 0, 12]");
    assert_eq!(format_usize_dims(&[]), "[]");
}

#[test]
fn string_find_counts_bytes_from_one() {
    assert_eq!(find_string_special_value(false, "abcabc", "bc", span(1)).unwrap(), 2);
    assert_eq!(find_string_special_value(true, "abcabc", "bc", span(1)).unwrap(), 5);
    assert_eq!(find_string_special_value(false, "äbc", "b", span(1)).unwrap(), 3);
    assert_eq!(find_string_special_value(false, "abc", "", span(1)).unwrap(), 1);
    assert_eq!(find_string_special_value(true, "abc", "", span(1)).unwrap(), 4);
}

#[test]
fn relation_memory_keys_list_index_values() {
    let subscripts = [Subscript::Index { value: 1, span: span(2) }, Subscript::Index { value: 3, span: span(2) }];
    assert_eq!(relation_memory_key("pre.x", &subscripts).unwrap(), "pre.x[1,3]");
    assert_eq!(relation_memory_key("x", &[]).unwrap(), "x");
    let err = relation_memory_key("x", &[Subscript::Colon { span: span(3) }]).unwrap_err();
    assert_eq!(err.source_span(), Some(span(3)));
    assert_eq!(
        err.reason(),
        "invalid IR contract: relation memory target contains a non-index generated subscript"
    );
}

#[test]
fn subscript_index_accepts_zero_and_positive_values() {
    assert_eq!(positive_i64_index(0, span(4)).unwrap(), 0);
    assert_eq!(positive_i64_index(17, span(4)).unwrap(), 17);
    let err = positive_i64_index(-3, span(4)).unwrap_err();
    assert_eq!(err.reason(), "invalid IR contract: subscript index -3 exceeds host index range");
    assert_eq!(err.source_span(), Some(span(4)));
}

#[test]
fn ranges_step_to_their_end() {
    assert_eq!(positive_range_indices(1, 2, 7, span(5)).unwrap(), vec![1, 3, 5, 7]);
    assert_eq!(positive_range_indices(5, -2, 1, span(5)).unwrap(), vec![5, 3, 1]);
    assert!(positive_range_indices(3, 1, 1, span(5)).unwrap().is_empty());
    let err = positive_range_indices(1, 0, 3, span(5)).unwrap_err();
    assert_eq!(err.reason(), "zero derivative slice range step is unsupported");
    let err = positive_range_indices(0, 1, 2, span(5)).unwrap_err();
    assert_eq!(err.reason(), "derivative slice range index must be positive");
    assert_eq!(build_range_values(1, 4, 2), vec![1, 3]);
    assert_eq!(build_range_values(i64::MAX - 1, i64::MAX, 1), vec![i64::MAX - 1, i64::MAX]);
}

#[test]
fn flat_positions_and_indices_round_trip() {
    let indices = projection_indices_for_dims(&[2, 3], 4).unwrap();
    assert_eq!(indices, vec![2, 2]);
    assert_eq!(flat_index_from_one_based_indices(&[2, 3], &indices, span(6)).unwrap(), 4);
    assert_eq!(projection_indices_for_dims(&[2, 3], 6), None);
    assert_eq!(projection_indices_for_dims(&[-1, 3], 6), Some(vec![7]));
}
