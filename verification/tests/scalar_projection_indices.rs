use rumoca_lower::scalar_projection::{cross_component_indices, transpose_source_index};
use rumoca_lower::span::{SourceId, Span};

#[test]
fn transpose_reads_the_mirrored_element() {
    let span = Span::from_offsets(SourceId::new(41), 0, 9);
    // a is 2x3; transpose(a) is 3x2; result element (r, c) = a[c][r].
    for flat in 0..6usize {
        let (r, c) = (flat / 2, flat % 2);
        assert_eq!(transpose_source_index(1, &[2, 3], &[3, 2], flat, span), Ok(Some(c * 3 + r)));
    }
    assert_eq!(transpose_source_index(1, &[2, 3], &[3, 2], 6, span), Ok(None));
    assert_eq!(transpose_source_index(1, &[2, 3], &[2, 3], 0, span), Ok(None));
    let err = transpose_source_index(2, &[2, 3], &[3, 2], 0, span).unwrap_err();
    assert_eq!(
        err.reason(),
        "invalid IR contract: transpose() in derivative projection requires one argument, found 2"
    );
    let err = transpose_source_index(1, &[4], &[4], 0, span).unwrap_err();
    assert_eq!(err.reason(), "transpose() requires a matrix input, got shape [4]");
}

#[test]
fn cross_components_follow_the_cyclic_formula() {
    let span = Span::dummy();
    assert_eq!(cross_component_indices(&[3], 0, 2, &[3], &[3], span), Ok(Some((1, 2, 2, 1))));
    assert_eq!(cross_component_indices(&[3], 1, 2, &[3], &[3], span), Ok(Some((2, 0, 0, 2))));
    assert_eq!(cross_component_indices(&[3], 2, 2, &[3], &[3], span), Ok(Some((0, 1, 1, 0))));
    assert_eq!(cross_component_indices(&[3], 3, 2, &[3], &[3], span), Ok(None));
    assert_eq!(cross_component_indices(&[3], 0, 2, &[2], &[3], span), Ok(None));
    let err = cross_component_indices(&[3], 0, 1, &[3], &[3], span).unwrap_err();
    assert_eq!(err.reason(), "cross() derivative projection requires two vector arguments");
}
