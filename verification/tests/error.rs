use musefs_format::error::FormatError;
use musefs_format::layout::LayoutError;

#[test]
fn invalid_layout_carries_inner_layout_error() {
    let e: FormatError = LayoutError::EmptySegment.into();
    assert!(matches!(
        e,
        FormatError::InvalidLayout(LayoutError::EmptySegment)
    ));

    assert!(e.message().contains("zero length"));
}

#[test]
fn producer_bug_carries_reason() {
    let e = FormatError::ProducerBug("no leading Inline");
    assert!(e.message().contains("no leading Inline"));
}
