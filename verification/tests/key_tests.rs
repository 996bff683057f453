use mock_store::key::segment_at_owned;
use mock_store::key::try_segment_at;
use mock_store::key::SegmentIndexError;

#[test]
fn segment_at_owned_extracts_fields() {
    let key = String::from("pool:token0:token1");
    assert_eq!(segment_at_owned(key.clone(), 0), "pool");
    assert_eq!(segment_at_owned(key.clone(), 1), "token0");
    assert_eq!(segment_at_owned(key, 2), "token1");
}

#[test]
fn segment_at_owned_without_colon() {
    assert_eq!(segment_at_owned(String::from("single"), 0), "single");
}

#[test]
fn segment_at_keeps_empty_segments() {
    let key = String::from("a::c");
    assert_eq!(segment_at_owned(key.clone(), 0), "a");
    assert_eq!(segment_at_owned(key.clone(), 1), "");
    assert_eq!(segment_at_owned(key, 2), "c");
}

#[test]
fn try_segment_at_reports_out_of_range() {
    assert_eq!(try_segment_at("a:b", 2), Err(SegmentIndexError { index: 2 }));
    assert_eq!(try_segment_at("a:b", 1), Ok(String::from("b")));
    assert_eq!(try_segment_at("solo", 1), Err(SegmentIndexError { index: 1 }));
}

#[test]
fn segment_at_handles_unicode() {
    let key = String::from("caf\u{e9}:\u{1f600}:end");
    assert_eq!(segment_at_owned(key.clone(), 0), "caf\u{e9}");
    assert_eq!(segment_at_owned(key.clone(), 1), "\u{1f600}");
    assert_eq!(segment_at_owned(key, 2), "end");
}
