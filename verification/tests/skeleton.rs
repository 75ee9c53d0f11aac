//! Smoke tests of construction basics.

use xc3_codec::stream::Stream;

#[test]
fn test() {}

#[test]
fn stream_starts_empty() {
    let s = Stream::new();
    assert_eq!(0, s.data.len());
}
