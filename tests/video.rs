use bytetube::range::{parse_range, ByteRange, RangeDecision};
use bytetube::stream::{serve_content, stream_video, VideoStreamError};

fn source(n: usize) -> Vec<u8> {
    (0..n).map(|i| (i % 251) as u8).collect()
}

#[test]
fn partial_range_in_middle() {
    let content = source(1000);
    let r = serve_content(content.clone(), "video/mp4", Some(b"bytes=100-199".as_slice()));
    assert_eq!(r.status, 206);
    assert_eq!(r.content_range, Some(b"bytes 100-199/1000".to_vec()));
    assert_eq!(r.content_length, Some(100));
    assert_eq!(r.body.len(), 100);
    assert_eq!(r.body, content[100..200].to_vec());
    assert_eq!(r.content_type, Some("video/mp4".to_string()));
}

#[test]
fn range_past_end_is_unsatisfiable() {
    let r = serve_content(source(1000), "video/mp4", Some(b"bytes=2000-2100".as_slice()));
    assert_eq!(r.status, 416);
    assert_eq!(r.content_range, Some(b"bytes */1000".to_vec()));
    assert!(r.body.is_empty());
}

#[test]
fn start_equal_to_size_is_unsatisfiable() {
    let r = serve_content(source(10), "video/mp4", Some(b"bytes=10-".as_slice()));
    assert_eq!(r.status, 416);
    assert_eq!(r.content_range, Some(b"bytes */10".to_vec()));
}

#[test]
fn no_header_serves_everything() {
    let content = source(1000);
    let r = serve_content(content.clone(), "video/mp4", None);
    assert_eq!(r.status, 200);
    assert_eq!(r.content_length, Some(1000));
    assert_eq!(r.content_range, None);
    assert_eq!(r.body, content);
}

#[test]
fn open_range_from_zero_matches_full_body() {
    let content = source(777);
    let full = serve_content(content.clone(), "video/mp4", None);
    let ranged = serve_content(content, "video/mp4", Some(b"bytes=0-".as_slice()));
    assert_eq!(ranged.status, 206);
    assert_eq!(ranged.content_range, Some(b"bytes 0-776/777".to_vec()));
    assert_eq!(ranged.body, full.body);
}

#[test]
fn end_is_clamped_to_last_byte() {
    let content = source(1000);
    let r = serve_content(content.clone(), "video/mp4", Some(b"bytes=990-5000".as_slice()));
    assert_eq!(r.status, 206);
    assert_eq!(r.content_range, Some(b"bytes 990-999/1000".to_vec()));
    assert_eq!(r.content_length, Some(10));
    assert_eq!(r.body, content[990..].to_vec());
}

#[test]
fn header_without_bytes_unit_is_rejected() {
    let r = serve_content(source(100), "video/mp4", Some(b"items=0-10".as_slice()));
    assert_eq!(r.status, 400);
    assert_eq!(r.body, b"Invalid Range header".to_vec());
    assert_eq!(parse_range(Some(b"items=0-10".as_slice()), 100), RangeDecision::Malformed);
}

#[test]
fn header_with_control_byte_is_rejected() {
    assert_eq!(parse_range(Some(b"bytes=0-\x01".as_slice()), 100), RangeDecision::Malformed);
}

#[test]
fn unparsable_start_defaults_to_zero() {
    assert_eq!(
        parse_range(Some(b"bytes=abc-5".as_slice()), 100),
        RangeDecision::Satisfiable(ByteRange { start: 0, end: 5, total: 100 })
    );
}

#[test]
fn unparsable_end_defaults_to_last_byte() {
    assert_eq!(
        parse_range(Some(b"bytes=5-xyz".as_slice()), 100),
        RangeDecision::Satisfiable(ByteRange { start: 5, end: 99, total: 100 })
    );
}

#[test]
fn plus_sign_and_overflow_follow_decimal_parsing() {
    assert_eq!(
        parse_range(Some(b"bytes=+7-+9".as_slice()), 100),
        RangeDecision::Satisfiable(ByteRange { start: 7, end: 9, total: 100 })
    );
    assert_eq!(
        parse_range(Some(b"bytes=99999999999999999999-3".as_slice()), 100),
        RangeDecision::Satisfiable(ByteRange { start: 0, end: 3, total: 100 })
    );
    assert_eq!(
        parse_range(Some(b"bytes=18446744073709551615-".as_slice()), 100),
        RangeDecision::Unsatisfiable
    );
}

#[test]
fn only_first_directive_counts() {
    assert_eq!(
        parse_range(Some(b"bytes=0-1,5-6".as_slice()), 100),
        RangeDecision::Satisfiable(ByteRange { start: 0, end: 99, total: 100 })
    );
}

#[test]
fn reversed_span_serves_everything() {
    assert_eq!(parse_range(Some(b"bytes=5-2".as_slice()), 100), RangeDecision::Full);
    let r = serve_content(source(100), "video/mp4", Some(b"bytes=5-2".as_slice()));
    assert_eq!(r.status, 200);
}

#[test]
fn empty_content_is_never_satisfiable() {
    let r = serve_content(Vec::new(), "video/mp4", Some(b"bytes=0-".as_slice()));
    assert_eq!(r.status, 416);
    assert_eq!(r.content_range, Some(b"bytes */0".to_vec()));
    assert_eq!(parse_range(None, 0), RangeDecision::Full);
}

#[test]
fn errors_map_to_status_and_body() {
    let r = stream_video(Err(VideoStreamError::ContentNotFound("abc".to_string())), "video/mp4", None);
    assert_eq!(r.status, 404);
    assert_eq!(r.body, b"Video not found: abc".to_vec());
    let r = stream_video(Err(VideoStreamError::FileOpenError("denied".to_string())), "video/mp4", None);
    assert_eq!(r.status, 500);
    assert_eq!(r.body, b"Error opening the video file".to_vec());
    let r = stream_video(
        Err(VideoStreamError::UpstreamFetchError("connection refused".to_string())),
        "video/mp4",
        Some(b"bytes=0-1".as_slice()),
    );
    assert_eq!(r.status, 500);
    assert_eq!(r.body, b"connection refused".to_vec());
    let e = VideoStreamError::InvalidRangeHeader("x".to_string());
    assert_eq!(e.status_code(), 400);
    assert_eq!(e.message(), "Invalid Range header");
}

#[test]
fn loaded_content_is_served() {
    let r = stream_video(Ok(source(1000)), "video/mp4", Some(b"bytes=100-199".as_slice()));
    assert_eq!(r.status, 206);
    assert_eq!(r.content_range, Some(b"bytes 100-199/1000".to_vec()));
}
