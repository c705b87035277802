use offline_store::data_url::{build_data_url, parse_data_url};
use offline_store::errors::DataUrlError;

#[test]
fn build_produces_the_canonical_data_url() {
    // fails if the base64 wrapper handed its input back unchanged
    let url = build_data_url(b"image/png", b"hello");
    assert_eq!(url, b"data:image/png;base64,aGVsbG8=".to_vec());
}

#[test]
fn build_of_empty_payload_has_empty_base64() {
    let url = build_data_url(b"m", b"");
    assert_eq!(url, b"data:m;base64,".to_vec());
}

#[test]
fn parse_splits_mime_and_decodes_payload() {
    let (mime, bytes) = parse_data_url(b"data:image/png;base64,aGVsbG8=").expect("valid");
    assert_eq!(mime, b"image/png".to_vec());
    assert_eq!(bytes, b"hello".to_vec());
}

#[test]
fn parse_tolerates_surrounding_and_inner_whitespace() {
    let (mime, bytes) = parse_data_url(b"  data:image/png;base64,aGVs\nbG8=\t ").expect("valid");
    assert_eq!(mime, b"image/png".to_vec());
    assert_eq!(bytes, b"hello".to_vec());
}

#[test]
fn parse_without_comma_uses_the_default_mime() {
    let (mime, bytes) = parse_data_url(b"aGVsbG8=").expect("bare base64 is accepted");
    assert_eq!(mime, b"application/octet-stream".to_vec());
    assert_eq!(bytes, b"hello".to_vec());
}

#[test]
fn parse_strips_repeated_scheme_markers() {
    let (mime, bytes) = parse_data_url(b"data:data:x,aGVsbG8=").expect("valid");
    assert_eq!(mime, b"x".to_vec());
    assert_eq!(bytes, b"hello".to_vec());
}

#[test]
fn parse_stops_the_mime_at_the_first_semicolon() {
    let (mime, _) = parse_data_url(b"data:text/plain;charset=utf-8;base64,aGVsbG8=")
        .expect("valid");
    assert_eq!(mime, b"text/plain".to_vec());
}

#[test]
fn parse_rejects_garbage_payload() {
    assert_eq!(parse_data_url(b"data:x,!!!"), Err(DataUrlError::InvalidBase64));
}

#[test]
fn parse_rejects_non_canonical_padding() {
    assert_eq!(parse_data_url(b"data:x,aGVsbG8"), Err(DataUrlError::InvalidBase64));
}

#[test]
fn build_then_parse_round_trips() {
    let bytes: Vec<u8> = (0u8..=255).collect();
    let url = build_data_url(b"application/pdf", &bytes);
    let (mime, back) = parse_data_url(&url).expect("a built URL parses");
    assert_eq!(mime, b"application/pdf".to_vec());
    assert_eq!(back, bytes);
}

#[test]
fn parse_tolerates_unicode_whitespace() {
    // no-break spaces around the text and inside the payload, as a Unicode
    // trim and whitespace removal would treat them
    let (mime, bytes) =
        parse_data_url("\u{a0} data:image/png;base64,aGVs\u{a0}bG8=\u{3000}".as_bytes())
            .expect("valid");
    assert_eq!(mime, b"image/png".to_vec());
    assert_eq!(bytes, b"hello".to_vec());
}

#[test]
fn parse_tolerates_vertical_tab_and_form_feed() {
    let (_, bytes) = parse_data_url(b"\x0bdata:x,aGVs\x0cbG8=\x0b").expect("valid");
    assert_eq!(bytes, b"hello".to_vec());
}
