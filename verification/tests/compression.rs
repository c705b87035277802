use offline_store::compress::{select_compression, Candidate};

fn cand(mime: &str, bytes: &[u8]) -> Candidate {
    Candidate { mime_type: mime.as_bytes().to_vec(), bytes: bytes.to_vec() }
}

#[test]
fn picks_the_smallest_candidate() {
    let r = select_compression(
        b"image/png".to_vec(),
        vec![0u8; 100],
        800,
        600,
        400,
        300,
        vec![cand("image/webp", &[1u8; 40]), cand("image/jpeg", &[2u8; 60])],
    );
    assert_eq!(r.mime_type, b"image/webp".to_vec());
    assert_eq!(r.bytes, 40);
    assert_eq!((r.width, r.height), (400, 300));
}

#[test]
fn ties_keep_the_earlier_candidate() {
    let r = select_compression(
        b"image/png".to_vec(),
        vec![0u8; 100],
        800,
        600,
        400,
        300,
        vec![cand("image/webp", &[1u8; 50]), cand("image/jpeg", &[2u8; 50])],
    );
    assert_eq!(r.mime_type, b"image/webp".to_vec());
}

#[test]
fn keeps_the_original_when_no_candidate_is_smaller() {
    let r = select_compression(
        b"image/png".to_vec(),
        vec![0u8; 30],
        800,
        600,
        400,
        300,
        vec![cand("image/webp", &[1u8; 40]), cand("image/jpeg", &[2u8; 60])],
    );
    assert_eq!(r.mime_type, b"image/png".to_vec());
    assert_eq!(r.bytes, 30);
    assert_eq!((r.width, r.height), (800, 600));
}

#[test]
fn no_candidates_returns_the_original_with_its_dimensions() {
    // the shape the caller uses when the source image cannot be decoded
    let r = select_compression(b"image/gif".to_vec(), b"hello".to_vec(), 0, 0, 0, 0, vec![]);
    assert_eq!(r.mime_type, b"image/gif".to_vec());
    assert_eq!(r.bytes, 5);
    assert_eq!((r.width, r.height), (0, 0));
    assert_eq!(r.data_url, b"data:image/gif;base64,aGVsbG8=".to_vec());
}

#[test]
fn result_data_url_carries_the_chosen_bytes() {
    let r = select_compression(
        b"image/png".to_vec(),
        vec![0u8; 100],
        800,
        600,
        400,
        300,
        vec![cand("image/webp", b"hello")],
    );
    assert_eq!(r.data_url, b"data:image/webp;base64,aGVsbG8=".to_vec());
}
