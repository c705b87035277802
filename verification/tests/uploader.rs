use offline_store::errors::TransferError;
use offline_store::progress::{ProgressReader, PROGRESS_EMIT_THRESHOLD};
use offline_store::upload::prepare_upload;

#[test]
fn cancellation_before_first_byte_is_cancelled_not_failed() {
    let r = ProgressReader::new("u1".to_string(), 100);
    let outcome = r.check_cancelled(true);
    assert!(matches!(outcome, Err(TransferError::Cancelled)));
    assert!(!matches!(outcome, Err(TransferError::Failed(_))));
}

#[test]
fn unset_flag_lets_the_read_proceed() {
    let r = ProgressReader::new("u1".to_string(), 100);
    assert!(matches!(r.check_cancelled(false), Ok(())));
}

#[test]
fn end_of_stream_emits_done() {
    let mut r = ProgressReader::new("u1".to_string(), 100);
    let e = r.on_read(0).expect("end of stream must emit");
    assert_eq!(e.upload_id, "u1");
    assert_eq!(e.loaded, 0);
    assert_eq!(e.total, 100);
    assert!(e.done);
}

#[test]
fn small_reads_coalesce_until_the_threshold() {
    let total = 4 * PROGRESS_EMIT_THRESHOLD;
    let mut r = ProgressReader::new("u1".to_string(), total);
    assert!(r.on_read(30_000).is_none()); // under 64 KiB since last emission
    let e = r.on_read(40_000).expect("threshold reached");
    assert_eq!(e.loaded, 70_000);
    assert!(!e.done);
    assert!(r.on_read(10_000).is_none()); // counter restarted at the emission
}

#[test]
fn reaching_the_total_emits_done() {
    let mut r = ProgressReader::new("u1".to_string(), 100);
    let e = r.on_read(100).expect("stream about to end must emit");
    assert_eq!(e.loaded, 100);
    assert!(e.done);
}

#[test]
fn blank_url_fails_before_anything_is_sent() {
    for url in ["", "   ", "\t\n", "\u{a0}", "\u{b}\u{c}", " \u{2003}\u{3000}\u{85} "] {
        match prepare_upload(url, "{}") {
            Err(TransferError::Failed(m)) => assert_eq!(m, "Missing Apps Script URL"),
            other => panic!("expected a Failed error, got {:?}", other),
        }
    }
}

#[test]
fn prepared_body_wraps_the_payload_verbatim() {
    let payload = "{\"receipt\":\"r-1\",\"n\":3}";
    let req = prepare_upload("https://example.invalid/exec", payload).expect("url is not blank");
    assert_eq!(
        req.body,
        format!("{{\"action\":\"uploadPaymentAttachment\",\"payload\":{}}}", payload)
    );
    assert_eq!(req.content_length, req.body.len());
}

#[test]
fn byte_accounting_saturates_instead_of_wrapping() {
    let mut r = ProgressReader::new("u1".to_string(), u64::MAX);
    let e = r.on_read(usize::MAX).expect("reaching the total emits");
    assert_eq!(e.loaded, u64::MAX);
    assert!(e.done);
    let e = r.on_read(5).expect("still at the total");
    assert_eq!(e.loaded, u64::MAX); // saturated, not wrapped
    assert!(e.done);
}
