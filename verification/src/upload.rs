//! Preparation of one upload: validate the endpoint, wrap the serialized
//! payload in the request envelope, and fix the exact body length the
//! transport must announce. The single HTTP round trip itself is performed
//! by the surrounding I/O layer with exactly what is prepared here.
use vstd::prelude::*;
use vstd::string::*;
use vstd::utf8::encode_utf8;
use crate::errors::TransferError;

verus! {

/// True when `c` is a whitespace character: the characters with Unicode's
/// White_Space property, the set Rust's `char::is_whitespace` accepts.
pub open spec fn is_space_char(c: char) -> bool {
    ||| 0x9 <= (c as u32) <= 0xD
    ||| c == ' '
    ||| (c as u32) == 0x85
    ||| (c as u32) == 0xA0
    ||| (c as u32) == 0x1680
    ||| 0x2000 <= (c as u32) <= 0x200A
    ||| (c as u32) == 0x2028
    ||| (c as u32) == 0x2029
    ||| (c as u32) == 0x202F
    ||| (c as u32) == 0x205F
    ||| (c as u32) == 0x3000
}

/// True when `s` holds nothing but whitespace, so that it trims to empty.
pub open spec fn is_blank(s: Seq<char>) -> bool {
    forall|i: int| 0 <= i < s.len() ==> is_space_char(s[i])
}

/// Whether `s` holds nothing but whitespace.
pub fn str_is_blank(s: &str) -> (r: bool)
    ensures
        r == is_blank(s@),
{
    let n = s.unicode_len();
    let mut i: usize = 0;
    while i < n
        invariant
            0 <= i <= n,
            n == s@.len(),
            forall|j: int| 0 <= j < i ==> is_space_char(s@[j]),
        decreases n - i,
    {
        let u = s.get_char(i) as u32;
        let ws = (0x9 <= u && u <= 0xD) || u == 0x20 || u == 0x85 || u == 0xA0 || u == 0x1680
            || (0x2000 <= u && u <= 0x200A) || u == 0x2028 || u == 0x2029 || u == 0x202F
            || u == 0x205F || u == 0x3000;
        if !ws {
            return false;
        }
        i = i + 1;
    }
    true
}

/// The request body that carries a serialized payload to the remote
/// endpoint: a JSON object naming the remote action and embedding the
/// payload text verbatim.
pub open spec fn upload_envelope(payload_json: Seq<char>) -> Seq<char> {
    "{\"action\":\"uploadPaymentAttachment\",\"payload\":"@ + payload_json + "}"@
}

/// One fully prepared upload: the exact body to stream and the byte length
/// the transport must announce as the content length.
#[derive(Debug)]
pub struct UploadRequest {
    pub body: String,
    pub content_length: usize,
}

/// Validate the endpoint and build the upload body for a payload already
/// serialized as JSON text. Fails — before anything is sent — exactly when
/// the endpoint URL is blank; the error carries the same description the
/// caller-facing surface shows.
pub fn prepare_upload(url: &str, payload_json: &str) -> (r: Result<UploadRequest, TransferError>)
    ensures
        is_blank(url@) <==> (r matches Err(e) && e matches TransferError::Failed(m)
            && m@ == "Missing Apps Script URL"@),
        !is_blank(url@) ==> (r matches Ok(req) && {
            &&& req.body@ == upload_envelope(payload_json@)
            &&& req.content_length == encode_utf8(req.body@).len() as usize
        }),
{
    if str_is_blank(url) {
        return Err(TransferError::Failed(String::from_str("Missing Apps Script URL")));
    }
    let mut body = String::from_str("{\"action\":\"uploadPaymentAttachment\",\"payload\":");
    body.append(payload_json);
    body.append("}");
    let content_length = body.as_str().len();
    proof {
        assert(body@ == upload_envelope(payload_json@));
    }
    Ok(UploadRequest { body, content_length })
}

} // verus!
