//! Parsing and building of base64 data URLs, over raw bytes.
//!
//! A data URL is `data:<mime>[;meta...],<base64 payload>`; whitespace around
//! the whole text and inside the payload is tolerated — Unicode whitespace,
//! recognized by its UTF-8 byte sequences. The base64 codec is the `base64`
//! crate's STANDARD engine, reached through trusted wrappers; everything
//! around it is verified.
use vstd::prelude::*;
use crate::errors::DataUrlError;
use crate::text::is_prefix_of;
use base64::Engine;

verus! {

/// True when `b` is an ASCII whitespace byte.
pub open spec fn ascii_ws(b: u8) -> bool {
    b == 9 || b == 10 || b == 11 || b == 12 || b == 13 || b == 32
}

/// True when the two bytes are the UTF-8 encoding of a two-byte whitespace
/// character: U+0085 (next line) or U+00A0 (no-break space).
pub open spec fn ws2(b0: u8, b1: u8) -> bool {
    b0 == 0xC2 && (b1 == 0x85 || b1 == 0xA0)
}

/// True when the three bytes are the UTF-8 encoding of a three-byte
/// whitespace character: U+1680, U+2000 through U+200A, U+2028, U+2029,
/// U+202F, U+205F or U+3000.
pub open spec fn ws3(b0: u8, b1: u8, b2: u8) -> bool {
    ||| (b0 == 0xE1 && b1 == 0x9A && b2 == 0x80)
    ||| (b0 == 0xE2 && b1 == 0x80 && (0x80 <= b2 <= 0x8A || b2 == 0xA8 || b2 == 0xA9
        || b2 == 0xAF))
    ||| (b0 == 0xE2 && b1 == 0x81 && b2 == 0x9F)
    ||| (b0 == 0xE3 && b1 == 0x80 && b2 == 0x80)
}

/// The byte length of the whitespace character starting at `i`, or 0 when
/// none starts there. Together `ascii_ws`, `ws2` and `ws3` cover exactly
/// the UTF-8 encodings of the characters Rust's `char::is_whitespace`
/// accepts.
pub open spec fn ws_len_at(s: Seq<u8>, i: int) -> int {
    if 0 <= i < s.len() && ascii_ws(s[i]) {
        1
    } else if 0 <= i && i + 2 <= s.len() && ws2(s[i], s[i + 1]) {
        2
    } else if 0 <= i && i + 3 <= s.len() && ws3(s[i], s[i + 1], s[i + 2]) {
        3
    } else {
        0
    }
}

/// The byte length of the whitespace character ending at `e` (exclusive)
/// without reaching below `a`, or 0 when none ends there.
pub open spec fn ws_len_before(s: Seq<u8>, a: int, e: int) -> int {
    if a <= e - 1 && e <= s.len() && ascii_ws(s[e - 1]) {
        1
    } else if 0 <= a <= e - 2 && e <= s.len() && ws2(s[e - 2], s[e - 1]) {
        2
    } else if 0 <= a <= e - 3 && e <= s.len() && ws3(s[e - 3], s[e - 2], s[e - 1]) {
        3
    } else {
        0
    }
}

/// The index where the text starting at `i` begins once leading whitespace
/// characters are skipped.
pub open spec fn trim_start_idx(s: Seq<u8>, i: int) -> int
    decreases s.len() - i
        when 0 <= i <= s.len()
{
    if ws_len_at(s, i) > 0 {
        trim_start_idx(s, i + ws_len_at(s, i))
    } else {
        i
    }
}

/// The index where the text ending at `e` ends once trailing whitespace
/// characters are skipped, never reaching below `a`.
pub open spec fn trim_end_idx(s: Seq<u8>, a: int, e: int) -> int
    decreases e - a
        when 0 <= a <= e <= s.len()
{
    if ws_len_before(s, a, e) > 0 {
        trim_end_idx(s, a, e - ws_len_before(s, a, e))
    } else {
        e
    }
}

/// `s` without leading and trailing whitespace characters.
pub open spec fn trim_ws(s: Seq<u8>) -> Seq<u8> {
    let a = trim_start_idx(s, 0);
    s.subrange(a, trim_end_idx(s, a, s.len() as int))
}

/// `s` from `i` on, with every whitespace character removed.
pub open spec fn without_ws_from(s: Seq<u8>, i: int) -> Seq<u8>
    decreases s.len() - i
        when 0 <= i <= s.len()
{
    if i >= s.len() {
        Seq::empty()
    } else if ws_len_at(s, i) > 0 {
        without_ws_from(s, i + ws_len_at(s, i))
    } else {
        seq![s[i]] + without_ws_from(s, i + 1)
    }
}

/// `s` with every whitespace character removed.
pub open spec fn without_ws(s: Seq<u8>) -> Seq<u8> {
    without_ws_from(s, 0)
}

/// The index of the first occurrence of `x` in `s`, or `s.len()` when there
/// is none.
pub open spec fn first_idx_of(s: Seq<u8>, x: u8) -> int
    decreases s.len(),
{
    if s.len() == 0 {
        0
    } else if s[0] == x {
        0
    } else {
        1 + first_idx_of(s.drop_first(), x)
    }
}

/// True when some byte of `s` is a comma.
pub open spec fn has_comma(s: Seq<u8>) -> bool {
    exists|i: int| 0 <= i < s.len() && s[i] == (',' as u8)
}

/// The scheme marker a data URL starts with.
pub open spec fn data_prefix() -> Seq<u8> {
    seq!['d' as u8, 'a' as u8, 't' as u8, 'a' as u8, ':' as u8]
}

/// The marker between the mime type and the base64 payload of a built URL.
pub open spec fn b64_marker() -> Seq<u8> {
    seq![
        ';' as u8,
        'b' as u8,
        'a' as u8,
        's' as u8,
        'e' as u8,
        '6' as u8,
        '4' as u8,
        ',' as u8,
    ]
}

/// The mime type assumed when the text carries no metadata at all.
pub open spec fn default_mime() -> Seq<u8> {
    seq![
        'a' as u8,
        'p' as u8,
        'p' as u8,
        'l' as u8,
        'i' as u8,
        'c' as u8,
        'a' as u8,
        't' as u8,
        'i' as u8,
        'o' as u8,
        'n' as u8,
        '/' as u8,
        'o' as u8,
        'c' as u8,
        't' as u8,
        'e' as u8,
        't' as u8,
        '-' as u8,
        's' as u8,
        't' as u8,
        'r' as u8,
        'e' as u8,
        'a' as u8,
        'm' as u8,
    ]
}

/// `s` with every leading repetition of the scheme marker removed.
pub open spec fn strip_data_prefix(s: Seq<u8>) -> Seq<u8>
    decreases s.len(),
{
    if is_prefix_of(data_prefix(), s) {
        strip_data_prefix(s.subrange(data_prefix().len() as int, s.len() as int))
    } else {
        s
    }
}

/// The mime type the text declares: the metadata before the first comma,
/// without its scheme marker, up to the first semicolon. Text without a
/// comma declares nothing and gets the default mime type.
pub open spec fn data_url_mime(input: Seq<u8>) -> Seq<u8> {
    let t = trim_ws(input);
    if has_comma(t) {
        let meta = t.subrange(0, first_idx_of(t, (',' as u8)));
        let m = strip_data_prefix(meta);
        m.subrange(0, first_idx_of(m, (';' as u8)))
    } else {
        default_mime()
    }
}

/// The base64 payload of the text: everything after the first comma — the
/// whole trimmed text when there is no comma — with whitespace removed.
pub open spec fn data_url_b64(input: Seq<u8>) -> Seq<u8> {
    let t = trim_ws(input);
    if has_comma(t) {
        without_ws(t.subrange(first_idx_of(t, (',' as u8)) + 1, t.len() as int))
    } else {
        without_ws(t)
    }
}

/// The data URL carrying `bytes` under `mime`.
pub open spec fn data_url_of(mime: Seq<u8>, bytes: Seq<u8>) -> Seq<u8> {
    data_prefix() + mime + b64_marker() + base64_of(bytes)
}

/// A mime type free of the separators the parser splits at — no comma, no
/// semicolon, no leading scheme marker. A data URL built from such a mime
/// parses back to it unchanged.
pub open spec fn plain_mime(m: Seq<u8>) -> bool {
    &&& forall|i: int| 0 <= i < m.len() ==> m[i] != (',' as u8) && m[i] != (';' as u8)
    &&& !is_prefix_of(data_prefix(), m)
}

/// True when `b` is a byte of the standard base64 alphabet or the padding
/// byte.
pub open spec fn is_base64_byte(b: u8) -> bool {
    ||| ('A' as u8) <= b <= ('Z' as u8)
    ||| ('a' as u8) <= b <= ('z' as u8)
    ||| ('0' as u8) <= b <= ('9' as u8)
    ||| b == ('+' as u8)
    ||| b == ('/' as u8)
    ||| b == ('=' as u8)
}

/// The standard padded base64 text of `bytes`, as the `base64` crate's
/// STANDARD engine produces it: a function of the bytes alone.
pub uninterp spec fn base64_of(bytes: Seq<u8>) -> Seq<u8>;

/// Relies on the `base64` crate's `Engine::encode` with the STANDARD
/// engine: the output is drawn from the standard alphabet `A-Z a-z 0-9 + /`
/// plus `=` padding. The length bound keeps the input clear of the one
/// length for which `encode` panics (an output size beyond `usize`).
#[verifier::external_body]
fn base64_encode(bytes: &[u8]) -> (r: Vec<u8>)
    requires
        bytes@.len() <= usize::MAX / 4,
    ensures
        r@ == base64_of(bytes@),
        forall|i: int| 0 <= i < r@.len() ==> is_base64_byte(#[trigger] r@[i]),
{
    base64::engine::general_purpose::STANDARD.encode(bytes).into_bytes()
}

/// The `base64` crate's decode failure.
#[verifier::external_type_specification]
#[verifier::external_body]
pub struct ExDecodeError(base64::DecodeError);

/// Relies on the `base64` crate's `Engine::decode` with the STANDARD
/// engine, whose configuration rejects both non-canonical padding and
/// non-zero trailing bits: it accepts exactly the texts `encode` produces,
/// and inverts it on them.
#[verifier::external_body]
fn base64_decode(text: &[u8]) -> (r: Result<Vec<u8>, base64::DecodeError>)
    ensures
        r matches Ok(v) ==> text@ == base64_of(v@),
        r matches Ok(v) ==> forall|b: Seq<u8>| text@ == #[trigger] base64_of(b) ==> v@ == b,
        r matches Err(e) ==> forall|b: Seq<u8>| text@ != #[trigger] base64_of(b),
{
    base64::engine::general_purpose::STANDARD.decode(text)
}

/// The byte length of the whitespace character starting at `i`, or 0.
fn ws_at(s: &[u8], i: usize) -> (k: usize)
    requires
        i <= s@.len(),
    ensures
        k == ws_len_at(s@, i as int),
{
    let n = s.len();
    if i >= n {
        return 0;
    }
    let b0 = s[i];
    if b0 == 9 || b0 == 10 || b0 == 11 || b0 == 12 || b0 == 13 || b0 == 32 {
        return 1;
    }
    if n - i >= 2 {
        let b1 = s[i + 1];
        if b0 == 0xC2 && (b1 == 0x85 || b1 == 0xA0) {
            return 2;
        }
        if n - i >= 3 {
            let b2 = s[i + 2];
            if (b0 == 0xE1 && b1 == 0x9A && b2 == 0x80)
                || (b0 == 0xE2 && b1 == 0x80 && (0x80 <= b2 && b2 <= 0x8A || b2 == 0xA8
                    || b2 == 0xA9 || b2 == 0xAF))
                || (b0 == 0xE2 && b1 == 0x81 && b2 == 0x9F)
                || (b0 == 0xE3 && b1 == 0x80 && b2 == 0x80) {
                return 3;
            }
        }
    }
    0
}

/// The byte length of the whitespace character ending at `e` (exclusive)
/// without reaching below `a`, or 0.
fn ws_before(s: &[u8], a: usize, e: usize) -> (k: usize)
    requires
        a <= e <= s@.len(),
    ensures
        k == ws_len_before(s@, a as int, e as int),
{
    if e - a >= 1 {
        let b1 = s[e - 1];
        if b1 == 9 || b1 == 10 || b1 == 11 || b1 == 12 || b1 == 13 || b1 == 32 {
            return 1;
        }
        if e - a >= 2 {
            let b0 = s[e - 2];
            if b0 == 0xC2 && (b1 == 0x85 || b1 == 0xA0) {
                return 2;
            }
            if e - a >= 3 {
                let bp = s[e - 3];
                if (bp == 0xE1 && b0 == 0x9A && b1 == 0x80)
                    || (bp == 0xE2 && b0 == 0x80 && (0x80 <= b1 && b1 <= 0x8A || b1 == 0xA8
                        || b1 == 0xA9 || b1 == 0xAF))
                    || (bp == 0xE2 && b0 == 0x81 && b1 == 0x9F)
                    || (bp == 0xE3 && b0 == 0x80 && b1 == 0x80) {
                    return 3;
                }
            }
        }
    }
    0
}

/// The bytes of `s` from `from` (inclusive) to `to` (exclusive).
fn copy_range(s: &[u8], from: usize, to: usize) -> (r: Vec<u8>)
    requires
        from <= to <= s@.len(),
    ensures
        r@ == s@.subrange(from as int, to as int),
{
    let mut r: Vec<u8> = Vec::new();
    let mut i: usize = from;
    while i < to
        invariant
            from <= i <= to <= s@.len(),
            r@ =~= s@.subrange(from as int, i as int),
        decreases to - i,
    {
        r.push(s[i]);
        proof {
            assert(r@ =~= s@.subrange(from as int, i as int + 1));
        }
        i = i + 1;
    }
    r
}

/// `s[from..]` with every whitespace character removed.
fn strip_ws(s: &[u8], from: usize, to: usize) -> (r: Vec<u8>)
    requires
        from <= to <= s@.len(),
    ensures
        r@ == without_ws(s@.subrange(from as int, to as int)),
{
    let data = copy_range(s, from, to);
    let m = data.len();
    let mut cleaned: Vec<u8> = Vec::new();
    let mut j: usize = 0;
    while j < m
        invariant
            0 <= j <= m,
            m == data@.len(),
            without_ws(data@) == cleaned@ + without_ws_from(data@, j as int),
        decreases m - j,
    {
        let k = ws_at(data.as_slice(), j);
        if k > 0 {
            proof {
                assert(without_ws_from(data@, j as int)
                    == without_ws_from(data@, j as int + k));
            }
            j = j + k;
        } else {
            let ghost pre = cleaned@;
            cleaned.push(data[j]);
            proof {
                assert(without_ws_from(data@, j as int)
                    == seq![data@[j as int]] + without_ws_from(data@, j as int + 1));
                assert(pre + (seq![data@[j as int]] + without_ws_from(data@, j as int + 1))
                    =~= cleaned@ + without_ws_from(data@, j as int + 1));
            }
            j = j + 1;
        }
    }
    proof {
        assert(cleaned@ + without_ws_from(data@, m as int) =~= cleaned@);
    }
    cleaned
}

proof fn lemma_first_idx(s: Seq<u8>, x: u8, i: int)
    requires
        0 <= i <= s.len(),
        forall|j: int| 0 <= j < i ==> s[j] != x,
        i < s.len() ==> s[i] == x,
    ensures
        first_idx_of(s, x) == i,
    decreases s.len(),
{
    if s.len() == 0 {
    } else if s[0] == x {
        assert(i == 0);
    } else {
        let d = s.drop_first();
        assert(forall|j: int| 0 <= j < d.len() ==> d[j] == s[j + 1]);
        lemma_first_idx(d, x, i - 1);
    }
}

/// A text in which no whitespace character starts anywhere survives
/// whitespace removal unchanged.
proof fn lemma_without_ws_id(s: Seq<u8>, i: int)
    requires
        0 <= i <= s.len(),
        forall|j: int| 0 <= j < s.len() ==> ws_len_at(s, j) == 0,
    ensures
        without_ws_from(s, i) == s.subrange(i, s.len() as int),
    decreases s.len() - i,
{
    if i >= s.len() {
        assert(s.subrange(i, s.len() as int) =~= Seq::<u8>::empty());
    } else {
        lemma_without_ws_id(s, i + 1);
        assert(seq![s[i]] + s.subrange(i + 1, s.len() as int)
            =~= s.subrange(i, s.len() as int));
    }
}

/// A data URL built from a plain mime and an alphabet-only base64 text
/// parses back to that mime and that text.
proof fn lemma_built_url_parses_back(mime: Seq<u8>, enc: Seq<u8>)
    requires
        plain_mime(mime),
        forall|i: int| 0 <= i < enc.len() ==> is_base64_byte(#[trigger] enc[i]),
    ensures
        ({
            let url = data_prefix() + mime + b64_marker() + enc;
            &&& data_url_mime(url) == mime
            &&& data_url_b64(url) == enc
        }),
{
    let url = data_prefix() + mime + b64_marker() + enc;
    let ml = mime.len() as int;
    let el = enc.len() as int;
    let ci = 12 + ml;
    let ll = url.len() as int;
    assert(ll == 13 + ml + el);

    // no whitespace character can start at the first byte or end at the last
    assert(url[0] == ('d' as u8));
    assert(ws_len_at(url, 0) == 0);
    assert(trim_start_idx(url, 0) == 0);
    let last = url[ll - 1];
    assert(last == (if el > 0 {
        enc[el - 1]
    } else {
        (',' as u8)
    }));
    assert(!ascii_ws(last) && !(last == 0x85 || last == 0xA0) && last < 0x80);
    assert(ws_len_before(url, 0, ll) == 0);
    assert(trim_end_idx(url, 0, ll) == ll);
    let t = trim_ws(url);
    assert(t =~= url);

    // the first comma is the marker's, right before the payload
    assert(url[ci] == (',' as u8));
    assert(has_comma(t));
    assert forall|j: int| 0 <= j < ci implies url[j] != (',' as u8) by {
        if j < 5 {
            assert(url[j] == data_prefix()[j]);
        } else if j < 5 + ml {
            assert(url[j] == mime[j - 5]);
        } else {
            assert(url[j] == b64_marker()[j - 5 - ml]);
        }
    }
    lemma_first_idx(t, (',' as u8), ci);

    // the metadata is the scheme marker, the mime, and the marker up to its
    // comma; stripping and cutting at the first semicolon recovers the mime
    let semi7 = b64_marker().subrange(0, 7);
    let meta = t.subrange(0, ci);
    let m = mime + semi7;
    assert(meta =~= data_prefix() + m);
    assert(meta.subrange(0, 5) =~= data_prefix());
    assert(is_prefix_of(data_prefix(), meta));
    assert(meta.subrange(5, ci) =~= m);
    assert(strip_data_prefix(meta) == strip_data_prefix(m));
    assert(!is_prefix_of(data_prefix(), m)) by {
        if is_prefix_of(data_prefix(), m) {
            assert(forall|k: int| 0 <= k < 5 ==> m[k] == data_prefix()[k]);
            if ml >= 5 {
                assert(mime.subrange(0, 5) =~= data_prefix());
                assert(is_prefix_of(data_prefix(), mime));
            } else {
                assert(m[ml] == (';' as u8));
                assert(data_prefix()[0] != (';' as u8) && data_prefix()[1] != (';' as u8)
                    && data_prefix()[2] != (';' as u8) && data_prefix()[3] != (';' as u8)
                    && data_prefix()[4] != (';' as u8));
            }
            assert(false);
        }
    }
    assert(strip_data_prefix(m) == m);
    assert(forall|j: int| 0 <= j < ml ==> m[j] != (';' as u8));
    assert(m[ml] == (';' as u8));
    lemma_first_idx(m, (';' as u8), ml);
    assert(m.subrange(0, ml) =~= mime);
    assert(data_url_mime(url) == mime);

    // the payload is the base64 text, which holds no whitespace
    let tail = t.subrange(ci + 1, t.len() as int);
    assert(tail =~= enc);
    assert forall|j: int| 0 <= j < enc.len() implies ws_len_at(enc, j) == 0 by {
        assert(is_base64_byte(enc[j]));
        if j + 2 <= enc.len() {
            assert(is_base64_byte(enc[j + 1]));
        }
    }
    lemma_without_ws_id(enc, 0);
    assert(enc.subrange(0, el) =~= enc);
    assert(data_url_b64(url) == enc);
}

/// Whether `s[from..to]` starts with the scheme marker.
fn has_data_prefix(s: &[u8], from: usize, to: usize) -> (r: bool)
    requires
        from <= to <= s@.len(),
    ensures
        r == is_prefix_of(data_prefix(), s@.subrange(from as int, to as int)),
{
    let ghost cur = s@.subrange(from as int, to as int);
    if to - from < 5 {
        proof {
            assert(data_prefix().len() == 5);
        }
        return false;
    }
    let m = s[from] == ('d' as u8) && s[from + 1] == ('a' as u8) && s[from + 2] == ('t' as u8)
        && s[from + 3] == ('a' as u8) && s[from + 4] == (':' as u8);
    proof {
        if m {
            assert(cur.subrange(0, 5) =~= data_prefix());
        } else if is_prefix_of(data_prefix(), cur) {
            assert(cur[0] == ('d' as u8) && cur[1] == ('a' as u8) && cur[2] == ('t' as u8)
                && cur[3] == ('a' as u8) && cur[4] == (':' as u8)) by {
                assert(forall|k: int| 0 <= k < 5 ==> cur[k] == data_prefix()[k]);
            }
            assert(false);
        }
    }
    m
}

/// Build the data URL that carries `bytes` under `mime`. The length bound
/// keeps the base64 output size within `usize`. A mime free of the parse
/// separators makes the result parse back to exactly this mime and payload.
pub fn build_data_url(mime: &[u8], bytes: &[u8]) -> (r: Vec<u8>)
    requires
        bytes@.len() <= usize::MAX / 4,
    ensures
        r@ == data_url_of(mime@, bytes@),
        plain_mime(mime@) ==> data_url_mime(r@) == mime@ && data_url_b64(r@) == base64_of(
            bytes@,
        ),
{
    let mut out: Vec<u8> = Vec::new();
    out.push('d' as u8);
    out.push('a' as u8);
    out.push('t' as u8);
    out.push('a' as u8);
    out.push(':' as u8);
    proof {
        assert(out@ =~= data_prefix());
    }
    let mut i: usize = 0;
    while i < mime.len()
        invariant
            0 <= i <= mime@.len(),
            out@ =~= data_prefix() + mime@.subrange(0, i as int),
        decreases mime@.len() - i,
    {
        out.push(mime[i]);
        proof {
            assert(out@ =~= data_prefix() + mime@.subrange(0, i as int + 1));
        }
        i = i + 1;
    }
    proof {
        assert(mime@.subrange(0, mime@.len() as int) =~= mime@);
    }
    out.push(';' as u8);
    out.push('b' as u8);
    out.push('a' as u8);
    out.push('s' as u8);
    out.push('e' as u8);
    out.push('6' as u8);
    out.push('4' as u8);
    out.push(',' as u8);
    proof {
        assert(out@ =~= data_prefix() + mime@ + b64_marker());
    }
    let enc = base64_encode(bytes);
    let mut j: usize = 0;
    while j < enc.len()
        invariant
            0 <= j <= enc@.len(),
            enc@ == base64_of(bytes@),
            out@ =~= data_prefix() + mime@ + b64_marker() + enc@.subrange(0, j as int),
        decreases enc@.len() - j,
    {
        out.push(enc[j]);
        proof {
            assert(out@ =~= data_prefix() + mime@ + b64_marker() + enc@.subrange(0, j as int + 1));
        }
        j = j + 1;
    }
    proof {
        assert(enc@.subrange(0, enc@.len() as int) =~= enc@);
        if plain_mime(mime@) {
            lemma_built_url_parses_back(mime@, enc@);
        }
    }
    out
}

/// Split a data URL into its mime type and its decoded payload bytes.
///
/// Fails exactly when the payload — whitespace removed — is not a canonical
/// standard base64 text.
pub fn parse_data_url(input: &[u8]) -> (r: Result<(Vec<u8>, Vec<u8>), DataUrlError>)
    ensures
        r matches Ok(p) ==> {
            &&& p.0@ == data_url_mime(input@)
            &&& data_url_b64(input@) == base64_of(p.1@)
        },
        forall|b: Seq<u8>|
            data_url_b64(input@) == #[trigger] base64_of(b) ==> (r matches Ok(p) && p.1@ == b),
        r matches Err(e) ==> e == DataUrlError::InvalidBase64,
{
    let n = input.len();
    let mut a: usize = 0;
    while ws_at(input, a) > 0
        invariant
            0 <= a <= n,
            n == input@.len(),
            trim_start_idx(input@, 0) == trim_start_idx(input@, a as int),
        decreases n - a,
    {
        let k = ws_at(input, a);
        proof {
            assert(a as int + k <= n as int);
            assert(trim_start_idx(input@, a as int) == trim_start_idx(input@, a as int + k));
        }
        a = a + k;
    }
    proof {
        assert(trim_start_idx(input@, 0) == a as int);
    }
    let mut b: usize = n;
    while ws_before(input, a, b) > 0
        invariant
            a <= b <= n,
            n == input@.len(),
            trim_end_idx(input@, a as int, n as int) == trim_end_idx(input@, a as int, b as int),
        decreases b,
    {
        let k = ws_before(input, a, b);
        proof {
            assert(k <= b as int - a as int);
            assert(trim_end_idx(input@, a as int, b as int)
                == trim_end_idx(input@, a as int, b as int - k));
        }
        b = b - k;
    }
    let ghost t = input@.subrange(a as int, b as int);
    proof {
        assert(trim_end_idx(input@, a as int, n as int) == b as int);
        assert(trim_ws(input@) == t);
    }

    let mut ci: usize = a;
    while ci < b && input[ci] != (',' as u8)
        invariant
            a <= ci <= b <= n,
            n == input@.len(),
            forall|j: int| a <= j < ci ==> input@[j] != (',' as u8),
        decreases b - ci,
    {
        ci = ci + 1;
    }

    if ci < b {
        // metadata before the comma, payload after it
        proof {
            assert(t[(ci - a) as int] == (',' as u8));
            assert(has_comma(t));
            assert(forall|j: int| 0 <= j < ci - a ==> t[j] != (',' as u8));
            lemma_first_idx(t, (',' as u8), ci - a);
        }
        let ghost meta = t.subrange(0, (ci - a) as int);
        let mut off: usize = a;
        proof {
            assert(meta =~= input@.subrange(a as int, ci as int));
        }
        while has_data_prefix(input, off, ci)
            invariant
                a <= off <= ci <= n,
                n == input@.len(),
                strip_data_prefix(input@.subrange(a as int, ci as int))
                    == strip_data_prefix(input@.subrange(off as int, ci as int)),
            decreases ci - off,
        {
            proof {
                let cur = input@.subrange(off as int, ci as int);
                assert(cur.subrange(5, cur.len() as int)
                    =~= input@.subrange(off as int + 5, ci as int));
            }
            off = off + 5;
        }
        let ghost m = strip_data_prefix(meta);
        proof {
            assert(m == input@.subrange(off as int, ci as int));
        }
        let mut si: usize = off;
        while si < ci && input[si] != (';' as u8)
            invariant
                off <= si <= ci <= n,
                n == input@.len(),
                forall|j: int| off <= j < si ==> input@[j] != (';' as u8),
            decreases ci - si,
        {
            si = si + 1;
        }
        proof {
            assert(forall|j: int| 0 <= j < si - off ==> m[j] != (';' as u8));
            lemma_first_idx(m, (';' as u8), si - off);
            assert(m.subrange(0, (si - off) as int)
                =~= input@.subrange(off as int, si as int));
        }
        let mime = copy_range(input, off, si);
        let cleaned = strip_ws(input, ci + 1, b);
        proof {
            assert(t.subrange((ci - a) as int + 1, t.len() as int)
                =~= input@.subrange(ci as int + 1, b as int));
            assert(cleaned@ == data_url_b64(input@));
            assert(mime@ == data_url_mime(input@));
        }
        match base64_decode(cleaned.as_slice()) {
            Ok(decoded) => Ok((mime, decoded)),
            Err(_) => Err(DataUrlError::InvalidBase64),
        }
    } else {
        // no comma: the whole trimmed text is the payload
        proof {
            assert(forall|j: int| 0 <= j < t.len() ==> t[j] != (',' as u8));
            assert(!has_comma(t));
        }
        let mut mime: Vec<u8> = Vec::new();
        mime.push('a' as u8);
        mime.push('p' as u8);
        mime.push('p' as u8);
        mime.push('l' as u8);
        mime.push('i' as u8);
        mime.push('c' as u8);
        mime.push('a' as u8);
        mime.push('t' as u8);
        mime.push('i' as u8);
        mime.push('o' as u8);
        mime.push('n' as u8);
        mime.push('/' as u8);
        mime.push('o' as u8);
        mime.push('c' as u8);
        mime.push('t' as u8);
        mime.push('e' as u8);
        mime.push('t' as u8);
        mime.push('-' as u8);
        mime.push('s' as u8);
        mime.push('t' as u8);
        mime.push('r' as u8);
        mime.push('e' as u8);
        mime.push('a' as u8);
        mime.push('m' as u8);
        proof {
            assert(mime@ =~= default_mime());
        }
        let cleaned = strip_ws(input, a, b);
        proof {
            assert(cleaned@ == data_url_b64(input@));
            assert(mime@ == data_url_mime(input@));
        }
        match base64_decode(cleaned.as_slice()) {
            Ok(decoded) => Ok((mime, decoded)),
            Err(_) => Err(DataUrlError::InvalidBase64),
        }
    }
}

} // verus!
