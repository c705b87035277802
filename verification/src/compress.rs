//! Choice among candidate re-encodings of an image. The codec itself is an
//! external collaborator that hands in candidate byte streams; the core's
//! whole involvement is picking the smallest one — falling back to the
//! original bytes — and packaging it as a data URL.
use vstd::prelude::*;
use crate::data_url::{base64_of, build_data_url, data_url_b64, data_url_mime, data_url_of, plain_mime};

verus! {

/// One candidate re-encoding: its mime type and its encoded bytes.
pub struct Candidate {
    pub mime_type: Vec<u8>,
    pub bytes: Vec<u8>,
}

/// Mathematical image of one candidate.
pub ghost struct CandidateModel {
    pub mime: Seq<u8>,
    pub bytes: Seq<u8>,
}

impl View for Candidate {
    type V = CandidateModel;

    open spec fn view(&self) -> CandidateModel {
        CandidateModel { mime: self.mime_type@, bytes: self.bytes@ }
    }
}

/// A selection under consideration: payload, mime type and pixel size.
pub ghost struct PickModel {
    pub mime: Seq<u8>,
    pub bytes: Seq<u8>,
    pub width: u32,
    pub height: u32,
}

/// What compressing yields: the chosen encoding as a data URL, with its
/// mime type, byte count, and pixel dimensions.
pub struct CompressionResult {
    pub data_url: Vec<u8>,
    pub mime_type: Vec<u8>,
    pub bytes: usize,
    pub width: u32,
    pub height: u32,
}

/// Fold over the candidates, replacing the selection whenever a candidate
/// is strictly smaller: ties keep the earlier selection, and any candidate
/// that wins carries the re-encoded pixel size `out_w` by `out_h`.
pub open spec fn pick_smallest(
    best: PickModel,
    cands: Seq<CandidateModel>,
    out_w: u32,
    out_h: u32,
) -> PickModel
    decreases cands.len(),
{
    if cands.len() == 0 {
        best
    } else {
        let next = if cands[0].bytes.len() < best.bytes.len() {
            PickModel { mime: cands[0].mime, bytes: cands[0].bytes, width: out_w, height: out_h }
        } else {
            best
        };
        pick_smallest(next, cands.drop_first(), out_w, out_h)
    }
}

/// What the fold picks is the first selection of minimal byte size: never
/// larger than the starting selection or any candidate, and either the
/// starting selection itself or one of the candidates resized.
pub proof fn lemma_pick_smallest_is_minimal(
    best: PickModel,
    cands: Seq<CandidateModel>,
    out_w: u32,
    out_h: u32,
)
    ensures
        ({
            let p = pick_smallest(best, cands, out_w, out_h);
            &&& p.bytes.len() <= best.bytes.len()
            &&& forall|i: int|
                0 <= i < cands.len() ==> p.bytes.len() <= #[trigger] cands[i].bytes.len()
            &&& (p == best || exists|i: int|
                0 <= i < cands.len() && p == (PickModel {
                    mime: #[trigger] cands[i].mime,
                    bytes: cands[i].bytes,
                    width: out_w,
                    height: out_h,
                }))
        }),
    decreases cands.len(),
{
    if cands.len() > 0 {
        let next = if cands[0].bytes.len() < best.bytes.len() {
            PickModel { mime: cands[0].mime, bytes: cands[0].bytes, width: out_w, height: out_h }
        } else {
            best
        };
        let d = cands.drop_first();
        lemma_pick_smallest_is_minimal(next, d, out_w, out_h);
        assert(forall|i: int| 0 <= i < d.len() ==> d[i] == cands[i + 1]);
        let p = pick_smallest(best, cands, out_w, out_h);
        assert(p == pick_smallest(next, d, out_w, out_h));
        assert(p.bytes.len() <= next.bytes.len());
        assert forall|i: int|
            0 <= i < cands.len() implies p.bytes.len() <= #[trigger] cands[i].bytes.len() by {
            if i == 0 {
                assert(next.bytes.len() <= cands[0].bytes.len());
            } else {
                assert(d[i - 1] == cands[i]);
            }
        }
        if p != best {
            if p == next {
                assert(0 <= 0 < cands.len() && p == (PickModel {
                    mime: cands[0].mime,
                    bytes: cands[0].bytes,
                    width: out_w,
                    height: out_h,
                }));
            } else {
                let i = choose|i: int|
                    0 <= i < d.len() && p == (PickModel {
                        mime: #[trigger] d[i].mime,
                        bytes: d[i].bytes,
                        width: out_w,
                        height: out_h,
                    });
                assert(cands[i + 1] == d[i]);
                assert(0 <= i + 1 < cands.len() && p == (PickModel {
                    mime: cands[i + 1].mime,
                    bytes: cands[i + 1].bytes,
                    width: out_w,
                    height: out_h,
                }));
            }
        }
    }
}

/// Select the smallest encoding among the original bytes and the candidate
/// re-encodings, earliest winner on ties, and package it as a data URL —
/// one that parses back to the chosen mime and bytes whenever the mime is
/// free of the parse separators.
/// A winning candidate reports the re-encoded pixel size `out_w` by
/// `out_h`; the original keeps its own. The length bounds keep the base64
/// output size within `usize`.
pub fn select_compression(
    original_mime: Vec<u8>,
    original_bytes: Vec<u8>,
    orig_w: u32,
    orig_h: u32,
    out_w: u32,
    out_h: u32,
    candidates: Vec<Candidate>,
) -> (r: CompressionResult)
    requires
        original_bytes@.len() <= usize::MAX / 4,
        forall|i: int|
            0 <= i < candidates@.len()
                ==> (#[trigger] candidates@[i]).bytes@.len() <= usize::MAX / 4,
    ensures
        ({
            let p = pick_smallest(
                PickModel {
                    mime: original_mime@,
                    bytes: original_bytes@,
                    width: orig_w,
                    height: orig_h,
                },
                candidates@.map_values(|c: Candidate| c@),
                out_w,
                out_h,
            );
            &&& r.mime_type@ == p.mime
            &&& r.bytes == p.bytes.len()
            &&& r.width == p.width
            &&& r.height == p.height
            &&& r.data_url@ == data_url_of(p.mime, p.bytes)
            &&& plain_mime(p.mime) ==> data_url_mime(r.data_url@) == p.mime && data_url_b64(
                r.data_url@,
            ) == base64_of(p.bytes)
        }),
{
    let ghost start = PickModel {
        mime: original_mime@,
        bytes: original_bytes@,
        width: orig_w,
        height: orig_h,
    };
    let ghost all = candidates@.map_values(|c: Candidate| c@);
    let mut best_mime = original_mime;
    let mut best_bytes = original_bytes;
    let mut best_w = orig_w;
    let mut best_h = orig_h;
    let mut rest = candidates;
    while rest.len() > 0
        invariant
            best_bytes@.len() <= usize::MAX / 4,
            forall|i: int| 0 <= i < rest@.len() ==> (#[trigger] rest@[i]).bytes@.len() <= usize::MAX / 4,
            pick_smallest(
                PickModel { mime: best_mime@, bytes: best_bytes@, width: best_w, height: best_h },
                rest@.map_values(|c: Candidate| c@),
                out_w,
                out_h,
            ) == pick_smallest(start, all, out_w, out_h),
        decreases rest@.len(),
    {
        let ghost pre = rest@.map_values(|c: Candidate| c@);
        let ghost best0 = PickModel {
            mime: best_mime@,
            bytes: best_bytes@,
            width: best_w,
            height: best_h,
        };
        let c = rest.remove(0);
        proof {
            assert(rest@.map_values(|c: Candidate| c@) =~= pre.drop_first());
            assert(pre[0] == c@);
        }
        if c.bytes.len() < best_bytes.len() {
            best_mime = c.mime_type;
            best_bytes = c.bytes;
            best_w = out_w;
            best_h = out_h;
        }
        proof {
            assert(pick_smallest(
                PickModel { mime: best_mime@, bytes: best_bytes@, width: best_w, height: best_h },
                rest@.map_values(|c: Candidate| c@),
                out_w,
                out_h,
            ) == pick_smallest(best0, pre, out_w, out_h));
        }
    }
    proof {
        assert(rest@.map_values(|c: Candidate| c@) =~= Seq::<CandidateModel>::empty());
    }
    let data_url = build_data_url(best_mime.as_slice(), best_bytes.as_slice());
    let bytes = best_bytes.len();
    CompressionResult { data_url, mime_type: best_mime, bytes, width: best_w, height: best_h }
}

} // verus!
