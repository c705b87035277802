//! Decision logic of the streaming uploader: cooperative cancellation
//! checked before every read, byte accounting, and coalesced progress
//! events. The surrounding I/O layer performs the reads and delivers the
//! events; every decision it takes comes from here.
use vstd::prelude::*;
use crate::errors::TransferError;

verus! {

/// Emit a progress event at the latest every this many accumulated bytes.
pub const PROGRESS_EMIT_THRESHOLD: u64 = 64 * 1024;

/// One transient progress notification; never stored.
pub struct UploadProgress {
    pub upload_id: String,
    /// Bytes handed to the transport so far.
    pub loaded: u64,
    /// Total bytes the transfer will carry.
    pub total: u64,
    /// Whether the stream has ended.
    pub done: bool,
}

/// Mathematical image of one progress event.
pub ghost struct ProgressModel {
    pub upload_id: Seq<char>,
    pub loaded: u64,
    pub total: u64,
    pub done: bool,
}

impl View for UploadProgress {
    type V = ProgressModel;

    open spec fn view(&self) -> ProgressModel {
        ProgressModel {
            upload_id: self.upload_id@,
            loaded: self.loaded,
            total: self.total,
            done: self.done,
        }
    }
}

/// `a + b`, saturating at the largest `u64`.
pub open spec fn sat_add_u64(a: u64, b: u64) -> u64 {
    if a + b > u64::MAX {
        u64::MAX
    } else {
        (a + b) as u64
    }
}

/// Whether a transfer that has sent `sent` bytes since `last_emit` must
/// emit a progress event now: the coalescing threshold was reached, or the
/// stream is about to end.
pub open spec fn must_emit(sent: u64, last_emit: u64, emit_every: u64, total: u64) -> bool {
    sent - last_emit >= emit_every || sent >= total
}

/// With the byte counter clear of saturation, each successful read strictly
/// increases the count; since every emitted event carries `loaded` equal to
/// the count at emission, the `loaded` values of successive events ascend.
pub proof fn lemma_loaded_ascends(sent: u64, n: u64)
    requires
        n > 0,
        sent + n <= u64::MAX,
    ensures
        sat_add_u64(sent, n) > sent,
{
}

/// Per-transfer progress state. The surrounding reader wraps a finite byte
/// source of known total length; before each read it asks `check_cancelled`,
/// and after each successful read it hands the byte count to `on_read` and
/// delivers whatever event comes back.
pub struct ProgressReader {
    upload_id: String,
    total: u64,
    sent: u64,
    last_emit: u64,
    emit_every: u64,
}

impl ProgressReader {
    /// Bytes accounted as sent so far.
    pub closed spec fn sent(&self) -> u64 {
        self.sent
    }

    /// Bytes sent when the last event was emitted.
    pub closed spec fn last_emit(&self) -> u64 {
        self.last_emit
    }

    /// The coalescing threshold.
    pub closed spec fn emit_every(&self) -> u64 {
        self.emit_every
    }

    /// Total bytes the transfer will carry.
    pub closed spec fn total(&self) -> u64 {
        self.total
    }

    /// The id of the transfer this state belongs to.
    pub closed spec fn upload_id(&self) -> Seq<char> {
        self.upload_id@
    }

    /// Internal well-formedness: the last emission never lies ahead of the
    /// byte count.
    pub open spec fn wf(&self) -> bool {
        self.last_emit() <= self.sent()
    }

    /// Fresh state for one transfer of `total` bytes: nothing sent, nothing
    /// emitted, default coalescing threshold.
    pub fn new(upload_id: String, total: u64) -> (r: ProgressReader)
        ensures
            r.wf(),
            r.upload_id() == upload_id@,
            r.total() == total,
            r.sent() == 0,
            r.last_emit() == 0,
            r.emit_every() == PROGRESS_EMIT_THRESHOLD,
    {
        ProgressReader {
            upload_id,
            total,
            sent: 0,
            last_emit: 0,
            emit_every: PROGRESS_EMIT_THRESHOLD,
        }
    }

    /// Decide the fate of a read attempt before any byte is pulled from the
    /// source: a set cancellation flag aborts with `TransferCancelled` —
    /// distinct from any I/O failure — even before the very first byte.
    pub fn check_cancelled(&self, cancelled: bool) -> (r: Result<(), TransferError>)
        ensures
            r == if cancelled {
                Err::<(), TransferError>(TransferError::Cancelled)
            } else {
                Ok::<(), TransferError>(())
            },
    {
        if cancelled {
            Err(TransferError::Cancelled)
        } else {
            Ok(())
        }
    }

    /// Account one successful read of `n` bytes and decide whether to emit.
    ///
    /// A read of zero bytes is end-of-stream: it emits a final event with
    /// `done` set. Otherwise the byte count grows (saturating) and an event
    /// is emitted exactly when the bytes accumulated since the last emission
    /// reach the coalescing threshold or the stream is about to end.
    pub fn on_read(&mut self, n: usize) -> (r: Option<UploadProgress>)
        requires
            old(self).wf(),
        ensures
            final(self).wf(),
            final(self).upload_id() == old(self).upload_id(),
            final(self).total() == old(self).total(),
            final(self).emit_every() == old(self).emit_every(),
            n == 0 ==> {
                &&& final(self).sent() == old(self).sent()
                &&& final(self).last_emit() == old(self).sent()
                &&& (r matches Some(p) && p@ == ProgressModel {
                    upload_id: old(self).upload_id(),
                    loaded: old(self).sent(),
                    total: old(self).total(),
                    done: true,
                })
            },
            n > 0 ==> {
                let new_sent = sat_add_u64(old(self).sent(), n as u64);
                &&& final(self).sent() == new_sent
                &&& if must_emit(new_sent, old(self).last_emit(), old(self).emit_every(),
                        old(self).total()) {
                    &&& final(self).last_emit() == new_sent
                    &&& (r matches Some(p) && p@ == ProgressModel {
                        upload_id: old(self).upload_id(),
                        loaded: new_sent,
                        total: old(self).total(),
                        done: new_sent >= old(self).total(),
                    })
                } else {
                    &&& final(self).last_emit() == old(self).last_emit()
                    &&& r is None
                }
            },
    {
        if n == 0 {
            let p = UploadProgress {
                upload_id: self.upload_id.clone(),
                loaded: self.sent,
                total: self.total,
                done: true,
            };
            self.last_emit = self.sent;
            return Some(p);
        }
        let add = n as u64;
        let new_sent: u64 = if add > u64::MAX - self.sent {
            u64::MAX
        } else {
            self.sent + add
        };
        self.sent = new_sent;
        if new_sent - self.last_emit >= self.emit_every || new_sent >= self.total {
            let p = UploadProgress {
                upload_id: self.upload_id.clone(),
                loaded: new_sent,
                total: self.total,
                done: new_sent >= self.total,
            };
            self.last_emit = new_sent;
            Some(p)
        } else {
            None
        }
    }
}

} // verus!
