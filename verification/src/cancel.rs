//! In-memory cancellation registry: a map from upload id to a cancellation
//! flag. A flag is created unset at registration, can be set to "cancelled"
//! once, and never survives removal. Flags are purely in-process state:
//! nothing here is ever persisted.
use vstd::prelude::*;
use vstd::map::*;

verus! {

/// One registered transfer: its id and whether cancellation was requested.
struct FlagEntry {
    upload_id: String,
    cancelled: bool,
}

/// True when no two entries of `s` share an upload id.
spec fn unique_ids(s: Seq<FlagEntry>) -> bool {
    forall|i: int, j: int|
        0 <= i < j < s.len() ==> s[i].upload_id@ != s[j].upload_id@
}

/// True when some entry of `s` carries the id `k`.
spec fn has_id(s: Seq<FlagEntry>, k: Seq<char>) -> bool {
    exists|i: int| 0 <= i < s.len() && s[i].upload_id@ == k
}

/// The index of the entry carrying `k` (meaningful only when `has_id`).
spec fn idx_of(s: Seq<FlagEntry>, k: Seq<char>) -> int {
    choose|i: int| 0 <= i < s.len() && s[i].upload_id@ == k
}

/// The entries of `s` read as a map from upload id to flag state.
spec fn map_of(s: Seq<FlagEntry>) -> Map<Seq<char>, bool> {
    Map::new(|k: Seq<char>| has_id(s, k), |k: Seq<char>| s[idx_of(s, k)].cancelled)
}

proof fn lemma_map_of_index(s: Seq<FlagEntry>, i: int)
    requires
        unique_ids(s),
        0 <= i < s.len(),
    ensures
        map_of(s).contains_key(s[i].upload_id@),
        map_of(s)[s[i].upload_id@] == s[i].cancelled,
{
    assert(has_id(s, s[i].upload_id@));
    let j = idx_of(s, s[i].upload_id@);
    assert(0 <= j < s.len() && s[j].upload_id@ == s[i].upload_id@);
    assert(j == i);
}

proof fn lemma_map_of_push(s: Seq<FlagEntry>, e: FlagEntry)
    requires
        unique_ids(s),
        !has_id(s, e.upload_id@),
    ensures
        unique_ids(s.push(e)),
        map_of(s.push(e)) == map_of(s).insert(e.upload_id@, e.cancelled),
{
    let t = s.push(e);
    assert forall|i: int, j: int| 0 <= i < j < t.len() implies t[i].upload_id@ != t[j].upload_id@ by {
        if j == s.len() {
            assert(t[i] == s[i]);
            assert(has_id(s, s[i].upload_id@) || s[i].upload_id@ != e.upload_id@);
        }
    }
    assert forall|k: Seq<char>| #[trigger] map_of(t).contains_key(k)
        <==> map_of(s).insert(e.upload_id@, e.cancelled).contains_key(k) by {
        if k == e.upload_id@ {
            assert(t[s.len() as int].upload_id@ == k);
            assert(has_id(t, k));
        } else {
            if has_id(s, k) {
                let i = idx_of(s, k);
                assert(t[i].upload_id@ == k);
                assert(has_id(t, k));
            }
            if has_id(t, k) {
                let i = idx_of(t, k);
                assert(i < s.len());
                assert(s[i].upload_id@ == k);
                assert(has_id(s, k));
            }
        }
    }
    assert forall|k: Seq<char>| map_of(t).contains_key(k) implies #[trigger] map_of(t)[k]
        == map_of(s).insert(e.upload_id@, e.cancelled)[k] by {
        let i = idx_of(t, k);
        assert(0 <= i < t.len() && t[i].upload_id@ == k);
        lemma_map_of_index(t, i);
        if k == e.upload_id@ {
            assert(i == s.len());
        } else {
            assert(i < s.len());
            assert(s[i].upload_id@ == k);
            lemma_map_of_index(s, i);
        }
    }
    assert(map_of(t) =~= map_of(s).insert(e.upload_id@, e.cancelled));
}

proof fn lemma_map_of_remove(s: Seq<FlagEntry>, i: int)
    requires
        unique_ids(s),
        0 <= i < s.len(),
    ensures
        unique_ids(s.remove(i)),
        !has_id(s.remove(i), s[i].upload_id@),
        map_of(s.remove(i)) == map_of(s).remove(s[i].upload_id@),
{
    let t = s.remove(i);
    let k0 = s[i].upload_id@;
    assert forall|a: int, b: int| 0 <= a < b < t.len() implies t[a].upload_id@ != t[b].upload_id@ by {
        let a0: int = if a < i { a } else { a + 1 };
        let b0: int = if b < i { b } else { b + 1 };
        assert(t[a] == s[a0] && t[b] == s[b0]);
    }
    assert forall|a: int| 0 <= a < t.len() implies t[a].upload_id@ != k0 by {
        let a0: int = if a < i { a } else { a + 1 };
        assert(t[a] == s[a0]);
    }
    assert forall|k: Seq<char>| #[trigger] map_of(t).contains_key(k)
        <==> map_of(s).remove(k0).contains_key(k) by {
        if k != k0 {
            if has_id(s, k) {
                let a = idx_of(s, k);
                let a1: int = if a < i { a } else { a - 1 };
                assert(a != i);
                assert(t[a1] == s[a]);
                assert(has_id(t, k));
            }
            if has_id(t, k) {
                let a = idx_of(t, k);
                let a0: int = if a < i { a } else { a + 1 };
                assert(t[a] == s[a0]);
                assert(has_id(s, k));
            }
        }
    }
    assert forall|k: Seq<char>| map_of(t).contains_key(k) implies #[trigger] map_of(t)[k]
        == map_of(s).remove(k0)[k] by {
        let a = idx_of(t, k);
        assert(0 <= a < t.len() && t[a].upload_id@ == k);
        lemma_map_of_index(t, a);
        let a0: int = if a < i { a } else { a + 1 };
        assert(t[a] == s[a0]);
        lemma_map_of_index(s, a0);
    }
    assert(map_of(t) =~= map_of(s).remove(k0));
}

/// Registration makes an id cancellable, removal ends that for good: with
/// the states related exactly as `register` and `remove` relate them,
/// `cancel` finds a flag right after registration and finds none — a no-op
/// returning a negative result — once the id is removed.
pub proof fn lemma_cancel_lifecycle(
    r0: UploadState,
    r1: UploadState,
    r2: UploadState,
    id: Seq<char>,
)
    requires
        r1@ == r0@.insert(id, false),
        r2@ == r1@.remove(id),
    ensures
        r1@.contains_key(id),
        !r2@.contains_key(id),
{
}

/// Removal keeps the registry's size exact: evicting a registered id leaves
/// one entry fewer, and evicting an unknown id leaves the registry as it
/// was. The two states are related exactly as `remove` relates them; a
/// registry reached from `new` always has a finite view.
pub proof fn lemma_remove_count_exact(r0: UploadState, r1: UploadState, id: Seq<char>)
    requires
        r0@.dom().finite(),
        r1@ == r0@.remove(id),
    ensures
        r1@.dom().finite(),
        r1@.dom().len() == r0@.dom().len() - (if r0@.contains_key(id) {
            1int
        } else {
            0
        }),
{
    assert(r1@.dom() =~= r0@.dom().remove(id));
}

proof fn lemma_map_of_finite(s: Seq<FlagEntry>)
    ensures
        map_of(s).dom().finite(),
{
    let keys = s.map_values(|e: FlagEntry| e.upload_id@);
    assert forall|k: Seq<char>| map_of(s).dom().contains(k) implies keys.to_set().contains(k) by {
        let i = idx_of(s, k);
        assert(keys[i] == k);
    }
    assert forall|k: Seq<char>| keys.to_set().contains(k) implies map_of(s).dom().contains(k) by {
        let i = choose|i: int| 0 <= i < keys.len() && keys[i] == k;
        assert(s[i].upload_id@ == k);
        assert(has_id(s, k));
    }
    assert(map_of(s).dom() =~= keys.to_set());
    vstd::seq_lib::seq_to_set_is_finite(keys);
}

/// The in-memory registry of cancellation flags, keyed by upload id.
///
/// Lifecycle per id: `register` creates a fresh, unset flag (replacing any
/// prior flag under the same id), `cancel` sets it, `remove` evicts it.
/// Callers must call `remove` exactly once per transfer, whatever its
/// outcome, so that no entry leaks.
pub struct UploadState {
    flags: Vec<FlagEntry>,
}

impl UploadState {
    /// Internal well-formedness: upload ids are unique.
    pub closed spec fn wf(&self) -> bool {
        unique_ids(self.flags@)
    }

    /// The registry read as a map from upload id to flag state.
    pub closed spec fn view(&self) -> Map<Seq<char>, bool> {
        map_of(self.flags@)
    }

    /// The registry always maps finitely many ids, so entry counts are
    /// well defined.
    pub proof fn lemma_view_finite(&self)
        ensures
            self@.dom().finite(),
    {
        lemma_map_of_finite(self.flags@);
    }

    /// An empty registry with no flags.
    pub fn new() -> (r: UploadState)
        ensures
            r.wf(),
            r@ == Map::<Seq<char>, bool>::empty(),
    {
        let r = UploadState { flags: Vec::new() };
        proof {
            assert(r@ =~= Map::<Seq<char>, bool>::empty());
        }
        r
    }

    /// The index of the entry carrying `upload_id`, if one exists.
    fn find(&self, upload_id: &str) -> (r: Option<usize>)
        ensures
            match r {
                Some(i) => i < self.flags@.len() && self.flags@[i as int].upload_id@ == upload_id@,
                None => !has_id(self.flags@, upload_id@),
            },
    {
        let key: String = upload_id.to_owned();
        let n = self.flags.len();
        let mut i: usize = 0;
        while i < n
            invariant
                0 <= i <= n,
                n == self.flags@.len(),
                key@ == upload_id@,
                forall|j: int| 0 <= j < i ==> self.flags@[j].upload_id@ != upload_id@,
            decreases n - i,
        {
            if self.flags[i].upload_id == key {
                return Some(i);
            }
            i = i + 1;
        }
        None
    }

    /// Create a fresh, unset flag for `upload_id`, replacing any prior flag
    /// under the same id: the last registration wins.
    pub fn register(&mut self, upload_id: &str)
        requires
            old(self).wf(),
        ensures
            final(self).wf(),
            final(self)@ == old(self)@.insert(upload_id@, false),
    {
        match self.find(upload_id) {
            Some(i) => {
                let ghost s0 = self.flags@;
                let _ = self.flags.remove(i);
                proof {
                    lemma_map_of_remove(s0, i as int);
                }
            },
            None => {},
        }
        let ghost s1 = self.flags@;
        self.flags.push(FlagEntry { upload_id: upload_id.to_owned(), cancelled: false });
        proof {
            lemma_map_of_push(s1, self.flags@.last());
            assert(map_of(s1).insert(upload_id@, false) =~= old(self)@.insert(upload_id@, false));
        }
    }

    /// Set the flag for `upload_id` if one is registered. Returns whether an
    /// active flag was found; on an unknown or already removed id this is a
    /// no-op returning `false`.
    pub fn cancel(&mut self, upload_id: &str) -> (r: bool)
        requires
            old(self).wf(),
        ensures
            final(self).wf(),
            r == old(self)@.contains_key(upload_id@),
            final(self)@ == if r {
                old(self)@.insert(upload_id@, true)
            } else {
                old(self)@
            },
    {
        match self.find(upload_id) {
            Some(i) => {
                let ghost s0 = self.flags@;
                let e = self.flags.remove(i);
                proof {
                    lemma_map_of_remove(s0, i as int);
                }
                let ghost s1 = self.flags@;
                self.flags.push(FlagEntry { upload_id: e.upload_id, cancelled: true });
                proof {
                    lemma_map_of_push(s1, self.flags@.last());
                    assert(map_of(s0).remove(upload_id@).insert(upload_id@, true)
                        =~= map_of(s0).insert(upload_id@, true));
                }
                true
            },
            None => false,
        }
    }

    /// Evict the entry for `upload_id` unconditionally; a no-op when no flag
    /// is registered under it.
    pub fn remove(&mut self, upload_id: &str)
        requires
            old(self).wf(),
        ensures
            final(self).wf(),
            final(self)@ == old(self)@.remove(upload_id@),
    {
        match self.find(upload_id) {
            Some(i) => {
                let ghost s0 = self.flags@;
                let _ = self.flags.remove(i);
                proof {
                    lemma_map_of_remove(s0, i as int);
                }
            },
            None => {
                proof {
                    assert(self@ =~= old(self)@.remove(upload_id@));
                }
            },
        }
    }

    /// Whether cancellation has been requested for `upload_id`. Unregistered
    /// ids read as not cancelled.
    pub fn is_cancelled(&self, upload_id: &str) -> (r: bool)
        requires
            self.wf(),
        ensures
            r == (self@.contains_key(upload_id@) && self@[upload_id@]),
    {
        match self.find(upload_id) {
            Some(i) => {
                proof {
                    lemma_map_of_index(self.flags@, i as int);
                }
                self.flags[i].cancelled
            },
            None => false,
        }
    }
}

} // verus!
