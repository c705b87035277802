//! The key-addressed cache table: one timestamped, opaque value per key,
//! last write wins. Values are serialized text that the store never
//! interprets; the key's prefix is the only part of an entry it reads.
use vstd::prelude::*;
use vstd::map::*;
use crate::text::{is_prefix_of, str_is_prefix};

verus! {

/// One cache row: its key, its opaque serialized value, and the millisecond
/// timestamp of its last write.
pub struct CacheEntry {
    pub key: String,
    pub value: String,
    pub updated_at: u64,
}

/// What a lookup of one key yields: the stored value and its timestamp.
pub ghost struct CacheRecord {
    pub value: Seq<char>,
    pub updated_at: u64,
}

impl CacheEntry {
    /// The entry read as a record.
    pub open spec fn record(&self) -> CacheRecord {
        CacheRecord { value: self.value@, updated_at: self.updated_at }
    }
}

/// True when no two entries of `s` share a key.
spec fn unique_keys(s: Seq<CacheEntry>) -> bool {
    forall|i: int, j: int| 0 <= i < j < s.len() ==> s[i].key@ != s[j].key@
}

/// True when some entry of `s` carries the key `k`.
spec fn has_key(s: Seq<CacheEntry>, k: Seq<char>) -> bool {
    exists|i: int| 0 <= i < s.len() && s[i].key@ == k
}

/// The index of the entry carrying `k` (meaningful only when `has_key`).
spec fn idx_of(s: Seq<CacheEntry>, k: Seq<char>) -> int {
    choose|i: int| 0 <= i < s.len() && s[i].key@ == k
}

/// The entries of `s` read as a map from key to record.
spec fn map_of(s: Seq<CacheEntry>) -> Map<Seq<char>, CacheRecord> {
    Map::new(|k: Seq<char>| has_key(s, k), |k: Seq<char>| s[idx_of(s, k)].record())
}

/// The entries of `s` whose keys do not start with `p`, in order.
spec fn kept_entries(s: Seq<CacheEntry>, p: Seq<char>) -> Seq<CacheEntry>
    decreases s.len(),
{
    if s.len() == 0 {
        Seq::empty()
    } else {
        let d = kept_entries(s.drop_last(), p);
        if is_prefix_of(p, s.last().key@) {
            d
        } else {
            d.push(s.last())
        }
    }
}

proof fn lemma_map_of_index(s: Seq<CacheEntry>, i: int)
    requires
        unique_keys(s),
        0 <= i < s.len(),
    ensures
        map_of(s).contains_key(s[i].key@),
        map_of(s)[s[i].key@] == s[i].record(),
{
    assert(has_key(s, s[i].key@));
    let j = idx_of(s, s[i].key@);
    assert(0 <= j < s.len() && s[j].key@ == s[i].key@);
    assert(j == i);
}

proof fn lemma_map_of_push(s: Seq<CacheEntry>, e: CacheEntry)
    requires
        unique_keys(s),
        !has_key(s, e.key@),
    ensures
        unique_keys(s.push(e)),
        map_of(s.push(e)) == map_of(s).insert(e.key@, e.record()),
{
    let t = s.push(e);
    assert forall|i: int, j: int| 0 <= i < j < t.len() implies t[i].key@ != t[j].key@ by {
        if j == s.len() {
            assert(t[i] == s[i]);
            assert(has_key(s, s[i].key@) || s[i].key@ != e.key@);
        }
    }
    assert forall|k: Seq<char>| #[trigger] map_of(t).contains_key(k)
        <==> map_of(s).insert(e.key@, e.record()).contains_key(k) by {
        if k == e.key@ {
            assert(t[s.len() as int].key@ == k);
            assert(has_key(t, k));
        } else {
            if has_key(s, k) {
                let i = idx_of(s, k);
                assert(t[i].key@ == k);
                assert(has_key(t, k));
            }
            if has_key(t, k) {
                let i = idx_of(t, k);
                assert(i < s.len());
                assert(s[i].key@ == k);
                assert(has_key(s, k));
            }
        }
    }
    assert forall|k: Seq<char>| map_of(t).contains_key(k) implies #[trigger] map_of(t)[k]
        == map_of(s).insert(e.key@, e.record())[k] by {
        let i = idx_of(t, k);
        assert(0 <= i < t.len() && t[i].key@ == k);
        lemma_map_of_index(t, i);
        if k == e.key@ {
            assert(i == s.len());
        } else {
            assert(i < s.len());
            assert(s[i].key@ == k);
            lemma_map_of_index(s, i);
        }
    }
    assert(map_of(t) =~= map_of(s).insert(e.key@, e.record()));
}

proof fn lemma_map_of_remove(s: Seq<CacheEntry>, i: int)
    requires
        unique_keys(s),
        0 <= i < s.len(),
    ensures
        unique_keys(s.remove(i)),
        !has_key(s.remove(i), s[i].key@),
        map_of(s.remove(i)) == map_of(s).remove(s[i].key@),
{
    let t = s.remove(i);
    let k0 = s[i].key@;
    assert forall|a: int, b: int| 0 <= a < b < t.len() implies t[a].key@ != t[b].key@ by {
        let a0: int = if a < i { a } else { a + 1 };
        let b0: int = if b < i { b } else { b + 1 };
        assert(t[a] == s[a0] && t[b] == s[b0]);
    }
    assert forall|a: int| 0 <= a < t.len() implies t[a].key@ != k0 by {
        let a0: int = if a < i { a } else { a + 1 };
        assert(t[a] == s[a0]);
    }
    assert forall|k: Seq<char>| #[trigger] map_of(t).contains_key(k)
        <==> map_of(s).remove(k0).contains_key(k) by {
        if k != k0 {
            if has_key(s, k) {
                let a = idx_of(s, k);
                let a1: int = if a < i { a } else { a - 1 };
                assert(a != i);
                assert(t[a1] == s[a]);
                assert(has_key(t, k));
            }
            if has_key(t, k) {
                let a = idx_of(t, k);
                let a0: int = if a < i { a } else { a + 1 };
                assert(t[a] == s[a0]);
                assert(has_key(s, k));
            }
        }
    }
    assert forall|k: Seq<char>| map_of(t).contains_key(k) implies #[trigger] map_of(t)[k]
        == map_of(s).remove(k0)[k] by {
        let a = idx_of(t, k);
        assert(0 <= a < t.len() && t[a].key@ == k);
        lemma_map_of_index(t, a);
        let a0: int = if a < i { a } else { a + 1 };
        assert(t[a] == s[a0]);
        lemma_map_of_index(s, a0);
    }
    assert(map_of(t) =~= map_of(s).remove(k0));
}

proof fn lemma_kept_entries(s: Seq<CacheEntry>, p: Seq<char>)
    requires
        unique_keys(s),
    ensures
        unique_keys(kept_entries(s, p)),
        map_of(kept_entries(s, p)) == Map::new(
            |k: Seq<char>| has_key(s, k) && !is_prefix_of(p, k),
            |k: Seq<char>| map_of(s)[k],
        ),
    decreases s.len(),
{
    let goal = Map::new(
        |k: Seq<char>| has_key(s, k) && !is_prefix_of(p, k),
        |k: Seq<char>| map_of(s)[k],
    );
    let t = kept_entries(s, p);
    if s.len() == 0 {
        assert(map_of(t) =~= goal);
    } else {
        let d = s.drop_last();
        let e = s.last();
        assert(unique_keys(d)) by {
            assert(forall|i: int| 0 <= i < d.len() ==> d[i] == s[i]);
        }
        lemma_kept_entries(d, p);
        let td = kept_entries(d, p);
        let goal_d = Map::new(
            |k: Seq<char>| has_key(d, k) && !is_prefix_of(p, k),
            |k: Seq<char>| map_of(d)[k],
        );
        assert(!has_key(d, e.key@)) by {
            assert(forall|i: int| 0 <= i < d.len() ==> d[i] == s[i] && s[i].key@ != e.key@);
        }
        assert(!map_of(td).contains_key(e.key@));
        assert(!has_key(td, e.key@));
        assert forall|k: Seq<char>| has_key(d, k) implies #[trigger] map_of(d)[k] == map_of(s)[k] by {
            let i = idx_of(d, k);
            assert(d[i] == s[i]);
            lemma_map_of_index(d, i);
            lemma_map_of_index(s, i);
        }
        assert forall|k: Seq<char>| #[trigger] has_key(s, k) implies
            has_key(d, k) || k == e.key@ by {
            let i = idx_of(s, k);
            if i < d.len() {
                assert(d[i] == s[i]);
            }
        }
        if is_prefix_of(p, e.key@) {
            assert(t == td);
            assert(map_of(t) =~= goal);
        } else {
            assert(t == td.push(e));
            lemma_map_of_push(td, e);
            assert(e.record() == map_of(s)[e.key@]) by {
                lemma_map_of_index(s, s.len() - 1);
            }
            assert(map_of(t) =~= goal);
        }
    }
}

/// The cache table. One entry per key; a write fully replaces the prior
/// value and timestamp, and timestamps never decrease.
pub struct CacheTable {
    entries: Vec<CacheEntry>,
    clock_hwm: u64,
}

impl CacheTable {
    /// Internal well-formedness: keys are unique and no stored timestamp
    /// exceeds the clock high-water mark.
    pub closed spec fn wf(&self) -> bool {
        &&& unique_keys(self.entries@)
        &&& forall|i: int| 0 <= i < self.entries@.len()
            ==> #[trigger] self.entries@[i].updated_at <= self.clock_hwm
    }

    /// The table read as a map from key to record.
    pub closed spec fn view(&self) -> Map<Seq<char>, CacheRecord> {
        map_of(self.entries@)
    }

    /// The largest timestamp ever written: later writes never go below it.
    pub closed spec fn hwm(&self) -> u64 {
        self.clock_hwm
    }

    /// The timestamp a write gets when the caller's clock reads `now_ms` and
    /// the high-water mark stands at `hwm`: the clock value, clamped so that
    /// stored timestamps never decrease.
    pub open spec fn stamped(hwm: u64, now_ms: u64) -> u64 {
        if now_ms < hwm {
            hwm
        } else {
            now_ms
        }
    }

    /// An empty cache table.
    pub fn new() -> (r: CacheTable)
        ensures
            r.wf(),
            r@ == Map::<Seq<char>, CacheRecord>::empty(),
            r.hwm() == 0,
    {
        let r = CacheTable { entries: Vec::new(), clock_hwm: 0 };
        proof {
            assert(r@ =~= Map::<Seq<char>, CacheRecord>::empty());
        }
        r
    }

    /// The index of the entry carrying `key`, if one exists.
    fn find(&self, key: &str) -> (r: Option<usize>)
        ensures
            match r {
                Some(i) => i < self.entries@.len() && self.entries@[i as int].key@ == key@,
                None => !has_key(self.entries@, key@),
            },
    {
        let k: String = key.to_owned();
        let n = self.entries.len();
        let mut i: usize = 0;
        while i < n
            invariant
                0 <= i <= n,
                n == self.entries@.len(),
                k@ == key@,
                forall|j: int| 0 <= j < i ==> self.entries@[j].key@ != key@,
            decreases n - i,
        {
            if self.entries[i].key == k {
                return Some(i);
            }
            i = i + 1;
        }
        None
    }

    /// The entry stored under `key`, if any.
    pub fn get(&self, key: &str) -> (r: Option<&CacheEntry>)
        requires
            self.wf(),
        ensures
            match r {
                Some(e) => {
                    &&& self@.contains_key(key@)
                    &&& e.key@ == key@
                    &&& e.record() == self@[key@]
                },
                None => !self@.contains_key(key@),
            },
    {
        match self.find(key) {
            Some(i) => {
                proof {
                    lemma_map_of_index(self.entries@, i as int);
                }
                Some(&self.entries[i])
            },
            None => None,
        }
    }

    /// Upsert: store `value` under `key`, fully replacing any prior entry.
    /// The new timestamp is the caller's clock reading `now_ms`, clamped so
    /// that `updated_at` never decreases across writes.
    pub fn set(&mut self, key: &str, value: &str, now_ms: u64)
        requires
            old(self).wf(),
        ensures
            final(self).wf(),
            final(self).hwm() == CacheTable::stamped(old(self).hwm(), now_ms),
            final(self)@ == old(self)@.insert(
                key@,
                CacheRecord {
                    value: value@,
                    updated_at: CacheTable::stamped(old(self).hwm(), now_ms),
                },
            ),
    {
        let ts: u64 = if now_ms < self.clock_hwm {
            self.clock_hwm
        } else {
            now_ms
        };
        match self.find(key) {
            Some(i) => {
                let ghost s0 = self.entries@;
                let _ = self.entries.remove(i);
                proof {
                    lemma_map_of_remove(s0, i as int);
                }
            },
            None => {},
        }
        let ghost s1 = self.entries@;
        self.entries.push(CacheEntry { key: key.to_owned(), value: value.to_owned(), updated_at: ts });
        self.clock_hwm = ts;
        proof {
            lemma_map_of_push(s1, self.entries@.last());
            assert(final(self)@ =~= old(self)@.insert(
                key@,
                CacheRecord { value: value@, updated_at: ts },
            ));
        }
    }

    /// Remove the entry stored under `key`; a no-op when none exists.
    pub fn delete(&mut self, key: &str)
        requires
            old(self).wf(),
        ensures
            final(self).wf(),
            final(self).hwm() == old(self).hwm(),
            final(self)@ == old(self)@.remove(key@),
    {
        match self.find(key) {
            Some(i) => {
                let ghost s0 = self.entries@;
                let _ = self.entries.remove(i);
                proof {
                    lemma_map_of_remove(s0, i as int);
                }
            },
            None => {
                proof {
                    assert(self@ =~= old(self)@.remove(key@));
                }
            },
        }
    }

    /// Every entry of the table, for enumeration (when persisting it, say):
    /// one row per key of the view, carrying that key's record.
    pub fn rows(&self) -> (r: &Vec<CacheEntry>)
        requires
            self.wf(),
        ensures
            forall|i: int|
                0 <= i < r@.len() ==> {
                    &&& self@.contains_key((#[trigger] r@[i]).key@)
                    &&& self@[r@[i].key@] == r@[i].record()
                },
            forall|k: Seq<char>|
                #[trigger] self@.contains_key(k) ==> exists|i: int|
                    0 <= i < r@.len() && (#[trigger] r@[i]).key@ == k,
    {
        proof {
            assert forall|i: int| 0 <= i < self.entries@.len() implies {
                &&& self@.contains_key((#[trigger] self.entries@[i]).key@)
                &&& self@[self.entries@[i].key@] == self.entries@[i].record()
            } by {
                lemma_map_of_index(self.entries@, i);
            }
        }
        &self.entries
    }

    /// Remove every entry whose key starts with `prefix`, leaving all other
    /// entries untouched: namespaced bulk invalidation.
    pub fn delete_prefix(&mut self, prefix: &str)
        requires
            old(self).wf(),
        ensures
            final(self).wf(),
            final(self).hwm() == old(self).hwm(),
            final(self)@ == Map::new(
                |k: Seq<char>| old(self)@.contains_key(k) && !is_prefix_of(prefix@, k),
                |k: Seq<char>| old(self)@[k],
            ),
    {
        let ghost orig = self.entries@;
        let mut i: usize = 0;
        let ghost mut j: int = 0;
        while i < self.entries.len()
            invariant
                old(self).wf(),
                orig == old(self).entries@,
                0 <= j <= orig.len(),
                i == kept_entries(orig.subrange(0, j), prefix@).len(),
                i <= self.entries@.len(),
                self.entries@ =~= kept_entries(orig.subrange(0, j), prefix@)
                    + orig.subrange(j, orig.len() as int),
                self.clock_hwm == old(self).clock_hwm,
            decreases orig.len() - j,
        {
            proof {
                assert(j < orig.len());
                assert(orig.subrange(0, j + 1).drop_last() =~= orig.subrange(0, j));
                assert(orig.subrange(0, j + 1).last() == orig[j]);
                assert(self.entries@[i as int] == orig[j]);
            }
            if str_is_prefix(prefix, self.entries[i].key.as_str()) {
                let _ = self.entries.remove(i);
                proof {
                    j = j + 1;
                    assert(self.entries@ =~= kept_entries(orig.subrange(0, j), prefix@)
                        + orig.subrange(j, orig.len() as int));
                }
            } else {
                proof {
                    j = j + 1;
                    assert(kept_entries(orig.subrange(0, j), prefix@)
                        =~= kept_entries(orig.subrange(0, j - 1), prefix@).push(orig[j - 1]));
                    assert(self.entries@ =~= kept_entries(orig.subrange(0, j), prefix@)
                        + orig.subrange(j, orig.len() as int));
                }
                i = i + 1;
            }
        }
        proof {
            assert(orig.subrange(0, orig.len() as int) =~= orig);
            assert(orig.subrange(orig.len() as int, orig.len() as int)
                =~= Seq::<CacheEntry>::empty());
            assert(self.entries@ =~= kept_entries(orig, prefix@));
            lemma_kept_entries(orig, prefix@);
            assert forall|a: int| 0 <= a < self.entries@.len() implies
                #[trigger] self.entries@[a].updated_at <= self.clock_hwm by {
                lemma_kept_in_orig(orig, prefix@, a);
            }
        }
    }

}

/// Last write wins, and timestamps never decrease: writing `v1` then `v2`
/// under one key — the three states and clock readings related exactly as
/// `set` relates them — leaves `v2` stored under a timestamp no older than
/// the one `v1` got, whatever the clock did in between.
pub proof fn lemma_last_write_wins(
    s0: CacheTable,
    s1: CacheTable,
    s2: CacheTable,
    k: Seq<char>,
    v1: Seq<char>,
    v2: Seq<char>,
    now1: u64,
    now2: u64,
)
    requires
        s1@ == s0@.insert(
            k,
            CacheRecord { value: v1, updated_at: CacheTable::stamped(s0.hwm(), now1) },
        ),
        s1.hwm() == CacheTable::stamped(s0.hwm(), now1),
        s2@ == s1@.insert(
            k,
            CacheRecord { value: v2, updated_at: CacheTable::stamped(s1.hwm(), now2) },
        ),
    ensures
        s2@.contains_key(k),
        s2@[k].value == v2,
        s1@[k].updated_at <= s2@[k].updated_at,
{
}

/// Deleting by prefix removes exactly the keys that start with the prefix:
/// every other key keeps its record untouched. The two states are related
/// as `delete_prefix` relates them.
pub proof fn lemma_delete_prefix_exact(s0: CacheTable, s1: CacheTable, p: Seq<char>)
    requires
        s1@ == Map::new(
            |k: Seq<char>| s0@.contains_key(k) && !is_prefix_of(p, k),
            |k: Seq<char>| s0@[k],
        ),
    ensures
        forall|k: Seq<char>| is_prefix_of(p, k) ==> !(#[trigger] s1@.contains_key(k)),
        forall|k: Seq<char>|
            !is_prefix_of(p, k) ==> #[trigger] s1@.contains_key(k) == s0@.contains_key(k),
        forall|k: Seq<char>| #[trigger] s1@.contains_key(k) ==> s1@[k] == s0@[k],
{
}

/// Every kept entry is one of the original entries.
proof fn lemma_kept_in_orig(s: Seq<CacheEntry>, p: Seq<char>, a: int)
    requires
        0 <= a < kept_entries(s, p).len(),
    ensures
        exists|i: int| 0 <= i < s.len() && s[i] == kept_entries(s, p)[a],
    decreases s.len(),
{
    if s.len() > 0 {
        let d = s.drop_last();
        let t = kept_entries(s, p);
        let td = kept_entries(d, p);
        if a < td.len() {
            lemma_kept_in_orig(d, p, a);
            let i = choose|i: int| 0 <= i < d.len() && d[i] == td[a];
            assert(s[i] == td[a]);
            assert(t[a] == td[a]);
        } else {
            assert(t[a] == s.last());
            assert(s[s.len() - 1] == s.last());
        }
    }
}

} // verus!
