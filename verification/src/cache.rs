//! The resolution cache: domain name to resolved record, TTL-bounded.
//!
//! An entry expires `ttl` seconds after its insertion time and is removed
//! lazily by the lookup that finds it expired. After an insertion pushes the
//! table over its configured maximum, expired entries are removed first;
//! if the table is still over capacity, survivors leave in ascending
//! insertion-time order, ties broken by ascending key, until it fits. The
//! table size never exceeds the maximum once a mutating call returns.
//!
//! Keys are the dotted byte form of a name; comparison is exact.

use vstd::prelude::*;
use crate::codec::{ResourceRecord, ResourceRecordView};
use crate::name::valid_name;

verus! {

/// One cached resolution.
pub struct CacheEntry {
    /// The dotted byte form of the domain name.
    pub key: Vec<u8>,
    /// The record that resolution produced.
    pub record: ResourceRecord,
    /// When the entry was inserted, in seconds.
    pub inserted_at: u64,
    /// How many seconds past `inserted_at` the entry stays valid.
    pub ttl: u64,
}

/// The mathematical value of a [`CacheEntry`].
pub ghost struct CacheEntryView {
    pub key: Seq<u8>,
    pub record: ResourceRecordView,
    pub inserted_at: u64,
    pub ttl: u64,
}

impl View for CacheEntry {
    type V = CacheEntryView;

    open spec fn view(&self) -> CacheEntryView {
        CacheEntryView {
            key: self.key@,
            record: self.record@,
            inserted_at: self.inserted_at,
            ttl: self.ttl,
        }
    }
}

/// The views of a vector of entries.
pub open spec fn entries_view(v: Vec<CacheEntry>) -> Seq<CacheEntryView> {
    Seq::new(v@.len(), |i: int| v@[i]@)
}

/// Whether the entry is past its lifetime at time `now`.
pub open spec fn spec_expired(e: CacheEntryView, now: u64) -> bool {
    now as int - e.inserted_at as int >= e.ttl as int
}

/// Strict lexicographic order on byte strings.
pub open spec fn lex_less(a: Seq<u8>, b: Seq<u8>) -> bool
    decreases a.len(),
{
    if b.len() == 0 {
        false
    } else if a.len() == 0 {
        true
    } else if a[0] < b[0] {
        true
    } else if a[0] > b[0] {
        false
    } else {
        lex_less(a.drop_first(), b.drop_first())
    }
}

/// The eviction order: older first, ties broken by ascending key.
pub open spec fn evict_less(a: CacheEntryView, b: CacheEntryView) -> bool {
    a.inserted_at < b.inserted_at || (a.inserted_at == b.inserted_at && lex_less(a.key, b.key))
}

/// The first position at or after `j` whose entry has `key`, or -1.
pub open spec fn key_search(s: Seq<CacheEntryView>, key: Seq<u8>, j: int) -> int
    decreases s.len() - j,
{
    if j < 0 || j >= s.len() {
        -1
    } else if s[j].key == key {
        j
    } else {
        key_search(s, key, j + 1)
    }
}

/// The entries that are not yet expired at `now`, in order.
pub open spec fn fresh_only(s: Seq<CacheEntryView>, now: u64) -> Seq<CacheEntryView>
    decreases s.len(),
{
    if s.len() == 0 {
        Seq::<CacheEntryView>::empty()
    } else {
        fresh_only(s.drop_last(), now) + (if spec_expired(s.last(), now) {
            Seq::<CacheEntryView>::empty()
        } else {
            seq![s.last()]
        })
    }
}

/// The position of the eviction-first entry among the first `i`.
pub open spec fn min_upto(s: Seq<CacheEntryView>, i: int) -> int
    decreases i,
{
    if i <= 1 {
        0
    } else {
        let m = min_upto(s, i - 1);
        if evict_less(s[i - 1], s[m]) {
            i - 1
        } else {
            m
        }
    }
}

/// Entries removed in eviction order until at most `max` remain.
pub open spec fn evict_to_cap(s: Seq<CacheEntryView>, max: int) -> Seq<CacheEntryView>
    decreases s.len(),
{
    if s.len() <= max || s.len() == 0 {
        s
    } else {
        let m = min_upto(s, s.len() as int);
        let mm = if 0 <= m < s.len() {
            m
        } else {
            0
        };
        evict_to_cap(s.remove(mm), max)
    }
}

/// The table after writing `e`: any entry with the same key is replaced,
/// otherwise `e` is appended.
pub open spec fn insert_entries(s: Seq<CacheEntryView>, e: CacheEntryView) -> Seq<CacheEntryView> {
    let i = key_search(s, e.key, 0);
    (if i >= 0 {
        s.remove(i)
    } else {
        s
    }).push(e)
}

/// The table after a put: the write, then, only if the table overflows,
/// expiry sweep and eviction down to `max`.
pub open spec fn put_result(s: Seq<CacheEntryView>, e: CacheEntryView, now: u64, max: int) -> Seq<
    CacheEntryView,
> {
    let ins = insert_entries(s, e);
    if ins.len() <= max {
        ins
    } else {
        evict_to_cap(fresh_only(ins, now), max)
    }
}

/// No two entries share a key.
pub open spec fn unique_keys(s: Seq<CacheEntryView>) -> bool {
    forall|i: int, j: int| 0 <= i < s.len() && 0 <= j < s.len() && i != j ==> s[i].key != s[j].key
}

/// A storable entry: its record is well formed and its record name fits the
/// wire format, so a response can always be built from it.
pub open spec fn entry_ok(e: CacheEntryView) -> bool {
    e.record.wf() && valid_name(e.record.name)
}

/// Every entry in the table is storable.
pub open spec fn all_entries_ok(s: Seq<CacheEntryView>) -> bool {
    forall|i: int| 0 <= i < s.len() ==> entry_ok(#[trigger] s[i])
}

/// Removing an entry keeps the rest storable.
proof fn lemma_remove_ok(s: Seq<CacheEntryView>, i: int)
    requires
        all_entries_ok(s),
        0 <= i < s.len(),
    ensures
        all_entries_ok(s.remove(i)),
{
    let t = s.remove(i);
    assert forall|a: int| 0 <= a < t.len() implies entry_ok(t[a]) by {
        let a0 = if a < i {
            a
        } else {
            a + 1
        };
        assert(t[a] == s[a0]);
    }
}

/// The expiry sweep keeps entries storable.
proof fn lemma_fresh_only_ok(s: Seq<CacheEntryView>, now: u64)
    requires
        all_entries_ok(s),
    ensures
        all_entries_ok(fresh_only(s, now)),
    decreases s.len(),
{
    if s.len() > 0 {
        assert(all_entries_ok(s.drop_last())) by {
            assert forall|a: int| 0 <= a < s.drop_last().len() implies entry_ok(
                s.drop_last()[a],
            ) by {
                assert(s.drop_last()[a] == s[a]);
            }
        }
        lemma_fresh_only_ok(s.drop_last(), now);
    }
}

/// Eviction keeps entries storable.
proof fn lemma_evict_ok(s: Seq<CacheEntryView>, max: int)
    requires
        all_entries_ok(s),
    ensures
        all_entries_ok(evict_to_cap(s, max)),
    decreases s.len(),
{
    if s.len() > max && s.len() > 0 {
        let m = min_upto(s, s.len() as int);
        let mm: int = if 0 <= m < s.len() {
            m
        } else {
            0
        };
        lemma_remove_ok(s, mm);
        lemma_evict_ok(s.remove(mm), max);
    }
}

/// The minimum position is a position.
proof fn lemma_min_upto_range(s: Seq<CacheEntryView>, i: int)
    requires
        1 <= i <= s.len(),
    ensures
        0 <= min_upto(s, i) < i,
    decreases i,
{
    if i > 1 {
        lemma_min_upto_range(s, i - 1);
    }
}

/// Eviction stops at the cap and keeps a subset of the entries.
proof fn lemma_evict_to_cap_len(s: Seq<CacheEntryView>, max: int)
    requires
        max >= 0,
    ensures
        evict_to_cap(s, max).len() <= max || evict_to_cap(s, max) == s,
        evict_to_cap(s, max).len() <= s.len(),
        s.len() > max ==> evict_to_cap(s, max).len() <= max,
    decreases s.len(),
{
    if s.len() > max && s.len() > 0 {
        lemma_min_upto_range(s, s.len() as int);
        lemma_evict_to_cap_len(s.remove(min_upto(s, s.len() as int)), max);
    }
}

/// Removing one entry keeps keys unique.
proof fn lemma_remove_unique(s: Seq<CacheEntryView>, i: int)
    requires
        unique_keys(s),
        0 <= i < s.len(),
    ensures
        unique_keys(s.remove(i)),
{
    let t = s.remove(i);
    assert forall|a: int, b: int|
        0 <= a < t.len() && 0 <= b < t.len() && a != b implies t[a].key != t[b].key by {
        let a0 = if a < i {
            a
        } else {
            a + 1
        };
        let b0 = if b < i {
            b
        } else {
            b + 1
        };
        assert(t[a] == s[a0] && t[b] == s[b0]);
    }
}

/// The expiry sweep keeps keys unique.
proof fn lemma_fresh_only_unique(s: Seq<CacheEntryView>, now: u64)
    requires
        unique_keys(s),
    ensures
        unique_keys(fresh_only(s, now)),
        fresh_only(s, now).len() <= s.len(),
        forall|i: int| 0 <= i < fresh_only(s, now).len() ==> exists|j: int|
            0 <= j < s.len() && #[trigger] fresh_only(s, now)[i] == s[j],
    decreases s.len(),
{
    if s.len() > 0 {
        assert(unique_keys(s.drop_last())) by {
            assert forall|a: int, b: int|
                0 <= a < s.drop_last().len() && 0 <= b < s.drop_last().len() && a != b
                implies s.drop_last()[a].key != s.drop_last()[b].key by {
                assert(s.drop_last()[a] == s[a] && s.drop_last()[b] == s[b]);
            }
        }
        lemma_fresh_only_unique(s.drop_last(), now);
        let f = fresh_only(s, now);
        let fd = fresh_only(s.drop_last(), now);
        assert forall|i: int| 0 <= i < f.len() implies exists|j: int|
            0 <= j < s.len() && #[trigger] f[i] == s[j] by {
            if i < fd.len() {
                let j = choose|j: int| 0 <= j < s.drop_last().len() && #[trigger] fd[i] == s.drop_last()[j];
                assert(f[i] == s[j]);
            } else {
                assert(f[i] == s[s.len() - 1]);
            }
        }
        assert forall|a: int, b: int|
            0 <= a < f.len() && 0 <= b < f.len() && a != b implies f[a].key != f[b].key by {
            if a < fd.len() && b < fd.len() {
                assert(f[a] == fd[a] && f[b] == fd[b]);
            } else {
                let inside: int = if a < fd.len() {
                    a
                } else {
                    b
                };
                assert(f[inside] == fd[inside]);
                let j = choose|j: int|
                    0 <= j < s.drop_last().len() && #[trigger] fd[inside] == s.drop_last()[j];
                assert(fd[inside] == s[j]);
                assert(f[if a < fd.len() {
                    b
                } else {
                    a
                }] == s[s.len() - 1]);
                assert(s[j].key != s[s.len() - 1].key);
            }
        }
    }
}

/// Eviction keeps keys unique.
proof fn lemma_evict_unique(s: Seq<CacheEntryView>, max: int)
    requires
        unique_keys(s),
        max >= 0,
    ensures
        unique_keys(evict_to_cap(s, max)),
    decreases s.len(),
{
    if s.len() > max && s.len() > 0 {
        lemma_min_upto_range(s, s.len() as int);
        lemma_remove_unique(s, min_upto(s, s.len() as int));
        lemma_evict_unique(s.remove(min_upto(s, s.len() as int)), max);
    }
}

/// A hit found by the scan really carries the key, and a miss means no
/// entry does.
proof fn lemma_key_search_props(s: Seq<CacheEntryView>, key: Seq<u8>, j: int)
    requires
        0 <= j,
    ensures
        key_search(s, key, j) >= 0 ==> {
            let i = key_search(s, key, j);
            j <= i < s.len() && s[i].key == key
        },
        key_search(s, key, j) < 0 ==> forall|i: int| j <= i < s.len() ==> s[i].key != key,
    decreases s.len() - j,
{
    if j < s.len() && s[j].key != key {
        lemma_key_search_props(s, key, j + 1);
    }
}

/// A hit of the whole-table scan lies inside the table and carries the key.
pub proof fn lemma_key_search_in_range(s: Seq<CacheEntryView>, key: Seq<u8>)
    ensures
        key_search(s, key, 0) >= 0 ==> 0 <= key_search(s, key, 0) < s.len() && s[key_search(
            s,
            key,
            0,
        )].key == key,
{
    lemma_key_search_props(s, key, 0);
}

/// After removing the only entry with a key, no entry has it.
proof fn lemma_remove_key_gone(s: Seq<CacheEntryView>, key: Seq<u8>, i: int)
    requires
        unique_keys(s),
        0 <= i < s.len(),
        s[i].key == key,
    ensures
        forall|a: int| 0 <= a < s.remove(i).len() ==> s.remove(i)[a].key != key,
{
    let t = s.remove(i);
    assert forall|a: int| 0 <= a < t.len() implies t[a].key != key by {
        let a0 = if a < i {
            a
        } else {
            a + 1
        };
        assert(t[a] == s[a0]);
    }
}

/// The TTL-bounded answer cache.
pub struct ResolutionCache {
    /// The table of live entries, in insertion order.
    pub entries: Vec<CacheEntry>,
    /// The TTL used when a put carries no override.
    pub default_ttl: u64,
    /// The configured maximum table size.
    pub max_size: usize,
}

impl ResolutionCache {
    /// The cache invariant: no duplicate keys, and the table is within its
    /// configured maximum.
    pub open spec fn wf(self) -> bool {
        unique_keys(entries_view(self.entries)) && all_entries_ok(entries_view(self.entries))
            && self.entries@.len() <= self.max_size
    }

    /// An empty cache with the given configuration.
    pub fn new(default_ttl: u64, max_size: usize) -> (r: ResolutionCache)
        ensures
            r.wf(),
            r.entries@.len() == 0,
            r.default_ttl == default_ttl,
            r.max_size == max_size,
    {
        ResolutionCache { entries: Vec::new(), default_ttl, max_size }
    }

    /// How many entries the cache holds.
    pub fn len(&self) -> (r: usize)
        ensures
            r == self.entries@.len(),
    {
        self.entries.len()
    }
}

/// Whether two byte strings are equal.
fn bytes_eq(a: &Vec<u8>, b: &Vec<u8>) -> (r: bool)
    ensures
        r == (a@ == b@),
{
    if a.len() != b.len() {
        proof {
            assert(a@.len() != b@.len());
        }
        return false;
    }
    let mut i: usize = 0;
    while i < a.len()
        invariant
            a@.len() == b@.len(),
            0 <= i <= a@.len(),
            forall|j: int| 0 <= j < i ==> a@[j] == b@[j],
        decreases a@.len() - i,
    {
        if a[i] != b[i] {
            return false;
        }
        i += 1;
    }
    proof {
        assert(a@ =~= b@);
    }
    true
}

/// Whether `a` comes strictly before `b` in byte-wise lexicographic order.
#[verifier::loop_isolation(false)]
fn bytes_less(a: &Vec<u8>, b: &Vec<u8>) -> (r: bool)
    ensures
        r == lex_less(a@, b@),
{
    let mut i: usize = 0;
    proof {
        assert(a@.skip(0) =~= a@);
        assert(b@.skip(0) =~= b@);
    }
    loop
        invariant
            0 <= i <= a@.len(),
            i <= b@.len(),
            lex_less(a@, b@) == lex_less(a@.skip(i as int), b@.skip(i as int)),
        decreases a@.len() - i,
    {
        if i >= b.len() {
            proof {
                assert(b@.skip(i as int).len() == 0);
            }
            return false;
        }
        if i >= a.len() {
            proof {
                assert(a@.skip(i as int).len() == 0 && b@.skip(i as int).len() > 0);
            }
            return true;
        }
        let ca = a[i];
        let cb = b[i];
        proof {
            assert(a@.skip(i as int)[0] == a@[i as int]);
            assert(b@.skip(i as int)[0] == b@[i as int]);
        }
        if ca < cb {
            return true;
        }
        if ca > cb {
            return false;
        }
        proof {
            assert(a@.skip(i as int).drop_first() =~= a@.skip(i + 1));
            assert(b@.skip(i as int).drop_first() =~= b@.skip(i + 1));
        }
        i += 1;
    }
}

/// A byte-for-byte copy of a byte vector.
pub fn clone_bytes(v: &Vec<u8>) -> (r: Vec<u8>)
    ensures
        r@ == v@,
{
    let mut out: Vec<u8> = Vec::new();
    let mut i: usize = 0;
    while i < v.len()
        invariant
            0 <= i <= v@.len(),
            out@ == v@.take(i as int),
        decreases v@.len() - i,
    {
        out.push(v[i]);
        proof {
            assert(v@.take(i + 1) =~= v@.take(i as int).push(v@[i as int]));
        }
        i += 1;
    }
    proof {
        assert(v@.take(v@.len() as int) =~= v@);
    }
    out
}

/// A label-for-label copy of a name.
pub fn clone_labels(v: &Vec<Vec<u8>>) -> (r: Vec<Vec<u8>>)
    ensures
        crate::name::labels_view(r) == crate::name::labels_view(*v),
        r@.len() == v@.len(),
{
    let mut out: Vec<Vec<u8>> = Vec::new();
    let mut i: usize = 0;
    while i < v.len()
        invariant
            0 <= i <= v@.len(),
            out@.len() == i,
            forall|j: int| 0 <= j < i ==> #[trigger] out@[j]@ == v@[j]@,
        decreases v@.len() - i,
    {
        let item = clone_bytes(&v[i]);
        out.push(item);
        i += 1;
    }
    proof {
        assert(crate::name::labels_view(out) =~= crate::name::labels_view(*v));
    }
    out
}

/// A field-for-field copy of a record; the copy has the same value.
pub fn clone_record(r: &ResourceRecord) -> (c: ResourceRecord)
    ensures
        c@ == r@,
{
    ResourceRecord {
        name: clone_labels(&r.name),
        rr_type: r.rr_type,
        class: r.class,
        ttl: r.ttl,
        rd_length: r.rd_length,
        rdata: clone_bytes(&r.rdata),
    }
}

impl ResolutionCache {
    /// The position of `key` in the table, if present.
    #[verifier::loop_isolation(false)]
    fn find_key(&self, key: &Vec<u8>) -> (r: Option<usize>)
        ensures
            match r {
                Some(i) => i < self.entries@.len() && key_search(
                    entries_view(self.entries),
                    key@,
                    0,
                ) == i as int,
                None => key_search(entries_view(self.entries), key@, 0) < 0,
            },
    {
        let mut i: usize = 0;
        while i < self.entries.len()
            invariant
                0 <= i <= self.entries@.len(),
                key_search(entries_view(self.entries), key@, 0) == key_search(
                    entries_view(self.entries),
                    key@,
                    i as int,
                ),
            decreases self.entries@.len() - i,
        {
            if bytes_eq(&self.entries[i].key, key) {
                proof {
                    assert(entries_view(self.entries)[i as int].key == key@);
                }
                return Some(i);
            }
            proof {
                assert(entries_view(self.entries)[i as int].key != key@);
            }
            i += 1;
        }
        None
    }

    /// Looks up `key` at time `now`. A fresh entry's record is returned and
    /// the cache is untouched; an expired entry is removed as a side effect
    /// and treated as absent; a missing key leaves the cache untouched.
    pub fn get(&mut self, key: &Vec<u8>, now: u64) -> (r: Option<ResourceRecord>)
        requires
            old(self).wf(),
        ensures
            final(self).wf(),
            final(self).default_ttl == old(self).default_ttl,
            final(self).max_size == old(self).max_size,
            ({
                let s = entries_view(old(self).entries);
                let i = key_search(s, key@, 0);
                &&& i < 0 ==> r is None && *final(self) == *old(self)
                &&& (i >= 0 && !spec_expired(s[i], now)) ==> (r matches Some(rec) && rec@
                    == s[i].record && *final(self) == *old(self))
                &&& (i >= 0 && spec_expired(s[i], now)) ==> r is None && entries_view(
                    final(self).entries,
                ) == s.remove(i)
            }),
    {
        let idx = match self.find_key(key) {
            Some(i) => i,
            None => {
                return None;
            },
        };
        let entry = &self.entries[idx];
        let fresh = now < entry.inserted_at || now - entry.inserted_at < entry.ttl;
        proof {
            assert(entries_view(self.entries)[idx as int] == entry@);
        }
        if fresh {
            Some(clone_record(&entry.record))
        } else {
            let ghost s = entries_view(self.entries);
            self.entries.remove(idx);
            proof {
                assert(entries_view(self.entries) =~= s.remove(idx as int));
                lemma_remove_unique(s, idx as int);
                lemma_remove_ok(s, idx as int);
            }
            None
        }
    }

    /// Writes `key` with `record` at time `now`, using `ttl_override` when
    /// given and the configured default otherwise. An existing entry for the
    /// key is replaced. If the table then overflows, expired entries are
    /// removed; if it still overflows, survivors leave oldest first, ties by
    /// ascending key, until it fits.
    #[verifier::loop_isolation(false)]
    pub fn put(&mut self, key: Vec<u8>, record: ResourceRecord, now: u64, ttl_override: Option<
        u64,
    >)
        requires
            old(self).wf(),
            record@.wf(),
            valid_name(record@.name),
        ensures
            final(self).wf(),
            final(self).entries@.len() <= final(self).max_size,
            final(self).default_ttl == old(self).default_ttl,
            final(self).max_size == old(self).max_size,
            entries_view(final(self).entries) == put_result(
                entries_view(old(self).entries),
                CacheEntryView {
                    key: key@,
                    record: record@,
                    inserted_at: now,
                    ttl: match ttl_override {
                        Some(t) => t,
                        None => old(self).default_ttl,
                    },
                },
                now,
                old(self).max_size as int,
            ),
    {
        let ttl = match ttl_override {
            Some(t) => t,
            None => self.default_ttl,
        };
        let ghost s0 = entries_view(self.entries);
        let ghost e = CacheEntryView { key: key@, record: record@, inserted_at: now, ttl: ttl };
        // Replace any entry with the same key, then append the new one.
        match self.find_key(&key) {
            Some(i) => {
                proof {
                    lemma_key_search_props(s0, key@, 0);
                    lemma_remove_unique(s0, i as int);
                    lemma_remove_key_gone(s0, key@, i as int);
                    lemma_remove_ok(s0, i as int);
                }
                self.entries.remove(i);
                proof {
                    assert(entries_view(self.entries) =~= s0.remove(i as int));
                }
            },
            None => {
                proof {
                    lemma_key_search_props(s0, key@, 0);
                }
            },
        }
        let ghost base = entries_view(self.entries);
        self.entries.push(CacheEntry { key, record, inserted_at: now, ttl });
        proof {
            assert(entries_view(self.entries) =~= base.push(e));
            assert(entries_view(self.entries) == insert_entries(s0, e));
            assert(all_entries_ok(entries_view(self.entries))) by {
                let t = entries_view(self.entries);
                assert forall|a: int| 0 <= a < t.len() implies entry_ok(t[a]) by {
                    if a < t.len() - 1 {
                        assert(t[a] == base[a]);
                    }
                }
            }
            assert(unique_keys(entries_view(self.entries))) by {
                let t = entries_view(self.entries);
                assert forall|a: int, b: int|
                    0 <= a < t.len() && 0 <= b < t.len() && a != b implies t[a].key != t[b].key by {
                    if a < t.len() - 1 && b < t.len() - 1 {
                        assert(t[a] == base[a] && t[b] == base[b]);
                    } else {
                        let o = if a < t.len() - 1 {
                            a
                        } else {
                            b
                        };
                        assert(t[o] == base[o]);
                        assert(base[o].key != key@);
                    }
                }
            }
        }
        if self.entries.len() <= self.max_size {
            return ;
        }
        // Over capacity: first drop everything already expired.
        let ghost ins = entries_view(self.entries);
        let mut survivors: Vec<CacheEntry> = Vec::new();
        let mut i: usize = 0;
        proof {
            assert(ins.take(0) =~= Seq::<CacheEntryView>::empty());
        }
        while i < self.entries.len()
            invariant
                0 <= i <= self.entries@.len(),
                ins == entries_view(self.entries),
                entries_view(survivors) == fresh_only(ins.take(i as int), now),
            decreases self.entries@.len() - i,
        {
            let entry = &self.entries[i];
            let fresh = now < entry.inserted_at || now - entry.inserted_at < entry.ttl;
            proof {
                assert(ins.take(i + 1).drop_last() =~= ins.take(i as int));
                assert(ins.take(i + 1).last() == ins[i as int]);
                assert(ins[i as int] == entry@);
            }
            if fresh {
                let ghost old_survivors = entries_view(survivors);
                let copied = CacheEntry {
                    key: clone_bytes(&entry.key),
                    record: clone_record(&entry.record),
                    inserted_at: entry.inserted_at,
                    ttl: entry.ttl,
                };
                proof {
                    assert(copied@ == entry@);
                }
                survivors.push(copied);
                proof {
                    assert(entries_view(survivors) =~= old_survivors.push(ins[i as int]));
                    assert(entries_view(survivors) =~= fresh_only(ins.take(i + 1), now));
                }
            } else {
                proof {
                    assert(fresh_only(ins.take(i + 1), now) =~= fresh_only(ins.take(i as int), now));
                }
            }
            i += 1;
        }
        proof {
            assert(ins.take(ins.len() as int) =~= ins);
            lemma_fresh_only_unique(ins, now);
            lemma_fresh_only_ok(ins, now);
        }
        self.entries = survivors;
        // Still over capacity: evict oldest first, ties by ascending key.
        while self.entries.len() > self.max_size
            invariant
                self.default_ttl == old(self).default_ttl,
                self.max_size == old(self).max_size,
                unique_keys(entries_view(self.entries)),
                all_entries_ok(entries_view(self.entries)),
                evict_to_cap(fresh_only(ins, now), self.max_size as int) == evict_to_cap(
                    entries_view(self.entries),
                    self.max_size as int,
                ),
            decreases self.entries@.len(),
        {
            let ghost cur = entries_view(self.entries);
            let mut m: usize = 0;
            let mut j: usize = 1;
            while j < self.entries.len()
                invariant
                    1 <= j <= self.entries@.len(),
                    m < j,
                    self.entries@.len() >= 1,
                    cur == entries_view(self.entries),
                    m as int == min_upto(cur, j as int),
                decreases self.entries@.len() - j,
            {
                let ej = &self.entries[j];
                let em = &self.entries[m];
                let earlier = ej.inserted_at < em.inserted_at || (ej.inserted_at == em.inserted_at
                    && bytes_less(&ej.key, &em.key));
                proof {
                    assert(cur[j as int] == ej@ && cur[m as int] == em@);
                    assert(earlier == evict_less(cur[j as int], cur[m as int]));
                }
                if earlier {
                    m = j;
                }
                j += 1;
            }
            proof {
                lemma_min_upto_range(cur, cur.len() as int);
                lemma_remove_unique(cur, m as int);
                lemma_remove_ok(cur, m as int);
            }
            self.entries.remove(m);
            proof {
                assert(entries_view(self.entries) =~= cur.remove(m as int));
            }
        }
        proof {
            lemma_evict_to_cap_len(fresh_only(ins, now), self.max_size as int);
            assert(evict_to_cap(entries_view(self.entries), self.max_size as int) == entries_view(
                self.entries,
            ));
        }
    }
}

} // verus!
