//! Cache of tool selections, keyed by normalized query, so that the same
//! request does not need another round trip to the language model.
//!
//! Times are nanoseconds on the cache's own monotonic clock, which starts when
//! the cache is made.  A confidence is kept as the bit pattern of the
//! floating point number the caller gave.

use vstd::prelude::*;

use crate::identity::{instant_now, nanos_since, utc_now_millis};
use crate::json::{JsonValue, JsonView};
use crate::text::{collapse_whitespace, collapse_ws, lowercase, str_eq, to_lowercase, words};

verus! {

/// Cache entry for one normalized query.
#[derive(Debug)]
pub struct CacheEntry {
    pub tool_name: String,
    pub confidence: u64,
    pub arguments: JsonValue,
    /// When the entry was made, in milliseconds since the Unix epoch.
    pub created_at: i64,
    /// When the entry was last made or read, on the cache's clock.
    pub last_used: u64,
    pub use_count: usize,
}

/// The model of a cache entry with its key.
pub struct EntryView {
    pub key: Seq<char>,
    pub tool_name: Seq<char>,
    pub confidence: u64,
    pub arguments: JsonView,
    pub last_used: u64,
    pub use_count: nat,
}

/// The model of the cache: its entries, its time to live and its capacity.
pub struct CacheView {
    pub entries: Seq<EntryView>,
    pub ttl: u64,
    pub max_entries: nat,
}

/// Statistics of the cache.
#[derive(Debug)]
pub struct CacheStats {
    pub total_entries: usize,
    pub max_entries: usize,
    pub ttl_seconds: u64,
    pub total_usage: u128,
}

/// Cache for tool selection results.
pub struct ToolSelectionCache {
    entries: Vec<(String, CacheEntry)>,
    ttl: u64,
    max_entries: usize,
    origin: std::time::Instant,
}

/// The model of a stored entry.
pub open spec fn entry_view(k: String, e: CacheEntry) -> EntryView {
    EntryView {
        key: k@,
        tool_name: e.tool_name@,
        confidence: e.confidence,
        arguments: e.arguments@,
        last_used: e.last_used,
        use_count: e.use_count as nat,
    }
}

/// The models of stored entries.
pub open spec fn entries_model(v: Seq<(String, CacheEntry)>) -> Seq<EntryView> {
    Seq::new(v.len(), |i: int| entry_view(v[i].0, v[i].1))
}

/// The key under which a query is cached: lowercased, with its words joined
/// by single spaces.
pub open spec fn normalized(query: Seq<char>) -> Seq<char> {
    collapse_ws(lowercase(query))
}

/// Time from `then` to `now`, zero when `now` is earlier.
pub open spec fn elapsed(now: u64, then: u64) -> nat {
    if now >= then { (now - then) as nat } else { 0 }
}

/// No two entries share a key.
pub open spec fn keys_unique(e: Seq<EntryView>) -> bool {
    forall|i: int, j: int| 0 <= i < e.len() && 0 <= j < e.len() && e[i].key == e[j].key ==> i == j
}

/// The invariant every cache keeps: unique keys, and no more entries than
/// its capacity allows.
pub open spec fn cache_wf(c: CacheView) -> bool {
    keys_unique(c.entries) && c.entries.len() <= capacity_bound(c.max_entries)
}

/// The most entries a cache of capacity `max` holds: `max`, and one for a
/// cache of capacity zero (an addition always stores its entry).
pub open spec fn capacity_bound(max: nat) -> nat {
    if max == 0 { 1 } else { max }
}

/// Position of the entry with key `key`, or -1.
pub open spec fn index_of_key(e: Seq<EntryView>, key: Seq<char>) -> int
    decreases e.len(),
{
    if e.len() == 0 {
        -1
    } else {
        let r = index_of_key(e.drop_last(), key);
        if r >= 0 {
            r
        } else if e.last().key == key {
            e.len() - 1
        } else {
            -1
        }
    }
}

/// `i` is the first position of `e` whose entry was used least recently.
pub open spec fn is_oldest(e: Seq<EntryView>, i: int) -> bool {
    &&& 0 <= i < e.len()
    &&& forall|j: int| 0 <= j < e.len() ==> e[i].last_used <= e[j].last_used
    &&& forall|j: int| 0 <= j < i ==> e[j].last_used > e[i].last_used
}

/// `e` without its least recently used entry.
pub open spec fn without_oldest(e: Seq<EntryView>) -> Seq<EntryView> {
    if e.len() == 0 {
        e
    } else {
        e.remove(choose|i: int| is_oldest(e, i))
    }
}

/// The use count after one more use (counting wraps around at the top of `usize`).
pub open spec fn next_count(n: nat) -> nat {
    if n >= usize::MAX { 0 } else { n + 1 }
}

/// What looking up `query` at time `now` gives, and the cache after it.
pub open spec fn cache_get(c: CacheView, query: Seq<char>, now: u64) -> (Option<(Seq<char>, u64, JsonView)>, CacheView) {
    let i = index_of_key(c.entries, normalized(query));
    if i < 0 {
        (None, c)
    } else if elapsed(now, c.entries[i].last_used) > c.ttl {
        (None, CacheView { entries: c.entries.remove(i), ..c })
    } else {
        let e = c.entries[i];
        (
            Some((e.tool_name, e.confidence, e.arguments)),
            CacheView {
                entries: c.entries.update(
                    i,
                    EntryView { last_used: now, use_count: next_count(e.use_count), ..e },
                ),
                ..c
            },
        )
    }
}

/// The cache after adding a selection for `query` at time `now`.
pub open spec fn cache_add(
    c: CacheView,
    query: Seq<char>,
    tool_name: Seq<char>,
    confidence: u64,
    arguments: JsonView,
    now: u64,
) -> CacheView {
    let key = normalized(query);
    let e1 = if c.entries.len() >= c.max_entries && index_of_key(c.entries, key) < 0 {
        without_oldest(c.entries)
    } else {
        c.entries
    };
    let entry = EntryView { key, tool_name, confidence, arguments, last_used: now, use_count: 1 };
    let i = index_of_key(e1, key);
    CacheView { entries: if i >= 0 { e1.update(i, entry) } else { e1.push(entry) }, ..c }
}

/// The entries of `e` that do not select tool `tool_name`, in order.
pub open spec fn without_tool(e: Seq<EntryView>, tool_name: Seq<char>) -> Seq<EntryView>
    decreases e.len(),
{
    if e.len() == 0 {
        e
    } else if e.last().tool_name != tool_name {
        without_tool(e.drop_last(), tool_name).push(e.last())
    } else {
        without_tool(e.drop_last(), tool_name)
    }
}

/// The cache without the entries for tool `tool_name`.
pub open spec fn cache_without_tool(c: CacheView, tool_name: Seq<char>) -> CacheView {
    CacheView { entries: without_tool(c.entries, tool_name), ..c }
}

/// Sum of the use counts of the first `n` entries.
pub open spec fn usage_sum(e: Seq<EntryView>, n: nat) -> nat
    decreases n,
{
    if n == 0 || n > e.len() {
        0
    } else {
        usage_sum(e, (n - 1) as nat) + e[n - 1].use_count
    }
}

/// `index_of_key` is -1 or the position of an entry with the key, -1 only
/// when no entry has it, and the only such position when keys are unique.
pub proof fn lemma_index_of_key(e: Seq<EntryView>, key: Seq<char>)
    ensures
        -1 <= index_of_key(e, key) < e.len(),
        index_of_key(e, key) >= 0 ==> e[index_of_key(e, key)].key == key,
        index_of_key(e, key) < 0 ==> forall|j: int| 0 <= j < e.len() ==> e[j].key != key,
        keys_unique(e) ==> forall|j: int| 0 <= j < e.len() && e[j].key == key ==> index_of_key(e, key) == j,
    decreases e.len(),
{
    if e.len() > 0 {
        lemma_index_of_key(e.drop_last(), key);
        assert forall|j: int| 0 <= j < e.len() - 1 implies e.drop_last()[j] == e[j] by {}
        if keys_unique(e) {
            assert(keys_unique(e.drop_last()));
        }
    }
}

proof fn lemma_index_prefix(m: Seq<EntryView>, key: Seq<char>, i: int)
    requires
        0 <= i < m.len(),
        index_of_key(m.take(i), key) == -1,
        m[i].key == key,
    ensures
        index_of_key(m, key) == i,
    decreases m.len(),
{
    if m.len() > i + 1 {
        assert(m.drop_last().take(i) =~= m.take(i));
        lemma_index_prefix(m.drop_last(), key, i);
    } else {
        assert(m.drop_last() =~= m.take(i));
    }
}

proof fn lemma_unique_remove(m: Seq<EntryView>, i: int)
    requires
        keys_unique(m),
        0 <= i < m.len(),
    ensures
        keys_unique(m.remove(i)),
{
    let r = m.remove(i);
    assert forall|a: int, b: int| 0 <= a < r.len() && 0 <= b < r.len() && r[a].key == r[b].key implies a == b by {
        let ma = if a < i { a } else { a + 1 };
        let mb = if b < i { b } else { b + 1 };
        assert(r[a] == m[ma] && r[b] == m[mb]);
    }
}

proof fn lemma_unique_update_same_key(m: Seq<EntryView>, i: int, e: EntryView)
    requires
        keys_unique(m),
        0 <= i < m.len(),
        e.key == m[i].key,
    ensures
        keys_unique(m.update(i, e)),
{
    let r = m.update(i, e);
    assert forall|a: int, b: int| 0 <= a < r.len() && 0 <= b < r.len() && r[a].key == r[b].key implies a == b by {
        assert(r[a].key == m[a].key && r[b].key == m[b].key);
    }
}

proof fn lemma_unique_push(m: Seq<EntryView>, e: EntryView)
    requires
        keys_unique(m),
        forall|j: int| 0 <= j < m.len() ==> m[j].key != e.key,
    ensures
        keys_unique(m.push(e)),
{
    let r = m.push(e);
    assert forall|a: int, b: int| 0 <= a < r.len() && 0 <= b < r.len() && r[a].key == r[b].key implies a == b by {
        if a < m.len() && b < m.len() {
            assert(r[a] == m[a] && r[b] == m[b]);
        } else if a < m.len() {
            assert(r[a] == m[a]);
        } else if b < m.len() {
            assert(r[b] == m[b]);
        }
    }
}

proof fn lemma_oldest_unique(m: Seq<EntryView>, a: int, b: int)
    requires
        is_oldest(m, a),
        is_oldest(m, b),
    ensures
        a == b,
{
}

proof fn lemma_without_tool(e: Seq<EntryView>, t: Seq<char>)
    ensures
        forall|i: int| 0 <= i < without_tool(e, t).len() ==> exists|j: int| 0 <= j < e.len() && #[trigger] without_tool(e, t)[i] == e[j],
        keys_unique(e) ==> keys_unique(without_tool(e, t)),
        without_tool(e, t).len() <= e.len(),
    decreases e.len(),
{
    if e.len() > 0 {
        let d = e.drop_last();
        lemma_without_tool(d, t);
        let w = without_tool(d, t);
        assert forall|i: int| 0 <= i < w.len() implies exists|j: int| 0 <= j < e.len() && #[trigger] w[i] == e[j] by {
            let j = choose|j: int| 0 <= j < d.len() && #[trigger] w[i] == d[j];
            assert(d[j] == e[j]);
        }
        if e.last().tool_name != t {
            let r = w.push(e.last());
            assert forall|i: int| 0 <= i < r.len() implies exists|j: int| 0 <= j < e.len() && #[trigger] r[i] == e[j] by {
                if i < w.len() {
                    assert(r[i] == w[i]);
                } else {
                    assert(r[i] == e[e.len() - 1]);
                }
            }
            if keys_unique(e) {
                assert(keys_unique(d));
                assert forall|j: int| 0 <= j < w.len() implies w[j].key != e.last().key by {
                    let k = choose|k: int| 0 <= k < d.len() && #[trigger] w[j] == d[k];
                    assert(d[k] == e[k]);
                }
                lemma_unique_push(w, e.last());
            }
        } else {
            if keys_unique(e) {
                assert(keys_unique(d));
            }
        }
    }
}

/// Position of the entry with key `key` among `entries`.
fn find_in(entries: &Vec<(String, CacheEntry)>, key: &str) -> (r: Option<usize>)
    ensures
        match r {
            Some(i) => index_of_key(entries_model(entries@), key@) == i as int,
            None => index_of_key(entries_model(entries@), key@) == -1,
        },
{
    let ghost m = entries_model(entries@);
    let mut i: usize = 0;
    while i < entries.len()
        invariant
            i <= entries@.len(),
            m == entries_model(entries@),
            index_of_key(m.take(i as int), key@) == -1,
        decreases entries@.len() - i,
    {
        proof {
            assert(m.take(i + 1).drop_last() =~= m.take(i as int));
        }
        if str_eq(entries[i].0.as_str(), key) {
            proof {
                lemma_index_prefix(m, key@, i as int);
            }
            return Some(i);
        }
        i = i + 1;
    }
    assert(m.take(entries@.len() as int) =~= m);
    None
}

/// Position of the first least recently used entry among `entries`.
fn oldest_in(entries: &Vec<(String, CacheEntry)>) -> (r: usize)
    requires
        entries@.len() > 0,
    ensures
        is_oldest(entries_model(entries@), r as int),
{
    let ghost m = entries_model(entries@);
    let mut best: usize = 0;
    let mut i: usize = 1;
    while i < entries.len()
        invariant
            m == entries_model(entries@),
            m.len() > 0,
            1 <= i <= m.len(),
            best < i,
            forall|j: int| 0 <= j < i ==> m[best as int].last_used <= m[j].last_used,
            forall|j: int| 0 <= j < best ==> m[j].last_used > m[best as int].last_used,
        decreases m.len() - i,
    {
        if entries[i].1.last_used < entries[best].1.last_used {
            best = i;
        }
        i = i + 1;
    }
    best
}

impl CacheEntry {
    /// A copy of the entry.
    fn copy(&self) -> (r: CacheEntry)
        ensures
            r.tool_name@ == self.tool_name@,
            r.confidence == self.confidence,
            r.arguments@ == self.arguments@,
            r.created_at == self.created_at,
            r.last_used == self.last_used,
            r.use_count == self.use_count,
    {
        CacheEntry {
            tool_name: self.tool_name.clone(),
            confidence: self.confidence,
            arguments: self.arguments.deep_copy(),
            created_at: self.created_at,
            last_used: self.last_used,
            use_count: self.use_count,
        }
    }
}

impl View for ToolSelectionCache {
    type V = CacheView;

    closed spec fn view(&self) -> CacheView {
        CacheView {
            entries: entries_model(self.entries@),
            ttl: self.ttl,
            max_entries: self.max_entries as nat,
        }
    }
}

impl ToolSelectionCache {
    #[verifier::type_invariant]
    closed spec fn well_formed(&self) -> bool {
        &&& keys_unique(entries_model(self.entries@))
        &&& self.entries@.len() <= capacity_bound(self.max_entries as nat)
    }

    /// An empty cache whose entries live `ttl` nanoseconds from their last use
    /// and which holds at most `max_entries` entries.
    pub fn new(ttl: u64, max_entries: usize) -> (r: Self)
        ensures
            r@ == (CacheView { entries: Seq::empty(), ttl, max_entries: max_entries as nat }),
            cache_wf(r@),
    {
        let r = ToolSelectionCache { entries: Vec::new(), ttl, max_entries, origin: instant_now() };
        assert(r@.entries =~= Seq::<EntryView>::empty());
        r
    }

    /// The key under which `query` is cached.
    pub fn normalize_query(&self, query: &str) -> (r: String)
        ensures
            r@ == normalized(query@),
    {
        let lower = to_lowercase(query);
        collapse_whitespace(lower.as_str())
    }

    /// Looks up `query` at time `now` of the cache's clock: an entry that has
    /// not been used for longer than the time to live is dropped and missed;
    /// a live entry is marked used and its selection returned.
    pub fn get_at(&mut self, query: &str, now: u64) -> (r: Option<(String, u64, JsonValue)>)
        ensures
            ({
                let (res, next) = cache_get(old(self)@, query@, now);
                &&& final(self)@ == next
                &&& match r {
                    Some((t, c, a)) => res == Some((t@, c, a@)),
                    None => res is None,
                }
            }),
            cache_wf(old(self)@),
            cache_wf(final(self)@),
    {
        proof { use_type_invariant(&*self); }
        let key = self.normalize_query(query);
        let ghost m = self@.entries;
        match find_in(&self.entries, key.as_str()) {
            None => None,
            Some(i) => {
                proof {
                    lemma_index_of_key(m, key@);
                }
                let last = self.entries[i].1.last_used;
                let age: u64 = if now >= last { now - last } else { 0 };
                if age > self.ttl {
                    let mut entries: Vec<(String, CacheEntry)> = Vec::new();
                    std::mem::swap(&mut entries, &mut self.entries);
                    entries.remove(i);
                    proof {
                        assert(entries_model(entries@) =~= m.remove(i as int));
                        lemma_unique_remove(m, i as int);
                    }
                    self.entries = entries;
                    None
                } else {
                    let mut entries: Vec<(String, CacheEntry)> = Vec::new();
                    std::mem::swap(&mut entries, &mut self.entries);
                    let (k, mut e) = entries.remove(i);
                    e.last_used = now;
                    e.use_count = e.use_count.wrapping_add(1);
                    let result = (e.tool_name.clone(), e.confidence, e.arguments.deep_copy());
                    entries.insert(i, (k, e));
                    proof {
                        let old_e = m[i as int];
                        assert(entries_model(entries@) =~= m.update(
                            i as int,
                            EntryView { last_used: now, use_count: next_count(old_e.use_count), ..old_e },
                        ));
                        lemma_unique_update_same_key(m, i as int, entries_model(entries@)[i as int]);
                    }
                    self.entries = entries;
                    Some(result)
                }
            },
        }
    }

    /// Looks up `query` now.  Which time the clock gives is not known here;
    /// whatever it is, the lookup behaves as [`Self::get_at`] at that time.
    pub fn get(&mut self, query: &str) -> (r: Option<(String, u64, JsonValue)>)
        ensures
            exists|now: u64|
                #![trigger cache_get(old(self)@, query@, now)]
                {
                    &&& final(self)@ == cache_get(old(self)@, query@, now).1
                    &&& match r {
                        Some((t, c, a)) => cache_get(old(self)@, query@, now).0 == Some((t@, c, a@)),
                        None => cache_get(old(self)@, query@, now).0 is None,
                    }
                },
    {
        let now = nanos_since(&self.origin);
        self.get_at(query, now)
    }

    /// Adds a selection for `query` at time `now` of the cache's clock.  A full
    /// cache first drops its least recently used entry, unless `query` is
    /// cached already; an entry for the same key is replaced.
    pub fn add_at(&mut self, query: &str, tool_name: &str, confidence: u64, arguments: &JsonValue, now: u64)
        ensures
            final(self)@ == cache_add(old(self)@, query@, tool_name@, confidence, arguments@, now),
            cache_wf(old(self)@),
            cache_wf(final(self)@),
    {
        proof { use_type_invariant(&*self); }
        let key = self.normalize_query(query);
        let ghost m = self@.entries;
        let mut entries: Vec<(String, CacheEntry)> = Vec::new();
        std::mem::swap(&mut entries, &mut self.entries);
        let ghost key_v = key@;
        let present = find_in(&entries, key.as_str());
        if entries.len() >= self.max_entries && present.is_none() && entries.len() > 0 {
            let oldest = oldest_in(&entries);
            entries.remove(oldest);
            proof {
                assert(entries_model(entries@) =~= m.remove(oldest as int));
                let k = choose|k: int| is_oldest(m, k);
                lemma_oldest_unique(m, k, oldest as int);
                lemma_unique_remove(m, oldest as int);
            }
        }
        let ghost e1 = entries_model(entries@);
        proof {
            if m.len() >= self.max_entries && index_of_key(m, key_v) < 0 {
                assert(e1 == without_oldest(m));
            } else {
                assert(e1 == m);
            }
        }
        let entry = CacheEntry {
            tool_name: tool_name.to_owned(),
            confidence,
            arguments: arguments.deep_copy(),
            created_at: utc_now_millis(),
            last_used: now,
            use_count: 1,
        };
        let ghost ev = entry_view(key, entry);
        let found = find_in(&entries, key.as_str());
        proof {
            lemma_index_of_key(e1, key_v);
        }
        match found {
            Some(i) => {
                entries.set(i, (key, entry));
                proof {
                    assert(entries_model(entries@) =~= e1.update(i as int, ev));
                    lemma_unique_update_same_key(e1, i as int, ev);
                }
            },
            None => {
                entries.push((key, entry));
                proof {
                    assert(entries_model(entries@) =~= e1.push(ev));
                    lemma_index_of_key(e1, key_v);
                }
            },
        }
        self.entries = entries;
    }

    /// Adds a selection for `query` now (see [`Self::add_at`]), whatever time
    /// the clock gives.
    pub fn add(&mut self, query: &str, tool_name: &str, confidence: u64, arguments: &JsonValue)
        ensures
            exists|now: u64|
                final(self)@ == #[trigger] cache_add(old(self)@, query@, tool_name@, confidence, arguments@, now),
    {
        let now = nanos_since(&self.origin);
        self.add_at(query, tool_name, confidence, arguments, now);
    }

    /// Drops every entry.
    pub fn clear(&mut self)
        ensures
            final(self)@ == (CacheView { entries: Seq::empty(), ..old(self)@ }),
    {
        self.entries = Vec::new();
        assert(self@.entries =~= Seq::<EntryView>::empty());
    }

    /// Drops every entry that selects tool `tool_name`.
    pub fn remove_tool_entries(&mut self, tool_name: &str)
        ensures
            final(self)@ == cache_without_tool(old(self)@, tool_name@),
            cache_wf(final(self)@),
    {
        proof { use_type_invariant(&*self); }
        let ghost m = self@.entries;
        let mut kept: Vec<(String, CacheEntry)> = Vec::new();
        let mut i: usize = 0;
        assert(entries_model(kept@) =~= without_tool(m.take(0), tool_name@));
        while i < self.entries.len()
            invariant
                m == entries_model(self.entries@),
                i <= m.len(),
                entries_model(kept@) == without_tool(m.take(i as int), tool_name@),
            decreases m.len() - i,
        {
            proof {
                assert(m.take(i + 1).drop_last() =~= m.take(i as int));
            }
            if !str_eq(self.entries[i].1.tool_name.as_str(), tool_name) {
                let ghost before = entries_model(kept@);
                let k = self.entries[i].0.clone();
                let e = self.entries[i].1.copy();
                kept.push((k, e));
                assert(entries_model(kept@) =~= before.push(m[i as int]));
            }
            i = i + 1;
        }
        proof {
            assert(m.take(m.len() as int) =~= m);
            lemma_without_tool(m, tool_name@);
        }
        self.entries = kept;
    }

    /// Statistics of the cache.
    pub fn stats(&self) -> (r: CacheStats)
        ensures
            r.total_entries == self@.entries.len(),
            r.max_entries == self@.max_entries,
            r.ttl_seconds == self@.ttl / 1_000_000_000,
            r.total_usage == usage_sum(self@.entries, self@.entries.len()),
    {
        let ghost m = self@.entries;
        let mut total: u128 = 0;
        let mut i: usize = 0;
        while i < self.entries.len()
            invariant
                m == entries_model(self.entries@),
                i <= m.len(),
                total == usage_sum(m, i as nat),
                total <= i * (usize::MAX as nat),
            decreases m.len() - i,
        {
            assert(total + self.entries@[i as int].1.use_count <= (i + 1) * (usize::MAX as nat)) by (nonlinear_arith)
                requires
                    total <= i * (usize::MAX as nat),
                    self.entries@[i as int].1.use_count <= usize::MAX;
            assert((i + 1) * (usize::MAX as nat) <= usize::MAX * (usize::MAX as nat)) by (nonlinear_arith)
                requires
                    i < usize::MAX;
            assert(usize::MAX * (usize::MAX as nat) < u128::MAX) by (nonlinear_arith)
                requires usize::MAX <= u64::MAX;
            total = total + self.entries[i].1.use_count as u128;
            i = i + 1;
        }
        CacheStats {
            total_entries: self.entries.len(),
            max_entries: self.max_entries,
            ttl_seconds: self.ttl / 1_000_000_000,
            total_usage: total,
        }
    }
}


/// A non-empty list of entries has a least recently used one.
pub proof fn lemma_oldest_exists(e: Seq<EntryView>)
    requires
        e.len() > 0,
    ensures
        exists|i: int| is_oldest(e, i),
    decreases e.len(),
{
    if e.len() > 1 {
        let d = e.drop_last();
        lemma_oldest_exists(d);
        let k = choose|k: int| is_oldest(d, k);
        assert forall|j: int| 0 <= j < d.len() implies d[j] == e[j] by {}
        if e.last().last_used < e[k].last_used {
            assert(is_oldest(e, e.len() - 1));
        } else {
            assert(is_oldest(e, k));
        }
    } else {
        assert(is_oldest(e, 0));
    }
}

/// The entries after an addition, and where the new entry stands.
#[verifier::spinoff_prover]
proof fn lemma_add_shape(c: CacheView, query: Seq<char>, t: Seq<char>, conf: u64, args: JsonView, now: u64)
    requires
        cache_wf(c),
    ensures
        ({
            let r = cache_add(c, query, t, conf, args, now);
            let i = index_of_key(r.entries, normalized(query));
            &&& keys_unique(r.entries)
            &&& 0 <= i < r.entries.len()
            &&& r.entries[i] == (EntryView {
                key: normalized(query),
                tool_name: t,
                confidence: conf,
                arguments: args,
                last_used: now,
                use_count: 1,
            })
        }),
{
    let key = normalized(query);
    let e = c.entries;
    lemma_index_of_key(e, key);
    let e1 = if e.len() >= c.max_entries && index_of_key(e, key) < 0 {
        without_oldest(e)
    } else {
        e
    };
    if e.len() >= c.max_entries && index_of_key(e, key) < 0 && e.len() > 0 {
        lemma_oldest_exists(e);
        let k = choose|k: int| is_oldest(e, k);
        lemma_unique_remove(e, k);
    }
    assert(keys_unique(e1));
    let entry = EntryView { key, tool_name: t, confidence: conf, arguments: args, last_used: now, use_count: 1 };
    lemma_index_of_key(e1, key);
    let i = index_of_key(e1, key);
    let r = cache_add(c, query, t, conf, args, now);
    if i >= 0 {
        let u = e1.update(i, entry);
        assert(r.entries == u);
        lemma_unique_update_same_key(e1, i, entry);
        lemma_index_of_key(u, key);
        assert(u[i].key == key);
        assert(index_of_key(u, key) == i);
    } else {
        let p = e1.push(entry);
        assert(r.entries == p);
        lemma_unique_push(e1, entry);
        lemma_index_of_key(p, key);
        assert(p[e1.len() as int].key == key);
        assert(index_of_key(p, key) == e1.len());
    }
}

/// Reading what was just added: a query with the same normal form, made
/// within the time to live, gives back the tool, confidence and arguments.
pub proof fn lemma_add_then_get(
    c: CacheView,
    query: Seq<char>,
    t: Seq<char>,
    conf: u64,
    args: JsonView,
    now: u64,
    query2: Seq<char>,
    now2: u64,
)
    requires
        cache_wf(c),
        normalized(query2) == normalized(query),
        elapsed(now2, now) <= c.ttl,
    ensures
        cache_get(cache_add(c, query, t, conf, args, now), query2, now2).0 == Some((t, conf, args)),
{
    lemma_add_shape(c, query, t, conf, args, now);
}

/// An entry unused for longer than the time to live is missed, and dropped.
pub proof fn lemma_expired_misses(c: CacheView, query: Seq<char>, now: u64)
    requires
        index_of_key(c.entries, normalized(query)) >= 0,
        elapsed(now, c.entries[index_of_key(c.entries, normalized(query))].last_used) > c.ttl,
    ensures
        cache_get(c, query, now).0 is None,
        cache_get(c, query, now).1.entries == c.entries.remove(index_of_key(c.entries, normalized(query))),
{
}

/// Nothing is found in a cleared cache.
pub proof fn lemma_cleared_misses(c: CacheView, query: Seq<char>, now: u64)
    ensures
        cache_get(CacheView { entries: Seq::empty(), ..c }, query, now).0 is None,
{
}

proof fn lemma_without_tool_excludes(e: Seq<EntryView>, t: Seq<char>)
    ensures
        forall|i: int| 0 <= i < without_tool(e, t).len() ==> (#[trigger] without_tool(e, t)[i]).tool_name != t,
    decreases e.len(),
{
    if e.len() > 0 {
        lemma_without_tool_excludes(e.drop_last(), t);
        let w = without_tool(e.drop_last(), t);
        if e.last().tool_name != t {
            assert forall|i: int| 0 <= i < w.push(e.last()).len() implies (#[trigger] w.push(e.last())[i]).tool_name != t by {
                if i < w.len() {
                    assert(w.push(e.last())[i] == w[i]);
                }
            }
        }
    }
}

/// Once the entries of a tool are removed, no lookup returns that tool.
pub proof fn lemma_removed_tool_not_returned(c: CacheView, t: Seq<char>, query: Seq<char>, now: u64)
    ensures
        cache_get(cache_without_tool(c, t), query, now).0 matches Some(r) ==> r.0 != t,
{
    let e = without_tool(c.entries, t);
    lemma_without_tool_excludes(c.entries, t);
    lemma_index_of_key(e, normalized(query));
}

/// A full cache that gets a new key drops its least recently used entry.
pub proof fn lemma_full_cache_evicts_oldest(c: CacheView, query: Seq<char>, t: Seq<char>, conf: u64, args: JsonView, now: u64)
    requires
        cache_wf(c),
        c.entries.len() >= c.max_entries,
        c.entries.len() > 0,
        index_of_key(c.entries, normalized(query)) < 0,
    ensures
        exists|i: int| is_oldest(c.entries, i) && cache_add(c, query, t, conf, args, now).entries == c.entries.remove(i).push(
            EntryView {
                key: normalized(query),
                tool_name: t,
                confidence: conf,
                arguments: args,
                last_used: now,
                use_count: 1,
            },
        ),
        cache_add(c, query, t, conf, args, now).entries.len() == c.entries.len(),
{
    lemma_oldest_exists(c.entries);
    let k = choose|k: int| is_oldest(c.entries, k);
    let e1 = c.entries.remove(k);
    lemma_index_of_key(c.entries, normalized(query));
    lemma_index_of_key(e1, normalized(query));
    assert forall|j: int| 0 <= j < e1.len() implies e1[j].key != normalized(query) by {
        let mj = if j < k { j } else { j + 1 };
        assert(e1[j] == c.entries[mj]);
    }
}

/// Queries with the same normal form (same words, whatever the case and
/// spacing) share one entry.
pub proof fn lemma_same_normal_form(c: CacheView, q1: Seq<char>, q2: Seq<char>, now: u64)
    requires
        normalized(q1) == normalized(q2),
    ensures
        cache_get(c, q1, now) == cache_get(c, q2, now),
{
}

/// The entry stored under `key`, if any.
pub open spec fn entry_for(c: CacheView, key: Seq<char>) -> Option<EntryView> {
    let i = index_of_key(c.entries, key);
    if i >= 0 {
        Some(c.entries[i])
    } else {
        None
    }
}

/// When the entry under `key` was last made or read (zero when there is none).
pub open spec fn last_use(c: CacheView, key: Seq<char>) -> u64 {
    match entry_for(c, key) {
        Some(e) => e.last_used,
        None => 0,
    }
}

/// One operation on a cache, as its model sees it.
pub enum CacheOp {
    Get { query: Seq<char>, now: u64 },
    Add { query: Seq<char>, tool_name: Seq<char>, confidence: u64, arguments: JsonView, now: u64 },
    RemoveTool { tool_name: Seq<char> },
    Clear,
}

/// The cache after one operation.
pub open spec fn apply_op(c: CacheView, op: CacheOp) -> CacheView {
    match op {
        CacheOp::Get { query, now } => cache_get(c, query, now).1,
        CacheOp::Add { query, tool_name, confidence, arguments, now } => cache_add(
            c,
            query,
            tool_name,
            confidence,
            arguments,
            now,
        ),
        CacheOp::RemoveTool { tool_name } => cache_without_tool(c, tool_name),
        CacheOp::Clear => CacheView { entries: Seq::empty(), ..c },
    }
}

/// The cache after a run of operations, first to last.
pub open spec fn apply_ops(c: CacheView, ops: Seq<CacheOp>) -> CacheView
    decreases ops.len(),
{
    if ops.len() == 0 {
        c
    } else {
        apply_ops(apply_op(c, ops[0]), ops.drop_first())
    }
}

/// An addition drops the least recently used entry, and that entry has key `key`.
pub open spec fn evicts(c: CacheView, query: Seq<char>, key: Seq<char>) -> bool {
    &&& c.entries.len() >= c.max_entries
    &&& c.entries.len() > 0
    &&& index_of_key(c.entries, normalized(query)) < 0
    &&& c.entries[choose|i: int| is_oldest(c.entries, i)].key == key
}

/// Operation `op` on `c` drops or replaces the entry under `key`: a lookup of
/// that key after its time to live, an addition under that key or one that
/// evicts it, removing the tool it selects, or clearing the cache.
pub open spec fn disturbs(c: CacheView, op: CacheOp, key: Seq<char>) -> bool {
    match op {
        CacheOp::Get { query, now } => normalized(query) == key && elapsed(now, last_use(c, key)) > c.ttl,
        CacheOp::Add { query, .. } => normalized(query) == key || evicts(c, query, key),
        CacheOp::RemoveTool { tool_name } => entry_for(c, key) matches Some(e) && e.tool_name == tool_name,
        CacheOp::Clear => true,
    }
}

/// No operation of `ops`, run from `c`, disturbs the entry under `key`.
pub open spec fn spares(c: CacheView, ops: Seq<CacheOp>, key: Seq<char>) -> bool
    decreases ops.len(),
{
    ops.len() == 0 || (!disturbs(c, ops[0], key) && spares(apply_op(c, ops[0]), ops.drop_first(), key))
}

/// Two entries hold the same selection.
pub open spec fn same_selection(a: EntryView, b: EntryView) -> bool {
    a.tool_name == b.tool_name && a.confidence == b.confidence && a.arguments == b.arguments
}

proof fn lemma_entry_at(e: Seq<EntryView>, key: Seq<char>, j: int)
    requires
        keys_unique(e),
        0 <= j < e.len(),
        e[j].key == key,
    ensures
        index_of_key(e, key) == j,
{
    lemma_index_of_key(e, key);
}

proof fn lemma_without_tool_keeps(e: Seq<EntryView>, t: Seq<char>, j: int)
    requires
        0 <= j < e.len(),
        e[j].tool_name != t,
    ensures
        exists|i: int| 0 <= i < without_tool(e, t).len() && #[trigger] without_tool(e, t)[i] == e[j],
    decreases e.len(),
{
    let d = e.drop_last();
    if j < e.len() - 1 {
        lemma_without_tool_keeps(d, t, j);
        let w = without_tool(d, t);
        let i = choose|i: int| 0 <= i < w.len() && #[trigger] w[i] == d[j];
        assert(d[j] == e[j]);
        if e.last().tool_name != t {
            assert(without_tool(e, t)[i] == w[i]);
        } else {
            assert(without_tool(e, t) == w);
        }
    } else {
        let w = without_tool(d, t);
        assert(without_tool(e, t)[w.len() as int] == e[j]);
    }
}

/// One operation that leaves `key` alone keeps its selection, the time to
/// live and unique keys.
proof fn lemma_op_keeps_entry(c: CacheView, op: CacheOp, key: Seq<char>)
    requires
        keys_unique(c.entries),
        entry_for(c, key) is Some,
        !disturbs(c, op, key),
    ensures
        keys_unique(apply_op(c, op).entries),
        apply_op(c, op).ttl == c.ttl,
        entry_for(apply_op(c, op), key) matches Some(e) && same_selection(e, entry_for(c, key)->0),
        last_use(apply_op(c, op), key) == match op {
            CacheOp::Get { query, now } => if normalized(query) == key { now } else { last_use(c, key) },
            _ => last_use(c, key),
        },
{
    let m = c.entries;
    lemma_index_of_key(m, key);
    let p = index_of_key(m, key);
    let e0 = m[p];
    let r = apply_op(c, op).entries;
    match op {
        CacheOp::Get { query, now } => {
            let nq = normalized(query);
            lemma_index_of_key(m, nq);
            let i = index_of_key(m, nq);
            if i < 0 {
                lemma_entry_at(r, key, p);
            } else if elapsed(now, m[i].last_used) > c.ttl {
                lemma_unique_remove(m, i);
                let q = if p < i { p } else { p - 1 };
                assert(r[q] == e0);
                lemma_entry_at(r, key, q);
            } else {
                let e = m[i];
                let ne = EntryView { last_used: now, use_count: next_count(e.use_count), ..e };
                lemma_unique_update_same_key(m, i, ne);
                lemma_entry_at(r, key, p);
            }
        },
        CacheOp::Add { query, tool_name, confidence, arguments, now } => {
            let nq = normalized(query);
            lemma_index_of_key(m, nq);
            let e1 = if m.len() >= c.max_entries && index_of_key(m, nq) < 0 {
                without_oldest(m)
            } else {
                m
            };
            let mut p1 = p;
            if m.len() >= c.max_entries && index_of_key(m, nq) < 0 {
                lemma_oldest_exists(m);
                let o = choose|i: int| is_oldest(m, i);
                lemma_unique_remove(m, o);
                p1 = if p < o { p } else { p - 1 };
                assert(e1[p1] == e0);
            }
            assert(keys_unique(e1));
            assert(e1[p1] == e0);
            lemma_index_of_key(e1, nq);
            let entry = EntryView { key: nq, tool_name, confidence, arguments, last_used: now, use_count: 1 };
            let i = index_of_key(e1, nq);
            if i >= 0 {
                lemma_unique_update_same_key(e1, i, entry);
            } else {
                lemma_unique_push(e1, entry);
            }
            assert(r[p1] == e0);
            lemma_entry_at(r, key, p1);
        },
        CacheOp::RemoveTool { tool_name } => {
            lemma_without_tool(m, tool_name);
            lemma_without_tool_keeps(m, tool_name, p);
            let q = choose|q: int| 0 <= q < r.len() && #[trigger] r[q] == m[p];
            lemma_entry_at(r, key, q);
        },
        CacheOp::Clear => {},
    }
}

/// A run of operations that leaves `key` alone keeps its selection.
proof fn lemma_ops_keep_entry(c: CacheView, ops: Seq<CacheOp>, key: Seq<char>)
    requires
        keys_unique(c.entries),
        entry_for(c, key) is Some,
        spares(c, ops, key),
    ensures
        apply_ops(c, ops).ttl == c.ttl,
        entry_for(apply_ops(c, ops), key) matches Some(e) && same_selection(e, entry_for(c, key)->0),
    decreases ops.len(),
{
    if ops.len() > 0 {
        lemma_op_keeps_entry(c, ops[0], key);
        lemma_ops_keep_entry(apply_op(c, ops[0]), ops.drop_first(), key);
    }
}

/// Reading back an addition after other operations: when none of them drops
/// or replaces the entry (see [`disturbs`]) and the lookup comes within the
/// time to live of the entry's last use, a query with the same normal form
/// gives back the tool, confidence and arguments that were added.  Queries
/// whose lowercase forms have the same words have the same normal form
/// ([`lemma_same_words_same_key`]).
pub proof fn lemma_add_survives_then_get(
    c: CacheView,
    query: Seq<char>,
    t: Seq<char>,
    conf: u64,
    args: JsonView,
    now: u64,
    ops: Seq<CacheOp>,
    query2: Seq<char>,
    now2: u64,
)
    requires
        cache_wf(c),
        spares(cache_add(c, query, t, conf, args, now), ops, normalized(query)),
        normalized(query2) == normalized(query),
        elapsed(now2, last_use(apply_ops(cache_add(c, query, t, conf, args, now), ops), normalized(query))) <= c.ttl,
    ensures
        cache_get(apply_ops(cache_add(c, query, t, conf, args, now), ops), query2, now2).0 == Some((t, conf, args)),
{
    let a = cache_add(c, query, t, conf, args, now);
    lemma_add_shape(c, query, t, conf, args, now);
    lemma_ops_keep_entry(a, ops, normalized(query));
    let f = apply_ops(a, ops);
    lemma_index_of_key(f.entries, normalized(query));
}

/// A lookup of a key within its time to live refreshes its last use to the
/// time of the lookup.
pub proof fn lemma_hit_refreshes(c: CacheView, query: Seq<char>, now: u64)
    requires
        keys_unique(c.entries),
        entry_for(c, normalized(query)) is Some,
        elapsed(now, last_use(c, normalized(query))) <= c.ttl,
    ensures
        last_use(cache_get(c, query, now).1, normalized(query)) == now,
        entry_for(cache_get(c, query, now).1, normalized(query)) matches Some(e) && same_selection(
            e,
            entry_for(c, normalized(query))->0,
        ),
{
    lemma_op_keeps_entry(c, CacheOp::Get { query, now }, normalized(query));
}

/// The entries before an addition's own entry goes in: the cache's entries,
/// without the least recently used one when the cache is full and the key is new.
pub open spec fn entries_before_insert(c: CacheView, query: Seq<char>) -> Seq<EntryView> {
    if c.entries.len() >= c.max_entries && index_of_key(c.entries, normalized(query)) < 0 {
        without_oldest(c.entries)
    } else {
        c.entries
    }
}

#[verifier::spinoff_prover]
#[verifier::rlimit(80)]
proof fn lemma_before_insert(c: CacheView, query: Seq<char>)
    requires
        keys_unique(c.entries),
    ensures
        keys_unique(entries_before_insert(c, query)),
        forall|j: int| #![trigger entries_before_insert(c, query)[j]]
            0 <= j < entries_before_insert(c, query).len() ==> exists|jj: int|
                0 <= jj < c.entries.len() && entries_before_insert(c, query)[j] == c.entries[jj],
        forall|k: Seq<char>| #![trigger entry_for(c, k)]
            k != normalized(query) && !evicts(c, query, k) && entry_for(c, k) is Some ==> exists|j: int|
                0 <= j < entries_before_insert(c, query).len() && entries_before_insert(c, query)[j] == entry_for(
                    c,
                    k,
                )->0,
        forall|k: Seq<char>| #![trigger evicts(c, query, k)]
            evicts(c, query, k) ==> forall|j: int|
                0 <= j < entries_before_insert(c, query).len() ==> entries_before_insert(c, query)[j].key != k,
        entries_before_insert(c, query).len() == if c.entries.len() >= c.max_entries && index_of_key(
            c.entries,
            normalized(query),
        ) < 0 && c.entries.len() > 0 {
            c.entries.len() - 1
        } else {
            c.entries.len() as int
        },
{
    let m = c.entries;
    let e1 = entries_before_insert(c, query);
    if m.len() >= c.max_entries && index_of_key(m, normalized(query)) < 0 && m.len() > 0 {
        lemma_oldest_exists(m);
        let o = choose|i: int| is_oldest(m, i);
        lemma_unique_remove(m, o);
        assert(e1 == m.remove(o));
        assert forall|j: int| 0 <= j < e1.len() implies exists|jj: int| 0 <= jj < m.len() && #[trigger] e1[j] == m[jj] by {
            let jj = if j < o { j } else { j + 1 };
            assert(e1[j] == m[jj]);
        }
        assert forall|k: Seq<char>| k != normalized(query) && !evicts(c, query, k) && #[trigger] entry_for(c, k) is Some implies exists|j: int|
            0 <= j < e1.len() && e1[j] == entry_for(c, k)->0 by {
            lemma_index_of_key(m, k);
            let p = index_of_key(m, k);
            assert(m[o].key != k);
            let j = if p < o { p } else { p - 1 };
            assert(e1[j] == m[p]);
        }
        assert forall|k: Seq<char>| #[trigger] evicts(c, query, k) implies forall|j: int|
            0 <= j < e1.len() ==> e1[j].key != k by {
            assert forall|j: int| 0 <= j < e1.len() implies e1[j].key != k by {
                let jj = if j < o { j } else { j + 1 };
                assert(e1[j] == m[jj]);
            }
        }
    } else {
        assert(e1 == m);
        assert forall|j: int| 0 <= j < e1.len() implies exists|jj: int| 0 <= jj < m.len() && #[trigger] e1[j] == m[jj] by {
            assert(e1[j] == m[j]);
        }
        assert forall|k: Seq<char>| k != normalized(query) && !evicts(c, query, k) && #[trigger] entry_for(c, k) is Some implies exists|j: int|
            0 <= j < e1.len() && e1[j] == entry_for(c, k)->0 by {
            lemma_index_of_key(m, k);
        }
    }
}

/// An addition for `query` leaves the entry under every other key as it was,
/// except that the entry it evicts is gone.
proof fn lemma_add_other_key(c: CacheView, query: Seq<char>, t: Seq<char>, conf: u64, args: JsonView, now: u64, k: Seq<char>)
    requires
        keys_unique(c.entries),
        k != normalized(query),
    ensures
        entry_for(cache_add(c, query, t, conf, args, now), k) == if evicts(c, query, k) {
            None
        } else {
            entry_for(c, k)
        },
{
    let m = c.entries;
    let nq = normalized(query);
    lemma_before_insert(c, query);
    let e1 = entries_before_insert(c, query);
    let entry = EntryView { key: nq, tool_name: t, confidence: conf, arguments: args, last_used: now, use_count: 1 };
    lemma_index_of_key(e1, nq);
    let i = index_of_key(e1, nq);
    let r = cache_add(c, query, t, conf, args, now).entries;
    assert(r == if i >= 0 { e1.update(i, entry) } else { e1.push(entry) });
    if i >= 0 {
        lemma_unique_update_same_key(e1, i, entry);
    } else {
        lemma_unique_push(e1, entry);
    }
    lemma_index_of_key(m, k);
    lemma_index_of_key(r, k);
    if evicts(c, query, k) {
        assert forall|j: int| 0 <= j < r.len() implies r[j].key != k by {
            if !(j == i || j == e1.len()) {
                assert(r[j] == e1[j]);
            }
        }
    } else if entry_for(c, k) is Some {
        let j = choose|j: int| 0 <= j < e1.len() && e1[j] == entry_for(c, k)->0;
        assert(j != i);
        assert(r[j] == e1[j]);
    } else {
        assert forall|j: int| 0 <= j < r.len() implies r[j].key != k by {
            if !(j == i || j == e1.len()) {
                assert(r[j] == e1[j]);
                let jj = choose|jj: int| 0 <= jj < m.len() && #[trigger] e1[j] == m[jj];
            }
        }
    }
}

/// What an addition does.  The added key then holds the new selection, used
/// once, at the time of the addition; every other key keeps its entry as it
/// was, except the one entry evicted: when the cache is full and the key is
/// new, exactly one entry goes, one used least recently.  The cache stays
/// within its capacity, and one with room for at least one entry that was
/// within it holds at most `max_entries` entries afterwards.
pub proof fn lemma_add_effects(c: CacheView, query: Seq<char>, t: Seq<char>, conf: u64, args: JsonView, now: u64)
    requires
        cache_wf(c),
    ensures
        ({
            let r = cache_add(c, query, t, conf, args, now);
            let key = normalized(query);
            &&& cache_wf(r)
            &&& r.ttl == c.ttl && r.max_entries == c.max_entries
            &&& c.max_entries >= 1 && c.entries.len() <= c.max_entries ==> r.entries.len() <= c.max_entries
            &&& entry_for(r, key) == Some(
                EntryView { key, tool_name: t, confidence: conf, arguments: args, last_used: now, use_count: 1 },
            )
            &&& forall|k: Seq<char>| #![trigger entry_for(r, k)]
                k != key ==> entry_for(r, k) == if evicts(c, query, k) {
                    None
                } else {
                    entry_for(c, k)
                }
            &&& forall|k: Seq<char>| #![trigger evicts(c, query, k)]
                evicts(c, query, k) ==> exists|i: int| is_oldest(c.entries, i) && c.entries[i].key == k
            &&& (c.entries.len() >= c.max_entries && c.entries.len() > 0 && entry_for(c, key) is None) ==> exists|
                k: Seq<char>,
            | #[trigger] evicts(c, query, k) && entry_for(c, k) is Some
            &&& r.entries.len() == if entry_for(c, key) is Some {
                c.entries.len() as int
            } else if c.entries.len() >= c.max_entries && c.entries.len() > 0 {
                c.entries.len() as int
            } else {
                c.entries.len() + 1int
            }
        }),
{
    let r = cache_add(c, query, t, conf, args, now);
    let key = normalized(query);
    let m = c.entries;
    lemma_add_shape(c, query, t, conf, args, now);
    lemma_index_of_key(r.entries, key);
    lemma_index_of_key(m, key);
    lemma_before_insert(c, query);
    let e1 = entries_before_insert(c, query);
    lemma_index_of_key(e1, key);
    assert forall|k: Seq<char>| k != key implies #[trigger] entry_for(r, k) == if evicts(c, query, k) {
        None
    } else {
        entry_for(c, k)
    } by {
        lemma_add_other_key(c, query, t, conf, args, now, k);
    }
    if m.len() > 0 {
        lemma_oldest_exists(m);
    }
    assert forall|k: Seq<char>| #[trigger] evicts(c, query, k) implies exists|i: int| is_oldest(c.entries, i) && c.entries[i].key == k by {
        let o = choose|i: int| is_oldest(m, i);
        assert(is_oldest(m, o));
    }
    if m.len() >= c.max_entries && m.len() > 0 && entry_for(c, key) is None {
        let o = choose|i: int| is_oldest(m, i);
        let k = m[o].key;
        assert(evicts(c, query, k));
        lemma_index_of_key(m, k);
        assert(entry_for(c, k) is Some);
    }
    if index_of_key(e1, key) < 0 {
        assert(r.entries == e1.push(
            EntryView { key, tool_name: t, confidence: conf, arguments: args, last_used: now, use_count: 1 },
        ));
    } else {
        assert(index_of_key(m, key) >= 0) by {
            if index_of_key(m, key) < 0 {
                let i = index_of_key(e1, key);
                let jj = choose|jj: int| 0 <= jj < m.len() && #[trigger] e1[i] == m[jj];
            }
        }
    }
}

/// Queries whose lowercase forms have the same words share one cache key
/// (so "Test  Query" and " test query " are cached together).
pub proof fn lemma_same_words_same_key(q1: Seq<char>, q2: Seq<char>)
    requires
        words(lowercase(q1)) == words(lowercase(q2)),
    ensures
        normalized(q1) == normalized(q2),
{
}

} // verus!
