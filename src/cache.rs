use vstd::pervasive::VecAdditionalExecFns;
use vstd::prelude::*;

verus! {

/// A resolved price for one token. Every amount is fixed point with
/// `PRICE_DECIMALS` places; `timestamp` is the acquisition time in seconds
/// since the epoch, and `source` names the price source that produced it.
#[derive(Clone, Debug)]
pub struct TokenPrice {
    pub mint: String,
    pub price_usd: u128,
    pub price_sol: u128,
    pub volume_24h: u128,
    pub market_cap: u128,
    pub timestamp: u64,
    pub source: String,
}

impl TokenPrice {
    /// A field-for-field copy.
    pub fn duplicate(&self) -> (r: TokenPrice)
        ensures
            r == *self,
    {
        TokenPrice {
            mint: self.mint.clone(),
            price_usd: self.price_usd,
            price_sol: self.price_sol,
            volume_24h: self.volume_24h,
            market_cap: self.market_cap,
            timestamp: self.timestamp,
            source: self.source.clone(),
        }
    }
}

/// A record acquired at `timestamp` is still valid at `now` under `ttl`:
/// `now - timestamp < ttl`.
pub open spec fn is_fresh(timestamp: u64, ttl: u64, now: u64) -> bool {
    (now as int) < timestamp as int + ttl as int
}

/// The record cached under `key` that is fresh at `now`, if any.
pub open spec fn fresh_lookup(
    cache: Map<Seq<char>, TokenPrice>,
    ttl: u64,
    key: Seq<char>,
    now: u64,
) -> Option<TokenPrice> {
    if cache.contains_key(key) && is_fresh(cache[key].timestamp, ttl, now) {
        Some(cache[key])
    } else {
        None
    }
}

/// A record stored at acquisition time `T` is returned unchanged by every
/// lookup at a time `T'` with `T' - T < ttl`, and by none with
/// `T' - T >= ttl`.
pub proof fn lemma_cache_freshness(
    cache: Map<Seq<char>, TokenPrice>,
    ttl: u64,
    key: Seq<char>,
    record: TokenPrice,
    now: u64,
)
    ensures
        (now as int) - (record.timestamp as int) < ttl ==> fresh_lookup(
            cache.insert(key, record),
            ttl,
            key,
            now,
        ) == Some(record),
        (now as int) - (record.timestamp as int) >= ttl ==> fresh_lookup(
            cache.insert(key, record),
            ttl,
            key,
            now,
        ) is None,
{
}

pub struct CacheEntry {
    pub key: String,
    pub record: TokenPrice,
}

impl CacheEntry {
    fn duplicate(&self) -> (r: CacheEntry)
        ensures
            r == *self,
    {
        CacheEntry { key: self.key.clone(), record: self.record.duplicate() }
    }
}

/// No key occurs twice in `s`.
pub open spec fn keys_unique(s: Seq<CacheEntry>) -> bool {
    forall|i: int, j: int| 0 <= i < j < s.len() ==> s[i].key@ != s[j].key@
}

pub open spec fn entry_fresh(e: CacheEntry, ttl: u64, now: u64) -> bool {
    is_fresh(e.record.timestamp, ttl, now)
}

/// The entries of `entries` that are fresh at `now`, in their order.
fn retain_fresh(entries: &Vec<CacheEntry>, ttl: u64, now: u64) -> (kept: Vec<CacheEntry>)
    requires
        keys_unique(entries@),
    ensures
        keys_unique(kept@),
        forall|a: int|
            0 <= a < kept.len() ==> entries@.contains(#[trigger] kept[a]) && entry_fresh(
                kept[a],
                ttl,
                now,
            ),
        forall|b: int|
            0 <= b < entries.len() && #[trigger] entry_fresh(entries[b], ttl, now)
                ==> kept@.contains(entries[b]),
{
    let mut kept: Vec<CacheEntry> = Vec::new();
    // where each kept entry came from, and where each fresh entry went
    let ghost mut from: Seq<int> = Seq::empty();
    let ghost mut to: Seq<int> = Seq::empty();
    let mut i: usize = 0;
    while i < entries.len()
        invariant
            keys_unique(entries@),
            i <= entries.len(),
            from.len() == kept.len(),
            to.len() == i,
            forall|a: int|
                0 <= a < kept.len() ==> 0 <= #[trigger] from[a] < i && entries[from[a]] == kept[a]
                    && entry_fresh(entries[from[a]], ttl, now),
            forall|a: int, c: int| 0 <= a < c < kept.len() ==> from[a] < from[c],
            forall|b: int|
                0 <= b < i && entry_fresh(entries[b], ttl, now) ==> 0 <= #[trigger] to[b]
                    < kept.len() && kept[to[b]] == entries[b],
        decreases entries.len() - i,
    {
        let e = &entries[i];
        if (now as u128) < e.record.timestamp as u128 + ttl as u128 {
            kept.push(e.duplicate());
            proof {
                to = to.push(from.len() as int);
                from = from.push(i as int);
            }
        } else {
            proof {
                to = to.push(0);
            }
        }
        i = i + 1;
    }
    proof {
        assert forall|a: int, c: int| 0 <= a < c < kept.len() implies kept[a].key@
            != kept[c].key@ by {
            assert(from[a] < from[c]);
        }
        assert forall|a: int| 0 <= a < kept.len() implies entries@.contains(#[trigger] kept[a])
            && entry_fresh(kept[a], ttl, now) by {
            assert(0 <= from[a] < entries.len());
            assert(entries@[from[a]] == kept[a]);
            assert(entry_fresh(entries[from[a]], ttl, now));
        }
        assert forall|b: int|
            0 <= b < entries.len() && #[trigger] entry_fresh(entries[b], ttl, now) implies kept@.contains(
                entries[b],
            ) by {
            assert(kept@[to[b]] == entries[b]);
        }
    }
    kept
}

/// Resolved prices keyed by token identifier, each valid for `ttl` seconds
/// after its acquisition time.
pub struct PriceCache {
    entries: Vec<CacheEntry>,
    ttl: u64,
}

impl View for PriceCache {
    type V = Map<Seq<char>, TokenPrice>;

    closed spec fn view(&self) -> Map<Seq<char>, TokenPrice> {
        Map::new(
            |k: Seq<char>| exists|i: int| 0 <= i < self.entries.len() && self.entries[i].key@ == k,
            |k: Seq<char>|
                self.entries[choose|i: int|
                    0 <= i < self.entries.len() && self.entries[i].key@ == k].record,
        )
    }
}

impl PriceCache {
    /// No key is held twice.
    pub closed spec fn wf(&self) -> bool {
        keys_unique(self.entries@)
    }

    pub closed spec fn ttl(&self) -> u64 {
        self.ttl
    }

    /// The number of entries held.
    pub closed spec fn size(&self) -> nat {
        self.entries@.len()
    }

    proof fn lemma_view_at(&self, i: int)
        requires
            self.wf(),
            0 <= i < self.entries.len(),
        ensures
            self@.contains_key(self.entries[i].key@),
            self@[self.entries[i].key@] == self.entries[i].record,
    {
        let k = self.entries[i].key@;
        assert(exists|j: int| 0 <= j < self.entries.len() && self.entries[j].key@ == k);
        let j = choose|j: int| 0 <= j < self.entries.len() && self.entries[j].key@ == k;
        assert(i == j);
    }

    pub fn new(ttl: u64) -> (r: PriceCache)
        ensures
            r.wf(),
            r@ == Map::<Seq<char>, TokenPrice>::empty(),
            r.ttl() == ttl,
            r.size() == 0,
    {
        let r = PriceCache { entries: Vec::new(), ttl };
        assert(r@ =~= Map::<Seq<char>, TokenPrice>::empty());
        r
    }

    /// Distinct keys: as many entries as cached tokens.
    pub proof fn lemma_size(&self)
        requires
            self.wf(),
        ensures
            self.size() == self@.dom().len(),
    {
        let ks = self.entries@.map_values(|e: CacheEntry| e.key@);
        assert(ks.no_duplicates());
        ks.unique_seq_to_set();
        assert forall|k: Seq<char>| #[trigger] self@.dom().contains(k) == ks.to_set().contains(k) by {
            if self@.dom().contains(k) {
                let i = choose|i: int| 0 <= i < self.entries.len() && self.entries[i].key@ == k;
                assert(ks[i] == k);
            }
            if ks.to_set().contains(k) {
                assert(ks.contains(k));
                let i = choose|i: int| 0 <= i < ks.len() && ks[i] == k;
                assert(self.entries[i].key@ == k);
            }
        }
        assert(self@.dom() =~= ks.to_set());
    }

    pub fn ttl_seconds(&self) -> (r: u64)
        ensures
            r == self.ttl(),
    {
        self.ttl
    }

    /// The number of cached tokens.
    pub fn len(&self) -> (r: usize)
        requires
            self.wf(),
        ensures
            r == self.size(),
            r == self@.dom().len(),
    {
        proof {
            self.lemma_size();
        }
        self.entries.len()
    }

    /// Index of the entry held under `key`, if any.
    fn find(&self, key: &String) -> (r: Option<usize>)
        requires
            self.wf(),
        ensures
            match r {
                Some(i) => i < self.entries.len() && self.entries[i as int].key@ == key@,
                None => !self@.contains_key(key@),
            },
    {
        let mut i: usize = 0;
        while i < self.entries.len()
            invariant
                i <= self.entries.len(),
                forall|j: int| 0 <= j < i ==> self.entries[j].key@ != key@,
            decreases self.entries.len() - i,
        {
            if self.entries[i].key == *key {
                return Some(i);
            }
            i = i + 1;
        }
        None
    }

    /// The record held under `key` if it is still fresh at `now`.
    pub fn get(&self, key: &str, now: u64) -> (r: Option<TokenPrice>)
        requires
            self.wf(),
        ensures
            r == fresh_lookup(self@, self.ttl(), key@, now),
    {
        let k = key.to_owned();
        match self.find(&k) {
            Some(i) => {
                proof {
                    self.lemma_view_at(i as int);
                }
                let e = &self.entries[i];
                if (now as u128) < e.record.timestamp as u128 + self.ttl as u128 {
                    Some(e.record.duplicate())
                } else {
                    None
                }
            },
            None => None,
        }
    }

    /// Stores `record` under `key`, replacing what was held there.
    pub fn put(&mut self, key: &str, record: TokenPrice)
        requires
            old(self).wf(),
        ensures
            final(self).wf(),
            final(self)@ == old(self)@.insert(key@, record),
            final(self).ttl() == old(self).ttl(),
    {
        let k = key.to_owned();
        let ghost before = self.entries@;
        match self.find(&k) {
            Some(i) => {
                self.entries.set(i, CacheEntry { key: k, record });
                proof {
                    assert forall|k2: Seq<char>| #[trigger]
                        self@.contains_key(k2) == old(self)@.insert(key@, record).contains_key(k2)
                        by {
                        if k2 != key@ {
                            if self@.contains_key(k2) {
                                let j = choose|j: int|
                                    0 <= j < self.entries.len() && self.entries[j].key@ == k2;
                                assert(before[j].key@ == k2);
                            }
                            if old(self)@.contains_key(k2) {
                                let j = choose|j: int|
                                    0 <= j < before.len() && before[j].key@ == k2;
                                assert(self.entries[j].key@ == k2);
                            }
                        } else {
                            assert(self.entries[i as int].key@ == k2);
                        }
                    }
                    assert forall|k2: Seq<char>| #[trigger] self@.contains_key(k2) implies self@[k2]
                        == old(self)@.insert(key@, record)[k2] by {
                        let j = choose|j: int|
                            0 <= j < self.entries.len() && self.entries[j].key@ == k2;
                        self.lemma_view_at(j);
                        if j != i {
                            old(self).lemma_view_at(j);
                        }
                    }
                    assert(self@ =~= old(self)@.insert(key@, record));
                }
            },
            None => {
                self.entries.push(CacheEntry { key: k, record });
                proof {
                    let n = before.len();
                    assert forall|k2: Seq<char>| #[trigger]
                        self@.contains_key(k2) == old(self)@.insert(key@, record).contains_key(k2)
                        by {
                        if k2 != key@ {
                            if self@.contains_key(k2) {
                                let j = choose|j: int|
                                    0 <= j < self.entries.len() && self.entries[j].key@ == k2;
                                assert(before[j].key@ == k2);
                            }
                            if old(self)@.contains_key(k2) {
                                let j = choose|j: int|
                                    0 <= j < before.len() && before[j].key@ == k2;
                                assert(self.entries[j].key@ == k2);
                            }
                        } else {
                            assert(self.entries[n as int].key@ == k2);
                        }
                    }
                    assert(self.wf());
                    assert forall|k2: Seq<char>| #[trigger] self@.contains_key(k2) implies self@[k2]
                        == old(self)@.insert(key@, record)[k2] by {
                        let j = choose|j: int|
                            0 <= j < self.entries.len() && self.entries[j].key@ == k2;
                        self.lemma_view_at(j);
                        if j != n {
                            old(self).lemma_view_at(j);
                        }
                    }
                    assert(self@ =~= old(self)@.insert(key@, record));
                }
            },
        }
    }

    /// Drops every entry that is no longer fresh at `now`; the others stay
    /// as they were.
    pub fn evict_stale(&mut self, now: u64)
        requires
            old(self).wf(),
        ensures
            final(self).wf(),
            final(self).ttl() == old(self).ttl(),
            forall|k: Seq<char>|
                #[trigger] final(self)@.contains_key(k) == (old(self)@.contains_key(k)
                    && is_fresh(old(self)@[k].timestamp, old(self).ttl(), now)),
            forall|k: Seq<char>| #[trigger]
                final(self)@.contains_key(k) ==> final(self)@[k] == old(self)@[k],
            forall|k: Seq<char>| #[trigger]
                final(self)@.contains_key(k) ==> is_fresh(
                    final(self)@[k].timestamp,
                    final(self).ttl(),
                    now,
                ),
    {
        let ghost before = self.entries@;
        let ttl = self.ttl;
        let kept = retain_fresh(&self.entries, ttl, now);
        self.entries = kept;
        proof {
            assert forall|k: Seq<char>|
                #[trigger] self@.contains_key(k) == (old(self)@.contains_key(k) && is_fresh(
                    old(self)@[k].timestamp,
                    ttl,
                    now,
                )) by {
                if self@.contains_key(k) {
                    let a = choose|a: int| 0 <= a < self.entries.len() && self.entries[a].key@ == k;
                    assert(before.contains(self.entries[a]));
                    let b = choose|b: int| 0 <= b < before.len() && before[b] == self.entries[a];
                    old(self).lemma_view_at(b);
                }
                if old(self)@.contains_key(k) && is_fresh(old(self)@[k].timestamp, ttl, now) {
                    let b = choose|b: int| 0 <= b < before.len() && before[b].key@ == k;
                    old(self).lemma_view_at(b);
                    assert(entry_fresh(before[b], ttl, now));
                    assert(self.entries@.contains(before[b]));
                    let a = choose|a: int| 0 <= a < self.entries.len() && self.entries[a] == before[b];
                    assert(self.entries[a].key@ == k);
                }
            }
            assert forall|k: Seq<char>| #[trigger]
                self@.contains_key(k) implies self@[k] == old(self)@[k] by {
                let a = choose|a: int| 0 <= a < self.entries.len() && self.entries[a].key@ == k;
                self.lemma_view_at(a);
                assert(before.contains(self.entries[a]));
                let b = choose|b: int| 0 <= b < before.len() && before[b] == self.entries[a];
                old(self).lemma_view_at(b);
            }
        }
    }
}

} // verus!
