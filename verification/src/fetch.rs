//! The fetch cache: a URL-keyed store of raw bytes that decides between
//! serving a cached copy and recording a live fetch, and the typed
//! resource wrapper that tells callers which of the two happened.
//!
//! The store itself is held in memory; persisting its entries is the
//! caller's concern.  A live fetch is handed in as a plain value, so the
//! decision logic is the same whatever transport produced it.

use crate::errors::ScrapeError;
use vstd::prelude::*;
use vstd::utf8::{decode_utf8, valid_utf8};

verus! {

/// A fetched or cache-served value.  The contents mean the same either
/// way; the tag only serves logging and refresh decisions.
pub enum Resource<T> {
    Fetched(T),
    Cached(T),
}

impl<T> Resource<T> {
    /// The carried value, whichever way it was obtained.
    pub open spec fn payload(self) -> T {
        match self {
            Resource::Fetched(c) => c,
            Resource::Cached(c) => c,
        }
    }

    /// The carried value.
    pub fn contents(&self) -> (r: &T)
        ensures
            *r == self.payload(),
    {
        match self {
            Resource::Fetched(c) => c,
            Resource::Cached(c) => c,
        }
    }

    /// Whether the value came from the cache rather than a live fetch.
    pub fn is_cached(&self) -> (r: bool)
        ensures
            r == (*self is Cached),
    {
        match self {
            Resource::Fetched(_) => false,
            Resource::Cached(_) => true,
        }
    }
}

/// The flat file name a URL is stored under: every `/` escaped to `%2F`.
pub open spec fn cache_key_of(u: Seq<char>) -> Seq<char>
    decreases u.len(),
{
    if u.len() == 0 {
        Seq::empty()
    } else {
        (if u[0] == '/' {
            seq!['%', '2', 'F']
        } else {
            seq![u[0]]
        }) + cache_key_of(u.drop_first())
    }
}

/// Escapes a URL into its flat cache file name.
pub fn cache_key(u: &Vec<char>) -> (r: Vec<char>)
    ensures
        r@ == cache_key_of(u@),
{
    let ghost t = u@;
    proof {
        assert(t.skip(0) =~= t);
    }
    let mut r: Vec<char> = Vec::new();
    let mut k: usize = 0;
    while k < u.len()
        invariant
            0 <= k <= u.len(),
            t == u@,
            cache_key_of(t) == r@ + cache_key_of(t.skip(k as int)),
        decreases u.len() - k,
    {
        proof {
            assert(t.skip(k as int)[0] == t[k as int]);
            assert(t.skip(k as int).drop_first() =~= t.skip(k + 1));
        }
        let ghost before = r@;
        let c = u[k];
        if c == '/' {
            r.push('%');
            r.push('2');
            r.push('F');
            proof {
                assert(r@ =~= before + seq!['%', '2', 'F']);
            }
        } else {
            r.push(c);
            proof {
                assert(r@ =~= before + seq![t[k as int]]);
            }
        }
        proof {
            assert(before + ((if t[k as int] == '/' {
                seq!['%', '2', 'F']
            } else {
                seq![t[k as int]]
            }) + cache_key_of(t.skip(k + 1))) =~= r@ + cache_key_of(t.skip(k + 1)));
        }
        k += 1;
    }
    proof {
        assert(cache_key_of(t.skip(u@.len() as int)) =~= Seq::<char>::empty());
        assert(r@ + Seq::<char>::empty() =~= r@);
    }
    r
}

/// The value stored under `key`: the first entry wins.
pub open spec fn store_lookup(s: Seq<(Seq<char>, Seq<u8>)>, key: Seq<char>) -> Option<Seq<u8>>
    decreases s.len(),
{
    if s.len() == 0 {
        None
    } else if s[0].0 == key {
        Some(s[0].1)
    } else {
        store_lookup(s.drop_first(), key)
    }
}

/// A store after recording `val` under `key`: a new key is appended; a
/// forced refresh of an existing key replaces its bytes in place.
pub open spec fn store_record(s: Seq<(Seq<char>, Seq<u8>)>, key: Seq<char>, val: Seq<u8>) -> Seq<
    (Seq<char>, Seq<u8>),
>
    decreases s.len(),
{
    if s.len() == 0 {
        seq![(key, val)]
    } else if s[0].0 == key {
        seq![(key, val)] + s.drop_first()
    } else {
        seq![s[0]] + store_record(s.drop_first(), key, val)
    }
}

/// Recording then looking the same key up gives exactly the recorded
/// bytes.
pub proof fn lemma_store_round_trip(s: Seq<(Seq<char>, Seq<u8>)>, key: Seq<char>, val: Seq<u8>)
    ensures
        store_lookup(store_record(s, key, val), key) == Some(val),
    decreases s.len(),
{
    if s.len() > 0 && s[0].0 != key {
        lemma_store_round_trip(s.drop_first(), key, val);
        let r = seq![s[0]] + store_record(s.drop_first(), key, val);
        assert(r.drop_first() =~= store_record(s.drop_first(), key, val));
    }
}

proof fn lemma_store_record_at(s: Seq<(Seq<char>, Seq<u8>)>, i: int, key: Seq<char>, val: Seq<u8>)
    requires
        0 <= i < s.len(),
        s[i].0 == key,
        forall|j: int| 0 <= j < i ==> s[j].0 != key,
    ensures
        store_record(s, key, val) == s.update(i, (key, val)),
    decreases i,
{
    if i == 0 {
        assert(seq![(key, val)] + s.drop_first() =~= s.update(0, (key, val)));
    } else {
        assert forall|j: int| 0 <= j < i - 1 implies s.drop_first()[j].0 != key by {
            assert(s[j + 1].0 != key);
        }
        lemma_store_record_at(s.drop_first(), i - 1, key, val);
        assert(seq![s[0]] + s.drop_first().update(i - 1, (key, val)) =~= s.update(i, (key, val)));
    }
}

proof fn lemma_store_record_absent(s: Seq<(Seq<char>, Seq<u8>)>, key: Seq<char>, val: Seq<u8>)
    requires
        forall|j: int| 0 <= j < s.len() ==> s[j].0 != key,
    ensures
        store_record(s, key, val) == s.push((key, val)),
    decreases s.len(),
{
    if s.len() == 0 {
        assert(seq![(key, val)] =~= s.push((key, val)));
    } else {
        assert forall|j: int| 0 <= j < s.len() - 1 implies s.drop_first()[j].0 != key by {
            assert(s[j + 1].0 != key);
        }
        lemma_store_record_absent(s.drop_first(), key, val);
        assert(seq![s[0]] + s.drop_first().push((key, val)) =~= s.push((key, val)));
    }
}

/// The in-memory byte store keyed by escaped URL.
pub struct CacheStore {
    entries: Vec<(Vec<char>, Vec<u8>)>,
}

/// Copy of a byte vector.
pub fn copy_bytes(v: &Vec<u8>) -> (r: Vec<u8>)
    ensures
        r@ == v@,
{
    let mut r: Vec<u8> = Vec::new();
    let mut i: usize = 0;
    while i < v.len()
        invariant
            0 <= i <= v.len(),
            r@ =~= v@.subrange(0, i as int),
        decreases v.len() - i,
    {
        r.push(v[i]);
        proof {
            assert(v@.subrange(0, i as int).push(v@[i as int]) =~= v@.subrange(0, i + 1));
        }
        i += 1;
    }
    proof {
        assert(v@.subrange(0, v@.len() as int) =~= v@);
    }
    r
}

impl CacheStore {
    /// The entries, in the order they were recorded.
    pub closed spec fn view_entries(&self) -> Seq<(Seq<char>, Seq<u8>)> {
        self.entries@.map_values(|e: (Vec<char>, Vec<u8>)| (e.0@, e.1@))
    }

    pub fn new() -> (r: CacheStore)
        ensures
            r.view_entries() =~= Seq::<(Seq<char>, Seq<u8>)>::empty(),
    {
        CacheStore { entries: Vec::new() }
    }

    /// The bytes stored under `key`, copied out.
    pub fn lookup(&self, key: &Vec<char>) -> (r: Option<Vec<u8>>)
        ensures
            match r {
                Some(v) => store_lookup(self.view_entries(), key@) == Some(v@),
                None => store_lookup(self.view_entries(), key@) is None,
            },
    {
        let ghost ev = self.view_entries();
        proof {
            assert(ev.skip(0) =~= ev);
        }
        let mut k: usize = 0;
        while k < self.entries.len()
            invariant
                0 <= k <= self.entries.len(),
                ev == self.view_entries(),
                ev == self.entries@.map_values(|e: (Vec<char>, Vec<u8>)| (e.0@, e.1@)),
                store_lookup(ev, key@) == store_lookup(ev.skip(k as int), key@),
            decreases self.entries.len() - k,
        {
            proof {
                assert(ev.skip(k as int)[0] == ev[k as int]);
                assert(ev.skip(k as int).drop_first() =~= ev.skip(k + 1));
            }
            if crate::strutil::chars_eq(&self.entries[k].0, key) {
                let v = copy_bytes(&self.entries[k].1);
                return Some(v);
            }
            k += 1;
        }
        proof {
            assert(ev.skip(self.entries@.len() as int) =~= Seq::<(Seq<char>, Seq<u8>)>::empty());
        }
        None
    }

    /// Records `val` under `key`: a fresh key is appended, an existing
    /// one has its bytes replaced.
    pub fn record(&mut self, key: Vec<char>, val: Vec<u8>)
        ensures
            final(self).view_entries() == store_record(old(self).view_entries(), key@, val@),
    {
        let ghost before = self.view_entries();
        let mut i: usize = 0;
        while i < self.entries.len()
            invariant
                0 <= i <= self.entries.len(),
                before == old(self).view_entries(),
                before == self.view_entries(),
                before == self.entries@.map_values(|e: (Vec<char>, Vec<u8>)| (e.0@, e.1@)),
                forall|j: int| 0 <= j < i ==> before[j].0 != key@,
            decreases self.entries.len() - i,
        {
            if crate::strutil::chars_eq(&self.entries[i].0, &key) {
                proof {
                    assert(before[i as int].0 == key@);
                }
                self.entries[i] = (key, val);
                proof {
                    assert(self.view_entries() =~= before.update(i as int, (key@, val@)));
                    lemma_store_record_at(before, i as int, key@, val@);
                }
                return ;
            }
            i += 1;
        }
        self.entries.push((key, val));
        proof {
            assert(self.view_entries() =~= before.push((key@, val@)));
            lemma_store_record_absent(before, key@, val@);
        }
    }
}

/// The text a byte sequence lossily decodes to; replacement characters
/// stand in for invalid sequences.  The outcome depends on the bytes
/// alone.
pub uninterp spec fn lossy_of(b: Seq<u8>) -> Seq<char>;

/// Decodes bytes as UTF-8 text, never failing.
///
/// Relies on `String::from_utf8_lossy`: invalid sequences become
/// replacement characters, and valid UTF-8 comes through unchanged.
#[verifier::external_body]
fn lossy_utf8(bytes: &Vec<u8>) -> (r: String)
    ensures
        r@ == lossy_of(bytes@),
        valid_utf8(bytes@) ==> r@ == decode_utf8(bytes@),
{
    String::from_utf8_lossy(bytes).to_string()
}

/// The URL-keyed fetch cache; without a directory configured it always
/// fetches live.
pub struct FetchCache {
    store: Option<CacheStore>,
}

impl FetchCache {
    /// Whether a cache is configured at all.
    pub closed spec fn enabled(&self) -> bool {
        self.store is Some
    }

    /// The entries of the configured store.
    pub closed spec fn entries(&self) -> Seq<(Seq<char>, Seq<u8>)> {
        match self.store {
            Some(s) => s.view_entries(),
            None => Seq::empty(),
        }
    }

    pub fn new(enabled: bool) -> (r: FetchCache)
        ensures
            r.enabled() == enabled,
            r.entries() =~= Seq::<(Seq<char>, Seq<u8>)>::empty(),
    {
        if enabled {
            FetchCache { store: Some(CacheStore::new()) }
        } else {
            FetchCache { store: None }
        }
    }

    /// Pre-loads one entry, as read back from a persisted cache.
    pub fn preload(&mut self, url: &Vec<char>, bytes: Vec<u8>)
        requires
            old(self).enabled(),
        ensures
            final(self).enabled(),
            final(self).entries() == store_record(
                old(self).entries(),
                cache_key_of(url@),
                bytes@,
            ),
    {
        let key = cache_key(url);
        match &mut self.store {
            Some(s) => s.record(key, bytes),
            None => unreached(),
        }
    }

    /// One fetch through the cache.  `network` is what a live fetch of
    /// `url` returned, `None` standing for an unreachable transport; it
    /// is consulted only when the cache cannot serve the URL.  A cache
    /// hit is returned as `Cached` and leaves the store unchanged; a live
    /// fetch is recorded under the URL's key and returned as `Fetched`;
    /// a needed but failed live fetch is a retrieval error named after
    /// the URL.
    pub fn fetch_bytes(&mut self, url: &Vec<char>, skip_cache: bool, network: Option<Vec<u8>>) -> (r:
        Result<Resource<Vec<u8>>, ScrapeError>)
        ensures
            final(self).enabled() == old(self).enabled(),
            ({
                let key = cache_key_of(url@);
                let hit = old(self).enabled() && !skip_cache && store_lookup(
                    old(self).entries(),
                    key,
                ) is Some;
                if hit {
                    &&& final(self).entries() == old(self).entries()
                    &&& r matches Ok(res) && res matches Resource::Cached(v) && Some(v@)
                        == store_lookup(old(self).entries(), key)
                } else {
                    match network {
                        Some(b) => {
                            &&& r matches Ok(res) && res == Resource::Fetched(b)
                            &&& (old(self).enabled() ==> final(self).entries() == store_record(
                                old(self).entries(),
                                key,
                                b@,
                            ))
                            &&& (!old(self).enabled() ==> final(self).entries() == old(
                                self,
                            ).entries())
                        },
                        None => r matches Err(e) && e is Retrieval && final(self).entries() == old(
                            self,
                        ).entries(),
                    }
                }
            }),
    {
        let key = cache_key(url);
        let cached: Option<Vec<u8>> = match &self.store {
            Some(s) => {
                if skip_cache {
                    None
                } else {
                    s.lookup(&key)
                }
            },
            None => None,
        };
        let enabled = match &self.store {
            Some(_) => true,
            None => false,
        };
        match cached {
            Some(v) => Ok(Resource::Cached(v)),
            None => {
                match network {
                    Some(b) => {
                        if enabled {
                            match &mut self.store {
                                Some(s) => {
                                    let copy = copy_bytes(&b);
                                    s.record(key, copy);
                                },
                                None => unreached(),
                            }
                        }
                        Ok(Resource::Fetched(b))
                    },
                    None => Err(
                        ScrapeError::Retrieval(crate::strutil::from_chars(url)),
                    ),
                }
            },
        }
    }

    /// One fetch decoded as text, UTF-8 with lossy replacement.
    pub fn fetch_text(&mut self, url: &Vec<char>, skip_cache: bool, network: Option<Vec<u8>>) -> (r:
        Result<Resource<String>, ScrapeError>)
        ensures
            final(self).enabled() == old(self).enabled(),
            ({
                let key = cache_key_of(url@);
                let hit = old(self).enabled() && !skip_cache && store_lookup(
                    old(self).entries(),
                    key,
                ) is Some;
                if hit {
                    &&& final(self).entries() == old(self).entries()
                    &&& r matches Ok(res) && res matches Resource::Cached(t) && t@ == lossy_of(
                        store_lookup(old(self).entries(), key)->Some_0,
                    )
                } else {
                    match network {
                        Some(b) => {
                            &&& r matches Ok(res) && res matches Resource::Fetched(t) && t@
                                == lossy_of(b@)
                            &&& (old(self).enabled() ==> final(self).entries() == store_record(
                                old(self).entries(),
                                key,
                                b@,
                            ))
                            &&& (!old(self).enabled() ==> final(self).entries() == old(
                                self,
                            ).entries())
                        },
                        None => r matches Err(e) && e is Retrieval && final(self).entries() == old(
                            self,
                        ).entries(),
                    }
                }
            }),
    {
        match self.fetch_bytes(url, skip_cache, network) {
            Ok(res) => {
                match res {
                    Resource::Cached(v) => {
                        let t = lossy_utf8(&v);
                        Ok(Resource::Cached(t))
                    },
                    Resource::Fetched(v) => {
                        let t = lossy_utf8(&v);
                        Ok(Resource::Fetched(t))
                    },
                }
            },
            Err(e) => Err(e),
        }
    }
}

/// Once a URL's bytes are recorded, a later fetch with the cache enabled
/// and not skipped is served from the store with those same bytes,
/// whatever the network does.
pub proof fn lemma_fetch_round_trip(s: Seq<(Seq<char>, Seq<u8>)>, url: Seq<char>, b: Seq<u8>)
    requires
        store_lookup(s, cache_key_of(url)) is None,
    ensures
        store_lookup(store_record(s, cache_key_of(url), b), cache_key_of(url)) == Some(b),
{
    lemma_store_round_trip(s, cache_key_of(url), b);
}

} // verus!
