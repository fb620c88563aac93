use vstd::prelude::*;

use crate::order::{cmp_key, key_cmp, lemma_key_cmp, lemma_key_cmp_trans};

verus! {

/// A request as (role, content) pairs; the exact key of a cached reply.
pub type CacheKey = Vec<(String, String)>;

/// The mathematical form of a cache key.
pub type KeyView = Seq<(Seq<char>, Seq<char>)>;

/// The mathematical form of a persisted list of (key, reply) pairs.
pub type EntriesView = Seq<(KeyView, Seq<char>)>;

#[verifier::external_type_specification]
#[verifier::external_body]
pub struct ExJsonError(serde_json::Error);

/// The text serde_json writes for a list of (key, reply) pairs.
pub uninterp spec fn cache_json_of(entries: EntriesView) -> Seq<char>;

/// The list of (key, reply) pairs serde_json reads from a text, if it reads one.
pub uninterp spec fn cache_entries_from_json(text: Seq<char>) -> Option<EntriesView>;

/// Relies on serde_json::to_string, which fails only for a value whose
/// `Serialize` impl fails or for a map with non-string keys; a list of
/// pairs of strings is neither. Strings are escaped losslessly and tuples
/// become arrays, so serde_json::from_str reads the text back as the same
/// pairs.
#[verifier::external_body]
fn entries_to_json(pairs: &Vec<(CacheKey, String)>) -> (r: Result<String, serde_json::Error>)
    ensures
        r is Ok,
        r matches Ok(s) ==> s@ == cache_json_of(pairs.deep_view()),
        r matches Ok(s) ==> cache_entries_from_json(s@) == Some(pairs.deep_view()),
{
    serde_json::to_string(pairs)
}

/// Relies on serde_json::from_str to read a JSON array of
/// `[[[role, content], ...], reply]` pairs.
#[verifier::external_body]
fn entries_from_json(text: &str) -> (r: Result<Vec<(CacheKey, String)>, serde_json::Error>)
    ensures
        (r is Ok) == (cache_entries_from_json(text@) is Some),
        r matches Ok(v) ==> cache_entries_from_json(text@) == Some(v.deep_view()),
{
    serde_json::from_str(text)
}

/// The map that a list of (key, reply) pairs describes; a later pair for a
/// key replaces an earlier one.
pub open spec fn map_of(entries: EntriesView) -> Map<KeyView, Seq<char>>
    decreases entries.len(),
{
    if entries.len() == 0 {
        Map::empty()
    } else {
        map_of(entries.drop_last()).insert(entries.last().0, entries.last().1)
    }
}

/// No key occurs twice in the list.
pub open spec fn keys_unique(entries: EntriesView) -> bool {
    forall|i: int, j: int|
        0 <= i < j < entries.len() ==> #[trigger] entries[i].0 != #[trigger] entries[j].0
}

/// The keys strictly ascend in the order `BTreeMap` keeps them.
pub open spec fn sorted_by_key(entries: EntriesView) -> bool {
    forall|i: int, j: int|
        0 <= i < j < entries.len() ==> #[trigger] key_cmp(entries[i].0, entries[j].0) < 0
}

proof fn lemma_sorted_unique(entries: EntriesView)
    requires
        sorted_by_key(entries),
    ensures
        keys_unique(entries),
{
    assert forall|i: int, j: int| 0 <= i < j < entries.len() implies #[trigger] entries[i].0
        != #[trigger] entries[j].0 by {
        lemma_key_cmp(entries[i].0, entries[j].0);
        assert(key_cmp(entries[i].0, entries[j].0) < 0);
    }
}

proof fn lemma_map_of_insert(entries: EntriesView, p: int, key: KeyView, reply: Seq<char>)
    requires
        0 <= p <= entries.len(),
        forall|i: int| 0 <= i < entries.len() ==> #[trigger] entries[i].0 != key,
    ensures
        map_of(entries.insert(p, (key, reply))) =~= map_of(entries).insert(key, reply),
    decreases entries.len(),
{
    let inserted = entries.insert(p, (key, reply));
    if p == entries.len() {
        assert(inserted.drop_last() =~= entries);
    } else {
        let init = entries.drop_last();
        assert(inserted.drop_last() =~= init.insert(p, (key, reply)));
        assert forall|i: int| 0 <= i < init.len() implies #[trigger] init[i].0 != key by {
            assert(init[i] == entries[i]);
        }
        lemma_map_of_insert(init, p, key, reply);
        assert(inserted.last() == entries.last());
        assert(entries[entries.len() - 1].0 != key);
    }
}

proof fn lemma_map_of_index(entries: EntriesView, i: int)
    requires
        keys_unique(entries),
        0 <= i < entries.len(),
    ensures
        map_of(entries).contains_key(entries[i].0),
        map_of(entries)[entries[i].0] == entries[i].1,
    decreases entries.len(),
{
    let init = entries.drop_last();
    if i < entries.len() - 1 {
        assert(init[i] == entries[i]);
        assert(entries[i].0 != entries[entries.len() - 1].0);
        lemma_map_of_index(init, i);
    }
}

proof fn lemma_map_of_absent(entries: EntriesView, key: KeyView)
    requires
        forall|i: int| 0 <= i < entries.len() ==> #[trigger] entries[i].0 != key,
    ensures
        !map_of(entries).contains_key(key),
    decreases entries.len(),
{
    if entries.len() > 0 {
        let init = entries.drop_last();
        assert forall|i: int| 0 <= i < init.len() implies #[trigger] init[i].0 != key by {
            assert(init[i] == entries[i]);
        }
        lemma_map_of_absent(init, key);
    }
}

proof fn lemma_map_of_update(entries: EntriesView, i: int, reply: Seq<char>)
    requires
        keys_unique(entries),
        0 <= i < entries.len(),
    ensures
        map_of(entries.update(i, (entries[i].0, reply))) =~= map_of(entries).insert(
            entries[i].0,
            reply,
        ),
    decreases entries.len(),
{
    let key = entries[i].0;
    let updated = entries.update(i, (key, reply));
    let init = entries.drop_last();
    if i == entries.len() - 1 {
        assert(updated.drop_last() =~= init);
    } else {
        assert(updated.drop_last() =~= init.update(i, (key, reply)));
        assert(init[i] == entries[i]);
        assert(entries[i].0 != entries[entries.len() - 1].0);
        lemma_map_of_update(init, i, reply);
    }
}

/// Replies to past requests, keyed by the exact request.
///
/// The entries are held as a list with unique keys; a cache without a file
/// takes no new entries, and `updated` records whether entries changed since
/// the file was last written.
pub struct Cache {
    cache_file: Option<String>,
    entries: Vec<(CacheKey, String)>,
    updated: bool,
}

pub fn clone_key(key: &CacheKey) -> (r: CacheKey)
    ensures
        r.deep_view() == key.deep_view(),
{
    let mut r: CacheKey = Vec::new();
    let mut i: usize = 0;
    while i < key.len()
        invariant
            i <= key@.len(),
            r.deep_view() =~= key.deep_view().take(i as int),
        decreases key@.len() - i,
    {
        let pair = (key[i].0.clone(), key[i].1.clone());
        let ghost before = r.deep_view();
        r.push(pair);
        assert(r.deep_view() =~= before.push(key.deep_view()[i as int]));
        i = i + 1;
        assert(r.deep_view() =~= key.deep_view().take(i as int));
    }
    r
}

/// Why a cache could not be built.
#[derive(Debug, PartialEq, Eq, Structural)]
pub enum CacheError {
    /// The stored text is not a list of (key, reply) pairs.
    Malformed,
}

impl Cache {
    /// The entries as a list of (key, reply) pairs.
    pub closed spec fn entries_view(&self) -> EntriesView {
        self.entries.deep_view()
    }

    /// The key-to-reply map the cache holds.
    pub closed spec fn view(&self) -> Map<KeyView, Seq<char>> {
        map_of(self.entries_view())
    }

    pub closed spec fn wf(&self) -> bool {
        &&& keys_unique(self.entries_view())
        &&& sorted_by_key(self.entries_view())
        &&& self.cache_file is None ==> !self.updated
    }

    /// The path of the file the cache is kept in, if any.
    pub closed spec fn file(&self) -> Option<Seq<char>> {
        match self.cache_file {
            Some(p) => Some(p@),
            None => None,
        }
    }

    /// Whether entries changed since the file was last written.
    pub closed spec fn is_updated(&self) -> bool {
        self.updated
    }

    /// Where `key` stands or would stand among the sorted keys, and whether
    /// it is there.
    fn position(&self, key: &CacheKey) -> (r: (usize, bool))
        requires
            self.wf(),
        ensures
            r.0 <= self.entries_view().len(),
            forall|j: int| 0 <= j < r.0 ==> #[trigger] key_cmp(self.entries_view()[j].0, key.deep_view()) < 0,
            r.1 == (r.0 < self.entries_view().len() && self.entries_view()[r.0 as int].0
                == key.deep_view()),
            !r.1 ==> forall|j: int|
                0 <= j < self.entries_view().len() ==> #[trigger] self.entries_view()[j].0
                    != key.deep_view(),
            !r.1 && r.0 < self.entries_view().len() ==> key_cmp(
                key.deep_view(),
                self.entries_view()[r.0 as int].0,
            ) < 0,
    {
        let ghost e = self.entries_view();
        let ghost k = key.deep_view();
        let mut i: usize = 0;
        while i < self.entries.len()
            invariant
                i <= e.len(),
                e == self.entries_view(),
                k == key.deep_view(),
                sorted_by_key(e),
                forall|j: int| 0 <= j < i ==> #[trigger] key_cmp(e[j].0, k) < 0,
            decreases e.len() - i,
        {
            let c = cmp_key(&self.entries[i].0, key);
            if c >= 0 {
                proof {
                    lemma_key_cmp(e[i as int].0, k);
                    if c != 0 {
                        assert forall|j: int| 0 <= j < e.len() implies #[trigger] e[j].0 != k by {
                            lemma_key_cmp(e[j].0, k);
                            if j > i {
                                assert(key_cmp(e[i as int].0, e[j].0) < 0);
                                lemma_key_cmp(e[i as int].0, e[j].0);
                            }
                        }
                    }
                }
                return (i, c == 0);
            }
            i = i + 1;
        }
        proof {
            assert forall|j: int| 0 <= j < e.len() implies #[trigger] e[j].0 != k by {
                lemma_key_cmp(e[j].0, k);
            }
        }
        (i, false)
    }

    /// The stored reply for exactly this key.
    pub fn get(&self, key: &CacheKey) -> (r: Option<String>)
        requires
            self.wf(),
        ensures
            r.deep_view() == self@.get(key.deep_view()),
    {
        let (i, found) = self.position(key);
        if found {
            proof {
                lemma_map_of_index(self.entries_view(), i as int);
            }
            Some(self.entries[i].1.clone())
        } else {
            proof {
                lemma_map_of_absent(self.entries_view(), key.deep_view());
            }
            None
        }
    }

    fn put(&mut self, key: CacheKey, value: String)
        requires
            old(self).wf(),
        ensures
            final(self).wf(),
            final(self)@ == old(self)@.insert(key.deep_view(), value@),
            final(self).cache_file == old(self).cache_file,
            final(self).updated == old(self).updated,
    {
        let (i, found) = self.position(&key);
        let ghost before = self.entries_view();
        let ghost k = key.deep_view();
        if found {
            proof {
                lemma_map_of_update(before, i as int, value@);
            }
            self.entries.set(i, (key, value));
            assert(self.entries_view() =~= before.update(i as int, (before[i as int].0, value@)));
            assert forall|a: int, b: int|
                0 <= a < b < self.entries_view().len() implies #[trigger] key_cmp(
                self.entries_view()[a].0,
                self.entries_view()[b].0,
            ) < 0 by {
                assert(self.entries_view()[a].0 == before[a].0);
                assert(self.entries_view()[b].0 == before[b].0);
            }
        } else {
            proof {
                lemma_map_of_insert(before, i as int, k, value@);
            }
            self.entries.insert(i, (key, value));
            let ghost after = self.entries_view();
            assert(after =~= before.insert(i as int, (k, value@)));
            assert forall|a: int, b: int| 0 <= a < b < after.len() implies #[trigger] key_cmp(
                after[a].0,
                after[b].0,
            ) < 0 by {
                if b < i {
                    assert(key_cmp(before[a].0, before[b].0) < 0);
                } else if b == i {
                    assert(key_cmp(before[a].0, k) < 0);
                } else if a < i {
                    assert(key_cmp(before[a].0, before[b - 1].0) < 0);
                } else if a == i {
                    if b - 1 > i {
                        assert(key_cmp(before[i as int].0, before[b - 1].0) < 0);
                        lemma_key_cmp_trans(k, before[i as int].0, before[b - 1].0);
                    }
                } else {
                    assert(key_cmp(before[a - 1].0, before[b - 1].0) < 0);
                }
            }
        }
        proof {
            lemma_sorted_unique(self.entries_view());
        }
    }

    /// Stores `value` under `key`, when the cache has a file to keep it in;
    /// a cache without a file is left as it is.
    pub fn insert(&mut self, key: CacheKey, value: String)
        requires
            old(self).wf(),
        ensures
            final(self).wf(),
            final(self).file() == old(self).file(),
            old(self).file() is Some ==> final(self)@ == old(self)@.insert(
                key.deep_view(),
                value@,
            ) && final(self).is_updated(),
            old(self).file() is None ==> final(self)@ == old(self)@ && final(self).is_updated()
                == old(self).is_updated(),
    {
        if self.cache_file.is_some() {
            self.updated = true;
            self.put(key, value);
        }
    }

    /// A cache kept in `cache_file` that holds the given pairs, a later pair
    /// for a key replacing an earlier one.
    pub fn from_entries(cache_file: Option<String>, entries: Vec<(CacheKey, String)>) -> (r: Cache)
        ensures
            r.wf(),
            r@ == map_of(entries.deep_view()),
            r.file() == (match cache_file {
                Some(p) => Some(p@),
                None => None::<Seq<char>>,
            }),
            !r.is_updated(),
    {
        let mut cache = Cache { cache_file, entries: Vec::new(), updated: false };
        assert(cache@ =~= map_of(entries.deep_view().take(0)));
        let mut i: usize = 0;
        while i < entries.len()
            invariant
                i <= entries@.len(),
                cache.wf(),
                cache@ == map_of(entries.deep_view().take(i as int)),
                cache.cache_file == cache_file,
                !cache.updated,
            decreases entries@.len() - i,
        {
            let key = clone_key(&entries[i].0);
            let value = entries[i].1.clone();
            cache.put(key, value);
            i = i + 1;
            assert(entries.deep_view().take(i as int).drop_last() =~= entries.deep_view().take(
                i - 1,
            ));
        }
        assert(entries.deep_view().take(i as int) =~= entries.deep_view());
        cache
    }

    /// A cache kept in `cache_file`, filled from `stored`, the text of that
    /// file if it exists. Without a file, or with no stored text, the cache
    /// starts empty.
    pub fn new(cache_file: Option<String>, stored: Option<&str>) -> (r: Result<Cache, CacheError>)
        ensures
            match r {
                Ok(c) => {
                    &&& c.wf()
                    &&& !c.is_updated()
                    &&& c.file() == (match cache_file {
                        Some(p) => Some(p@),
                        None => None::<Seq<char>>,
                    })
                    &&& match (cache_file, stored) {
                        (Some(_), Some(text)) => {
                            cache_entries_from_json(text@) matches Some(e) && c@ == map_of(e)
                        },
                        _ => c@ == Map::<KeyView, Seq<char>>::empty(),
                    }
                },
                Err(e) => {
                    &&& e == CacheError::Malformed
                    &&& cache_file is Some
                    &&& stored matches Some(text) && cache_entries_from_json(text@) is None
                },
            },
    {
        let entries: Vec<(CacheKey, String)> = match (&cache_file, stored) {
            (Some(_), Some(text)) => match entries_from_json(text) {
                Ok(v) => v,
                Err(_) => {
                    return Err(CacheError::Malformed);
                },
            },
            _ => Vec::new(),
        };
        proof {
            if !(cache_file is Some && stored is Some) {
                assert(entries.deep_view() =~= Seq::empty());
                assert(map_of(entries.deep_view()) =~= Map::empty());
            }
        }
        Ok(Cache::from_entries(cache_file, entries))
    }

    /// The cache's pairs, each key once, in the form they are written to the
    /// file.
    pub fn entries(&self) -> (r: Vec<(CacheKey, String)>)
        requires
            self.wf(),
        ensures
            r.deep_view() == self.entries_view(),
            keys_unique(r.deep_view()),
            sorted_by_key(r.deep_view()),
    {
        let mut r: Vec<(CacheKey, String)> = Vec::new();
        let mut i: usize = 0;
        while i < self.entries.len()
            invariant
                i <= self.entries@.len(),
                r.deep_view() =~= self.entries_view().take(i as int),
            decreases self.entries@.len() - i,
        {
            let pair = (clone_key(&self.entries[i].0), self.entries[i].1.clone());
            let ghost before = r.deep_view();
            r.push(pair);
            assert(r.deep_view() =~= before.push(self.entries_view()[i as int]));
            i = i + 1;
            assert(r.deep_view() =~= self.entries_view().take(i as int));
        }
        r
    }

    /// What must be written, as (path, text), for the file to hold the
    /// cache: something only when the cache has a file and changed since it
    /// was last written. Afterwards the cache counts as written.
    pub fn save(&mut self) -> (r: Option<(String, String)>)
        requires
            old(self).wf(),
        ensures
            final(self).wf(),
            final(self)@ == old(self)@,
            final(self).entries_view() == old(self).entries_view(),
            final(self).file() == old(self).file(),
            !final(self).is_updated(),
            old(self).file() is None ==> !old(self).is_updated(),
            keys_unique(old(self).entries_view()),
            sorted_by_key(old(self).entries_view()),
            match r {
                Some((path, text)) => old(self).file() == Some(path@) && old(self).is_updated()
                    && text@ == cache_json_of(old(self).entries_view())
                    && cache_entries_from_json(text@) == Some(old(self).entries_view()),
                None => old(self).file() is None || !old(self).is_updated(),
            },
    {
        match &self.cache_file {
            Some(path) => {
                if self.updated {
                    let text = match entries_to_json(&self.entries) {
                        Ok(text) => text,
                        Err(_) => String::new(),
                    };
                    let path = path.clone();
                    self.updated = false;
                    Some((path, text))
                } else {
                    None
                }
            },
            None => None,
        }
    }
}

/// A valid cache holds each key once, keeps its keys in ascending order,
/// and is never marked changed without a file to write.
pub proof fn lemma_cache_entries_ordered(cache: Cache)
    requires
        cache.wf(),
    ensures
        keys_unique(cache.entries_view()),
        sorted_by_key(cache.entries_view()),
        cache.file() is None ==> !cache.is_updated(),
{
}

/// Reloading a cache from the text `save` wrote for it gives back the same
/// key-to-reply map: that text reads back as the cache's own pairs, and a
/// cache built from those pairs, as `Cache::new` and `from_entries` build
/// it, has the map of the cache they came from.
pub proof fn lemma_reload_gives_same_map(cache: Cache, text: Seq<char>)
    requires
        cache.wf(),
        cache_entries_from_json(text) == Some(cache.entries_view()),
    ensures
        cache_entries_from_json(text) matches Some(e) && map_of(e) == cache@,
{
}

} // verus!
