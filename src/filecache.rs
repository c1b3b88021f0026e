use std::sync::Arc;
use vstd::prelude::*;

verus! {

/// A cached file: an immutable byte buffer shared by the cache and by every
/// response still reading it.
#[derive(Debug)]
pub struct CacheEntry {
    data: Arc<Vec<u8>>,
}

impl CacheEntry {
    pub closed spec fn view(&self) -> Seq<u8> {
        self.data@
    }

    /// Another handle on the same buffer.
    pub fn share(&self) -> (r: CacheEntry)
        ensures
            r@ == self@,
    {
        CacheEntry { data: self.data.clone() }
    }

    /// Length of the buffer in bytes.
    pub fn len(&self) -> (r: usize)
        ensures
            r == self@.len(),
    {
        self.data.len()
    }

    /// The buffer itself.
    pub fn bytes(&self) -> (r: &[u8])
        ensures
            r@ == self@,
    {
        self.data.as_slice()
    }
}

/// A change to a file that the filesystem reports.
#[derive(Debug, Clone, Copy, PartialEq, Eq)]
pub enum FsChange {
    Create,
    Modify,
    Remove,
    Access,
    Other,
}

/// Whether a change makes a cached copy of the file stale: a modification or a removal.
pub fn evicts(change: FsChange) -> (r: bool)
    ensures
        r == (change == FsChange::Modify || change == FsChange::Remove),
{
    match change {
        FsChange::Modify | FsChange::Remove => true,
        _ => false,
    }
}

/// Sum of the lengths of the cached buffers.
pub open spec fn sum_lens(es: Seq<(Seq<char>, Seq<u8>)>) -> nat
    decreases es.len(),
{
    if es.len() == 0 {
        0
    } else {
        sum_lens(es.drop_last()) + es.last().1.len()
    }
}

/// No path is cached twice.
pub open spec fn keys_unique(es: Seq<(Seq<char>, Seq<u8>)>) -> bool {
    forall|i: int, j: int| 0 <= i < j < es.len() ==> es[i].0 != es[j].0
}

/// The cached buffer for each path.
pub open spec fn as_map(es: Seq<(Seq<char>, Seq<u8>)>) -> Map<Seq<char>, Seq<u8>>
    decreases es.len(),
{
    if es.len() == 0 {
        Map::empty()
    } else {
        as_map(es.drop_last()).insert(es.last().0, es.last().1)
    }
}

/// Whether `size` more bytes fit under the ceiling, given `total` cached;
/// without a ceiling only the machine's word bounds the total.
pub open spec fn fits(limit: Option<usize>, total: nat, size: nat) -> bool {
    match limit {
        Some(l) => total + size <= l,
        None => total + size <= usize::MAX,
    }
}

/// The running total once the entry of `path`, if any, is dropped.
pub open spec fn base_total(m: Map<Seq<char>, Seq<u8>>, total: nat, path: Seq<char>) -> nat {
    if m.contains_key(path) && m[path].len() <= total {
        (total - m[path].len()) as nat
    } else {
        total
    }
}

/// Filling the cache for one path twice in a row (as concurrent fetches of
/// a path not yet cached are serialised) counts the path's bytes once: the
/// total afterwards is the total without the path plus the last buffer.
pub proof fn lemma_refill_counts_once(
    m: Map<Seq<char>, Seq<u8>>,
    total: nat,
    path: Seq<char>,
    d1: Seq<u8>,
    d2: Seq<u8>,
)
    requires
        m.contains_key(path) ==> m[path].len() <= total,
    ensures
        ({
            let m1 = m.remove(path).insert(path, d1);
            let t1 = base_total(m, total, path) + d1.len();
            &&& base_total(m1, t1, path) + d2.len() == base_total(m, total, path) + d2.len()
            &&& m1.remove(path).insert(path, d2) == m.remove(path).insert(path, d2)
        }),
{
    let m1 = m.remove(path).insert(path, d1);
    assert(m1.remove(path).insert(path, d2) == m.remove(path).insert(path, d2));
}

pub proof fn lemma_sum_lens_remove(es: Seq<(Seq<char>, Seq<u8>)>, i: int)
    requires
        0 <= i < es.len(),
    ensures
        sum_lens(es.remove(i)) + es[i].1.len() == sum_lens(es),
    decreases es.len(),
{
    if i < es.len() - 1 {
        assert(es.remove(i).drop_last() == es.drop_last().remove(i));
        assert(es.remove(i).last() == es.last());
        lemma_sum_lens_remove(es.drop_last(), i);
    } else {
        assert(es.remove(i) == es.drop_last());
    }
}

proof fn lemma_as_map_contains(es: Seq<(Seq<char>, Seq<u8>)>, k: Seq<char>)
    requires
        keys_unique(es),
    ensures
        as_map(es).contains_key(k) <==> exists|i: int| 0 <= i < es.len() && es[i].0 == k,
        forall|i: int| 0 <= i < es.len() && es[i].0 == k ==> as_map(es)[k] == es[i].1,
    decreases es.len(),
{
    if es.len() > 0 {
        let d = es.drop_last();
        assert(keys_unique(d)) by {
            assert forall|a: int, b: int| 0 <= a < b < d.len() implies d[a].0 != d[b].0 by {
                assert(d[a] == es[a] && d[b] == es[b]);
            }
        }
        lemma_as_map_contains(d, k);
        if exists|i: int| 0 <= i < es.len() && es[i].0 == k {
            let i = choose|i: int| 0 <= i < es.len() && es[i].0 == k;
            if i < es.len() - 1 {
                assert(d[i] == es[i]);
            }
        }
        if as_map(d).contains_key(k) {
            let i = choose|i: int| 0 <= i < d.len() && d[i].0 == k;
            assert(es[i].0 == k);
        }
        assert forall|i: int| 0 <= i < es.len() && es[i].0 == k implies as_map(es)[k] == es[i].1 by {
            if i < es.len() - 1 {
                assert(d[i] == es[i]);
            }
        }
    }
}

proof fn lemma_as_map_remove(es: Seq<(Seq<char>, Seq<u8>)>, i: int)
    requires
        keys_unique(es),
        0 <= i < es.len(),
    ensures
        as_map(es.remove(i)) == as_map(es).remove(es[i].0),
        keys_unique(es.remove(i)),
    decreases es.len(),
{
    let r = es.remove(i);
    assert(keys_unique(r)) by {
        assert forall|a: int, b: int| 0 <= a < b < r.len() implies r[a].0 != r[b].0 by {
            let a2 = if a < i { a } else { a + 1 };
            let b2 = if b < i { b } else { b + 1 };
            assert(r[a] == es[a2]);
            assert(r[b] == es[b2]);
        }
    }
    if i < es.len() - 1 {
        let d = es.drop_last();
        assert(r.drop_last() == d.remove(i));
        assert(r.last() == es.last());
        lemma_as_map_remove(d, i);
        assert(d[i] == es[i]);
        assert(es.last().0 != es[i].0);
        assert(as_map(r) == as_map(es).remove(es[i].0));
    } else {
        assert(r == es.drop_last());
        lemma_as_map_contains(r, es[i].0);
        assert(as_map(r) == as_map(es).remove(es[i].0));
    }
}

/// Whole-file buffers keyed by path, under an optional ceiling on their total size.
pub struct FileCache {
    entries: Vec<(String, CacheEntry)>,
    size_limit: Option<usize>,
    cur_size: usize,
}

impl FileCache {
    /// The cached paths with their buffers, in the order they were cached.
    pub closed spec fn entries(&self) -> Seq<(Seq<char>, Seq<u8>)> {
        self.entries@.map_values(|e: (String, CacheEntry)| (e.0@, e.1@))
    }

    /// The cached buffer of each path.
    pub open spec fn view(&self) -> Map<Seq<char>, Seq<u8>> {
        as_map(self.entries())
    }

    /// The running total of cached bytes.
    pub closed spec fn total(&self) -> nat {
        self.cur_size as nat
    }

    /// The ceiling; none means unbounded.
    pub closed spec fn limit(&self) -> Option<usize> {
        self.size_limit
    }

    /// The running total is the sum of the cached lengths, no path is cached
    /// twice, and the total is within the ceiling.
    pub open spec fn wf(&self) -> bool {
        &&& keys_unique(self.entries())
        &&& self.total() == sum_lens(self.entries())
        &&& fits(self.limit(), self.total(), 0)
    }

    pub fn new(size_limit: Option<usize>) -> (r: FileCache)
        ensures
            r.wf(),
            r.entries() == Seq::<(Seq<char>, Seq<u8>)>::empty(),
            r.total() == 0,
            r.limit() == size_limit,
    {
        let r = FileCache { entries: Vec::new(), size_limit, cur_size: 0 };
        assert(r.entries() == Seq::<(Seq<char>, Seq<u8>)>::empty());
        r
    }

    /// The running total of cached bytes.
    pub fn cached_size(&self) -> (r: usize)
        ensures
            r == self.total(),
    {
        self.cur_size
    }

    fn position(&self, path: &String) -> (r: Option<usize>)
        ensures
            r is None ==> forall|i: int| 0 <= i < self.entries().len() ==> self.entries()[i].0 != path@,
            r matches Some(i) ==> i < self.entries().len() && self.entries()[i as int].0 == path@,
    {
        let mut i: usize = 0;
        while i < self.entries.len()
            invariant
                i <= self.entries@.len(),
                forall|j: int| 0 <= j < i ==> self.entries()[j].0 != path@,
            decreases self.entries@.len() - i,
        {
            if self.entries[i].0 == *path {
                return Some(i);
            }
            i = i + 1;
        }
        None
    }

    /// A handle on the cached buffer of `path`, if any.
    pub fn get(&self, path: &str) -> (r: Option<CacheEntry>)
        requires
            self.wf(),
        ensures
            r is None <==> !self@.contains_key(path@),
            r matches Some(e) ==> e@ == self@[path@],
    {
        let p = String::from_str(path);
        let found = self.position(&p);
        proof {
            lemma_as_map_contains(self.entries(), path@);
        }
        match found {
            None => None,
            Some(i) => Some(self.entries[i].1.share()),
        }
    }

    /// Drops the entry of `path`, if any, and returns it; the running total
    /// goes down by its length. Nothing changes when `path` is not cached.
    pub fn remove(&mut self, path: &str) -> (r: Option<CacheEntry>)
        requires
            old(self).wf(),
        ensures
            final(self).wf(),
            final(self).limit() == old(self).limit(),
            final(self)@ == old(self)@.remove(path@),
            r is None <==> !old(self)@.contains_key(path@),
            r is None ==> final(self).entries() == old(self).entries() && final(self).total() == old(
                self,
            ).total(),
            r matches Some(e) ==> e@ == old(self)@[path@] && final(self).total() + e@.len() == old(
                self,
            ).total(),
    {
        let p = String::from_str(path);
        let found = self.position(&p);
        proof {
            lemma_as_map_contains(self.entries(), path@);
        }
        match found {
            None => {
                assert(old(self)@.remove(path@) == old(self)@);
                None
            },
            Some(i) => {
                let ghost es = self.entries();
                let (_, e) = self.entries.remove(i);
                proof {
                    assert(self.entries() == es.remove(i as int));
                    lemma_sum_lens_remove(es, i as int);
                    lemma_as_map_remove(es, i as int);
                }
                self.cur_size = self.cur_size - e.len();
                Some(e)
            },
        }
    }

    /// Readies the cache to take `size` bytes for `path`: drops a stale entry
    /// for it, then tells whether that many bytes fit under the ceiling.
    pub fn make_room(&mut self, path: &str, size: usize) -> (r: bool)
        requires
            old(self).wf(),
        ensures
            final(self).wf(),
            final(self).limit() == old(self).limit(),
            final(self)@ == old(self)@.remove(path@),
            !old(self)@.contains_key(path@) ==> final(self).entries() == old(self).entries(),
            r == fits(final(self).limit(), final(self).total(), size as nat),
    {
        let _ = self.remove(path);
        match self.size_limit {
            Some(l) => self.cur_size <= l && size <= l - self.cur_size,
            None => size <= usize::MAX - self.cur_size,
        }
    }

    /// Caches `data` as the contents of `path` when it fits under the ceiling
    /// once a stale entry for `path` is dropped, and returns the new entry;
    /// otherwise caches nothing and hands `data` back.
    pub fn insert(&mut self, path: &str, data: Vec<u8>) -> (r: Result<CacheEntry, Vec<u8>>)
        requires
            old(self).wf(),
        ensures
            final(self).wf(),
            final(self).limit() == old(self).limit(),
            ({
                let base = base_total(old(self)@, old(self).total(), path@);
                if fits(old(self).limit(), base, data@.len()) {
                    &&& r matches Ok(e) && e@ == data@
                    &&& final(self)@ == old(self)@.remove(path@).insert(path@, data@)
                    &&& final(self).total() == base + data@.len()
                } else {
                    &&& r == Err::<CacheEntry, Vec<u8>>(data)
                    &&& final(self)@ == old(self)@.remove(path@)
                    &&& final(self).total() == base
                }
            }),
            !old(self)@.contains_key(path@) && r is Err ==> final(self).entries() == old(
                self,
            ).entries(),
    {
        let removed = self.remove(path);
        let ghost mid = self.entries();
        proof {
            if old(self)@.contains_key(path@) {
                assert(removed is Some);
            }
        }
        let ok = match self.size_limit {
            Some(l) => self.cur_size <= l && data.len() <= l - self.cur_size,
            None => data.len() <= usize::MAX - self.cur_size,
        };
        if !ok {
            return Err(data);
        }
        let len = data.len();
        let entry = CacheEntry { data: Arc::new(data) };
        let handle = entry.share();
        self.entries.push((String::from_str(path), entry));
        proof {
            let es = self.entries();
            assert(es.drop_last() == mid);
            assert(es.last() == (path@, handle@));
            lemma_as_map_contains(mid, path@);
            assert(!as_map(mid).contains_key(path@));
            assert forall|a: int, b: int| 0 <= a < b < es.len() implies es[a].0 != es[b].0 by {
                assert(es[a] == mid[a]);
                if b < mid.len() {
                    assert(es[b] == mid[b]);
                }
            }
        }
        self.cur_size = self.cur_size + len;
        Ok(handle)
    }
}

} // verus!
