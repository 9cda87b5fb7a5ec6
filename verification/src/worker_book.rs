//! A pool worker's bookkeeping: which handler isolates it keeps warm, in
//! least-recently-used order and within its capacity, the order in which
//! they must be disposed, and its bounded history of request traces. The
//! worker thread owns the isolates themselves and carries out what these
//! decisions say.

use vstd::prelude::*;
use crate::text::string_views;
use std::collections::VecDeque;
use crate::pool_types::{RequestState, REQUEST_HISTORY_LIMIT};
use crate::islands::starts_with;
use crate::text::owned;

verus! {

/// The warm isolates of a worker, by handler key, with the source hash each
/// was built from: front is the least recently used. `creation_order` lists
/// every isolate in the order it was created (isolates must be disposed in
/// reverse creation order). `max_isolates` of 0 means no limit.
pub struct IsolateCache {
    pub lru: Vec<(String, u64)>,
    pub creation_order: Vec<String>,
    pub max_isolates: usize,
}

/// The outcome of looking an isolate up before running a request.
pub struct CacheLookup {
    /// A warm isolate built from the same source is there.
    pub hit: bool,
    /// On a miss, the least recently used isolate evicted to make room.
    pub evicted: Option<String>,
}

pub open spec fn entry_views(v: Seq<(String, u64)>) -> Seq<(Seq<char>, u64)> {
    v.map_values(|e: (String, u64)| (e.0@, e.1))
}

pub open spec fn keys(s: Seq<(Seq<char>, u64)>) -> Seq<Seq<char>> {
    s.map_values(|e: (Seq<char>, u64)| e.0)
}

/// `s` without the entries of key `k`, in order.
pub open spec fn without(s: Seq<(Seq<char>, u64)>, k: Seq<char>) -> Seq<(Seq<char>, u64)>
    decreases s.len(),
{
    if s.len() == 0 {
        s
    } else {
        let r = without(s.drop_last(), k);
        if s.last().0 == k {
            r
        } else {
            r.push(s.last())
        }
    }
}

/// The source hash the first entry of key `k` records.
pub open spec fn hash_of(s: Seq<(Seq<char>, u64)>, k: Seq<char>) -> Option<u64>
    decreases s.len(),
{
    if s.len() == 0 {
        None
    } else if s[0].0 == k {
        Some(s[0].1)
    } else {
        hash_of(s.drop_first(), k)
    }
}

impl IsolateCache {
    pub open spec fn view(&self) -> Seq<(Seq<char>, u64)> {
        entry_views(self.lru@)
    }

    /// Each handler has at most one isolate, every isolate is tracked for
    /// ordered disposal, and a bounded cache stays within its bound.
    pub open spec fn wf(&self) -> bool {
        &&& keys(self.view()).no_duplicates()
        &&& forall|i: int|
            0 <= i < self.lru@.len() ==> string_views(self.creation_order@).contains(
                #[trigger] self.lru@[i].0@,
            )
        &&& self.max_isolates > 0 ==> self.lru@.len() <= self.max_isolates
    }

    /// An empty cache holding at most `max_isolates` isolates (0: no limit).
    pub fn new(max_isolates: usize) -> (r: Self)
        ensures
            r.wf(),
            r.view().len() == 0,
            r.creation_order@.len() == 0,
            r.max_isolates == max_isolates,
    {
        IsolateCache { lru: Vec::new(), creation_order: Vec::new(), max_isolates }
    }
}

proof fn lemma_keys_push(s: Seq<(Seq<char>, u64)>, e: (Seq<char>, u64))
    ensures
        keys(s.push(e)) == keys(s).push(e.0),
{
    assert(keys(s.push(e)) =~= keys(s).push(e.0));
}

proof fn lemma_push_contains<A>(s: Seq<A>, x: A, y: A)
    ensures
        s.push(x).contains(y) <==> (s.contains(y) || x == y),
{
    if s.contains(y) {
        let i = choose|i: int| 0 <= i < s.len() && s[i] == y;
        assert(s.push(x)[i] == y);
    }
    if x == y {
        assert(s.push(x)[s.len() as int] == y);
    }
    if s.push(x).contains(y) {
        let i = choose|i: int| 0 <= i < s.push(x).len() && s.push(x)[i] == y;
        if i < s.len() {
            assert(s[i] == y);
        }
    }
}

proof fn lemma_push_no_duplicates<A>(s: Seq<A>, x: A)
    ensures
        s.push(x).no_duplicates() <==> (s.no_duplicates() && !s.contains(x)),
{
    let t = s.push(x);
    if t.no_duplicates() {
        assert forall|i: int, j: int| 0 <= i < s.len() && 0 <= j < s.len() && i != j implies s[i]
            != s[j] by {
            assert(t[i] == s[i] && t[j] == s[j]);
        }
        if s.contains(x) {
            let i = choose|i: int| 0 <= i < s.len() && s[i] == x;
            assert(t[i] == t[s.len() as int]);
        }
    }
    if s.no_duplicates() && !s.contains(x) {
        assert forall|i: int, j: int| 0 <= i < t.len() && 0 <= j < t.len() && i != j implies t[i]
            != t[j] by {
            if i < s.len() && j < s.len() {
                assert(t[i] == s[i] && t[j] == s[j]);
            } else if i < s.len() {
                assert(t[i] == s[i]);
            } else {
                assert(t[j] == s[j]);
            }
        }
    }
}

/// What removing a key does: the other entries stay, in order.
proof fn lemma_without(s: Seq<(Seq<char>, u64)>, k: Seq<char>)
    ensures
        forall|x: Seq<char>| #[trigger] keys(without(s, k)).contains(x) <==> (keys(s).contains(x) && x != k),
        forall|e: (Seq<char>, u64)| #[trigger] without(s, k).contains(e) ==> s.contains(e),
        keys(s).no_duplicates() ==> keys(without(s, k)).no_duplicates(),
        !keys(s).contains(k) ==> without(s, k) == s,
        keys(s).no_duplicates() && keys(s).contains(k) ==> without(s, k).len() + 1 == s.len(),
        without(s, k).len() <= s.len(),
    decreases s.len(),
{
    if s.len() > 0 {
        let p = s.drop_last();
        let l = s.last();
        lemma_without(p, k);
        assert(s == p.push(l));
        lemma_keys_push(p, l);
        let r = without(p, k);
        assert forall|x: Seq<char>| keys(without(s, k)).contains(x) <==> (keys(s).contains(x) && x
            != k) by {
            lemma_push_contains(keys(p), l.0, x);
            if l.0 != k {
                lemma_keys_push(r, l);
                lemma_push_contains(keys(r), l.0, x);
            }
        }
        assert forall|e: (Seq<char>, u64)| without(s, k).contains(e) implies s.contains(e) by {
            lemma_push_contains(p, l, e);
            if l.0 != k {
                lemma_push_contains(r, l, e);
            }
        }
        if keys(s).no_duplicates() {
            lemma_push_no_duplicates(keys(p), l.0);
            if l.0 != k {
                lemma_keys_push(r, l);
                lemma_push_no_duplicates(keys(r), l.0);
            }
        }
        if !keys(s).contains(k) {
            lemma_push_contains(keys(p), l.0, k);
        }
        if keys(s).no_duplicates() && keys(s).contains(k) {
            lemma_push_no_duplicates(keys(p), l.0);
            lemma_push_contains(keys(p), l.0, k);
        }
    }
}

proof fn lemma_hash_of(s: Seq<(Seq<char>, u64)>, k: Seq<char>)
    ensures
        hash_of(s, k) is Some <==> keys(s).contains(k),
        hash_of(s, k) matches Some(h) ==> s.contains((k, h)),
    decreases s.len(),
{
    if s.len() > 0 {
        lemma_hash_of(s.drop_first(), k);
        assert(keys(s) =~= seq![s[0].0] + keys(s.drop_first()));
        if s[0].0 == k {
            assert(keys(s)[0] == k);
        }
        if keys(s).contains(k) && s[0].0 != k {
            let i = choose|i: int| 0 <= i < keys(s).len() && keys(s)[i] == k;
            assert(keys(s.drop_first())[i - 1] == k);
        }
        if keys(s.drop_first()).contains(k) {
            let i = choose|i: int| 0 <= i < keys(s.drop_first()).len() && keys(s.drop_first())[i] == k;
            assert(keys(s)[i + 1] == k);
        }
        if hash_of(s, k) is Some {
            let h = hash_of(s, k)->0;
            if s[0].0 == k {
                assert(s[0] == (k, h));
            } else {
                let i = choose|i: int| 0 <= i < s.drop_first().len() && s.drop_first()[i] == (k, h);
                assert(s[i + 1] == (k, h));
            }
        }
    }
}

fn without_exec(v: &Vec<(String, u64)>, key: &String) -> (r: Vec<(String, u64)>)
    ensures
        entry_views(r@) == without(entry_views(v@), key@),
{
    let mut out: Vec<(String, u64)> = Vec::new();
    let mut i: usize = 0;
    while i < v.len()
        invariant
            i <= v@.len(),
            entry_views(out@) == without(entry_views(v@.take(i as int)), key@),
        decreases v@.len() - i,
    {
        let ghost before = out@;
        proof {
            assert(entry_views(v@.take(i + 1)).drop_last() =~= entry_views(v@.take(i as int)));
            assert(entry_views(v@.take(i + 1)).last() == (v@[i as int].0@, v@[i as int].1));
        }
        if v[i].0 != *key {
            out.push((v[i].0.clone(), v[i].1));
            proof {
                assert(entry_views(out@) =~= entry_views(before).push((v@[i as int].0@, v@[i as int].1)));
            }
        }
        i = i + 1;
    }
    proof {
        assert(v@.take(v@.len() as int) =~= v@);
    }
    out
}

fn find_hash(v: &Vec<(String, u64)>, key: &String) -> (r: Option<u64>)
    ensures
        r == hash_of(entry_views(v@), key@),
{
    let mut i: usize = 0;
    proof {
        assert(entry_views(v@).skip(0) =~= entry_views(v@));
    }
    while i < v.len()
        invariant
            i <= v@.len(),
            hash_of(entry_views(v@).skip(i as int), key@) == hash_of(entry_views(v@), key@),
        decreases v@.len() - i,
    {
        let ghost t = entry_views(v@).skip(i as int);
        proof {
            assert(t[0] == (v@[i as int].0@, v@[i as int].1));
            assert(t.drop_first() =~= entry_views(v@).skip(i + 1));
        }
        if v[i].0 == *key {
            return Some(v[i].1);
        }
        i = i + 1;
    }
    None
}

impl IsolateCache {
    /// Mark the isolate of `key` most recently used, when there is one.
    pub fn touch_lru(&mut self, key: &String)
        requires
            old(self).wf(),
        ensures
            final(self).wf(),
            final(self).creation_order@ == old(self).creation_order@,
            final(self).max_isolates == old(self).max_isolates,
            match hash_of(old(self).view(), key@) {
                Some(h) => final(self).view() == without(old(self).view(), key@).push((key@, h)),
                None => final(self).view() == old(self).view(),
            },
    {
        let ghost o = self.view();
        proof {
            lemma_without(o, key@);
            lemma_hash_of(o, key@);
        }
        match find_hash(&self.lru, key) {
            Some(h) => {
                let rest = without_exec(&self.lru, key);
                let mut next = rest;
                next.push((key.clone(), h));
                proof {
                    assert(entry_views(next@) =~= without(o, key@).push((key@, h)));
                    lemma_keys_push(without(o, key@), (key@, h));
                    lemma_push_no_duplicates(keys(without(o, key@)), key@);
                    assert forall|i: int| 0 <= i < next@.len() implies string_views(
                        self.creation_order@,
                    ).contains(#[trigger] next@[i].0@) by {
                        let e = entry_views(next@)[i];
                        assert(e == (next@[i].0@, next@[i].1));
                        if i < next@.len() - 1 {
                            assert(without(o, key@)[i] == e);
                            assert(without(o, key@).contains(e));
                            assert(o.contains(e));
                            let j = choose|j: int| 0 <= j < o.len() && o[j] == e;
                            assert(o[j] == (self.lru@[j].0@, self.lru@[j].1));
                            assert(string_views(self.creation_order@).contains(self.lru@[j].0@));
                        } else {
                            assert(keys(o).contains(key@));
                            let j = choose|j: int| 0 <= j < keys(o).len() && keys(o)[j] == key@;
                            assert(o[j] == (self.lru@[j].0@, self.lru@[j].1));
                            assert(string_views(self.creation_order@).contains(self.lru@[j].0@));
                        }
                    }
                }
                self.lru = next;
            },
            None => {},
        }
    }

    /// Evict the least recently used isolate, returning its key.
    pub fn evict_lru(&mut self) -> (r: Option<String>)
        requires
            old(self).wf(),
        ensures
            final(self).wf(),
            final(self).creation_order@ == old(self).creation_order@,
            final(self).max_isolates == old(self).max_isolates,
            old(self).view().len() == 0 ==> r is None && final(self).view() == old(self).view(),
            old(self).view().len() > 0 ==> (r matches Some(k) && k@ == old(self).view()[0].0
                && final(self).view() == old(self).view().drop_first()),
    {
        if self.lru.len() == 0 {
            return None;
        }
        let ghost o = self.view();
        let (k, _) = self.lru.remove(0);
        proof {
            assert(entry_views(self.lru@) =~= o.drop_first());
            assert(keys(o.drop_first()) =~= keys(o).drop_first());
            assert forall|i: int| 0 <= i < self.lru@.len() implies string_views(
                self.creation_order@,
            ).contains(#[trigger] self.lru@[i].0@) by {
                assert(self.lru@[i].0@ == o[i + 1].0);
                assert(old(self).lru@[i + 1].0@ == o[i + 1].0);
            }
        }
        Some(k)
    }

    /// Forget the isolate of `key` (killed, or timed out); whether there
    /// was one.
    pub fn forget(&mut self, key: &String) -> (r: bool)
        requires
            old(self).wf(),
        ensures
            final(self).wf(),
            final(self).creation_order@ == old(self).creation_order@,
            final(self).max_isolates == old(self).max_isolates,
            r == keys(old(self).view()).contains(key@),
            final(self).view() == without(old(self).view(), key@),
    {
        let ghost o = self.view();
        proof {
            lemma_without(o, key@);
            lemma_hash_of(o, key@);
        }
        let found = find_hash(&self.lru, key).is_some();
        let next = without_exec(&self.lru, key);
        proof {
            assert forall|i: int| 0 <= i < next@.len() implies string_views(
                self.creation_order@,
            ).contains(#[trigger] next@[i].0@) by {
                let e = entry_views(next@)[i];
                assert(e == (next@[i].0@, next@[i].1));
                assert(without(o, key@)[i] == e);
                assert(without(o, key@).contains(e));
                assert(o.contains(e));
                let j = choose|j: int| 0 <= j < o.len() && o[j] == e;
                assert(o[j] == (self.lru@[j].0@, self.lru@[j].1));
                assert(string_views(self.creation_order@).contains(self.lru@[j].0@));
            }
        }
        self.lru = next;
        found
    }

    /// Look up the isolate for `key` before a request built from source
    /// `hash`: a hit marks it most recently used; a miss drops any stale
    /// isolate of `key` and, when the cache is full, evicts the least
    /// recently used one to make room.
    pub fn lookup(&mut self, key: &String, hash: u64) -> (r: CacheLookup)
        requires
            old(self).wf(),
        ensures
            final(self).wf(),
            final(self).creation_order@ == old(self).creation_order@,
            final(self).max_isolates == old(self).max_isolates,
            r.hit == (hash_of(old(self).view(), key@) == Some(hash)),
            r.hit ==> r.evicted is None && final(self).view() == without(old(self).view(), key@).push(
                (key@, hash),
            ),
            !r.hit ==> {
                let base = without(old(self).view(), key@);
                if old(self).max_isolates > 0 && base.len() >= old(self).max_isolates {
                    r.evicted matches Some(e) && e@ == base[0].0 && final(self).view()
                        == base.drop_first()
                } else {
                    r.evicted is None && final(self).view() == base
                }
            },
            !r.hit ==> !keys(final(self).view()).contains(key@),
            !r.hit && final(self).max_isolates > 0 ==> final(self).view().len()
                < final(self).max_isolates,
    {
        let ghost o = self.view();
        proof {
            lemma_hash_of(o, key@);
        }
        match find_hash(&self.lru, key) {
            Some(h) => {
                if h == hash {
                    self.touch_lru(key);
                    return CacheLookup { hit: true, evicted: None };
                }
            },
            None => {},
        }
        self.forget(key);
        let ghost base = self.view();
        proof {
            lemma_without(o, key@);
        }
        let evicted = if self.max_isolates > 0 && self.lru.len() >= self.max_isolates {
            self.evict_lru()
        } else {
            None
        };
        proof {
            if evicted is Some {
                assert(keys(base.drop_first()) =~= keys(base).drop_first());
                if keys(base.drop_first()).contains(key@) {
                    let i = choose|i: int| 0 <= i < keys(base.drop_first()).len() && keys(base.drop_first())[i] == key@;
                    assert(keys(base)[i + 1] == key@);
                }
            }
        }
        CacheLookup { hit: false, evicted }
    }

    /// Record a newly created isolate for `key`, built from source `hash`,
    /// as most recently used and last created.
    pub fn insert_created(&mut self, key: String, hash: u64)
        requires
            old(self).wf(),
            !keys(old(self).view()).contains(key@),
            old(self).max_isolates == 0 || old(self).view().len() < old(self).max_isolates,
        ensures
            final(self).wf(),
            final(self).view() == old(self).view().push((key@, hash)),
            string_views(final(self).creation_order@) == string_views(old(self).creation_order@).push(
                key@,
            ),
            final(self).max_isolates == old(self).max_isolates,
    {
        let ghost o = self.view();
        let ghost oc = self.creation_order@;
        self.creation_order.push(key.clone());
        self.lru.push((key, hash));
        proof {
            assert(self.view() =~= o.push((key@, hash)));
            lemma_keys_push(o, (key@, hash));
            lemma_push_no_duplicates(keys(o), key@);
            assert(string_views(self.creation_order@) =~= string_views(oc).push(key@));
            assert forall|i: int| 0 <= i < self.lru@.len() implies string_views(
                self.creation_order@,
            ).contains(#[trigger] self.lru@[i].0@) by {
                lemma_push_contains(string_views(oc), key@, self.lru@[i].0@);
                if i < o.len() {
                    assert(self.lru@[i] == old(self).lru@[i]);
                }
            }
        }
    }

    /// Dispose of every isolate: the keys in the order to drop their
    /// isolates, last created first. Every cached isolate is among them.
    pub fn dispose_all(&mut self) -> (r: Vec<String>)
        requires
            old(self).wf(),
        ensures
            final(self).wf(),
            final(self).view().len() == 0,
            final(self).creation_order@.len() == 0,
            final(self).max_isolates == old(self).max_isolates,
            string_views(r@) == string_views(old(self).creation_order@).reverse(),
            forall|k: Seq<char>| keys(old(self).view()).contains(k) ==> string_views(r@).contains(k),
    {
        let ghost oc = string_views(self.creation_order@);
        let ghost o = self.view();
        let mut order: Vec<String> = Vec::new();
        while self.creation_order.len() > 0
            invariant
                self.max_isolates == old(self).max_isolates,
                self.lru@ == old(self).lru@,
                string_views(self.creation_order@) == oc.take(self.creation_order@.len() as int),
                self.creation_order@.len() <= oc.len(),
                string_views(order@) == oc.reverse().take(oc.len() - self.creation_order@.len()),
            decreases self.creation_order@.len(),
        {
            let ghost n = self.creation_order@.len();
            let ghost before = order@;
            let ghost cb = self.creation_order@;
            let k = self.creation_order.pop().unwrap();
            order.push(k);
            proof {
                assert(k == cb[n - 1]);
                assert(string_views(cb)[n - 1] == cb[n - 1]@);
                assert(string_views(order@) =~= string_views(before).push(k@));
                assert(string_views(self.creation_order@) =~= oc.take(n - 1));
                assert(oc.take(n as int)[n - 1] == oc[n - 1]);
                assert(oc.reverse()[oc.len() - n] == oc[n - 1]);
                assert(string_views(order@) =~= oc.reverse().take(oc.len() - n + 1));
            }
        }
        self.lru = Vec::new();
        proof {
            assert(string_views(order@) =~= oc.reverse());
            assert forall|k: Seq<char>| keys(o).contains(k) implies string_views(order@).contains(k) by {
                let i = choose|i: int| 0 <= i < keys(o).len() && keys(o)[i] == k;
                assert(old(self).lru@[i].0@ == k);
                assert(oc.contains(k));
                let j = choose|j: int| 0 <= j < oc.len() && oc[j] == k;
                assert(oc.reverse()[oc.len() - 1 - j] == k);
            }
            assert(entry_views(self.lru@) =~= Seq::<(Seq<char>, u64)>::empty());
        }
        order
    }
}

/// `s` without the entries whose key starts with `p`, in order.
pub open spec fn unprefixed(s: Seq<(Seq<char>, u64)>, p: Seq<char>) -> Seq<(Seq<char>, u64)>
    decreases s.len(),
{
    if s.len() == 0 {
        s
    } else {
        let r = unprefixed(s.drop_last(), p);
        if starts_with(s.last().0, p) {
            r
        } else {
            r.push(s.last())
        }
    }
}

/// The keys of `s` that start with `p`, in order.
pub open spec fn prefixed_keys(s: Seq<(Seq<char>, u64)>, p: Seq<char>) -> Seq<Seq<char>>
    decreases s.len(),
{
    if s.len() == 0 {
        Seq::empty()
    } else {
        let r = prefixed_keys(s.drop_last(), p);
        if starts_with(s.last().0, p) {
            r.push(s.last().0)
        } else {
            r
        }
    }
}

proof fn lemma_unprefixed(s: Seq<(Seq<char>, u64)>, p: Seq<char>)
    ensures
        forall|x: Seq<char>| #[trigger] keys(unprefixed(s, p)).contains(x) <==> (keys(s).contains(x)
            && !starts_with(x, p)),
        forall|x: Seq<char>| #[trigger] prefixed_keys(s, p).contains(x) <==> (keys(s).contains(x)
            && starts_with(x, p)),
        forall|e: (Seq<char>, u64)| #[trigger] unprefixed(s, p).contains(e) ==> s.contains(e),
        keys(s).no_duplicates() ==> keys(unprefixed(s, p)).no_duplicates(),
        unprefixed(s, p).len() <= s.len(),
    decreases s.len(),
{
    if s.len() > 0 {
        let q = s.drop_last();
        let l = s.last();
        lemma_unprefixed(q, p);
        assert(s == q.push(l));
        lemma_keys_push(q, l);
        let r = unprefixed(q, p);
        assert forall|x: Seq<char>| #[trigger] keys(unprefixed(s, p)).contains(x) <==> (keys(
            s,
        ).contains(x) && !starts_with(x, p)) by {
            lemma_push_contains(keys(q), l.0, x);
            if !starts_with(l.0, p) {
                lemma_keys_push(r, l);
                lemma_push_contains(keys(r), l.0, x);
            }
        }
        assert forall|x: Seq<char>| #[trigger] prefixed_keys(s, p).contains(x) <==> (keys(
            s,
        ).contains(x) && starts_with(x, p)) by {
            lemma_push_contains(keys(q), l.0, x);
            if starts_with(l.0, p) {
                lemma_push_contains(prefixed_keys(q, p), l.0, x);
            }
        }
        assert forall|e: (Seq<char>, u64)| #[trigger] unprefixed(s, p).contains(e) implies s.contains(
            e,
        ) by {
            lemma_push_contains(q, l, e);
            if !starts_with(l.0, p) {
                lemma_push_contains(r, l, e);
            }
        }
        if keys(s).no_duplicates() {
            lemma_push_no_duplicates(keys(q), l.0);
            if !starts_with(l.0, p) {
                lemma_keys_push(r, l);
                lemma_push_no_duplicates(keys(r), l.0);
            }
        }
    }
}

impl IsolateCache {
    /// Evict every isolate whose handler key starts with `prefix`: their
    /// keys, least recently used first.
    pub fn evict_by_prefix(&mut self, prefix: &str) -> (r: Vec<String>)
        requires
            old(self).wf(),
        ensures
            final(self).wf(),
            final(self).creation_order@ == old(self).creation_order@,
            final(self).max_isolates == old(self).max_isolates,
            string_views(r@) == prefixed_keys(old(self).view(), prefix@),
            final(self).view() == unprefixed(old(self).view(), prefix@),
    {
        let ghost o = self.view();
        proof {
            lemma_unprefixed(o, prefix@);
        }
        let pv = crate::text::chars_of(prefix);
        let mut kept: Vec<(String, u64)> = Vec::new();
        let mut removed: Vec<String> = Vec::new();
        let mut i: usize = 0;
        while i < self.lru.len()
            invariant
                i <= self.lru@.len(),
                pv@ == prefix@,
                self.lru@ == old(self).lru@,
                o == entry_views(self.lru@),
                entry_views(kept@) == unprefixed(o.take(i as int), prefix@),
                string_views(removed@) == prefixed_keys(o.take(i as int), prefix@),
            decreases self.lru@.len() - i,
        {
            let ghost kb = kept@;
            let ghost rb = removed@;
            proof {
                assert(o.take(i + 1).drop_last() =~= o.take(i as int));
                assert(o.take(i + 1).last() == (self.lru@[i as int].0@, self.lru@[i as int].1));
            }
            let kv = crate::text::chars_of(self.lru[i].0.as_str());
            if crate::install_rules::starts_with_text(&kv, &pv) {
                removed.push(self.lru[i].0.clone());
                proof {
                    assert(string_views(removed@) =~= string_views(rb).push(self.lru@[i as int].0@));
                }
            } else {
                kept.push((self.lru[i].0.clone(), self.lru[i].1));
                proof {
                    assert(entry_views(kept@) =~= entry_views(kb).push(
                        (self.lru@[i as int].0@, self.lru@[i as int].1),
                    ));
                }
            }
            i = i + 1;
        }
        proof {
            assert(o.take(o.len() as int) =~= o);
            assert forall|j: int| 0 <= j < kept@.len() implies string_views(
                self.creation_order@,
            ).contains(#[trigger] kept@[j].0@) by {
                let e = entry_views(kept@)[j];
                assert(e == (kept@[j].0@, kept@[j].1));
                assert(unprefixed(o, prefix@)[j] == e);
                assert(unprefixed(o, prefix@).contains(e));
                assert(o.contains(e));
                let m = choose|m: int| 0 <= m < o.len() && o[m] == e;
                assert(o[m] == (self.lru@[m].0@, self.lru@[m].1));
                assert(string_views(self.creation_order@).contains(self.lru@[m].0@));
            }
        }
        self.lru = kept;
        removed
    }
}

/// A control command to a worker, without its reply channel.
pub enum ControlCommand {
    Shutdown,
    EvictAll,
    KillIsolate { key: String },
    EvictByPrefix { prefix: String },
    GetIsolateMetrics { key: String },
    GetAllMetrics,
    GetRecentRequests,
    DrainRequestHistory { cutoff_ms: u64 },
}

/// What the worker does for a control command.
pub enum ControlAction<T> {
    /// Drop these isolates in this order, clear the code cache, confirm,
    /// and stop the worker.
    Shutdown { dispose: Vec<String> },
    /// Drop these isolates in this order, clear the code cache, and reply
    /// how many isolates there were.
    EvictAll { dispose: Vec<String>, count: usize },
    /// Drop the isolate of `key` when the reply is `Ok`, and send the reply.
    Kill { key: String, reply: Result<(), String> },
    /// Drop these isolates and reply how many there were.
    EvictByPrefix { removed: Vec<String> },
    /// Reply with the metrics of the isolate of `key`, if there is one.
    IsolateMetrics { key: String },
    /// Reply with the metrics of every isolate.
    AllMetrics,
    /// Reply with a copy of the request history.
    RecentRequests,
    /// Reply with these drained traces.
    Drained { traces: Vec<RequestTrace<T>> },
}

// ---- request history ---------------------------------------------------------

/// One traced request. `op_timings` holds the per-op timing summaries,
/// which the history only carries.
pub struct RequestTrace<T> {
    pub id: String,
    pub handler_name: String,
    pub isolate_id: String,
    pub worker_id: usize,
    pub started_at_ms: u64,
    pub state: RequestState,
    pub op_timings: T,
    pub queue_wait_ms: u64,
    pub warm_time_us: u64,
    pub total_time_us: u64,
    pub heap_before_bytes: usize,
    pub heap_after_bytes: usize,
    pub heap_delta_bytes: i64,
    pub response_status: Option<u16>,
    pub response_body: Option<String>,
}

/// The worker's recent request traces, oldest first, at most
/// `REQUEST_HISTORY_LIMIT` of them.
pub struct RequestHistory<T> {
    pub traces: VecDeque<RequestTrace<T>>,
}

/// How many traces from the front are finished and started no later than
/// `cutoff_ms`.
pub open spec fn drain_len<T>(s: Seq<RequestTrace<T>>, cutoff_ms: u64) -> nat
    decreases s.len(),
{
    if s.len() == 0 || s[0].started_at_ms > cutoff_ms || s[0].state is Executing {
        0
    } else {
        1 + drain_len(s.drop_first(), cutoff_ms)
    }
}

/// The index of the first trace with id `id`.
pub open spec fn trace_index<T>(s: Seq<RequestTrace<T>>, id: Seq<char>, i: int) -> Option<int>
    decreases s.len() - i,
{
    if i < 0 || i >= s.len() {
        None
    } else if s[i].id@ == id {
        Some(i)
    } else {
        trace_index(s, id, i + 1)
    }
}

/// What the worker learned about a request after running it.
pub struct TraceUpdate<T> {
    pub state: RequestState,
    pub op_timings: T,
    pub warm_time_us: u64,
    pub total_time_us: u64,
    pub heap_before_bytes: usize,
    pub heap_after_bytes: usize,
    pub response_status: Option<u16>,
    pub response_body: Option<String>,
}

/// `t` with what the update says; the heap delta is after minus before.
pub open spec fn updated_trace<T>(t: RequestTrace<T>, u: TraceUpdate<T>) -> RequestTrace<T> {
    RequestTrace {
        state: u.state,
        op_timings: u.op_timings,
        warm_time_us: u.warm_time_us,
        total_time_us: u.total_time_us,
        heap_before_bytes: u.heap_before_bytes,
        heap_after_bytes: u.heap_after_bytes,
        heap_delta_bytes: (u.heap_after_bytes - u.heap_before_bytes) as i64,
        response_status: u.response_status,
        response_body: u.response_body,
        ..t
    }
}

impl<T> RequestHistory<T> {
    pub open spec fn wf(&self) -> bool {
        self.traces@.len() <= REQUEST_HISTORY_LIMIT
    }

    pub fn new() -> (r: Self)
        ensures
            r.wf(),
            r.traces@.len() == 0,
    {
        RequestHistory { traces: VecDeque::new() }
    }

    /// Append a trace, dropping the oldest beyond the limit.
    pub fn record(&mut self, trace: RequestTrace<T>)
        requires
            old(self).wf(),
        ensures
            final(self).wf(),
            old(self).traces@.len() < REQUEST_HISTORY_LIMIT ==> final(self).traces@ == old(
                self,
            ).traces@.push(trace),
            old(self).traces@.len() == REQUEST_HISTORY_LIMIT ==> final(self).traces@ == old(
                self,
            ).traces@.push(trace).drop_first(),
    {
        self.traces.push_back(trace);
        if self.traces.len() > REQUEST_HISTORY_LIMIT {
            let _ = self.traces.pop_front();
        }
    }

    /// Remove and return the oldest traces that are finished and started
    /// no later than `cutoff_ms`, stopping at the first that is not.
    pub fn drain_before(&mut self, cutoff_ms: u64) -> (r: Vec<RequestTrace<T>>)
        requires
            old(self).wf(),
        ensures
            final(self).wf(),
            r@ == old(self).traces@.take(drain_len(old(self).traces@, cutoff_ms) as int),
            final(self).traces@ == old(self).traces@.skip(
                drain_len(old(self).traces@, cutoff_ms) as int,
            ),
    {
        let ghost o = self.traces@;
        let mut drained: Vec<RequestTrace<T>> = Vec::new();
        proof {
            assert(o.skip(0) =~= o);
        }
        loop
            invariant
                drained@.len() <= o.len(),
                self.traces@ == o.skip(drained@.len() as int),
                drained@ == o.take(drained@.len() as int),
                drain_len(o, cutoff_ms) == drained@.len() + drain_len(self.traces@, cutoff_ms),
            ensures
                drain_len(self.traces@, cutoff_ms) == 0,
                self.traces@ == o.skip(drained@.len() as int),
                drained@ == o.take(drained@.len() as int),
                drain_len(o, cutoff_ms) == drained@.len(),
            decreases self.traces@.len(),
        {
            if self.traces.len() == 0 {
                break;
            }
            let stop = self.traces[0].started_at_ms > cutoff_ms || match self.traces[0].state {
                RequestState::Executing => true,
                _ => false,
            };
            if stop {
                break;
            }
            let ghost n = drained@.len();
            let t = self.traces.pop_front().unwrap();
            drained.push(t);
            proof {
                assert(self.traces@ =~= o.skip(n + 1 as int));
                assert(o.skip(n as int)[0] == o[n as int]);
                assert(drained@ =~= o.take(n + 1 as int));
            }
        }
        drained
    }

    /// Record what running request `id` produced on its trace, if the
    /// history still holds it.
    pub fn update(&mut self, id: &str, update: TraceUpdate<T>)
        requires
            old(self).wf(),
            update.heap_before_bytes <= i64::MAX,
            update.heap_after_bytes <= i64::MAX,
        ensures
            final(self).wf(),
            match trace_index(old(self).traces@, id@, 0) {
                Some(k) => final(self).traces@ == old(self).traces@.update(
                    k,
                    updated_trace(old(self).traces@[k], update),
                ),
                None => final(self).traces@ == old(self).traces@,
            },
    {
        let wanted = owned(id);
        let mut i: usize = 0;
        while i < self.traces.len()
            invariant
                i <= self.traces@.len(),
                wanted@ == id@,
                self.traces@ == old(self).traces@,
                self.traces@.len() <= REQUEST_HISTORY_LIMIT,
                update.heap_before_bytes <= i64::MAX,
                update.heap_after_bytes <= i64::MAX,
                trace_index(self.traces@, id@, i as int) == trace_index(self.traces@, id@, 0),
            decreases self.traces@.len() - i,
        {
            if self.traces[i].id == wanted {
                let ghost o = self.traces@;
                let t = self.traces.remove(i).unwrap();
                let before = update.heap_before_bytes as i64;
                let after = update.heap_after_bytes as i64;
                let next = RequestTrace {
                    state: update.state,
                    op_timings: update.op_timings,
                    warm_time_us: update.warm_time_us,
                    total_time_us: update.total_time_us,
                    heap_before_bytes: update.heap_before_bytes,
                    heap_after_bytes: update.heap_after_bytes,
                    heap_delta_bytes: after - before,
                    response_status: update.response_status,
                    response_body: update.response_body,
                    ..t
                };
                self.traces.insert(i, next);
                proof {
                    assert(self.traces@ =~= o.update(i as int, next));
                    assert(self.traces@.len() == o.len());
                }
                return;
            }
            i = i + 1;
        }
    }
}


/// A worker's bookkeeping: its isolate cache and its request history.
pub struct WorkerBook<T> {
    pub cache: IsolateCache,
    pub history: RequestHistory<T>,
}

impl<T> WorkerBook<T> {
    pub open spec fn wf(&self) -> bool {
        self.cache.wf() && self.history.wf()
    }

    pub fn new(max_isolates: usize) -> (r: Self)
        ensures
            r.wf(),
            r.cache.view().len() == 0,
            r.cache.creation_order@.len() == 0,
            r.cache.max_isolates == max_isolates,
            r.history.traces@.len() == 0,
    {
        WorkerBook { cache: IsolateCache::new(max_isolates), history: RequestHistory::new() }
    }

    /// Decide a control command: update the bookkeeping and say what the
    /// worker does and replies. Only `Shutdown` stops the worker. Disposing
    /// every isolate empties the creation order; killing or evicting by
    /// prefix leaves it as it is (a later disposal passes over keys that
    /// are no longer cached).
    pub fn handle_control(&mut self, cmd: ControlCommand) -> (r: ControlAction<T>)
        requires
            old(self).wf(),
        ensures
            final(self).wf(),
            final(self).cache.max_isolates == old(self).cache.max_isolates,
            match cmd {
                ControlCommand::Shutdown => r matches ControlAction::Shutdown { dispose }
                    && string_views(dispose@) == string_views(old(self).cache.creation_order@).reverse()
                    && final(self).cache.view().len() == 0
                    && final(self).cache.creation_order@.len() == 0
                    && final(self).history == old(self).history,
                ControlCommand::EvictAll => r matches ControlAction::EvictAll { dispose, count }
                    && count == old(self).cache.view().len()
                    && string_views(dispose@) == string_views(old(self).cache.creation_order@).reverse()
                    && final(self).cache.view().len() == 0
                    && final(self).cache.creation_order@.len() == 0
                    && final(self).history == old(self).history,
                ControlCommand::KillIsolate { key } => r matches ControlAction::Kill { key: k, reply }
                    && k@ == key@
                    && (reply is Ok <==> keys(old(self).cache.view()).contains(key@))
                    && (reply matches Err(e) ==> e@ == "Isolate not found"@)
                    && final(self).cache.view() == without(old(self).cache.view(), key@)
                    && final(self).cache.creation_order@ == old(self).cache.creation_order@
                    && final(self).history == old(self).history,
                ControlCommand::EvictByPrefix { prefix } => r matches ControlAction::EvictByPrefix {
                    removed,
                } && string_views(removed@) == prefixed_keys(old(self).cache.view(), prefix@)
                    && final(self).cache.view() == unprefixed(old(self).cache.view(), prefix@)
                    && final(self).cache.creation_order@ == old(self).cache.creation_order@
                    && final(self).history == old(self).history,
                ControlCommand::GetIsolateMetrics { key } => r matches ControlAction::IsolateMetrics {
                    key: k,
                } && k@ == key@ && *final(self) == *old(self),
                ControlCommand::GetAllMetrics => r is AllMetrics && *final(self) == *old(self),
                ControlCommand::GetRecentRequests => r is RecentRequests && *final(self) == *old(self),
                ControlCommand::DrainRequestHistory { cutoff_ms } => r matches ControlAction::Drained {
                    traces,
                } && traces@ == old(self).history.traces@.take(
                    drain_len(old(self).history.traces@, cutoff_ms) as int,
                ) && final(self).history.traces@ == old(self).history.traces@.skip(
                    drain_len(old(self).history.traces@, cutoff_ms) as int,
                ) && final(self).cache == old(self).cache,
            },
    {
        match cmd {
            ControlCommand::Shutdown => {
                let dispose = self.cache.dispose_all();
                ControlAction::Shutdown { dispose }
            },
            ControlCommand::EvictAll => {
                let count = self.cache.lru.len();
                let dispose = self.cache.dispose_all();
                ControlAction::EvictAll { dispose, count }
            },
            ControlCommand::KillIsolate { key } => {
                let found = self.cache.forget(&key);
                let reply = if found {
                    Ok(())
                } else {
                    Err(owned("Isolate not found"))
                };
                proof {
                    reveal_strlit("Isolate not found");
                }
                ControlAction::Kill { key, reply }
            },
            ControlCommand::EvictByPrefix { prefix } => {
                let removed = self.cache.evict_by_prefix(prefix.as_str());
                ControlAction::EvictByPrefix { removed }
            },
            ControlCommand::GetIsolateMetrics { key } => ControlAction::IsolateMetrics { key },
            ControlCommand::GetAllMetrics => ControlAction::AllMetrics,
            ControlCommand::GetRecentRequests => ControlAction::RecentRequests,
            ControlCommand::DrainRequestHistory { cutoff_ms } => {
                let traces = self.history.drain_before(cutoff_ms);
                ControlAction::Drained { traces }
            },
        }
    }
}


/// Draining the history loses nothing: the drained traces followed by the
/// ones kept are the history as it was, and every drained trace is
/// finished and started no later than the cutoff.
pub proof fn law_drain_loses_no_trace<T>(s: Seq<RequestTrace<T>>, cutoff_ms: u64)
    ensures
        s.take(drain_len(s, cutoff_ms) as int) + s.skip(drain_len(s, cutoff_ms) as int) == s,
        forall|i: int|
            0 <= i < drain_len(s, cutoff_ms) ==> (#[trigger] s[i]).started_at_ms <= cutoff_ms
                && !(s[i].state is Executing),
    decreases s.len(),
{
    lemma_drain_len_bound(s, cutoff_ms);
    assert(s.take(drain_len(s, cutoff_ms) as int) + s.skip(drain_len(s, cutoff_ms) as int) =~= s);
    if s.len() > 0 && drain_len(s, cutoff_ms) > 0 {
        law_drain_loses_no_trace(s.drop_first(), cutoff_ms);
        assert forall|i: int| 0 <= i < drain_len(s, cutoff_ms) implies (#[trigger] s[i]).started_at_ms
            <= cutoff_ms && !(s[i].state is Executing) by {
            if i > 0 {
                assert(s[i] == s.drop_first()[i - 1]);
            }
        }
    }
}

proof fn lemma_drain_len_bound<T>(s: Seq<RequestTrace<T>>, cutoff_ms: u64)
    ensures
        drain_len(s, cutoff_ms) <= s.len(),
    decreases s.len(),
{
    if s.len() > 0 {
        lemma_drain_len_bound(s.drop_first(), cutoff_ms);
    }
}

/// Marking an isolate used keeps the same isolates, each with the source
/// hash it had.
pub proof fn law_touch_keeps_the_isolates(s: Seq<(Seq<char>, u64)>, k: Seq<char>)
    requires
        keys(s).no_duplicates(),
        hash_of(s, k) is Some,
    ensures
        ({
            let t = without(s, k).push((k, hash_of(s, k)->0));
            &&& t.len() == s.len()
            &&& keys(t).no_duplicates()
            &&& forall|e: (Seq<char>, u64)| #[trigger] t.contains(e) ==> s.contains(e)
            &&& forall|x: Seq<char>| #[trigger] keys(t).contains(x) <==> keys(s).contains(x)
        }),
{
    let h = hash_of(s, k)->0;
    let w = without(s, k);
    let t = w.push((k, h));
    lemma_without(s, k);
    lemma_hash_of(s, k);
    lemma_keys_push(w, (k, h));
    lemma_push_no_duplicates(keys(w), k);
    assert forall|e: (Seq<char>, u64)| #[trigger] t.contains(e) implies s.contains(e) by {
        lemma_push_contains(w, (k, h), e);
    }
    assert forall|x: Seq<char>| #[trigger] keys(t).contains(x) <==> keys(s).contains(x) by {
        lemma_push_contains(keys(w), k, x);
    }
}


// ---- settling a request --------------------------------------------------------

/// What a worker answers for a request, besides the handler's result.
pub struct ResponseHead {
    pub success: bool,
    pub error: Option<String>,
    pub warm_time_us: u64,
    pub total_time_us: u64,
    pub cache_hit: bool,
}

/// How running a handler ended; a failure's message has already been
/// explained against the handler's code.
pub enum RunOutcome {
    Completed,
    TimedOut,
    Failed { error: String },
}

/// A request the security policy refused (`check` is the policy's verdict
/// on the handler's code) fails without running; `None` when it may run.
pub fn policy_refusal(check: Result<(), String>, elapsed_us: u64) -> (r: Option<ResponseHead>)
    ensures
        match check {
            Ok(()) => r is None,
            Err(e) => r matches Some(h) && !h.success && (h.error matches Some(m) && m@ == e@)
                && h.warm_time_us == 0 && h.total_time_us == elapsed_us && !h.cache_hit,
        },
{
    match check {
        Ok(()) => None,
        Err(e) => Some(
            ResponseHead {
                success: false,
                error: Some(e),
                warm_time_us: 0,
                total_time_us: elapsed_us,
                cache_hit: false,
            },
        ),
    }
}

/// A request that waited in the queue longer than a set queue timeout
/// (0: none) fails without running: the response and the state its trace
/// records. `None` when it may run.
pub fn queue_timeout(queue_timeout_ms: u64, waited_ms: u64) -> (r: Option<(ResponseHead, RequestState)>)
    ensures
        r is Some <==> (queue_timeout_ms > 0 && waited_ms > queue_timeout_ms),
        r matches Some((h, st)) ==> {
            &&& !h.success
            &&& h.error matches Some(e) && e@ == "Request timed out in queue after "@ + crate::text::decimal(
                waited_ms as nat,
            ) + "ms"@
            &&& h.warm_time_us == 0
            &&& h.total_time_us == ((waited_ms as nat * 1000) % 0x1_0000_0000_0000_0000) as u64
            &&& !h.cache_hit
            &&& st == RequestState::QueueTimeout { waited_ms }
        },
{
    if queue_timeout_ms > 0 && waited_ms > queue_timeout_ms {
        let mut e = owned("Request timed out in queue after ");
        e.append(crate::text::u64_to_decimal(waited_ms).as_str());
        e.append("ms");
        let head = ResponseHead {
            success: false,
            error: Some(e),
            warm_time_us: 0,
            total_time_us: waited_ms.wrapping_mul(1000),
            cache_hit: false,
        };
        Some((head, RequestState::QueueTimeout { waited_ms }))
    } else {
        None
    }
}

/// The status a handler's result reports: its `status` number cut to 16
/// bits, else 200.
pub fn response_status(status: Option<u64>) -> (r: u16)
    ensures
        r == match status {
            Some(s) => s as u16,
            None => 200u16,
        },
{
    match status {
        Some(s) => s as u16,
        None => 200,
    }
}

impl<T> WorkerBook<T> {
    /// Settle a request that ran on the isolate of `key`: the response and
    /// the state its trace records. A timed-out isolate is dropped.
    pub fn settle_request(
        &mut self,
        key: &String,
        outcome: RunOutcome,
        warm_time_us: u64,
        total_time_us: u64,
        duration_ms: u64,
        cache_hit: bool,
    ) -> (r: (ResponseHead, RequestState))
        requires
            old(self).wf(),
        ensures
            final(self).wf(),
            final(self).history == old(self).history,
            final(self).cache.max_isolates == old(self).cache.max_isolates,
            r.0.warm_time_us == warm_time_us && r.0.total_time_us == total_time_us
                && r.0.cache_hit == cache_hit,
            match outcome {
                RunOutcome::Completed => r.0.success && r.0.error is None && r.1 == RequestState::Completed {
                    duration_ms,
                } && final(self).cache == old(self).cache,
                RunOutcome::TimedOut => !r.0.success && (r.0.error matches Some(e) && e@
                    == "Handler execution timed out"@) && (r.1 matches RequestState::Failed {
                    error: m,
                    duration_ms: d,
                } && m@ == "timeout"@ && d == duration_ms) && final(self).cache.view() == without(
                    old(self).cache.view(),
                    key@,
                ),
                RunOutcome::Failed { error } => !r.0.success && (r.0.error matches Some(e) && e@
                    == error@) && (r.1 matches RequestState::Failed { error: m, duration_ms: d }
                    && m@ == error@ && d == duration_ms) && final(self).cache == old(self).cache,
            },
    {
        proof {
            reveal_strlit("Handler execution timed out");
            reveal_strlit("timeout");
        }
        match outcome {
            RunOutcome::Completed => (
                ResponseHead { success: true, error: None, warm_time_us, total_time_us, cache_hit },
                RequestState::Completed { duration_ms },
            ),
            RunOutcome::TimedOut => {
                self.cache.forget(key);
                (
                    ResponseHead {
                        success: false,
                        error: Some(owned("Handler execution timed out")),
                        warm_time_us,
                        total_time_us,
                        cache_hit,
                    },
                    RequestState::Failed { error: owned("timeout"), duration_ms },
                )
            },
            RunOutcome::Failed { error } => {
                let shown = error.clone();
                (
                    ResponseHead {
                        success: false,
                        error: Some(error),
                        warm_time_us,
                        total_time_us,
                        cache_hit,
                    },
                    RequestState::Failed { error: shown, duration_ms },
                )
            },
        }
    }
}

// ---- Request counters ---------------------------------------------------------

/// One more on a counter that wraps around, as an atomic `fetch_add(1)` does.
pub open spec fn bumped(n: u64) -> u64 {
    if n == u64::MAX {
        0
    } else {
        (n + 1) as u64
    }
}

fn bump(n: u64) -> (r: u64)
    ensures
        r == bumped(n),
{
    n.wrapping_add(1)
}

/// The worker's request counters: requests taken off its queue, and
/// isolate lookups that found a warm isolate or had to build one.
pub struct RequestCounters {
    pub total_requests: u64,
    pub cache_hits: u64,
    pub cache_misses: u64,
}

impl RequestCounters {
    pub fn new() -> (r: Self)
        ensures
            r.total_requests == 0 && r.cache_hits == 0 && r.cache_misses == 0,
    {
        RequestCounters { total_requests: 0, cache_hits: 0, cache_misses: 0 }
    }

    /// A request was taken off the queue.
    pub fn count_request(&mut self)
        ensures
            final(self).total_requests == bumped(old(self).total_requests),
            final(self).cache_hits == old(self).cache_hits,
            final(self).cache_misses == old(self).cache_misses,
    {
        self.total_requests = bump(self.total_requests);
    }

    /// An isolate lookup finished: a hit when a warm isolate of the same
    /// source was found, else a miss.
    pub fn count_lookup(&mut self, hit: bool)
        ensures
            final(self).total_requests == old(self).total_requests,
            final(self).cache_hits == (if hit { bumped(old(self).cache_hits) } else { old(self).cache_hits }),
            final(self).cache_misses == (if hit { old(self).cache_misses } else { bumped(old(self).cache_misses) }),
    {
        if hit {
            self.cache_hits = bump(self.cache_hits);
        } else {
            self.cache_misses = bump(self.cache_misses);
        }
    }
}

} // verus!
