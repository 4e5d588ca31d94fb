use vstd::prelude::*;
use vstd::pervasive::VecAdditionalExecFns;
use vstd::string::StringExecFns;

verus! {

/// How long a path stays "recently processed", in milliseconds.
pub const DEBOUNCE_WINDOW_MILLIS: u64 = 10_000;

/// Whether an entry stamped at `stamp` has fallen out of the debounce
/// window by time `now`.  A stamp in the future never counts as expired.
pub open spec fn expired(stamp: u64, now: u64) -> bool {
    now >= stamp && now - stamp > DEBOUNCE_WINDOW_MILLIS
}

/// Entry `i` of `s` carries key `k`.
pub open spec fn key_at(s: Seq<(String, u64)>, k: Seq<char>, i: int) -> bool {
    0 <= i < s.len() && s[i].0@ == k
}

/// No two entries of `s` carry the same key.
pub open spec fn unique_keys(s: Seq<(String, u64)>) -> bool {
    forall|i: int, j: int| 0 <= i < j < s.len() ==> s[i].0@ != s[j].0@
}

/// `m` with every expired entry removed.
pub open spec fn swept(m: Map<Seq<char>, u64>, now: u64) -> Map<Seq<char>, u64> {
    Map::new(|k: Seq<char>| m.dom().contains(k) && !expired(m[k], now), |k: Seq<char>| m[k])
}

/// Whether a path may proceed: it is not marked with a still-fresh stamp.
pub open spec fn accept_allows(m: Map<Seq<char>, u64>, k: Seq<char>, now: u64) -> bool {
    !(m.dom().contains(k) && !expired(m[k], now))
}

/// The recency map after a path is recorded at `now` and expired
/// entries are swept.
pub open spec fn accept_next(m: Map<Seq<char>, u64>, k: Seq<char>, now: u64) -> Map<
    Seq<char>,
    u64,
> {
    swept(m.insert(k, now), now)
}

/// Tracks which paths were recently handled, so that the burst of raw
/// notifications a single logical file change produces collapses into
/// one accepted event per path per debounce window.
pub struct RecentlyProcessed {
    entries: Vec<(String, u64)>,
}

impl View for RecentlyProcessed {
    type V = Map<Seq<char>, u64>;

    /// The recency map: each tracked path to the time it was last seen.
    closed spec fn view(&self) -> Map<Seq<char>, u64> {
        Map::new(
            |k: Seq<char>| exists|i: int| key_at(self.entries@, k, i),
            |k: Seq<char>| self.entries@[choose|i: int| key_at(self.entries@, k, i)].1,
        )
    }
}

/// With unique keys, any entry holding key `k` gives the map's stamp for `k`.
proof fn lemma_lookup(s: Seq<(String, u64)>, k: Seq<char>, i: int)
    requires
        unique_keys(s),
        key_at(s, k, i),
    ensures
        s[choose|j: int| key_at(s, k, j)].1 == s[i].1,
{
    let j = choose|j: int| key_at(s, k, j);
    assert(key_at(s, k, j));
    if i < j {
        assert(s[i].0@ != s[j].0@);
    }
    if j < i {
        assert(s[j].0@ != s[i].0@);
    }
}

impl RecentlyProcessed {
    /// The set of tracked keys has no duplicates.
    pub closed spec fn wf(&self) -> bool {
        unique_keys(self.entries@)
    }

    /// Creates an empty set of recently processed files.
    pub fn new() -> (r: Self)
        ensures
            r.wf(),
            r@ == Map::<Seq<char>, u64>::empty(),
    {
        let r = RecentlyProcessed { entries: Vec::new() };
        proof {
            assert(r@ =~= Map::<Seq<char>, u64>::empty());
        }
        r
    }

    /// Whether `filename` is currently tracked (fresh or not yet swept).
    pub fn contains(&self, filename: &str) -> (r: bool)
        ensures
            r == self@.dom().contains(filename@),
    {
        let f = String::from_str(filename);
        let n = self.entries.len();
        let mut i: usize = 0;
        while i < n
            invariant
                i <= n,
                n == self.entries@.len(),
                f@ == filename@,
                forall|j: int| 0 <= j < i ==> self.entries@[j].0@ != filename@,
            decreases n - i,
        {
            if self.entries[i].0.eq(&f) {
                proof {
                    assert(key_at(self.entries@, filename@, i as int));
                }
                return true;
            }
            i += 1;
        }
        proof {
            if self@.dom().contains(filename@) {
                let j = choose|j: int| key_at(self.entries@, filename@, j);
                assert(self.entries@[j].0@ != filename@);
            }
        }
        false
    }

    /// The stamp under which `filename` is tracked, if any.
    fn stamp(&self, f: &String) -> (r: Option<u64>)
        requires
            self.wf(),
        ensures
            match r {
                Some(t) => self@.dom().contains(f@) && self@[f@] == t,
                None => !self@.dom().contains(f@),
            },
    {
        let n = self.entries.len();
        let mut i: usize = 0;
        while i < n
            invariant
                i <= n,
                n == self.entries@.len(),
                self.wf(),
                forall|j: int| 0 <= j < i ==> self.entries@[j].0@ != f@,
            decreases n - i,
        {
            if self.entries[i].0.eq(f) {
                proof {
                    assert(key_at(self.entries@, f@, i as int));
                    lemma_lookup(self.entries@, f@, i as int);
                }
                return Some(self.entries[i].1);
            }
            i += 1;
        }
        proof {
            if self@.dom().contains(f@) {
                let j = choose|j: int| key_at(self.entries@, f@, j);
                assert(self.entries@[j].0@ != f@);
            }
        }
        None
    }

    /// Records `filename` as seen at `now`: a fresh entry on first
    /// sight, a refreshed stamp on re-sight.
    pub fn add(&mut self, filename: &str, now: u64)
        requires
            old(self).wf(),
        ensures
            final(self).wf(),
            final(self)@ == old(self)@.insert(filename@, now),
    {
        let f = String::from_str(filename);
        let n = self.entries.len();
        let mut i: usize = 0;
        let mut idx: usize = n;
        while i < n
            invariant
                i <= n,
                idx <= n,
                n == self.entries@.len(),
                f@ == filename@,
                self.wf(),
                idx == n ==> forall|j: int| 0 <= j < i ==> self.entries@[j].0@ != filename@,
                idx < n ==> key_at(self.entries@, filename@, idx as int),
            decreases n - i,
        {
            if idx == n && self.entries[i].0.eq(&f) {
                idx = i;
            }
            i += 1;
        }
        let ghost s0 = self.entries@;
        let ghost m0 = self@;
        if idx < n {
            self.entries.set(idx, (f, now));
            proof {
                let s1 = self.entries@;
                assert forall|x: int| 0 <= x < s1.len() implies s1[x].0@ == s0[x].0@ by {
                    assert(key_at(s0, filename@, idx as int));
                }
            }
        } else {
            proof {
                if exists|j: int| key_at(s0, filename@, j) {
                    let j = choose|j: int| key_at(s0, filename@, j);
                    assert(s0[j].0@ != filename@);
                }
            }
            self.entries.push((f, now));
        }
        proof {
            let s1 = self.entries@;
            assert forall|a: int, b: int| 0 <= a < b < s1.len() implies s1[a].0@ != s1[b].0@ by {
                if b < s0.len() {
                    assert(s0[a].0@ != s0[b].0@);
                    if idx < n {
                        assert(key_at(s0, filename@, idx as int));
                    }
                } else {
                    assert(s0[a].0@ != filename@);
                }
            }
            assert forall|k: Seq<char>| #[trigger]
                self@.dom().contains(k) == old(self)@.insert(filename@, now).dom().contains(k) by {
                if exists|j: int| key_at(s1, k, j) {
                    let j = choose|j: int| key_at(s1, k, j);
                    if j != idx as int {
                        assert(key_at(s0, k, j));
                    }
                }
                if k == filename@ {
                    assert(key_at(s1, filename@, idx as int));
                } else if m0.dom().contains(k) {
                    let j = choose|j: int| key_at(s0, k, j);
                    assert(key_at(s1, k, j));
                }
            }
            assert forall|k: Seq<char>| #[trigger] self@.dom().contains(k) implies self@[k] == old(
                self,
            )@.insert(filename@, now)[k] by {
                if k == filename@ {
                    assert(key_at(s1, filename@, idx as int));
                    lemma_lookup(s1, filename@, idx as int);
                } else {
                    let j = choose|j: int| key_at(s1, k, j);
                    assert(key_at(s1, k, j));
                    assert(j != idx as int);
                    assert(key_at(s0, k, j));
                    lemma_lookup(s1, k, j);
                    lemma_lookup(s0, k, j);
                }
            }
            assert(self@ =~= old(self)@.insert(filename@, now));
        }
    }

    /// `s` restricted to the entries still fresh at `now`, in order.
    spec fn keep_fresh(s: Seq<(String, u64)>, now: u64) -> Seq<(String, u64)>
        decreases s.len(),
    {
        if s.len() == 0 {
            Seq::empty()
        } else if expired(s.last().1, now) {
            Self::keep_fresh(s.drop_last(), now)
        } else {
            Self::keep_fresh(s.drop_last(), now).push(s.last())
        }
    }

    /// Every entry of `keep_fresh(s, now)` is an entry of `s`, and the
    /// fresh entries of `s` all survive.
    proof fn lemma_keep_fresh(s: Seq<(String, u64)>, now: u64)
        ensures
            forall|j: int|
                0 <= j < Self::keep_fresh(s, now).len() ==> exists|i: int|
                    0 <= i < s.len() && s[i] == #[trigger] Self::keep_fresh(s, now)[j] && !expired(
                        s[i].1,
                        now,
                    ),
            forall|i: int|
                0 <= i < s.len() && !expired(#[trigger] s[i].1, now) ==> exists|j: int|
                    0 <= j < Self::keep_fresh(s, now).len() && Self::keep_fresh(s, now)[j] == s[i],
        decreases s.len(),
    {
        if s.len() > 0 {
            Self::lemma_keep_fresh(s.drop_last(), now);
            let kf = Self::keep_fresh(s, now);
            let kfd = Self::keep_fresh(s.drop_last(), now);
            assert forall|j: int| 0 <= j < kf.len() implies exists|i: int|
                0 <= i < s.len() && s[i] == #[trigger] kf[j] && !expired(s[i].1, now) by {
                if j < kfd.len() {
                    let i = choose|i: int|
                        0 <= i < s.drop_last().len() && s.drop_last()[i] == kfd[j] && !expired(
                            s.drop_last()[i].1,
                            now,
                        );
                    assert(s[i] == kf[j] && !expired(s[i].1, now));
                } else {
                    assert(s[s.len() - 1] == kf[j] && !expired(s[s.len() - 1].1, now));
                }
            }
            assert forall|i: int| 0 <= i < s.len() && !expired(#[trigger] s[i].1, now) implies
                exists|j: int| 0 <= j < kf.len() && kf[j] == s[i] by {
                if i < s.len() - 1 {
                    assert(s.drop_last()[i] == s[i]);
                    let j = choose|j: int| 0 <= j < kfd.len() && kfd[j] == s.drop_last()[i];
                    assert(kf[j] == s[i]);
                } else {
                    assert(kf[kf.len() - 1] == s[i]);
                }
            }
        }
    }

    /// `keep_fresh` keeps keys unique.
    proof fn lemma_keep_fresh_unique(s: Seq<(String, u64)>, now: u64)
        requires
            unique_keys(s),
        ensures
            unique_keys(Self::keep_fresh(s, now)),
            forall|k: Seq<char>, j: int|
                #[trigger] key_at(Self::keep_fresh(s, now), k, j) ==> exists|i: int|
                    key_at(s, k, i) && s[i] == Self::keep_fresh(s, now)[j],
        decreases s.len(),
    {
        if s.len() > 0 {
            assert(unique_keys(s.drop_last())) by {
                assert(forall|i: int|
                    0 <= i < s.drop_last().len() ==> s.drop_last()[i] == s[i]);
            }
            Self::lemma_keep_fresh_unique(s.drop_last(), now);
            let kf = Self::keep_fresh(s, now);
            let kfd = Self::keep_fresh(s.drop_last(), now);
            assert forall|k: Seq<char>, j: int| #[trigger] key_at(kf, k, j) implies exists|i: int|
                key_at(s, k, i) && s[i] == kf[j] by {
                if j < kfd.len() {
                    assert(key_at(kfd, k, j));
                    let i = choose|i: int| key_at(s.drop_last(), k, i) && s.drop_last()[i] == kfd[j];
                    assert(key_at(s, k, i) && s[i] == kf[j]);
                } else {
                    assert(key_at(s, k, s.len() - 1) && s[s.len() - 1] == kf[j]);
                }
            }
            assert forall|a: int, b: int| 0 <= a < b < kf.len() implies kf[a].0@ != kf[b].0@ by {
                let ka = kf[a].0@;
                if kf[a].0@ == kf[b].0@ {
                    if b < kfd.len() {
                        // both inside the recursive part: unique there
                        assert(key_at(kfd, ka, a) && key_at(kfd, ka, b));
                    } else {
                        // kf[b] is s.last(); kf[a] comes from s.drop_last()
                        let i = choose|i: int|
                            0 <= i < s.drop_last().len() && s.drop_last()[i] == kfd[a] && !expired(
                                s.drop_last()[i].1,
                                now,
                            );
                        Self::lemma_keep_fresh(s.drop_last(), now);
                        let i2 = choose|i: int|
                            0 <= i < s.drop_last().len() && s.drop_last()[i] == kfd[a] && !expired(
                                s.drop_last()[i].1,
                                now,
                            );
                        assert(s[i2].0@ == ka);
                        assert(s[s.len() - 1].0@ == ka);
                        assert(s[i2].0@ != s[s.len() - 1].0@);
                    }
                }
            }
        }
    }

    /// Removes every entry whose stamp has fallen out of the window.
    #[verifier::rlimit(100)]
    pub fn remove_old(&mut self, now: u64)
        requires
            old(self).wf(),
        ensures
            final(self).wf(),
            final(self)@ == swept(old(self)@, now),
    {
        let ghost s0 = self.entries@;
        let ghost m0 = self@;
        let n = self.entries.len();
        let mut kept: Vec<(String, u64)> = Vec::new();
        let mut i: usize = 0;
        while i < n
            invariant
                i <= n,
                n == self.entries@.len(),
                self.entries@ == s0,
                kept@ == Self::keep_fresh(s0.take(i as int), now),
            decreases n - i,
        {
            let stamp = self.entries[i].1;
            let is_fresh = !(now >= stamp && now - stamp > DEBOUNCE_WINDOW_MILLIS);
            if is_fresh {
                let pair = (self.entries[i].0.clone(), stamp);
                kept.push(pair);
            }
            proof {
                assert(s0.take(i + 1 as int).drop_last() =~= s0.take(i as int));
                assert(s0.take(i + 1 as int).last() == s0[i as int]);
            }
            i += 1;
        }
        proof {
            assert(s0.take(n as int) =~= s0);
        }
        self.entries = kept;
        proof {
            let s1 = self.entries@;
            Self::lemma_keep_fresh(s0, now);
            Self::lemma_keep_fresh_unique(s0, now);
            assert forall|k: Seq<char>| #[trigger] self@.dom().contains(k) == swept(
                m0,
                now,
            ).dom().contains(k) by {
                if exists|j: int| key_at(s1, k, j) {
                    let j = choose|j: int| key_at(s1, k, j);
                    let i = choose|i: int| key_at(s0, k, i) && s0[i] == s1[j];
                    assert(!expired(s0[i].1, now)) by {
                        let i2 = choose|i2: int| 0 <= i2 < s0.len() && s0[i2] == s1[j] && !expired(s0[i2].1, now);
                        lemma_lookup(s0, k, i);
                        lemma_lookup(s0, k, i2);
                        assert(s0[i2].0@ == k);
                        if i != i2 {
                            assert(key_at(s0, k, i2));
                        }
                    }
                    lemma_lookup(s0, k, i);
                    assert(m0.dom().contains(k) && !expired(m0[k], now));
                }
                if m0.dom().contains(k) && !expired(m0[k], now) {
                    let i = choose|i: int| key_at(s0, k, i);
                    lemma_lookup(s0, k, i);
                    assert(!expired(s0[i].1, now));
                    let j = choose|j: int| 0 <= j < s1.len() && s1[j] == s0[i];
                    assert(key_at(s1, k, j));
                }
            }
            assert forall|k: Seq<char>| #[trigger] self@.dom().contains(k) implies self@[k] == swept(
                m0,
                now,
            )[k] by {
                let j = choose|j: int| key_at(s1, k, j);
                assert(key_at(s1, k, j));
                lemma_lookup(s1, k, j);
                let i = choose|i: int| key_at(s0, k, i) && s0[i] == s1[j];
                lemma_lookup(s0, k, i);
            }
            assert(self@ =~= swept(m0, now));
        }
    }

    /// Records `filename` as seen at `now`, sweeps expired entries, and
    /// returns whether the path should proceed to accumulation: `true`
    /// unless it was already marked recently processed at call time.
    pub fn accept(&mut self, filename: &str, now: u64) -> (r: bool)
        requires
            old(self).wf(),
        ensures
            final(self).wf(),
            r == accept_allows(old(self)@, filename@, now),
            final(self)@ == accept_next(old(self)@, filename@, now),
    {
        let f = String::from_str(filename);
        let r = match self.stamp(&f) {
            Some(t) => now >= t && now - t > DEBOUNCE_WINDOW_MILLIS,
            None => true,
        };
        self.add(filename, now);
        self.remove_old(now);
        r
    }
}

impl Default for RecentlyProcessed {
    /// An empty set of recently processed files.
    fn default() -> (r: Self)
        ensures
            r.wf(),
            r@ == Map::<Seq<char>, u64>::empty(),
    {
        Self::new()
    }
}

/// Law: a path accepted at `t1` is suppressed by any `accept` within the
/// debounce window, and allowed again by an `accept` after the window.
pub proof fn lemma_debounce_window(m: Map<Seq<char>, u64>, p: Seq<char>, t1: u64, t2: u64)
    requires
        t1 <= t2,
    ensures
        t2 - t1 <= DEBOUNCE_WINDOW_MILLIS ==> !accept_allows(accept_next(m, p, t1), p, t2),
        t2 - t1 > DEBOUNCE_WINDOW_MILLIS ==> accept_allows(accept_next(m, p, t1), p, t2),
{
    let m1 = accept_next(m, p, t1);
    assert(m1.dom().contains(p));
    assert(m1[p] == t1);
}

} // verus!
