use vstd::prelude::*;
use crate::strutil::{vec_contains_string, views_of};

verus! {

/// The two operations against the raw watch primitive.
#[derive(Clone, Copy, Debug, PartialEq, Eq, Structural)]
pub enum WatchOp {
    Watch,
    Unwatch,
}

/// One recorded failure of a watch or unwatch attempt.
pub struct WatchError {
    pub path: String,
    pub op: WatchOp,
}

/// The paths of a sequence of recorded failures.
pub open spec fn err_paths(e: Seq<WatchError>) -> Seq<Seq<char>> {
    Seq::new(e.len(), |i: int| e[i].path@)
}

/// The elements of `a` that are not in `b`, in order.
pub open spec fn seq_diff(a: Seq<Seq<char>>, b: Seq<Seq<char>>) -> Seq<Seq<char>>
    decreases a.len(),
{
    if a.len() == 0 {
        Seq::empty()
    } else if b.contains(a.last()) {
        seq_diff(a.drop_last(), b)
    } else {
        seq_diff(a.drop_last(), b).push(a.last())
    }
}

/// The elements of `a` that are also in `b`, in order.
pub open spec fn seq_keep(a: Seq<Seq<char>>, b: Seq<Seq<char>>) -> Seq<Seq<char>>
    decreases a.len(),
{
    if a.len() == 0 {
        Seq::empty()
    } else if b.contains(a.last()) {
        seq_keep(a.drop_last(), b).push(a.last())
    } else {
        seq_keep(a.drop_last(), b)
    }
}

/// The elements of `s` whose flag is set, in order.
pub open spec fn kept_flags(s: Seq<Seq<char>>, ok: Seq<bool>) -> Seq<Seq<char>>
    decreases s.len(),
{
    if s.len() == 0 || ok.len() == 0 {
        Seq::empty()
    } else if ok.last() {
        kept_flags(s.drop_last(), ok.drop_last()).push(s.last())
    } else {
        kept_flags(s.drop_last(), ok.drop_last())
    }
}

/// The elements of `s` whose flag is clear, in order.
pub open spec fn dropped_flags(s: Seq<Seq<char>>, ok: Seq<bool>) -> Seq<Seq<char>>
    decreases s.len(),
{
    if s.len() == 0 || ok.len() == 0 {
        Seq::empty()
    } else if ok.last() {
        dropped_flags(s.drop_last(), ok.drop_last())
    } else {
        dropped_flags(s.drop_last(), ok.drop_last()).push(s.last())
    }
}

/// Membership in `seq_diff`: exactly the elements of `a` missing from `b`.
pub proof fn lemma_seq_diff_contains(a: Seq<Seq<char>>, b: Seq<Seq<char>>, x: Seq<char>)
    ensures
        seq_diff(a, b).contains(x) <==> a.contains(x) && !b.contains(x),
    decreases a.len(),
{
    if a.len() > 0 {
        lemma_seq_diff_contains(a.drop_last(), b, x);
        let d = seq_diff(a, b);
        let dd = seq_diff(a.drop_last(), b);
        if d.contains(x) {
            let i = choose|i: int| 0 <= i < d.len() && d[i] == x;
            if i < dd.len() {
                assert(dd[i] == x);
                assert(dd.contains(x));
                let j = choose|j: int| 0 <= j < a.drop_last().len() && a.drop_last()[j] == x;
                assert(a[j] == x);
                assert(a.contains(x));
            } else {
                assert(x == a.last());
                assert(a[a.len() - 1] == x);
                assert(a.contains(x));
            }
        }
        if a.contains(x) && !b.contains(x) {
            let i = choose|i: int| 0 <= i < a.len() && a[i] == x;
            if i < a.len() - 1 {
                assert(a.drop_last()[i] == x);
                assert(a.drop_last().contains(x));
                assert(dd.contains(x));
                let j = choose|j: int| 0 <= j < dd.len() && dd[j] == x;
                assert(d[j] == x);
                assert(d.contains(x));
            } else {
                assert(x == a.last());
                assert(d[d.len() - 1] == x);
                assert(d.contains(x));
            }
        }
    }
}

/// Membership in `seq_keep`: exactly the elements of `a` also in `b`.
pub proof fn lemma_seq_keep_contains(a: Seq<Seq<char>>, b: Seq<Seq<char>>, x: Seq<char>)
    ensures
        seq_keep(a, b).contains(x) <==> a.contains(x) && b.contains(x),
    decreases a.len(),
{
    if a.len() > 0 {
        lemma_seq_keep_contains(a.drop_last(), b, x);
        let d = seq_keep(a, b);
        let dd = seq_keep(a.drop_last(), b);
        if d.contains(x) {
            let i = choose|i: int| 0 <= i < d.len() && d[i] == x;
            if i < dd.len() {
                assert(dd[i] == x);
                assert(dd.contains(x));
                let j = choose|j: int| 0 <= j < a.drop_last().len() && a.drop_last()[j] == x;
                assert(a[j] == x);
                assert(a.contains(x));
            } else {
                assert(x == a.last());
                assert(a[a.len() - 1] == x);
                assert(a.contains(x));
            }
        }
        if a.contains(x) && b.contains(x) {
            let i = choose|i: int| 0 <= i < a.len() && a[i] == x;
            if i < a.len() - 1 {
                assert(a.drop_last()[i] == x);
                assert(a.drop_last().contains(x));
                assert(dd.contains(x));
                let j = choose|j: int| 0 <= j < dd.len() && dd[j] == x;
                assert(d[j] == x);
                assert(d.contains(x));
            } else {
                assert(x == a.last());
                assert(d[d.len() - 1] == x);
                assert(d.contains(x));
            }
        }
    }
}

/// `seq_diff` and `seq_keep` keep distinct elements distinct.
pub proof fn lemma_partition_unique(a: Seq<Seq<char>>, b: Seq<Seq<char>>)
    requires
        a.no_duplicates(),
    ensures
        seq_diff(a, b).no_duplicates(),
        seq_keep(a, b).no_duplicates(),
    decreases a.len(),
{
    if a.len() > 0 {
        assert(a.drop_last().no_duplicates());
        lemma_partition_unique(a.drop_last(), b);
        lemma_seq_diff_contains(a.drop_last(), b, a.last());
        lemma_seq_keep_contains(a.drop_last(), b, a.last());
        assert(!a.drop_last().contains(a.last())) by {
            if a.drop_last().contains(a.last()) {
                let i = choose|i: int|
                    0 <= i < a.drop_last().len() && a.drop_last()[i] == a.last();
                assert(a[i] == a[a.len() - 1]);
            }
        }
        let dd = seq_diff(a.drop_last(), b);
        let kd = seq_keep(a.drop_last(), b);
        assert forall|i: int, j: int|
            0 <= i < j < seq_diff(a, b).len() implies seq_diff(a, b)[i] != seq_diff(a, b)[j] by {
            if j < dd.len() {
                assert(seq_diff(a, b)[i] == dd[i] && seq_diff(a, b)[j] == dd[j]);
            } else {
                assert(seq_diff(a, b)[j] == a.last());
                assert(seq_diff(a, b)[i] == dd[i]);
                assert(dd.contains(dd[i]));
            }
        }
        assert forall|i: int, j: int|
            0 <= i < j < seq_keep(a, b).len() implies seq_keep(a, b)[i] != seq_keep(a, b)[j] by {
            if j < kd.len() {
                assert(seq_keep(a, b)[i] == kd[i] && seq_keep(a, b)[j] == kd[j]);
            } else {
                assert(seq_keep(a, b)[j] == a.last());
                assert(seq_keep(a, b)[i] == kd[i]);
                assert(kd.contains(kd[i]));
            }
        }
    }
}

/// When every flag is set, everything is kept and nothing dropped.
pub proof fn lemma_flags_all_set(s: Seq<Seq<char>>, ok: Seq<bool>)
    requires
        ok.len() == s.len(),
        forall|i: int| 0 <= i < ok.len() ==> ok[i],
    ensures
        kept_flags(s, ok) == s,
        dropped_flags(s, ok) == Seq::<Seq<char>>::empty(),
    decreases s.len(),
{
    if s.len() > 0 {
        lemma_flags_all_set(s.drop_last(), ok.drop_last());
        assert(kept_flags(s, ok) =~= s);
    }
}

/// Whatever the flags keep is an element of `s`.
pub proof fn lemma_kept_flags_contains(s: Seq<Seq<char>>, ok: Seq<bool>, x: Seq<char>)
    ensures
        kept_flags(s, ok).contains(x) ==> s.contains(x),
    decreases s.len(),
{
    if s.len() > 0 && ok.len() > 0 {
        lemma_kept_flags_contains(s.drop_last(), ok.drop_last(), x);
        let k = kept_flags(s, ok);
        let kd = kept_flags(s.drop_last(), ok.drop_last());
        if k.contains(x) {
            let i = choose|i: int| 0 <= i < k.len() && k[i] == x;
            if i < kd.len() {
                assert(kd[i] == x);
                assert(kd.contains(x));
                let j = choose|j: int| 0 <= j < s.drop_last().len() && s.drop_last()[j] == x;
                assert(s[j] == x);
                assert(s.contains(x));
            } else {
                assert(x == s.last());
                assert(s[s.len() - 1] == x);
                assert(s.contains(x));
            }
        }
    }
}

/// With distinct elements, what the flags keep stays distinct.
pub proof fn lemma_kept_flags_unique(s: Seq<Seq<char>>, ok: Seq<bool>)
    requires
        s.no_duplicates(),
        ok.len() == s.len(),
    ensures
        kept_flags(s, ok).no_duplicates(),
    decreases s.len(),
{
    if s.len() > 0 {
        assert(s.drop_last().no_duplicates());
        lemma_kept_flags_unique(s.drop_last(), ok.drop_last());
        let k = kept_flags(s, ok);
        let kd = kept_flags(s.drop_last(), ok.drop_last());
        lemma_kept_flags_contains(s.drop_last(), ok.drop_last(), s.last());
        assert(!s.drop_last().contains(s.last())) by {
            if s.drop_last().contains(s.last()) {
                let i = choose|i: int|
                    0 <= i < s.drop_last().len() && s.drop_last()[i] == s.last();
                assert(s[i] == s[s.len() - 1]);
            }
        }
        assert forall|i: int, j: int| 0 <= i < j < k.len() implies k[i] != k[j] by {
            if j < kd.len() {
                assert(k[i] == kd[i] && k[j] == kd[j]);
            } else {
                assert(k[j] == s.last());
                assert(k[i] == kd[i]);
                assert(kd.contains(kd[i]));
            }
        }
    }
}

/// Owns the live set of watched directories and reconciles it against
/// each newly loaded configuration.
pub struct WatchSetManager {
    watched: Vec<String>,
}

impl WatchSetManager {
    /// The directories currently registered with the watch primitive.
    pub closed spec fn watched_view(&self) -> Seq<Seq<char>> {
        views_of(self.watched@)
    }

    /// No directory is ever watched twice.
    pub closed spec fn wf(&self) -> bool {
        self.watched_view().no_duplicates()
    }

    /// Creates a manager with nothing watched yet.
    pub fn new() -> (r: Self)
        ensures
            r.wf(),
            r.watched_view() == Seq::<Seq<char>>::empty(),
    {
        let r = WatchSetManager { watched: Vec::new() };
        proof {
            assert(r.watched_view() =~= Seq::<Seq<char>>::empty());
        }
        r
    }

    /// Whether `dir` is currently watched.
    pub fn is_watched(&self, dir: &String) -> (r: bool)
        ensures
            r == self.watched_view().contains(dir@),
    {
        vec_contains_string(&self.watched, dir)
    }

    /// How many directories are currently watched.
    pub fn watched_count(&self) -> (r: usize)
        ensures
            r == self.watched_view().len(),
    {
        self.watched.len()
    }

    /// Computes the reconciliation plan against a new requirement set:
    /// the watched directories to unwatch (no longer required) and the
    /// required directories to watch (not yet watched).
    pub fn plan(&self, required: &Vec<String>) -> (r: (Vec<String>, Vec<String>))
        ensures
            views_of(r.0@) == seq_diff(self.watched_view(), views_of(required@)),
            views_of(r.1@) == seq_diff(views_of(required@), self.watched_view()),
    {
        let mut unwatch: Vec<String> = Vec::new();
        let n = self.watched.len();
        let mut i: usize = 0;
        while i < n
            invariant
                i <= n,
                n == self.watched@.len(),
                views_of(unwatch@) == seq_diff(
                    self.watched_view().take(i as int),
                    views_of(required@),
                ),
            decreases n - i,
        {
            let ghost pre = views_of(unwatch@);
            if !vec_contains_string(required, &self.watched[i]) {
                unwatch.push(self.watched[i].clone());
                proof {
                    assert(views_of(unwatch@) =~= pre.push(self.watched@[i as int]@));
                }
            }
            proof {
                assert(self.watched_view().take(i + 1 as int).drop_last() =~= self.watched_view()
                    .take(i as int));
                assert(self.watched_view().take(i + 1 as int).last() == self.watched@[i as int]@);
            }
            i += 1;
        }
        let mut watch: Vec<String> = Vec::new();
        let m = required.len();
        let mut j: usize = 0;
        while j < m
            invariant
                j <= m,
                m == required@.len(),
                views_of(watch@) == seq_diff(
                    views_of(required@).take(j as int),
                    self.watched_view(),
                ),
            decreases m - j,
        {
            let ghost pre = views_of(watch@);
            if !vec_contains_string(&self.watched, &required[j]) {
                watch.push(required[j].clone());
                proof {
                    assert(views_of(watch@) =~= pre.push(required@[j as int]@));
                }
            }
            proof {
                assert(views_of(required@).take(j + 1 as int).drop_last() =~= views_of(required@)
                    .take(j as int));
                assert(views_of(required@).take(j + 1 as int).last() == required@[j as int]@);
            }
            j += 1;
        }
        proof {
            assert(self.watched_view().take(n as int) =~= self.watched_view());
            assert(views_of(required@).take(m as int) =~= views_of(required@));
        }
        (unwatch, watch)
    }

    /// Applies a reconciliation, given the outcome of each unwatch and
    /// watch attempt of the plan: still-required directories stay, every
    /// planned unwatch leaves the set whether or not the primitive
    /// complained, successfully watched directories enter the set, and
    /// one failure is recorded per failed attempt.
    pub fn reconcile(
        &mut self,
        required: &Vec<String>,
        unwatch_ok: &Vec<bool>,
        watch_ok: &Vec<bool>,
    ) -> (errors: Vec<WatchError>)
        requires
            old(self).wf(),
            views_of(required@).no_duplicates(),
            unwatch_ok@.len() == seq_diff(old(self).watched_view(), views_of(required@)).len(),
            watch_ok@.len() == seq_diff(views_of(required@), old(self).watched_view()).len(),
        ensures
            final(self).wf(),
            final(self).watched_view() == seq_keep(old(self).watched_view(), views_of(required@))
                + kept_flags(
                seq_diff(views_of(required@), old(self).watched_view()),
                watch_ok@,
            ),
            err_paths(errors@) == dropped_flags(
                seq_diff(old(self).watched_view(), views_of(required@)),
                unwatch_ok@,
            ) + dropped_flags(seq_diff(views_of(required@), old(self).watched_view()), watch_ok@),
            forall|i: int|
                0 <= i < errors@.len() ==> (#[trigger] errors@[i].op) == (if i < dropped_flags(
                    seq_diff(old(self).watched_view(), views_of(required@)),
                    unwatch_ok@,
                ).len() {
                    WatchOp::Unwatch
                } else {
                    WatchOp::Watch
                }),
    {
        let ghost w0 = self.watched_view();
        let ghost req = views_of(required@);
        let (to_unwatch, to_watch) = self.plan(required);
        let mut errors: Vec<WatchError> = Vec::new();
        // still-required directories stay watched
        let mut new_watched: Vec<String> = Vec::new();
        let n = self.watched.len();
        let mut i: usize = 0;
        while i < n
            invariant
                i <= n,
                n == self.watched@.len(),
                self.watched_view() == w0,
                views_of(new_watched@) == seq_keep(w0.take(i as int), req),
                req == views_of(required@),
            decreases n - i,
        {
            let ghost pre = views_of(new_watched@);
            if vec_contains_string(required, &self.watched[i]) {
                new_watched.push(self.watched[i].clone());
                proof {
                    assert(views_of(new_watched@) =~= pre.push(self.watched@[i as int]@));
                }
            }
            proof {
                assert(w0.take(i + 1 as int).drop_last() =~= w0.take(i as int));
                assert(w0.take(i + 1 as int).last() == self.watched@[i as int]@);
            }
            i += 1;
        }
        proof {
            assert(w0.take(n as int) =~= w0);
        }
        // a failed unwatch is recorded; the handle is dropped either way
        let nu = to_unwatch.len();
        let mut u: usize = 0;
        while u < nu
            invariant
                u <= nu,
                nu == to_unwatch@.len(),
                views_of(to_unwatch@) == seq_diff(w0, req),
                unwatch_ok@.len() == nu,
                err_paths(errors@) == dropped_flags(
                    views_of(to_unwatch@).take(u as int),
                    unwatch_ok@.take(u as int),
                ),
                forall|k: int| 0 <= k < errors@.len() ==> (#[trigger] errors@[k].op) == WatchOp::Unwatch,
            decreases nu - u,
        {
            let ghost pre = err_paths(errors@);
            if !unwatch_ok[u] {
                errors.push(WatchError { path: to_unwatch[u].clone(), op: WatchOp::Unwatch });
                proof {
                    assert(err_paths(errors@) =~= pre.push(to_unwatch@[u as int]@));
                }
            }
            proof {
                assert(views_of(to_unwatch@).take(u + 1 as int).drop_last() =~= views_of(
                    to_unwatch@,
                ).take(u as int));
                assert(unwatch_ok@.take(u + 1 as int).drop_last() =~= unwatch_ok@.take(u as int));
                assert(views_of(to_unwatch@).take(u + 1 as int).last() == to_unwatch@[u as int]@);
                assert(unwatch_ok@.take(u + 1 as int).last() == unwatch_ok@[u as int]);
            }
            u += 1;
        }
        proof {
            assert(views_of(to_unwatch@).take(nu as int) =~= views_of(to_unwatch@));
            assert(unwatch_ok@.take(nu as int) =~= unwatch_ok@);
        }
        let ghost unwatch_errs = err_paths(errors@);
        // a successful watch enters the set; a failed one is recorded
        let nw = to_watch.len();
        let mut w: usize = 0;
        while w < nw
            invariant
                w <= nw,
                nw == to_watch@.len(),
                views_of(to_watch@) == seq_diff(req, w0),
                watch_ok@.len() == nw,
                unwatch_errs == dropped_flags(seq_diff(w0, req), unwatch_ok@),
                views_of(new_watched@) == seq_keep(w0, req) + kept_flags(
                    views_of(to_watch@).take(w as int),
                    watch_ok@.take(w as int),
                ),
                err_paths(errors@) == unwatch_errs + dropped_flags(
                    views_of(to_watch@).take(w as int),
                    watch_ok@.take(w as int),
                ),
                forall|k: int|
                    0 <= k < errors@.len() ==> (#[trigger] errors@[k].op) == (if k
                        < unwatch_errs.len() {
                        WatchOp::Unwatch
                    } else {
                        WatchOp::Watch
                    }),
            decreases nw - w,
        {
            let ghost prew = views_of(new_watched@);
            let ghost pree = err_paths(errors@);
            if watch_ok[w] {
                new_watched.push(to_watch[w].clone());
                proof {
                    assert(views_of(new_watched@) =~= prew.push(to_watch@[w as int]@));
                }
            } else {
                errors.push(WatchError { path: to_watch[w].clone(), op: WatchOp::Watch });
                proof {
                    assert(err_paths(errors@) =~= pree.push(to_watch@[w as int]@));
                }
            }
            proof {
                assert(views_of(to_watch@).take(w + 1 as int).drop_last() =~= views_of(
                    to_watch@,
                ).take(w as int));
                assert(watch_ok@.take(w + 1 as int).drop_last() =~= watch_ok@.take(w as int));
                assert(views_of(to_watch@).take(w + 1 as int).last() == to_watch@[w as int]@);
                assert(watch_ok@.take(w + 1 as int).last() == watch_ok@[w as int]);
            }
            w += 1;
        }
        proof {
            assert(views_of(to_watch@).take(nw as int) =~= views_of(to_watch@));
            assert(watch_ok@.take(nw as int) =~= watch_ok@);
        }
        self.watched = new_watched;
        proof {
            lemma_partition_unique(w0, req);
            lemma_partition_unique(req, w0);
            lemma_kept_flags_unique(seq_diff(req, w0), watch_ok@);
            let keep = seq_keep(w0, req);
            let add = kept_flags(seq_diff(req, w0), watch_ok@);
            assert forall|a: int, b: int|
                0 <= a < b < self.watched_view().len() implies self.watched_view()[a]
                != self.watched_view()[b] by {
                let v = self.watched_view();
                if a < keep.len() && b >= keep.len() {
                    assert(v[a] == keep[a]);
                    assert(keep.contains(keep[a]));
                    assert(v[b] == add[b - keep.len()]);
                    assert(add.contains(add[b - keep.len()]));
                    lemma_seq_keep_contains(w0, req, v[a]);
                    lemma_kept_flags_contains(seq_diff(req, w0), watch_ok@, v[b]);
                    lemma_seq_diff_contains(req, w0, v[b]);
                    assert(w0.contains(v[a]));
                    assert(!w0.contains(v[b]));
                } else if a >= keep.len() {
                    assert(add.no_duplicates());
                    assert(v[a] == add[a - keep.len()]);
                    assert(v[b] == add[b - keep.len()]);
                } else {
                    assert(keep.no_duplicates());
                    assert(v[a] == keep[a]);
                    assert(v[b] == keep[b]);
                }
            }
        }
        errors
    }
}

/// Law: reconciling is idempotent.  After a reconcile against `required`
/// in which every watch attempt succeeded, the watched set holds exactly
/// the required directories, so a second plan against the same set
/// unwatches nothing and watches nothing.
pub proof fn lemma_reconcile_idempotent(
    watched: Seq<Seq<char>>,
    required: Seq<Seq<char>>,
    watch_ok: Seq<bool>,
)
    requires
        watch_ok.len() == seq_diff(required, watched).len(),
        forall|i: int| 0 <= i < watch_ok.len() ==> watch_ok[i],
    ensures
        seq_diff(
            seq_keep(watched, required) + kept_flags(seq_diff(required, watched), watch_ok),
            required,
        ) == Seq::<Seq<char>>::empty(),
        seq_diff(
            required,
            seq_keep(watched, required) + kept_flags(seq_diff(required, watched), watch_ok),
        ) == Seq::<Seq<char>>::empty(),
{
    lemma_flags_all_set(seq_diff(required, watched), watch_ok);
    let after = seq_keep(watched, required) + seq_diff(required, watched);
    assert forall|x: Seq<char>| #[trigger] after.contains(x) implies required.contains(x) by {
        lemma_seq_keep_contains(watched, required, x);
        lemma_seq_diff_contains(required, watched, x);
        let i = choose|i: int| 0 <= i < after.len() && after[i] == x;
        if i < seq_keep(watched, required).len() {
            assert(seq_keep(watched, required)[i] == x);
            assert(seq_keep(watched, required).contains(x));
        } else {
            assert(seq_diff(required, watched)[i - seq_keep(watched, required).len()] == x);
            assert(seq_diff(required, watched).contains(x));
        }
    }
    assert forall|x: Seq<char>| #[trigger] required.contains(x) implies after.contains(x) by {
        lemma_seq_keep_contains(watched, required, x);
        lemma_seq_diff_contains(required, watched, x);
        if watched.contains(x) {
            assert(seq_keep(watched, required).contains(x));
            let i = choose|i: int|
                0 <= i < seq_keep(watched, required).len() && seq_keep(watched, required)[i] == x;
            assert(after[i] == x);
            assert(after.contains(x));
        } else {
            assert(seq_diff(required, watched).contains(x));
            let i = choose|i: int|
                0 <= i < seq_diff(required, watched).len() && seq_diff(required, watched)[i] == x;
            assert(after[seq_keep(watched, required).len() + i] == x);
            assert(after.contains(x));
        }
    }
    let d1 = seq_diff(after, required);
    if d1.len() > 0 {
        assert(d1.contains(d1[0]));
        lemma_seq_diff_contains(after, required, d1[0]);
    }
    assert(d1 =~= Seq::<Seq<char>>::empty());
    let d2 = seq_diff(required, after);
    if d2.len() > 0 {
        assert(d2.contains(d2[0]));
        lemma_seq_diff_contains(required, after, d2[0]);
    }
    assert(d2 =~= Seq::<Seq<char>>::empty());
}

} // verus!
