//! Real-time stopwatches behind `/stopwatch`.
//!
//! Times are nanoseconds on a monotonic clock that the caller reads and hands
//! in, so that every operation here is a function of its arguments.
use vstd::prelude::*;

use crate::identifier::{
    all_namespace_chars, all_path_chars, namespace_char, parse_identifier, Identifier,
    IdentifierView,
};
use crate::order::{chars_lt, lemma_chars_lt_asymmetric, lemma_chars_lt_total, lemma_chars_lt_transitive, str_before};
use crate::text::{first_index, is_first_index, lemma_first_index};
use crate::text::{first_where, lemma_first_where, lemma_first_where_none, lemma_first_where_some, string_eq};

verus! {

/// One stopwatch: when it was last (re)started, and the time it had run
/// before that.
#[derive(Clone, Copy, Debug, PartialEq, Eq, Structural)]
pub struct Stopwatch {
    pub started_at: u64,
    pub accumulated: u64,
}

/// The time `w` shows at `now`: its earlier time plus the time since it was
/// started (none if the clock reads earlier), held within `u64`.
pub open spec fn elapsed_at(w: Stopwatch, now: u64) -> u64 {
    let since = if now >= w.started_at {
        now - w.started_at
    } else {
        0
    };
    if w.accumulated + since > u64::MAX {
        u64::MAX
    } else {
        (w.accumulated + since) as u64
    }
}

/// Nanoseconds in a millisecond.
pub open spec fn nanos_per_milli() -> int {
    1_000_000
}

/// A stopwatch started at `now` that had already run `milliseconds` (a
/// negative count counts as none), held within `u64` nanoseconds.
pub open spec fn restored(milliseconds: i64, now: u64) -> Stopwatch {
    let ms = if milliseconds < 0 {
        0
    } else {
        milliseconds as int
    };
    Stopwatch {
        started_at: now,
        accumulated: if ms * nanos_per_milli() > u64::MAX {
            u64::MAX
        } else {
            (ms * nanos_per_milli()) as u64
        },
    }
}

impl Stopwatch {
    fn elapsed(self, now: u64) -> (r: u64)
        ensures
            r == elapsed_at(self, now),
    {
        let since = if now >= self.started_at {
            now - self.started_at
        } else {
            0
        };
        self.accumulated.saturating_add(since)
    }

    fn from_elapsed_milliseconds(milliseconds: i64, now: u64) -> (r: Stopwatch)
        ensures
            r == restored(milliseconds, now),
    {
        let ms: u64 = if milliseconds < 0 {
            0
        } else {
            milliseconds as u64
        };
        let accumulated = if ms > u64::MAX / 1_000_000 {
            u64::MAX
        } else {
            ms * 1_000_000
        };
        assert(ms > u64::MAX / 1_000_000 <==> ms * 1_000_000 > u64::MAX) by (nonlinear_arith);
        Stopwatch { started_at: now, accumulated }
    }
}

/// The saved stopwatches of a world: each id with its elapsed milliseconds.
#[derive(Debug, PartialEq, Eq)]
pub struct StopwatchesData {
    pub stopwatches: Vec<(String, i64)>,
    pub data_version: i32,
}

impl StopwatchesData {
    /// No saved stopwatches.
    pub fn new(data_version: i32) -> (r: StopwatchesData)
        ensures
            r.stopwatches@.len() == 0,
            r.data_version == data_version,
    {
        StopwatchesData { stopwatches: Vec::new(), data_version }
    }
}

pub open spec fn id_is(id: IdentifierView) -> spec_fn((IdentifierView, Stopwatch)) -> bool {
    |e: (IdentifierView, Stopwatch)| e.0 == id
}

/// The stopwatch of `id` in `s`.
pub open spec fn lookup(s: Seq<(IdentifierView, Stopwatch)>, id: IdentifierView) -> Option<Stopwatch> {
    match first_where(s, id_is(id)) {
        Some(i) => Some(s[i].1),
        None => None,
    }
}

/// `s` with the stopwatch of `id` set to `w`: replaced in place, or
/// appended.
pub open spec fn put(s: Seq<(IdentifierView, Stopwatch)>, id: IdentifierView, w: Stopwatch) -> Seq<
    (IdentifierView, Stopwatch),
> {
    match first_where(s, id_is(id)) {
        Some(i) => s.update(i, (id, w)),
        None => s.push((id, w)),
    }
}

/// The stopwatches that saved data restores at `now`, in the saved order; a
/// later entry for the same id replaces an earlier one, and ids that do not
/// parse are dropped.
pub open spec fn restored_all(d: Seq<(Seq<char>, i64)>, now: u64) -> Seq<(IdentifierView, Stopwatch)>
    decreases d.len(),
{
    if d.len() == 0 {
        Seq::empty()
    } else {
        let rest = restored_all(d.drop_last(), now);
        match parse_identifier(d.last().0) {
            Some(id) => put(rest, id, restored(d.last().1, now)),
            None => rest,
        }
    }
}

/// Each id occurs once.
pub open spec fn unique_ids(s: Seq<(IdentifierView, Stopwatch)>) -> bool {
    forall|i: int, j: int| 0 <= i < j < s.len() ==> s[i].0 != s[j].0
}

/// The stopwatches of a server.
pub struct StopwatchManager {
    stopwatches: Vec<(Identifier, Stopwatch)>,
}

impl View for StopwatchManager {
    type V = Seq<(IdentifierView, Stopwatch)>;

    closed spec fn view(&self) -> Seq<(IdentifierView, Stopwatch)> {
        self.stopwatches@.map_values(|e: (Identifier, Stopwatch)| (e.0@, e.1))
    }
}

proof fn lemma_put(s: Seq<(IdentifierView, Stopwatch)>, id: IdentifierView, w: Stopwatch)
    requires
        unique_ids(s),
    ensures
        unique_ids(put(s, id, w)),
        lookup(put(s, id, w), id) == Some(w),
        forall|other: IdentifierView| other != id ==> #[trigger] lookup(put(s, id, w), other) == lookup(s, other),
{
    lemma_first_where_some(s, id_is(id));
    let r = put(s, id, w);
    match first_where(s, id_is(id)) {
        Some(i) => {
            assert forall|a: int, b: int| 0 <= a < b < r.len() implies r[a].0 != r[b].0 by {}
            lemma_first_where(r, id_is(id), i);
            assert forall|other: IdentifierView| other != id implies #[trigger] lookup(r, other) == lookup(s, other) by {
                crate::text::lemma_first_where_update(s, id_is(other), i, (id, w));
            }
        },
        None => {
            assert forall|a: int, b: int| 0 <= a < b < r.len() implies r[a].0 != r[b].0 by {
                if b == s.len() {
                    assert(!id_is(id)(s[a]));
                }
            }
            crate::text::lemma_first_where_push(s, id_is(id), (id, w));
            assert forall|other: IdentifierView| other != id implies #[trigger] lookup(r, other) == lookup(s, other) by {
                crate::text::lemma_first_where_push(s, id_is(other), (id, w));
            }
        },
    }
}

impl StopwatchManager {
    #[verifier::type_invariant]
    spec fn ids_unique(self) -> bool {
        unique_ids(self@)
    }

    fn find(&self, id: &Identifier) -> (r: Option<usize>)
        ensures
            match r {
                Some(i) => first_where(self@, id_is(id@)) == Some(i as int) && i < self.stopwatches@.len(),
                None => first_where(self@, id_is(id@)) is None,
            },
    {
        let mut i: usize = 0;
        while i < self.stopwatches.len()
            invariant
                i <= self.stopwatches@.len(),
                forall|j: int| 0 <= j < i ==> !id_is(id@)(#[trigger] self@[j]),
            decreases self.stopwatches@.len() - i,
        {
            let e = &self.stopwatches[i];
            proof {
                assert(self@[i as int] == (e.0@, e.1));
            }
            if string_eq(&e.0.namespace, &id.namespace) && string_eq(&e.0.path, &id.path) {
                proof {
                    lemma_first_where(self@, id_is(id@), i as int);
                }
                return Some(i);
            }
            i = i + 1;
        }
        proof {
            lemma_first_where_none(self@, id_is(id@));
        }
        None
    }

    /// Sets the stopwatch of `id` to `w`; see [`put`].
    fn put(&mut self, id: Identifier, w: Stopwatch)
        ensures
            final(self)@ == put(old(self)@, id@, w),
    {
        proof {
            use_type_invariant(&*self);
            lemma_put(self@, id@, w);
        }
        let ghost v = self@;
        let ghost idv = id@;
        match self.find(&id) {
            Some(i) => {
                let mut all = Vec::new();
                std::mem::swap(&mut all, &mut self.stopwatches);
                all.set(i, (id, w));
                assert(all@.map_values(|e: (Identifier, Stopwatch)| (e.0@, e.1)) =~= v.update(i as int, (idv, w)));
                self.stopwatches = all;
                proof {
                    assert(self@ =~= v.update(i as int, (idv, w)));
                }
            },
            None => {
                let mut all = Vec::new();
                std::mem::swap(&mut all, &mut self.stopwatches);
                all.push((id, w));
                assert(all@.map_values(|e: (Identifier, Stopwatch)| (e.0@, e.1)) =~= v.push((idv, w)));
                self.stopwatches = all;
                proof {
                    assert(self@ =~= v.push((idv, w)));
                }
            },
        }
    }

    /// The stopwatches saved in `data`, restored at `now`; see
    /// [`restored_all`].
    pub fn new(data: &StopwatchesData, now: u64) -> (r: StopwatchManager)
        ensures
            r@ == restored_all(data.stopwatches@.map_values(|e: (String, i64)| (e.0@, e.1)), now),
    {
        let ghost d = data.stopwatches@.map_values(|e: (String, i64)| (e.0@, e.1));
        let mut m = StopwatchManager { stopwatches: Vec::new() };
        proof {
            assert(m@ =~= Seq::<(IdentifierView, Stopwatch)>::empty());
        }
        let mut i: usize = 0;
        while i < data.stopwatches.len()
            invariant
                i <= data.stopwatches@.len(),
                d == data.stopwatches@.map_values(|e: (String, i64)| (e.0@, e.1)),
                m@ == restored_all(d.take(i as int), now),
            decreases data.stopwatches@.len() - i,
        {
            let entry = &data.stopwatches[i];
            proof {
                assert(d.take(i + 1).drop_last() =~= d.take(i as int));
                assert(d.take(i + 1).last() == (entry.0@, entry.1));
            }
            if let Some(id) = Identifier::parse(entry.0.as_str()) {
                m.put(id, Stopwatch::from_elapsed_milliseconds(entry.1, now));
            }
            i = i + 1;
        }
        proof {
            assert(d.take(d.len() as int) =~= d);
        }
        m
    }

    /// Starts a new stopwatch for `id` at `now`; `false`, changing nothing,
    /// when `id` already has one.
    pub fn create(&mut self, id: Identifier, now: u64) -> (r: bool)
        ensures
            r == (lookup(old(self)@, id@) is None),
            r ==> final(self)@ == put(old(self)@, id@, Stopwatch { started_at: now, accumulated: 0 }),
            !r ==> final(self)@ == old(self)@,
    {
        if self.find(&id).is_some() {
            return false;
        }
        self.put(id, Stopwatch { started_at: now, accumulated: 0 });
        true
    }

    /// The time the stopwatch of `id` shows at `now`, in nanoseconds.
    pub fn elapsed_nanos(&self, id: &Identifier, now: u64) -> (r: Option<u64>)
        ensures
            r == match lookup(self@, id@) {
                Some(w) => Some(elapsed_at(w, now)),
                None => None,
            },
    {
        match self.find(id) {
            Some(i) => {
                proof {
                    assert(self@[i as int].1 == self.stopwatches@[i as int].1);
                }
                Some(self.stopwatches[i].1.elapsed(now))
            },
            None => None,
        }
    }

    /// Starts the stopwatch of `id` again from zero at `now`; `false` when
    /// `id` has none.
    pub fn restart(&mut self, id: &Identifier, now: u64) -> (r: bool)
        ensures
            r == (lookup(old(self)@, id@) is Some),
            r ==> final(self)@ == put(old(self)@, id@, Stopwatch { started_at: now, accumulated: 0 }),
            !r ==> final(self)@ == old(self)@,
    {
        if self.find(id).is_none() {
            return false;
        }
        self.put(id.copy(), Stopwatch { started_at: now, accumulated: 0 });
        true
    }

    /// Deletes the stopwatch of `id`; `false` when it has none.
    pub fn remove(&mut self, id: &Identifier) -> (r: bool)
        ensures
            r == (lookup(old(self)@, id@) is Some),
            lookup(final(self)@, id@) is None,
            forall|other: IdentifierView| other != id@ ==> #[trigger] lookup(final(self)@, other)
                == lookup(old(self)@, other),
    {
        proof {
            use_type_invariant(&*self);
        }
        let ghost v = self@;
        match self.find(id) {
            Some(i) => {
                let mut all = Vec::new();
                std::mem::swap(&mut all, &mut self.stopwatches);
                all.remove(i);
                proof {
                    let r = all@.map_values(|e: (Identifier, Stopwatch)| (e.0@, e.1));
                    assert(r =~= v.remove(i as int));
                    assert forall|a: int, b: int| 0 <= a < b < r.len() implies r[a].0 != r[b].0 by {
                        let a2 = if a < i { a } else { a + 1 };
                        let b2 = if b < i { b } else { b + 1 };
                        assert(r[a] == v[a2]);
                        assert(r[b] == v[b2]);
                    }
                }
                self.stopwatches = all;
                proof {
                    let idv = id@;
                    assert(self@ =~= v.remove(i as int));
                    lemma_first_where_some(v, id_is(idv));
                    assert forall|j: int| 0 <= j < self@.len() implies !id_is(idv)(#[trigger] self@[j]) by {
                        if j >= i {
                            assert(self@[j] == v[j + 1]);
                        }
                    }
                    lemma_first_where_none(self@, id_is(idv));
                    assert forall|other: IdentifierView| other != idv implies #[trigger] lookup(self@, other)
                        == lookup(v, other) by {
                        crate::text::lemma_first_where_remove(v, id_is(other), i as int);
                    }
                }
                true
            },
            None => false,
        }
    }
}


/// `a` sorts strictly before `b`: by namespace, then by path.
pub open spec fn id_lt(a: IdentifierView, b: IdentifierView) -> bool {
    chars_lt(a.namespace, b.namespace) || (a.namespace == b.namespace && chars_lt(a.path, b.path))
}

proof fn lemma_id_lt_transitive(a: IdentifierView, b: IdentifierView, c: IdentifierView)
    requires
        id_lt(a, b),
        id_lt(b, c),
    ensures
        id_lt(a, c),
{
    if chars_lt(a.namespace, b.namespace) && chars_lt(b.namespace, c.namespace) {
        lemma_chars_lt_transitive(a.namespace, b.namespace, c.namespace);
    } else if a.namespace == b.namespace && chars_lt(a.path, b.path) && b.namespace == c.namespace
        && chars_lt(b.path, c.path) {
        lemma_chars_lt_transitive(a.path, b.path, c.path);
    }
}

proof fn lemma_id_lt_total(a: IdentifierView, b: IdentifierView)
    ensures
        a == b || id_lt(a, b) || id_lt(b, a),
{
    lemma_chars_lt_total(a.namespace, b.namespace);
    lemma_chars_lt_total(a.path, b.path);
}

pub open spec fn ids_view(ids: Seq<Identifier>) -> Seq<IdentifierView> {
    ids.map_values(|id: Identifier| id@)
}

/// Each id sorts strictly before the next.
pub open spec fn ids_sorted(s: Seq<IdentifierView>) -> bool {
    forall|i: int, j: int| 0 <= i < j < s.len() ==> id_lt(#[trigger] s[i], #[trigger] s[j])
}

fn id_before(a: &Identifier, b: &Identifier) -> (r: bool)
    ensures
        r == id_lt(a@, b@),
{
    str_before(a.namespace.as_str(), b.namespace.as_str()) || (string_eq(&a.namespace, &b.namespace)
        && str_before(a.path.as_str(), b.path.as_str()))
}

/// Inserts `x`, which is not in the sorted list `v`, at its place.
fn insert_id_sorted(v: &mut Vec<Identifier>, x: Identifier)
    requires
        ids_sorted(ids_view(old(v)@)),
        !ids_view(old(v)@).contains(x@),
    ensures
        ids_sorted(ids_view(final(v)@)),
        forall|n: IdentifierView| #[trigger] ids_view(final(v)@).contains(n) <==> (ids_view(
            old(v)@,
        ).contains(n) || n == x@),
{
    let ghost old_view = ids_view(v@);
    let mut p: usize = 0;
    while p < v.len() && id_before(&v[p], &x)
        invariant
            p <= v@.len(),
            old_view == ids_view(v@),
            forall|j: int| 0 <= j < p ==> id_lt(#[trigger] old_view[j], x@),
        decreases v@.len() - p,
    {
        p = p + 1;
    }
    proof {
        if p < v@.len() {
            lemma_id_lt_total(old_view[p as int], x@);
            assert(old_view[p as int] != x@);
        }
    }
    let ghost xv = x@;
    v.insert(p, x);
    let ghost new_view = ids_view(v@);
    proof {
        assert(new_view =~= old_view.insert(p as int, xv));
        old_view.insert_ensures(p as int, xv);
        assert forall|i: int, j: int| 0 <= i < j < new_view.len() implies id_lt(
            #[trigger] new_view[i],
            #[trigger] new_view[j],
        ) by {
            if j < p {
            } else if j == p {
                assert(new_view[i] == old_view[i]);
            } else if i < p {
                assert(new_view[j] == old_view[j - 1]);
                lemma_id_lt_transitive(old_view[i], xv, old_view[p as int]);
                if j - 1 > p {
                    lemma_id_lt_transitive(old_view[i], old_view[p as int], old_view[j - 1]);
                }
            } else if i == p {
                assert(new_view[j] == old_view[j - 1]);
                if j - 1 > p {
                    lemma_id_lt_transitive(xv, old_view[p as int], old_view[j - 1]);
                }
            } else {
                assert(new_view[i] == old_view[i - 1]);
                assert(new_view[j] == old_view[j - 1]);
            }
        }
        assert forall|n: IdentifierView| new_view.contains(n) <==> (old_view.contains(n) || n == xv) by {
            if old_view.contains(n) {
                let k = choose|k: int| 0 <= k < old_view.len() && old_view[k] == n;
                if k < p {
                    assert(new_view[k] == n);
                } else {
                    assert(new_view[k + 1] == n);
                }
            }
            if n == xv {
                assert(new_view[p as int] == n);
            }
            if new_view.contains(n) {
                let k = choose|k: int| 0 <= k < new_view.len() && new_view[k] == n;
                if k < p {
                    assert(old_view[k] == n);
                } else if k > p {
                    assert(old_view[k - 1] == n);
                }
            }
        }
    }
}

/// The form in which a stopwatch's id is saved.
pub open spec fn written_id(id: IdentifierView) -> Seq<char> {
    id.namespace + seq![':'] + id.path
}

/// The saved form of the stopwatches at `now`: each id with its elapsed
/// whole milliseconds, in the stored order.
pub open spec fn saved_at(s: Seq<(IdentifierView, Stopwatch)>, now: u64) -> Seq<(Seq<char>, i64)> {
    s.map_values(
        |e: (IdentifierView, Stopwatch)| (written_id(e.0), (elapsed_at(e.1, now) / 1_000_000) as i64),
    )
}

impl StopwatchManager {
    /// The ids of all stopwatches, sorted by namespace, then path.
    pub fn ids(&self) -> (r: Vec<Identifier>)
        ensures
            ids_sorted(ids_view(r@)),
            forall|id: IdentifierView| #[trigger] ids_view(r@).contains(id) <==> lookup(self@, id) is Some,
    {
        proof {
            use_type_invariant(self);
        }
        let mut ids: Vec<Identifier> = Vec::new();
        let mut i: usize = 0;
        proof {
            assert(ids_view(ids@) =~= Seq::<IdentifierView>::empty());
        }
        while i < self.stopwatches.len()
            invariant
                i <= self.stopwatches@.len(),
                unique_ids(self@),
                ids_sorted(ids_view(ids@)),
                forall|id: IdentifierView|
                    #[trigger] ids_view(ids@).contains(id) <==> exists|j: int|
                        0 <= j < i && #[trigger] self@[j].0 == id,
            decreases self.stopwatches@.len() - i,
        {
            let ghost before = ids_view(ids@);
            proof {
                assert(self@[i as int].0 == self.stopwatches@[i as int].0@);
                if before.contains(self@[i as int].0) {
                    let j = choose|j: int| 0 <= j < i && #[trigger] self@[j].0 == self@[i as int].0;
                    assert(false);
                }
            }
            insert_id_sorted(&mut ids, self.stopwatches[i].0.copy());
            proof {
                assert forall|id: IdentifierView| #[trigger] ids_view(ids@).contains(id) <==> exists|j: int|
                    0 <= j < i + 1 && #[trigger] self@[j].0 == id by {
                    if id == self@[i as int].0 {
                        assert(self@[i as int].0 == id);
                    }
                    if exists|j: int| 0 <= j < i + 1 && #[trigger] self@[j].0 == id {
                        let j = choose|j: int| 0 <= j < i + 1 && #[trigger] self@[j].0 == id;
                        if j < i {
                            assert(before.contains(id));
                        }
                    }
                }
            }
            i = i + 1;
        }
        proof {
            assert forall|id: IdentifierView| #[trigger] ids_view(ids@).contains(id) <==> lookup(self@, id) is Some by {
                lemma_first_where_some(self@, id_is(id));
                if exists|j: int| 0 <= j < self@.len() && #[trigger] self@[j].0 == id {
                    let j = choose|j: int| 0 <= j < self@.len() && #[trigger] self@[j].0 == id;
                    assert(id_is(id)(self@[j]));
                }
            }
        }
        ids
    }

    /// The stopwatches in the form they are saved, at `now`.
    pub fn snapshot(&self, data_version: i32, now: u64) -> (r: StopwatchesData)
        ensures
            r.data_version == data_version,
            r.stopwatches@.map_values(|e: (String, i64)| (e.0@, e.1)) == saved_at(self@, now),
    {
        let mut saved: Vec<(String, i64)> = Vec::new();
        let mut i: usize = 0;
        while i < self.stopwatches.len()
            invariant
                i <= self.stopwatches@.len(),
                saved@.len() == i,
                forall|j: int|
                    0 <= j < i ==> (#[trigger] saved@[j]).0@ == saved_at(self@, now)[j].0
                        && saved@[j].1 == saved_at(self@, now)[j].1,
            decreases self.stopwatches@.len() - i,
        {
            let entry = &self.stopwatches[i];
            let millis = entry.1.elapsed(now) / 1_000_000;
            proof {
                assert(self@[i as int] == (entry.0@, entry.1));
            }
            saved.push((entry.0.to_string(), millis as i64));
            i = i + 1;
        }
        proof {
            assert(saved@.map_values(|e: (String, i64)| (e.0@, e.1)) =~= saved_at(self@, now));
        }
        StopwatchesData { stopwatches: saved, data_version }
    }
}

/// What a stopwatch command does.
#[derive(Clone, Copy, Debug, PartialEq, Eq, Structural)]
pub enum StopwatchOperation {
    Create,
    QueryDefault,
    QueryScaled,
    Restart,
    Remove,
}

/// How a stopwatch command succeeded.
#[derive(Debug, PartialEq, Eq)]
pub enum StopwatchFeedback {
    Created,
    /// The stopwatch showed this many nanoseconds.
    Queried(u64),
    Restarted,
    Removed,
}

/// Why a stopwatch command failed.
#[derive(Debug, PartialEq, Eq)]
pub enum StopwatchError {
    AlreadyExists,
    DoesNotExist,
}

/// Runs a stopwatch command on `id` at `now`: creating fails when the
/// stopwatch exists, the other operations when it does not.
pub fn execute_stopwatch(
    manager: &mut StopwatchManager,
    operation: StopwatchOperation,
    id: &Identifier,
    now: u64,
) -> (r: Result<StopwatchFeedback, StopwatchError>)
    ensures
        match operation {
            StopwatchOperation::Create => match lookup(old(manager)@, id@) {
                Some(_) => r == Err::<StopwatchFeedback, StopwatchError>(StopwatchError::AlreadyExists)
                    && final(manager)@ == old(manager)@,
                None => r == Ok::<StopwatchFeedback, StopwatchError>(StopwatchFeedback::Created)
                    && final(manager)@ == put(
                    old(manager)@,
                    id@,
                    Stopwatch { started_at: now, accumulated: 0 },
                ),
            },
            StopwatchOperation::QueryDefault | StopwatchOperation::QueryScaled => final(manager)@
                == old(manager)@ && match lookup(old(manager)@, id@) {
                Some(w) => r == Ok::<StopwatchFeedback, StopwatchError>(
                    StopwatchFeedback::Queried(elapsed_at(w, now)),
                ),
                None => r == Err::<StopwatchFeedback, StopwatchError>(StopwatchError::DoesNotExist),
            },
            StopwatchOperation::Restart => match lookup(old(manager)@, id@) {
                Some(_) => r == Ok::<StopwatchFeedback, StopwatchError>(StopwatchFeedback::Restarted)
                    && final(manager)@ == put(
                    old(manager)@,
                    id@,
                    Stopwatch { started_at: now, accumulated: 0 },
                ),
                None => r == Err::<StopwatchFeedback, StopwatchError>(StopwatchError::DoesNotExist)
                    && final(manager)@ == old(manager)@,
            },
            StopwatchOperation::Remove => {
                &&& r == if lookup(old(manager)@, id@) is Some {
                    Ok::<StopwatchFeedback, StopwatchError>(StopwatchFeedback::Removed)
                } else {
                    Err::<StopwatchFeedback, StopwatchError>(StopwatchError::DoesNotExist)
                }
                &&& lookup(final(manager)@, id@) is None
                &&& forall|other: IdentifierView| other != id@ ==> #[trigger] lookup(final(manager)@, other)
                    == lookup(old(manager)@, other)
            },
        },
{
    match operation {
        StopwatchOperation::Create => {
            if manager.create(id.copy(), now) {
                Ok(StopwatchFeedback::Created)
            } else {
                Err(StopwatchError::AlreadyExists)
            }
        },
        StopwatchOperation::QueryDefault | StopwatchOperation::QueryScaled => {
            match manager.elapsed_nanos(id, now) {
                Some(nanos) => Ok(StopwatchFeedback::Queried(nanos)),
                None => Err(StopwatchError::DoesNotExist),
            }
        },
        StopwatchOperation::Restart => {
            if manager.restart(id, now) {
                Ok(StopwatchFeedback::Restarted)
            } else {
                Err(StopwatchError::DoesNotExist)
            }
        },
        StopwatchOperation::Remove => {
            if manager.remove(id) {
                Ok(StopwatchFeedback::Removed)
            } else {
                Err(StopwatchError::DoesNotExist)
            }
        },
    }
}

/// A stopwatch that is created or restarted shows no time at that moment.
pub proof fn lemma_started_shows_zero(s: Seq<(IdentifierView, Stopwatch)>, id: IdentifierView, now: u64)
    requires
        unique_ids(s),
    ensures
        lookup(put(s, id, Stopwatch { started_at: now, accumulated: 0 }), id) == Some(
            Stopwatch { started_at: now, accumulated: 0 },
        ),
        elapsed_at(Stopwatch { started_at: now, accumulated: 0 }, now) == 0,
{
    lemma_put(s, id, Stopwatch { started_at: now, accumulated: 0 });
}


/// A valid identifier, written out, reads back as itself.
pub proof fn lemma_written_id_parses(id: IdentifierView)
    requires
        id.namespace.len() > 0,
        all_namespace_chars(id.namespace),
        all_path_chars(id.path),
    ensures
        parse_identifier(written_id(id)) == Some(id),
{
    let w = written_id(id);
    let n = id.namespace.len() as int;
    assert(w[n] == ':');
    assert forall|j: int| 0 <= j < n implies w[j] != ':' by {
        assert(w[j] == id.namespace[j]);
        assert(namespace_char(id.namespace[j]));
    }
    assert(is_first_index(w, ':', n));
    lemma_first_index(w, ':', n);
    assert(w.subrange(0, n) =~= id.namespace);
    assert(w.subrange(n + 1, w.len() as int) =~= id.path);
}

/// The stopwatch that `w` becomes when it is saved at `then` and restored
/// at `now`.
pub open spec fn reloaded(w: Stopwatch, then: u64, now: u64) -> Stopwatch {
    restored((elapsed_at(w, then) / 1_000_000) as i64, now)
}

proof fn lemma_reloaded(w: Stopwatch, then: u64, now: u64)
    ensures
        reloaded(w, then, now) == (Stopwatch {
            started_at: now,
            accumulated: ((elapsed_at(w, then) / 1_000_000) * 1_000_000) as u64,
        }),
{
    let e = elapsed_at(w, then);
    assert((e / 1_000_000) * 1_000_000 <= e) by (nonlinear_arith);
    assert(e / 1_000_000 <= i64::MAX) by (nonlinear_arith)
        requires e <= u64::MAX;
}

/// Saving the stopwatches at `then` and restoring them at `now` gives each
/// stopwatch back, started at `now`, with the whole milliseconds it showed
/// when saved; the time in between is not counted.
pub proof fn lemma_snapshot_restore(s: Seq<(IdentifierView, Stopwatch)>, then: u64, now: u64)
    requires
        unique_ids(s),
        forall|i: int|
            0 <= i < s.len() ==> (#[trigger] s[i]).0.namespace.len() > 0 && all_namespace_chars(
                s[i].0.namespace,
            ) && all_path_chars(s[i].0.path),
    ensures
        unique_ids(restored_all(saved_at(s, then), now)),
        forall|id: IdentifierView| #[trigger] lookup(restored_all(saved_at(s, then), now), id) == match lookup(
            s,
            id,
        ) {
            Some(w) => Some(
                Stopwatch {
                    started_at: now,
                    accumulated: ((elapsed_at(w, then) / 1_000_000) * 1_000_000) as u64,
                },
            ),
            None => None,
        },
    decreases s.len(),
{
    let d = saved_at(s, then);
    if s.len() == 0 {
        assert forall|id: IdentifierView| #[trigger] lookup(restored_all(d, now), id) == match lookup(s, id) {
            Some(w) => Some(
                Stopwatch {
                    started_at: now,
                    accumulated: ((elapsed_at(w, then) / 1_000_000) * 1_000_000) as u64,
                },
            ),
            None => None,
        } by {
            lemma_first_where_none(s, id_is(id));
        }
    } else {
        let rest = s.drop_last();
        let last = s.last();
        assert(unique_ids(rest));
        lemma_snapshot_restore(rest, then, now);
        assert(d.drop_last() =~= saved_at(rest, then));
        lemma_written_id_parses(last.0);
        let r0 = restored_all(saved_at(rest, then), now);
        let w = reloaded(last.1, then, now);
        lemma_reloaded(last.1, then, now);
        assert(restored_all(d, now) == put(r0, last.0, w));
        lemma_put(r0, last.0, w);
        assert(s =~= rest.push(last));
        assert forall|id: IdentifierView| #[trigger] lookup(restored_all(d, now), id) == match lookup(s, id) {
            Some(w) => Some(
                Stopwatch {
                    started_at: now,
                    accumulated: ((elapsed_at(w, then) / 1_000_000) * 1_000_000) as u64,
                },
            ),
            None => None,
        } by {
            crate::text::lemma_first_where_push(rest, id_is(id), last);
            if id == last.0 {
                assert forall|j: int| 0 <= j < rest.len() implies !id_is(id)(#[trigger] rest[j]) by {
                    assert(rest[j] == s[j]);
                }
                lemma_first_where_none(rest, id_is(id));
            }
        }
    }
}
} // verus!
