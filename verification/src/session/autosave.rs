//! When the autosave engine writes.
//!
//! Nothing is written on a timer. Work is triggered by a buffer changing and
//! then debounced: a document's mirror is written once the user pauses, with a
//! ceiling so that someone typing without stopping still gets saved
//! regularly. Times are milliseconds on a monotonic clock; the delays are
//! whole seconds.

use vstd::prelude::*;

verus! {

/// What the disk side is asked to do with one document's contents.
pub struct Job {
    pub key: String,
    pub contents: Vec<u8>,
    /// False for documents too large to keep history for; the mirror is still
    /// written, because recovery matters regardless of size.
    pub keep_history: bool,
    pub history_limit: usize,
}

/// What came back from the disk side.
pub enum Outcome {
    Written { key: String },
    /// Nothing needed doing: the contents were already mirrored.
    Unchanged { key: String },
    Failed { key: String, error: String },
}

/// The outcome of writing a job's mirror: `Ok(true)` when it was written,
/// `Ok(false)` when it already held these contents, or the error.
pub fn outcome_of(key: String, mirror: Result<bool, String>) -> (r: Outcome)
    ensures
        mirror matches Ok(true) ==> r matches Outcome::Written { key: k } && k@ == key@,
        mirror matches Ok(false) ==> r matches Outcome::Unchanged { key: k } && k@ == key@,
        mirror matches Err(e) ==> r matches Outcome::Failed { key: k, error: m } && k@ == key@
            && m@ == e@,
{
    match mirror {
        Ok(true) => Outcome::Written { key },
        Ok(false) => Outcome::Unchanged { key },
        Err(error) => Outcome::Failed { key, error },
    }
}

/// Whether history is kept after a mirror write: only for a job that asks for
/// it and only when the mirror was actually rewritten.
pub fn keeps_history(job: &Job, mirror: &Result<bool, String>) -> (r: bool)
    ensures
        r == (job.keep_history && mirror matches Ok(true)),
{
    job.keep_history && match mirror {
        Ok(written) => *written,
        Err(_) => false,
    }
}

/// Milliseconds from `then` to `now`, or 0 when `now` is earlier.
pub open spec fn elapsed(then: u64, now: u64) -> int {
    if now >= then {
        now - then
    } else {
        0
    }
}

/// A document's entry: its id, and when it first became dirty since it was
/// last written.
pub type Dirty = (u64, u64);

/// Entries in increasing id order, each id once.
pub open spec fn sorted_ids(s: Seq<Dirty>) -> bool {
    forall|i: int, j: int| 0 <= i < j < s.len() ==> #[trigger] s[i].0 < #[trigger] s[j].0
}

pub open spec fn has_id(s: Seq<Dirty>, id: u64) -> bool {
    exists|i: int| 0 <= i < s.len() && #[trigger] s[i].0 == id
}

pub open spec fn id_below(id: u64) -> spec_fn(Dirty) -> bool {
    |e: Dirty| e.0 < id
}

pub open spec fn id_above(id: u64) -> spec_fn(Dirty) -> bool {
    |e: Dirty| e.0 > id
}

pub open spec fn id_other(id: u64) -> spec_fn(Dirty) -> bool {
    |e: Dirty| e.0 != id
}

/// The entries after a change to document `id` at `now`: a document already
/// dirty keeps the time it first became so.
pub open spec fn mark_spec(s: Seq<Dirty>, id: u64, now: u64) -> Seq<Dirty> {
    if has_id(s, id) {
        s
    } else {
        s.filter(id_below(id)) + seq![(id, now)] + s.filter(id_above(id))
    }
}

/// Whether the user has paused for the idle delay since the last change.
pub open spec fn paused(last: Option<u64>, idle: u64, now: u64) -> bool {
    match last {
        Some(t) => elapsed(t, now) >= idle * 1000,
        None => false,
    }
}

/// Whether an entry is due: after a pause, or once it has waited the ceiling.
pub open spec fn due_pred(last: Option<u64>, idle: u64, ceiling: u64, now: u64) -> spec_fn(
    Dirty,
) -> bool {
    |e: Dirty| paused(last, idle, now) || elapsed(e.1, now) >= ceiling * 1000
}

/// The ids that are due, in increasing order.
pub open spec fn due_spec(s: Seq<Dirty>, last: Option<u64>, idle: u64, ceiling: u64, now: u64) -> Seq<
    u64,
> {
    s.filter(due_pred(last, idle, ceiling, now)).map_values(|e: Dirty| e.0)
}

/// Decides when a mirror should be written.
pub struct Schedule {
    idle: u64,
    ceiling: u64,
    dirty: Vec<Dirty>,
    last_change: Option<u64>,
}

impl Schedule {
    #[verifier::type_invariant]
    spec fn wf(self) -> bool {
        &&& self.ceiling >= self.idle
        &&& sorted_ids(self.dirty@)
    }

    /// The idle delay, in seconds.
    pub closed spec fn idle(&self) -> u64 {
        self.idle
    }

    /// The ceiling, in seconds.
    pub closed spec fn ceiling(&self) -> u64 {
        self.ceiling
    }

    /// The dirty documents in id order, with when each became dirty.
    pub closed spec fn entries(&self) -> Seq<Dirty> {
        self.dirty@
    }

    /// When the last change happened.
    pub closed spec fn last(&self) -> Option<u64> {
        self.last_change
    }

    /// A schedule with nothing dirty. The ceiling is never shorter than the
    /// idle delay, whatever order the two were given in.
    pub fn new(idle_seconds: u64, ceiling_seconds: u64) -> (r: Schedule)
        ensures
            r.idle() == idle_seconds,
            r.ceiling() == if ceiling_seconds >= idle_seconds {
                ceiling_seconds
            } else {
                idle_seconds
            },
            r.entries() == Seq::<Dirty>::empty(),
            r.last() is None,
    {
        let ceiling = if ceiling_seconds >= idle_seconds {
            ceiling_seconds
        } else {
            idle_seconds
        };
        Schedule { idle: idle_seconds, ceiling, dirty: Vec::new(), last_change: None }
    }

    /// The idle delay, in seconds.
    pub fn idle_seconds(&self) -> (r: u64)
        ensures
            r == self.idle(),
    {
        self.idle
    }

    /// The ceiling, in seconds.
    pub fn ceiling_seconds(&self) -> (r: u64)
        ensures
            r == self.ceiling(),
            r >= self.idle(),
    {
        proof {
            use_type_invariant(self);
        }
        self.ceiling
    }

    /// Notes that document `id` changed at `now`.
    pub fn mark_dirty(&mut self, id: u64, now: u64)
        ensures
            final(self).entries() == mark_spec(old(self).entries(), id, now),
            final(self).last() == Some(now),
            final(self).idle() == old(self).idle(),
            final(self).ceiling() == old(self).ceiling(),
    {
        proof {
            use_type_invariant(&*self);
        }
        let n = self.dirty.len();
        let mut k: usize = 0;
        while k < n && self.dirty[k].0 < id
            invariant
                n == self.dirty@.len(),
                k <= n,
                forall|i: int| 0 <= i < k ==> #[trigger] self.dirty@[i].0 < id,
            decreases n - k,
        {
            k += 1;
        }
        if k < n && self.dirty[k].0 == id {
            assert(has_id(self.dirty@, id));
            self.last_change = Some(now);
            return;
        }
        proof {
            if k < n {
                lemma_sorted_from(self.dirty@, id, k as int);
            }
            assert(!has_id(self.dirty@, id)) by {
                if has_id(self.dirty@, id) {
                    let i = choose|i: int| 0 <= i < self.dirty@.len() && #[trigger] self.dirty@[i].0 == id;
                }
            }
            lemma_filter_split(self.dirty@, id, k as int);
            let t = self.dirty@.take(k as int) + seq![(id, now)] + self.dirty@.skip(k as int);
            assert(self.dirty@.insert(k as int, (id, now)) == t);
            assert(sorted_ids(t)) by {
                assert forall|i: int, j: int| 0 <= i < j < t.len() implies #[trigger] t[i].0
                    < #[trigger] t[j].0 by {
                    if j < k {
                    } else if j == k {
                    } else if i < k {
                        assert(t[j] == self.dirty@[j - 1]);
                    } else if i == k {
                        assert(t[j] == self.dirty@[j - 1]);
                    } else {
                        assert(t[i] == self.dirty@[i - 1]);
                        assert(t[j] == self.dirty@[j - 1]);
                    }
                }
            }
        }
        let mut dirty: Vec<Dirty> = Vec::new();
        std::mem::swap(&mut dirty, &mut self.dirty);
        dirty.insert(k, (id, now));
        self.dirty = dirty;
        self.last_change = Some(now);
    }

    /// Whether document `id` has changes not yet handed over.
    pub fn is_dirty(&self, id: u64) -> (r: bool)
        ensures
            r == has_id(self.entries(), id),
    {
        let mut i: usize = 0;
        while i < self.dirty.len()
            invariant
                i <= self.dirty@.len(),
                forall|j: int| 0 <= j < i ==> #[trigger] self.dirty@[j].0 != id,
            decreases self.dirty@.len() - i,
        {
            if self.dirty[i].0 == id {
                return true;
            }
            i += 1;
        }
        false
    }

    /// Whether any document has changes not yet handed over.
    pub fn has_work(&self) -> (r: bool)
        ensures
            r == (self.entries().len() > 0),
    {
        self.dirty.len() > 0
    }

    /// Which documents should be written now, in increasing id order.
    ///
    /// Either the user has paused for the idle delay, and every dirty
    /// document is due, or a document has been waiting since the ceiling and
    /// must not wait any longer: the second protects someone who types
    /// without stopping.
    pub fn due(&self, now: u64) -> (r: Vec<u64>)
        ensures
            r@ == due_spec(self.entries(), self.last(), self.idle(), self.ceiling(), now),
    {
        let pause = match self.last_change {
            Some(t) => {
                let gap: u64 = if now >= t {
                    now - t
                } else {
                    0
                };
                gap as u128 >= self.idle as u128 * 1000
            },
            None => false,
        };
        let ghost pred = due_pred(self.last_change, self.idle, self.ceiling, now);
        let mut out: Vec<u64> = Vec::new();
        let mut i: usize = 0;
        while i < self.dirty.len()
            invariant
                i <= self.dirty@.len(),
                pause == paused(self.last_change, self.idle, now),
                pred == due_pred(self.last_change, self.idle, self.ceiling, now),
                out@ == self.dirty@.take(i as int).filter(pred).map_values(|e: Dirty| e.0),
            decreases self.dirty@.len() - i,
        {
            let (id, since) = self.dirty[i];
            let wait: u64 = if now >= since {
                now - since
            } else {
                0
            };
            let over = wait as u128 >= self.ceiling as u128 * 1000;
            proof {
                let t = self.dirty@.take(i + 1);
                assert(t.drop_last() == self.dirty@.take(i as int));
                assert(t.last() == self.dirty@[i as int]);
                reveal_with_fuel(Seq::filter, 1);
            }
            if pause || over {
                out.push(id);
            }
            i += 1;
        }
        assert(self.dirty@.take(self.dirty@.len() as int) == self.dirty@);
        out
    }

    /// Notes that document `id` has been handed to the disk side.
    pub fn clear(&mut self, id: u64)
        ensures
            final(self).entries() == old(self).entries().filter(id_other(id)),
            final(self).last() == old(self).last(),
            final(self).idle() == old(self).idle(),
            final(self).ceiling() == old(self).ceiling(),
    {
        proof {
            use_type_invariant(&*self);
        }
        let mut kept: Vec<Dirty> = Vec::new();
        let mut i: usize = 0;
        while i < self.dirty.len()
            invariant
                i <= self.dirty@.len(),
                sorted_ids(self.dirty@),
                kept@ == self.dirty@.take(i as int).filter(id_other(id)),
            decreases self.dirty@.len() - i,
        {
            let e = self.dirty[i];
            proof {
                let t = self.dirty@.take(i + 1);
                assert(t.drop_last() == self.dirty@.take(i as int));
                reveal_with_fuel(Seq::filter, 1);
            }
            if e.0 != id {
                kept.push(e);
            }
            i += 1;
        }
        proof {
            assert(self.dirty@.take(self.dirty@.len() as int) == self.dirty@);
            lemma_filter_sorted(self.dirty@, id_other(id));
        }
        self.dirty = kept;
    }

    /// Stops scheduling a document that has been closed.
    pub fn forget(&mut self, id: u64)
        ensures
            final(self).entries() == old(self).entries().filter(id_other(id)),
            final(self).last() == old(self).last(),
            final(self).idle() == old(self).idle(),
            final(self).ceiling() == old(self).ceiling(),
    {
        self.clear(id);
    }
}

/// In sorted entries, every id from position `k` on is at least the one there.
proof fn lemma_sorted_from(s: Seq<Dirty>, id: u64, k: int)
    requires
        sorted_ids(s),
        0 <= k < s.len(),
        s[k].0 > id,
    ensures
        forall|i: int| k <= i < s.len() ==> #[trigger] s[i].0 > id,
{
    assert forall|i: int| k <= i < s.len() implies #[trigger] s[i].0 > id by {
        if i > k {
            assert(s[k].0 < s[i].0);
        }
    }
}

/// Sorted entries split around `id` at `k` are what the two filters keep.
proof fn lemma_filter_split(s: Seq<Dirty>, id: u64, k: int)
    requires
        0 <= k <= s.len(),
        forall|i: int| 0 <= i < k ==> #[trigger] s[i].0 < id,
        forall|i: int| k <= i < s.len() ==> #[trigger] s[i].0 > id,
    ensures
        s.filter(id_below(id)) == s.take(k),
        s.filter(id_above(id)) == s.skip(k),
    decreases s.len(),
{
    reveal_with_fuel(Seq::filter, 1);
    if s.len() > 0 {
        let t = s.drop_last();
        if k == s.len() {
            lemma_filter_split(t, id, k - 1);
            assert(t.take(k - 1).push(s.last()) == s.take(k));
            assert(t.skip(k - 1).len() == 0);
            assert(s.skip(k).len() == 0);
        } else {
            lemma_filter_split(t, id, k);
            assert(t.take(k) == s.take(k));
            assert(t.skip(k).push(s.last()) == s.skip(k));
        }
    } else {
        assert(s.take(k) == s);
        assert(s.skip(k) == s);
    }
}

/// Filtering keeps entries sorted.
proof fn lemma_filter_sorted(s: Seq<Dirty>, p: spec_fn(Dirty) -> bool)
    requires
        sorted_ids(s),
    ensures
        sorted_ids(s.filter(p)),
        forall|e: Dirty| #[trigger] s.filter(p).contains(e) ==> s.contains(e),
    decreases s.len(),
{
    reveal_with_fuel(Seq::filter, 1);
    if s.len() > 0 {
        let t = s.drop_last();
        lemma_filter_sorted(t, p);
        let f = t.filter(p);
        assert forall|e: Dirty| #[trigger] f.contains(e) implies e.0 < s.last().0 by {
            assert(t.contains(e));
            let i = choose|i: int| 0 <= i < t.len() && t[i] == e;
            assert(s[i] == e);
        }
        if p(s.last()) {
            let g = f.push(s.last());
            assert forall|i: int, j: int| 0 <= i < j < g.len() implies #[trigger] g[i].0
                < #[trigger] g[j].0 by {
                if j == g.len() - 1 {
                    assert(f.contains(g[i]));
                }
            }
            assert forall|e: Dirty| #[trigger] g.contains(e) implies s.contains(e) by {
                let i = choose|i: int| 0 <= i < g.len() && g[i] == e;
                if i < f.len() {
                    assert(f.contains(e));
                    assert(t.contains(e));
                    let j = choose|j: int| 0 <= j < t.len() && t[j] == e;
                    assert(s[j] == e);
                } else {
                    assert(s[s.len() - 1] == e);
                }
            }
        } else {
            assert forall|e: Dirty| #[trigger] f.contains(e) implies s.contains(e) by {
                assert(t.contains(e));
                let j = choose|j: int| 0 <= j < t.len() && t[j] == e;
                assert(s[j] == e);
            }
        }
    }
}

/// What a filter keeps comes from the sequence and passes the test.
proof fn lemma_filter_within<A>(s: Seq<A>, p: spec_fn(A) -> bool)
    ensures
        forall|e: A| #[trigger] s.filter(p).contains(e) ==> s.contains(e) && p(e),
    decreases s.len(),
{
    reveal_with_fuel(Seq::filter, 1);
    if s.len() > 0 {
        let t = s.drop_last();
        lemma_filter_within(t, p);
        let f = t.filter(p);
        assert forall|e: A| #[trigger] s.filter(p).contains(e) implies s.contains(e) && p(e) by {
            let g = s.filter(p);
            let i = choose|i: int| 0 <= i < g.len() && g[i] == e;
            if i < f.len() {
                assert(g[i] == f[i]);
                assert(f.contains(e));
                let j = choose|j: int| 0 <= j < t.len() && t[j] == e;
                assert(s[j] == e);
            } else {
                assert(s[s.len() - 1] == e);
            }
        }
    }
}

/// The entries after a run of changes to one document.
pub open spec fn mark_all(s: Seq<Dirty>, id: u64, times: Seq<u64>) -> Seq<Dirty>
    decreases times.len(),
{
    if times.len() == 0 {
        s
    } else {
        mark_spec(mark_all(s, id, times.drop_last()), id, times.last())
    }
}

proof fn lemma_mark_all(s: Seq<Dirty>, id: u64, times: Seq<u64>)
    requires
        !has_id(s, id),
        times.len() > 0,
    ensures
        exists|i: int|
            0 <= i < mark_all(s, id, times).len() && #[trigger] mark_all(s, id, times)[i] == (
            id,
            times[0],
        ),
    decreases times.len(),
{
    if times.len() == 1 {
        assert(times.drop_last().len() == 0);
        assert(mark_all(s, id, times.drop_last()) == s);
        assert(times.last() == times[0]);
        let f = s.filter(id_below(id));
        let m = f + seq![(id, times[0])] + s.filter(id_above(id));
        assert(mark_all(s, id, times) == m);
        assert(m[f.len() as int] == (id, times[0]));
    } else {
        let before = times.drop_last();
        lemma_mark_all(s, id, before);
        let m = mark_all(s, id, before);
        let i = choose|i: int| 0 <= i < m.len() && #[trigger] m[i] == (id, before[0]);
        assert(m[i].0 == id);
        assert(has_id(m, id));
        assert(mark_all(s, id, times) == m);
    }
}

/// Someone typing without ever pausing is still protected: however often a
/// document is changed again, it stays recorded from its first change, so
/// once the ceiling has passed since then it is due.
pub proof fn typing_cannot_postpone_the_ceiling(
    s: Seq<Dirty>,
    id: u64,
    times: Seq<u64>,
    idle: u64,
    ceiling: u64,
    now: u64,
)
    requires
        !has_id(s, id),
        times.len() > 0,
        elapsed(times[0], now) >= ceiling * 1000,
    ensures
        due_spec(mark_all(s, id, times), Some(times.last()), idle, ceiling, now).contains(id),
{
    lemma_mark_all(s, id, times);
    let m = mark_all(s, id, times);
    let i = choose|i: int| 0 <= i < m.len() && #[trigger] m[i] == (id, times[0]);
    let p = due_pred(Some(times.last()), idle, ceiling, now);
    assert(p(m[i]));
    m.lemma_filter_contains(p, i);
    let f = m.filter(p);
    let j = choose|j: int| 0 <= j < f.len() && f[j] == m[i];
    assert(f.map_values(|e: Dirty| e.0)[j] == id);
}

/// A document that has been handed over, or closed, is never due until it
/// changes again.
pub proof fn cleared_documents_are_not_due(
    s: Seq<Dirty>,
    id: u64,
    last: Option<u64>,
    idle: u64,
    ceiling: u64,
    now: u64,
)
    ensures
        !due_spec(s.filter(id_other(id)), last, idle, ceiling, now).contains(id),
{
    let f = s.filter(id_other(id));
    let p = due_pred(last, idle, ceiling, now);
    let g = f.filter(p);
    let ids = g.map_values(|e: Dirty| e.0);
    if ids.contains(id) {
        let j = choose|j: int| 0 <= j < ids.len() && #[trigger] ids[j] == id;
        assert(ids[j] == g[j].0);
        lemma_filter_within(f, p);
        lemma_filter_within(s, id_other(id));
        assert(g.contains(g[j]));
        assert(f.contains(g[j]));
    }
}

/// Nothing is written when nothing changed.
pub proof fn nothing_dirty_nothing_due(last: Option<u64>, idle: u64, ceiling: u64, now: u64)
    ensures
        due_spec(Seq::<Dirty>::empty(), last, idle, ceiling, now).len() == 0,
{
    reveal_with_fuel(Seq::filter, 1);
}

/// One call made on a schedule.
pub enum Call {
    /// `mark_dirty(id, now)`.
    Mark(u64, u64),
    /// `clear(id)`.
    Clear(u64),
    /// `forget(id)`.
    Forget(u64),
}

/// The entries and the last change of a fresh schedule after a run of calls,
/// each step being what that call's contract says it does.
pub open spec fn replay(calls: Seq<Call>) -> (Seq<Dirty>, Option<u64>)
    decreases calls.len(),
{
    if calls.len() == 0 {
        (Seq::empty(), None)
    } else {
        let (s, l) = replay(calls.drop_last());
        match calls.last() {
            Call::Mark(id, now) => (mark_spec(s, id, now), Some(now)),
            Call::Clear(id) => (s.filter(id_other(id)), l),
            Call::Forget(id) => (s.filter(id_other(id)), l),
        }
    }
}

/// When document `id` first changed since it was last cleared or forgotten;
/// `None` when it has not.
pub open spec fn first_change(calls: Seq<Call>, id: u64) -> Option<u64>
    decreases calls.len(),
{
    if calls.len() == 0 {
        None
    } else {
        let prev = first_change(calls.drop_last(), id);
        match calls.last() {
            Call::Mark(i, now) => if i == id && prev is None {
                Some(now)
            } else {
                prev
            },
            Call::Clear(i) => if i == id {
                None
            } else {
                prev
            },
            Call::Forget(i) => if i == id {
                None
            } else {
                prev
            },
        }
    }
}

/// When any document last changed.
pub open spec fn latest_change(calls: Seq<Call>) -> Option<u64>
    decreases calls.len(),
{
    if calls.len() == 0 {
        None
    } else {
        match calls.last() {
            Call::Mark(_, now) => Some(now),
            _ => latest_change(calls.drop_last()),
        }
    }
}

/// What a filter holds: the elements that pass the test.
proof fn lemma_filter_member<A>(s: Seq<A>, p: spec_fn(A) -> bool, e: A)
    ensures
        s.filter(p).contains(e) <==> s.contains(e) && p(e),
{
    lemma_filter_within(s, p);
    if s.contains(e) && p(e) {
        let i = choose|i: int| 0 <= i < s.len() && s[i] == e;
        s.lemma_filter_contains(p, i);
    }
}

/// The replayed entries are sorted, and hold exactly each document changed
/// since it was last cleared, with the time of its first such change.
proof fn lemma_replay(calls: Seq<Call>)
    ensures
        sorted_ids(replay(calls).0),
        replay(calls).1 == latest_change(calls),
        forall|e: Dirty| #[trigger] replay(calls).0.contains(e) ==> first_change(calls, e.0) == Some(e.1),
        forall|id: u64| #[trigger] first_change(calls, id) is Some ==> replay(calls).0.contains(
            (id, first_change(calls, id)->0),
        ),
    decreases calls.len(),
{
    if calls.len() > 0 {
        let prev = calls.drop_last();
        lemma_replay(prev);
        let (s, l) = replay(prev);
        let t = replay(calls).0;
        match calls.last() {
            Call::Mark(id, now) => {
                if has_id(s, id) {
                    let k = choose|k: int| 0 <= k < s.len() && #[trigger] s[k].0 == id;
                    assert(s.contains(s[k]));
                    assert(t == s);
                    assert forall|x: u64| #[trigger] first_change(calls, x) is Some implies t.contains(
                        (x, first_change(calls, x)->0),
                    ) by {
                        assert(first_change(calls, x) == first_change(prev, x));
                    }
                } else {
                    let lo = s.filter(id_below(id));
                    let hi = s.filter(id_above(id));
                    assert(t == lo + seq![(id, now)] + hi);
                    lemma_filter_sorted(s, id_below(id));
                    lemma_filter_sorted(s, id_above(id));
                    assert(first_change(prev, id) is None) by {
                        if first_change(prev, id) is Some {
                            let e = (id, first_change(prev, id)->0);
                            assert(s.contains(e));
                            let k = choose|k: int| 0 <= k < s.len() && s[k] == e;
                            assert(s[k].0 == id);
                        }
                    }
                    assert forall|e: Dirty| #[trigger] t.contains(e) <==> (s.contains(e) && e.0 != id)
                        || e == (id, now) by {
                        lemma_filter_member(s, id_below(id), e);
                        lemma_filter_member(s, id_above(id), e);
                        if t.contains(e) {
                            let k = choose|k: int| 0 <= k < t.len() && t[k] == e;
                            if k < lo.len() {
                                assert(lo.contains(e));
                            } else if k > lo.len() {
                                assert(hi[k - lo.len() - 1] == e);
                                assert(hi.contains(e));
                            }
                        }
                        if s.contains(e) && e.0 != id {
                            if e.0 < id {
                                assert(lo.contains(e));
                                let k = choose|k: int| 0 <= k < lo.len() && lo[k] == e;
                                assert(t[k] == e);
                            } else {
                                assert(hi.contains(e));
                                let k = choose|k: int| 0 <= k < hi.len() && hi[k] == e;
                                assert(t[k + lo.len() + 1] == e);
                            }
                        }
                        if e == (id, now) {
                            assert(t[lo.len() as int] == e);
                        }
                    }
                    assert forall|x: u64| #[trigger] first_change(calls, x) is Some implies t.contains(
                        (x, first_change(calls, x)->0),
                    ) by {
                        if x != id {
                            assert(first_change(calls, x) == first_change(prev, x));
                            assert(s.contains((x, first_change(prev, x)->0)));
                        }
                    }
                    assert(sorted_ids(t)) by {
                        assert forall|a: int, b: int| 0 <= a < b < t.len() implies #[trigger] t[a].0
                            < #[trigger] t[b].0 by {
                            let n = lo.len() as int;
                            if b < n {
                                assert(t[a] == lo[a] && t[b] == lo[b]);
                            } else if a > n {
                                assert(t[a] == hi[a - n - 1] && t[b] == hi[b - n - 1]);
                            } else {
                                if a < n {
                                    assert(t[a] == lo[a]);
                                    assert(lo.contains(lo[a]));
                                    lemma_filter_member(s, id_below(id), lo[a]);
                                }
                                if b > n {
                                    assert(t[b] == hi[b - n - 1]);
                                    assert(hi.contains(hi[b - n - 1]));
                                    lemma_filter_member(s, id_above(id), hi[b - n - 1]);
                                }
                            }
                        }
                    }
                }
            },
            Call::Clear(id) => {
                lemma_filter_sorted(s, id_other(id));
                assert forall|e: Dirty| #[trigger] t.contains(e) <==> s.contains(e) && e.0 != id by {
                    lemma_filter_member(s, id_other(id), e);
                }
                assert forall|x: u64| #[trigger] first_change(calls, x) is Some implies t.contains(
                    (x, first_change(calls, x)->0),
                ) by {
                    assert(first_change(calls, x) == first_change(prev, x));
                    assert(s.contains((x, first_change(prev, x)->0)));
                }
            },
            Call::Forget(id) => {
                lemma_filter_sorted(s, id_other(id));
                assert forall|e: Dirty| #[trigger] t.contains(e) <==> s.contains(e) && e.0 != id by {
                    lemma_filter_member(s, id_other(id), e);
                }
                assert forall|x: u64| #[trigger] first_change(calls, x) is Some implies t.contains(
                    (x, first_change(calls, x)->0),
                ) by {
                    assert(first_change(calls, x) == first_change(prev, x));
                    assert(s.contains((x, first_change(prev, x)->0)));
                }
            },
        }
    }
}

/// What a schedule says is due follows from the calls made on it since it
/// was created: a document is due exactly when it has changed since it was
/// last cleared or forgotten and either the user has paused for the idle
/// delay since the latest change, or the ceiling has passed since the
/// document's first change; the due documents come in increasing id order.
pub proof fn due_follows_from_the_calls(calls: Seq<Call>, idle: u64, ceiling: u64, now: u64)
    ensures
        ({
            let (s, l) = replay(calls);
            let due = due_spec(s, l, idle, ceiling, now);
            &&& l == latest_change(calls)
            &&& forall|id: u64| #[trigger] due.contains(id) <==> (first_change(calls, id) matches Some(t)
                && (paused(latest_change(calls), idle, now) || elapsed(t, now) >= ceiling * 1000))
            &&& forall|i: int, j: int| 0 <= i < j < due.len() ==> #[trigger] due[i] < #[trigger] due[j]
        }),
{
    lemma_replay(calls);
    let (s, l) = replay(calls);
    let p = due_pred(l, idle, ceiling, now);
    let f = s.filter(p);
    let due = due_spec(s, l, idle, ceiling, now);
    lemma_filter_sorted(s, p);
    assert(due == f.map_values(|e: Dirty| e.0));
    assert forall|id: u64| #[trigger] due.contains(id) <==> (first_change(calls, id) matches Some(t)
        && (paused(latest_change(calls), idle, now) || elapsed(t, now) >= ceiling * 1000)) by {
        if due.contains(id) {
            let j = choose|j: int| 0 <= j < due.len() && due[j] == id;
            assert(f.contains(f[j]));
            lemma_filter_member(s, p, f[j]);
        }
        if first_change(calls, id) is Some {
            let t = first_change(calls, id)->0;
            if paused(latest_change(calls), idle, now) || elapsed(t, now) >= ceiling * 1000 {
                lemma_filter_member(s, p, (id, t));
                let j = choose|j: int| 0 <= j < f.len() && f[j] == (id, t);
                assert(due[j] == id);
            }
        }
    }
}

} // verus!
