use vstd::prelude::*;

verus! {

/// Deadlines are nondecreasing along the queue.
pub open spec fn sorted(s: Seq<(u64, usize)>) -> bool {
    forall|i: int, j: int| 0 <= i < j < s.len() ==> s[i].0 <= s[j].0
}

/// How many leading entries of `s` have a deadline at or before `t`.
pub open spec fn count_due(s: Seq<(u64, usize)>, t: u64) -> nat
    decreases s.len(),
{
    if s.len() == 0 || s[0].0 > t {
        0
    } else {
        1 + count_due(s.drop_first(), t)
    }
}

/// The handles of a sequence of timer entries, in order.
pub open spec fn handles_of(s: Seq<(u64, usize)>) -> Seq<usize> {
    s.map_values(|e: (u64, usize)| e.1)
}

/// The handles that `drain_expired(now)` hands out, earliest deadline first.
pub open spec fn expired(s: Seq<(u64, usize)>, now: u64) -> Seq<usize> {
    handles_of(s.take(count_due(s, now) as int))
}

/// The entries left after `drain_expired(now)`.
pub open spec fn not_expired(s: Seq<(u64, usize)>, now: u64) -> Seq<(u64, usize)> {
    s.skip(count_due(s, now) as int)
}

/// The queue after scheduling `(deadline, handle)`: after every entry due no
/// later, so that equal deadlines keep their order of insertion.
pub open spec fn scheduled(s: Seq<(u64, usize)>, deadline: u64, handle: usize) -> Seq<
    (u64, usize),
> {
    s.insert(count_due(s, deadline) as int, (deadline, handle))
}

/// On a sorted queue the entries due at `t` are exactly the leading ones.
pub proof fn lemma_count_due(s: Seq<(u64, usize)>, t: u64)
    ensures
        count_due(s, t) <= s.len(),
        forall|i: int| 0 <= i < count_due(s, t) ==> s[i].0 <= t,
        sorted(s) ==> forall|i: int| count_due(s, t) <= i < s.len() ==> s[i].0 > t,
    decreases s.len(),
{
    if s.len() == 0 || s[0].0 > t {
    } else {
        lemma_count_due(s.drop_first(), t);
        assert forall|i: int| 0 <= i < count_due(s, t) implies s[i].0 <= t by {
            if i > 0 {
                assert(s.drop_first()[i - 1] == s[i]);
            }
        }
        if sorted(s) {
            assert(sorted(s.drop_first()));
            assert forall|i: int| count_due(s, t) <= i < s.len() implies s[i].0 > t by {
                assert(s.drop_first()[i - 1] == s[i]);
            }
        }
    }
}

/// Draining a sorted queue whose handles are distinct hands out exactly the
/// handles due at `now`, in ascending deadline order, each once, and none of
/// them stays behind to be handed out again.
pub proof fn lemma_drain_exact(s: Seq<(u64, usize)>, now: u64)
    requires
        sorted(s),
        handles_of(s).no_duplicates(),
    ensures
        forall|h: usize|
            expired(s, now).contains(h) <==> exists|i: int|
                0 <= i < s.len() && s[i].1 == h && s[i].0 <= now,
        forall|a: int|
            0 <= a < expired(s, now).len() ==> #[trigger] expired(s, now)[a] == s[a].1 && s[a].0
                <= now,
        forall|a: int, b: int|
            0 <= a < b < expired(s, now).len() ==> s[a].0 <= s[b].0,
        expired(s, now).no_duplicates(),
        forall|h: usize|
            expired(s, now).contains(h) ==> !handles_of(not_expired(s, now)).contains(h),
{
    lemma_count_due(s, now);
    let k = count_due(s, now) as int;
    let out = expired(s, now);
    let rest = not_expired(s, now);
    assert(out.len() == k);
    assert forall|a: int| 0 <= a < k implies #[trigger] out[a] == s[a].1 by {
        assert(handles_of(s)[a] == s[a].1);
    }
    assert forall|h: usize|
        out.contains(h) <==> exists|i: int| 0 <= i < s.len() && s[i].1 == h && s[i].0 <= now by {
        if out.contains(h) {
            let a = choose|a: int| 0 <= a < out.len() && out[a] == h;
            assert(s[a].1 == h);
        }
        if exists|i: int| 0 <= i < s.len() && s[i].1 == h && s[i].0 <= now {
            let i = choose|i: int| 0 <= i < s.len() && s[i].1 == h && s[i].0 <= now;
            assert(i < k);
            assert(out[i] == h);
        }
    }
    assert forall|a: int, b: int| 0 <= a < b < out.len() implies out[a] != out[b] by {
        assert(handles_of(s)[a] == s[a].1);
        assert(handles_of(s)[b] == s[b].1);
    }
    assert forall|h: usize| out.contains(h) implies !handles_of(rest).contains(h) by {
        let a = choose|a: int| 0 <= a < out.len() && out[a] == h;
        if handles_of(rest).contains(h) {
            let b = choose|b: int| 0 <= b < handles_of(rest).len() && handles_of(rest)[b] == h;
            assert(rest[b] == s[b + k]);
            assert(handles_of(s)[a] == s[a].1);
            assert(handles_of(s)[b + k] == s[b + k].1);
        }
    }
}

/// Pending timers as (deadline in milliseconds, callback handle), kept in
/// deadline order.
pub struct TimerQueue {
    entries: Vec<(u64, usize)>,
}

impl View for TimerQueue {
    type V = Seq<(u64, usize)>;

    closed spec fn view(&self) -> Seq<(u64, usize)> {
        self.entries@
    }
}

impl TimerQueue {
    pub closed spec fn wf(&self) -> bool {
        sorted(self.entries@)
    }

    /// A well-formed queue is sorted by deadline.
    pub proof fn lemma_sorted(&self)
        requires
            self.wf(),
        ensures
            sorted(self@),
    {
    }

    pub fn new() -> (r: Self)
        ensures
            r.wf(),
            r@ == Seq::<(u64, usize)>::empty(),
    {
        TimerQueue { entries: Vec::new() }
    }

    pub fn len(&self) -> (r: usize)
        ensures
            r == self@.len(),
    {
        self.entries.len()
    }

    /// Whether a timer is pending for `handle`.
    pub fn contains_handle(&self, handle: usize) -> (r: bool)
        ensures
            r == handles_of(self@).contains(handle),
    {
        let mut i: usize = 0;
        while i < self.entries.len()
            invariant
                i <= self@.len(),
                forall|j: int| 0 <= j < i ==> self@[j].1 != handle,
            decreases self@.len() - i,
        {
            if self.entries[i].1 == handle {
                assert(handles_of(self@)[i as int] == handle);
                return true;
            }
            i = i + 1;
        }
        assert forall|j: int| 0 <= j < self@.len() implies handles_of(self@)[j] != handle by {
            assert(handles_of(self@)[j] == self@[j].1);
        }
        false
    }

    /// How many leading entries are due at `t`.
    fn due_count(&self, t: u64) -> (r: usize)
        requires
            self.wf(),
        ensures
            r == count_due(self@, t),
            r <= self@.len(),
    {
        proof {
            lemma_count_due(self@, t);
        }
        let mut i: usize = 0;
        while i < self.entries.len() && self.entries[i].0 <= t
            invariant
                self.wf(),
                i <= self.entries@.len(),
                forall|j: int| 0 <= j < i ==> self.entries@[j].0 <= t,
                count_due(self@, t) <= self@.len(),
                forall|j: int| count_due(self@, t) <= j < self@.len() ==> self@[j].0 > t,
            decreases self.entries@.len() - i,
        {
            i = i + 1;
        }
        proof {
            let k = count_due(self@, t);
            lemma_count_due(self@, t);
            if i < k {
                assert(self@[i as int].0 <= t);
            } else if i > k {
                assert(self@[k as int].0 <= t);
            }
        }
        i
    }

    /// Adds a timer; among equal deadlines the newest goes last.
    pub fn schedule(&mut self, deadline: u64, handle: usize)
        requires
            old(self).wf(),
        ensures
            final(self).wf(),
            final(self)@ == scheduled(old(self)@, deadline, handle),
    {
        let p = self.due_count(deadline);
        let ghost s = self.entries@;
        proof {
            lemma_count_due(s, deadline);
        }
        self.entries.insert(p, (deadline, handle));
        proof {
            assert forall|i: int, j: int|
                0 <= i < j < self.entries@.len() implies self.entries@[i].0
                <= self.entries@[j].0 by {
                if j < p {
                } else if j == p {
                } else if i < p {
                    assert(self.entries@[j] == s[j - 1]);
                } else if i == p {
                    assert(self.entries@[j] == s[j - 1]);
                } else {
                    assert(self.entries@[j] == s[j - 1]);
                    assert(self.entries@[i] == s[i - 1]);
                }
            }
        }
    }

    /// Removes every timer due at `now` and returns their handles, earliest
    /// deadline first.
    pub fn drain_expired(&mut self, now: u64) -> (r: Vec<usize>)
        requires
            old(self).wf(),
        ensures
            final(self).wf(),
            r@ == expired(old(self)@, now),
            final(self)@ == not_expired(old(self)@, now),
    {
        let k = self.due_count(now);
        let ghost s = self.entries@;
        let mut out: Vec<usize> = Vec::new();
        let mut i: usize = 0;
        while i < k
            invariant
                self.entries@ == s,
                k <= s.len(),
                i <= k,
                out@ == handles_of(s.take(i as int)),
            decreases k - i,
        {
            out.push(self.entries[i].1);
            i = i + 1;
            assert(handles_of(s.take(i as int)) =~= handles_of(s.take(i - 1)).push(s[i - 1].1));
        }
        let mut rest: Vec<(u64, usize)> = Vec::new();
        let mut j: usize = k;
        while j < self.entries.len()
            invariant
                self.entries@ == s,
                k <= j <= s.len(),
                rest@ == s.subrange(k as int, j as int),
            decreases s.len() - j,
        {
            rest.push(self.entries[j]);
            j = j + 1;
            assert(s.subrange(k as int, j as int) =~= s.subrange(k as int, j - 1).push(s[j - 1]));
        }
        self.entries = rest;
        assert(self.entries@ =~= s.skip(k as int));
        out
    }

    /// The earliest deadline, if any timer is pending.
    pub fn peek_next_deadline(&self) -> (r: Option<u64>)
        requires
            self.wf(),
        ensures
            r == (if self@.len() == 0 {
                None::<u64>
            } else {
                Some(self@[0].0)
            }),
            r matches Some(d) ==> forall|i: int| 0 <= i < self@.len() ==> d <= #[trigger] self@[i].0,
    {
        if self.entries.len() == 0 {
            None
        } else {
            Some(self.entries[0].0)
        }
    }
}

} // verus!
