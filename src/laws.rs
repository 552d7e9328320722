//! Laws of the scheduler: how the order of execution follows from the
//! contracts of `schedule`, `advance`, the run loop's passes (`Step`) and
//! the stop condition of `run_until_max_time`.
use vstd::multiset::Multiset;
use vstd::prelude::*;

use crate::event::{Action, Event};
use crate::scheduler::{
    declined_before, drain_order, earliest_index, is_earliest, is_run, keeps_all, lemma_drain_len,
    lemma_earliest_exists, lemma_earliest_unique, EventScheduler, Step,
};

verus! {

proof fn lemma_drain_bounded<A>(q: Seq<Event<A>>, t: int)
    requires
        forall|j: int| 0 <= j < q.len() ==> (#[trigger] q[j]).time >= t,
    ensures
        forall|i: int| 0 <= i < drain_order(q).len() ==> (#[trigger] drain_order(q)[i]).time >= t,
    decreases q.len(),
{
    if q.len() > 0 {
        lemma_earliest_exists(q);
        let k = earliest_index(q);
        let r = q.remove(k);
        assert forall|j: int| 0 <= j < r.len() implies (#[trigger] r[j]).time >= t by {
            if j < k {
                assert(r[j] == q[j]);
            } else {
                assert(r[j] == q[j + 1]);
            }
        }
        lemma_drain_bounded(r, t);
        let d = drain_order(q);
        assert forall|i: int| 0 <= i < d.len() implies (#[trigger] d[i]).time >= t by {
            if i > 0 {
                assert(d[i] == drain_order(r)[i - 1]);
            }
        }
    }
}

/// Ordering: draining a queue executes each of its events exactly once, in
/// non-decreasing order of time.
pub proof fn law_drain_in_time_order<A>(q: Seq<Event<A>>)
    ensures
        drain_order(q).to_multiset() == q.to_multiset(),
        forall|i: int, j: int|
            0 <= i < j < drain_order(q).len() ==> (#[trigger] drain_order(q)[i]).time
                <= (#[trigger] drain_order(q)[j]).time,
    decreases q.len(),
{
    broadcast use vstd::seq_lib::group_to_multiset_ensures;

    if q.len() > 0 {
        lemma_earliest_exists(q);
        let k = earliest_index(q);
        let m = q[k];
        let r = q.remove(k);
        law_drain_in_time_order(r);
        assert forall|j: int| 0 <= j < r.len() implies (#[trigger] r[j]).time >= m.time by {
            if j < k {
                assert(r[j] == q[j]);
            } else {
                assert(r[j] == q[j + 1]);
            }
        }
        lemma_drain_bounded(r, m.time as int);
        let d = drain_order(q);
        assert(d == seq![m] + drain_order(r));
        assert forall|i: int, j: int| 0 <= i < j < d.len() implies (#[trigger] d[i]).time
            <= (#[trigger] d[j]).time by {
            assert(d[j] == drain_order(r)[j - 1]);
            if i > 0 {
                assert(d[i] == drain_order(r)[i - 1]);
            }
        }
        vstd::seq_lib::lemma_multiset_commutative(seq![m], drain_order(r));
        assert(seq![m].to_multiset() =~= Multiset::singleton(m)) by {
            assert(seq![m] =~= Seq::<Event<A>>::empty().push(m));
        }
        assert(q.to_multiset() =~= r.to_multiset().insert(m));
    }
}

/// Ordering across steps: once `advance` has taken the earliest event `e`
/// of `q`, the next event it takes, from the rest of `q` together with
/// events scheduled meanwhile no earlier than `e`, is no earlier than `e`.
pub proof fn law_advance_in_time_order<A>(q: Seq<Event<A>>, added: Seq<Event<A>>)
    requires
        q.len() > 0,
        forall|j: int| 0 <= j < added.len() ==> (#[trigger] added[j]).time >= q[earliest_index(q)].time,
    ensures
        ({
            let rest = q.remove(earliest_index(q)) + added;
            rest.len() > 0 ==> q[earliest_index(q)].time <= rest[earliest_index(rest)].time
        }),
{
    lemma_earliest_exists(q);
    let k = earliest_index(q);
    let rest = q.remove(k) + added;
    if rest.len() > 0 {
        lemma_earliest_exists(rest);
        let i = earliest_index(rest);
        if i < q.len() - 1 {
            if i < k {
                assert(rest[i] == q[i]);
            } else {
                assert(rest[i] == q[i + 1]);
            }
        } else {
            assert(rest[i] == added[i - (q.len() - 1)]);
        }
    }
}

/// Re-entrant scheduling: `schedule` puts an event `n` behind every pending
/// one, and `advance` keeps the order of what it leaves. While `n` waits at
/// position `k`, the next event taken is never later than `n`, and it is not
/// `n` while an event scheduled before `n` is due no later than `n`.
pub proof fn law_scheduled_event_waits_its_turn<A>(q: Seq<Event<A>>, k: int)
    requires
        0 <= k < q.len(),
    ensures
        q[earliest_index(q)].time <= q[k].time,
        (exists|j: int| 0 <= j < k && q[j].time <= q[k].time) ==> earliest_index(q) != k,
{
    lemma_earliest_exists(q);
}

/// Max-time boundary: while the stop condition of `run_until_max_time` is
/// false, the clock lies before `max_time` and so does the next event that
/// `advance` takes; no event at or after `max_time` is ever executed.
pub proof fn law_max_time_boundary<A>(s: EventScheduler<A>, max_time: i64)
    requires
        !s.reached(max_time),
    ensures
        s.current_time < max_time,
        s.next_event() matches Some(e) && e.time < max_time,
{
}

/// An event that was deactivated before its execution performs nothing:
/// `run` yields no result and changes neither it nor the scheduler.
pub proof fn law_deactivated_event_is_idle<A>(e: Event<A>)
    ensures
        (Event { active: false, ..e }).runs_idle(),
{
}

/// The logged copy of an event has the time, flag and context of the event
/// it copies, and executing it performs nothing.
pub proof fn law_logged_copy_is_idle<A>(event: Event<A>, copy: Event<A>)
    requires
        copy.is_copy_of(event),
    ensures
        copy.runs_idle(),
        copy.time == event.time,
        copy.context@ == event.context@,
{
}

/// `s` is `d` with `n` inserted at position `m`, where every event of `d`
/// before `m` is due at or before `n` and every event from `m` on after it.
pub open spec fn inserted_at<A>(s: Seq<Event<A>>, d: Seq<Event<A>>, n: Event<A>, m: int) -> bool {
    &&& 0 <= m <= d.len()
    &&& s == d.take(m) + seq![n] + d.skip(m)
    &&& forall|i: int| 0 <= i < m ==> (#[trigger] d[i]).time <= n.time
    &&& forall|i: int| m <= i < d.len() ==> (#[trigger] d[i]).time > n.time
}

/// Re-entrant scheduling, over a whole drain: an event `n` scheduled behind
/// the pending events `q` is taken after every event of `q` due at or before
/// its time, and before every event of `q` due after it.
pub proof fn law_scheduled_event_drains_in_place<A>(q: Seq<Event<A>>, n: Event<A>)
    ensures
        exists|m: int| #[trigger] inserted_at(drain_order(q.push(n)), drain_order(q), n, m),
    decreases q.len(),
{
    let d = drain_order(q);
    let qn = q.push(n);
    lemma_drain_len(q);
    if q.len() == 0 {
        assert(is_earliest(qn, 0));
        lemma_earliest_unique(qn, 0);
        assert(qn.remove(0) =~= Seq::<Event<A>>::empty());
        assert(drain_order(qn) == seq![n] + drain_order(qn.remove(0)));
        assert(drain_order(qn.remove(0)) == Seq::<Event<A>>::empty());
        assert(d == Seq::<Event<A>>::empty());
        assert(drain_order(qn) =~= d.take(0) + seq![n] + d.skip(0));
        assert(inserted_at(drain_order(qn), d, n, 0));
    } else {
        lemma_earliest_exists(q);
        let k = earliest_index(q);
        let e = q[k];
        let r = q.remove(k);
        assert(d == seq![e] + drain_order(r));
        if e.time <= n.time {
            assert(is_earliest(qn, k)) by {
                assert forall|j: int| 0 <= j < qn.len() implies qn[k].time <= #[trigger] qn[j].time by {
                    if j < q.len() {
                        assert(qn[j] == q[j]);
                    }
                }
                assert forall|j: int| 0 <= j < k implies qn[k].time < #[trigger] qn[j].time by {
                    assert(qn[j] == q[j]);
                }
            }
            lemma_earliest_unique(qn, k);
            assert(qn.remove(k) =~= r.push(n));
            law_scheduled_event_drains_in_place(r, n);
            let dr = drain_order(r);
            let m2 = choose|m: int| #[trigger] inserted_at(drain_order(r.push(n)), dr, n, m);
            let m = m2 + 1;
            assert(drain_order(qn) == seq![e] + drain_order(r.push(n)));
            assert(drain_order(qn) =~= d.take(m) + seq![n] + d.skip(m));
            assert forall|i: int| 0 <= i < m implies (#[trigger] d[i]).time <= n.time by {
                if i > 0 {
                    assert(d[i] == dr[i - 1]);
                }
            }
            assert forall|i: int| m <= i < d.len() implies (#[trigger] d[i]).time > n.time by {
                assert(d[i] == dr[i - 1]);
            }
            assert(inserted_at(drain_order(qn), d, n, m));
        } else {
            let last = q.len() as int;
            assert(is_earliest(qn, last)) by {
                assert forall|j: int| 0 <= j < qn.len() implies qn[last].time <= #[trigger] qn[j].time by {
                    if j < q.len() {
                        assert(qn[j] == q[j]);
                    }
                }
                assert forall|j: int| 0 <= j < last implies qn[last].time < #[trigger] qn[j].time by {
                    assert(qn[j] == q[j]);
                }
            }
            lemma_earliest_unique(qn, last);
            assert(qn.remove(last) =~= q);
            assert forall|j: int| 0 <= j < q.len() implies (#[trigger] q[j]).time >= n.time + 1 by {
            }
            lemma_drain_bounded(q, n.time + 1);
            assert(drain_order(qn) =~= d.take(0) + seq![n] + d.skip(0));
            assert(inserted_at(drain_order(qn), d, n, 0));
        }
    }
}

/// The event of pass `st` left the clock and the log as it found them, and
/// only appended events due no earlier than the clock it saw. An idle event
/// always does.
pub open spec fn schedules_forward<A>(st: Step<A>) -> bool {
    let lent = st.lent.event_queue@;
    let back = st.returned.event_queue@;
    &&& st.returned.current_time == st.lent.current_time
    &&& st.returned.event_log == st.lent.event_log
    &&& lent.len() <= back.len()
    &&& back.take(lent.len() as int) == lent
    &&& forall|j: int| lent.len() <= j < back.len() ==> (#[trigger] back[j]).time >= st.lent.current_time
}

/// A pass whose event is idle schedules forward.
pub proof fn lemma_idle_pass_schedules_forward<A: Action>(st: Step<A>)
    requires
        st.taken.runs(st.lent, st.ran, st.returned, st.result),
        st.taken.runs_idle(),
    ensures
        schedules_forward(st),
{
    assert(st.returned.event_queue@.take(st.lent.event_queue@.len() as int) =~= st.lent.event_queue@);
}

proof fn lemma_next_pass_no_earlier<A: Action>(
    steps: Seq<Step<A>>,
    start: EventScheduler<A>,
    end: EventScheduler<A>,
    declines: spec_fn(EventScheduler<A>) -> bool,
    accepts: spec_fn(Event<A>, Option<String>, bool) -> bool,
    i: int,
)
    requires
        is_run(steps, start, end, declines, accepts),
        forall|j: int| 0 <= j < steps.len() ==> schedules_forward(#[trigger] steps[j]),
        0 <= i < steps.len() - 1,
    ensures
        steps[i].taken.time <= steps[i + 1].taken.time,
{
    let st = steps[i];
    assert(st.is_pass(declines, accepts));
    assert(steps[i + 1].is_pass(declines, accepts));
    let q = st.before.event_queue@;
    lemma_earliest_exists(q);
    let lent = st.lent.event_queue@;
    let back = st.returned.event_queue@;
    let added = back.skip(lent.len() as int);
    assert(back =~= lent + added);
    assert forall|j: int| 0 <= j < added.len() implies (#[trigger] added[j]).time
        >= q[earliest_index(q)].time by {
        assert(added[j] == back[lent.len() + j]);
    }
    law_advance_in_time_order(q, added);
}

/// Ordering over a run: where every event schedules forward, the run takes
/// its events in non-decreasing order of time, lends each the scheduler
/// with the clock at its time, and leaves the clock at the time of the last.
pub proof fn law_run_in_time_order<A: Action>(
    steps: Seq<Step<A>>,
    start: EventScheduler<A>,
    end: EventScheduler<A>,
    declines: spec_fn(EventScheduler<A>) -> bool,
    accepts: spec_fn(Event<A>, Option<String>, bool) -> bool,
)
    requires
        is_run(steps, start, end, declines, accepts),
        forall|j: int| 0 <= j < steps.len() ==> schedules_forward(#[trigger] steps[j]),
    ensures
        forall|i: int, j: int|
            0 <= i <= j < steps.len() ==> (#[trigger] steps[i]).taken.time <= (
            #[trigger] steps[j]).taken.time,
        forall|i: int|
            0 <= i < steps.len() ==> (#[trigger] steps[i]).lent.current_time == steps[i].taken.time
                && steps[i].after.current_time == steps[i].taken.time,
        steps.len() > 0 ==> end.current_time == steps.last().taken.time,
{
    assert forall|i: int| 0 <= i < steps.len() implies (#[trigger] steps[i]).lent.current_time
        == steps[i].taken.time && steps[i].after.current_time == steps[i].taken.time by {
        assert(steps[i].is_pass(declines, accepts));
    }
    assert forall|i: int, j: int| 0 <= i <= j < steps.len() implies (#[trigger] steps[i]).taken.time
        <= (#[trigger] steps[j]).taken.time by {
        lemma_run_order_from(steps, start, end, declines, accepts, i, j);
    }
}

proof fn lemma_run_order_from<A: Action>(
    steps: Seq<Step<A>>,
    start: EventScheduler<A>,
    end: EventScheduler<A>,
    declines: spec_fn(EventScheduler<A>) -> bool,
    accepts: spec_fn(Event<A>, Option<String>, bool) -> bool,
    i: int,
    j: int,
)
    requires
        is_run(steps, start, end, declines, accepts),
        forall|k: int| 0 <= k < steps.len() ==> schedules_forward(#[trigger] steps[k]),
        0 <= i <= j < steps.len(),
    ensures
        steps[i].taken.time <= steps[j].taken.time,
    decreases j - i,
{
    if i < j {
        lemma_run_order_from(steps, start, end, declines, accepts, i, j - 1);
        lemma_next_pass_no_earlier(steps, start, end, declines, accepts, j - 1);
    }
}

proof fn lemma_log_kept<A: Action>(
    steps: Seq<Step<A>>,
    start: EventScheduler<A>,
    end: EventScheduler<A>,
    declines: spec_fn(EventScheduler<A>) -> bool,
    accepts: spec_fn(Event<A>, Option<String>, bool) -> bool,
    n: int,
)
    requires
        is_run(steps, start, end, declines, accepts),
        forall|k: int| 0 <= k < steps.len() ==> schedules_forward(#[trigger] steps[k]),
        forall|e: Event<A>, r: Option<String>, b: bool| #[trigger] accepts(e, r, b) ==> !b,
        0 <= n < steps.len(),
    ensures
        steps[n].after.event_log == start.event_log,
    decreases n,
{
    assert(steps[n].is_pass(declines, accepts));
    if n > 0 {
        lemma_log_kept(steps, start, end, declines, accepts, n - 1);
    }
}

/// A filter that rejects everything: every pass runs its event and logs
/// nothing, and where every event schedules forward the log at the end is
/// the log at the start.
pub proof fn law_run_with_rejecting_filter<A: Action>(
    steps: Seq<Step<A>>,
    start: EventScheduler<A>,
    end: EventScheduler<A>,
    declines: spec_fn(EventScheduler<A>) -> bool,
    accepts: spec_fn(Event<A>, Option<String>, bool) -> bool,
)
    requires
        is_run(steps, start, end, declines, accepts),
        forall|e: Event<A>, r: Option<String>, b: bool| #[trigger] accepts(e, r, b) ==> !b,
    ensures
        forall|i: int| 0 <= i < steps.len() ==> !(#[trigger] steps[i]).logged && steps[i].taken.runs(
            steps[i].lent,
            steps[i].ran,
            steps[i].returned,
            steps[i].result,
        ),
        (forall|k: int| 0 <= k < steps.len() ==> schedules_forward(#[trigger] steps[k]))
            ==> end.event_log == start.event_log,
{
    assert forall|i: int| 0 <= i < steps.len() implies !(#[trigger] steps[i]).logged
        && steps[i].taken.runs(steps[i].lent, steps[i].ran, steps[i].returned, steps[i].result) by {
        assert(steps[i].is_pass(declines, accepts));
    }
    if forall|k: int| 0 <= k < steps.len() ==> schedules_forward(#[trigger] steps[k]) {
        if steps.len() > 0 {
            lemma_log_kept(steps, start, end, declines, accepts, steps.len() - 1);
        }
    }
}

proof fn lemma_log_grows<A: Action>(
    steps: Seq<Step<A>>,
    start: EventScheduler<A>,
    end: EventScheduler<A>,
    declines: spec_fn(EventScheduler<A>) -> bool,
    accepts: spec_fn(Event<A>, Option<String>, bool) -> bool,
    n: int,
)
    requires
        is_run(steps, start, end, declines, accepts),
        forall|k: int| 0 <= k < steps.len() ==> schedules_forward(#[trigger] steps[k]),
        0 <= n < steps.len(),
    ensures
        start.event_log@.len() <= steps[n].after.event_log@.len(),
        steps[n].after.event_log@.take(start.event_log@.len() as int) == start.event_log@,
    decreases n,
{
    let st = steps[n];
    assert(st.is_pass(declines, accepts));
    if n > 0 {
        lemma_log_grows(steps, start, end, declines, accepts, n - 1);
    }
    let b = st.before.event_log@;
    assert(b.len() >= start.event_log@.len());
    assert(b.take(start.event_log@.len() as int) == start.event_log@);
    if st.logged {
        assert(st.after.event_log@.take(start.event_log@.len() as int) =~= b.take(
            start.event_log@.len() as int,
        ));
    }
}

/// Max-time boundary over a run of `run_until_max_time`: every event it
/// takes is due before `max_time` and is logged; where every event
/// schedules forward, the clock ends before `max_time` and the log at the
/// start is a prefix of the log at the end.
pub proof fn law_timed_run<A: Action>(
    steps: Seq<Step<A>>,
    start: EventScheduler<A>,
    end: EventScheduler<A>,
    max_time: i64,
)
    requires
        is_run(steps, start, end, declined_before(max_time), keeps_all()),
    ensures
        forall|i: int|
            0 <= i < steps.len() ==> (#[trigger] steps[i]).taken.time < max_time
                && steps[i].lent.current_time < max_time && steps[i].logged,
        (forall|k: int| 0 <= k < steps.len() ==> schedules_forward(#[trigger] steps[k])) ==> {
            &&& steps.len() > 0 ==> end.current_time < max_time
            &&& start.event_log@.len() <= end.event_log@.len()
            &&& end.event_log@.take(start.event_log@.len() as int) == start.event_log@
        },
{
    assert forall|i: int| 0 <= i < steps.len() implies (#[trigger] steps[i]).taken.time < max_time
        && steps[i].lent.current_time < max_time && steps[i].logged by {
        assert(steps[i].is_pass(declined_before(max_time), keeps_all()));
        law_max_time_boundary(steps[i].before, max_time);
    }
    if forall|k: int| 0 <= k < steps.len() ==> schedules_forward(#[trigger] steps[k]) {
        if steps.len() > 0 {
            law_run_in_time_order(steps, start, end, declined_before(max_time), keeps_all());
            lemma_log_grows(steps, start, end, declined_before(max_time), keeps_all(), steps.len() - 1);
        } else {
            assert(end.event_log@.take(start.event_log@.len() as int) =~= start.event_log@);
        }
    }
}

/// A pass that takes an inactive event only removes it from the queue,
/// moves the clock to its time, and logs a copy of it without a result if
/// the filter accepts it: the event performs nothing.
pub proof fn law_inactive_pass<A: Action>(
    st: Step<A>,
    declines: spec_fn(EventScheduler<A>) -> bool,
    accepts: spec_fn(Event<A>, Option<String>, bool) -> bool,
)
    requires
        st.is_pass(declines, accepts),
        !st.taken.active,
    ensures
        st.result is None,
        st.ran == st.taken,
        st.returned == st.lent,
        st.after.current_time == st.taken.time,
        st.after.event_queue@ == st.before.event_queue@.remove(earliest_index(st.before.event_queue@)),
        st.logged ==> st.after.event_log@ == st.before.event_log@.push(st.after.event_log@.last())
            && st.after.event_log@.last().0.is_copy_of(st.taken)
            && st.after.event_log@.last().1 is None,
        !st.logged ==> st.after.event_log == st.before.event_log,
{
    if st.logged {
        assert(st.after.event_log@ =~= st.before.event_log@.push(st.after.event_log@.last()));
    }
}

/// Re-entrant scheduling over a run: each pass takes the pending event due
/// first, and of those due together the one scheduled first; where its
/// event schedules forward, the next pass finds the other pending events in
/// the same order, followed by those the event scheduled, none due earlier
/// than the event taken. So an event scheduled by an action runs after
/// every pending event due no later, and before every pending event due
/// after it.
pub proof fn law_run_keeps_queue_order<A: Action>(
    steps: Seq<Step<A>>,
    start: EventScheduler<A>,
    end: EventScheduler<A>,
    declines: spec_fn(EventScheduler<A>) -> bool,
    accepts: spec_fn(Event<A>, Option<String>, bool) -> bool,
    i: int,
)
    requires
        is_run(steps, start, end, declines, accepts),
        0 <= i < steps.len(),
    ensures
        ({
            let q = steps[i].before.event_queue@;
            let k = earliest_index(q);
            &&& is_earliest(q, k)
            &&& steps[i].taken == q[k]
            &&& forall|j: int| 0 <= j < q.len() ==> steps[i].taken.time <= (#[trigger] q[j]).time
            &&& forall|j: int| 0 <= j < k ==> steps[i].taken.time < (#[trigger] q[j]).time
            &&& (schedules_forward(steps[i]) && i + 1 < steps.len()) ==> {
                let next = steps[i + 1].before.event_queue@;
                &&& q.len() - 1 <= next.len()
                &&& next.take(q.len() - 1) == q.remove(k)
                &&& forall|j: int| q.len() - 1 <= j < next.len() ==> (#[trigger] next[j]).time
                    >= steps[i].taken.time
            }
        }),
{
    assert(steps[i].is_pass(declines, accepts));
    lemma_earliest_exists(steps[i].before.event_queue@);
}

} // verus!
