//! The scheduler: a logical clock, the queue of pending events and the log
//! of executed ones.
use vstd::prelude::*;

use std::collections::HashMap;

use crate::event::{Action, Event};

verus! {

/// `i` is the position of the earliest pending event in `q`: no event is
/// earlier, and every event before it is strictly later (ties go to the
/// event scheduled first).
pub open spec fn is_earliest<A>(q: Seq<Event<A>>, i: int) -> bool {
    &&& 0 <= i < q.len()
    &&& forall|j: int| 0 <= j < q.len() ==> q[i].time <= #[trigger] q[j].time
    &&& forall|j: int| 0 <= j < i ==> q[i].time < #[trigger] q[j].time
}

/// The position of the earliest pending event of a non-empty queue.
pub open spec fn earliest_index<A>(q: Seq<Event<A>>) -> int {
    choose|i: int| is_earliest(q, i)
}

/// Every non-empty queue has an earliest position.
pub proof fn lemma_earliest_exists<A>(q: Seq<Event<A>>)
    requires
        q.len() > 0,
    ensures
        is_earliest(q, earliest_index(q)),
    decreases q.len(),
{
    if q.len() == 1 {
        assert(is_earliest(q, 0));
    } else {
        let p = q.drop_last();
        lemma_earliest_exists(p);
        let k = earliest_index(p);
        let n = q.len() - 1;
        if q[n].time < p[k].time {
            assert(is_earliest(q, n)) by {
                assert forall|j: int| 0 <= j < n implies q[n].time < #[trigger] q[j].time by {
                    assert(q[j] == p[j]);
                }
            }
        } else {
            assert(is_earliest(q, k)) by {
                assert forall|j: int| 0 <= j < q.len() implies q[k].time <= #[trigger] q[j].time by {
                    if j < n {
                        assert(q[j] == p[j]);
                    }
                }
                assert forall|j: int| 0 <= j < k implies q[k].time < #[trigger] q[j].time by {
                    assert(q[j] == p[j]);
                }
            }
        }
    }
}

/// The order in which repeated calls of `advance` take the events of `q`
/// when nothing else is scheduled meanwhile.
pub open spec fn drain_order<A>(q: Seq<Event<A>>) -> Seq<Event<A>>
    decreases q.len(),
    via drain_order_decreases::<A>
{
    if q.len() == 0 {
        Seq::empty()
    } else {
        let k = earliest_index(q);
        seq![q[k]] + drain_order(q.remove(k))
    }
}

#[via_fn]
proof fn drain_order_decreases<A>(q: Seq<Event<A>>) {
    if q.len() > 0 {
        lemma_earliest_exists(q);
    }
}

/// Draining a queue takes as many events as it holds.
pub proof fn lemma_drain_len<A>(q: Seq<Event<A>>)
    ensures
        drain_order(q).len() == q.len(),
    decreases q.len(),
{
    if q.len() > 0 {
        lemma_earliest_exists(q);
        lemma_drain_len(q.remove(earliest_index(q)));
    }
}

/// Every event of `q` performs nothing when executed.
pub open spec fn all_idle<A>(q: Seq<Event<A>>) -> bool {
    forall|j: int| 0 <= j < q.len() ==> (#[trigger] q[j]).runs_idle()
}

/// `log` is `base` followed by a copy of each event of `executed`, each
/// without a result.
pub open spec fn logs_idle_run<A>(
    log: Seq<(Event<A>, Option<String>)>,
    base: Seq<(Event<A>, Option<String>)>,
    executed: Seq<Event<A>>,
) -> bool {
    &&& log.len() == base.len() + executed.len()
    &&& log.take(base.len() as int) == base
    &&& forall|i: int|
        0 <= i < executed.len() ==> (#[trigger] log[base.len() + i]).0.is_copy_of(executed[i])
            && log[base.len() + i].1 is None
}

/// A log filter that accepts every entry, or no filter.
pub open spec fn keeps_everything<A, F: Fn(&Event<A>, &Option<String>) -> bool>(
    log_filter: Option<F>,
) -> bool {
    forall|e: Event<A>, r: Option<String>, b: bool| #[trigger] decided_by(log_filter)(e, r, b) ==> b
}

/// A log filter that accepts no entry.
pub open spec fn rejects_all<A, F: Fn(&Event<A>, &Option<String>) -> bool>(
    log_filter: Option<F>,
) -> bool {
    log_filter matches Some(f) && forall|e: &Event<A>, res: &Option<String>, b: bool|
        f.ensures((e, res), b) ==> !b
}

/// Taking the earliest event of an idle queue `q`, whose drain order is
/// what is left of `d` after `n` events, takes the next event of `d` and
/// leaves an idle queue that drains as the rest of `d`.
proof fn lemma_advance_keeps_idle_drain<A>(q: Seq<Event<A>>, d: Seq<Event<A>>, n: int)
    requires
        q.len() > 0,
        all_idle(q),
        0 <= n <= d.len(),
        drain_order(q) == d.skip(n),
    ensures
        ({
            let k = earliest_index(q);
            &&& n < d.len()
            &&& q[k] == d[n]
            &&& q[k].runs_idle()
            &&& all_idle(q.remove(k))
            &&& drain_order(q.remove(k)) == d.skip(n + 1)
        }),
{
    lemma_earliest_exists(q);
    let k = earliest_index(q);
    let r = q.remove(k);
    assert(drain_order(q) == seq![q[k]] + drain_order(r));
    assert(d.skip(n)[0] == d[n]);
    assert(d.skip(n + 1) =~= d.skip(n).skip(1));
    assert((seq![q[k]] + drain_order(r)).skip(1) =~= drain_order(r));
    assert forall|j: int| 0 <= j < r.len() implies (#[trigger] r[j]).runs_idle() by {
        if j < k {
            assert(r[j] == q[j]);
        } else {
            assert(r[j] == q[j + 1]);
        }
    }
}

/// `r` holds, entry by entry, copies of the events of `log` (behaviour
/// erased) with the same results.
pub open spec fn is_log_copy<A>(
    r: Seq<(Event<A>, Option<String>)>,
    log: Seq<(Event<A>, Option<String>)>,
) -> bool {
    &&& r.len() == log.len()
    &&& forall|i: int| 0 <= i < r.len() ==> (#[trigger] r[i]).0.is_copy_of(log[i].0) && r[i].1 == log[i].1
}

/// A non-empty queue has exactly one earliest position.
pub proof fn lemma_earliest_unique<A>(q: Seq<Event<A>>, i: int)
    requires
        is_earliest(q, i),
    ensures
        earliest_index(q) == i,
{
    let k = earliest_index(q);
    assert(is_earliest(q, k));
    if k < i {
        assert(q[i].time < q[k].time);
    } else if i < k {
        assert(q[k].time < q[i].time);
    }
}

/// Executes events in time order and records what they returned.
#[derive(Debug)]
pub struct EventScheduler<A> {
    /// The simulated clock: the time of the event executed last, or 0.
    pub current_time: i64,
    /// Pending events, in the order they were scheduled.
    pub event_queue: Vec<Event<A>>,
    /// Copies of executed events, with their results, in execution order.
    pub event_log: Vec<(Event<A>, Option<String>)>,
}

impl<A> EventScheduler<A> {
    /// The earliest pending event, if any.
    pub open spec fn next_event(self) -> Option<Event<A>> {
        if self.event_queue@.len() == 0 {
            None
        } else {
            Some(self.event_queue@[earliest_index(self.event_queue@)])
        }
    }

    /// A scheduler at time 0 with nothing pending and nothing logged.
    pub fn new() -> (r: Self)
        ensures
            r.current_time == 0,
            r.event_queue@ == Seq::<Event<A>>::empty(),
            r.event_log@ == Seq::<(Event<A>, Option<String>)>::empty(),
    {
        EventScheduler { current_time: 0, event_queue: Vec::new(), event_log: Vec::new() }
    }

    /// Adds `event` to the pending events. Its time is not checked against
    /// the clock: an event in the past is simply the next one executed.
    pub fn schedule(&mut self, event: Event<A>)
        ensures
            final(self).event_queue@ == old(self).event_queue@.push(event),
            final(self).current_time == old(self).current_time,
            final(self).event_log == old(self).event_log,
    {
        self.event_queue.push(event);
    }

    /// Schedules a new active event `delay` after the current time.
    pub fn timeout(
        &mut self,
        delay: i64,
        action: Option<A>,
        context: Option<HashMap<String, String>>,
    )
        requires
            i64::MIN <= old(self).current_time + delay <= i64::MAX,
        ensures
            final(self).event_queue@.len() == old(self).event_queue@.len() + 1,
            final(self).event_queue@.drop_last() == old(self).event_queue@,
            ({
                let e = final(self).event_queue@.last();
                &&& e.time == old(self).current_time + delay
                &&& e.action == action
                &&& e.active
                &&& context is None ==> e.context@ == Map::<String, String>::empty()
                &&& context matches Some(c) ==> e.context == c
            }),
            final(self).current_time == old(self).current_time,
            final(self).event_log == old(self).event_log,
    {
        let event = Event::new(self.current_time + delay, action, context);
        self.schedule(event);
    }

    /// The position of the earliest pending event, if any.
    fn earliest(&self) -> (r: Option<usize>)
        ensures
            r is None <==> self.event_queue@.len() == 0,
            r matches Some(i) ==> i == earliest_index(self.event_queue@) && is_earliest(
                self.event_queue@,
                i as int,
            ),
    {
        let n = self.event_queue.len();
        if n == 0 {
            return None;
        }
        let mut best: usize = 0;
        let mut j: usize = 1;
        while j < n
            invariant
                n == self.event_queue@.len(),
                1 <= j <= n,
                best < j,
                is_earliest(self.event_queue@.take(j as int), best as int),
            decreases n - j,
        {
            if self.event_queue[j].time < self.event_queue[best].time {
                best = j;
            }
            j = j + 1;
        }
        proof {
            assert(self.event_queue@.take(n as int) =~= self.event_queue@);
            lemma_earliest_unique(self.event_queue@, best as int);
        }
        Some(best)
    }

    /// The time of the earliest pending event, if any.
    pub fn next_time(&self) -> (r: Option<i64>)
        ensures
            r == (match self.next_event() {
                Some(e) => Some(e.time),
                None => None::<i64>,
            }),
    {
        match self.earliest() {
            Some(i) => Some(self.event_queue[i].time),
            None => None,
        }
    }

    /// Removes the earliest pending event and advances the clock to its
    /// time; with nothing pending, changes nothing.
    pub fn advance(&mut self) -> (r: Option<Event<A>>)
        ensures
            r == old(self).next_event(),
            r is None ==> *final(self) == *old(self),
            r matches Some(e) ==> {
                &&& final(self).current_time == e.time
                &&& final(self).event_queue@ == old(self).event_queue@.remove(
                    earliest_index(old(self).event_queue@),
                )
                &&& final(self).event_log == old(self).event_log
            },
    {
        match self.earliest() {
            Some(i) => {
                let e = self.event_queue.remove(i);
                self.current_time = e.time;
                Some(e)
            },
            None => None,
        }
    }

    /// The clock has reached `max_time`, or no pending event lies before it.
    pub open spec fn reached(self, max_time: i64) -> bool {
        ||| self.current_time >= max_time
        ||| match self.next_event() {
            None => true,
            Some(e) => e.time >= max_time,
        }
    }

    /// Whether the clock has reached `max_time` or no pending event lies
    /// before it.
    pub fn has_reached(&self, max_time: i64) -> (r: bool)
        ensures
            r == self.reached(max_time),
    {
        if self.current_time >= max_time {
            return true;
        }
        match self.next_time() {
            Some(t) => t >= max_time,
            None => true,
        }
    }

    /// Appends a copy of `event` (behaviour erased) and its result to the log.
    fn record(&mut self, event: &Event<A>, result: Option<String>)
        ensures
            final(self).event_log@ == old(self).event_log@.push(
                (final(self).event_log@.last().0, result),
            ),
            final(self).event_log@.last().0.is_copy_of(*event),
            final(self).current_time == old(self).current_time,
            final(self).event_queue == old(self).event_queue,
    {
        self.event_log.push((event.clone(), result));
    }

    /// A copy of the whole log.
    fn log_copy(&self) -> (r: Vec<(Event<A>, Option<String>)>)
        ensures
            is_log_copy(r@, self.event_log@),
    {
        let mut r: Vec<(Event<A>, Option<String>)> = Vec::new();
        let mut i: usize = 0;
        while i < self.event_log.len()
            invariant
                i <= self.event_log@.len(),
                is_log_copy(r@, self.event_log@.take(i as int)),
            decreases self.event_log@.len() - i,
        {
            let entry = &self.event_log[i];
            r.push((entry.0.clone(), entry.1.clone()));
            i = i + 1;
        }
        proof {
            assert(self.event_log@.take(i as int) =~= self.event_log@);
        }
        r
    }
}

/// One pass of the run loop, seen from outside: the states it went through
/// and what it decided.
pub struct Step<A> {
    /// The scheduler when the stop condition was asked and declined.
    pub before: EventScheduler<A>,
    /// The event taken from the queue.
    pub taken: Event<A>,
    /// The scheduler lent to the event: `before` after `advance`.
    pub lent: EventScheduler<A>,
    /// The event after it ran.
    pub ran: Event<A>,
    /// The scheduler as the event handed it back.
    pub returned: EventScheduler<A>,
    /// What the event returned.
    pub result: Option<String>,
    /// Whether the log filter accepted the event.
    pub logged: bool,
    /// The scheduler after logging.
    pub after: EventScheduler<A>,
}

impl<A: Action> Step<A> {
    /// A pass of the loop whose stop condition declined on `before` and
    /// whose log filter gave `logged`: it takes the earliest pending event,
    /// moves the clock to its time, runs it, and appends a copy of it with
    /// its result when the filter accepted it.
    pub open spec fn is_pass(
        self,
        declines: spec_fn(EventScheduler<A>) -> bool,
        accepts: spec_fn(Event<A>, Option<String>, bool) -> bool,
    ) -> bool {
        &&& declines(self.before)
        &&& self.before.next_event() == Some(self.taken)
        &&& self.lent.current_time == self.taken.time
        &&& self.lent.event_queue@ == self.before.event_queue@.remove(
            earliest_index(self.before.event_queue@),
        )
        &&& self.lent.event_log == self.before.event_log
        &&& self.taken.runs(self.lent, self.ran, self.returned, self.result)
        &&& accepts(self.ran, self.result, self.logged)
        &&& self.after.current_time == self.returned.current_time
        &&& self.after.event_queue == self.returned.event_queue
        &&& if self.logged {
            &&& self.after.event_log@.len() == self.returned.event_log@.len() + 1
            &&& self.after.event_log@.drop_last() == self.returned.event_log@
            &&& self.after.event_log@.last().0.is_copy_of(self.ran)
            &&& self.after.event_log@.last().1 == self.result
        } else {
            self.after.event_log == self.returned.event_log
        }
    }
}

/// `steps` are the passes of a run loop from `start` to `end`, one after
/// the other.
pub open spec fn is_run<A: Action>(
    steps: Seq<Step<A>>,
    start: EventScheduler<A>,
    end: EventScheduler<A>,
    declines: spec_fn(EventScheduler<A>) -> bool,
    accepts: spec_fn(Event<A>, Option<String>, bool) -> bool,
) -> bool {
    &&& forall|i: int| 0 <= i < steps.len() ==> (#[trigger] steps[i]).is_pass(declines, accepts)
    &&& steps.len() == 0 ==> end == start
    &&& steps.len() > 0 ==> steps[0].before == start && steps.last().after == end
    &&& forall|i: int| 0 <= i < steps.len() - 1 ==> (#[trigger] steps[i]).after == steps[i + 1].before
}

/// The states on which `stop` may return false.
pub open spec fn declined_by<A, S: Fn(&EventScheduler<A>) -> bool>(stop: S) -> spec_fn(
    EventScheduler<A>,
) -> bool {
    |s: EventScheduler<A>| stop.ensures((&s,), false)
}

/// The decisions `log_filter` may take on an event and its result; no
/// filter keeps everything.
pub open spec fn decided_by<A, F: Fn(&Event<A>, &Option<String>) -> bool>(
    log_filter: Option<F>,
) -> spec_fn(Event<A>, Option<String>, bool) -> bool {
    |e: Event<A>, r: Option<String>, b: bool|
        match log_filter {
            None => b,
            Some(f) => f.ensures((&e, &r), b),
        }
}

/// The states on which `run_until_max_time` goes on: the clock is before
/// `max_time` and so is the next pending event.
pub open spec fn declined_before<A>(max_time: i64) -> spec_fn(EventScheduler<A>) -> bool {
    |s: EventScheduler<A>| !s.reached(max_time)
}

/// A log filter decision that keeps every entry.
pub open spec fn keeps_all<A>() -> spec_fn(Event<A>, Option<String>, bool) -> bool {
    |e: Event<A>, r: Option<String>, b: bool| b
}

/// A run described with one stop condition and filter is also described by
/// any weaker ones.
pub proof fn lemma_run_weaken<A: Action>(
    steps: Seq<Step<A>>,
    start: EventScheduler<A>,
    end: EventScheduler<A>,
    declines: spec_fn(EventScheduler<A>) -> bool,
    accepts: spec_fn(Event<A>, Option<String>, bool) -> bool,
    declines2: spec_fn(EventScheduler<A>) -> bool,
    accepts2: spec_fn(Event<A>, Option<String>, bool) -> bool,
)
    requires
        is_run(steps, start, end, declines, accepts),
        forall|s: EventScheduler<A>| declines(s) ==> #[trigger] declines2(s),
        forall|e: Event<A>, r: Option<String>, b: bool| accepts(e, r, b) ==> #[trigger] accepts2(e, r, b),
    ensures
        is_run(steps, start, end, declines2, accepts2),
{
    assert forall|i: int| 0 <= i < steps.len() implies (#[trigger] steps[i]).is_pass(
        declines2,
        accepts2,
    ) by {
        assert(steps[i].is_pass(declines, accepts));
    }
}

/// A run of `run_until_max_time` over idle events, begun before
/// `max_time` and ended at it, took exactly the events of the drain order
/// due before `max_time`.
proof fn lemma_idle_run_until<A: Action>(
    steps: Seq<Step<A>>,
    start: EventScheduler<A>,
    end: EventScheduler<A>,
    max_time: i64,
)
    requires
        is_run(steps, start, end, declined_before(max_time), keeps_all()),
        !start.reached(max_time),
        end.reached(max_time),
        steps.len() <= drain_order(start.event_queue@).len(),
        forall|i: int|
            0 <= i < steps.len() ==> (#[trigger] steps[i]).taken == drain_order(
                start.event_queue@,
            )[i],
        drain_order(end.event_queue@) == drain_order(start.event_queue@).skip(steps.len() as int),
        steps.len() > 0 ==> end.current_time == drain_order(start.event_queue@)[steps.len() - 1].time,
        logs_idle_run(
            end.event_log@,
            start.event_log@,
            drain_order(start.event_queue@).take(steps.len() as int),
        ),
    ensures
        ({
            let d = drain_order(start.event_queue@);
            exists|m: int|
                {
                    &&& 0 <= m <= d.len()
                    &&& #[trigger] logs_idle_run(end.event_log@, start.event_log@, d.take(m))
                    &&& drain_order(end.event_queue@) == d.skip(m)
                    &&& forall|i: int| 0 <= i < m ==> (#[trigger] d[i]).time < max_time
                    &&& forall|i: int| m <= i < d.len() ==> (#[trigger] d[i]).time >= max_time
                }
        }),
{
    let q0 = start.event_queue@;
    let d = drain_order(q0);
    let n = steps.len() as int;
    crate::laws::law_drain_in_time_order(q0);
    crate::laws::law_timed_run(steps, start, end, max_time);
    lemma_drain_len(end.event_queue@);
    assert forall|i: int| 0 <= i < n implies (#[trigger] d[i]).time < max_time by {
        assert(steps[i].taken == d[i]);
    }
    if n < d.len() {
        let fq = end.event_queue@;
        lemma_earliest_exists(fq);
        assert(drain_order(fq)[0] == fq[earliest_index(fq)]);
        assert(d.skip(n)[0] == d[n]);
        if n > 0 {
            assert(d[n - 1].time < max_time);
        }
        assert(d[n].time >= max_time);
        assert forall|i: int| n <= i < d.len() implies (#[trigger] d[i]).time >= max_time by {
            if i > n {
                assert(d[n].time <= d[i].time);
            }
        }
    }
    assert(logs_idle_run(end.event_log@, start.event_log@, d.take(n)));
}

/// A stop predicate for `run`: true once the clock has reached `max_time`
/// or no pending event lies before it.
fn stop_at_max_time_factory<A>(max_time: i64) -> (r: impl Fn(&EventScheduler<A>) -> bool)
    ensures
        forall|s: &EventScheduler<A>| r.requires((s,)),
        forall|s: &EventScheduler<A>, b: bool| r.ensures((s,), b) ==> b == s.reached(max_time),
{
    move |s: &EventScheduler<A>| -> (b: bool)
        ensures
            b == s.reached(max_time),
        { s.has_reached(max_time) }
}

impl<A: Action> EventScheduler<A> {
    /// The run loop, executing at most `budget` events: while `stop` is
    /// false, takes the earliest pending event, advances the clock to it,
    /// executes it and logs a copy if `log_filter` (by default: always)
    /// accepts it. Returns how many events it executed. The budget bounds the
    /// loop, since actions may keep scheduling events for ever.
    fn run_steps<S, F>(&mut self, stop: S, log_filter: Option<F>, budget: u64) -> (n: u64) where
        S: Fn(&EventScheduler<A>) -> bool,
        F: Fn(&Event<A>, &Option<String>) -> bool,

        requires
            forall|s: &EventScheduler<A>| stop.requires((s,)),
            log_filter matches Some(f) ==> forall|e: &Event<A>, res: &Option<String>|
                f.requires((e, res)),
        ensures
            n <= budget,
            n < budget ==> stop.ensures((&*final(self),), true) || final(self).event_queue@.len()
                == 0,
            (forall|b: bool| stop.ensures((&*old(self),), b) ==> b) ==> *final(self) == *old(self),
            exists|steps: Seq<Step<A>>|
                #[trigger] is_run(
                    steps,
                    *old(self),
                    *final(self),
                    declined_by(stop),
                    decided_by(log_filter),
                ) && steps.len() == n && (all_idle(old(self).event_queue@) ==> forall|i: int|
                    0 <= i < n ==> (#[trigger] steps[i]).taken == drain_order(
                        old(self).event_queue@,
                    )[i]),
            all_idle(old(self).event_queue@) ==> {
                let d = drain_order(old(self).event_queue@);
                &&& n <= d.len()
                &&& drain_order(final(self).event_queue@) == d.skip(n as int)
                &&& n > 0 ==> final(self).current_time == d[n - 1].time
                &&& keeps_everything(log_filter) ==> logs_idle_run(
                    final(self).event_log@,
                    old(self).event_log@,
                    d.take(n as int),
                )
                &&& rejects_all(log_filter) ==> final(self).event_log@ == old(self).event_log@
            },
    {
        let ghost d = drain_order(self.event_queue@);
        proof {
            assert(d.skip(0) =~= d);
            assert(self.event_log@.take(self.event_log@.len() as int) =~= self.event_log@);
        }
        let ghost mut steps: Seq<Step<A>> = Seq::empty();
        let mut n: u64 = 0;
        while n < budget
            invariant
                n <= budget,
                steps.len() == n,
                is_run(steps, *old(self), *self, declined_by(stop), decided_by(log_filter)),
                forall|s: &EventScheduler<A>| stop.requires((s,)),
                log_filter matches Some(f) ==> forall|e: &Event<A>, res: &Option<String>|
                    f.requires((e, res)),
                n == 0 ==> *self == *old(self),
                n > 0 ==> stop.ensures((&*old(self),), false),
                d == drain_order(old(self).event_queue@),
                all_idle(old(self).event_queue@) ==> {
                    &&& all_idle(self.event_queue@)
                    &&& n <= d.len()
                    &&& drain_order(self.event_queue@) == d.skip(n as int)
                    &&& n > 0 ==> self.current_time == d[n - 1].time
                    &&& forall|i: int| 0 <= i < n ==> (#[trigger] steps[i]).taken == d[i]
                    &&& keeps_everything(log_filter) ==> logs_idle_run(
                        self.event_log@,
                        old(self).event_log@,
                        d.take(n as int),
                    )
                    &&& rejects_all(log_filter) ==> self.event_log@ == old(self).event_log@
                },
            decreases budget - n,
        {
            if stop(&*self) {
                return n;
            }
            let ghost q = self.event_queue@;
            let ghost before = *self;
            match self.advance() {
                Some(mut event) => {
                    let ghost lent = *self;
                    let ghost taken = event;
                    proof {
                        if all_idle(old(self).event_queue@) {
                            lemma_advance_keeps_idle_drain(q, d, n as int);
                        }
                    }
                    let result = event.run(self);
                    let keep = match &log_filter {
                        Some(f) => f(&event, &result),
                        None => true,
                    };
                    let ghost returned = *self;
                    let ghost res = result;
                    if keep {
                        self.record(&event, result);
                    }
                    proof {
                        let st = Step {
                            before,
                            taken,
                            lent,
                            ran: event,
                            returned,
                            result: res,
                            logged: keep,
                            after: *self,
                        };
                        if keep {
                            assert(st.after.event_log@.drop_last() =~= st.returned.event_log@);
                        }
                        assert(decided_by(log_filter)(st.ran, st.result, st.logged));
                        assert(st.is_pass(declined_by(stop), decided_by(log_filter)));
                        steps = steps.push(st);
                    }
                    proof {
                        if all_idle(old(self).event_queue@) && keeps_everything(log_filter) {
                            assert(d.take(n + 1) == d.take(n as int).push(d[n as int]));
                            assert(self.event_log@.take(old(self).event_log@.len() as int)
                                =~= old(self).event_log@);
                        }
                    }
                    n = n + 1;
                },
                None => {
                    return n;
                },
            }
        }
        n
    }

    /// Runs the simulation until `stop` holds or nothing is pending, and
    /// returns a copy of the whole log. Each step takes the earliest pending
    /// event, advances the clock to its time, executes it, and logs a copy
    /// with its result if `log_filter` (by default: always) accepts it. One
    /// call executes at most `u64::MAX` events.
    ///
    /// The contract describes the run as a sequence of passes (`Step`), each
    /// an exact pass of the loop around what its event's action performed
    /// (`Action::performs`). It ends when `stop` holds, the queue is empty,
    /// or the budget is spent. Where every pending event is idle, the whole
    /// run is pinned down: it takes them in `drain_order`.
    pub fn run<S, F>(&mut self, stop: S, log_filter: Option<F>) -> (r: Vec<
        (Event<A>, Option<String>),
    >) where
        S: Fn(&EventScheduler<A>) -> bool,
        F: Fn(&Event<A>, &Option<String>) -> bool,

        requires
            forall|s: &EventScheduler<A>| stop.requires((s,)),
            log_filter matches Some(f) ==> forall|e: &Event<A>, res: &Option<String>|
                f.requires((e, res)),
        ensures
            is_log_copy(r@, final(self).event_log@),
            exists|steps: Seq<Step<A>>|
                {
                    &&& #[trigger] is_run(
                        steps,
                        *old(self),
                        *final(self),
                        declined_by(stop),
                        decided_by(log_filter),
                    )
                    &&& stop.ensures((&*final(self),), true) || final(self).event_queue@.len() == 0
                        || steps.len() == u64::MAX
                },
            (forall|b: bool| stop.ensures((&*old(self),), b) ==> b) ==> *final(self) == *old(self),
            all_idle(old(self).event_queue@) ==> {
                let d = drain_order(old(self).event_queue@);
                &&& (forall|s: &EventScheduler<A>, b: bool| stop.ensures((s,), b) ==> !b) ==> {
                    &&& final(self).event_queue@.len() == 0
                    &&& d.len() > 0 ==> final(self).current_time == d.last().time
                    &&& log_filter is None ==> logs_idle_run(
                        final(self).event_log@,
                        old(self).event_log@,
                        d,
                    )
                }
                &&& rejects_all(log_filter) ==> final(self).event_log@ == old(self).event_log@
            },
    {
        let ghost q0 = self.event_queue@;
        let ghost q_start = *self;
        let len0 = self.event_queue.len();
        let ghost stop0 = stop;
        let ghost filter0 = log_filter;
        let n = self.run_steps(stop, log_filter, u64::MAX);
        proof {
            let steps = choose|steps: Seq<Step<A>>|
                #[trigger] is_run(
                    steps,
                    q_start,
                    *self,
                    declined_by(stop0),
                    decided_by(filter0),
                ) && steps.len() == n;
            assert(is_run(steps, q_start, *self, declined_by(stop0), decided_by(filter0)));
            let d = drain_order(q0);
            if all_idle(q0) && forall|s: &EventScheduler<A>, b: bool| stop.ensures((s,), b) ==> !b {
                lemma_drain_len(q0);
                lemma_drain_len(self.event_queue@);
                if n < u64::MAX {
                    assert(!stop.ensures((&*self,), true));
                }
                assert(n == d.len());
                assert(d.take(n as int) =~= d);
            }
        }
        self.log_copy()
    }

    /// Runs until the clock reaches `max_time` or no pending event lies
    /// before it: no event at or after `max_time` is executed. Its passes
    /// are those of `run` with that stop condition and no log filter; where
    /// every pending event is idle, it logs exactly the events of
    /// `drain_order` due before `max_time` and leaves the rest queued.
    pub fn run_until_max_time(&mut self, max_time: i64) -> (r: Vec<(Event<A>, Option<String>)>)
        ensures
            is_log_copy(r@, final(self).event_log@),
            exists|steps: Seq<Step<A>>|
                {
                    &&& #[trigger] is_run(
                        steps,
                        *old(self),
                        *final(self),
                        declined_before(max_time),
                        keeps_all(),
                    )
                    &&& final(self).reached(max_time) || steps.len() == u64::MAX
                },
            old(self).reached(max_time) ==> *final(self) == *old(self),
            all_idle(old(self).event_queue@) ==> final(self).reached(max_time),
            all_idle(old(self).event_queue@) && !old(self).reached(max_time) ==> {
                let d = drain_order(old(self).event_queue@);
                exists|m: int|
                    {
                        &&& 0 <= m <= d.len()
                        &&& #[trigger] logs_idle_run(
                            final(self).event_log@,
                            old(self).event_log@,
                            d.take(m),
                        )
                        &&& drain_order(final(self).event_queue@) == d.skip(m)
                        &&& forall|i: int| 0 <= i < m ==> (#[trigger] d[i]).time < max_time
                        &&& forall|i: int| m <= i < d.len() ==> (#[trigger] d[i]).time >= max_time
                    }
            },
    {
        let ghost q0 = self.event_queue@;
        let ghost start = *self;
        let len0 = self.event_queue.len();
        let stop = stop_at_max_time_factory(max_time);
        let keep = |_e: &Event<A>, _res: &Option<String>| -> (b: bool)
            ensures
                b,
            { true };
        let ghost stop0 = stop;
        let ghost filter0 = Some(keep);
        let n = self.run_steps(stop, Some(keep), u64::MAX);
        proof {
            let steps = choose|steps: Seq<Step<A>>|
                #[trigger] is_run(
                    steps,
                    start,
                    *self,
                    declined_by(stop0),
                    decided_by(filter0),
                ) && steps.len() == n && (all_idle(q0) ==> forall|i: int|
                    0 <= i < n ==> (#[trigger] steps[i]).taken == drain_order(q0)[i]);
            assert forall|s: EventScheduler<A>| declined_by(stop0)(s) implies #[trigger] declined_before::<A>(max_time)(s) by {
                assert(stop0.ensures((&s,), false));
            }
            assert forall|e: Event<A>, r: Option<String>, b: bool| decided_by(filter0)(e, r, b) implies #[trigger] keeps_all::<A>()(e, r, b) by {
                assert(keep.ensures((&e, &r), b));
            }
            lemma_run_weaken(
                steps,
                start,
                *self,
                declined_by(stop0),
                decided_by(filter0),
                declined_before(max_time),
                keeps_all(),
            );
            if n < u64::MAX {
                assert(stop0.ensures((&*self,), true) || self.event_queue@.len() == 0);
            }
            if all_idle(q0) && !start.reached(max_time) {
                assert(keeps_everything(filter0)) by {
                    assert forall|e: Event<A>, r: Option<String>, b: bool|
                        #[trigger] decided_by(filter0)(e, r, b) implies b by {
                        assert(keep.ensures((&e, &r), b));
                    }
                }
                if n == u64::MAX {
                    lemma_drain_len(q0);
                    lemma_drain_len(self.event_queue@);
                    assert(n == drain_order(q0).len());
                }
                assert(self.reached(max_time));
                lemma_idle_run_until(steps, start, *self, max_time);
            }

            if all_idle(q0) && n == u64::MAX {
                lemma_drain_len(q0);
                lemma_drain_len(self.event_queue@);
                assert(n == drain_order(q0).len());
            }
        }
        self.log_copy()
    }
}

} // verus!
