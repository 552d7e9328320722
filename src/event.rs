//! Events: a point in simulated time, the behaviour to perform there, and
//! free-form context attached by the caller.
use vstd::prelude::*;
use std::collections::HashMap;

use crate::scheduler::EventScheduler;

verus! {

/// Behaviour that an event performs when it is executed.
///
/// The embedding application implements this trait. The scheduler lends
/// itself to `call`, so the behaviour may schedule further events.
pub trait Action: Sized {
    /// What one performance may do: behaviour `self`, lent scheduler `s`,
    /// leaves behaviour `after` and scheduler `s_after`, and returns `r`.
    /// Each implementation may state its own (by default: anything); the
    /// library assumes no more.
    open spec fn performs(
        self,
        s: EventScheduler<Self>,
        after: Self,
        s_after: EventScheduler<Self>,
        r: Option<String>,
    ) -> bool {
        true
    }

    /// Performs the behaviour and returns its result, if it has one.
    fn call(&mut self, scheduler: &mut EventScheduler<Self>) -> (r: Option<String>)
        ensures
            Self::performs(*old(self), *old(scheduler), *final(self), *final(scheduler), r),
    ;
}

/// A unit of work at a point in simulated time.
///
/// An event without an action (`action == None`) does nothing when executed.
/// Events compare by `time` alone.
#[derive(Debug)]
pub struct Event<A> {
    /// The simulated time at which the event is executed.
    pub time: i64,
    /// The behaviour performed on execution.
    pub action: Option<A>,
    /// Caller-attached metadata, never read by the scheduler.
    pub context: HashMap<String, String>,
    /// An inactive event is still dequeued and logged, but performs nothing.
    pub active: bool,
}

impl<A> Event<A> {
    /// Executing the event performs nothing and yields no result.
    pub open spec fn runs_idle(self) -> bool {
        !self.active || self.action is None
    }

    /// `self` carries the time, flag and context of `other`, with the
    /// behaviour erased.
    pub open spec fn is_copy_of(self, other: Event<A>) -> bool {
        &&& self.time == other.time
        &&& self.active == other.active
        &&& self.context@ == other.context@
        &&& self.action is None
    }

    /// An active event at `time`; a missing context is an empty map.
    pub fn new(time: i64, action: Option<A>, context: Option<HashMap<String, String>>) -> (r: Self)
        ensures
            r.time == time,
            r.action == action,
            r.active,
            context is None ==> r.context@ == Map::<String, String>::empty(),
            context matches Some(c) ==> r.context == c,
    {
        let context = match context {
            Some(c) => c,
            None => HashMap::new(),
        };
        Event { time, action, context, active: true }
    }

    /// Marks the event as active.
    pub fn activate(&mut self)
        ensures
            *final(self) == (Event { active: true, ..*old(self) }),
    {
        self.active = true;
    }

    /// Marks the event as inactive: executing it then performs nothing.
    pub fn deactivate(&mut self)
        ensures
            *final(self) == (Event { active: false, ..*old(self) }),
    {
        self.active = false;
    }
}

impl<A: Action> Event<A> {
    /// Executing the event, lent scheduler `s`, leaves the event `after`,
    /// the scheduler `s_after` and the result `r`: an idle event returns
    /// `None` and changes nothing; otherwise the action performs once, and
    /// only it changes the scheduler and itself.
    pub open spec fn runs(
        self,
        s: EventScheduler<A>,
        after: Self,
        s_after: EventScheduler<A>,
        r: Option<String>,
    ) -> bool {
        if self.runs_idle() {
            &&& r is None
            &&& after == self
            &&& s_after == s
        } else {
            &&& after.time == self.time
            &&& after.active == self.active
            &&& after.context == self.context
            &&& after.action is Some
            &&& A::performs(self.action->0, s, after.action->0, s_after, r)
        }
    }

    /// Executes the event: an active event with an action performs it,
    /// lending it the scheduler, and returns its result; any other event
    /// returns `None` and changes nothing.
    pub fn run(&mut self, scheduler: &mut EventScheduler<A>) -> (r: Option<String>)
        ensures
            old(self).runs(*old(scheduler), *final(self), *final(scheduler), r),
    {
        if self.active {
            match &mut self.action {
                Some(a) => a.call(scheduler),
                None => None,
            }
        } else {
            None
        }
    }
}

impl<A> Clone for Event<A> {
    /// Copies time, flag and context; the copy has no behaviour, since
    /// behaviour cannot in general be duplicated.
    fn clone(&self) -> (r: Self)
        ensures
            r.is_copy_of(*self),
    {
        Event { time: self.time, action: None, context: self.context.clone(), active: self.active }
    }
}

impl<A> PartialEq for Event<A> {
    fn eq(&self, other: &Self) -> (r: bool) {
        self.time == other.time
    }
}

impl<A> vstd::std_specs::cmp::PartialEqSpecImpl for Event<A> {
    open spec fn obeys_eq_spec() -> bool {
        true
    }

    open spec fn eq_spec(&self, other: &Self) -> bool {
        self.time == other.time
    }
}

impl<A> PartialOrd for Event<A> {
    fn partial_cmp(&self, other: &Self) -> (r: Option<std::cmp::Ordering>) {
        if self.time < other.time {
            Some(std::cmp::Ordering::Less)
        } else if self.time == other.time {
            Some(std::cmp::Ordering::Equal)
        } else {
            Some(std::cmp::Ordering::Greater)
        }
    }
}

impl<A> vstd::std_specs::cmp::PartialOrdSpecImpl for Event<A> {
    open spec fn obeys_partial_cmp_spec() -> bool {
        true
    }

    open spec fn partial_cmp_spec(&self, other: &Self) -> Option<std::cmp::Ordering> {
        if self.time < other.time {
            Some(std::cmp::Ordering::Less)
        } else if self.time == other.time {
            Some(std::cmp::Ordering::Equal)
        } else {
            Some(std::cmp::Ordering::Greater)
        }
    }
}

} // verus!
