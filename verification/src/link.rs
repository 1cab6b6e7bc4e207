//! Supervision of one peer's link: when to dial, when to pump, when to wait.
//!
//! The link itself does nothing. Its owner reports what happened as a
//! `LinkEvent` and carries out the `LinkAction` that comes back.
use vstd::prelude::*;

verus! {

/// Where the link to one peer stands.
#[derive(Clone, Copy, Debug, PartialEq, Eq, Structural)]
pub enum LinkState {
    /// No connection, and no attempt under way.
    Disconnected,
    /// One attempt to connect is under way.
    Connecting,
    /// A connection is up.
    Connected,
    /// Shutdown was requested. Nothing leads out of here.
    Stopped,
}

/// What the owner of a link reports to it.
#[derive(Clone, Copy, Debug, PartialEq, Eq, Structural)]
pub enum LinkEvent {
    /// The delay before the next attempt is over.
    RetryDue,
    /// The attempt under way gave a connection.
    DialSucceeded,
    /// The attempt under way failed.
    DialFailed,
    /// The connection failed or was closed.
    ConnectionLost,
    /// Shutdown was requested.
    Cancelled,
}

/// What the owner of a link has to do next.
#[derive(Clone, Copy, Debug, PartialEq, Eq, Structural)]
pub enum LinkAction {
    /// Nothing: the event does not concern the link as it stands.
    Nothing,
    /// Start one attempt to connect.
    Dial,
    /// Move messages over the new connection.
    Pump,
    /// Drop the connection, if any, and report `RetryDue` after this many
    /// milliseconds.
    Backoff(u64),
    /// Drop the connection, if any, and end.
    Stop,
}

/// How long to wait between attempts: `base_ms` at first, twice as long after
/// each further failure, and never more than `max_ms`.
#[derive(Clone, Copy, Debug, PartialEq, Eq, Structural)]
pub struct Backoff {
    pub base_ms: u64,
    pub max_ms: u64,
}

/// The smaller of two numbers.
pub open spec fn least(a: int, b: int) -> int {
    if a <= b {
        a
    } else {
        b
    }
}

impl Backoff {
    /// The delay after `failures` failures in a row before this one.
    pub open spec fn delay(self, failures: nat) -> int
        decreases failures,
    {
        if failures == 0 {
            least(self.base_ms as int, self.max_ms as int)
        } else {
            least(2 * self.delay((failures - 1) as nat), self.max_ms as int)
        }
    }

    /// No delay is longer than `max_ms`, and none is negative.
    pub proof fn delay_is_bounded(self, failures: nat)
        ensures
            0 <= self.delay(failures) <= self.max_ms,
        decreases failures,
    {
        if failures > 0 {
            self.delay_is_bounded((failures - 1) as nat);
        }
    }

    /// A further failure never shortens the delay.
    pub proof fn delay_never_shrinks(self, failures: nat)
        ensures
            self.delay(failures) <= self.delay(failures + 1),
    {
        self.delay_is_bounded(failures);
    }

    /// Once the delay has reached `max_ms` or is zero, it stays there.
    proof fn delay_settles(self, from: nat, to: nat)
        requires
            from <= to,
            self.delay(from) == self.max_ms || self.delay(from) == 0,
        ensures
            self.delay(to) == self.delay(from),
        decreases to,
    {
        if from < to {
            self.delay_settles(from, (to - 1) as nat);
            self.delay_is_bounded(from);
        }
    }

    /// The delay after `failures` failures in a row before this one.
    pub fn delay_ms(&self, failures: u32) -> (ms: u64)
        ensures
            ms == self.delay(failures as nat),
    {
        let mut ms: u64 = if self.base_ms <= self.max_ms {
            self.base_ms
        } else {
            self.max_ms
        };
        let mut done: u32 = 0;
        while done < failures && ms != 0 && ms != self.max_ms
            invariant
                done <= failures,
                ms == self.delay(done as nat),
            decreases failures - done,
        {
            proof {
                self.delay_is_bounded(done as nat);
            }
            ms = if ms <= self.max_ms / 2 && ms * 2 <= self.max_ms {
                ms * 2
            } else {
                self.max_ms
            };
            done = done + 1;
        }
        proof {
            if done < failures {
                self.delay_settles(done as nat, failures as nat);
            }
        }
        ms
    }
}

/// The link to one peer: its state and the failures in a row so far.
#[derive(Clone, Copy, Debug, PartialEq, Eq, Structural)]
pub struct Link {
    pub state: LinkState,
    pub failures: u32,
}

/// One more failure, as far as the counter goes.
pub open spec fn one_more(failures: u32) -> u32 {
    if failures < u32::MAX {
        (failures + 1) as u32
    } else {
        failures
    }
}

impl Link {
    /// The link after `event`.
    pub open spec fn after(self, event: LinkEvent) -> Link {
        match (self.state, event) {
            (LinkState::Stopped, _) => self,
            (_, LinkEvent::Cancelled) => Link { state: LinkState::Stopped, failures: self.failures },
            (LinkState::Disconnected, LinkEvent::RetryDue) => Link {
                state: LinkState::Connecting,
                failures: self.failures,
            },
            (LinkState::Connecting, LinkEvent::DialSucceeded) => Link {
                state: LinkState::Connected,
                failures: 0,
            },
            (LinkState::Connecting, LinkEvent::DialFailed) => Link {
                state: LinkState::Disconnected,
                failures: one_more(self.failures),
            },
            (LinkState::Connected, LinkEvent::ConnectionLost) => Link {
                state: LinkState::Disconnected,
                failures: one_more(self.failures),
            },
            _ => self,
        }
    }

    /// What the owner has to do when `event` reaches the link.
    pub open spec fn action(self, event: LinkEvent, policy: Backoff) -> LinkAction {
        match (self.state, event) {
            (LinkState::Stopped, _) => LinkAction::Nothing,
            (_, LinkEvent::Cancelled) => LinkAction::Stop,
            (LinkState::Disconnected, LinkEvent::RetryDue) => LinkAction::Dial,
            (LinkState::Connecting, LinkEvent::DialSucceeded) => LinkAction::Pump,
            (LinkState::Connecting, LinkEvent::DialFailed) => LinkAction::Backoff(
                policy.delay(self.failures as nat) as u64,
            ),
            (LinkState::Connected, LinkEvent::ConnectionLost) => LinkAction::Backoff(
                policy.delay(self.failures as nat) as u64,
            ),
            _ => LinkAction::Nothing,
        }
    }

    /// The link after each of `events` in turn.
    pub open spec fn after_all(self, events: Seq<LinkEvent>) -> Link
        decreases events.len(),
    {
        if events.len() == 0 {
            self
        } else {
            self.after(events[0]).after_all(events.subrange(1, events.len() as int))
        }
    }

    /// A link with no connection and no failure behind it.
    pub fn new() -> (link: Link)
        ensures
            link == (Link { state: LinkState::Disconnected, failures: 0 }),
    {
        Link { state: LinkState::Disconnected, failures: 0 }
    }

    /// Takes `event` in and says what to do.
    pub fn on_event(&mut self, event: LinkEvent, policy: &Backoff) -> (action: LinkAction)
        ensures
            *final(self) == old(self).after(event),
            action == old(self).action(event, *policy),
    {
        match self.state {
            LinkState::Stopped => LinkAction::Nothing,
            LinkState::Disconnected => match event {
                LinkEvent::Cancelled => {
                    self.state = LinkState::Stopped;
                    LinkAction::Stop
                },
                LinkEvent::RetryDue => {
                    self.state = LinkState::Connecting;
                    LinkAction::Dial
                },
                _ => LinkAction::Nothing,
            },
            LinkState::Connecting => match event {
                LinkEvent::Cancelled => {
                    self.state = LinkState::Stopped;
                    LinkAction::Stop
                },
                LinkEvent::DialSucceeded => {
                    self.state = LinkState::Connected;
                    self.failures = 0;
                    LinkAction::Pump
                },
                LinkEvent::DialFailed => {
                    let ms: u64 = policy.delay_ms(self.failures);
                    self.state = LinkState::Disconnected;
                    self.failures = self.failures.saturating_add(1);
                    LinkAction::Backoff(ms)
                },
                _ => LinkAction::Nothing,
            },
            LinkState::Connected => match event {
                LinkEvent::Cancelled => {
                    self.state = LinkState::Stopped;
                    LinkAction::Stop
                },
                LinkEvent::ConnectionLost => {
                    let ms: u64 = policy.delay_ms(self.failures);
                    self.state = LinkState::Disconnected;
                    self.failures = self.failures.saturating_add(1);
                    LinkAction::Backoff(ms)
                },
                _ => LinkAction::Nothing,
            },
        }
    }
}

/// An attempt to connect starts only where none is under way and no
/// connection is up, so a peer never has two at a time.
pub proof fn dial_needs_disconnected(link: Link, event: LinkEvent, policy: Backoff)
    ensures
        link.action(event, policy) == LinkAction::Dial ==> link.state == LinkState::Disconnected
            && link.after(event).state == LinkState::Connecting,
        link.after(event).state == LinkState::Connecting ==> link.state
            == LinkState::Disconnected || link.state == LinkState::Connecting,
{
}

/// A connection that fails is set up again without anyone stepping in: after
/// the loss, however many attempts fail, the next one that succeeds brings
/// the link back, and before each attempt the wait is bounded.
pub proof fn reconnect_restores(link: Link, failed_attempts: nat, policy: Backoff)
    requires
        link.state == LinkState::Connected,
    ensures
        link.after(LinkEvent::ConnectionLost).state == LinkState::Disconnected,
        link.after(LinkEvent::ConnectionLost).after_all(retries(failed_attempts)).state
            == LinkState::Connected,
        link.after(LinkEvent::ConnectionLost).after_all(retries(failed_attempts)).failures == 0,
{
    retries_reconnect(link.after(LinkEvent::ConnectionLost), failed_attempts);
}

/// The events of `failed_attempts` attempts that fail and one that succeeds.
pub open spec fn retries(failed_attempts: nat) -> Seq<LinkEvent>
    decreases failed_attempts,
{
    if failed_attempts == 0 {
        seq![LinkEvent::RetryDue, LinkEvent::DialSucceeded]
    } else {
        seq![LinkEvent::RetryDue, LinkEvent::DialFailed] + retries((failed_attempts - 1) as nat)
    }
}

proof fn retries_reconnect(link: Link, failed_attempts: nat)
    requires
        link.state == LinkState::Disconnected,
    ensures
        link.after_all(retries(failed_attempts)).state == LinkState::Connected,
        link.after_all(retries(failed_attempts)).failures == 0,
    decreases failed_attempts,
{
    let events = retries(failed_attempts);
    let one = link.after(events[0]);
    let rest = events.subrange(1, events.len() as int);
    let two = one.after(rest[0]);
    let tail = rest.subrange(1, rest.len() as int);
    assert(link.after_all(events) == one.after_all(rest));
    assert(one.after_all(rest) == two.after_all(tail));
    if failed_attempts == 0 {
        assert(tail.len() == 0);
        assert(two.after_all(tail) == two);
    } else {
        assert(tail =~= retries((failed_attempts - 1) as nat));
        retries_reconnect(two, (failed_attempts - 1) as nat);
    }
}

/// After shutdown nothing moves the link, and nothing is asked of its owner:
/// no attempt to connect starts again.
pub proof fn stopped_stays_stopped(link: Link, events: Seq<LinkEvent>, policy: Backoff)
    requires
        link.state == LinkState::Stopped,
    ensures
        link.after_all(events) == link,
        forall|event: LinkEvent| #[trigger] link.action(event, policy) == LinkAction::Nothing,
    decreases events.len(),
{
    if events.len() > 0 {
        stopped_stays_stopped(link, events.subrange(1, events.len() as int), policy);
    }
}

/// Shutdown stops a link wherever it stands.
pub proof fn cancel_stops(link: Link, policy: Backoff)
    ensures
        link.after(LinkEvent::Cancelled).state == LinkState::Stopped,
        link.state != LinkState::Stopped ==> link.action(LinkEvent::Cancelled, policy)
            == LinkAction::Stop,
{
}

} // verus!
