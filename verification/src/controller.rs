//! The reconciliation controller: turns one successful or failed poll into
//! the notification events it owes downstream, replaces the stored roster on
//! success, and tracks consecutive failures to escalate exactly once per
//! failure streak.
use vstd::prelude::*;
use crate::diff::{diff_rosters, spec_connects, spec_disconnects};
use crate::records::{ClientData, ClientRecord, roster_view, unique_identities};

verus! {

/// The number of consecutive failed polls at which an escalation alert is
/// emitted.
pub const CRITICAL_FAILURE_COUNT: u64 = 3;

/// Why a poll produced no roster: the transport failed, or the response text
/// could not be parsed.
#[derive(Debug)]
pub enum PollError {
    ConnectionFailed,
    MalformedResponse,
}

/// One downstream notification owed after a tick.
#[derive(Debug)]
pub enum Event {
    Connected(ClientRecord),
    Disconnected(ClientRecord),
    EscalationAlert,
}

/// Mathematical model of an event.
pub ghost enum EventData {
    Connected(ClientData),
    Disconnected(ClientData),
    EscalationAlert,
}

impl View for Event {
    type V = EventData;

    open spec fn view(&self) -> EventData {
        match self {
            Event::Connected(c) => EventData::Connected(c@),
            Event::Disconnected(c) => EventData::Disconnected(c@),
            Event::EscalationAlert => EventData::EscalationAlert,
        }
    }
}

/// The view of a sequence of emitted events.
pub open spec fn events_view(s: Seq<Event>) -> Seq<EventData> {
    s.map_values(|e: Event| e@)
}

/// The failure counter after one more failed poll: one higher, saturating at
/// the largest representable value so a long outage cannot wrap it around.
pub open spec fn spec_next_failures(n: u64) -> u64 {
    if n == u64::MAX {
        n
    } else {
        (n + 1) as u64
    }
}

/// The events owed for one reconciliation of `old_r` against `new_r`: all
/// disconnects (records from the old roster), then all connects (records from
/// the new roster).
pub open spec fn spec_diff_events(old_r: Seq<ClientData>, new_r: Seq<ClientData>) -> Seq<
    EventData,
> {
    spec_disconnects(old_r, new_r).map_values(|c: ClientData| EventData::Disconnected(c)) + spec_connects(
        old_r,
        new_r,
    ).map_values(|c: ClientData| EventData::Connected(c))
}

/// A controller of the reconciliation state machine: something that owns a
/// stored roster and a consecutive-failure counter and, once per tick, turns
/// a poll outcome into the events owed downstream.
pub trait ClientController: Sized {
    /// The stored roster: who was connected at the last successful poll.
    spec fn roster(&self) -> Seq<ClientData>;

    /// The count of consecutive failed polls since the last success.
    spec fn failures(&self) -> u64;

    /// The failure count at which one escalation alert is emitted.
    spec fn alert_threshold(&self) -> u64;

    /// Validity of the controller's state.
    spec fn wf(&self) -> bool;

    /// One tick. On a failed poll the roster is untouched, the failure
    /// counter counts up, and an alert is emitted exactly when the counter
    /// reaches the threshold. On a successful poll the counter resets, the
    /// events are the diff of the stored roster against the polled one
    /// (disconnects first), and the polled roster wholly replaces the stored
    /// one.
    fn update_connected_clients(&mut self, poll: Result<Vec<ClientRecord>, PollError>) -> (events:
        Vec<Event>)
        requires
            old(self).wf(),
            poll is Ok ==> unique_identities(roster_view(poll->Ok_0@)),
        ensures
            final(self).wf(),
            final(self).alert_threshold() == old(self).alert_threshold(),
            match poll {
                Err(_) => {
                    &&& final(self).roster() == old(self).roster()
                    &&& final(self).failures() == spec_next_failures(old(self).failures())
                    &&& events_view(events@) == if spec_next_failures(old(self).failures()) == old(
                        self,
                    ).alert_threshold() {
                        seq![EventData::EscalationAlert]
                    } else {
                        Seq::<EventData>::empty()
                    }
                },
                Ok(new_r) => {
                    &&& final(self).failures() == 0
                    &&& final(self).roster() == roster_view(new_r@)
                    &&& events_view(events@) == spec_diff_events(
                        old(self).roster(),
                        roster_view(new_r@),
                    )
                },
            },
    ;
}

/// The one controller of this crate: in-memory roster, in-memory counter, a
/// fixed threshold chosen at construction.
pub struct Controller {
    clients: Vec<ClientRecord>,
    failed_calls: u64,
    threshold: u64,
}

impl Controller {
    /// Seeds a controller with the roster of the first successful poll (or an
    /// empty one) without emitting any event for it, and with a zero failure
    /// count.
    pub fn new(initial_roster: Vec<ClientRecord>, threshold: u64) -> (c: Controller)
        requires
            unique_identities(roster_view(initial_roster@)),
        ensures
            c.wf(),
            c.roster() == roster_view(initial_roster@),
            c.failures() == 0,
            c.alert_threshold() == threshold,
    {
        Controller { clients: initial_roster, failed_calls: 0, threshold }
    }

    /// The stored roster, for callers that need to inspect it.
    pub fn current_roster(&self) -> (r: &Vec<ClientRecord>)
        ensures
            roster_view(r@) == self.roster(),
    {
        &self.clients
    }

    /// The count of consecutive failed polls since the last success.
    pub fn failure_count(&self) -> (r: u64)
        ensures
            r == self.failures(),
    {
        self.failed_calls
    }
}

impl ClientController for Controller {
    closed spec fn roster(&self) -> Seq<ClientData> {
        roster_view(self.clients@)
    }

    closed spec fn failures(&self) -> u64 {
        self.failed_calls
    }

    closed spec fn alert_threshold(&self) -> u64 {
        self.threshold
    }

    closed spec fn wf(&self) -> bool {
        unique_identities(roster_view(self.clients@))
    }

    fn update_connected_clients(&mut self, poll: Result<Vec<ClientRecord>, PollError>) -> (events:
        Vec<Event>) {
        match poll {
            Err(_) => {
                if self.failed_calls < u64::MAX {
                    self.failed_calls = self.failed_calls + 1;
                }
                let mut events: Vec<Event> = Vec::new();
                if self.failed_calls == self.threshold {
                    events.push(Event::EscalationAlert);
                    assert(events_view(events@) =~= seq![EventData::EscalationAlert]);
                } else {
                    assert(events_view(events@) =~= Seq::<EventData>::empty());
                }
                events
            },
            Ok(new_clients) => {
                self.failed_calls = 0;
                let (gone, fresh) = diff_rosters(&self.clients, &new_clients);
                let ghost dv = roster_view(gone@);
                let ghost cv = roster_view(fresh@);
                let mut events: Vec<Event> = Vec::new();

                let mut i: usize = 0;
                assert(events_view(events@) =~= dv.take(0).map_values(
                    |c: ClientData| EventData::Disconnected(c),
                ));
                while i < gone.len()
                    invariant
                        0 <= i <= gone.len(),
                        dv == roster_view(gone@),
                        dv.len() == gone@.len(),
                        events_view(events@) == dv.take(i as int).map_values(
                            |c: ClientData| EventData::Disconnected(c),
                        ),
                    decreases gone.len() - i,
                {
                    let ghost prev = events_view(events@);
                    events.push(Event::Disconnected(gone[i].clone()));
                    proof {
                        assert(events_view(events@) =~= prev.push(
                            EventData::Disconnected(dv[i as int]),
                        ));
                        assert(dv.take(i + 1).map_values(
                            |c: ClientData| EventData::Disconnected(c),
                        ) =~= dv.take(i as int).map_values(
                            |c: ClientData| EventData::Disconnected(c),
                        ).push(EventData::Disconnected(dv[i as int])));
                    }
                    i += 1;
                }
                assert(dv.take(gone@.len() as int) =~= dv);

                let ghost dev = dv.map_values(|c: ClientData| EventData::Disconnected(c));
                let mut k: usize = 0;
                assert(events_view(events@) =~= dev + cv.take(0).map_values(
                    |c: ClientData| EventData::Connected(c),
                ));
                while k < fresh.len()
                    invariant
                        0 <= k <= fresh.len(),
                        cv == roster_view(fresh@),
                        cv.len() == fresh@.len(),
                        events_view(events@) == dev + cv.take(k as int).map_values(
                            |c: ClientData| EventData::Connected(c),
                        ),
                    decreases fresh.len() - k,
                {
                    let ghost prev = events_view(events@);
                    events.push(Event::Connected(fresh[k].clone()));
                    proof {
                        assert(events_view(events@) =~= prev.push(
                            EventData::Connected(cv[k as int]),
                        ));
                        assert(dev + cv.take(k + 1).map_values(
                            |c: ClientData| EventData::Connected(c),
                        ) =~= (dev + cv.take(k as int).map_values(
                            |c: ClientData| EventData::Connected(c),
                        )).push(EventData::Connected(cv[k as int])));
                    }
                    k += 1;
                }
                assert(cv.take(fresh@.len() as int) =~= cv);

                self.clients = new_clients;
                events
            },
        }
    }
}

} // verus!
