//! The per-connection protocol state machine, liveness checks included.
//!
//! The transport layer waits on the connection's inbound frames and on its
//! liveness timer, hands each event to [`ConnState::step`], and performs the
//! action that comes back.
use vstd::prelude::*;

use crate::registry::listed;

verus! {

/// The text frame sent in answer to a `ping` signal.
pub const PONG_MSG: &'static str = "{\"type\":\"pong\"}";

/// A protocol message, as read from a text frame.
pub enum Signal {
    /// Relay the whole frame to the subscribers of `topic`.
    Publish { topic: String },
    /// Join each of `topics`.
    Subscribe { topics: Vec<String> },
    /// Leave each of `topics`.
    Unsubscribe { topics: Vec<String> },
    /// Application-level liveness request: answered with [`PONG_MSG`].
    Ping,
    /// Application-level liveness answer.
    Pong,
}

/// What happened on a connection.
pub enum Event {
    /// The liveness timer fired.
    Tick,
    /// A text frame came in; `signal` is what it reads as, `None` where it is
    /// no valid signal.
    Text { frame: String, signal: Option<Signal> },
    /// A binary frame came in.
    Binary,
    /// A transport-level ping came in (the transport answers it itself).
    TransportPing,
    /// A transport-level pong came in: the answer to a liveness probe.
    TransportPong,
    /// The peer sent a close frame.
    TransportClose,
    /// The inbound stream ended.
    StreamEnd,
    /// Reading from the connection failed.
    ReadError,
}

/// What the transport layer is to do in answer to an event.
pub enum Action {
    /// Close the connection's write path and end the session.
    Close,
    /// Send a transport-level ping as a liveness probe.
    Probe,
    /// Send `text` to this connection.
    Reply { text: String },
    /// Subscribe this connection to each of `topics`.
    Join { topics: Vec<String> },
    /// Unsubscribe this connection from each of `topics`.
    Leave { topics: Vec<String> },
    /// Deliver `frame` unchanged to the other subscribers of `topic`.
    Broadcast { topic: String, frame: String },
    /// Nothing to do.
    Ignore,
}

/// The event answers a liveness probe.
pub open spec fn answers_probe(ev: Event) -> bool {
    match ev {
        Event::TransportPong => true,
        Event::Text { signal: Some(Signal::Pong), .. } => true,
        _ => false,
    }
}

/// Whether a probe counts as answered after `ev`, given whether it did before:
/// each tick sends a new probe, so it starts out unanswered.
pub open spec fn answered_after(answered: bool, ev: Event) -> bool {
    match ev {
        Event::Tick => false,
        _ => answers_probe(ev) || answered,
    }
}

/// Whether a probe counts as answered after each of `evs` in turn.
pub open spec fn answered_after_all(answered: bool, evs: Seq<Event>) -> bool
    decreases evs.len(),
{
    if evs.len() == 0 {
        answered
    } else {
        answered_after(answered_after_all(answered, evs.drop_last()), evs.last())
    }
}

/// `r` is the action owed to `ev` on an open connection whose last probe was
/// answered or not, as `answered` says.
pub open spec fn reaction(answered: bool, ev: Event, r: Action) -> bool {
    match ev {
        Event::Tick => if answered {
            r is Probe
        } else {
            r is Close
        },
        Event::StreamEnd => r is Close,
        Event::ReadError => r is Close,
        Event::Text { frame, signal } => match signal {
            None => r is Close,
            Some(Signal::Subscribe { topics }) => r == (Action::Join { topics }),
            Some(Signal::Unsubscribe { topics }) => r == (Action::Leave { topics }),
            Some(Signal::Publish { topic }) => r == (Action::Broadcast { topic, frame }),
            Some(Signal::Ping) => r matches Action::Reply { text } && text@ == PONG_MSG@,
            Some(Signal::Pong) => r is Ignore,
        },
        _ => r is Ignore,
    }
}

/// The topics that `ev` asks to join, if any.
pub open spec fn joined_by(ev: Event) -> Seq<String> {
    match ev {
        Event::Text { signal: Some(Signal::Subscribe { topics }), .. } => topics@,
        _ => Seq::empty(),
    }
}

/// No two entries of `names` read the same.
pub open spec fn names_distinct(names: Seq<String>) -> bool {
    forall|p: int, q: int| 0 <= p < q < names.len() ==> #[trigger] names[p]@ != #[trigger] names[q]@
}

/// The state of one connection's session.
pub struct ConnState {
    /// The last liveness probe was answered (true before the first one).
    pub probe_answered: bool,
    /// The session has ended.
    pub closed: bool,
    /// The topics that this connection has asked to join, each once.
    pub joined: Vec<String>,
}

impl ConnState {
    /// The state of a freshly accepted connection.
    pub fn new() -> (r: Self)
        ensures
            r.probe_answered,
            !r.closed,
            r.joined@.len() == 0,
            names_distinct(r.joined@),
    {
        ConnState { probe_answered: true, closed: false, joined: Vec::new() }
    }

    fn record_joined(&mut self, topics: &Vec<String>)
        ensures
            final(self).probe_answered == old(self).probe_answered,
            final(self).closed == old(self).closed,
            names_distinct(old(self).joined@) ==> names_distinct(final(self).joined@),
            forall|k: Seq<char>| #[trigger] listed(final(self).joined@, k) == (listed(old(self).joined@, k)
                || listed(topics@, k)),
    {
        let mut i: usize = 0;
        while i < topics.len()
            invariant
                0 <= i <= topics@.len(),
                self.probe_answered == old(self).probe_answered,
                self.closed == old(self).closed,
                names_distinct(old(self).joined@) ==> names_distinct(self.joined@),
                forall|k: Seq<char>| #[trigger] listed(self.joined@, k) == (listed(old(self).joined@, k)
                    || listed(topics@.take(i as int), k)),
            decreases topics@.len() - i,
        {
            let ghost prev = self.joined@;
            let ghost before = topics@.take(i as int);
            let ghost after = topics@.take(i + 1);
            assert forall|k: Seq<char>| listed(after, k) == (listed(before, k) || k == topics@[i as int]@) by {
                if listed(after, k) {
                    let p = choose|p: int| 0 <= p < after.len() && #[trigger] after[p]@ == k;
                    if p < i {
                        assert(before[p] == after[p]);
                    }
                }
                if listed(before, k) {
                    let p = choose|p: int| 0 <= p < before.len() && #[trigger] before[p]@ == k;
                    assert(before[p] == after[p]);
                }
                assert(after[i as int] == topics@[i as int]);
            }
            if !self.has_joined(&topics[i]) {
                self.joined.push(topics[i].clone());
                assert(self.joined@[prev.len() as int] == topics@[i as int]);
                assert forall|k: Seq<char>| #[trigger] listed(self.joined@, k) == (listed(prev, k)
                    || k == topics@[i as int]@) by {
                    if listed(self.joined@, k) {
                        let p = choose|p: int| 0 <= p < self.joined@.len() && #[trigger] self.joined@[p]@ == k;
                        if p < prev.len() {
                            assert(prev[p] == self.joined@[p]);
                        }
                    }
                    if listed(prev, k) {
                        let p = choose|p: int| 0 <= p < prev.len() && #[trigger] prev[p]@ == k;
                        assert(prev[p] == self.joined@[p]);
                    }
                }
                proof {
                    if names_distinct(prev) {
                        assert forall|p: int, q: int| 0 <= p < q < self.joined@.len() implies
                            #[trigger] self.joined@[p]@ != #[trigger] self.joined@[q]@ by {
                            assert(self.joined@[p] == prev[p]);
                            if q < prev.len() {
                                assert(self.joined@[q] == prev[q]);
                            } else {
                                assert(listed(prev, prev[p]@));
                            }
                        }
                    }
                }
            }
            assert forall|k: Seq<char>| #[trigger] listed(self.joined@, k) == (listed(old(self).joined@, k)
                || listed(after, k)) by {
                assert(listed(prev, k) == (listed(old(self).joined@, k) || listed(before, k)));
            }
            i = i + 1;
        }
        assert(topics@.take(topics@.len() as int) == topics@);
    }

    fn has_joined(&self, name: &String) -> (r: bool)
        ensures
            r == listed(self.joined@, name@),
    {
        let mut i: usize = 0;
        while i < self.joined.len()
            invariant
                0 <= i <= self.joined@.len(),
                forall|p: int| 0 <= p < i ==> self.joined@[p]@ != name@,
            decreases self.joined@.len() - i,
        {
            if self.joined[i] == *name {
                return true;
            }
            i = i + 1;
        }
        false
    }

    /// Takes one event and returns what to do about it. A closed session
    /// stays closed and answers every event with `Close`.
    pub fn step(&mut self, ev: Event) -> (r: Action)
        ensures
            names_distinct(old(self).joined@) ==> names_distinct(final(self).joined@),
            old(self).closed ==> (r is Close && final(self).closed),
            !old(self).closed ==> reaction(old(self).probe_answered, ev, r),
            final(self).closed == (old(self).closed || r is Close),
            !old(self).closed ==> final(self).probe_answered == answered_after(old(self).probe_answered, ev),
            forall|k: Seq<char>| #[trigger] listed(final(self).joined@, k) == (listed(old(self).joined@, k)
                || (!old(self).closed && listed(joined_by(ev), k))),
            old(self).closed ==> final(self).joined@ == old(self).joined@,
    {
        if self.closed {
            return Action::Close;
        }
        match ev {
            Event::Tick => {
                if self.probe_answered {
                    self.probe_answered = false;
                    Action::Probe
                } else {
                    self.probe_answered = false;
                    self.closed = true;
                    Action::Close
                }
            },
            Event::StreamEnd | Event::ReadError => {
                self.closed = true;
                Action::Close
            },
            Event::TransportPong => {
                self.probe_answered = true;
                Action::Ignore
            },
            Event::Binary | Event::TransportPing | Event::TransportClose => Action::Ignore,
            Event::Text { frame, signal } => match signal {
                None => {
                    self.closed = true;
                    Action::Close
                },
                Some(Signal::Subscribe { topics }) => {
                    self.record_joined(&topics);
                    Action::Join { topics }
                },
                Some(Signal::Unsubscribe { topics }) => Action::Leave { topics },
                Some(Signal::Publish { topic }) => Action::Broadcast { topic, frame },
                Some(Signal::Ping) => Action::Reply { text: String::from_str(PONG_MSG) },
                Some(Signal::Pong) => {
                    self.probe_answered = true;
                    Action::Ignore
                },
            },
        }
    }
}

impl Default for ConnState {
    fn default() -> (r: Self)
        ensures
            r.probe_answered,
            !r.closed,
            r.joined@.len() == 0,
    {
        ConnState::new()
    }
}

proof fn lemma_silence_keeps_unanswered(evs: Seq<Event>)
    requires
        forall|i: int| 0 <= i < evs.len() ==> !answers_probe(#[trigger] evs[i]),
    ensures
        !answered_after_all(false, evs),
    decreases evs.len(),
{
    if evs.len() > 0 {
        let init = evs.drop_last();
        assert forall|i: int| 0 <= i < init.len() implies !answers_probe(#[trigger] init[i]) by {
            assert(init[i] == evs[i]);
        }
        lemma_silence_keeps_unanswered(init);
    }
}

/// A connection that answers no liveness probe is closed by the second tick
/// of the liveness timer at the latest: whatever state it is in when an
/// interval starts (`answered`), and whatever else comes in during that
/// interval (`first`) and the next (`second`), either the tick that ends
/// the first interval closes it, or the tick that ends the second does.
pub proof fn lemma_silent_connection_closed(answered: bool, first: Seq<Event>, second: Seq<Event>)
    requires
        forall|i: int| 0 <= i < first.len() ==> !answers_probe(#[trigger] first[i]),
        forall|i: int| 0 <= i < second.len() ==> !answers_probe(#[trigger] second[i]),
    ensures
        reaction(answered_after_all(answered, first), Event::Tick, Action::Close) || reaction(
            answered_after_all(answered_after(answered_after_all(answered, first), Event::Tick), second),
            Event::Tick,
            Action::Close,
        ),
{
    lemma_silence_keeps_unanswered(second);
}

} // verus!
