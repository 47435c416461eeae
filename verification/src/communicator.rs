//! The decisions of the wire layer: what kind of message a connection
//! carried, which queue it goes to, when the committee is complete, and what
//! the accept loop does next. The sockets themselves are the caller's.

use vstd::prelude::*;

verus! {

/// The time that the accept loop sleeps when no connection waits, in
/// milliseconds.
pub const POLL_INTERVAL_MS: u64 = 50;

/// The kinds of message that a connection can carry.
#[derive(Clone, Copy, Debug, PartialEq, Eq, Structural)]
pub enum MessageKind {
    /// A committee member asks for its shares.
    Signal,
    /// A committee member hands in its share of the sum.
    Committee,
    /// A client hands in its masked input.
    Client,
}

/// The word `signal`.
pub open spec fn signal_word() -> Seq<u8> {
    seq![0x73u8, 0x69, 0x67, 0x6e, 0x61, 0x6c]
}

/// The word `committee`.
pub open spec fn committee_word() -> Seq<u8> {
    seq![0x63u8, 0x6f, 0x6d, 0x6d, 0x69, 0x74, 0x74, 0x65, 0x65]
}

/// Whether the bytes begin with the prefix.
pub open spec fn begins_with(bytes: Seq<u8>, prefix: Seq<u8>) -> bool {
    bytes.len() >= prefix.len() && bytes.subrange(0, prefix.len() as int) == prefix
}

/// The kind of a message: a signal where its first six bytes are the word
/// `signal`, a committee member's where it begins with the word
/// `committee`, and a client's otherwise.
pub open spec fn kind_of(bytes: Seq<u8>) -> MessageKind {
    if begins_with(bytes, signal_word()) {
        MessageKind::Signal
    } else if begins_with(bytes, committee_word()) {
        MessageKind::Committee
    } else {
        MessageKind::Client
    }
}

/// Whether the bytes begin with the given word.
fn has_prefix(bytes: &[u8], word: &[u8]) -> (b: bool)
    ensures
        b == begins_with(bytes@, word@),
{
    if bytes.len() < word.len() {
        return false;
    }
    let mut k: usize = 0;
    while k < word.len()
        invariant
            k <= word@.len(),
            word@.len() <= bytes@.len(),
            forall|i: int| 0 <= i < k ==> bytes@[i] == word@[i],
        decreases word@.len() - k,
    {
        if bytes[k] != word[k] {
            assert(bytes@.subrange(0, word@.len() as int)[k as int] != word@[k as int]);
            return false;
        }
        k = k + 1;
    }
    assert(bytes@.subrange(0, word@.len() as int) =~= word@);
    true
}

/// Whether the first bytes of a connection are a signal: then the
/// connection is answered, and nothing more is read from it.
pub fn is_signal(head: &[u8]) -> (b: bool)
    ensures
        b == (kind_of(head@) == MessageKind::Signal),
{
    let word: [u8; 6] = [0x73, 0x69, 0x67, 0x6e, 0x61, 0x6c];
    assert(word@ =~= signal_word());
    has_prefix(head, word.as_slice())
}

/// The kind of a message.
pub fn classify(payload: &[u8]) -> (kind: MessageKind)
    ensures
        kind == kind_of(payload@),
{
    let signal: [u8; 6] = [0x73, 0x69, 0x67, 0x6e, 0x61, 0x6c];
    let committee: [u8; 9] = [0x63, 0x6f, 0x6d, 0x6d, 0x69, 0x74, 0x74, 0x65, 0x65];
    assert(signal@ =~= signal_word());
    assert(committee@ =~= committee_word());
    if has_prefix(payload, signal.as_slice()) {
        MessageKind::Signal
    } else if has_prefix(payload, committee.as_slice()) {
        MessageKind::Committee
    } else {
        MessageKind::Client
    }
}

/// The queues of a party as plain values.
pub struct InboxView {
    /// The clients' messages, in the order in which they were queued.
    pub client_messages: Seq<Seq<u8>>,
    /// The committee's messages, in the order in which they were queued.
    pub committee_messages: Seq<Seq<u8>>,
    /// The number of committee messages that complete the committee, while
    /// the inbox waits for them.
    pub expected_committee_size: Option<nat>,
}

/// The inbox after a message was delivered, with the committee's messages
/// where this one completed the committee. A signal changes nothing. A
/// client's message is queued. A committee member's message is queued, and
/// where the queue then has the expected length, the queue is handed out and
/// emptied, and the inbox waits for no more.
pub open spec fn delivered(inbox: InboxView, payload: Seq<u8>) -> (InboxView, Option<Seq<Seq<u8>>>) {
    match kind_of(payload) {
        MessageKind::Signal => (inbox, None),
        MessageKind::Client => (
            InboxView { client_messages: inbox.client_messages.push(payload), ..inbox },
            None,
        ),
        MessageKind::Committee => {
            let queue = inbox.committee_messages.push(payload);
            if inbox.expected_committee_size == Some(queue.len()) {
                (
                    InboxView {
                        committee_messages: Seq::empty(),
                        expected_committee_size: None,
                        ..inbox
                    },
                    Some(queue),
                )
            } else {
                (InboxView { committee_messages: queue, ..inbox }, None)
            }
        },
    }
}

/// The inbox after the messages were delivered in order.
pub open spec fn delivered_all(inbox: InboxView, payloads: Seq<Seq<u8>>) -> InboxView
    decreases payloads.len(),
{
    if payloads.len() == 0 {
        inbox
    } else {
        delivered(delivered_all(inbox, payloads.drop_last()), payloads.last()).0
    }
}

/// The number of times that the committee was completed while the messages
/// were delivered in order.
pub open spec fn completions(inbox: InboxView, payloads: Seq<Seq<u8>>) -> nat
    decreases payloads.len(),
{
    if payloads.len() == 0 {
        0
    } else {
        let before = completions(inbox, payloads.drop_last());
        if delivered(delivered_all(inbox, payloads.drop_last()), payloads.last()).1 is Some {
            before + 1
        } else {
            before
        }
    }
}

/// The number of committee members' messages among the messages.
pub open spec fn committee_count(payloads: Seq<Seq<u8>>) -> nat
    decreases payloads.len(),
{
    if payloads.len() == 0 {
        0
    } else if kind_of(payloads.last()) == MessageKind::Committee {
        committee_count(payloads.drop_last()) + 1
    } else {
        committee_count(payloads.drop_last())
    }
}

/// The queues of a party: what clients sent, what the committee sent, and
/// how many committee messages are waited for.
pub struct Inbox {
    client_messages: Vec<Vec<u8>>,
    committee_messages: Vec<Vec<u8>>,
    expected_committee_size: Option<usize>,
}

impl View for Inbox {
    type V = InboxView;

    closed spec fn view(&self) -> InboxView {
        InboxView {
            client_messages: self.client_messages@.map_values(|m: Vec<u8>| m@),
            committee_messages: self.committee_messages@.map_values(|m: Vec<u8>| m@),
            expected_committee_size: match self.expected_committee_size {
                Some(n) => Some(n as nat),
                None => None,
            },
        }
    }
}

impl Inbox {
    /// An inbox with empty queues that waits for nothing.
    pub fn new() -> (inbox: Self)
        ensures
            inbox@.client_messages.len() == 0,
            inbox@.committee_messages.len() == 0,
            inbox@.expected_committee_size is None,
    {
        Self {
            client_messages: Vec::new(),
            committee_messages: Vec::new(),
            expected_committee_size: None,
        }
    }

    /// Makes the inbox wait for `size` committee messages.
    pub fn set_expected_committee_size(&mut self, size: usize)
        ensures
            final(self)@ == (InboxView { expected_committee_size: Some(size as nat), ..old(self)@ }),
    {
        self.expected_committee_size = Some(size);
    }

    /// Delivers a message: a client's or a committee member's message is
    /// queued; a signal is not. The committee's messages are handed out with
    /// the message that completes the committee.
    pub fn receive(&mut self, payload: Vec<u8>) -> (batch: Option<Vec<Vec<u8>>>)
        ensures
            final(self)@ == delivered(old(self)@, payload@).0,
            match batch {
                Some(messages) => delivered(old(self)@, payload@).1 == Some(
                    messages@.map_values(|m: Vec<u8>| m@),
                ),
                None => delivered(old(self)@, payload@).1 is None,
            },
    {
        match classify(payload.as_slice()) {
            MessageKind::Signal => None,
            MessageKind::Client => {
                let ghost before = self.client_messages@.map_values(|m: Vec<u8>| m@);
                self.client_messages.push(payload);
                assert(self.client_messages@.map_values(|m: Vec<u8>| m@) =~= before.push(
                    payload@,
                ));
                None
            },
            MessageKind::Committee => {
                let ghost before = self.committee_messages@.map_values(|m: Vec<u8>| m@);
                self.committee_messages.push(payload);
                assert(self.committee_messages@.map_values(|m: Vec<u8>| m@) =~= before.push(
                    payload@,
                ));
                let complete: bool = match self.expected_committee_size {
                    Some(expected) => self.committee_messages.len() == expected,
                    None => false,
                };
                if complete {
                    let mut batch: Vec<Vec<u8>> = Vec::new();
                    batch.append(&mut self.committee_messages);
                    self.expected_committee_size = None;
                    assert(batch@.map_values(|m: Vec<u8>| m@) =~= before.push(payload@));
                    assert(self.committee_messages@.map_values(|m: Vec<u8>| m@) =~= Seq::<
                        Seq<u8>,
                    >::empty());
                    Some(batch)
                } else {
                    None
                }
            },
        }
    }

    /// The clients' messages so far.
    pub fn client_messages(&self) -> (messages: &Vec<Vec<u8>>)
        ensures
            messages@.map_values(|m: Vec<u8>| m@) == self@.client_messages,
    {
        &self.client_messages
    }

    /// The committee's messages so far.
    pub fn committee_messages(&self) -> (messages: &Vec<Vec<u8>>)
        ensures
            messages@.map_values(|m: Vec<u8>| m@) == self@.committee_messages,
    {
        &self.committee_messages
    }
}

/// While the messages are delivered to an inbox, it waits for the committee
/// until enough committee messages have come, and no longer; while it waits,
/// its queue holds those that came so far.
proof fn lemma_delivery(inbox: InboxView, m: nat, payloads: Seq<Seq<u8>>)
    requires
        inbox.committee_messages.len() == 0,
        inbox.expected_committee_size == Some(m),
        m > 0,
    ensures
        committee_count(payloads) < m ==> {
            &&& completions(inbox, payloads) == 0
            &&& delivered_all(inbox, payloads).expected_committee_size == Some(m)
            &&& delivered_all(inbox, payloads).committee_messages.len() == committee_count(
                payloads,
            )
        },
        committee_count(payloads) >= m ==> {
            &&& completions(inbox, payloads) == 1
            &&& delivered_all(inbox, payloads).expected_committee_size is None
        },
    decreases payloads.len(),
{
    if payloads.len() > 0 {
        lemma_delivery(inbox, m, payloads.drop_last());
    }
}

/// The committee is completed exactly once: whatever messages are delivered
/// in whatever order to an inbox that waits for `m` committee messages with
/// an empty queue, the committee's messages are handed out once where `m` or
/// more of the messages are committee messages, and never where fewer are.
pub proof fn lemma_quorum_fires_once(inbox: InboxView, m: nat, payloads: Seq<Seq<u8>>)
    requires
        inbox.committee_messages.len() == 0,
        inbox.expected_committee_size == Some(m),
        m > 0,
    ensures
        completions(inbox, payloads) == (if committee_count(payloads) >= m {
            1nat
        } else {
            0nat
        }),
{
    lemma_delivery(inbox, m, payloads);
}

/// What happened when the accept loop asked for a connection.
#[derive(Clone, Copy, Debug, PartialEq, Eq, Structural)]
pub enum AcceptOutcome {
    /// A connection was accepted.
    Connected,
    /// No connection waits.
    WouldBlock,
    /// The listener failed otherwise.
    Failed,
}

/// What the accept loop does next.
#[derive(Clone, Copy, Debug, PartialEq, Eq, Structural)]
pub enum AcceptAction {
    /// Leave the loop.
    Stop,
    /// Hand the connection to a worker of its own.
    Spawn,
    /// Sleep for the given number of milliseconds.
    Sleep(u64),
    /// Report the failure and go on.
    Report,
}

/// What the accept loop does before it asks for a connection: it stops
/// where the shutdown flag is set.
pub fn before_accept(shutdown: bool) -> (action: Option<AcceptAction>)
    ensures
        action == (if shutdown {
            Some(AcceptAction::Stop)
        } else {
            None::<AcceptAction>
        }),
{
    if shutdown {
        Some(AcceptAction::Stop)
    } else {
        None
    }
}

/// What the accept loop does with the outcome of asking for a connection: a
/// connection gets a worker, no connection a sleep of the poll interval, and
/// a failure is reported; the loop goes on in each case.
pub fn after_accept(outcome: AcceptOutcome) -> (action: AcceptAction)
    ensures
        action == (match outcome {
            AcceptOutcome::Connected => AcceptAction::Spawn,
            AcceptOutcome::WouldBlock => AcceptAction::Sleep(POLL_INTERVAL_MS),
            AcceptOutcome::Failed => AcceptAction::Report,
        }),
{
    match outcome {
        AcceptOutcome::Connected => AcceptAction::Spawn,
        AcceptOutcome::WouldBlock => AcceptAction::Sleep(POLL_INTERVAL_MS),
        AcceptOutcome::Failed => AcceptAction::Report,
    }
}

/// The phases of a server's run.
#[derive(Clone, Copy, Debug, PartialEq, Eq, Structural)]
pub enum ServerPhase {
    /// Nothing is set up.
    Init,
    /// The server is set up and listens.
    Ready,
    /// Clients' messages come in.
    Collecting,
    /// A committee member has asked for its shares.
    Distributing,
    /// The committee is complete.
    Aggregating,
    /// The run is over.
    Terminal,
}

/// What moves a server from one phase to the next.
#[derive(Clone, Copy, Debug, PartialEq, Eq, Structural)]
pub enum ServerEvent {
    /// The server was set up and bound to its port.
    Listening,
    /// A message of the given kind came in.
    Message(MessageKind),
    /// The committee was completed.
    Quorum,
    /// The sum was computed, or could not be.
    Aggregated,
    /// The run was shut down.
    Shutdown,
}

/// The phase after an event. A shutdown ends the run from any phase;
/// an event that the phase does not wait for changes nothing.
pub open spec fn phase_after(phase: ServerPhase, event: ServerEvent) -> ServerPhase {
    match (phase, event) {
        (_, ServerEvent::Shutdown) => ServerPhase::Terminal,
        (ServerPhase::Init, ServerEvent::Listening) => ServerPhase::Ready,
        (ServerPhase::Ready, ServerEvent::Message(MessageKind::Client)) => ServerPhase::Collecting,
        (ServerPhase::Ready, ServerEvent::Message(MessageKind::Signal)) => ServerPhase::Distributing,
        (ServerPhase::Collecting, ServerEvent::Message(MessageKind::Signal)) => {
            ServerPhase::Distributing
        },
        (ServerPhase::Ready, ServerEvent::Quorum) => ServerPhase::Aggregating,
        (ServerPhase::Collecting, ServerEvent::Quorum) => ServerPhase::Aggregating,
        (ServerPhase::Distributing, ServerEvent::Quorum) => ServerPhase::Aggregating,
        (ServerPhase::Aggregating, ServerEvent::Aggregated) => ServerPhase::Terminal,
        (phase, _) => phase,
    }
}

/// The phase after an event.
pub fn advance(phase: ServerPhase, event: ServerEvent) -> (next: ServerPhase)
    ensures
        next == phase_after(phase, event),
{
    match (phase, event) {
        (_, ServerEvent::Shutdown) => ServerPhase::Terminal,
        (ServerPhase::Init, ServerEvent::Listening) => ServerPhase::Ready,
        (ServerPhase::Ready, ServerEvent::Message(MessageKind::Client)) => ServerPhase::Collecting,
        (ServerPhase::Ready, ServerEvent::Message(MessageKind::Signal)) => ServerPhase::Distributing,
        (ServerPhase::Collecting, ServerEvent::Message(MessageKind::Signal)) => {
            ServerPhase::Distributing
        },
        (ServerPhase::Ready, ServerEvent::Quorum) => ServerPhase::Aggregating,
        (ServerPhase::Collecting, ServerEvent::Quorum) => ServerPhase::Aggregating,
        (ServerPhase::Distributing, ServerEvent::Quorum) => ServerPhase::Aggregating,
        (ServerPhase::Aggregating, ServerEvent::Aggregated) => ServerPhase::Terminal,
        (phase, _) => phase,
    }
}

/// A shutdown ends the run from any phase, and a run that is over stays so
/// whatever comes.
pub proof fn lemma_shutdown_is_final(phase: ServerPhase, event: ServerEvent)
    ensures
        phase_after(phase, ServerEvent::Shutdown) == ServerPhase::Terminal,
        phase_after(ServerPhase::Terminal, event) == ServerPhase::Terminal,
{
}

} // verus!
