//! The control plane of a publish session, as a state machine.
//!
//! The session decides; a driver performs. Each call of [`Session::step`]
//! takes the outcome of the action that the driver performed last and returns
//! the action to perform next.

use vstd::prelude::*;
use std::collections::HashSet;

verus! {

broadcast use vstd::std_specs::hash::group_hash_axioms;

/// Request id of the namespace announcement, the first request of a session.
pub const ANNOUNCE_REQUEST_ID: u64 = 0;

/// Expiry sent with every subscribe acknowledgement: the subscription does
/// not expire.
pub const NO_EXPIRY: u64 = 0;

/// Why a session ended in failure.
#[derive(Clone, Copy, Debug, PartialEq, Eq, Structural)]
pub enum SessionError {
    /// The channel to the relay, or its control stream, could not be opened.
    ConnectFailed,
    /// The reply to the client setup was not a server setup.
    UnexpectedMessage,
    /// The server selected a version other than the one advertised.
    VersionMismatch { advertised: u32, selected: u32 },
    /// The namespace announcement could not be sent.
    AnnounceNotSent,
    /// The reply to the announcement was not its acknowledgement.
    AnnounceNotAcknowledged,
    /// The control channel failed before the session was ready.
    ReceiveFailed,
    /// The driver reported an outcome that the state does not expect.
    OutOfTurn,
}

/// Where a session stands.
#[derive(Clone, Copy, Debug, PartialEq, Eq, Structural)]
pub enum SessionState {
    Disconnected,
    Connecting,
    AwaitingServerSetup,
    Announcing,
    Ready,
    /// The control channel closed while the session was ready.
    Closed,
    Failed(SessionError),
}

/// A control message as far as the session reads it.
#[derive(Clone, Copy, Debug, PartialEq, Eq, Structural)]
pub enum Message {
    ServerSetup { selected_version: u32 },
    PublishNamespaceOk,
    Subscribe { request_id: u64 },
    Fetch,
    Other,
}

/// What came of the action that the driver performed last.
#[derive(Clone, Copy, Debug, PartialEq, Eq, Structural)]
pub enum Event {
    /// Nothing was performed yet: the driver asks the session to begin.
    Start,
    Connected,
    ConnectFailed,
    Sent,
    SendFailed,
    Received(Message),
    ReceiveFailed,
    Spawned,
}

/// What the driver is to do next.
#[derive(Clone, Copy, Debug, PartialEq, Eq, Structural)]
pub enum Action {
    /// Open the channel to the relay and one bidirectional control stream.
    Connect,
    /// Send a client setup that advertises this one version.
    SendClientSetup { version: u32 },
    /// Announce the configured namespace prefix.
    SendPublishNamespace { request_id: u64 },
    /// Acknowledge a subscribe request.
    SendSubscribeOk { request_id: u64, track_alias: u64, expires: u64 },
    /// Start a delivery worker for this alias, without waiting for it.
    SpawnWorker { track_alias: u64 },
    /// Wait for the next control message.
    Receive,
    /// The session is over; its state says how it ended.
    Stop,
}

/// A session as contracts see it.
pub struct SessionView {
    pub version: u32,
    pub track_alias: u64,
    pub state: SessionState,
    /// Alias of the subscribe acknowledgement that is being sent.
    pub pending: Option<u64>,
    /// Aliases that have a delivery worker.
    pub live: Set<u64>,
}

impl SessionView {
    /// This session in another state.
    pub open spec fn to(self, state: SessionState) -> SessionView {
        SessionView { state, ..self }
    }

    /// This session, failed.
    pub open spec fn failed(self, error: SessionError) -> (SessionView, Action) {
        (self.to(SessionState::Failed(error)), Action::Stop)
    }

    /// The step from `Ready`.
    pub open spec fn ready_step(self, event: Event) -> (SessionView, Action) {
        match event {
            Event::Received(Message::Subscribe { request_id }) => (
                SessionView { pending: Some(self.track_alias), ..self },
                Action::SendSubscribeOk {
                    request_id,
                    track_alias: self.track_alias,
                    expires: NO_EXPIRY,
                },
            ),
            Event::Received(_) => (self, Action::Receive),
            Event::ReceiveFailed => (self.to(SessionState::Closed), Action::Stop),
            Event::Sent => match self.pending {
                Some(alias) => if self.live.contains(alias) {
                    (SessionView { pending: None, ..self }, Action::Receive)
                } else {
                    (
                        SessionView { pending: None, live: self.live.insert(alias), ..self },
                        Action::SpawnWorker { track_alias: alias },
                    )
                },
                None => (self, Action::Receive),
            },
            Event::SendFailed => (SessionView { pending: None, ..self }, Action::Receive),
            Event::Spawned => (self, Action::Receive),
            _ => self.failed(SessionError::OutOfTurn),
        }
    }

    /// The session after `event`, and the action it asks for.
    pub open spec fn step(self, event: Event) -> (SessionView, Action) {
        match self.state {
            SessionState::Disconnected => match event {
                Event::Start => (self.to(SessionState::Connecting), Action::Connect),
                _ => self.failed(SessionError::OutOfTurn),
            },
            SessionState::Connecting => match event {
                Event::Connected => (
                    self.to(SessionState::AwaitingServerSetup),
                    Action::SendClientSetup { version: self.version },
                ),
                Event::ConnectFailed => self.failed(SessionError::ConnectFailed),
                _ => self.failed(SessionError::OutOfTurn),
            },
            SessionState::AwaitingServerSetup => match event {
                Event::Sent | Event::SendFailed => (self, Action::Receive),
                Event::Received(Message::ServerSetup { selected_version }) => if selected_version
                    == self.version {
                    (
                        self.to(SessionState::Announcing),
                        Action::SendPublishNamespace { request_id: ANNOUNCE_REQUEST_ID },
                    )
                } else {
                    self.failed(
                        SessionError::VersionMismatch {
                            advertised: self.version,
                            selected: selected_version,
                        },
                    )
                },
                Event::Received(_) => self.failed(SessionError::UnexpectedMessage),
                Event::ReceiveFailed => self.failed(SessionError::ReceiveFailed),
                _ => self.failed(SessionError::OutOfTurn),
            },
            SessionState::Announcing => match event {
                Event::Sent => (self, Action::Receive),
                Event::SendFailed => self.failed(SessionError::AnnounceNotSent),
                Event::Received(Message::PublishNamespaceOk) => (
                    self.to(SessionState::Ready),
                    Action::Receive,
                ),
                Event::Received(_) => self.failed(SessionError::AnnounceNotAcknowledged),
                Event::ReceiveFailed => self.failed(SessionError::ReceiveFailed),
                _ => self.failed(SessionError::OutOfTurn),
            },
            SessionState::Ready => self.ready_step(event),
            SessionState::Closed | SessionState::Failed(_) => (self, Action::Stop),
        }
    }

    /// The session after a subscribe request whose acknowledgement was sent
    /// and whose worker, if one was asked for, was started.
    pub open spec fn after_subscribe(self, request_id: u64) -> SessionView {
        let asked = self.step(Event::Received(Message::Subscribe { request_id })).0;
        let sent = asked.step(Event::Sent);
        if sent.1 is SpawnWorker {
            sent.0.step(Event::Spawned).0
        } else {
            sent.0
        }
    }

    /// Whether serving a subscribe request in this state starts a worker.
    pub open spec fn subscribe_spawns(self, request_id: u64) -> bool {
        self.step(Event::Received(Message::Subscribe { request_id })).0.step(Event::Sent).1
            is SpawnWorker
    }
}

/// A publish session: its configuration, its state and the aliases it serves.
pub struct Session {
    version: u32,
    track_alias: u64,
    state: SessionState,
    pending: Option<u64>,
    live: HashSet<u64>,
}

impl View for Session {
    type V = SessionView;

    closed spec fn view(&self) -> SessionView {
        SessionView {
            version: self.version,
            track_alias: self.track_alias,
            state: self.state,
            pending: self.pending,
            live: self.live@,
        }
    }
}

impl Session {
    /// A disconnected session that will advertise `version` and publish under
    /// `track_alias`.
    pub fn new(version: u32, track_alias: u64) -> (s: Session)
        ensures
            s@ == (SessionView {
                version,
                track_alias,
                state: SessionState::Disconnected,
                pending: None,
                live: Set::empty(),
            }),
    {
        Session {
            version,
            track_alias,
            state: SessionState::Disconnected,
            pending: None,
            live: HashSet::new(),
        }
    }

    /// The state of the session.
    pub fn state(&self) -> (r: SessionState)
        ensures
            r == self@.state,
    {
        self.state
    }

    /// Whether a delivery worker was started for `track_alias`.
    pub fn is_live(&self, track_alias: u64) -> (r: bool)
        ensures
            r == self@.live.contains(track_alias),
    {
        self.live.contains(&track_alias)
    }

    /// How the session ended: `None` while it runs, `Some(Ok(()))` once the
    /// control channel closed on a ready session, `Some(Err(e))` once it
    /// failed.
    pub fn outcome(&self) -> (r: Option<Result<(), SessionError>>)
        ensures
            r == match self@.state {
                SessionState::Closed => Some(Ok::<(), SessionError>(())),
                SessionState::Failed(e) => Some(Err::<(), SessionError>(e)),
                _ => None::<Result<(), SessionError>>,
            },
    {
        match self.state {
            SessionState::Closed => Some(Ok(())),
            SessionState::Failed(e) => Some(Err(e)),
            _ => None,
        }
    }

    fn fail(&mut self, error: SessionError) -> (r: Action)
        ensures
            (final(self)@, r) == old(self)@.failed(error),
    {
        self.state = SessionState::Failed(error);
        Action::Stop
    }

    fn ready_step(&mut self, event: Event) -> (r: Action)
        ensures
            (final(self)@, r) == old(self)@.ready_step(event),
    {
        match event {
            Event::Received(Message::Subscribe { request_id }) => {
                self.pending = Some(self.track_alias);
                Action::SendSubscribeOk {
                    request_id,
                    track_alias: self.track_alias,
                    expires: NO_EXPIRY,
                }
            },
            Event::Received(_) => Action::Receive,
            Event::ReceiveFailed => {
                self.state = SessionState::Closed;
                Action::Stop
            },
            Event::Sent => match self.pending {
                Some(alias) => {
                    self.pending = None;
                    if self.live.contains(&alias) {
                        Action::Receive
                    } else {
                        self.live.insert(alias);
                        Action::SpawnWorker { track_alias: alias }
                    }
                },
                None => Action::Receive,
            },
            Event::SendFailed => {
                self.pending = None;
                Action::Receive
            },
            Event::Spawned => Action::Receive,
            _ => self.fail(SessionError::OutOfTurn),
        }
    }

    /// Takes the outcome of the last action and returns the next one.
    ///
    /// A worker is asked for only for an alias that had none, and that alias
    /// has one from then on.
    pub fn step(&mut self, event: Event) -> (r: Action)
        ensures
            (final(self)@, r) == old(self)@.step(event),
            r matches Action::SpawnWorker { track_alias } ==> !old(self)@.live.contains(
                track_alias,
            ) && final(self)@.live.contains(track_alias),
            old(self)@.live.subset_of(final(self)@.live),
    {
        match self.state {
            SessionState::Disconnected => match event {
                Event::Start => {
                    self.state = SessionState::Connecting;
                    Action::Connect
                },
                _ => self.fail(SessionError::OutOfTurn),
            },
            SessionState::Connecting => match event {
                Event::Connected => {
                    self.state = SessionState::AwaitingServerSetup;
                    Action::SendClientSetup { version: self.version }
                },
                Event::ConnectFailed => self.fail(SessionError::ConnectFailed),
                _ => self.fail(SessionError::OutOfTurn),
            },
            SessionState::AwaitingServerSetup => match event {
                Event::Sent | Event::SendFailed => Action::Receive,
                Event::Received(Message::ServerSetup { selected_version }) => {
                    if selected_version == self.version {
                        self.state = SessionState::Announcing;
                        Action::SendPublishNamespace { request_id: ANNOUNCE_REQUEST_ID }
                    } else {
                        let advertised: u32 = self.version;
                        self.fail(
                            SessionError::VersionMismatch { advertised, selected: selected_version },
                        )
                    }
                },
                Event::Received(_) => self.fail(SessionError::UnexpectedMessage),
                Event::ReceiveFailed => self.fail(SessionError::ReceiveFailed),
                _ => self.fail(SessionError::OutOfTurn),
            },
            SessionState::Announcing => match event {
                Event::Sent => Action::Receive,
                Event::SendFailed => self.fail(SessionError::AnnounceNotSent),
                Event::Received(Message::PublishNamespaceOk) => {
                    self.state = SessionState::Ready;
                    Action::Receive
                },
                Event::Received(_) => self.fail(SessionError::AnnounceNotAcknowledged),
                Event::ReceiveFailed => self.fail(SessionError::ReceiveFailed),
                _ => self.fail(SessionError::OutOfTurn),
            },
            SessionState::Ready => self.ready_step(event),
            SessionState::Closed | SessionState::Failed(_) => Action::Stop,
        }
    }
}

/// Serving a second subscribe request for an alias that is served already
/// starts no second worker: after one request has been served, no later one
/// asks for a worker.
pub proof fn lemma_resubscribe_spawns_nothing(s: SessionView, first: u64, second: u64)
    requires
        s.state == SessionState::Ready,
    ensures
        s.after_subscribe(first).state == SessionState::Ready,
        s.after_subscribe(first).live.contains(s.track_alias),
        !s.after_subscribe(first).subscribe_spawns(second),
        s.after_subscribe(first).after_subscribe(second).live == s.after_subscribe(first).live,
{
    let served = s.after_subscribe(first);
    assert(served.after_subscribe(second).live =~= served.live);
}

/// A session that is over stays as it is and asks for nothing more.
pub proof fn lemma_terminal_states_are_final(s: SessionView, event: Event)
    requires
        s.state is Closed || s.state is Failed,
    ensures
        s.step(event) == (s, Action::Stop),
{
}

} // verus!
