//! The state machine of a connection: one state for each side, the events that move them, and
//! the moves that follow from the two states together.
use vstd::prelude::*;
use vstd::string::*;

use crate::events::{Event, EventView};
use crate::util;
use crate::util::{local_error_of, ErrorView, ProtocolError};

verus! {

/// The two sides of a connection.
#[derive(Debug, Eq, PartialEq, Copy, Clone, Hash, Structural)]
pub enum Role {
    Client,
    Server,
}

/// What a side does next.
#[derive(Debug, Eq, PartialEq, Copy, Clone, Hash, Structural)]
pub enum State {
    Idle,
    SendResponse,
    SendBody,
    Done,
    MustClose,
    Closed,
    Error,
    MightSwitchProtocol,
    SwitchedProtocol,
}

/// The ways in which a connection can change to another protocol.
#[derive(Debug, Eq, PartialEq, Copy, Clone, Hash, Structural)]
pub enum Switch {
    SwitchUpgrade,
    SwitchConnect,
    Client,
}

/// The sorts of events that move the states.
#[derive(Debug, Eq, PartialEq, Copy, Clone, Hash, Structural)]
pub enum EventType {
    Request,
    InformationalResponse,
    NormalResponse,
    Data,
    EndOfMessage,
    ConnectionClosed,
    NeedData,
    Paused,
    /// A request of the client, as the server side sees it.
    RequestClient,
    /// An interim response that accepts an upgrade.
    InformationalResponseSwitchUpgrade,
    /// A response that accepts a tunnel.
    NormalResponseSwitchConnect,
}

/// The type of an event.
pub open spec fn type_of(event: EventView) -> EventType {
    match event {
        EventView::Request(_) => EventType::Request,
        EventView::NormalResponse(_) => EventType::NormalResponse,
        EventView::InformationalResponse(_) => EventType::InformationalResponse,
        EventView::Data(_) => EventType::Data,
        EventView::EndOfMessage(_) => EventType::EndOfMessage,
        EventView::ConnectionClosed => EventType::ConnectionClosed,
        EventView::NeedData => EventType::NeedData,
        EventView::Paused => EventType::Paused,
    }
}

impl From<&Event> for EventType {
    fn from(value: &Event) -> (r: Self) {
        match value {
            Event::Request(_) => EventType::Request,
            Event::NormalResponse(_) => EventType::NormalResponse,
            Event::InformationalResponse(_) => EventType::InformationalResponse,
            Event::Data(_) => EventType::Data,
            Event::EndOfMessage(_) => EventType::EndOfMessage,
            Event::ConnectionClosed(_) => EventType::ConnectionClosed,
            Event::NeedData() => EventType::NeedData,
            Event::Paused() => EventType::Paused,
        }
    }
}

impl vstd::std_specs::convert::FromSpecImpl<&Event> for EventType {
    open spec fn obeys_from_spec() -> bool {
        true
    }

    open spec fn from_spec(value: &Event) -> Self {
        type_of(value@)
    }
}

/// The states of the two sides.
#[derive(Debug, Eq, PartialEq, Copy, Clone, Hash, Structural)]
pub struct States {
    pub client: State,
    pub server: State,
}

impl States {
    pub open spec fn at(self, role: Role) -> State {
        match role {
            Role::Client => self.client,
            Role::Server => self.server,
        }
    }

    pub open spec fn with(self, role: Role, state: State) -> States {
        match role {
            Role::Client => States { client: state, ..self },
            Role::Server => States { server: state, ..self },
        }
    }

    /// The state of one side.
    pub fn get(&self, role: Role) -> (r: State)
        ensures
            r == self.at(role),
    {
        match role {
            Role::Client => self.client,
            Role::Server => self.server,
        }
    }

    /// Sets the state of one side.
    pub fn set(&mut self, role: Role, state: State)
        ensures
            *final(self) == old(self).with(role, state),
    {
        match role {
            Role::Client => {
                self.client = state;
            },
            Role::Server => {
                self.server = state;
            },
        }
    }
}

/// The switches that the client has proposed and the server has not answered.
#[derive(Debug, Eq, PartialEq, Copy, Clone, Hash, Structural)]
pub struct Proposals {
    pub upgrade: bool,
    pub connect: bool,
    pub client: bool,
}

impl Proposals {
    pub open spec fn has(self, switch: Switch) -> bool {
        match switch {
            Switch::SwitchUpgrade => self.upgrade,
            Switch::SwitchConnect => self.connect,
            Switch::Client => self.client,
        }
    }

    pub open spec fn nothing() -> Proposals {
        Proposals { upgrade: false, connect: false, client: false }
    }

    pub open spec fn plus(self, switch: Switch) -> Proposals {
        match switch {
            Switch::SwitchUpgrade => Proposals { upgrade: true, ..self },
            Switch::SwitchConnect => Proposals { connect: true, ..self },
            Switch::Client => Proposals { client: true, ..self },
        }
    }

    pub fn new() -> (r: Proposals)
        ensures
            r == Proposals::nothing(),
    {
        Proposals { upgrade: false, connect: false, client: false }
    }

    pub fn contains(&self, switch: &Switch) -> (r: bool)
        ensures
            r == self.has(*switch),
    {
        match switch {
            Switch::SwitchUpgrade => self.upgrade,
            Switch::SwitchConnect => self.connect,
            Switch::Client => self.client,
        }
    }

    pub fn insert(&mut self, switch: Switch)
        ensures
            *final(self) == old(self).plus(switch),
    {
        match switch {
            Switch::SwitchUpgrade => {
                self.upgrade = true;
            },
            Switch::SwitchConnect => {
                self.connect = true;
            },
            Switch::Client => {
                self.client = true;
            },
        }
    }

    pub fn clear(&mut self)
        ensures
            *final(self) == Proposals::nothing(),
    {
        *self = Proposals::new();
    }

    pub fn is_empty(&self) -> (r: bool)
        ensures
            r == (*self == Proposals::nothing()),
    {
        !self.upgrade && !self.connect && !self.client
    }
}

/// The state after an event of a side, where the event is allowed.
pub open spec fn next_state(role: Role, state: State, event_type: EventType) -> Option<State> {
    match (role, state, event_type) {
        (Role::Client, State::Idle, EventType::Request) => Some(State::SendBody),
        (Role::Client, State::Idle, EventType::ConnectionClosed) => Some(State::Closed),
        (Role::Client, State::SendBody, EventType::Data) => Some(State::SendBody),
        (Role::Client, State::SendBody, EventType::EndOfMessage) => Some(State::Done),
        (Role::Client, State::Done, EventType::ConnectionClosed) => Some(State::Closed),
        (Role::Client, State::MustClose, EventType::ConnectionClosed) => Some(State::Closed),
        (Role::Client, State::Closed, EventType::ConnectionClosed) => Some(State::Closed),
        (Role::Server, State::Idle, EventType::ConnectionClosed) => Some(State::Closed),
        (Role::Server, State::Idle, EventType::NormalResponse) => Some(State::SendBody),
        (Role::Server, State::Idle, EventType::RequestClient) => Some(State::SendResponse),
        (Role::Server, State::SendResponse, EventType::InformationalResponse) => Some(
            State::SendResponse,
        ),
        (Role::Server, State::SendResponse, EventType::NormalResponse) => Some(State::SendBody),
        (
            Role::Server,
            State::SendResponse,
            EventType::InformationalResponseSwitchUpgrade,
        ) => Some(State::SwitchedProtocol),
        (Role::Server, State::SendResponse, EventType::NormalResponseSwitchConnect) => Some(
            State::SwitchedProtocol,
        ),
        (Role::Server, State::SendBody, EventType::Data) => Some(State::SendBody),
        (Role::Server, State::SendBody, EventType::EndOfMessage) => Some(State::Done),
        (Role::Server, State::Done, EventType::ConnectionClosed) => Some(State::Closed),
        (Role::Server, State::MustClose, EventType::ConnectionClosed) => Some(State::Closed),
        (Role::Server, State::Closed, EventType::ConnectionClosed) => Some(State::Closed),
        _ => None,
    }
}

pub open spec fn role_name(role: Role) -> Seq<char> {
    match role {
        Role::Client => "Client"@,
        Role::Server => "Server"@,
    }
}

pub open spec fn state_name(state: State) -> Seq<char> {
    match state {
        State::Idle => "Idle"@,
        State::SendResponse => "SendResponse"@,
        State::SendBody => "SendBody"@,
        State::Done => "Done"@,
        State::MustClose => "MustClose"@,
        State::Closed => "Closed"@,
        State::Error => "Error"@,
        State::MightSwitchProtocol => "MightSwitchProtocol"@,
        State::SwitchedProtocol => "SwitchedProtocol"@,
    }
}

pub open spec fn switch_name(switch: Switch) -> Seq<char> {
    match switch {
        Switch::SwitchUpgrade => "SwitchUpgrade"@,
        Switch::SwitchConnect => "SwitchConnect"@,
        Switch::Client => "Client"@,
    }
}

pub open spec fn event_type_name(event_type: EventType) -> Seq<char> {
    match event_type {
        EventType::Request => "Request"@,
        EventType::InformationalResponse => "InformationalResponse"@,
        EventType::NormalResponse => "NormalResponse"@,
        EventType::Data => "Data"@,
        EventType::EndOfMessage => "EndOfMessage"@,
        EventType::ConnectionClosed => "ConnectionClosed"@,
        EventType::NeedData => "NeedData"@,
        EventType::Paused => "Paused"@,
        EventType::RequestClient => "RequestClient"@,
        EventType::InformationalResponseSwitchUpgrade => "InformationalResponseSwitchUpgrade"@,
        EventType::NormalResponseSwitchConnect => "NormalResponseSwitchConnect"@,
    }
}

fn role_text(role: Role) -> (r: &'static str)
    ensures
        r@ == role_name(role),
{
    match role {
        Role::Client => "Client",
        Role::Server => "Server",
    }
}

fn state_text(state: State) -> (r: &'static str)
    ensures
        r@ == state_name(state),
{
    match state {
        State::Idle => "Idle",
        State::SendResponse => "SendResponse",
        State::SendBody => "SendBody",
        State::Done => "Done",
        State::MustClose => "MustClose",
        State::Closed => "Closed",
        State::Error => "Error",
        State::MightSwitchProtocol => "MightSwitchProtocol",
        State::SwitchedProtocol => "SwitchedProtocol",
    }
}

fn switch_text(switch: Switch) -> (r: &'static str)
    ensures
        r@ == switch_name(switch),
{
    match switch {
        Switch::SwitchUpgrade => "SwitchUpgrade",
        Switch::SwitchConnect => "SwitchConnect",
        Switch::Client => "Client",
    }
}

fn event_type_text(event_type: EventType) -> (r: &'static str)
    ensures
        r@ == event_type_name(event_type),
{
    match event_type {
        EventType::Request => "Request",
        EventType::InformationalResponse => "InformationalResponse",
        EventType::NormalResponse => "NormalResponse",
        EventType::Data => "Data",
        EventType::EndOfMessage => "EndOfMessage",
        EventType::ConnectionClosed => "ConnectionClosed",
        EventType::NeedData => "NeedData",
        EventType::Paused => "Paused",
        EventType::RequestClient => "RequestClient",
        EventType::InformationalResponseSwitchUpgrade => "InformationalResponseSwitchUpgrade",
        EventType::NormalResponseSwitchConnect => "NormalResponseSwitchConnect",
    }
}

/// The complaint about an event that a state does not allow.
pub open spec fn not_allowed(role: Role, state: State, event_type: EventType) -> ErrorView {
    util::local(
        "Can't handle event type "@ + event_type_name(event_type) + " when role="@ + role_name(role)
            + " and state="@ + state_name(state),
    )
}

/// The complaint about a switch that was not proposed.
pub open spec fn not_proposed(switch: Switch) -> ErrorView {
    util::local(
        "Received server "@ + switch_name(switch) + " event without a pending proposal"@,
    )
}

/// The complaint about a new cycle before the last one is done.
pub open spec fn not_reusable(states: States) -> ErrorView {
    util::local(
        "Not in a reusable state. self.states={Client: "@ + state_name(states.client)
            + ", Server: "@ + state_name(states.server) + "}"@,
    )
}

/// The event type that an event has with a switch of the server.
pub open spec fn switched_type(event_type: EventType, switch: Switch) -> Option<EventType> {
    match (event_type, switch) {
        (EventType::Request, Switch::Client) => Some(EventType::RequestClient),
        (EventType::NormalResponse, Switch::SwitchConnect) => Some(
            EventType::NormalResponseSwitchConnect,
        ),
        (EventType::InformationalResponse, Switch::SwitchUpgrade) => Some(
            EventType::InformationalResponseSwitchUpgrade,
        ),
        _ => None,
    }
}

/// The states of the two sides, whether the connection can be used again, and the switches
/// that wait for an answer.
#[derive(Debug, Eq, PartialEq, Copy, Clone, Hash, Structural)]
pub struct ConnectionState {
    pub keep_alive: bool,
    pub pending_switch_proposals: Proposals,
    pub states: States,
}

/// The client side after the moves that depend on it alone: a finished client waits while a
/// switch is proposed, and a connection that is not kept alive has to be closed.
pub open spec fn settled_client(cs: ConnectionState) -> State {
    let proposed = cs.pending_switch_proposals != Proposals::nothing();
    let waiting = match cs.states.client {
        State::Done if proposed => State::MightSwitchProtocol,
        State::MightSwitchProtocol if !proposed => State::Done,
        state => state,
    };
    if waiting == State::Done && !cs.keep_alive {
        State::MustClose
    } else {
        waiting
    }
}

pub open spec fn settled_server(cs: ConnectionState) -> State {
    if cs.states.server == State::Done && !cs.keep_alive {
        State::MustClose
    } else {
        cs.states.server
    }
}

/// The states after the moves that the two sides force on one another.
pub open spec fn settled_jointly(states: States) -> States {
    match (states.client, states.server) {
        (State::MightSwitchProtocol, State::SwitchedProtocol) => states.with(
            Role::Client,
            State::SwitchedProtocol,
        ),
        (State::Closed, State::Done) => states.with(Role::Server, State::MustClose),
        (State::Closed, State::Idle) => states.with(Role::Server, State::MustClose),
        (State::Error, State::Done) => states.with(Role::Server, State::MustClose),
        (State::Done, State::Closed) => states.with(Role::Client, State::MustClose),
        (State::Idle, State::Closed) => states.with(Role::Client, State::MustClose),
        (State::Done, State::Error) => states.with(Role::Client, State::MustClose),
        _ => states,
    }
}

/// The state after all the moves that no event has to trigger.
pub open spec fn settled(cs: ConnectionState) -> ConnectionState {
    ConnectionState {
        states: settled_jointly(
            States { client: settled_client(cs), server: settled_server(cs) },
        ),
        ..cs
    }
}

pub open spec fn initial() -> ConnectionState {
    ConnectionState {
        keep_alive: true,
        pending_switch_proposals: Proposals::nothing(),
        states: States { client: State::Idle, server: State::Idle },
    }
}

pub open spec fn failed(cs: ConnectionState, role: Role) -> ConnectionState {
    settled(ConnectionState { states: cs.states.with(role, State::Error), ..cs })
}

pub open spec fn without_keep_alive(cs: ConnectionState) -> ConnectionState {
    settled(ConnectionState { keep_alive: false, ..cs })
}

pub open spec fn with_proposal(cs: ConnectionState, switch: Switch) -> ConnectionState {
    settled(
        ConnectionState {
            pending_switch_proposals: cs.pending_switch_proposals.plus(switch),
            ..cs
        },
    )
}

/// The state after an event that a side is allowed, before the sides settle.
pub open spec fn fired(cs: ConnectionState, role: Role, event_type: EventType) -> (
    ConnectionState,
    Result<(), ErrorView>,
) {
    match next_state(role, cs.states.at(role), event_type) {
        Some(state) => (ConnectionState { states: cs.states.with(role, state), ..cs }, Ok(())),
        None => (cs, Err(not_allowed(role, cs.states.at(role), event_type))),
    }
}

/// The state after an event whose type is settled, where it is allowed. A request moves the
/// server side too, and is allowed only if both sides can move.
pub open spec fn moved(cs: ConnectionState, role: Role, event_type: EventType) -> Result<
    ConnectionState,
    ErrorView,
> {
    let (first, r) = fired(cs, role, event_type);
    match r {
        Err(e) => Err(e),
        Ok(_) => if event_type == EventType::Request {
            let (second, r) = fired(first, Role::Server, EventType::RequestClient);
            match r {
                Err(e) => Err(e),
                Ok(_) => Ok(settled(second)),
            }
        } else {
            Ok(settled(first))
        },
    }
}

/// The state after an event of a side, where it is allowed. A response that is no switch turns
/// all proposals down.
pub open spec fn next(
    cs: ConnectionState,
    role: Role,
    event_type: EventType,
    server_switch_event: Option<Switch>,
) -> Result<ConnectionState, ErrorView> {
    match server_switch_event {
        Some(switch) => if !cs.pending_switch_proposals.has(switch) {
            Err(not_proposed(switch))
        } else {
            moved(cs, role, switched_type(event_type, switch)->0)
        },
        None => if event_type == EventType::NormalResponse {
            moved(
                ConnectionState { pending_switch_proposals: Proposals::nothing(), ..cs },
                role,
                event_type,
            )
        } else {
            moved(cs, role, event_type)
        },
    }
}

/// What an event of a side does: the new state, or the error if it is not allowed, and then
/// nothing changes.
pub open spec fn processed(
    cs: ConnectionState,
    role: Role,
    event_type: EventType,
    server_switch_event: Option<Switch>,
) -> (ConnectionState, Result<(), ErrorView>) {
    match next(cs, role, event_type, server_switch_event) {
        Ok(after) => (after, Ok(())),
        Err(e) => (cs, Err(e)),
    }
}

/// What the start of a new cycle does.
pub open spec fn restarted(cs: ConnectionState) -> (ConnectionState, Result<(), ErrorView>) {
    if cs.states != (States { client: State::Done, server: State::Done }) {
        (cs, Err(not_reusable(cs.states)))
    } else {
        (
            ConnectionState { states: States { client: State::Idle, server: State::Idle }, ..cs },
            Ok(()),
        )
    }
}

/// The error of a result.
pub open spec fn outcome(r: Result<(), ProtocolError>) -> Result<(), ErrorView> {
    match r {
        Ok(_) => Ok(()),
        Err(e) => Err(e@),
    }
}

impl ConnectionState {
    /// A finished side belongs to a connection that is kept alive, and a finished client has
    /// no switch to wait for.
    pub open spec fn consistent(self) -> bool {
        &&& self.states.client == State::Done ==> self.keep_alive && self.pending_switch_proposals
            == Proposals::nothing()
        &&& self.states.server == State::Done ==> self.keep_alive
    }

    pub fn new() -> (r: Self)
        ensures
            r == initial(),
            r.consistent(),
    {
        ConnectionState {
            keep_alive: true,
            pending_switch_proposals: Proposals::new(),
            states: States { client: State::Idle, server: State::Idle },
        }
    }

    /// Puts a side into the error state.
    pub fn process_error(&mut self, role: Role)
        ensures
            *final(self) == failed(*old(self), role),
            final(self).consistent(),
    {
        self.states.set(role, State::Error);
        self._fire_state_triggered_transitions();
    }

    /// Notes that the connection will not be used again.
    pub fn process_keep_alive_disabled(&mut self)
        ensures
            *final(self) == without_keep_alive(*old(self)),
            final(self).consistent(),
    {
        self.keep_alive = false;
        self._fire_state_triggered_transitions();
    }

    /// Notes a switch that the client proposes.
    pub fn process_client_switch_proposal(&mut self, switch_event: Switch)
        ensures
            *final(self) == with_proposal(*old(self), switch_event),
            final(self).consistent(),
    {
        self.pending_switch_proposals.insert(switch_event);
        self._fire_state_triggered_transitions();
    }

    /// Takes an event of a side. One that is not allowed is our error, and changes nothing.
    pub fn process_event(
        &mut self,
        role: Role,
        event_type: EventType,
        server_switch_event: Option<Switch>,
    ) -> (r: Result<(), ProtocolError>)
        requires
            server_switch_event matches Some(switch) ==> role == Role::Server && (
            old(self).pending_switch_proposals.has(switch) ==> switched_type(
                event_type,
                switch,
            ) is Some),
        ensures
            (*final(self), outcome(r)) == processed(
                *old(self),
                role,
                event_type,
                server_switch_event,
            ),
            r matches Err(e) ==> e@ is Local && *final(self) == *old(self),
            old(self).consistent() ==> final(self).consistent(),
    {
        let mut after: ConnectionState = *self;
        let mut full_type: EventType = event_type;
        match server_switch_event {
            Some(switch) => {
                if !self.pending_switch_proposals.contains(&switch) {
                    let mut text: String = "Received server ".to_owned();
                    text.append(switch_text(switch));
                    text.append(" event without a pending proposal");
                    return Err(local_error_of(text));
                }
                full_type =
                match (event_type, switch) {
                    (EventType::Request, Switch::Client) => EventType::RequestClient,
                    (EventType::NormalResponse, Switch::SwitchConnect) =>
                        EventType::NormalResponseSwitchConnect,
                    _ => EventType::InformationalResponseSwitchUpgrade,
                };
            },
            None => {
                if event_type == EventType::NormalResponse {
                    after.pending_switch_proposals.clear();
                }
            },
        }
        match after._fire_event_triggered_transitions(role, full_type) {
            Ok(_) => {},
            Err(e) => {
                return Err(e);
            },
        }
        if full_type == EventType::Request {
            match after._fire_event_triggered_transitions(Role::Server, EventType::RequestClient) {
                Ok(_) => {},
                Err(e) => {
                    return Err(e);
                },
            }
        }
        after._fire_state_triggered_transitions();
        *self = after;
        Ok(())
    }

    /// Moves a side as an event demands.
    fn _fire_event_triggered_transitions(&mut self, role: Role, event_type: EventType) -> (r:
        Result<(), ProtocolError>)
        ensures
            (*final(self), outcome(r)) == fired(*old(self), role, event_type),
    {
        let state: State = self.states.get(role);
        let new_state: State = match (role, state, event_type) {
            (Role::Client, State::Idle, EventType::Request) => State::SendBody,
            (Role::Client, State::Idle, EventType::ConnectionClosed) => State::Closed,
            (Role::Client, State::SendBody, EventType::Data) => State::SendBody,
            (Role::Client, State::SendBody, EventType::EndOfMessage) => State::Done,
            (Role::Client, State::Done, EventType::ConnectionClosed) => State::Closed,
            (Role::Client, State::MustClose, EventType::ConnectionClosed) => State::Closed,
            (Role::Client, State::Closed, EventType::ConnectionClosed) => State::Closed,
            (Role::Server, State::Idle, EventType::ConnectionClosed) => State::Closed,
            (Role::Server, State::Idle, EventType::NormalResponse) => State::SendBody,
            (Role::Server, State::Idle, EventType::RequestClient) => State::SendResponse,
            (
                Role::Server,
                State::SendResponse,
                EventType::InformationalResponse,
            ) => State::SendResponse,
            (Role::Server, State::SendResponse, EventType::NormalResponse) => State::SendBody,
            (
                Role::Server,
                State::SendResponse,
                EventType::InformationalResponseSwitchUpgrade,
            ) => State::SwitchedProtocol,
            (
                Role::Server,
                State::SendResponse,
                EventType::NormalResponseSwitchConnect,
            ) => State::SwitchedProtocol,
            (Role::Server, State::SendBody, EventType::Data) => State::SendBody,
            (Role::Server, State::SendBody, EventType::EndOfMessage) => State::Done,
            (Role::Server, State::Done, EventType::ConnectionClosed) => State::Closed,
            (Role::Server, State::MustClose, EventType::ConnectionClosed) => State::Closed,
            (Role::Server, State::Closed, EventType::ConnectionClosed) => State::Closed,
            _ => {
                let mut text: String = "Can't handle event type ".to_owned();
                text.append(event_type_text(event_type));
                text.append(" when role=");
                text.append(role_text(role));
                text.append(" and state=");
                text.append(state_text(state));
                return Err(local_error_of(text));
            },
        };
        self.states.set(role, new_state);
        Ok(())
    }

    /// Makes the moves that no event has to trigger, until there are none.
    fn _fire_state_triggered_transitions(&mut self)
        ensures
            *final(self) == settled(*old(self)),
            final(self).consistent(),
    {
        let mut moving: bool = true;
        while moving
            invariant
                settled(*self) == settled(*old(self)),
                !moving ==> *self == settled(*old(self)),
            decreases
                (if moving {
                    1int
                } else {
                    0int
                }) + (if *self == settled(*old(self)) {
                    0int
                } else {
                    1int
                }),
        {
            let start_states: States = self.states;
            if !self.pending_switch_proposals.is_empty() {
                if self.states.client == State::Done {
                    self.states.client = State::MightSwitchProtocol;
                }
            } else if self.states.client == State::MightSwitchProtocol {
                self.states.client = State::Done;
            }
            if !self.keep_alive {
                if self.states.client == State::Done {
                    self.states.client = State::MustClose;
                }
                if self.states.server == State::Done {
                    self.states.server = State::MustClose;
                }
            }
            match (self.states.client, self.states.server) {
                (State::MightSwitchProtocol, State::SwitchedProtocol) => {
                    self.states.client = State::SwitchedProtocol;
                },
                (State::Closed, State::Done) => {
                    self.states.server = State::MustClose;
                },
                (State::Closed, State::Idle) => {
                    self.states.server = State::MustClose;
                },
                (State::Error, State::Done) => {
                    self.states.server = State::MustClose;
                },
                (State::Done, State::Closed) => {
                    self.states.client = State::MustClose;
                },
                (State::Idle, State::Closed) => {
                    self.states.client = State::MustClose;
                },
                (State::Done, State::Error) => {
                    self.states.client = State::MustClose;
                },
                _ => {},
            }
            moving = self.states != start_states;
        }
    }

    /// Starts a new cycle of a request and a response, once both sides are done with the last.
    pub fn start_next_cycle(&mut self) -> (r: Result<(), ProtocolError>)
        requires
            old(self).states == (States { client: State::Done, server: State::Done })
                ==> old(self).keep_alive && old(self).pending_switch_proposals
                == Proposals::nothing(),
        ensures
            (*final(self), outcome(r)) == restarted(*old(self)),
            old(self).consistent() ==> final(self).consistent(),
    {
        if self.states != (States { client: State::Done, server: State::Done }) {
            let mut text: String = "Not in a reusable state. self.states={Client: ".to_owned();
            text.append(state_text(self.states.client));
            text.append(", Server: ");
            text.append(state_text(self.states.server));
            text.append("}");
            return Err(local_error_of(text));
        }
        self.states = States { client: State::Idle, server: State::Idle };
        Ok(())
    }
}

} // verus!
