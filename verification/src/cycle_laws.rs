//! The life of a connection, event by event: when each event is allowed, to which state it leads
//! its own side, and what becomes of the other side.
use vstd::prelude::*;

use crate::connection;
use crate::connection::ConnectionView;
use crate::events::EventView;
use crate::state;
use crate::state::{ConnectionState, EventType, Proposals, Role, State, States, Switch};
use crate::util::ErrorView;

verus! {

/// A request is the client's, starts a cycle, and needs both sides idle: the client sends its
/// body then, and the server has to respond.
pub proof fn law_requests(cs: ConnectionState, role: Role)
    ensures
        ({
            let (after, r) = state::processed(cs, role, EventType::Request, None);
            let allowed = role == Role::Client && cs.states.client == State::Idle
                && cs.states.server == State::Idle;
            &&& r is Ok <==> allowed
            &&& allowed ==> after == (ConnectionState {
                states: States { client: State::SendBody, server: State::SendResponse },
                ..cs
            })
        }),
{
}

/// Data comes while a side sends its body, and moves nothing.
pub proof fn law_data(cs: ConnectionState, role: Role)
    requires
        state::settled(cs) == cs,
    ensures
        state::processed(cs, role, EventType::Data, None).1 is Ok <==> cs.states.at(role)
            == State::SendBody,
        state::processed(cs, role, EventType::Data, None).0 == cs,
{
}

/// The end of a message comes while a side sends its body. The side is done then, if the
/// connection is kept alive and the other side is still there; otherwise it has to close. A client
/// that has proposed a switch waits for the answer, or switches if that has come already.
pub proof fn law_ends_of_messages(cs: ConnectionState, role: Role)
    requires
        state::settled(cs) == cs,
    ensures
        ({
            let (after, r) = state::processed(cs, role, EventType::EndOfMessage, None);
            let proposed = cs.pending_switch_proposals.upgrade
                || cs.pending_switch_proposals.connect || cs.pending_switch_proposals.client;
            let other = cs.states.at(connection::other(role));
            &&& r is Ok <==> cs.states.at(role) == State::SendBody
            &&& r is Ok ==> {
                &&& after.keep_alive == cs.keep_alive
                &&& after.pending_switch_proposals == cs.pending_switch_proposals
                &&& after.states.at(connection::other(role)) == other
                &&& after.states.at(role) == (if role == Role::Client && proposed {
                    if other == State::SwitchedProtocol {
                        State::SwitchedProtocol
                    } else {
                        State::MightSwitchProtocol
                    }
                } else if cs.keep_alive && other != State::Closed && other != State::Error {
                    State::Done
                } else {
                    State::MustClose
                })
            }
        }),
{
}

/// A side closes between messages, or again; the other side, if it is between messages too, has
/// to close then.
pub proof fn law_closing(cs: ConnectionState, role: Role)
    requires
        state::settled(cs) == cs,
    ensures
        ({
            let (after, r) = state::processed(cs, role, EventType::ConnectionClosed, None);
            let own = cs.states.at(role);
            let other = cs.states.at(connection::other(role));
            &&& r is Ok <==> own == State::Idle || own == State::Done || own == State::MustClose
                || own == State::Closed
            &&& r is Ok ==> {
                &&& after.keep_alive == cs.keep_alive
                &&& after.pending_switch_proposals == cs.pending_switch_proposals
                &&& after.states.at(role) == State::Closed
                &&& after.states.at(connection::other(role)) == (if other == State::Done || other
                    == State::Idle {
                    State::MustClose
                } else {
                    other
                })
            }
        }),
{
}

/// An interim response comes while the server has to respond, and moves nothing.
pub proof fn law_interim_responses(cs: ConnectionState, role: Role)
    requires
        state::settled(cs) == cs,
    ensures
        state::processed(cs, role, EventType::InformationalResponse, None).1 is Ok <==> role
            == Role::Server && cs.states.server == State::SendResponse,
        state::processed(cs, role, EventType::InformationalResponse, None).0 == cs,
{
}

/// A final response comes while the server has to respond, or, without a request, while it is
/// idle. It sends its body then. Nothing is proposed any longer: a client that waited is done, or
/// has to close if the connection is not kept alive.
pub proof fn law_final_responses(cs: ConnectionState, role: Role)
    requires
        state::settled(cs) == cs,
    ensures
        ({
            let (after, r) = state::processed(cs, role, EventType::NormalResponse, None);
            let allowed = role == Role::Server && (cs.states.server == State::SendResponse
                || cs.states.server == State::Idle);
            &&& r is Ok <==> allowed
            &&& allowed ==> after == (ConnectionState {
                keep_alive: cs.keep_alive,
                pending_switch_proposals: Proposals {
                    upgrade: false,
                    connect: false,
                    client: false,
                },
                states: States {
                    client: if cs.states.client != State::MightSwitchProtocol {
                        cs.states.client
                    } else if cs.keep_alive {
                        State::Done
                    } else {
                        State::MustClose
                    },
                    server: State::SendBody,
                },
            })
        }),
{
}

/// A response that switches comes while the server has to respond, and only if the switch was
/// proposed. A client that waits switches too; one that still sends its body goes on with it.
pub proof fn law_switching_responses(cs: ConnectionState, upgrade: bool)
    requires
        state::settled(cs) == cs,
    ensures
        ({
            let (after, r) = if upgrade {
                state::processed(
                    cs,
                    Role::Server,
                    EventType::InformationalResponse,
                    Some(Switch::SwitchUpgrade),
                )
            } else {
                state::processed(
                    cs,
                    Role::Server,
                    EventType::NormalResponse,
                    Some(Switch::SwitchConnect),
                )
            };
            let proposed = if upgrade {
                cs.pending_switch_proposals.upgrade
            } else {
                cs.pending_switch_proposals.connect
            };
            &&& r is Ok <==> proposed && cs.states.server == State::SendResponse
            &&& r is Ok ==> after == (ConnectionState {
                states: States {
                    client: if cs.states.client == State::MightSwitchProtocol {
                        State::SwitchedProtocol
                    } else {
                        cs.states.client
                    },
                    server: State::SwitchedProtocol,
                },
                ..cs
            })
        }),
{
}

/// That more data is needed, or that reading is paused, is no event for the states.
pub proof fn law_no_events(cs: ConnectionState, role: Role)
    ensures
        state::processed(cs, role, EventType::NeedData, None).1 is Err,
        state::processed(cs, role, EventType::Paused, None).1 is Err,
{
}

/// What is refused, an event or a new cycle, has status 400.
pub proof fn law_refusals(
    cs: ConnectionState,
    role: Role,
    event_type: EventType,
    switch: Option<Switch>,
)
    ensures
        state::processed(cs, role, event_type, switch).1 matches Err(e) ==> (
        e matches ErrorView::Local { code, .. } && code == 400),
        state::restarted(cs).1 matches Err(e) ==> (e matches ErrorView::Local { code, .. } && code
            == 400),
{
}

/// A side that fails is in the error state, and the other side has to close if it is done. That the
/// connection is not kept alive means that sides which are done have to close. A proposal makes a
/// client that is done wait, or switch if the server has. Nothing else moves.
pub proof fn law_other_moves(cs: ConnectionState, role: Role, switch: Switch)
    requires
        state::settled(cs) == cs,
    ensures
        ({
            let closing = |state: State|
                if state == State::Done {
                    State::MustClose
                } else {
                    state
                };
            let other = connection::other(role);
            let failed = state::failed(cs, role);
            let ending = state::without_keep_alive(cs);
            let proposing = state::with_proposal(cs, switch);
            &&& failed.states.at(role) == State::Error
            &&& failed.states.at(other) == closing(cs.states.at(other))
            &&& failed.keep_alive == cs.keep_alive
            &&& failed.pending_switch_proposals == cs.pending_switch_proposals
            &&& ending == (ConnectionState {
                keep_alive: false,
                states: States {
                    client: closing(cs.states.client),
                    server: closing(cs.states.server),
                },
                ..cs
            })
            &&& proposing.keep_alive == cs.keep_alive
            &&& proposing.states.server == cs.states.server
            &&& proposing.states.client == (if cs.states.client != State::Done {
                cs.states.client
            } else if cs.states.server == State::SwitchedProtocol {
                State::SwitchedProtocol
            } else {
                State::MightSwitchProtocol
            })
            &&& forall|s: Switch| #[trigger]
                proposing.pending_switch_proposals.has(s) <==> s == switch
                    || cs.pending_switch_proposals.has(s)
        }),
{
}

/// A new cycle of a connection starts exactly if both sides are done, and otherwise nothing
/// changes. What was remembered of the last cycle is forgotten, what was received is kept.
pub proof fn law_new_cycles(c: ConnectionView)
    requires
        connection::healthy(c),
    ensures
        ({
            let (after, r) = connection::next_cycle(c);
            let done = c.cstate.states.client == State::Done && c.cstate.states.server
                == State::Done;
            &&& r is Ok <==> done
            &&& !done ==> after == c
            &&& done ==> {
                &&& after.cstate == state::initial()
                &&& after.request_method is None && after.their_http_version is None
                &&& !after.waiting_for_100_continue
                &&& after.buffer == c.buffer && after.closed == c.closed
            }
        }),
{
}

/// Which events a connection allows, by who sends them and by the states of the two sides.
pub proof fn law_allowed_events(c: ConnectionView, role: Role, event: EventView)
    requires
        connection::healthy(c),
    ensures
        ({
            let own = c.cstate.states.at(role);
            let proposed = c.cstate.pending_switch_proposals;
            connection::after_event(c, role, event).1 is Ok <==> (match event {
                EventView::Request(_) => role == Role::Client && own == State::Idle
                    && c.cstate.states.server == State::Idle,
                EventView::InformationalResponse(response) => role == Role::Server && own
                    == State::SendResponse && (response.status_code == 101 ==> proposed.upgrade),
                EventView::NormalResponse(response) => role == Role::Server && (own
                    == State::SendResponse || own == State::Idle && !(proposed.connect
                    && response.status_code / 100 == 2)),
                EventView::Data(_) => own == State::SendBody,
                EventView::EndOfMessage(_) => own == State::SendBody,
                EventView::ConnectionClosed => own == State::Idle || own == State::Done || own
                    == State::MustClose || own == State::Closed,
                EventView::NeedData => false,
                EventView::Paused => false,
            })
        }),
{
    connection::lemma_noted_sane(c.cstate, role, event);
}

} // verus!
