//! Protocol messages and the client-side reducer.
//!
//! A client joins a session, receives one full snapshot (or a
//! not-found notice), and from then on replays every accepted action
//! against its local copy of the state — the same reducer the server
//! runs, so all participants converge on the same state.

use vstd::prelude::*;

use crate::game::{apply, ActionV, Game, GameAction, GameV};
use crate::ids::{GameId, UserId};

verus! {

/// One protocol message.
pub enum AppEvent {
    CurrentState(Game),
    GameNotFound(GameId),
    GameMessage(UserId, GameAction),
}

/// Ghost mirror of `AppEvent`.
#[verifier::ext_equal]
pub ghost enum AppEventV {
    CurrentState(GameV),
    GameNotFound(u128),
    GameMessage(u128, ActionV),
}

impl View for AppEvent {
    type V = AppEventV;

    open spec fn view(&self) -> AppEventV {
        match self {
            AppEvent::CurrentState(g) => AppEventV::CurrentState(g@),
            AppEvent::GameNotFound(id) => AppEventV::GameNotFound(id.0),
            AppEvent::GameMessage(uid, a) => AppEventV::GameMessage(uid.0, a@),
        }
    }
}

/// What a client knows about its session: still joining, playing on a
/// local copy of the state, or told that the session does not exist.
pub enum ClientState {
    Loading,
    Playing(Game),
    NotFound,
}

/// Ghost mirror of `ClientState`.
#[verifier::ext_equal]
pub ghost enum ClientStateV {
    Loading,
    Playing(GameV),
    NotFound,
}

impl View for ClientState {
    type V = ClientStateV;

    open spec fn view(&self) -> ClientStateV {
        match self {
            ClientState::Loading => ClientStateV::Loading,
            ClientState::Playing(g) => ClientStateV::Playing(g@),
            ClientState::NotFound => ClientStateV::NotFound,
        }
    }
}

/// The client-side step function: a snapshot answers the join, a
/// not-found notice is terminal, and while playing every accepted
/// action is replayed through the shared reducer.
pub open spec fn client_step(s: ClientStateV, m: AppEventV) -> ClientStateV {
    match s {
        ClientStateV::Loading => match m {
            AppEventV::CurrentState(g) => ClientStateV::Playing(g),
            AppEventV::GameNotFound(_) => ClientStateV::NotFound,
            AppEventV::GameMessage(_, _) => ClientStateV::Loading,
        },
        ClientStateV::Playing(g) => match m {
            AppEventV::GameMessage(u, a) => ClientStateV::Playing(apply(g, u, a)),
            AppEventV::CurrentState(_) => ClientStateV::Playing(g),
            AppEventV::GameNotFound(_) => ClientStateV::Playing(g),
        },
        ClientStateV::NotFound => ClientStateV::NotFound,
    }
}

impl ClientState {
    /// Applies one incoming message to the client's view of the session.
    pub fn reduce(self, message: AppEvent) -> (r: ClientState)
        ensures
            r@ == client_step(self@, message@),
    {
        match self {
            ClientState::Loading => match message {
                AppEvent::CurrentState(g) => ClientState::Playing(g),
                AppEvent::GameNotFound(_) => ClientState::NotFound,
                AppEvent::GameMessage(_, _) => ClientState::Loading,
            },
            ClientState::Playing(g) => match message {
                AppEvent::GameMessage(u, a) => {
                    let mut g2 = g;
                    g2.update(u, a);
                    ClientState::Playing(g2)
                },
                AppEvent::CurrentState(_) => ClientState::Playing(g),
                AppEvent::GameNotFound(_) => ClientState::Playing(g),
            },
            ClientState::NotFound => ClientState::NotFound,
        }
    }
}

} // verus!
