//! The session registry and the per-connection protocol decisions.
//!
//! The registry owns every live session for the process lifetime.  A
//! connection handler around it (sockets, channels and tasks live
//! outside this crate) calls in here for every decision: the first
//! message of a connection, whether an inbound frame is accepted and
//! rebroadcast, and the synthesized departure on teardown.

use vstd::prelude::*;

use crate::client::{AppEvent, AppEventV};
use crate::codec::{event_to_wire, ser_event, snapshot_to_wire, wf_action, wire_to_game_message};
use crate::game::{apply, ActionV, Game, GameAction, GameV};
use crate::ids::{GameId, UserId};
use crate::model::{PlayerRole, PlayerV, User};

verus! {

pub open spec fn games_view(s: Seq<Game>) -> Seq<GameV> {
    s.map_values(|g: Game| g@)
}

/// First index of the session with id `id`, or `-1`.
pub open spec fn game_idx(s: Seq<GameV>, id: u128) -> int
    decreases s.len(),
{
    if s.len() == 0 {
        -1
    } else if s[0].id == id {
        0
    } else if game_idx(s.drop_first(), id) == -1 {
        -1
    } else {
        game_idx(s.drop_first(), id) + 1
    }
}

pub proof fn lemma_game_idx(s: Seq<GameV>, id: u128)
    ensures
        game_idx(s, id) == -1 ==> forall|j: int| 0 <= j < s.len() ==> s[j].id != id,
        game_idx(s, id) != -1 ==> {
            let i = game_idx(s, id);
            &&& 0 <= i < s.len()
            &&& s[i].id == id
            &&& forall|j: int| 0 <= j < i ==> s[j].id != id
        },
    decreases s.len(),
{
    if s.len() > 0 && s[0].id != id {
        let rest = s.drop_first();
        lemma_game_idx(rest, id);
        assert(forall|j: int| 1 <= j < s.len() ==> s[j] == #[trigger] rest[j - 1]);
        if game_idx(rest, id) == -1 {
            assert forall|j: int| 0 <= j < s.len() implies s[j].id != id by {
                if j >= 1 {
                    assert(s[j] == rest[j - 1]);
                }
            }
        } else {
            let i = game_idx(rest, id) + 1;
            assert(s[i] == rest[i - 1]);
            assert forall|j: int| 0 <= j < i implies s[j].id != id by {
                if j >= 1 {
                    assert(s[j] == rest[j - 1]);
                }
            }
        }
    }
}

/// The process-wide registry of live sessions.
pub struct Registry {
    pub games: Vec<Game>,
}

impl View for Registry {
    type V = Seq<GameV>;

    open spec fn view(&self) -> Seq<GameV> {
        games_view(self.games@)
    }
}

fn find_game(games: &Vec<Game>, id: GameId) -> (r: Option<usize>)
    ensures
        match r {
            Some(j) => j < games@.len() && game_idx(games_view(games@), id.0) == j as int,
            None => game_idx(games_view(games@), id.0) == -1,
        },
{
    let ghost gv = games_view(games@);
    let mut i: usize = 0;
    while i < games.len()
        invariant
            i <= games.len(),
            gv == games_view(games@),
            forall|j: int| 0 <= j < i ==> gv[j].id != id.0,
        decreases games.len() - i,
    {
        proof {
            assert(gv[i as int] == games@[i as int]@);
        }
        if games[i].id.0 == id.0 {
            proof {
                lemma_game_idx(gv, id.0);
            }
            return Some(i);
        }
        i += 1;
    }
    proof {
        lemma_game_idx(gv, id.0);
    }
    None
}

impl Registry {
    /// An empty registry, made once at process start.
    pub fn new() -> (r: Self)
        ensures
            r@ == Seq::<GameV>::empty(),
    {
        let r = Registry { games: Vec::new() };
        proof {
            assert(r@ =~= Seq::<GameV>::empty());
        }
        r
    }

    /// Creates a session with `user` as its single, active admin and
    /// registers it under the new game's fresh id.
    pub fn create(&mut self, user: User) -> (r: GameId)
        ensures
            final(self)@.len() == old(self)@.len() + 1,
            forall|k: int| 0 <= k < old(self)@.len() ==> final(self)@[k] == old(self)@[k],
            final(self)@.last() == (GameV {
                id: r.0,
                players: seq![PlayerV { user: user@, role: PlayerRole::Admin, active: true }],
                backlog: Seq::empty(),
                estimated: Seq::empty(),
                selected: None,
            }),
    {
        let g = Game::new(user);
        let id = g.id;
        self.games.push(g);
        proof {
            assert(self@ =~= old(self)@.push(self.games@.last()@));
        }
        id
    }

    /// A read-only borrow of the addressed session.
    pub fn get(&self, id: GameId) -> (r: Option<&Game>)
        ensures
            match r {
                Some(g) => game_idx(self@, id.0) >= 0 && g@ == self@[game_idx(self@, id.0)],
                None => game_idx(self@, id.0) == -1,
            },
    {
        match find_game(&self.games, id) {
            Some(i) => {
                proof {
                    assert(self@[i as int] == self.games@[i as int]@);
                }
                Some(&self.games[i])
            },
            None => None,
        }
    }

    /// Applies one action to the addressed session through the shared
    /// reducer; an unknown session is left untouched.
    pub fn mutate(&mut self, id: GameId, user_id: UserId, action: GameAction) -> (r: bool)
        ensures
            ({
                let i = game_idx(old(self)@, id.0);
                if i >= 0 {
                    r == true && final(self)@ == old(self)@.update(
                        i,
                        apply(old(self)@[i], user_id.0, action@),
                    )
                } else {
                    r == false && final(self)@ == old(self)@
                }
            }),
    {
        match find_game(&self.games, id) {
            Some(i) => {
                let ghost gv0 = self@;
                let g = &mut self.games[i];
                g.update(user_id, action);
                proof {
                    assert(self@ =~= gv0.update(
                        i as int,
                        apply(gv0[i as int], user_id.0, action@),
                    ));
                }
                true
            },
            None => false,
        }
    }

    /// Drops every session; subscribers of their hubs see the close.
    pub fn reset_all(&mut self)
        ensures
            final(self)@ == Seq::<GameV>::empty(),
    {
        self.games.clear();
        proof {
            assert(self@ =~= Seq::<GameV>::empty());
        }
    }
}

/// Checks the administrative reset token: cleared only when a secret is
/// configured and the presented token equals it; with no secret
/// configured every token is refused (fail closed).
pub fn check_reset_token(secret: &Option<String>, token: &String) -> (r: bool)
    ensures
        r == (secret matches Some(s) && s@ == token@),
{
    match secret {
        Some(s) => s.eq(token),
        None => false,
    }
}

/// Per-connection protocol state: the addressed session and, once a
/// join passed through, the joined player (for the synthesized
/// departure on teardown).
pub struct Connection {
    pub game_id: GameId,
    pub player_id: Option<UserId>,
}

impl Connection {
    pub fn new(game_id: GameId) -> (r: Self)
        ensures
            r.game_id == game_id,
            r.player_id is None,
    {
        Connection { game_id, player_id: None }
    }

    /// The one message every fresh connection receives first: the full
    /// snapshot of the addressed session, or a not-found notice.
    pub fn snapshot_message(registry: &Registry, game_id: GameId) -> (r: String)
        ensures
            ({
                let i = game_idx(registry@, game_id.0);
                if i >= 0 {
                    r@ == ser_event(AppEventV::CurrentState(registry@[i]))
                } else {
                    r@ == ser_event(AppEventV::GameNotFound(game_id.0))
                }
            }),
    {
        match registry.get(game_id) {
            Some(g) => snapshot_to_wire(g),
            None => event_to_wire(&AppEvent::GameNotFound(game_id)),
        }
    }

    /// Handles one inbound text frame.  A frame that is not a canonical
    /// game message is ignored (nothing changes, nothing is answered).
    /// An accepted frame is applied to the addressed session, the
    /// joined player is remembered on a join, and the caller gets the
    /// accepted message back so it can publish the frame verbatim.
    pub fn handle_incoming(&mut self, registry: &mut Registry, raw: &String) -> (r: Option<
        (UserId, GameAction),
    >)
        ensures
            match r {
                Some((uid, a)) => {
                    &&& raw@ == ser_event(AppEventV::GameMessage(uid.0, a@))
                    &&& ({
                        let i = game_idx(old(registry)@, old(self).game_id.0);
                        if i >= 0 {
                            final(registry)@ == old(registry)@.update(
                                i,
                                apply(old(registry)@[i], uid.0, a@),
                            )
                        } else {
                            final(registry)@ == old(registry)@
                        }
                    })
                    &&& final(self).game_id == old(self).game_id
                    &&& final(self).player_id == (match a@ {
                        ActionV::PlayerJoined(u) => Some(UserId(u.id)),
                        _ => old(self).player_id,
                    })
                },
                None => *final(self) == *old(self) && final(registry)@ == old(registry)@,
            },
            forall|uid2: u128, a2: ActionV|
                #![trigger ser_event(AppEventV::GameMessage(uid2, a2))]
                (wf_action(a2) && raw@ == ser_event(AppEventV::GameMessage(uid2, a2))) ==> r
                    is Some,
    {
        match wire_to_game_message(raw.as_str()) {
            Some((uid, action)) => {
                match &action {
                    GameAction::PlayerJoined(user) => {
                        self.player_id = Some(user.id);
                    },
                    _ => {},
                }
                let sent = (uid, action.clone());
                registry.mutate(self.game_id, uid, action);
                Some(sent)
            },
            None => None,
        }
    }

    /// On final teardown: if this connection had joined a player, marks
    /// it inactive in the session and hands back the departure message
    /// that the remaining participants must see.
    pub fn close_message(&self, registry: &mut Registry) -> (r: Option<String>)
        ensures
            match self.player_id {
                Some(uid) => {
                    &&& r matches Some(m) && m@ == ser_event(
                        AppEventV::GameMessage(uid.0, ActionV::PlayerLeft),
                    )
                    &&& ({
                        let i = game_idx(old(registry)@, self.game_id.0);
                        if i >= 0 {
                            final(registry)@ == old(registry)@.update(
                                i,
                                apply(old(registry)@[i], uid.0, ActionV::PlayerLeft),
                            )
                        } else {
                            final(registry)@ == old(registry)@
                        }
                    })
                },
                None => r is None && final(registry)@ == old(registry)@,
            },
    {
        match self.player_id {
            Some(uid) => {
                registry.mutate(self.game_id, uid, GameAction::PlayerLeft);
                let msg = event_to_wire(&AppEvent::GameMessage(uid, GameAction::PlayerLeft));
                Some(msg)
            },
            None => None,
        }
    }
}

} // verus!
