//! The game aggregate and its reducer.
//!
//! A `Game` holds one session's full state.  Every state change goes
//! through [`Game::update`], whose behaviour is fully captured by the spec
//! reducer [`apply`]: a total function from state, acting user and action
//! to the next state.  Invalid or unauthorized actions leave the state
//! unchanged; no error is surfaced to the actor.

use vstd::prelude::*;

use crate::ids::{fresh_token, GameId, StoryId, UserId};
use crate::model::{
    sum_votes, upsert_vote, BacklogStory, BacklogStoryV, EstimatedStory, EstimatedStoryV, Player,
    PlayerRole, PlayerV, SelectedStory, SelectedStoryV, StoryInfo, StoryInfoV, User, UserV,
};
use crate::vote::{closest_allowed, Vote};

verus! {

/// One participant action, as it travels over the wire.
pub enum GameAction {
    PlayerJoined(User),
    PlayerLeft,
    StoriesAdded(Vec<BacklogStory>),
    StoryUpdated(StoryId, StoryInfo),
    StoryPositionChanged(StoryId, usize),
    StoryRemoved(StoryId),
    VotingOpened(StoryId),
    VotingClosed,
    VoteCasted(Vote),
    VotesRevealed,
    VotesCleared,
    ResultsApproved(Option<Vote>),
}

/// Ghost mirror of `GameAction`.
#[verifier::ext_equal]
pub ghost enum ActionV {
    PlayerJoined(UserV),
    PlayerLeft,
    StoriesAdded(Seq<BacklogStoryV>),
    StoryUpdated(u128, StoryInfoV),
    StoryPositionChanged(u128, int),
    StoryRemoved(u128),
    VotingOpened(u128),
    VotingClosed,
    VoteCasted(int),
    VotesRevealed,
    VotesCleared,
    ResultsApproved(Option<int>),
}

pub open spec fn players_view(s: Seq<Player>) -> Seq<PlayerV> {
    s.map_values(|p: Player| p@)
}

pub open spec fn backlog_view(s: Seq<BacklogStory>) -> Seq<BacklogStoryV> {
    s.map_values(|b: BacklogStory| b@)
}

pub open spec fn estimated_view(s: Seq<EstimatedStory>) -> Seq<EstimatedStoryV> {
    s.map_values(|e: EstimatedStory| e@)
}

impl Clone for GameAction {
    fn clone(&self) -> (r: Self)
        ensures
            r@ == self@,
    {
        match self {
            GameAction::PlayerJoined(u) => GameAction::PlayerJoined(u.clone()),
            GameAction::PlayerLeft => GameAction::PlayerLeft,
            GameAction::StoriesAdded(ss) => {
                let mut copy: Vec<BacklogStory> = Vec::new();
                let mut i: usize = 0;
                while i < ss.len()
                    invariant
                        i <= ss.len(),
                        copy@.len() == i,
                        forall|j: int| 0 <= j < i ==> copy@[j] == ss@[j],
                    decreases ss.len() - i,
                {
                    copy.push(ss[i].clone());
                    i += 1;
                }
                proof {
                    assert(copy@ =~= ss@);
                }
                GameAction::StoriesAdded(copy)
            },
            GameAction::StoryUpdated(id, info) => GameAction::StoryUpdated(*id, info.clone()),
            GameAction::StoryPositionChanged(id, idx) => GameAction::StoryPositionChanged(
                *id,
                *idx,
            ),
            GameAction::StoryRemoved(id) => GameAction::StoryRemoved(*id),
            GameAction::VotingOpened(id) => GameAction::VotingOpened(*id),
            GameAction::VotingClosed => GameAction::VotingClosed,
            GameAction::VoteCasted(v) => GameAction::VoteCasted(*v),
            GameAction::VotesRevealed => GameAction::VotesRevealed,
            GameAction::VotesCleared => GameAction::VotesCleared,
            GameAction::ResultsApproved(e) => GameAction::ResultsApproved(*e),
        }
    }
}

impl View for GameAction {
    type V = ActionV;

    open spec fn view(&self) -> ActionV {
        match self {
            GameAction::PlayerJoined(u) => ActionV::PlayerJoined(u@),
            GameAction::PlayerLeft => ActionV::PlayerLeft,
            GameAction::StoriesAdded(ss) => ActionV::StoriesAdded(backlog_view(ss@)),
            GameAction::StoryUpdated(id, info) => ActionV::StoryUpdated(id.0, info@),
            GameAction::StoryPositionChanged(id, idx) => ActionV::StoryPositionChanged(
                id.0,
                *idx as int,
            ),
            GameAction::StoryRemoved(id) => ActionV::StoryRemoved(id.0),
            GameAction::VotingOpened(id) => ActionV::VotingOpened(id.0),
            GameAction::VotingClosed => ActionV::VotingClosed,
            GameAction::VoteCasted(v) => ActionV::VoteCasted(v@),
            GameAction::VotesRevealed => ActionV::VotesRevealed,
            GameAction::VotesCleared => ActionV::VotesCleared,
            GameAction::ResultsApproved(e) => ActionV::ResultsApproved(
                match e {
                    Some(v) => Some(v@),
                    None => None,
                },
            ),
        }
    }
}

/// Ghost state of one session.
#[verifier::ext_equal]
pub ghost struct GameV {
    pub id: u128,
    pub players: Seq<PlayerV>,
    pub backlog: Seq<BacklogStoryV>,
    pub estimated: Seq<EstimatedStoryV>,
    pub selected: Option<SelectedStoryV>,
}

/// First index of the player with user id `id`, or `-1`.
pub open spec fn player_idx(s: Seq<PlayerV>, id: u128) -> int
    decreases s.len(),
{
    if s.len() == 0 {
        -1
    } else if s[0].user.id == id {
        0
    } else if player_idx(s.drop_first(), id) == -1 {
        -1
    } else {
        player_idx(s.drop_first(), id) + 1
    }
}

pub proof fn lemma_player_idx(s: Seq<PlayerV>, id: u128)
    ensures
        player_idx(s, id) == -1 ==> forall|j: int| 0 <= j < s.len() ==> s[j].user.id != id,
        player_idx(s, id) != -1 ==> {
            let i = player_idx(s, id);
            &&& 0 <= i < s.len()
            &&& s[i].user.id == id
            &&& forall|j: int| 0 <= j < i ==> s[j].user.id != id
        },
    decreases s.len(),
{
    if s.len() > 0 && s[0].user.id != id {
        let rest = s.drop_first();
        lemma_player_idx(rest, id);
        assert(forall|j: int| 1 <= j < s.len() ==> s[j] == #[trigger] rest[j - 1]);
        if player_idx(rest, id) == -1 {
            assert forall|j: int| 0 <= j < s.len() implies s[j].user.id != id by {
                if j >= 1 {
                    assert(s[j] == rest[j - 1]);
                }
            }
        } else {
            let i = player_idx(rest, id) + 1;
            assert(s[i] == rest[i - 1]);
            assert forall|j: int| 0 <= j < i implies s[j].user.id != id by {
                if j >= 1 {
                    assert(s[j] == rest[j - 1]);
                }
            }
        }
    }
}

/// First index of the backlog story with id `id`, or `-1`.
pub open spec fn backlog_idx(s: Seq<BacklogStoryV>, id: u128) -> int
    decreases s.len(),
{
    if s.len() == 0 {
        -1
    } else if s[0].id == id {
        0
    } else if backlog_idx(s.drop_first(), id) == -1 {
        -1
    } else {
        backlog_idx(s.drop_first(), id) + 1
    }
}

pub proof fn lemma_backlog_idx(s: Seq<BacklogStoryV>, id: u128)
    ensures
        backlog_idx(s, id) == -1 ==> forall|j: int| 0 <= j < s.len() ==> s[j].id != id,
        backlog_idx(s, id) != -1 ==> {
            let i = backlog_idx(s, id);
            &&& 0 <= i < s.len()
            &&& s[i].id == id
            &&& forall|j: int| 0 <= j < i ==> s[j].id != id
        },
    decreases s.len(),
{
    if s.len() > 0 && s[0].id != id {
        let rest = s.drop_first();
        lemma_backlog_idx(rest, id);
        assert(forall|j: int| 1 <= j < s.len() ==> s[j] == #[trigger] rest[j - 1]);
        if backlog_idx(rest, id) == -1 {
            assert forall|j: int| 0 <= j < s.len() implies s[j].id != id by {
                if j >= 1 {
                    assert(s[j] == rest[j - 1]);
                }
            }
        } else {
            let i = backlog_idx(rest, id) + 1;
            assert(s[i] == rest[i - 1]);
            assert forall|j: int| 0 <= j < i implies s[j].id != id by {
                if j >= 1 {
                    assert(s[j] == rest[j - 1]);
                }
            }
        }
    }
}

/// First index of the estimated story with id `id`, or `-1`.
pub open spec fn estimated_idx(s: Seq<EstimatedStoryV>, id: u128) -> int
    decreases s.len(),
{
    if s.len() == 0 {
        -1
    } else if s[0].id == id {
        0
    } else if estimated_idx(s.drop_first(), id) == -1 {
        -1
    } else {
        estimated_idx(s.drop_first(), id) + 1
    }
}

pub proof fn lemma_estimated_idx(s: Seq<EstimatedStoryV>, id: u128)
    ensures
        estimated_idx(s, id) == -1 ==> forall|j: int| 0 <= j < s.len() ==> s[j].id != id,
        estimated_idx(s, id) != -1 ==> {
            let i = estimated_idx(s, id);
            &&& 0 <= i < s.len()
            &&& s[i].id == id
            &&& forall|j: int| 0 <= j < i ==> s[j].id != id
        },
    decreases s.len(),
{
    if s.len() > 0 && s[0].id != id {
        let rest = s.drop_first();
        lemma_estimated_idx(rest, id);
        assert(forall|j: int| 1 <= j < s.len() ==> s[j] == #[trigger] rest[j - 1]);
        if estimated_idx(rest, id) == -1 {
            assert forall|j: int| 0 <= j < s.len() implies s[j].id != id by {
                if j >= 1 {
                    assert(s[j] == rest[j - 1]);
                }
            }
        } else {
            let i = estimated_idx(rest, id) + 1;
            assert(s[i] == rest[i - 1]);
            assert forall|j: int| 0 <= j < i implies s[j].id != id by {
                if j >= 1 {
                    assert(s[j] == rest[j - 1]);
                }
            }
        }
    }
}

impl GameV {
    pub open spec fn has_player(self, id: u128) -> bool {
        player_idx(self.players, id) >= 0
    }

    /// Whether `id` names a known player whose role is `Admin`.
    pub open spec fn is_admin(self, id: u128) -> bool {
        &&& self.has_player(id)
        &&& self.players[player_idx(self.players, id)].role == PlayerRole::Admin
    }

    /// Whether a story id is present anywhere in the session: backlog,
    /// the story under estimation, or the finished estimates.
    pub open spec fn story_id_present(self, id: u128) -> bool {
        ||| backlog_idx(self.backlog, id) >= 0
        ||| estimated_idx(self.estimated, id) >= 0
        ||| (self.selected matches Some(s) && s.id == id)
    }
}

/// `PlayerJoined`: a returning player is marked active again (keeping
/// name, role and position); an unknown user is appended as an active
/// plain `Player`.
pub open spec fn apply_player_joined(g: GameV, u: UserV) -> GameV {
    let i = player_idx(g.players, u.id);
    if i >= 0 {
        GameV { players: g.players.update(i, PlayerV { active: true, ..g.players[i] }), ..g }
    } else {
        GameV {
            players: g.players.push(PlayerV { user: u, role: PlayerRole::Player, active: true }),
            ..g
        }
    }
}

/// `PlayerLeft`: a known player is marked inactive; entry and votes are
/// kept.
pub open spec fn apply_player_left(g: GameV, id: u128) -> GameV {
    let i = player_idx(g.players, id);
    if i >= 0 {
        GameV { players: g.players.update(i, PlayerV { active: false, ..g.players[i] }), ..g }
    } else {
        g
    }
}

/// `StoriesAdded`: appends the given stories to the backlog in order,
/// skipping every story whose id is already present in the session.
pub open spec fn apply_stories_added(g: GameV, stories: Seq<BacklogStoryV>) -> GameV
    decreases stories.len(),
{
    if stories.len() == 0 {
        g
    } else {
        let g1 = if g.story_id_present(stories[0].id) {
            g
        } else {
            GameV { backlog: g.backlog.push(stories[0]), ..g }
        };
        apply_stories_added(g1, stories.drop_first())
    }
}

/// `StoryUpdated`: replaces the payload of a present backlog entry.
pub open spec fn apply_story_updated(g: GameV, id: u128, info: StoryInfoV) -> GameV {
    let i = backlog_idx(g.backlog, id);
    if i >= 0 {
        GameV { backlog: g.backlog.update(i, BacklogStoryV { info, ..g.backlog[i] }), ..g }
    } else {
        g
    }
}

/// `StoryPositionChanged`: moves a present backlog entry to `idx`,
/// shifting the entries in between; out-of-range targets are ignored.
pub open spec fn apply_position_changed(g: GameV, id: u128, idx: int) -> GameV {
    if idx < 0 || idx >= g.backlog.len() {
        g
    } else {
        let i = backlog_idx(g.backlog, id);
        if i >= 0 {
            let s = g.backlog[i];
            GameV { backlog: g.backlog.remove(i).insert(idx, s), ..g }
        } else {
            g
        }
    }
}

/// `StoryRemoved`: removes a present backlog entry.
pub open spec fn apply_story_removed(g: GameV, id: u128) -> GameV {
    let i = backlog_idx(g.backlog, id);
    if i >= 0 {
        GameV { backlog: g.backlog.remove(i), ..g }
    } else {
        g
    }
}

/// `VotingClosed` (also the first half of `VotingOpened`): the story
/// under estimation, if any, returns to the front of the backlog; its
/// votes are discarded.
pub open spec fn close_selected(g: GameV) -> GameV {
    match g.selected {
        Some(s) => GameV {
            backlog: g.backlog.insert(0, BacklogStoryV { id: s.id, info: s.info }),
            selected: None,
            ..g
        },
        None => g,
    }
}

/// Whether `id` is a valid target for `VotingOpened`: a current backlog
/// entry, or the story already under estimation (reopening it clears
/// its votes).
pub open spec fn voting_target_present(g: GameV, id: u128) -> bool {
    ||| backlog_idx(g.backlog, id) >= 0
    ||| (g.selected matches Some(s) && s.id == id)
}

/// `VotingOpened`: with a valid target, any current story returns to
/// the front of the backlog first, then the target leaves the backlog
/// and becomes the story under estimation with no votes cast.  An id
/// that names no story in the session is a no-op.
pub open spec fn apply_voting_opened(g: GameV, id: u128) -> GameV {
    if voting_target_present(g, id) {
        let g1 = close_selected(g);
        let i = backlog_idx(g1.backlog, id);
        if i >= 0 {
            GameV {
                backlog: g1.backlog.remove(i),
                selected: Some(
                    SelectedStoryV {
                        id: g1.backlog[i].id,
                        info: g1.backlog[i].info,
                        votes: Seq::empty(),
                        votes_revealed: false,
                    },
                ),
                ..g1
            }
        } else {
            g1
        }
    } else {
        g
    }
}

/// `VoteCasted`: while a story is selected and its votes are still
/// hidden, records the actor's vote, overwriting an earlier one.
pub open spec fn apply_vote_casted(g: GameV, actor: u128, v: int) -> GameV {
    match g.selected {
        Some(s) => if !s.votes_revealed {
            GameV {
                selected: Some(SelectedStoryV { votes: upsert_vote(s.votes, actor, v), ..s }),
                ..g
            }
        } else {
            g
        },
        None => g,
    }
}

/// `VotesRevealed`: makes hidden, non-empty votes visible.
pub open spec fn apply_votes_revealed(g: GameV) -> GameV {
    match g.selected {
        Some(s) => if !s.votes_revealed && s.votes.len() > 0 {
            GameV { selected: Some(SelectedStoryV { votes_revealed: true, ..s }), ..g }
        } else {
            g
        },
        None => g,
    }
}

/// `VotesCleared`: drops all cast votes and hides them again; the story
/// stays selected.
pub open spec fn apply_votes_cleared(g: GameV) -> GameV {
    match g.selected {
        Some(s) => GameV {
            selected: Some(
                SelectedStoryV { votes: Seq::empty(), votes_revealed: false, ..s },
            ),
            ..g
        },
        None => g,
    }
}

/// `ResultsApproved`: once votes are revealed and non-empty, the story
/// moves to the finished estimates under the explicit estimate, or under
/// the allowed value closest to the vote average (ties toward the
/// smaller value).
pub open spec fn apply_results_approved(g: GameV, est: Option<int>) -> GameV {
    match g.selected {
        Some(s) => if s.votes_revealed && s.votes.len() > 0 {
            let e = match est {
                Some(v) => v,
                None => closest_allowed(sum_votes(s.votes), s.votes.len() as int),
            };
            GameV {
                selected: None,
                estimated: g.estimated.push(
                    EstimatedStoryV { id: s.id, info: s.info, estimate: e },
                ),
                ..g
            }
        } else {
            g
        },
        None => g,
    }
}

/// Whether an action is gated on the `Admin` role.
pub open spec fn is_admin_gated(a: ActionV) -> bool {
    match a {
        ActionV::StoriesAdded(_) => true,
        ActionV::StoryUpdated(_, _) => true,
        ActionV::StoryRemoved(_) => true,
        ActionV::VotingOpened(_) => true,
        ActionV::VotingClosed => true,
        ActionV::VotesRevealed => true,
        ActionV::VotesCleared => true,
        ActionV::ResultsApproved(_) => true,
        _ => false,
    }
}

/// The reducer: total and pure.  `PlayerJoined` is open to anyone; every
/// other action requires a known acting player; admin-gated actions by a
/// plain player fall through to a no-op.
pub open spec fn apply(g: GameV, actor: u128, a: ActionV) -> GameV {
    match a {
        ActionV::PlayerJoined(u) => apply_player_joined(g, u),
        _ => {
            if !g.has_player(actor) {
                g
            } else {
                let admin = g.is_admin(actor);
                match a {
                    ActionV::PlayerJoined(_) => g,
                    ActionV::PlayerLeft => apply_player_left(g, actor),
                    ActionV::StoriesAdded(ss) => if admin {
                        apply_stories_added(g, ss)
                    } else {
                        g
                    },
                    ActionV::StoryUpdated(id, info) => if admin {
                        apply_story_updated(g, id, info)
                    } else {
                        g
                    },
                    ActionV::StoryPositionChanged(id, idx) => apply_position_changed(g, id, idx),
                    ActionV::StoryRemoved(id) => if admin {
                        apply_story_removed(g, id)
                    } else {
                        g
                    },
                    ActionV::VotingOpened(id) => if admin {
                        apply_voting_opened(g, id)
                    } else {
                        g
                    },
                    ActionV::VotingClosed => if admin {
                        close_selected(g)
                    } else {
                        g
                    },
                    ActionV::VoteCasted(v) => apply_vote_casted(g, actor, v),
                    ActionV::VotesRevealed => if admin {
                        apply_votes_revealed(g)
                    } else {
                        g
                    },
                    ActionV::VotesCleared => if admin {
                        apply_votes_cleared(g)
                    } else {
                        g
                    },
                    ActionV::ResultsApproved(e) => if admin {
                        apply_results_approved(g, e)
                    } else {
                        g
                    },
                }
            }
        },
    }
}

/// One session's full state.
pub struct Game {
    pub id: GameId,
    pub players: Vec<Player>,
    pub backlog_stories: Vec<BacklogStory>,
    pub estimated_stories: Vec<EstimatedStory>,
    pub selected_story: Option<SelectedStory>,
}

impl View for Game {
    type V = GameV;

    open spec fn view(&self) -> GameV {
        GameV {
            id: self.id.0,
            players: players_view(self.players@),
            backlog: backlog_view(self.backlog_stories@),
            estimated: estimated_view(self.estimated_stories@),
            selected: match self.selected_story {
                Some(s) => Some(s@),
                None => None,
            },
        }
    }
}

impl Game {
    /// A fresh session under a random id: its creator is the only player,
    /// an active `Admin`; no stories, no selection yet.
    pub fn new(user: User) -> (r: Self)
        ensures
            r@.players == seq![PlayerV { user: user@, role: PlayerRole::Admin, active: true }],
            r@.backlog == Seq::<BacklogStoryV>::empty(),
            r@.estimated == Seq::<EstimatedStoryV>::empty(),
            r@.selected is None,
    {
        let player = Player::new_admin(user);
        let players = vec![player];
        let r = Game {
            id: GameId(fresh_token()),
            players,
            backlog_stories: Vec::new(),
            estimated_stories: Vec::new(),
            selected_story: None,
        };
        proof {
            assert(r@.players =~= seq![
                PlayerV { user: user@, role: PlayerRole::Admin, active: true },
            ]);
            assert(r@.backlog =~= Seq::<BacklogStoryV>::empty());
            assert(r@.estimated =~= Seq::<EstimatedStoryV>::empty());
        }
        r
    }

    pub fn is_user_admin(&self, user_id: &UserId) -> (r: bool)
        ensures
            r == self@.is_admin(user_id.0),
    {
        match find_player(&self.players, *user_id) {
            Some(i) => {
                let is_admin = matches!(self.players[i].role, PlayerRole::Admin);
                proof {
                    assert(self@.players[i as int] == self.players@[i as int]@);
                }
                is_admin
            },
            None => false,
        }
    }

    /// The currently connected players, in join order.
    pub fn to_active_players(&self) -> (r: Vec<Player>)
        ensures
            players_view(r@) == active_players(self@.players),
    {
        let mut r: Vec<Player> = Vec::new();
        let mut i: usize = 0;
        proof {
            assert(players_view(r@) =~= active_players(self@.players.take(0)));
        }
        while i < self.players.len()
            invariant
                i <= self.players.len(),
                players_view(r@) == active_players(self@.players.take(i as int)),
            decreases self.players.len() - i,
        {
            proof {
                assert(self@.players.take(i as int + 1).drop_last() =~= self@.players.take(
                    i as int,
                ));
                assert(self@.players.take(i as int + 1).last() == self@.players[i as int]);
                assert(self@.players[i as int] == self.players@[i as int]@);
            }
            if self.players[i].active {
                r.push(self.players[i].clone());
                proof {
                    assert(players_view(r@) =~= active_players(self@.players.take(i as int + 1)));
                }
            } else {
                proof {
                    assert(players_view(r@) =~= active_players(self@.players.take(i as int + 1)));
                }
            }
            i += 1;
        }
        proof {
            assert(self@.players.take(self.players@.len() as int) =~= self@.players);
        }
        r
    }
}

/// The active players, in order.
pub open spec fn active_players(s: Seq<PlayerV>) -> Seq<PlayerV>
    decreases s.len(),
{
    if s.len() == 0 {
        Seq::empty()
    } else if s.last().active {
        active_players(s.drop_last()).push(s.last())
    } else {
        active_players(s.drop_last())
    }
}

impl Game {
    /// Applies one action for one acting user; exactly the spec reducer
    /// [`apply`] on the views.  Total: invalid and unauthorized actions
    /// leave the state unchanged.
    pub fn update(&mut self, user_id: UserId, action: GameAction)
        ensures
            final(self)@ == apply(old(self)@, user_id.0, action@),
    {
        match action {
            GameAction::PlayerJoined(user) => {
                self.add_player(user);
            },
            other => {
                let ghost a = other@;
                match find_player(&self.players, user_id) {
                    None => {},
                    Some(i) => {
                        let is_admin = matches!(self.players[i].role, PlayerRole::Admin);
                        proof {
                            assert(self@.players[i as int] == self.players@[i as int]@);
                            assert(is_admin == old(self)@.is_admin(user_id.0));
                        }
                        match other {
                            GameAction::PlayerJoined(_) => {},
                            GameAction::PlayerLeft => {
                                self.remove_player(&user_id);
                            },
                            GameAction::StoriesAdded(stories) => {
                                if is_admin {
                                    self.add_stories(stories);
                                }
                            },
                            GameAction::StoryUpdated(story_id, info) => {
                                if is_admin {
                                    self.update_story(story_id, info);
                                }
                            },
                            GameAction::StoryPositionChanged(story_id, idx) => {
                                self.change_story_position(story_id, idx);
                            },
                            GameAction::StoryRemoved(story_id) => {
                                if is_admin {
                                    self.remove_story(story_id);
                                }
                            },
                            GameAction::VotingOpened(story_id) => {
                                if is_admin {
                                    self.open_story_for_voting(story_id);
                                }
                            },
                            GameAction::VotingClosed => {
                                if is_admin {
                                    self.close_story_for_voting();
                                }
                            },
                            GameAction::VoteCasted(vote) => {
                                self.cast_vote(user_id, vote);
                            },
                            GameAction::VotesRevealed => {
                                if is_admin {
                                    self.reveal_votes();
                                }
                            },
                            GameAction::VotesCleared => {
                                if is_admin {
                                    self.clear_votes();
                                }
                            },
                            GameAction::ResultsApproved(estimate) => {
                                if is_admin {
                                    self.accept_round(estimate);
                                }
                            },
                        }
                    },
                }
            },
        }
    }

    fn add_player(&mut self, user: User)
        ensures
            final(self)@ == apply_player_joined(old(self)@, user@),
    {
        match find_player(&self.players, user.id) {
            Some(i) => {
                let ghost pv0 = self@.players;
                let p = &mut self.players[i];
                p.active = true;
                proof {
                    assert(self@.players =~= pv0.update(
                        i as int,
                        PlayerV { active: true, ..pv0[i as int] },
                    ));
                    assert(self@ =~= apply_player_joined(old(self)@, user@));
                }
            },
            None => {
                self.players.push(Player::new(user.clone(), PlayerRole::Player));
                proof {
                    assert(self@.players =~= old(self)@.players.push(
                        PlayerV { user: user@, role: PlayerRole::Player, active: true },
                    ));
                    assert(self@ =~= apply_player_joined(old(self)@, user@));
                }
            },
        }
    }

    fn remove_player(&mut self, user_id: &UserId)
        ensures
            final(self)@ == apply_player_left(old(self)@, user_id.0),
    {
        match find_player(&self.players, *user_id) {
            Some(i) => {
                let ghost pv0 = self@.players;
                let p = &mut self.players[i];
                p.active = false;
                proof {
                    assert(self@.players =~= pv0.update(
                        i as int,
                        PlayerV { active: false, ..pv0[i as int] },
                    ));
                    assert(self@ =~= apply_player_left(old(self)@, user_id.0));
                }
            },
            None => {},
        }
    }

    /// Whether a story id occurs anywhere in the session.
    fn has_story_id(&self, id: StoryId) -> (r: bool)
        ensures
            r == self@.story_id_present(id.0),
    {
        if find_backlog(&self.backlog_stories, id).is_some() {
            return true;
        }
        if find_estimated(&self.estimated_stories, id).is_some() {
            return true;
        }
        match &self.selected_story {
            Some(s) => s.id.0 == id.0,
            None => false,
        }
    }

    fn add_stories(&mut self, stories: Vec<BacklogStory>)
        ensures
            final(self)@ == apply_stories_added(old(self)@, backlog_view(stories@)),
    {
        let ghost sv = backlog_view(stories@);
        let ghost target = apply_stories_added(self@, sv);
        let mut i: usize = 0;
        proof {
            assert(sv.skip(0) =~= sv);
        }
        while i < stories.len()
            invariant
                i <= stories.len(),
                sv == backlog_view(stories@),
                target == apply_stories_added(self@, sv.skip(i as int)),
            decreases stories.len() - i,
        {
            let ghost g0 = self@;
            let ghost rest = sv.skip(i as int);
            proof {
                assert(rest[0] == stories@[i as int]@);
                assert(rest.drop_first() =~= sv.skip(i as int + 1));
            }
            if !self.has_story_id(stories[i].id) {
                let s = stories[i].clone();
                self.backlog_stories.push(s);
                proof {
                    assert(self@.backlog =~= g0.backlog.push(stories@[i as int]@));
                    assert(self@ =~= (GameV { backlog: g0.backlog.push(rest[0]), ..g0 }));
                }
            }
            i += 1;
        }
        proof {
            assert(sv.skip(stories@.len() as int) =~= Seq::<BacklogStoryV>::empty());
        }
    }

    fn update_story(&mut self, story_id: StoryId, info: StoryInfo)
        ensures
            final(self)@ == apply_story_updated(old(self)@, story_id.0, info@),
    {
        match find_backlog(&self.backlog_stories, story_id) {
            Some(i) => {
                let ghost bv0 = self@.backlog;
                let s = &mut self.backlog_stories[i];
                s.info = info;
                proof {
                    assert(self@.backlog =~= bv0.update(
                        i as int,
                        BacklogStoryV { info: s.info@, ..bv0[i as int] },
                    ));
                    assert(self@ =~= apply_story_updated(old(self)@, story_id.0, s.info@));
                }
            },
            None => {},
        }
    }

    fn change_story_position(&mut self, story_id: StoryId, new_idx: usize)
        ensures
            final(self)@ == apply_position_changed(old(self)@, story_id.0, new_idx as int),
    {
        if new_idx >= self.backlog_stories.len() {
            return;
        }
        match find_backlog(&self.backlog_stories, story_id) {
            Some(i) => {
                let s = self.backlog_stories.remove(i);
                let ghost mid = self.backlog_stories@;
                proof {
                    assert(backlog_view(mid) =~= old(self)@.backlog.remove(i as int));
                }
                self.backlog_stories.insert(new_idx, s);
                proof {
                    assert(self@.backlog =~= backlog_view(mid).insert(new_idx as int, s@));
                    assert(self@ =~= apply_position_changed(old(self)@, story_id.0,
                        new_idx as int));
                }
            },
            None => {},
        }
    }

    fn remove_story(&mut self, story_id: StoryId)
        ensures
            final(self)@ == apply_story_removed(old(self)@, story_id.0),
    {
        match find_backlog(&self.backlog_stories, story_id) {
            Some(i) => {
                self.backlog_stories.remove(i);
                proof {
                    assert(self@.backlog =~= old(self)@.backlog.remove(i as int));
                    assert(self@ =~= apply_story_removed(old(self)@, story_id.0));
                }
            },
            None => {},
        }
    }

    fn close_story_for_voting(&mut self)
        ensures
            final(self)@ == close_selected(old(self)@),
    {
        let mut prev: Option<SelectedStory> = None;
        core::mem::swap(&mut prev, &mut self.selected_story);
        match prev {
            Some(story) => {
                let b = story.into_backlog();
                self.backlog_stories.insert(0, b);
                proof {
                    assert(self@.backlog =~= old(self)@.backlog.insert(0, b@));
                    assert(self@ =~= close_selected(old(self)@));
                }
            },
            None => {},
        }
    }

    fn open_story_for_voting(&mut self, story_id: StoryId)
        ensures
            final(self)@ == apply_voting_opened(old(self)@, story_id.0),
    {
        let in_backlog = find_backlog(&self.backlog_stories, story_id).is_some();
        let is_selected = match &self.selected_story {
            Some(s) => s.id.0 == story_id.0,
            None => false,
        };
        if !in_backlog && !is_selected {
            return;
        }
        self.close_story_for_voting();
        let ghost g1 = self@;
        match find_backlog(&self.backlog_stories, story_id) {
            Some(i) => {
                let s = self.backlog_stories.remove(i);
                let sel = s.select_for_estimation();
                self.selected_story = Some(sel);
                proof {
                    assert(self@.backlog =~= g1.backlog.remove(i as int));
                    assert(self@ =~= apply_voting_opened(old(self)@, story_id.0));
                }
            },
            None => {},
        }
    }

    fn cast_vote(&mut self, player_id: UserId, vote: Vote)
        ensures
            final(self)@ == apply_vote_casted(old(self)@, player_id.0, vote@),
    {
        match &mut self.selected_story {
            Some(story) => {
                if !story.votes_revealed {
                    story.add_vote(player_id, vote);
                }
            },
            None => {},
        }
    }

    fn reveal_votes(&mut self)
        ensures
            final(self)@ == apply_votes_revealed(old(self)@),
    {
        match &mut self.selected_story {
            Some(story) => {
                if !story.votes_revealed && !story.votes.is_empty() {
                    story.reveal_votes();
                }
            },
            None => {},
        }
    }

    fn clear_votes(&mut self)
        ensures
            final(self)@ == apply_votes_cleared(old(self)@),
    {
        match &mut self.selected_story {
            Some(story) => {
                story.clear_votes();
            },
            None => {},
        }
    }

    fn accept_round(&mut self, estimate: Option<Vote>)
        ensures
            final(self)@ == apply_results_approved(
                old(self)@,
                match estimate {
                    Some(v) => Some(v@),
                    None => None::<int>,
                },
            ),
    {
        let can = match &self.selected_story {
            Some(s) => s.can_accept(),
            None => false,
        };
        if !can {
            return;
        }
        let mut taken: Option<SelectedStory> = None;
        core::mem::swap(&mut taken, &mut self.selected_story);
        let story = match taken {
            Some(s) => s,
            None => {
                proof {
                    assert(false);
                }
                unreached()
            },
        };
        let est = match estimate {
            Some(e) => e,
            None => {
                let sum = story.votes_sum();
                let count = story.votes.len();
                Vote::closest_to_average(sum, count)
            },
        };
        let es = story.accept_with_estimate(est);
        self.estimated_stories.push(es);
        proof {
            assert(self@.estimated =~= old(self)@.estimated.push(es@));
            assert(self@ =~= apply_results_approved(
                old(self)@,
                match estimate {
                    Some(v) => Some(v@),
                    None => None::<int>,
                },
            ));
        }
    }
}

/// First index of the player with user id `id` in the vector, or `None`.
fn find_player(players: &Vec<Player>, id: UserId) -> (r: Option<usize>)
    ensures
        match r {
            Some(j) => j < players@.len() && player_idx(players_view(players@), id.0) == j as int,
            None => player_idx(players_view(players@), id.0) == -1,
        },
{
    let ghost pv = players_view(players@);
    let mut i: usize = 0;
    while i < players.len()
        invariant
            i <= players.len(),
            pv == players_view(players@),
            forall|j: int| 0 <= j < i ==> pv[j].user.id != id.0,
        decreases players.len() - i,
    {
        proof {
            assert(pv[i as int] == players@[i as int]@);
        }
        if players[i].user.id.0 == id.0 {
            proof {
                lemma_player_idx(pv, id.0);
            }
            return Some(i);
        }
        i += 1;
    }
    proof {
        lemma_player_idx(pv, id.0);
    }
    None
}

/// First index of the backlog story with id `id` in the vector, or `None`.
fn find_backlog(stories: &Vec<BacklogStory>, id: StoryId) -> (r: Option<usize>)
    ensures
        match r {
            Some(j) => j < stories@.len() && backlog_idx(backlog_view(stories@), id.0) == j as int,
            None => backlog_idx(backlog_view(stories@), id.0) == -1,
        },
{
    let ghost bv = backlog_view(stories@);
    let mut i: usize = 0;
    while i < stories.len()
        invariant
            i <= stories.len(),
            bv == backlog_view(stories@),
            forall|j: int| 0 <= j < i ==> bv[j].id != id.0,
        decreases stories.len() - i,
    {
        proof {
            assert(bv[i as int] == stories@[i as int]@);
        }
        if stories[i].id.0 == id.0 {
            proof {
                lemma_backlog_idx(bv, id.0);
            }
            return Some(i);
        }
        i += 1;
    }
    proof {
        lemma_backlog_idx(bv, id.0);
    }
    None
}

/// First index of the estimated story with id `id` in the vector, or `None`.
fn find_estimated(stories: &Vec<EstimatedStory>, id: StoryId) -> (r: Option<usize>)
    ensures
        match r {
            Some(j) => j < stories@.len() && estimated_idx(estimated_view(stories@), id.0) == j as int,
            None => estimated_idx(estimated_view(stories@), id.0) == -1,
        },
{
    let ghost ev = estimated_view(stories@);
    let mut i: usize = 0;
    while i < stories.len()
        invariant
            i <= stories.len(),
            ev == estimated_view(stories@),
            forall|j: int| 0 <= j < i ==> ev[j].id != id.0,
        decreases stories.len() - i,
    {
        proof {
            assert(ev[i as int] == stories@[i as int]@);
        }
        if stories[i].id.0 == id.0 {
            proof {
                lemma_estimated_idx(ev, id.0);
            }
            return Some(i);
        }
        i += 1;
    }
    proof {
        lemma_estimated_idx(ev, id.0);
    }
    None
}

} // verus!
