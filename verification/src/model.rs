//! Domain entities: users, players, stories in their three lifecycle
//! stages, and the votes cast on the story currently under estimation.
//!
//! Each executable type has a ghost view (`...V`) over mathematical types;
//! all contracts are stated over those views.

use vstd::prelude::*;

use crate::ids::{fresh_token, StoryId, UserId};
use crate::vote::Vote;

verus! {

/// A participant as the client introduces itself: an id and a display name.
pub struct User {
    pub id: UserId,
    pub name: String,
}

#[verifier::ext_equal]
pub ghost struct UserV {
    pub id: u128,
    pub name: Seq<char>,
}

impl View for User {
    type V = UserV;

    open spec fn view(&self) -> UserV {
        UserV { id: self.id.0, name: self.name@ }
    }
}

impl Clone for User {
    fn clone(&self) -> (r: Self)
        ensures
            r == *self,
    {
        User { id: self.id, name: self.name.clone() }
    }
}

impl User {
    /// A new user under a fresh random id.
    pub fn new(name: String) -> (r: Self)
        ensures
            r@.name == name@,
    {
        User { id: UserId(fresh_token()), name }
    }
}

/// What a player may do: the session creator is `Admin`, later joiners are
/// plain `Player`s.
#[derive(Clone, Copy, PartialEq, Eq, Structural, Debug)]
pub enum PlayerRole {
    Admin,
    Player,
}

/// A user's standing inside one game: role and whether the connection is
/// currently live.  Inactive players are retained so their votes survive a
/// reconnect.
pub struct Player {
    pub user: User,
    pub role: PlayerRole,
    pub active: bool,
}

#[verifier::ext_equal]
pub ghost struct PlayerV {
    pub user: UserV,
    pub role: PlayerRole,
    pub active: bool,
}

impl View for Player {
    type V = PlayerV;

    open spec fn view(&self) -> PlayerV {
        PlayerV { user: self.user@, role: self.role, active: self.active }
    }
}

impl Clone for Player {
    fn clone(&self) -> (r: Self)
        ensures
            r == *self,
    {
        Player { user: self.user.clone(), role: self.role, active: self.active }
    }
}

impl Player {
    pub fn new(user: User, role: PlayerRole) -> (r: Self)
        ensures
            r@ == (PlayerV { user: user@, role, active: true }),
    {
        Player { user, role, active: true }
    }

    pub fn new_admin(user: User) -> (r: Self)
        ensures
            r@ == (PlayerV { user: user@, role: PlayerRole::Admin, active: true }),
    {
        Player::new(user, PlayerRole::Admin)
    }
}

/// The mutable payload of a backlog entry.
pub struct StoryInfo {
    pub title: String,
}

#[verifier::ext_equal]
pub ghost struct StoryInfoV {
    pub title: Seq<char>,
}

impl View for StoryInfo {
    type V = StoryInfoV;

    open spec fn view(&self) -> StoryInfoV {
        StoryInfoV { title: self.title@ }
    }
}

impl Clone for StoryInfo {
    fn clone(&self) -> (r: Self)
        ensures
            r == *self,
    {
        StoryInfo { title: self.title.clone() }
    }
}

/// A story waiting in the backlog, not yet estimated.
pub struct BacklogStory {
    pub id: StoryId,
    pub info: StoryInfo,
}

#[verifier::ext_equal]
pub ghost struct BacklogStoryV {
    pub id: u128,
    pub info: StoryInfoV,
}

impl View for BacklogStory {
    type V = BacklogStoryV;

    open spec fn view(&self) -> BacklogStoryV {
        BacklogStoryV { id: self.id.0, info: self.info@ }
    }
}

impl Clone for BacklogStory {
    fn clone(&self) -> (r: Self)
        ensures
            r == *self,
    {
        BacklogStory { id: self.id, info: self.info.clone() }
    }
}

impl BacklogStory {
    /// A new backlog entry under a fresh random id.
    pub fn new(info: StoryInfo) -> (r: Self)
        ensures
            r@.info == info@,
    {
        BacklogStory { id: StoryId(fresh_token()), info }
    }

    /// Promotes this entry to the story under estimation, with no votes
    /// cast yet.
    pub fn select_for_estimation(&self) -> (r: SelectedStory)
        ensures
            r@ == (SelectedStoryV {
                id: self@.id,
                info: self@.info,
                votes: Seq::empty(),
                votes_revealed: false,
            }),
    {
        let r = SelectedStory {
            id: self.id,
            info: self.info.clone(),
            votes: Vec::new(),
            votes_revealed: false,
        };
        proof {
            assert(r@.votes =~= Seq::<VoteEntryV>::empty());
        }
        r
    }
}

/// One cast vote: who voted and what.
#[derive(Clone, Copy)]
pub struct CastVote {
    pub user_id: UserId,
    pub vote: Vote,
}

#[verifier::ext_equal]
pub ghost struct VoteEntryV {
    pub user_id: u128,
    pub vote: int,
}

impl View for CastVote {
    type V = VoteEntryV;

    open spec fn view(&self) -> VoteEntryV {
        VoteEntryV { user_id: self.user_id.0, vote: self.vote@ }
    }
}

/// The single story currently open for (or just finished with) a voting
/// round: cast votes are hidden until revealed.
pub struct SelectedStory {
    pub id: StoryId,
    pub info: StoryInfo,
    pub votes: Vec<CastVote>,
    pub votes_revealed: bool,
}

#[verifier::ext_equal]
pub ghost struct SelectedStoryV {
    pub id: u128,
    pub info: StoryInfoV,
    pub votes: Seq<VoteEntryV>,
    pub votes_revealed: bool,
}

impl View for SelectedStory {
    type V = SelectedStoryV;

    open spec fn view(&self) -> SelectedStoryV {
        SelectedStoryV {
            id: self.id.0,
            info: self.info@,
            votes: self.votes@.map_values(|v: CastVote| v@),
            votes_revealed: self.votes_revealed,
        }
    }
}

impl Clone for SelectedStory {
    fn clone(&self) -> (r: Self)
        ensures
            r@ == self@,
    {
        let mut votes: Vec<CastVote> = Vec::new();
        let mut i: usize = 0;
        while i < self.votes.len()
            invariant
                i <= self.votes.len(),
                votes@ == self.votes@.take(i as int),
            decreases self.votes.len() - i,
        {
            votes.push(self.votes[i]);
            proof {
                assert(votes@ =~= self.votes@.take(i as int + 1));
            }
            i += 1;
        }
        proof {
            assert(votes@ =~= self.votes@);
        }
        SelectedStory {
            id: self.id,
            info: self.info.clone(),
            votes,
            votes_revealed: self.votes_revealed,
        }
    }
}

/// A finished story together with its final estimate; immutable once made.
pub struct EstimatedStory {
    pub id: StoryId,
    pub info: StoryInfo,
    pub estimate: Vote,
}

#[verifier::ext_equal]
pub ghost struct EstimatedStoryV {
    pub id: u128,
    pub info: StoryInfoV,
    pub estimate: int,
}

impl View for EstimatedStory {
    type V = EstimatedStoryV;

    open spec fn view(&self) -> EstimatedStoryV {
        EstimatedStoryV { id: self.id.0, info: self.info@, estimate: self.estimate@ }
    }
}

impl Clone for EstimatedStory {
    fn clone(&self) -> (r: Self)
        ensures
            r@ == self@,
    {
        EstimatedStory { id: self.id, info: self.info.clone(), estimate: self.estimate }
    }
}

/// First index of `id` among the cast votes, or `-1`.
pub open spec fn vote_idx(votes: Seq<VoteEntryV>, id: u128) -> int
    decreases votes.len(),
{
    if votes.len() == 0 {
        -1
    } else if votes[0].user_id == id {
        0
    } else if vote_idx(votes.drop_first(), id) == -1 {
        -1
    } else {
        vote_idx(votes.drop_first(), id) + 1
    }
}

/// `vote_idx` finds the first entry of `id`: `-1` means no entry carries
/// `id`, otherwise the index carries `id` and nothing before it does.
pub proof fn lemma_vote_idx(votes: Seq<VoteEntryV>, id: u128)
    ensures
        vote_idx(votes, id) == -1 ==> forall|j: int|
            0 <= j < votes.len() ==> votes[j].user_id != id,
        vote_idx(votes, id) != -1 ==> {
            let i = vote_idx(votes, id);
            &&& 0 <= i < votes.len()
            &&& votes[i].user_id == id
            &&& forall|j: int| 0 <= j < i ==> votes[j].user_id != id
        },
    decreases votes.len(),
{
    if votes.len() > 0 && votes[0].user_id != id {
        let rest = votes.drop_first();
        lemma_vote_idx(rest, id);
        assert(forall|j: int| 1 <= j < votes.len() ==> votes[j] == #[trigger] rest[j - 1]);
        if vote_idx(rest, id) == -1 {
            assert forall|j: int| 0 <= j < votes.len() implies votes[j].user_id != id by {
                if j >= 1 {
                    assert(votes[j] == rest[j - 1]);
                }
            }
        } else {
            let i = vote_idx(rest, id) + 1;
            assert(votes[i] == rest[i - 1]);
            assert forall|j: int| 0 <= j < i implies votes[j].user_id != id by {
                if j >= 1 {
                    assert(votes[j] == rest[j - 1]);
                }
            }
        }
    }
}

/// Overwrites `id`'s vote in place, or appends a new entry for `id`.
pub open spec fn upsert_vote(votes: Seq<VoteEntryV>, id: u128, v: int) -> Seq<VoteEntryV> {
    let i = vote_idx(votes, id);
    if i >= 0 {
        votes.update(i, VoteEntryV { user_id: id, vote: v })
    } else {
        votes.push(VoteEntryV { user_id: id, vote: v })
    }
}

/// Sum of the cast vote values.
pub open spec fn sum_votes(votes: Seq<VoteEntryV>) -> int
    decreases votes.len(),
{
    if votes.len() == 0 {
        0
    } else {
        sum_votes(votes.drop_last()) + votes.last().vote
    }
}

impl SelectedStory {
    /// A round can be accepted once votes exist and have been revealed.
    pub fn can_accept(&self) -> (r: bool)
        ensures
            r == (self@.votes_revealed && self@.votes.len() > 0),
    {
        self.votes_revealed && !self.votes.is_empty()
    }

    /// Another round makes sense only once votes exist.
    pub fn can_play_again(&self) -> (r: bool)
        ensures
            r == (self@.votes.len() > 0),
    {
        !self.votes.is_empty()
    }

    /// Votes can be revealed once they exist and are still hidden.
    pub fn can_reveal(&self) -> (r: bool)
        ensures
            r == (!self@.votes_revealed && self@.votes.len() > 0),
    {
        !self.votes_revealed && !self.votes.is_empty()
    }

    /// Records `player_id`'s vote, overwriting an earlier one from the
    /// same player.
    pub fn add_vote(&mut self, player_id: UserId, vote: Vote)
        ensures
            final(self)@ == (SelectedStoryV {
                votes: upsert_vote(old(self)@.votes, player_id.0, vote@),
                ..old(self)@
            }),
    {
        let ghost votes0 = self@.votes;
        let mut i: usize = 0;
        while i < self.votes.len()
            invariant
                i <= self.votes.len(),
                *self == *old(self),
                self@.votes == votes0,
                forall|j: int| 0 <= j < i ==> votes0[j].user_id != player_id.0,
            decreases self.votes.len() - i,
        {
            if self.votes[i].user_id.0 == player_id.0 {
                proof {
                    lemma_vote_idx(votes0, player_id.0);
                    assert(votes0[i as int] == self.votes@[i as int]@);
                    assert(votes0[i as int].user_id == player_id.0);
                    assert(vote_idx(votes0, player_id.0) == i);
                }
                self.votes[i] = CastVote { user_id: player_id, vote };
                proof {
                    assert(self@.votes =~= votes0.update(
                        i as int,
                        VoteEntryV { user_id: player_id.0, vote: vote@ },
                    ));
                    assert(final(self)@ == (SelectedStoryV {
                        votes: upsert_vote(votes0, player_id.0, vote@),
                        ..old(self)@
                    }));
                }
                return ;
            }
            i += 1;
        }
        proof {
            lemma_vote_idx(votes0, player_id.0);
            assert(vote_idx(votes0, player_id.0) == -1);
        }
        self.votes.push(CastVote { user_id: player_id, vote });
        proof {
            assert(self@.votes =~= votes0.push(
                VoteEntryV { user_id: player_id.0, vote: vote@ },
            ));
        }
    }

    /// Makes the cast votes visible.
    pub fn reveal_votes(&mut self)
        ensures
            final(self)@ == (SelectedStoryV { votes_revealed: true, ..old(self)@ }),
    {
        self.votes_revealed = true;
    }

    /// Discards all cast votes and hides the (now empty) set again.
    pub fn clear_votes(&mut self)
        ensures
            final(self)@ == (SelectedStoryV {
                votes: Seq::empty(),
                votes_revealed: false,
                ..old(self)@
            }),
    {
        self.votes_revealed = false;
        self.votes.clear();
        proof {
            assert(self@.votes =~= Seq::<VoteEntryV>::empty());
        }
    }

    /// Closes this round under the given final estimate.
    pub fn accept_with_estimate(&self, estimate: Vote) -> (r: EstimatedStory)
        ensures
            r@ == (EstimatedStoryV { id: self@.id, info: self@.info, estimate: estimate@ }),
    {
        EstimatedStory { id: self.id, info: self.info.clone(), estimate }
    }

    /// Returns this story to backlog shape; the cast votes are dropped.
    pub fn into_backlog(self) -> (r: BacklogStory)
        ensures
            r@ == (BacklogStoryV { id: self@.id, info: self@.info }),
    {
        BacklogStory { id: self.id, info: self.info }
    }

    /// Sum of the cast vote values, exactly `sum_votes` of the view.
    pub fn votes_sum(&self) -> (r: u128)
        ensures
            r as int == sum_votes(self@.votes),
    {
        let mut sum: u128 = 0;
        let mut i: usize = 0;
        while i < self.votes.len()
            invariant
                i <= self.votes.len(),
                sum as int == sum_votes(self@.votes.take(i as int)),
                sum <= 100 * (i as u128),
            decreases self.votes.len() - i,
        {
            let v = self.votes[i].vote;
            proof {
                use_type_invariant(v);
                assert(self@.votes.take(i as int + 1).drop_last() =~= self@.votes.take(i as int));
                assert(self@.votes.take(i as int + 1).last() == self@.votes[i as int]);
            }
            sum = sum + (v.value() as u128);
            i += 1;
        }
        proof {
            assert(self@.votes.take(self.votes@.len() as int) =~= self@.votes);
        }
        sum
    }
}

} // verus!
