use planning_poker::game::{Game, GameAction};
use planning_poker::ids::{StoryId, UserId};
use planning_poker::model::{BacklogStory, Player, PlayerRole, StoryInfo, User};
use planning_poker::vote::Vote;

fn user(id: u128, name: &str) -> User {
    User { id: UserId::new(id), name: name.to_string() }
}

fn story(id: u128, title: &str) -> BacklogStory {
    BacklogStory { id: StoryId::new(id), info: StoryInfo { title: title.to_string() } }
}

fn vote(v: i32) -> Vote {
    Vote::new(v).unwrap()
}

/// A session starts with exactly one player: its creator, an active admin.
#[test]
fn create_session_seeds_admin() {
    let g = Game::new(user(1, "ada"));
    assert_eq!(g.players.len(), 1);
    assert_eq!(g.players[0].user.name, "ada");
    assert!(matches!(g.players[0].role, PlayerRole::Admin));
    assert!(g.players[0].active);
    assert!(g.backlog_stories.is_empty());
    assert!(g.estimated_stories.is_empty());
    assert!(g.selected_story.is_none());
    assert!(g.is_user_admin(&UserId::new(1)));
    assert!(!g.is_user_admin(&UserId::new(2)));
}

/// Added stories keep their order; moving one shifts the others.
#[test]
fn backlog_order_and_reposition() {
    let admin = UserId::new(1);
    let mut g = Game::new(user(1, "ada"));
    g.update(admin, GameAction::StoriesAdded(vec![story(10, "A"), story(11, "B")]));
    assert_eq!(g.backlog_stories.len(), 2);
    assert_eq!(g.backlog_stories[0].info.title, "A");
    assert_eq!(g.backlog_stories[1].info.title, "B");

    g.update(admin, GameAction::StoryPositionChanged(StoryId::new(11), 0));
    assert_eq!(g.backlog_stories[0].info.title, "B");
    assert_eq!(g.backlog_stories[1].info.title, "A");
}

/// Three players vote 5, 8, 5; the derived estimate is 5 (mean 6, and
/// |5-6| < |8-6|).
#[test]
fn full_round_derives_estimate() {
    let admin = UserId::new(1);
    let mut g = Game::new(user(1, "ada"));
    g.update(UserId::new(2), GameAction::PlayerJoined(user(2, "bo")));
    g.update(UserId::new(3), GameAction::PlayerJoined(user(3, "cy")));
    assert_eq!(g.to_active_players().len(), 3);

    g.update(admin, GameAction::StoriesAdded(vec![story(10, "A")]));
    g.update(admin, GameAction::VotingOpened(StoryId::new(10)));
    let sel = g.selected_story.as_ref().unwrap();
    assert_eq!(sel.info.title, "A");
    assert!(!sel.votes_revealed);
    assert!(g.backlog_stories.is_empty());

    g.update(UserId::new(1), GameAction::VoteCasted(vote(5)));
    g.update(UserId::new(2), GameAction::VoteCasted(vote(8)));
    g.update(UserId::new(3), GameAction::VoteCasted(vote(5)));
    assert_eq!(g.selected_story.as_ref().unwrap().votes.len(), 3);

    g.update(admin, GameAction::VotesRevealed);
    assert!(g.selected_story.as_ref().unwrap().votes_revealed);

    g.update(admin, GameAction::ResultsApproved(None));
    assert!(g.selected_story.is_none());
    assert_eq!(g.estimated_stories.len(), 1);
    assert_eq!(g.estimated_stories[0].info.title, "A");
    assert_eq!(g.estimated_stories[0].estimate.value(), 5);
}

/// An admin-gated action from a plain player leaves the state
/// byte-for-byte unchanged.
#[test]
fn non_admin_voting_opened_is_noop() {
    let admin = UserId::new(1);
    let mut g = Game::new(user(1, "ada"));
    g.update(UserId::new(2), GameAction::PlayerJoined(user(2, "bo")));
    g.update(admin, GameAction::StoriesAdded(vec![story(10, "A")]));

    let before = planning_poker::codec::snapshot_to_wire(&g);
    g.update(UserId::new(2), GameAction::VotingOpened(StoryId::new(10)));
    let after = planning_poker::codec::snapshot_to_wire(&g);
    assert_eq!(before, after);
    assert!(g.selected_story.is_none());
}

/// Opening a second story returns the first to the backlog (votes
/// discarded, at the front) and selects the new one with no votes.
#[test]
fn reopening_vote_returns_story_to_backlog() {
    let admin = UserId::new(1);
    let mut g = Game::new(user(1, "ada"));
    g.update(admin, GameAction::StoriesAdded(vec![story(10, "X"), story(11, "Y")]));
    g.update(admin, GameAction::VotingOpened(StoryId::new(10)));
    g.update(admin, GameAction::VoteCasted(vote(3)));
    assert_eq!(g.selected_story.as_ref().unwrap().votes.len(), 1);

    g.update(admin, GameAction::VotingOpened(StoryId::new(11)));
    let sel = g.selected_story.as_ref().unwrap();
    assert_eq!(sel.info.title, "Y");
    assert!(sel.votes.is_empty());
    assert_eq!(g.backlog_stories.len(), 1);
    assert_eq!(g.backlog_stories[0].info.title, "X");
}

/// Once votes are revealed, further votes are ignored until cleared.
#[test]
fn votes_frozen_after_reveal() {
    let admin = UserId::new(1);
    let mut g = Game::new(user(1, "ada"));
    g.update(admin, GameAction::StoriesAdded(vec![story(10, "A")]));
    g.update(admin, GameAction::VotingOpened(StoryId::new(10)));
    g.update(admin, GameAction::VoteCasted(vote(3)));
    g.update(admin, GameAction::VotesRevealed);

    let before = planning_poker::codec::snapshot_to_wire(&g);
    g.update(admin, GameAction::VoteCasted(vote(100)));
    let after = planning_poker::codec::snapshot_to_wire(&g);
    assert_eq!(before, after);

    g.update(admin, GameAction::VotesCleared);
    let sel = g.selected_story.as_ref().unwrap();
    assert!(sel.votes.is_empty());
    assert!(!sel.votes_revealed);
}

/// Leaving twice is the same as leaving once, and rejoining reuses the
/// entry.
#[test]
fn player_left_idempotent_and_rejoin() {
    let mut g = Game::new(user(1, "ada"));
    g.update(UserId::new(2), GameAction::PlayerJoined(user(2, "bo")));
    g.update(UserId::new(2), GameAction::PlayerLeft);
    let once = planning_poker::codec::snapshot_to_wire(&g);
    g.update(UserId::new(2), GameAction::PlayerLeft);
    let twice = planning_poker::codec::snapshot_to_wire(&g);
    assert_eq!(once, twice);
    assert_eq!(g.players.len(), 2);
    assert!(!g.players[1].active);
    assert_eq!(g.to_active_players().len(), 1);

    g.update(UserId::new(2), GameAction::PlayerJoined(user(2, "bo")));
    assert_eq!(g.players.len(), 2);
    assert!(g.players[1].active);
}

/// An explicit estimate wins over the derived one.
#[test]
fn explicit_estimate_is_kept() {
    let admin = UserId::new(1);
    let mut g = Game::new(user(1, "ada"));
    g.update(admin, GameAction::StoriesAdded(vec![story(10, "A")]));
    g.update(admin, GameAction::VotingOpened(StoryId::new(10)));
    g.update(admin, GameAction::VoteCasted(vote(2)));
    g.update(admin, GameAction::VotesRevealed);
    g.update(admin, GameAction::ResultsApproved(Some(vote(21))));
    assert_eq!(g.estimated_stories[0].estimate.value(), 21);
}

/// Revealing or approving without votes, and votes from unknown users,
/// are ignored.
#[test]
fn guarded_transitions_are_noops() {
    let admin = UserId::new(1);
    let mut g = Game::new(user(1, "ada"));
    g.update(admin, GameAction::StoriesAdded(vec![story(10, "A")]));
    g.update(admin, GameAction::VotingOpened(StoryId::new(10)));

    // no votes yet: reveal and approve do nothing
    g.update(admin, GameAction::VotesRevealed);
    assert!(!g.selected_story.as_ref().unwrap().votes_revealed);
    g.update(admin, GameAction::ResultsApproved(None));
    assert!(g.selected_story.is_some());
    assert!(g.estimated_stories.is_empty());

    // a vote from a user who never joined is ignored
    g.update(UserId::new(9), GameAction::VoteCasted(vote(5)));
    assert!(g.selected_story.as_ref().unwrap().votes.is_empty());
}

/// Duplicate story ids are skipped; updating and removing work on the
/// present entry.
#[test]
fn backlog_update_remove_and_duplicates() {
    let admin = UserId::new(1);
    let mut g = Game::new(user(1, "ada"));
    g.update(admin, GameAction::StoriesAdded(vec![story(10, "A"), story(10, "A again")]));
    assert_eq!(g.backlog_stories.len(), 1);
    assert_eq!(g.backlog_stories[0].info.title, "A");

    g.update(
        admin,
        GameAction::StoryUpdated(StoryId::new(10), StoryInfo { title: "A2".to_string() }),
    );
    assert_eq!(g.backlog_stories[0].info.title, "A2");

    g.update(admin, GameAction::StoryRemoved(StoryId::new(10)));
    assert!(g.backlog_stories.is_empty());
}

/// `VotingClosed` puts the selected story at the front of the backlog.
#[test]
fn closing_returns_story_to_front() {
    let admin = UserId::new(1);
    let mut g = Game::new(user(1, "ada"));
    g.update(admin, GameAction::StoriesAdded(vec![story(10, "A"), story(11, "B")]));
    g.update(admin, GameAction::VotingOpened(StoryId::new(10)));
    assert_eq!(g.backlog_stories.len(), 1);
    g.update(admin, GameAction::VotingClosed);
    assert!(g.selected_story.is_none());
    assert_eq!(g.backlog_stories.len(), 2);
    assert_eq!(g.backlog_stories[0].info.title, "A");
    assert_eq!(g.backlog_stories[1].info.title, "B");
}

/// `Player::new` and `Player::new_admin` seed active players.
#[test]
fn player_constructors() {
    let p = Player::new(user(5, "eve"), PlayerRole::Player);
    assert!(p.active);
    assert!(matches!(p.role, PlayerRole::Player));
    let a = Player::new_admin(user(6, "mod"));
    assert!(matches!(a.role, PlayerRole::Admin));
}

/// The selected-story round predicates follow the vote set and the
/// reveal flag.
#[test]
fn selected_story_round_predicates() {
    let mut sel = story(10, "A").select_for_estimation();
    assert!(!sel.can_reveal());
    assert!(!sel.can_accept());
    assert!(!sel.can_play_again());

    sel.add_vote(UserId::new(1), vote(3));
    assert!(sel.can_reveal());
    assert!(!sel.can_accept());
    assert!(sel.can_play_again());

    // the same player voting again overwrites, it does not add
    sel.add_vote(UserId::new(1), vote(8));
    assert_eq!(sel.votes.len(), 1);
    assert_eq!(sel.votes[0].vote.value(), 8);

    sel.reveal_votes();
    assert!(!sel.can_reveal());
    assert!(sel.can_accept());

    let estimated = sel.accept_with_estimate(vote(8));
    assert_eq!(estimated.id, sel.id);
    assert_eq!(estimated.estimate.value(), 8);

    sel.clear_votes();
    assert!(sel.votes.is_empty());
    assert!(!sel.votes_revealed);

    let back = sel.into_backlog();
    assert_eq!(back.id, StoryId::new(10));
    assert_eq!(back.info.title, "A");
}

/// The vote sum over the cast votes is exact.
#[test]
fn selected_story_vote_sum() {
    let mut sel = story(10, "A").select_for_estimation();
    assert_eq!(sel.votes_sum(), 0);
    sel.add_vote(UserId::new(1), vote(5));
    sel.add_vote(UserId::new(2), vote(8));
    sel.add_vote(UserId::new(3), vote(5));
    assert_eq!(sel.votes_sum(), 18);
}

/// `VotingOpened` with an id that names no story in the session is a
/// complete no-op: in particular the selected story stays selected.
#[test]
fn voting_opened_unknown_id_is_noop() {
    let admin = UserId::new(1);
    let mut g = Game::new(user(1, "ada"));
    g.update(admin, GameAction::StoriesAdded(vec![story(10, "A")]));
    g.update(admin, GameAction::VotingOpened(StoryId::new(10)));
    g.update(admin, GameAction::VoteCasted(vote(3)));

    let before = planning_poker::codec::snapshot_to_wire(&g);
    g.update(admin, GameAction::VotingOpened(StoryId::new(99)));
    let after = planning_poker::codec::snapshot_to_wire(&g);
    assert_eq!(before, after);
    let sel = g.selected_story.as_ref().unwrap();
    assert_eq!(sel.info.title, "A");
    assert_eq!(sel.votes.len(), 1);
}

/// Reopening the story already under estimation clears its votes.
#[test]
fn voting_opened_reselects_and_clears() {
    let admin = UserId::new(1);
    let mut g = Game::new(user(1, "ada"));
    g.update(admin, GameAction::StoriesAdded(vec![story(10, "A")]));
    g.update(admin, GameAction::VotingOpened(StoryId::new(10)));
    g.update(admin, GameAction::VoteCasted(vote(3)));
    g.update(admin, GameAction::VotesRevealed);

    g.update(admin, GameAction::VotingOpened(StoryId::new(10)));
    let sel = g.selected_story.as_ref().unwrap();
    assert_eq!(sel.info.title, "A");
    assert!(sel.votes.is_empty());
    assert!(!sel.votes_revealed);
    assert!(g.backlog_stories.is_empty());
}
