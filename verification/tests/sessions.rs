use planning_poker::client::{AppEvent, ClientState};
use planning_poker::codec::event_to_wire;
use planning_poker::game::{Game, GameAction};
use planning_poker::ids::{GameId, StoryId, UserId};
use planning_poker::model::{BacklogStory, StoryInfo, User};
use planning_poker::session::{check_reset_token, Connection, Registry};

fn sess_user(id: u128, name: &str) -> User {
    User { id: UserId::new(id), name: name.to_string() }
}

fn sess_story(id: u128, title: &str) -> BacklogStory {
    BacklogStory { id: StoryId::new(id), info: StoryInfo { title: title.to_string() } }
}

#[test]
fn registry_create_get_mutate_reset() {
    let mut reg = Registry::new();
    let id = reg.create(sess_user(1, "ada"));
    assert!(reg.get(id).is_some());
    assert!(reg.get(GameId::new(id.0 ^ 1)).is_none());

    let applied = reg.mutate(id, UserId::new(1), GameAction::StoriesAdded(vec![sess_story(
        7, "A",
    )]));
    assert!(applied);
    assert_eq!(reg.get(id).unwrap().backlog_stories.len(), 1);

    let missing = reg.mutate(
        GameId::new(id.0 ^ 1),
        UserId::new(1),
        GameAction::VotingClosed,
    );
    assert!(!missing);

    reg.reset_all();
    assert!(reg.get(id).is_none());
}

#[test]
fn registry_sessions_are_independent() {
    let mut reg = Registry::new();
    let id_a = reg.create(sess_user(1, "ada"));
    let id_b = reg.create(sess_user(2, "bo"));
    reg.mutate(id_a, UserId::new(1), GameAction::StoriesAdded(vec![sess_story(7, "A")]));
    assert_eq!(reg.get(id_a).unwrap().backlog_stories.len(), 1);
    assert_eq!(reg.get(id_b).unwrap().backlog_stories.len(), 0);
}

#[test]
fn reset_token_fails_closed() {
    assert!(!check_reset_token(&None, &"anything".to_string()));
    assert!(!check_reset_token(&Some("secret".to_string()), &"wrong".to_string()));
    assert!(check_reset_token(&Some("secret".to_string()), &"secret".to_string()));
}

#[test]
fn connection_snapshot_and_join_flow() {
    let mut reg = Registry::new();
    let id = reg.create(sess_user(1, "ada"));

    // unknown session: the one message is a not-found notice
    let missing = Connection::snapshot_message(&reg, GameId::new(id.0 ^ 1));
    assert!(missing.starts_with("{\"GameNotFound\":\""));

    // known session: the one message is the snapshot
    let snap = Connection::snapshot_message(&reg, id);
    assert!(snap.starts_with("{\"CurrentState\":{\"id\":\""));

    let mut conn = Connection::new(id);
    assert!(conn.player_id.is_none());

    // a joining frame is accepted, applied, and handed back verbatim
    let join = event_to_wire(&AppEvent::GameMessage(
        UserId::new(2),
        GameAction::PlayerJoined(sess_user(2, "bo")),
    ));
    let accepted = conn.handle_incoming(&mut reg, &join);
    assert!(accepted.is_some());
    assert_eq!(conn.player_id, Some(UserId::new(2)));
    assert_eq!(reg.get(id).unwrap().players.len(), 2);
    assert!(reg.get(id).unwrap().players[1].active);

    // garbage is ignored and changes nothing
    let before = Connection::snapshot_message(&reg, id);
    assert!(conn.handle_incoming(&mut reg, &"not json".to_string()).is_none());
    let after = Connection::snapshot_message(&reg, id);
    assert_eq!(before, after);

    // teardown synthesizes the departure
    let bye = conn.close_message(&mut reg).unwrap();
    assert_eq!(
        bye,
        event_to_wire(&AppEvent::GameMessage(UserId::new(2), GameAction::PlayerLeft))
    );
    assert!(!reg.get(id).unwrap().players[1].active);
}

#[test]
fn connection_without_join_sends_no_departure() {
    let mut reg = Registry::new();
    let id = reg.create(sess_user(1, "ada"));
    let conn = Connection::new(id);
    assert!(conn.close_message(&mut reg).is_none());
}

#[test]
fn client_reducer_follows_protocol() {
    let g = Game::new(sess_user(1, "ada"));
    let gid = g.id;

    // loading: a snapshot starts the game
    let st = ClientState::Loading.reduce(AppEvent::CurrentState(g));
    let st = match st {
        ClientState::Playing(game) => {
            assert_eq!(game.players.len(), 1);
            ClientState::Playing(game)
        },
        _ => panic!("expected a playing state"),
    };

    // playing: accepted actions replay through the shared reducer
    let st = st.reduce(AppEvent::GameMessage(
        UserId::new(2),
        GameAction::PlayerJoined(sess_user(2, "bo")),
    ));
    match &st {
        ClientState::Playing(game) => assert_eq!(game.players.len(), 2),
        _ => panic!("expected a playing state"),
    }

    // loading: a not-found notice is terminal
    let nf = ClientState::Loading.reduce(AppEvent::GameNotFound(gid));
    assert!(matches!(nf, ClientState::NotFound));
    let nf = nf.reduce(AppEvent::GameMessage(UserId::new(1), GameAction::VotingClosed));
    assert!(matches!(nf, ClientState::NotFound));
}

#[test]
fn fresh_ids_are_random_tokens() {
    let u1 = User::new("ada".to_string());
    let u2 = User::new("ada".to_string());
    assert_ne!(u1.id, u2.id);
    let s1 = BacklogStory::new(StoryInfo { title: "A".to_string() });
    let s2 = BacklogStory::new(StoryInfo { title: "A".to_string() });
    assert_ne!(s1.id, s2.id);
    let g1 = Game::new(sess_user(1, "ada"));
    let g2 = Game::new(sess_user(1, "ada"));
    assert_ne!(g1.id, g2.id);
}
