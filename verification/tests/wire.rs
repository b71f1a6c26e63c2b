use planning_poker::client::AppEvent;
use planning_poker::codec::{event_to_wire, game_id_to_text, parse_game_id, snapshot_to_wire, wire_to_game_message, wire_to_user};
use planning_poker::game::{Game, GameAction};
use planning_poker::ids::{GameId, StoryId, UserId};
use planning_poker::model::{BacklogStory, StoryInfo, User};
use planning_poker::vote::Vote;

fn wire_user(id: u128, name: &str) -> User {
    User { id: UserId::new(id), name: name.to_string() }
}

fn wire_story(id: u128, title: &str) -> BacklogStory {
    BacklogStory { id: StoryId::new(id), info: StoryInfo { title: title.to_string() } }
}

/// Serialize, parse, re-serialize: the round trip must reproduce the
/// text exactly, and the parsed action must serialize identically.
fn round_trip(uid: u128, action: GameAction) -> String {
    let wire = event_to_wire(&AppEvent::GameMessage(UserId::new(uid), action));
    let (uid2, action2) = wire_to_game_message(&wire).expect("canonical text must parse");
    assert_eq!(uid2, UserId::new(uid));
    let wire2 = event_to_wire(&AppEvent::GameMessage(uid2, action2));
    assert_eq!(wire, wire2);
    wire
}

#[test]
fn round_trip_player_joined() {
    round_trip(7, GameAction::PlayerJoined(wire_user(9, "ada")));
}

#[test]
fn round_trip_player_left() {
    let wire = round_trip(0, GameAction::PlayerLeft);
    assert_eq!(
        wire,
        "{\"GameMessage\":[\"00000000-0000-0000-0000-000000000000\",\"PlayerLeft\"]}"
    );
}

#[test]
fn round_trip_stories_added() {
    round_trip(1, GameAction::StoriesAdded(vec![]));
    round_trip(1, GameAction::StoriesAdded(vec![wire_story(2, "A")]));
    round_trip(1, GameAction::StoriesAdded(vec![wire_story(2, "A"), wire_story(3, "B")]));
}

#[test]
fn round_trip_story_updated() {
    round_trip(
        1,
        GameAction::StoryUpdated(StoryId::new(5), StoryInfo { title: "new title".to_string() }),
    );
}

#[test]
fn round_trip_story_position_changed() {
    round_trip(1, GameAction::StoryPositionChanged(StoryId::new(5), 0));
    round_trip(1, GameAction::StoryPositionChanged(StoryId::new(5), 12));
}

#[test]
fn round_trip_story_removed() {
    round_trip(1, GameAction::StoryRemoved(StoryId::new(5)));
}

#[test]
fn round_trip_voting_opened_and_closed() {
    round_trip(1, GameAction::VotingOpened(StoryId::new(5)));
    round_trip(1, GameAction::VotingClosed);
}

#[test]
fn round_trip_vote_casted() {
    let wire = round_trip(0, GameAction::VoteCasted(Vote::new(5).unwrap()));
    assert_eq!(
        wire,
        "{\"GameMessage\":[\"00000000-0000-0000-0000-000000000000\",{\"VoteCasted\":5}]}"
    );
    round_trip(0, GameAction::VoteCasted(Vote::new(100).unwrap()));
    round_trip(0, GameAction::VoteCasted(Vote::new(0).unwrap()));
}

#[test]
fn round_trip_votes_revealed_and_cleared() {
    round_trip(1, GameAction::VotesRevealed);
    round_trip(1, GameAction::VotesCleared);
}

#[test]
fn round_trip_results_approved() {
    round_trip(1, GameAction::ResultsApproved(None));
    round_trip(1, GameAction::ResultsApproved(Some(Vote::new(13).unwrap())));
}

/// Titles and names with escapes survive the round trip.
#[test]
fn round_trip_escaped_strings() {
    round_trip(3, GameAction::PlayerJoined(wire_user(4, "a \"quoted\" name\\path")));
    round_trip(3, GameAction::StoriesAdded(vec![wire_story(5, "line\nbreak\tand\u{1}ctl")]));
    round_trip(3, GameAction::PlayerJoined(wire_user(6, "unicode \u{e9}\u{4e16}")));
}

/// The token text form is hyphenated lowercase hex.
#[test]
fn uuid_text_form() {
    let uid = 0x123e4567_e89b_12d3_a456_426614174000u128;
    let wire = event_to_wire(&AppEvent::GameMessage(UserId::new(uid), GameAction::PlayerLeft));
    assert_eq!(
        wire,
        "{\"GameMessage\":[\"123e4567-e89b-12d3-a456-426614174000\",\"PlayerLeft\"]}"
    );
    let id = parse_game_id("123e4567-e89b-12d3-a456-426614174000").unwrap();
    assert_eq!(id, GameId::new(uid));
}

/// The parser is strict: only canonical texts are accepted.
#[test]
fn parser_rejects_non_canonical() {
    // whitespace
    assert!(wire_to_game_message(
        "{\"GameMessage\": [\"00000000-0000-0000-0000-000000000000\",\"PlayerLeft\"]}"
    )
    .is_none());
    // trailing garbage
    assert!(wire_to_game_message(
        "{\"GameMessage\":[\"00000000-0000-0000-0000-000000000000\",\"PlayerLeft\"]} "
    )
    .is_none());
    // value not in the allowed set
    assert!(wire_to_game_message(
        "{\"GameMessage\":[\"00000000-0000-0000-0000-000000000000\",{\"VoteCasted\":4}]}"
    )
    .is_none());
    // uppercase hex in the token
    assert!(wire_to_game_message(
        "{\"GameMessage\":[\"00000000-0000-0000-0000-00000000000A\",\"PlayerLeft\"]}"
    )
    .is_none());
    // unknown action tag
    assert!(wire_to_game_message(
        "{\"GameMessage\":[\"00000000-0000-0000-0000-000000000000\",\"Nonsense\"]}"
    )
    .is_none());
    // not a game message at all
    assert!(wire_to_game_message("{\"CurrentState\":null}").is_none());
    assert!(wire_to_game_message("").is_none());
}

#[test]
fn parse_game_id_rejects_malformed() {
    assert!(parse_game_id("").is_none());
    assert!(parse_game_id("123e4567e89b12d3a456426614174000").is_none());
    assert!(parse_game_id("123e4567-e89b-12d3-a456-42661417400").is_none());
    assert!(parse_game_id("123e4567-e89b-12d3-a456-426614174000x").is_none());
    assert!(parse_game_id("123E4567-e89b-12d3-a456-426614174000").is_none());
}

/// An accepted wire text is exactly what the parsed message serializes
/// to (wire-format fidelity for raw texts).
#[test]
fn accepted_text_reserializes_identically() {
    let texts = [
        "{\"GameMessage\":[\"00000000-0000-0000-0000-000000000007\",{\"VoteCasted\":21}]}",
        "{\"GameMessage\":[\"00000000-0000-0000-0000-000000000007\",{\"StoriesAdded\":[]}]}",
        "{\"GameMessage\":[\"00000000-0000-0000-0000-000000000007\",{\"ResultsApproved\":null}]}",
    ];
    for t in texts {
        let (uid, a) = wire_to_game_message(t).expect("canonical");
        let again = event_to_wire(&AppEvent::GameMessage(uid, a));
        assert_eq!(again, t);
    }
}

/// The snapshot of a fresh game has the expected shape.
#[test]
fn snapshot_wire_shape() {
    let g = Game {
        id: GameId::new(1),
        players: vec![],
        backlog_stories: vec![],
        estimated_stories: vec![],
        selected_story: None,
    };
    let wire = snapshot_to_wire(&g);
    assert_eq!(
        wire,
        "{\"CurrentState\":{\"id\":\"00000000-0000-0000-0000-000000000001\",\"players\":{},\"backlog_stories\":{},\"estimated_stories\":{},\"selected_story\":null}}"
    );
}

/// A populated snapshot serializes every part of the state.
#[test]
fn snapshot_wire_populated() {
    let mut g = Game::new(wire_user(1, "ada"));
    g.id = GameId::new(2);
    g.update(UserId::new(1), GameAction::StoriesAdded(vec![wire_story(3, "A")]));
    g.update(UserId::new(1), GameAction::VotingOpened(StoryId::new(3)));
    g.update(UserId::new(1), GameAction::VoteCasted(Vote::new(8).unwrap()));
    let wire = snapshot_to_wire(&g);
    assert_eq!(
        wire,
        "{\"CurrentState\":{\"id\":\"00000000-0000-0000-0000-000000000002\",\"players\":{\"00000000-0000-0000-0000-000000000001\":{\"user\":{\"id\":\"00000000-0000-0000-0000-000000000001\",\"name\":\"ada\"},\"role\":\"Admin\",\"active\":true}},\"backlog_stories\":{},\"estimated_stories\":{},\"selected_story\":{\"id\":\"00000000-0000-0000-0000-000000000003\",\"info\":{\"title\":\"A\"},\"votes\":{\"00000000-0000-0000-0000-000000000001\":8},\"votes_revealed\":false}}}"
    );
}

/// The create-session body parses strictly and re-serializes to itself.
#[test]
fn user_body_round_trip() {
    let body = "{\"id\":\"00000000-0000-0000-0000-000000000009\",\"name\":\"ada\"}";
    let u = wire_to_user(body).unwrap();
    assert_eq!(u.id, UserId::new(9));
    assert_eq!(u.name, "ada");
    assert!(wire_to_user("{\"id\":\"nope\",\"name\":\"ada\"}").is_none());
    assert!(wire_to_user("").is_none());
    // trailing garbage is refused
    assert!(wire_to_user(
        "{\"id\":\"00000000-0000-0000-0000-000000000009\",\"name\":\"ada\"}x"
    )
    .is_none());
}

/// A session id prints to the same canonical text it parses from.
#[test]
fn game_id_text_round_trip() {
    let id = GameId::new(0xfeedface_0000_4321_8000_00000000beefu128);
    let text = game_id_to_text(id);
    assert_eq!(text, "feedface-0000-4321-8000-00000000beef");
    assert_eq!(parse_game_id(&text), Some(id));
}
