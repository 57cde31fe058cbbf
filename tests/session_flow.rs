use word_game::game::Game as SimpleGame;
use word_game::game_manager::{
    handle_command, DriverAction, GameCommand, GameManagerError, RoundDriver, ROUNDS_PER_SESSION,
};
use word_game::session::{Game, GameError, GameState};

fn corpus_words() -> Vec<String> {
    [
        "order", "border", "word", "ordeal", "cord", "lord", "tests", "testy", "attest", "contest",
        "banana", "cabana", "bandana",
    ]
    .iter()
    .map(|w| String::from(*w))
    .collect()
}

#[test]
fn simple_game_starts_once() {
    let mut g = SimpleGame::new();
    assert!(!g.is_started());
    g.start();
    assert!(g.is_started());
}

#[test]
fn new_session_is_in_config() {
    let g: Game<u32> = Game::new(&corpus_words());
    assert_eq!(g.state, GameState::Config);
    assert!(g.round.is_none());
    assert_eq!(g.players_len(), 0);
    assert!(!g.is_ongoing());
    assert!(g.remaining() >= 3);
}

#[test]
fn add_player_registers_once() {
    let mut g: Game<u32> = Game::new(&corpus_words());
    assert_eq!(g.add_player(String::from("ann"), 1), Ok(()));
    assert_eq!(g.add_player(String::from("bob"), 2), Ok(()));
    assert_eq!(g.players_len(), 2);
    assert!(g.has_player(&String::from("ann")));
    assert_eq!(g.add_player(String::from("ann"), 3), Err(GameError::PlayerKeyExistsError));
    assert_eq!(g.players_len(), 2);
}

#[test]
fn add_player_after_start_is_refused() {
    let mut g: Game<u32> = Game::new(&corpus_words());
    assert_eq!(g.add_player(String::from("ann"), 1), Ok(()));
    assert_eq!(g.start(), Ok(()));
    assert_eq!(
        g.add_player(String::from("bob"), 2),
        Err(GameError::GameMustBeInConfigStateError)
    );
    assert_eq!(
        g.add_player(String::from("ann"), 2),
        Err(GameError::GameMustBeInConfigStateError)
    );
    assert_eq!(g.players_len(), 1);
    assert!(!g.has_player(&String::from("bob")));
}

#[test]
fn only_first_start_succeeds() {
    let mut g: Game<u32> = Game::new(&corpus_words());
    let mut successes = 0;
    for _ in 0..5 {
        match g.start() {
            Ok(()) => successes += 1,
            Err(e) => assert_eq!(e, GameManagerError::GameAlreadyStartedError),
        }
    }
    assert_eq!(successes, 1);
    assert!(g.is_ongoing());
}

#[test]
fn stop_finishes_once() {
    let mut g: Game<u32> = Game::new(&corpus_words());
    assert_eq!(g.stop(), Ok(()));
    assert_eq!(g.state, GameState::Finished);
    assert_eq!(g.stop(), Err(GameManagerError::GameAlreadyFinishedError));
    assert_eq!(g.start(), Err(GameManagerError::GameAlreadyStartedError));
}

#[test]
fn commands_map_to_session_operations() {
    let mut g: Game<u32> = Game::new(&corpus_words());
    assert_eq!(handle_command(&mut g, GameCommand::AddPlayer(String::from("ann"), 1)), Ok(()));
    assert_eq!(
        handle_command(&mut g, GameCommand::AddPlayer(String::from("ann"), 2)),
        Err(GameManagerError::PlayerError(GameError::PlayerKeyExistsError))
    );
    assert_eq!(handle_command(&mut g, GameCommand::Start), Ok(()));
    assert_eq!(
        handle_command(&mut g, GameCommand::Start),
        Err(GameManagerError::GameAlreadyStartedError)
    );
    assert_eq!(
        handle_command(&mut g, GameCommand::AddPlayer(String::from("bob"), 2)),
        Err(GameManagerError::PlayerError(GameError::GameMustBeInConfigStateError))
    );
    assert_eq!(handle_command(&mut g, GameCommand::Stop), Ok(()));
    assert_eq!(
        handle_command(&mut g, GameCommand::Stop),
        Err(GameManagerError::GameAlreadyFinishedError)
    );
    assert_eq!(g.players_len(), 1);
}

#[test]
fn driver_schedule() {
    let mut d = RoundDriver::new();
    let mut actions = Vec::new();
    for _ in 0..12 {
        actions.push(d.next_action());
    }
    let expected = vec![
        DriverAction::AnnounceRound(1),
        DriverAction::PlayRound(1),
        DriverAction::Wait,
        DriverAction::AnnounceRound(2),
        DriverAction::PlayRound(2),
        DriverAction::Wait,
        DriverAction::AnnounceRound(3),
        DriverAction::PlayRound(3),
        DriverAction::Wait,
        DriverAction::Finish,
        DriverAction::Done,
        DriverAction::Done,
    ];
    assert_eq!(actions, expected);
}

#[test]
fn full_driver_run_plays_distinct_rounds() {
    let mut g: Game<u32> = Game::new(&corpus_words());
    let pool = g.remaining();
    assert!(pool >= ROUNDS_PER_SESSION as usize);
    assert_eq!(g.start(), Ok(()));
    let mut d = RoundDriver::new();
    let mut announced: Vec<u64> = Vec::new();
    let mut played: Vec<String> = Vec::new();
    loop {
        match d.next_action() {
            DriverAction::AnnounceRound(r) => announced.push(r),
            DriverAction::PlayRound(r) => {
                assert_eq!(announced.last(), Some(&r));
                let upper = g.play_round();
                let current = g.round.as_ref().unwrap();
                assert_eq!(upper, current.triplet.to_uppercase());
                played.push(current.triplet.clone());
            }
            DriverAction::Wait => {}
            DriverAction::Finish => g.finish(),
            DriverAction::Done => break,
        }
    }
    assert_eq!(announced, vec![1, 2, 3]);
    assert_eq!(played.len(), ROUNDS_PER_SESSION as usize);
    for i in 0..played.len() {
        for j in 0..i {
            assert_ne!(played[i], played[j]);
        }
    }
    assert_eq!(g.state, GameState::Finished);
    assert!(!g.is_ongoing());
    assert_eq!(g.remaining(), pool - ROUNDS_PER_SESSION as usize);
    assert!(g.round.is_some());
}

#[test]
fn round_is_upper_cased() {
    let words: Vec<String> = ["ord", "word", "lord"].iter().map(|w| String::from(*w)).collect();
    let mut g: Game<u32> = Game::new(&words);
    assert_eq!(g.remaining(), 1);
    assert_eq!(g.start(), Ok(()));
    let upper = g.play_round();
    assert_eq!(upper, "ORD");
    assert_eq!(g.round.as_ref().unwrap().triplet, "ord");
    assert_eq!(g.remaining(), 0);
}

#[test]
fn update_round_at_takes_fragment_out_of_pool() {
    let mut g: Game<u32> = Game::new(&corpus_words());
    assert_eq!(g.start(), Ok(()));
    let before = g.remaining();
    g.update_round_at(0);
    assert_eq!(g.remaining(), before - 1);
    let first = g.round.as_ref().unwrap().triplet.clone();
    g.update_round();
    assert_ne!(g.round.as_ref().unwrap().triplet, first);
    assert_eq!(g.remaining(), before - 2);
}

#[test]
fn play_round_or_finish_ends_when_pool_is_empty() {
    let words: Vec<String> = ["ord", "word", "lord"].iter().map(|w| String::from(*w)).collect();
    let mut g: Game<u32> = Game::new(&words);
    assert_eq!(g.play_round_or_finish(), None);
    assert_eq!(g.state, GameState::Finished);
    assert!(g.round.is_none());

    let mut g: Game<u32> = Game::new(&words);
    assert_eq!(g.start(), Ok(()));
    assert_eq!(g.play_round_or_finish(), Some(String::from("ORD")));
    assert_eq!(g.state, GameState::Ongoing);
    assert_eq!(g.play_round_or_finish(), None);
    assert_eq!(g.state, GameState::Finished);
    assert_eq!(g.round.as_ref().unwrap().triplet, "ord");
}

#[test]
fn refused_player_keeps_first_handle() {
    let mut g: Game<u32> = Game::new(&Vec::new());
    assert_eq!(g.add_player(String::from("alice"), 1), Ok(()));
    assert_eq!(g.add_player(String::from("alice"), 2), Err(GameError::PlayerKeyExistsError));
    assert_eq!(g.players_len(), 1);
    assert_eq!(g.player(&String::from("alice")), Some(&1));
    assert_eq!(g.player(&String::from("bob")), None);
}
