use vstd::prelude::*;

use crate::session::{Game, GameError, GameState, round_advanced, start_spec};

verus! {

/// Rounds that one session plays.
pub const ROUNDS_PER_SESSION: u64 = 3;

/// How long a round lasts, in seconds.
pub const ROUND_TIME_SECS: u64 = 5;

/// Why the session manager refused a request.
#[derive(Debug, Clone, Copy, PartialEq, Eq, Structural)]
pub enum GameManagerError {
    GameAlreadyStartedError,
    GameAlreadyFinishedError,
    PlayerError(GameError),
}

/// A request to the session manager.
#[derive(Debug)]
pub enum GameCommand<P> {
    Start,
    Stop,
    AddPlayer(String, P),
}

/// Applies `command` to `game`: `Start` and `Stop` move the session through its
/// phases, `AddPlayer` registers a player.
pub fn handle_command<P>(game: &mut Game<P>, command: GameCommand<P>) -> (r: Result<(), GameManagerError>)
    requires
        old(game).wf(),
    ensures
        final(game).wf(),
        match command {
            GameCommand::Start => {
                &&& final(game).phase() == start_spec(old(game).phase()).0
                &&& (r is Ok) == start_spec(old(game).phase()).1
                &&& r is Err ==> r == Err::<(), GameManagerError>(GameManagerError::GameAlreadyStartedError)
                &&& final(game).player_keys() == old(game).player_keys()
                &&& final(game).roster() == old(game).roster()
            },
            GameCommand::Stop => {
                &&& final(game).phase() == GameState::Finished
                &&& (r is Err) == (old(game).phase() == GameState::Finished)
                &&& r is Err ==> r == Err::<(), GameManagerError>(GameManagerError::GameAlreadyFinishedError)
                &&& final(game).player_keys() == old(game).player_keys()
                &&& final(game).roster() == old(game).roster()
            },
            GameCommand::AddPlayer(key, player) => {
                &&& final(game).phase() == old(game).phase()
                &&& old(game).phase() != GameState::Config ==> r == Err::<(), GameManagerError>(
                    GameManagerError::PlayerError(GameError::GameMustBeInConfigStateError),
                )
                &&& old(game).phase() == GameState::Config && old(game).player_keys().contains(key@)
                    ==> r == Err::<(), GameManagerError>(
                    GameManagerError::PlayerError(GameError::PlayerKeyExistsError),
                )
                &&& old(game).phase() == GameState::Config && !old(game).player_keys().contains(key@)
                    ==> r is Ok
                &&& r is Ok ==> final(game).player_keys() == old(game).player_keys().push(key@)
                &&& r is Ok ==> final(game).roster() == old(game).roster().push((key@, player))
                &&& r is Err ==> final(game).player_keys() == old(game).player_keys()
                &&& r is Err ==> final(game).roster() == old(game).roster()
            },
        },
        final(game).current() == old(game).current(),
        final(game).pool() == old(game).pool(),
        final(game).played() == old(game).played(),
{
    match command {
        GameCommand::Start => game.start(),
        GameCommand::Stop => game.stop(),
        GameCommand::AddPlayer(key, player) => match game.add_player(key, player) {
            Ok(()) => Ok(()),
            Err(e) => Err(GameManagerError::PlayerError(e)),
        },
    }
}

/// Successes among `n` start requests served one after another from phase `s`.
pub open spec fn start_successes(s: GameState, n: nat) -> nat
    decreases n,
{
    if n == 0 {
        0
    } else {
        (if start_spec(s).1 {
            1nat
        } else {
            0nat
        }) + start_successes(start_spec(s).0, (n - 1) as nat)
    }
}

/// Of any number of start requests on a fresh session, served one at a time under
/// its lock, exactly one succeeds; all the others fail.
pub proof fn lemma_exactly_one_start(n: nat)
    requires
        n >= 1,
    ensures
        start_successes(GameState::Config, n) == 1,
{
    lemma_no_start_after_start(GameState::Ongoing, (n - 1) as nat);
}

/// Once a session has left `Config`, no start request succeeds.
pub proof fn lemma_no_start_after_start(s: GameState, n: nat)
    requires
        s != GameState::Config,
    ensures
        start_successes(s, n) == 0,
    decreases n,
{
    if n > 0 {
        lemma_no_start_after_start(s, (n - 1) as nat);
    }
}

/// What the round driver does next.
#[derive(Debug, Clone, Copy, PartialEq, Eq, Structural)]
pub enum DriverAction {
    /// Announce that the round of this number begins.
    AnnounceRound(u64),
    /// Play the round of this number and announce its fragment.
    PlayRound(u64),
    /// Let the round run for `ROUND_TIME_SECS`.
    Wait,
    /// End the session.
    Finish,
    /// Nothing is left to do.
    Done,
}

/// The driver's action at `step`: for each round an announcement, the round
/// itself and a wait, then the end of the session, then nothing.
pub open spec fn driver_action(step: nat) -> DriverAction {
    if step < 3 * ROUNDS_PER_SESSION {
        let r = (step / 3 + 1) as u64;
        if step % 3 == 0 {
            DriverAction::AnnounceRound(r)
        } else if step % 3 == 1 {
            DriverAction::PlayRound(r)
        } else {
            DriverAction::Wait
        }
    } else if step == 3 * ROUNDS_PER_SESSION {
        DriverAction::Finish
    } else {
        DriverAction::Done
    }
}

/// The schedule of the background task that plays a session's rounds.
pub struct RoundDriver {
    step: u64,
}

impl RoundDriver {
    pub closed spec fn spec_step(&self) -> nat {
        self.step as nat
    }

    pub fn new() -> (r: RoundDriver)
        ensures
            r.spec_step() == 0,
    {
        RoundDriver { step: 0 }
    }

    /// The next action of the schedule.
    pub fn next_action(&mut self) -> (r: DriverAction)
        ensures
            r == driver_action(old(self).spec_step()),
            final(self).spec_step() == if old(self).spec_step() <= 3 * ROUNDS_PER_SESSION {
                old(self).spec_step() + 1
            } else {
                old(self).spec_step()
            },
    {
        let step = self.step;
        if step <= 3 * ROUNDS_PER_SESSION {
            self.step = step + 1;
        }
        if step < 3 * ROUNDS_PER_SESSION {
            let r = step / 3 + 1;
            if step % 3 == 0 {
                DriverAction::AnnounceRound(r)
            } else if step % 3 == 1 {
                DriverAction::PlayRound(r)
            } else {
                DriverAction::Wait
            }
        } else if step == 3 * ROUNDS_PER_SESSION {
            DriverAction::Finish
        } else {
            DriverAction::Done
        }
    }
}

/// `g2` is what the driver's action `a` makes of `g1`.
pub open spec fn action_effect<P>(a: DriverAction, g1: Game<P>, g2: Game<P>) -> bool {
    match a {
        DriverAction::PlayRound(_) => exists|i: int| #[trigger] round_advanced(g1, g2, i),
        DriverAction::Finish => {
            &&& g2.phase() == GameState::Finished
            &&& g2.current() == g1.current()
            &&& g2.pool() == g1.pool()
            &&& g2.played() == g1.played()
            &&& g2.player_keys() == g1.player_keys()
            &&& g2.roster() == g1.roster()
        },
        _ => g2 == g1,
    }
}

/// A full run of the round driver on an ongoing session plays exactly
/// `ROUNDS_PER_SESSION` rounds, with no fragment played twice, and then leaves
/// the session finished; after that the driver does nothing more.
pub proof fn lemma_driver_run<P>(games: Seq<Game<P>>)
    requires
        games.len() == 3 * ROUNDS_PER_SESSION + 2,
        games[0].wf(),
        games[0].phase() == GameState::Ongoing,
        forall|k: int|
            0 <= k < 3 * ROUNDS_PER_SESSION + 1 ==> #[trigger] games[k + 1].wf() && action_effect(
                driver_action(k as nat),
                games[k],
                games[k + 1],
            ),
    ensures
        games.last().phase() == GameState::Finished,
        games.last().played().len() == games[0].played().len() + ROUNDS_PER_SESSION,
        games.last().played().no_duplicates(),
        forall|k: nat| k > 3 * ROUNDS_PER_SESSION ==> #[trigger] driver_action(k) == DriverAction::Done,
{
    let last = 3 * ROUNDS_PER_SESSION as int;
    lemma_driver_prefix(games, last);
    assert(games[last + 1].wf());
    assert(games.last() == games[last + 1]);
    crate::session::lemma_played_distinct(games[last + 1]);
    assert(action_effect(driver_action(last as nat), games[last], games[last + 1]));
    assert(games[last + 1].wf());
}

/// Until the session ends, the first `k` steps of a run leave it ongoing with one
/// more fragment played for each round played.
proof fn lemma_driver_prefix<P>(games: Seq<Game<P>>, k: int)
    requires
        0 <= k <= 3 * ROUNDS_PER_SESSION,
        games.len() == 3 * ROUNDS_PER_SESSION + 2,
        games[0].phase() == GameState::Ongoing,
        forall|j: int|
            0 <= j < 3 * ROUNDS_PER_SESSION + 1 ==> #[trigger] games[j + 1].wf() && action_effect(
                driver_action(j as nat),
                games[j],
                games[j + 1],
            ),
    ensures
        games[k].phase() == GameState::Ongoing,
        games[k].played().len() == games[0].played().len() + (k + 1) / 3,
    decreases k,
{
    if k > 0 {
        lemma_driver_prefix(games, k - 1);
        assert(games[k].wf() && action_effect(driver_action((k - 1) as nat), games[k - 1], games[k]));
        if (k - 1) % 3 == 1 {
            let i = choose|i: int| #[trigger] round_advanced(games[k - 1], games[k], i);
            assert(games[k].played().len() == games[k - 1].played().len() + 1);
        }
    }
}

} // verus!
