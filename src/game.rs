use vstd::prelude::*;
use crate::physics::{UNIT, Vec2};

verus! {

/// Half the width of the playing field, in fixed point.
pub const FIELD_HALF_WIDTH: i64 = 512 * UNIT;

/// Half the height of the playing field, in fixed point.
pub const FIELD_HALF_HEIGHT: i64 = 384 * UNIT;

/// The phases of a game session.
#[derive(Debug, Clone, Copy, PartialEq, Eq, Structural)]
pub enum GamePhase {
    Loading,
    MainMenu,
    Playing,
    GameOver,
}

/// What moves a session from one phase to another.
#[derive(Debug, Clone, Copy, PartialEq, Eq, Structural)]
pub enum PhaseSignal {
    /// Every asset has finished loading.
    AssetsLoaded,
    /// The player asked for a new game from a menu.
    StartGame,
    /// The boundary check found the player outside the field.
    LeftField,
    /// The player asked to go back to the main menu.
    BackToMenu,
}

/// `p` lies outside the playing field.
pub open spec fn outside_field(p: Vec2) -> bool {
    p.y < -FIELD_HALF_HEIGHT || p.y > FIELD_HALF_HEIGHT || p.x < -FIELD_HALF_WIDTH || p.x > FIELD_HALF_WIDTH
}

/// The phase that `signal` leads to from `phase`.
pub open spec fn next_phase(phase: GamePhase, signal: PhaseSignal) -> GamePhase {
    match (phase, signal) {
        (GamePhase::Loading, PhaseSignal::AssetsLoaded) => GamePhase::MainMenu,
        (GamePhase::MainMenu, PhaseSignal::StartGame) => GamePhase::Playing,
        (GamePhase::GameOver, PhaseSignal::StartGame) => GamePhase::Playing,
        (GamePhase::Playing, PhaseSignal::LeftField) => GamePhase::GameOver,
        (GamePhase::GameOver, PhaseSignal::BackToMenu) => GamePhase::MainMenu,
        _ => phase,
    }
}

/// Whether position `p` is outside the playing field.
pub fn out_of_bounds(p: Vec2) -> (r: bool)
    ensures
        r == outside_field(p),
{
    p.y < -FIELD_HALF_HEIGHT || p.y > FIELD_HALF_HEIGHT || p.x < -FIELD_HALF_WIDTH || p.x > FIELD_HALF_WIDTH
}

/// Moves a session from `phase` on `signal`; a signal that does not apply
/// to the phase leaves it unchanged.
pub fn transition(phase: GamePhase, signal: PhaseSignal) -> (r: GamePhase)
    ensures
        r == next_phase(phase, signal),
{
    match (phase, signal) {
        (GamePhase::Loading, PhaseSignal::AssetsLoaded) => GamePhase::MainMenu,
        (GamePhase::MainMenu, PhaseSignal::StartGame) => GamePhase::Playing,
        (GamePhase::GameOver, PhaseSignal::StartGame) => GamePhase::Playing,
        (GamePhase::Playing, PhaseSignal::LeftField) => GamePhase::GameOver,
        (GamePhase::GameOver, PhaseSignal::BackToMenu) => GamePhase::MainMenu,
        _ => phase,
    }
}

/// The boundary check after a tick: a playing session whose player has left
/// the field is over; any other phase is left as it is.
pub fn end_game(phase: GamePhase, player: Option<Vec2>) -> (r: GamePhase)
    ensures
        r == match player {
            Some(p) if outside_field(p) => next_phase(phase, PhaseSignal::LeftField),
            _ => phase,
        },
        r == GamePhase::GameOver <==> phase == GamePhase::GameOver || (phase == GamePhase::Playing
            && player is Some && outside_field(player->Some_0)),
{
    match player {
        Some(p) => {
            if out_of_bounds(p) {
                transition(phase, PhaseSignal::LeftField)
            } else {
                phase
            }
        },
        None => phase,
    }
}

} // verus!
