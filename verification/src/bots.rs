use vstd::prelude::*;

use crate::game::Game;

verus! {

/// The temperament of a computer player.
#[derive(Clone, Copy, Debug, PartialEq, Eq, Structural)]
pub enum BotStyle {
    Careful,
    Aggressive,
    Tricky,
    Analytical,
}

pub open spec fn style_title(style: BotStyle) -> Seq<char> {
    match style {
        BotStyle::Careful => "осторожная"@,
        BotStyle::Aggressive => "агрессор"@,
        BotStyle::Tricky => "непредсказуемый"@,
        BotStyle::Analytical => "аналитик"@,
    }
}

impl BotStyle {
    pub const ALL: [BotStyle; 4] = [
        BotStyle::Careful,
        BotStyle::Aggressive,
        BotStyle::Tricky,
        BotStyle::Analytical,
    ];

    /// The name of the style shown at the table.
    pub fn label(self) -> (text: &'static str)
        ensures
            text@ == style_title(self),
    {
        match self {
            BotStyle::Careful => "осторожная",
            BotStyle::Aggressive => "агрессор",
            BotStyle::Tricky => "непредсказуемый",
            BotStyle::Analytical => "аналитик",
        }
    }
}

/// The raise step a bot builds on: the last raise, or the big blind when
/// that is larger.
pub open spec fn raise_unit(game: Game) -> int {
    if game.min_raise >= game.big_blind { game.min_raise as int } else { game.big_blind as int }
}

/// The total a bot raises to: the current bet plus `factor` half-units of
/// the raise step.
pub fn raise_amount(game: &Game, factor: u32) -> (target: u32)
    requires
        raise_unit(*game) * factor <= u32::MAX,
        game.current_bet + raise_unit(*game) * factor / 2 <= u32::MAX,
    ensures
        target == game.current_bet + raise_unit(*game) * factor / 2,
{
    let unit = if game.min_raise >= game.big_blind {
        game.min_raise
    } else {
        game.big_blind
    };
    game.current_bet + unit * factor / 2
}

} // verus!
