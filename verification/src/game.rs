use vstd::prelude::*;

use crate::api::GameApi;
use crate::board::Board;
use crate::config::MAX_SNAKES;
use crate::util::Error;

verus! {

/// The rule set of a game.
#[derive(Copy, Clone, Debug, Default, PartialEq, Eq, Structural)]
pub enum Rules {
    #[default]
    Solo,
    Standard,
    Wrapped,
    Constrictor,
    Royale,
}

/// The map of a game.
#[derive(Copy, Clone, Debug, Default, PartialEq, Eq, Structural)]
pub enum GameMap {
    #[default]
    Standard,
    Empty,
    ArcadeMaze,
    Royale,
    HzRiversBridges,
    HzRiversBridgesLg,
    HzIslandsBridges,
    HzIslandsBridgesLg,
}

#[derive(Clone, Debug, Default)]
pub struct Game {
    pub api: GameApi,
    pub ruleset: Rules,
    pub is_solo: bool,
}

/// The rule set that a ruleset name in the API names.
pub open spec fn rules_named(name: Seq<char>) -> Option<Rules> {
    if name == "solo"@ {
        Some(Rules::Solo)
    } else if name == "standard"@ {
        Some(Rules::Standard)
    } else if name == "wrapped"@ {
        Some(Rules::Wrapped)
    } else if name == "constrictor"@ {
        Some(Rules::Constrictor)
    } else if name == "royale"@ {
        Some(Rules::Royale)
    } else {
        None
    }
}

/// The ruleset name that the API gives a rule set.
pub open spec fn rules_name(r: Rules) -> Seq<char> {
    match r {
        Rules::Solo => "solo"@,
        Rules::Standard => "standard"@,
        Rules::Wrapped => "wrapped"@,
        Rules::Constrictor => "constrictor"@,
        Rules::Royale => "royale"@,
    }
}

/// Each rule set is read back from the name that the API gives it: the five
/// names are told apart (no two have the same length) and each names its own
/// rule set.
pub proof fn lemma_rules_name_round_trip(r: Rules)
    ensures
        rules_named(rules_name(r)) == Some(r),
{
    reveal_strlit("solo");
    reveal_strlit("standard");
    reveal_strlit("wrapped");
    reveal_strlit("constrictor");
    reveal_strlit("royale");
    assert("solo"@.len() == 4 && "standard"@.len() == 8 && "wrapped"@.len() == 7);
    assert("constrictor"@.len() == 11 && "royale"@.len() == 6);
}

/// The rule set that a ruleset name names, if any.
pub fn rules_from_name(name: &String) -> (r: Option<Rules>)
    ensures
        r == rules_named(name@),
{
    if *name == String::from_str("solo") {
        Some(Rules::Solo)
    } else if *name == String::from_str("standard") {
        Some(Rules::Standard)
    } else if *name == String::from_str("wrapped") {
        Some(Rules::Wrapped)
    } else if *name == String::from_str("constrictor") {
        Some(Rules::Constrictor)
    } else if *name == String::from_str("royale") {
        Some(Rules::Royale)
    } else {
        None
    }
}

impl Game {
    /// A game for a request. A request without a ruleset name is played by the
    /// standard rules; an unknown name is an error.
    pub fn new(req_game: GameApi, solo: bool) -> (r: Result<Self, Error>)
        ensures
            req_game.ruleset.name@.len() == 0 ==> (r matches Ok(g) && g.ruleset == Rules::Standard
                && g.is_solo == solo && g.api == req_game),
            req_game.ruleset.name@.len() != 0 ==> match rules_named(req_game.ruleset.name@) {
                Some(rules) => (r matches Ok(g) && g.ruleset == rules && g.is_solo == solo && g.api
                    == req_game),
                None => (r matches Err(Error::SerdeError(_))),
            },
    {
        if req_game.ruleset.name.as_str().is_empty() {
            return Ok(Game { api: req_game, ruleset: Rules::Standard, is_solo: solo });
        }
        match rules_from_name(&req_game.ruleset.name) {
            Some(ruleset) => Ok(Game { api: req_game, ruleset, is_solo: solo }),
            None => Err(Error::SerdeError(String::from_str("unknown variant of ruleset name"))),
        }
    }

    /// The turn at which a solo game counts as won.
    pub fn max_turn(&self, board: &Board) -> (t: i32)
        requires
            board.dims_ok(),
        ensures
            t == (board.width * board.height - 3) * 100,
    {
        (board.len() - 3) * 100
    }

    /// Whether too few snakes are left to play on.
    pub fn over(&self, board: &Board) -> (b: bool)
        requires
            0 <= board.num_snakes <= MAX_SNAKES,
        ensures
            b == (board.alive_count() < self.spec_min_alive_snakes()),
    {
        board.num_alive_snakes() < self.min_alive_snakes()
    }

    pub open spec fn spec_min_alive_snakes(&self) -> int {
        if self.is_solo || self.ruleset == Rules::Solo {
            1
        } else {
            2
        }
    }

    /// The number of snakes that must stay alive for the game to go on.
    pub fn min_alive_snakes(&self) -> (n: i32)
        ensures
            n == self.spec_min_alive_snakes(),
    {
        match (self.ruleset, self.is_solo) {
            (_, true) => 1,
            (Rules::Solo, _) => 1,
            (_, false) => 2,
        }
    }
}

} // verus!
