use vstd::prelude::*;

use crate::game::GameMap;
use crate::util::{low4, Coord};

verus! {

#[derive(Copy, Clone, Debug, Default)]
pub struct RoyaleSettings {
    pub shrink_every_n_turns: i32,
}

#[derive(Copy, Clone, Debug, Default)]
pub struct SquadSettings {
    pub allow_body_collisions: bool,
    pub shared_elimination: bool,
    pub shared_health: bool,
    pub shared_length: bool,
}

#[derive(Copy, Clone, Debug, Default)]
pub struct Settings {
    pub food_spawn_chance: i32,
    pub minimum_food: i32,
    pub hazard_damage_per_turn: i32,
    pub royale: RoyaleSettings,
    pub squad: SquadSettings,
}

#[derive(Clone, Debug, Default)]
pub struct Ruleset {
    pub name: String,
    pub version: String,
    pub settings: Settings,
}

#[derive(Clone, Debug, Default)]
pub struct GameApi {
    pub id: String,
    pub timeout: i32,
    pub source: String,
    pub map: GameMap,
    pub ruleset: Ruleset,
}

impl Ruleset {
    /// A copy equal to this ruleset.
    pub fn copy(&self) -> (r: Self)
        ensures
            r == *self,
    {
        Ruleset { name: self.name.clone(), version: self.version.clone(), settings: self.settings }
    }
}

impl GameApi {
    /// A copy equal to this game description.
    pub fn copy(&self) -> (r: Self)
        ensures
            r == *self,
    {
        GameApi {
            id: self.id.clone(),
            timeout: self.timeout,
            source: self.source.clone(),
            map: self.map,
            ruleset: self.ruleset.copy(),
        }
    }
}

/// A copy equal to an optional string.
pub fn copy_opt_string(s: &Option<String>) -> (r: Option<String>)
    ensures
        r == *s,
{
    match s {
        Some(v) => Some(v.clone()),
        None => None,
    }
}

/// A copy equal to a list of coordinates.
pub fn copy_coords(v: &Vec<Coord>) -> (r: Vec<Coord>)
    ensures
        r@ == v@,
{
    let mut r: Vec<Coord> = Vec::with_capacity(v.len());
    let mut i: usize = 0;
    while i < v.len()
        invariant
            i <= v@.len(),
            r@ == v@.subrange(0, i as int),
        decreases v@.len() - i,
    {
        r.push(v[i]);
        i = i + 1;
    }
    assert(v@.subrange(0, v@.len() as int) =~= v@);
    r
}

/// A coordinate as the Battlesnake API writes it.
#[derive(Copy, Clone, Debug, Default, PartialEq, Eq, Structural)]
pub struct ApiCoord {
    pub x: i8,
    pub y: i8,
}

impl ApiCoord {
    pub fn new(x: i8, y: i8) -> (c: Self)
        ensures
            c.x == x,
            c.y == y,
    {
        ApiCoord { x, y }
    }

    pub fn to_internal(&self) -> (c: Coord)
        ensures
            c.x == low4(self.x),
            c.y == low4(self.y),
    {
        Coord::new(self.x, self.y)
    }
}

/// Converting a coordinate to the API form and back keeps its low four bits
/// on each axis, so a coordinate in `0..16` on both axes comes back the same.
pub proof fn lemma_api_coord_round_trip(c: Coord, a: ApiCoord, back: Coord)
    requires
        a.x == low4(c.x) && a.y == low4(c.y),
        back.x == low4(a.x) && back.y == low4(a.y),
    ensures
        back.x == low4(c.x) && back.y == low4(c.y),
        0 <= c.x < 16 && 0 <= c.y < 16 ==> back == c,
{
}

#[derive(Clone, Debug, Default)]
pub struct Customizations {
    pub color: Option<String>,
    pub head: Option<String>,
    pub tail: Option<String>,
}

impl Customizations {
    /// A copy equal to these customizations.
    pub fn copy(&self) -> (r: Self)
        ensures
            r == *self,
    {
        Customizations {
            color: copy_opt_string(&self.color),
            head: copy_opt_string(&self.head),
            tail: copy_opt_string(&self.tail),
        }
    }
}

#[derive(Clone, Debug, Default)]
pub struct SnakeApi {
    pub id: String,
    pub name: String,
    pub health: i32,
    /// Head first, tail last.
    pub body: Vec<Coord>,
    pub latency: String,
    pub head: Coord,
    pub length: i32,
    pub shout: Option<String>,
    pub squad: String,
    pub customizations: Customizations,
}

impl SnakeApi {
    /// A copy with the same fields and the same body.
    pub fn copy(&self) -> (r: Self)
        ensures
            r.id == self.id,
            r.name == self.name,
            r.health == self.health,
            r.body@ == self.body@,
            r.latency == self.latency,
            r.head == self.head,
            r.length == self.length,
            r.shout == self.shout,
            r.squad == self.squad,
            r.customizations == self.customizations,
    {
        SnakeApi {
            id: self.id.clone(),
            name: self.name.clone(),
            health: self.health,
            body: copy_coords(&self.body),
            latency: self.latency.clone(),
            head: self.head,
            length: self.length,
            shout: copy_opt_string(&self.shout),
            squad: self.squad.clone(),
            customizations: self.customizations.copy(),
        }
    }
}

#[derive(Clone, Debug)]
pub struct BoardApi {
    pub height: i32,
    pub width: i32,
    pub food: Vec<Coord>,
    pub hazards: Vec<Coord>,
    pub snakes: Vec<SnakeApi>,
}

#[derive(Clone, Debug)]
pub struct BattleState {
    pub game: GameApi,
    pub turn: i32,
    pub board: BoardApi,
    pub you: SnakeApi,
}

#[derive(Clone, Debug)]
pub struct IndexResp {
    pub apiversion: String,
    pub author: String,
    pub color: String,
    pub head: String,
    pub tail: String,
    pub version: String,
}

} // verus!
