//! What happens when an entity's hit points run out.
use vstd::prelude::*;
use vstd::string::*;
use crate::colour::{self, SerializableColour};
use crate::game::Game;
use crate::message::{decimal, decimal_text};
use crate::object::Object;

verus! {

/// The closed set of death behaviours.
#[derive(Clone, Copy, Debug, PartialEq, Eq, Structural)]
pub enum DeathCallback {
    Player,
    Monster,
}

/// `o2` is the corpse that `o` turns into: the player keeps everything but
/// looks dead; a monster also stops blocking, fighting and thinking, and is
/// renamed "remains of ...".
pub open spec fn corpse_of(kind: DeathCallback, o: Object, o2: Object) -> bool {
    match kind {
        DeathCallback::Player => o2 == Object {
            char: '%',
            colour: SerializableColour { r: 191, g: 0, b: 0 },
            ..o
        },
        DeathCallback::Monster => {
            &&& o2.name@ == "remains of "@ + o.name@
            &&& o2 == Object {
                char: '%',
                colour: SerializableColour { r: 127, g: 0, b: 0 },
                blocks: false,
                fighter: None,
                ai: None,
                name: o2.name,
                ..o
            }
        },
    }
}

/// The message that the death of `o` logs.
pub open spec fn death_message(kind: DeathCallback, o: Object) -> (Seq<char>, SerializableColour) {
    match kind {
        DeathCallback::Player => ("You Died!"@, SerializableColour { r: 255, g: 0, b: 0 }),
        DeathCallback::Monster => (
            o.name@ + " is dead! You gain "@ + decimal(o.fighter.unwrap().xp as int) + " experience points."@,
            SerializableColour { r: 255, g: 127, b: 0 },
        ),
    }
}

/// The game after one message was logged, nothing else changed.
pub open spec fn logged_one(g: Game, g2: Game) -> bool {
    &&& g2.messages@.len() == g.messages@.len() + 1
    &&& g2.messages@.subrange(0, g.messages@.len() as int) == g.messages@
    &&& g2.map == g.map
    &&& g2.inventory == g.inventory
    &&& g2.dungeon_level == g.dungeon_level
}

impl DeathCallback {
    /// Turns `object` into a corpse and logs its death.
    pub fn callback(self, object: &mut Object, game: &mut Game)
        requires
            self == DeathCallback::Monster ==> old(object).fighter is Some,
        ensures
            corpse_of(self, *old(object), *final(object)),
            logged_one(*old(game), *final(game)),
            final(game).messages@ == old(game).messages@.push(death_message(self, *old(object))),
    {
        match self {
            DeathCallback::Player => player_death(object, game),
            DeathCallback::Monster => monster_death(object, game),
        }
    }
}

fn player_death(player: &mut Object, game: &mut Game)
    ensures
        corpse_of(DeathCallback::Player, *old(player), *final(player)),
        logged_one(*old(game), *final(game)),
        final(game).messages@ == old(game).messages@.push(death_message(DeathCallback::Player, *old(player))),
{
    let ghost m0 = game.messages@;
    game.messages.add(String::from_str("You Died!"), colour::red());
    assert(game.messages@.subrange(0, m0.len() as int) =~= m0);
    player.char = '%';
    player.colour = colour::dark_red();
}

fn monster_death(monster: &mut Object, game: &mut Game)
    requires
        old(monster).fighter is Some,
    ensures
        corpse_of(DeathCallback::Monster, *old(monster), *final(monster)),
        logged_one(*old(game), *final(game)),
        final(game).messages@ == old(game).messages@.push(death_message(DeathCallback::Monster, *old(monster))),
{
    let ghost m0 = game.messages@;
    let xp = decimal_text(monster.fighter.unwrap().xp as i64);
    let text = monster.name.clone().concat(" is dead! You gain ").concat(xp.as_str()).concat(" experience points.");
    game.messages.add(text, colour::orange());
    assert(game.messages@.subrange(0, m0.len() as int) =~= m0);
    monster.char = '%';
    monster.colour = colour::darker_red();
    monster.blocks = false;
    monster.fighter = None;
    monster.ai = None;
    let name = String::from_str("remains of ").concat(monster.name.as_str());
    monster.name = name;
}

} // verus!
