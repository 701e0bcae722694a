//! Values that grow with the dungeon level, and character levels.
use vstd::prelude::*;
use vstd::string::*;
use crate::colour;
use crate::game::Game;
use crate::object::{fits_i32, Fighter, Object};
use crate::{LEVEL_UP_BASE, LEVEL_UP_FACTOR, PLAYER};

verus! {

/// From dungeon level `level` on, the value is `value`.
#[derive(Clone, Copy, Debug, PartialEq, Eq, Structural)]
pub struct Transition {
    pub level: u32,
    pub value: u32,
}

/// The value of the last entry whose level is at most `level`, or 0 when
/// there is none.
pub open spec fn level_value(table: Seq<Transition>, level: u32) -> u32
    decreases table.len(),
{
    if table.len() == 0 {
        0
    } else if level >= table.last().level {
        table.last().value
    } else {
        level_value(table.drop_last(), level)
    }
}

/// The value for a level is 0 or one of the table's values.
pub proof fn lemma_level_value_listed(table: Seq<Transition>, level: u32)
    ensures
        level_value(table, level) == 0 || exists|i: int| 0 <= i < table.len() && (#[trigger] table[i]).value == level_value(table, level),
    decreases table.len(),
{
    if table.len() > 0 && level < table.last().level {
        lemma_level_value_listed(table.drop_last(), level);
        if level_value(table, level) != 0 {
            let i = choose|i: int| 0 <= i < table.len() - 1 && (#[trigger] table.drop_last()[i]).value == level_value(table, level);
            assert(table[i] == table.drop_last()[i]);
        }
    }
}

/// Returns a value that depends on the dungeon level: the value of the last
/// entry of `table` whose level is at most `level`, or 0.
pub fn from_dungeon_level(table: &[Transition], level: u32) -> (r: u32)
    ensures
        r == level_value(table@, level),
        r == 0 || exists|i: int| 0 <= i < table@.len() && (#[trigger] table@[i]).value == r,
{
    proof {
        lemma_level_value_listed(table@, level);
    }
    let mut i: usize = table.len();
    assert(table@.subrange(0, i as int) =~= table@);
    while i > 0
        invariant
            i <= table@.len(),
            level_value(table@, level) == level_value(table@.subrange(0, i as int), level),
        decreases i,
    {
        let t = table[i - 1];
        proof {
            let s = table@.subrange(0, i as int);
            assert(s.drop_last() =~= table@.subrange(0, i - 1));
        }

        if level >= t.level {
            assert(table@[i - 1] == t);
            return t.value;
        }
        i = i - 1;
    }
    0
}

/// Experience needed to leave character level `level`.
pub open spec fn spec_level_up_xp(level: u32) -> int {
    LEVEL_UP_BASE + level * LEVEL_UP_FACTOR
}

/// Experience needed to leave character level `level`.
pub fn level_up_xp(level: u32) -> (r: i32)
    requires
        fits_i32(spec_level_up_xp(level)),
    ensures
        r == spec_level_up_xp(level),
{
    (LEVEL_UP_BASE as i64 + level as i64 * LEVEL_UP_FACTOR as i64) as i32
}

/// The player has the experience for the next character level.
pub open spec fn ready_to_level(player: Object) -> bool {
    player.fighter matches Some(f) && f.xp >= spec_level_up_xp(player.level)
}

/// Whether the player has the experience for the next character level.
pub fn needs_level_up(objects: &Vec<Object>) -> (r: bool)
    requires
        objects@.len() > PLAYER,
        fits_i32(spec_level_up_xp(objects@[PLAYER as int].level)),
    ensures
        r == ready_to_level(objects@[PLAYER as int]),
{
    let player = &objects[PLAYER];
    let needed = level_up_xp(player.level);
    match player.fighter {
        Some(f) => f.xp >= needed,
        None => false,
    }
}

/// The fighter after spending the experience of a level and raising the
/// chosen statistic: 0 for 20 more maximum hit points, 1 for one more power,
/// 2 for one more defense.
pub open spec fn raised(f: Fighter, choice: usize, cost: int) -> Fighter {
    let g = Fighter { xp: (f.xp - cost) as i32, ..f };
    if choice == 0 {
        Fighter { base_max_hp: (g.base_max_hp + 20) as i32, ..g }
    } else if choice == 1 {
        Fighter { base_power: (g.base_power + 1) as i32, ..g }
    } else {
        Fighter { base_defense: (g.base_defense + 1) as i32, ..g }
    }
}

/// Levels the player up when the experience suffices: the character level
/// rises by one, the experience of the level is spent, and the chosen
/// statistic is raised. Otherwise nothing happens.
pub fn level_up(choice: usize, game: &mut Game, objects: &mut Vec<Object>)
    requires
        choice < 3,
        old(objects)@.len() > PLAYER,
        old(objects)@[PLAYER as int].level < u32::MAX,
        fits_i32(spec_level_up_xp(old(objects)@[PLAYER as int].level)),
        old(objects)@[PLAYER as int].fighter matches Some(f) ==> {
            &&& fits_i32(f.base_max_hp + 20)
            &&& fits_i32(f.base_power + 1)
            &&& fits_i32(f.base_defense + 1)
        },
    ensures
        ({
            let p = old(objects)@[PLAYER as int];
            if ready_to_level(p) {
                &&& final(objects)@ == old(objects)@.update(
                    PLAYER as int,
                    Object {
                        level: (p.level + 1) as u32,
                        fighter: Some(raised(p.fighter.unwrap(), choice, spec_level_up_xp(p.level))),
                        ..p
                    },
                )
                &&& crate::combat::logged(*old(game), *final(game), 1)
            } else {
                final(objects)@ == old(objects)@ && *final(game) == *old(game)
            }
        }),
{
    if !needs_level_up(objects) {
        return;
    }
    let needed = level_up_xp(objects[PLAYER].level);
    let f = objects[PLAYER].fighter.unwrap();
    let new_level = objects[PLAYER].level + 1;
    objects[PLAYER].level = new_level;
    let ghost m0 = game.messages@;
    let text = String::from_str("You leveled up! You are now level ").concat(new_level.to_string().as_str());
    game.messages.add(text, colour::yellow());
    assert(game.messages@.subrange(0, m0.len() as int) =~= m0);
    let g = Fighter { xp: f.xp - needed, ..f };
    let raised = if choice == 0 {
        Fighter { base_max_hp: g.base_max_hp + 20, ..g }
    } else if choice == 1 {
        Fighter { base_power: g.base_power + 1, ..g }
    } else {
        Fighter { base_defense: g.base_defense + 1, ..g }
    };
    objects[PLAYER].fighter = Some(raised);
}

} // verus!
