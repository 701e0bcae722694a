//! Items: picking up, using and dropping them.
use vstd::prelude::*;
use vstd::string::*;
use crate::ai::Ai;
use crate::colour::{self, SerializableColour};
use crate::combat::{
    closest_monster, damage_fits, damage_result, dist_to_player, fighter_at, kill_xp, logged,
    monster_at, strike_candidate,
};
use crate::equipment::{equip_messages, first_equipped_in, get_equipped_in_slot, stat, toggle_equipment, toggled, with_equipped, Bonus};
use crate::game::Game;
use crate::map::{in_map, wf_flags};
use crate::object::{dist_sq, fits_i32, Fighter, Object};
use crate::{INVENTORY_CAPACITY, PLAYER};

verus! {

/// Hit points a healing potion restores.
pub const HEAL_AMOUNT: i32 = 40;

/// Damage of a lightning bolt.
pub const LIGHTNING_DAMAGE: i32 = 20;

/// Reach of a lightning bolt.
pub const LIGHTNING_RANGE: i32 = 5;

/// Reach of the confusion spell's targeting.
pub const CONFUSION_RANGE: i32 = 8;

/// Turns a confusion spell lasts.
pub const CONFUSION_NUM_TURNS: i32 = 10;

/// Damage of a fireball.
pub const FIREBALL_DAMAGE: i32 = 25;

/// Radius of a fireball's blast.
pub const FIREBALL_RADIUS: i32 = 3;

/// The kinds of item.
#[derive(Clone, Copy, Debug, PartialEq, Eq, Structural)]
pub enum Item {
    Heal,
    Lightning,
    Confuse,
    Fireball,
    Sword,
    Shield,
}

/// What using an item did to it.
#[derive(Clone, Copy, Debug, PartialEq, Eq, Structural)]
pub enum UseResult {
    UsedUp,
    UsedAndKept,
    Cancelled,
}

/// The item that lands in the inventory: equipment for a slot that nothing
/// holds is equipped on the way.
pub open spec fn picked(inv: Seq<Object>, o: Object) -> Object {
    match o.equipment {
        Some(e) => if first_equipped_in(inv.push(o), e.slot) is None {
            with_equipped(o, true)
        } else {
            o
        },
        None => o,
    }
}

/// The list after `swap_remove(i)`: the last entry takes the place of entry `i`.
pub open spec fn swap_removed(s: Seq<Object>, i: int) -> Seq<Object> {
    s.update(i, s.last()).drop_last()
}

/// Moves entity `object_id` from the ground into the inventory, unless the
/// inventory is full; equipment for a free slot is equipped.
pub fn pick_item_up(object_id: usize, game: &mut Game, objects: &mut Vec<Object>)
    requires
        object_id < old(objects)@.len(),
        object_id != PLAYER,
    ensures
        final(game).map == old(game).map,
        final(game).dungeon_level == old(game).dungeon_level,
        final(game).messages@.len() > old(game).messages@.len(),
        final(game).messages@.subrange(0, old(game).messages@.len() as int) == old(game).messages@,
        old(game).inventory@.len() >= INVENTORY_CAPACITY ==> {
            &&& final(objects)@ == old(objects)@
            &&& final(game).inventory@ == old(game).inventory@
            &&& final(game).messages@.len() == old(game).messages@.len() + 1
            &&& final(game).messages@.last().0 == "Your inventory is full, cannot pick up "@ + old(objects)@[object_id as int].name@
        },
        old(game).inventory@.len() < INVENTORY_CAPACITY ==> {
            &&& final(objects)@ == swap_removed(old(objects)@, object_id as int)
            &&& final(game).inventory@ == old(game).inventory@.push(picked(old(game).inventory@, old(objects)@[object_id as int]))
        },
{
    let ghost m0 = game.messages@;
    if game.inventory.len() >= INVENTORY_CAPACITY {
        let text = String::from_str("Your inventory is full, cannot pick up ").concat(objects[object_id].name.as_str());
        game.messages.add(text, colour::red());
        assert(game.messages@.subrange(0, m0.len() as int) =~= m0);
    } else {
        let item = objects.swap_remove(object_id);
        assert(objects@ =~= swap_removed(old(objects)@, object_id as int));
        let text = String::from_str("You picked up ").concat(item.name.as_str());
        game.messages.add(text, colour::green());
        let ghost m1 = game.messages@;
        assert(m1.subrange(0, m0.len() as int) =~= m0);
        let index = game.inventory.len();
        let slot = match item.equipment {
            Some(e) => Some(e.slot),
            None => None,
        };
        game.inventory.push(item);
        if let Some(slot) = slot {
            if get_equipped_in_slot(slot, &game.inventory).is_none() {
                game.inventory[index].equip(&mut game.messages);
            }
        }
        assert(game.inventory@ =~= old(game).inventory@.push(picked(old(game).inventory@, old(objects)@[object_id as int])));
        assert(game.messages@.subrange(0, m0.len() as int) =~= m1.subrange(0, m0.len() as int));
    }
}

/// Takes item `inventory_id` out of the inventory, unequips it, and puts it on
/// the ground under the player.
pub fn drop_item(inventory_id: usize, game: &mut Game, objects: &mut Vec<Object>)
    requires
        inventory_id < old(game).inventory@.len(),
        old(objects)@.len() > PLAYER,
    ensures
        final(game).map == old(game).map,
        final(game).dungeon_level == old(game).dungeon_level,
        final(game).inventory@ == old(game).inventory@.remove(inventory_id as int),
        final(game).messages@.len() > old(game).messages@.len(),
        final(game).messages@ == old(game).messages@ + (if old(game).inventory@[inventory_id as int].equipment is Some {
            equip_messages(old(game).inventory@[inventory_id as int], false)
        } else {
            Seq::empty()
        }).push(
            (
                "You dropped your "@ + old(game).inventory@[inventory_id as int].name@ + "."@,
                SerializableColour { r: 255, g: 255, b: 0 },
            ),
        ),
        final(game).messages@.subrange(0, old(game).messages@.len() as int) == old(game).messages@,
        final(objects)@ == old(objects)@.push(
            ({
                let o = with_equipped(old(game).inventory@[inventory_id as int], false);
                Object { x: old(objects)@[PLAYER as int].x, y: old(objects)@[PLAYER as int].y, ..o }
            }),
        ),
{
    let ghost m0 = game.messages@;
    let mut item = game.inventory.remove(inventory_id);
    if item.equipment.is_some() {
        item.unequip(&mut game.messages);
    } else {
        assert(game.messages@ =~= m0 + Seq::<(Seq<char>, SerializableColour)>::empty());
    }
    let ghost m1 = game.messages@;
    item.set_pos(objects[PLAYER].x, objects[PLAYER].y);
    let text = String::from_str("You dropped your ").concat(item.name.as_str()).concat(".");
    game.messages.add(text, colour::yellow());
    assert(game.messages@.subrange(0, m0.len() as int) =~= m1.subrange(0, m0.len() as int));
    assert(game.messages@ =~= m1.push(
        ("You dropped your "@ + old(game).inventory@[inventory_id as int].name@ + "."@, SerializableColour { r: 255, g: 255, b: 0 }),
    ));
    objects.push(item);
}

/// A potion heals: the player is a fighter short of maximum hit points.
pub open spec fn heal_applies(objects: Seq<Object>, inv: Seq<Object>) -> bool {
    objects[PLAYER as int].fighter matches Some(f) && f.hp != stat(objects[PLAYER as int], inv, Bonus::MaxHp)
}

/// Heals the player by `HEAL_AMOUNT`; cancelled at full health.
pub fn cast_heal(game: &mut Game, objects: &mut Vec<Object>) -> (r: UseResult)
    requires
        old(objects)@.len() > PLAYER,
        old(game).inventory@.len() <= INVENTORY_CAPACITY,
        fits_i32(stat(old(objects)@[PLAYER as int], old(game).inventory@, Bonus::MaxHp)),
        old(objects)@[PLAYER as int].fighter is Some ==> fits_i32(old(objects)@[PLAYER as int].fighter.unwrap().hp + HEAL_AMOUNT),
    ensures
        r == if heal_applies(old(objects)@, old(game).inventory@) { UseResult::UsedUp } else { UseResult::Cancelled },
        heal_applies(old(objects)@, old(game).inventory@) ==> {
            let p = old(objects)@[PLAYER as int];
            let f = p.fighter.unwrap();
            let max = stat(p, old(game).inventory@, Bonus::MaxHp);
            let hp = if f.hp + HEAL_AMOUNT > max { max } else { f.hp + HEAL_AMOUNT };
            final(objects)@ == old(objects)@.update(PLAYER as int, Object { fighter: Some(Fighter { hp: hp as i32, ..f }), ..p })
        },
        !heal_applies(old(objects)@, old(game).inventory@) ==> final(objects)@ == old(objects)@,
        logged(*old(game), *final(game), if old(objects)@[PLAYER as int].fighter is Some { 1 } else { 0 }),
        old(objects)@[PLAYER as int].fighter is Some && !heal_applies(old(objects)@, old(game).inventory@) ==> final(game).messages@
            == old(game).messages@.push(("You are already at full health!"@, SerializableColour { r: 255, g: 0, b: 0 })),
        heal_applies(old(objects)@, old(game).inventory@) ==> final(game).messages@ == old(game).messages@.push(
            ("Your wounds are healed"@, SerializableColour { r: 159, g: 63, b: 255 }),
        ),
{
    let ghost m0 = game.messages@;
    if let Some(f) = objects[PLAYER].fighter {
        let max = objects[PLAYER].max_hp(game);
        if f.hp == max {
            game.messages.add(String::from_str("You are already at full health!"), colour::red());
            assert(game.messages@.subrange(0, m0.len() as int) =~= m0);
            assert(game.messages@ == m0.push(("You are already at full health!"@, SerializableColour { r: 255, g: 0, b: 0 })));
            return UseResult::Cancelled;
        }
        game.messages.add(String::from_str("Your wounds are healed"), colour::light_violet());
        assert(game.messages@.subrange(0, m0.len() as int) =~= m0);
        objects[PLAYER].heal(HEAL_AMOUNT, game);
        return UseResult::UsedUp;
    }
    assert(game.messages@.subrange(0, m0.len() as int) =~= m0);
    UseResult::Cancelled
}

/// Strikes the closest visible monster within `LIGHTNING_RANGE`; the player
/// gains the experience of a kill. Cancelled when no monster is in reach.
pub fn cast_lightning(fov: &Vec<Vec<bool>>, game: &mut Game, objects: &mut Vec<Object>) -> (r: UseResult)
    requires
        wf_flags(*fov),
        old(objects)@.len() > PLAYER,
        in_map((old(objects)@[PLAYER as int].x as int, old(objects)@[PLAYER as int].y as int)),
        forall|i: int| 0 <= i < old(objects)@.len() ==> damage_fits(#[trigger] old(objects)@[i], LIGHTNING_DAMAGE as int),
        old(objects)@[PLAYER as int].fighter is Some,
        forall|i: int|
            0 <= i < old(objects)@.len() && #[trigger] old(objects)@[i].fighter is Some ==> fits_i32(
                old(objects)@[PLAYER as int].fighter.unwrap().xp + old(objects)@[i].fighter.unwrap().xp,
            ),
    ensures
        final(game).map == old(game).map,
        final(game).inventory == old(game).inventory,
        final(game).dungeon_level == old(game).dungeon_level,
        final(game).messages@.subrange(0, old(game).messages@.len() as int) == old(game).messages@,
        final(game).messages@.len() > old(game).messages@.len(),
        (forall|j: int|
            strike_candidate(*fov, old(objects)@, j) ==> dist_to_player(old(objects)@, j) >= LIGHTNING_RANGE * LIGHTNING_RANGE + 1) ==> r == UseResult::Cancelled && final(objects)@ == old(objects)@,
        r == UseResult::UsedUp ==> exists|t: int|
            #![trigger old(objects)@[t]]
            strike_candidate(*fov, old(objects)@, t) && dist_to_player(old(objects)@, t) < LIGHTNING_RANGE * LIGHTNING_RANGE + 1 && final(objects)@.len() == old(objects)@.len() && damage_result(
                old(objects)@[t],
                LIGHTNING_DAMAGE as int,
                final(objects)@[t],
            ) && final(objects)@[PLAYER as int] == match kill_xp(old(objects)@[t], LIGHTNING_DAMAGE as int) {
                Some(xp) => crate::combat::with_xp(old(objects)@[PLAYER as int], xp as int),
                None => old(objects)@[PLAYER as int],
            } && forall|i: int|
                0 <= i < old(objects)@.len() && i != t && i != PLAYER ==> #[trigger] final(objects)@[i] == old(objects)@[i],
        r != UseResult::UsedAndKept,
        (r == UseResult::UsedUp) == exists|t: int|
            strike_candidate(*fov, old(objects)@, t) && dist_to_player(old(objects)@, t) < LIGHTNING_RANGE * LIGHTNING_RANGE + 1,
{
    let ghost m0 = game.messages@;
    let monster_id = closest_monster(fov, objects, LIGHTNING_RANGE);
    match monster_id {
        Some(id) => {
            let text = String::from_str("A lightning bolt strikes the ").concat(objects[id].name.as_str()).concat(
                " with a loud thunder! \n It takes 20 damage",
            );
            game.messages.add(text, colour::light_blue());
            let ghost m1 = game.messages@;
            assert(m1.subrange(0, m0.len() as int) =~= m0);
            let killed = objects[id].take_damage(LIGHTNING_DAMAGE, game);
            assert(game.messages@.subrange(0, m0.len() as int) =~= m1.subrange(0, m0.len() as int));
            if let Some(xp) = killed {
                let f = objects[PLAYER].fighter.unwrap();
                objects[PLAYER].fighter = Some(Fighter { xp: f.xp + xp, ..f });
            }
            assert(strike_candidate(*fov, old(objects)@, id as int));
            UseResult::UsedUp
        },
        None => {
            game.messages.add(String::from_str("No enemy is close enough to strike."), colour::red());
            assert(game.messages@.subrange(0, m0.len() as int) =~= m0);
            UseResult::Cancelled
        },
    }
}

/// The behaviour a monster gets when confused: its old behaviour, or the
/// basic one when it had none, wrapped for `CONFUSION_NUM_TURNS` turns.
pub open spec fn confused_ai(old_ai: Option<Ai>) -> Ai {
    Ai::Confused {
        previous_ai: Box::new(
            match old_ai {
                Some(a) => a,
                None => Ai::Basic,
            },
        ),
        num_turns: CONFUSION_NUM_TURNS,
    }
}

/// The monster the confusion spell hits: the first fighter other than the
/// player on the chosen tile.
pub open spec fn confuse_target(objects: Seq<Object>, target: Option<(i32, i32)>, i: int) -> bool {
    &&& target matches Some(p)
    &&& 0 <= i < objects.len()
    &&& i != PLAYER
    &&& fighter_at(objects[i], target.unwrap().0 as int, target.unwrap().1 as int)
    &&& forall|j: int|
        0 <= j < i && j != PLAYER ==> !fighter_at(#[trigger] objects[j], target.unwrap().0 as int, target.unwrap().1 as int)
}

/// Confuses the monster on the chosen tile; cancelled when the choice was
/// cancelled or no monster stands there.
pub fn cast_confuse(target: Option<(i32, i32)>, game: &mut Game, objects: &mut Vec<Object>) -> (r: UseResult)
    ensures
        logged(*old(game), *final(game), 1),
        (forall|i: int| !confuse_target(old(objects)@, target, i)) ==> r == UseResult::Cancelled && final(objects)@
            == old(objects)@,
        forall|i: int|
            confuse_target(old(objects)@, target, i) ==> r == UseResult::UsedUp && final(objects)@ == old(objects)@.update(
                i,
                Object { ai: Some(confused_ai(old(objects)@[i].ai)), ..old(objects)@[i] },
            ),
{
    let ghost m0 = game.messages@;
    let monster_id = match target {
        Some((x, y)) => monster_at(x, y, objects),
        None => None,
    };
    match monster_id {
        Some(id) => {
            proof {
                assert(confuse_target(old(objects)@, target, id as int));
                assert forall|i: int| confuse_target(old(objects)@, target, i) implies i == id by {
                    if i < id {
                    } else if i > id {
                        assert(!fighter_at(old(objects)@[id as int], target.unwrap().0 as int, target.unwrap().1 as int));
                    }
                }
            }
            let old_ai = match objects[id].ai.take() {
                Some(a) => a,
                None => Ai::Basic,
            };
            objects[id].ai = Some(Ai::Confused { previous_ai: Box::new(old_ai), num_turns: CONFUSION_NUM_TURNS });
            let text = String::from_str("The eyes of the ").concat(objects[id].name.as_str()).concat(
                " look vacant, as they start to stumble around",
            );
            game.messages.add(text, colour::light_green());
            assert(game.messages@.subrange(0, m0.len() as int) =~= m0);
            assert(objects@ =~= old(objects)@.update(
                id as int,
                Object { ai: Some(confused_ai(old(objects)@[id as int].ai)), ..old(objects)@[id as int] },
            ));
            UseResult::UsedUp
        },
        None => {
            game.messages.add(String::from_str("No enemy is close enough to confuse"), colour::red());
            assert(game.messages@.subrange(0, m0.len() as int) =~= m0);
            UseResult::Cancelled
        },
    }
}

/// Within `r` tiles of `(x, y)` by euclidean distance.
pub open spec fn within(o: Object, x: int, y: int, r: int) -> bool {
    dist_sq(o.x as int, o.y as int, x, y) <= r * r
}

/// Whether `o` stands within `r` tiles of `(x, y)`.
fn is_within(o: &Object, x: i32, y: i32, r: i32) -> (b: bool)
    requires
        0 <= r <= 1000,
    ensures
        b == within(*o, x as int, y as int, r as int),
{
    let dx: i64 = o.x as i64 - x as i64;
    let dy: i64 = o.y as i64 - y as i64;
    let rr: i64 = r as i64;
    assert(dist_sq(o.x as int, o.y as int, x as int, y as int) == dx * dx + dy * dy) by (nonlinear_arith)
        requires
            dx == o.x - x,
            dy == o.y - y,
    ;
    if dx < -rr || dx > rr || dy < -rr || dy > rr {
        assert(dx * dx > rr * rr || dy * dy > rr * rr) by (nonlinear_arith)
            requires
                dx < -rr || dx > rr || dy < -rr || dy > rr,
                rr >= 0,
        ;
        assert(dx * dx >= 0 && dy * dy >= 0) by (nonlinear_arith);
        return false;
    }
    assert(dx * dx <= rr * rr && dy * dy <= rr * rr && rr * rr <= 1_000_000) by (nonlinear_arith)
        requires
            -rr <= dx <= rr,
            -rr <= dy <= rr,
            0 <= rr <= 1000,
    ;
    assert(dx * dx >= 0 && dy * dy >= 0) by (nonlinear_arith);
    dx * dx + dy * dy <= rr * rr
}

/// An entity the fireball burns: a fighter within the radius that is not the
/// player.
pub open spec fn burned(o: Object, i: int, x: int, y: int) -> bool {
    i != PLAYER && o.fighter is Some && within(o, x, y, FIREBALL_RADIUS as int)
}

/// Experience from the entities among the first `n` that the fireball kills.
pub open spec fn fireball_xp(objects: Seq<Object>, n: int, x: int, y: int) -> int
    decreases n,
{
    if n <= 0 {
        0
    } else {
        fireball_xp(objects, n - 1, x, y) + if burned(objects[n - 1], n - 1, x, y) && dies_from_fireball(objects[n - 1]) {
            objects[n - 1].fighter.unwrap().xp as int
        } else {
            0
        }
    }
}

/// The fireball's damage kills `o`.
pub open spec fn dies_from_fireball(o: Object) -> bool {
    kill_xp(o, FIREBALL_DAMAGE as int) is Some
}

/// Burns every fighter within `FIREBALL_RADIUS` of the chosen tile, the
/// player excepted, and gives the player the experience of every kill.
/// Cancelled when the choice was cancelled.
pub fn cast_fireball(target: Option<(i32, i32)>, game: &mut Game, objects: &mut Vec<Object>) -> (r: UseResult)
    requires
        old(objects)@.len() > PLAYER,
        old(objects)@.len() <= 0x7fff_ffff,
        old(objects)@[PLAYER as int].fighter is Some,
        forall|i: int| 0 <= i < old(objects)@.len() ==> damage_fits(#[trigger] old(objects)@[i], FIREBALL_DAMAGE as int),
        target matches Some(p) ==> fits_i32(
            old(objects)@[PLAYER as int].fighter.unwrap().xp + fireball_xp(old(objects)@, old(objects)@.len() as int, p.0 as int, p.1 as int),
        ),
    ensures
        final(game).map == old(game).map,
        final(game).inventory == old(game).inventory,
        final(game).dungeon_level == old(game).dungeon_level,
        final(game).messages@.subrange(0, old(game).messages@.len() as int) == old(game).messages@,
        target is None ==> r == UseResult::Cancelled && final(objects)@ == old(objects)@ && final(game).messages@ == old(game).messages@,
        target matches Some(p) ==> {
            &&& r == UseResult::UsedUp
            &&& final(objects)@.len() == old(objects)@.len()
            &&& forall|i: int|
                0 <= i < old(objects)@.len() && i != PLAYER ==> if burned(#[trigger] old(objects)@[i], i, p.0 as int, p.1 as int) {
                    damage_result(old(objects)@[i], FIREBALL_DAMAGE as int, final(objects)@[i])
                } else {
                    final(objects)@[i] == old(objects)@[i]
                }
            &&& final(objects)@[PLAYER as int] == crate::combat::with_xp(
                old(objects)@[PLAYER as int],
                fireball_xp(old(objects)@, old(objects)@.len() as int, p.0 as int, p.1 as int),
            )
            &&& final(objects)@[PLAYER as int].fighter.unwrap().hp == old(objects)@[PLAYER as int].fighter.unwrap().hp
            &&& final(objects)@[PLAYER as int].alive == old(objects)@[PLAYER as int].alive
        },
{
    let ghost m0 = game.messages@;
    let (x, y) = match target {
        Some(p) => p,
        None => {
            return UseResult::Cancelled;
        },
    };
    game.messages.add(
        String::from_str("The fireball explodes, burning everything within 3 tiles!"),
        colour::orange(),
    );
    assert(game.messages@.subrange(0, m0.len() as int) =~= m0);
    let mut xp_to_gain: i64 = 0;
    let mut id: usize = 0;
    while id < objects.len()
        invariant
            id <= objects@.len(),
            objects@.len() == old(objects)@.len(),
            old(objects)@.len() <= 0x7fff_ffff,
            objects@.len() > PLAYER,
            objects@[PLAYER as int] == old(objects)@[PLAYER as int],
            forall|i: int| 0 <= i < old(objects)@.len() ==> damage_fits(#[trigger] old(objects)@[i], FIREBALL_DAMAGE as int),
            forall|i: int|
                0 <= i < id && i != PLAYER ==> if burned(#[trigger] old(objects)@[i], i, x as int, y as int) {
                    damage_result(old(objects)@[i], FIREBALL_DAMAGE as int, objects@[i])
                } else {
                    objects@[i] == old(objects)@[i]
                },
            forall|i: int| id <= i < objects@.len() ==> #[trigger] objects@[i] == old(objects)@[i],
            xp_to_gain == fireball_xp(old(objects)@, id as int, x as int, y as int),
            -(id as int) * 0x8000_0000 <= xp_to_gain <= (id as int) * 0x8000_0000,
            game.map == old(game).map,
            game.messages@.len() >= m0.len(),
            game.inventory == old(game).inventory,
            game.dungeon_level == old(game).dungeon_level,
            game.messages@.subrange(0, m0.len() as int) == m0,
            m0 == old(game).messages@,
        decreases objects@.len() - id,
    {
        let hit = id != PLAYER && objects[id].fighter.is_some() && is_within(&objects[id], x, y, FIREBALL_RADIUS);
        proof {
            assert(objects@[id as int] == old(objects)@[id as int]);
        }
        if hit {
            let text = String::from_str("The ").concat(objects[id].name.as_str()).concat(" gets burned for 25 hit points.");
            let ghost g0 = game.messages@;
            game.messages.add(text, colour::orange());
            let ghost g1 = game.messages@;
            assert(g1.subrange(0, m0.len() as int) =~= g0.subrange(0, m0.len() as int));
            if let Some(xp) = objects[id].take_damage(FIREBALL_DAMAGE, game) {
                xp_to_gain = xp_to_gain + xp as i64;
            }
            assert(game.messages@.subrange(0, m0.len() as int) =~= g1.subrange(0, m0.len() as int));
        }
        proof {
            assert(-(id as int) * 0x8000_0000 - 0x8000_0000 == -((id + 1) as int) * 0x8000_0000) by (nonlinear_arith);
            assert((id as int) * 0x8000_0000 + 0x8000_0000 == ((id + 1) as int) * 0x8000_0000) by (nonlinear_arith);
        }
        id = id + 1;
    }
    let f = objects[PLAYER].fighter.unwrap();
    objects[PLAYER].fighter = Some(Fighter { xp: (f.xp as i64 + xp_to_gain) as i32, ..f });
    UseResult::UsedUp
}

/// Whether using the item needs a chosen target, and its reach: `Some(Some(r))`
/// for a target within `r` tiles, `Some(None)` for a tile anywhere, `None` for
/// no target. An item that needs one has its prompt logged.
pub fn announce_target(inventory_id: usize, game: &mut Game) -> (r: Option<Option<i32>>)
    requires
        inventory_id < old(game).inventory@.len(),
    ensures
        r == match old(game).inventory@[inventory_id as int].item {
            Some(Item::Confuse) => Some(Some(CONFUSION_RANGE)),
            Some(Item::Fireball) => Some(None::<i32>),
            _ => None,
        },
        logged(*old(game), *final(game), if r is Some { 1 } else { 0 }),
{
    let ghost m0 = game.messages@;
    let r = match game.inventory[inventory_id].item {
        Some(Item::Confuse) => {
            game.messages.add(
                String::from_str("Left-click on an enemy to confuse it, or Right-click to cancel."),
                colour::light_cyan(),
            );
            Some(Some(CONFUSION_RANGE))
        },
        Some(Item::Fireball) => {
            game.messages.add(
                String::from_str("Left-click on a target tile for the fireball, or Right-click to cancel."),
                colour::light_cyan(),
            );
            Some(None)
        },
        _ => None,
    };
    assert(game.messages@.subrange(0, m0.len() as int) =~= m0);
    r
}

/// Whether using the item consumes it.
pub open spec fn used_up(
    kind: Item,
    fov: Vec<Vec<bool>>,
    target: Option<(i32, i32)>,
    objects: Seq<Object>,
    inv: Seq<Object>,
) -> bool {
    match kind {
        Item::Heal => heal_applies(objects, inv),
        Item::Lightning => exists|t: int|
            strike_candidate(fov, objects, t) && dist_to_player(objects, t) < LIGHTNING_RANGE * LIGHTNING_RANGE + 1,
        Item::Confuse => exists|i: int| confuse_target(objects, target, i),
        Item::Fireball => target is Some,
        Item::Sword | Item::Shield => false,
    }
}

/// A lightning bolt has a monster to strike.
pub open spec fn lightning_target(fov: Vec<Vec<bool>>, objects: Seq<Object>, t: int) -> bool {
    strike_candidate(fov, objects, t) && dist_to_player(objects, t) < LIGHTNING_RANGE * LIGHTNING_RANGE + 1
}

/// What using an item of kind `kind` does to the entity list.
pub open spec fn use_effect(
    kind: Item,
    fov: Vec<Vec<bool>>,
    target: Option<(i32, i32)>,
    inv: Seq<Object>,
    objects: Seq<Object>,
    objects2: Seq<Object>,
) -> bool {
    match kind {
        Item::Heal => if heal_applies(objects, inv) {
            let p = objects[PLAYER as int];
            let f = p.fighter.unwrap();
            let max = stat(p, inv, Bonus::MaxHp);
            let hp = if f.hp + HEAL_AMOUNT > max { max } else { f.hp + HEAL_AMOUNT };
            objects2 == objects.update(PLAYER as int, Object { fighter: Some(Fighter { hp: hp as i32, ..f }), ..p })
        } else {
            objects2 == objects
        },
        Item::Lightning => if exists|t: int| lightning_target(fov, objects, t) {
            exists|t: int|
                #![trigger objects[t]]
                lightning_target(fov, objects, t) && objects2.len() == objects.len() && damage_result(
                    objects[t],
                    LIGHTNING_DAMAGE as int,
                    objects2[t],
                ) && objects2[PLAYER as int] == match kill_xp(objects[t], LIGHTNING_DAMAGE as int) {
                    Some(xp) => crate::combat::with_xp(objects[PLAYER as int], xp as int),
                    None => objects[PLAYER as int],
                } && forall|i: int| 0 <= i < objects.len() && i != t && i != PLAYER ==> #[trigger] objects2[i] == objects[i]
        } else {
            objects2 == objects
        },
        Item::Confuse => if exists|i: int| confuse_target(objects, target, i) {
            forall|i: int|
                confuse_target(objects, target, i) ==> objects2 == objects.update(
                    i,
                    Object { ai: Some(confused_ai(objects[i].ai)), ..objects[i] },
                )
        } else {
            objects2 == objects
        },
        Item::Fireball => match target {
            None => objects2 == objects,
            Some(p) => {
                &&& objects2.len() == objects.len()
                &&& forall|i: int|
                    0 <= i < objects.len() && i != PLAYER ==> if burned(#[trigger] objects[i], i, p.0 as int, p.1 as int) {
                        damage_result(objects[i], FIREBALL_DAMAGE as int, objects2[i])
                    } else {
                        objects2[i] == objects[i]
                    }
                &&& objects2[PLAYER as int] == crate::combat::with_xp(
                    objects[PLAYER as int],
                    fireball_xp(objects, objects.len() as int, p.0 as int, p.1 as int),
                )
            },
        },
        Item::Sword | Item::Shield => objects2 == objects,
    }
}

/// What the effects of the item need to stay within `i32`.
pub open spec fn use_fits(
    kind: Item,
    fov: Vec<Vec<bool>>,
    target: Option<(i32, i32)>,
    objects: Seq<Object>,
    inv: Seq<Object>,
) -> bool {
    match kind {
        Item::Heal => {
            &&& inv.len() <= INVENTORY_CAPACITY
            &&& fits_i32(stat(objects[PLAYER as int], inv, Bonus::MaxHp))
            &&& objects[PLAYER as int].fighter is Some ==> fits_i32(objects[PLAYER as int].fighter.unwrap().hp + HEAL_AMOUNT)
        },
        Item::Lightning => {
            &&& wf_flags(fov)
            &&& in_map((objects[PLAYER as int].x as int, objects[PLAYER as int].y as int))
            &&& forall|i: int| 0 <= i < objects.len() ==> damage_fits(#[trigger] objects[i], LIGHTNING_DAMAGE as int)
            &&& objects[PLAYER as int].fighter is Some
            &&& forall|i: int|
                0 <= i < objects.len() && #[trigger] objects[i].fighter is Some ==> fits_i32(
                    objects[PLAYER as int].fighter.unwrap().xp + objects[i].fighter.unwrap().xp,
                )
        },
        Item::Fireball => {
            &&& objects.len() <= 0x7fff_ffff
            &&& objects[PLAYER as int].fighter is Some
            &&& forall|i: int| 0 <= i < objects.len() ==> damage_fits(#[trigger] objects[i], FIREBALL_DAMAGE as int)
            &&& target matches Some(p) ==> fits_i32(
                objects[PLAYER as int].fighter.unwrap().xp + fireball_xp(objects, objects.len() as int, p.0 as int, p.1 as int),
            )
        },
        _ => true,
    }
}

/// Uses inventory item `inventory_id`: its effect runs, a consumed item
/// leaves the inventory, a cancelled use is logged; equipment is toggled. An
/// entity without an effect is refused with a message. `target` is the tile
/// chosen for an item that needs one (see `announce_target`).
pub fn use_item(
    inventory_id: usize,
    fov: &Vec<Vec<bool>>,
    target: Option<(i32, i32)>,
    game: &mut Game,
    objects: &mut Vec<Object>,
)
    requires
        inventory_id < old(game).inventory@.len(),
        old(objects)@.len() > PLAYER,
        old(game).inventory@[inventory_id as int].item matches Some(k) ==> use_fits(
            k,
            *fov,
            target,
            old(objects)@,
            old(game).inventory@,
        ),
    ensures
        final(game).map == old(game).map,
        final(game).dungeon_level == old(game).dungeon_level,
        final(game).messages@.subrange(0, old(game).messages@.len() as int) == old(game).messages@,
        old(game).inventory@[inventory_id as int].item is None ==> final(game).messages@ == old(game).messages@.push(
            ("The "@ + old(game).inventory@[inventory_id as int].name@ + " cannot be used"@, SerializableColour { r: 255, g: 255, b: 255 }),
        ),
        old(game).inventory@[inventory_id as int].item matches Some(k) && !used_up(k, *fov, target, old(objects)@, old(game).inventory@)
            && !((k == Item::Sword || k == Item::Shield) && old(game).inventory@[inventory_id as int].equipment is Some)
            ==> final(game).messages@.last() == ("Cancelled"@, SerializableColour { r: 255, g: 255, b: 255 }),
        old(game).inventory@[inventory_id as int].item matches Some(k) ==> use_effect(
            k,
            *fov,
            target,
            old(game).inventory@,
            old(objects)@,
            final(objects)@,
        ),
        match old(game).inventory@[inventory_id as int].item {
            None => final(game).inventory@ == old(game).inventory@ && final(objects)@ == old(objects)@,
            Some(k) => final(game).inventory@ == if used_up(k, *fov, target, old(objects)@, old(game).inventory@) {
                old(game).inventory@.remove(inventory_id as int)
            } else if k == Item::Sword || k == Item::Shield {
                if old(game).inventory@[inventory_id as int].equipment is Some {
                    toggled(old(game).inventory@, inventory_id as int)
                } else {
                    old(game).inventory@
                }
            } else {
                old(game).inventory@
            },
        },
{
    let ghost m0 = game.messages@;
    match game.inventory[inventory_id].item {
        Some(kind) => {
            let result = match kind {
                Item::Heal => cast_heal(game, objects),
                Item::Lightning => cast_lightning(fov, game, objects),
                Item::Confuse => cast_confuse(target, game, objects),
                Item::Fireball => cast_fireball(target, game, objects),
                Item::Sword | Item::Shield => toggle_equipment(inventory_id, game),
            };
            proof {
                if kind == Item::Lightning && result == UseResult::UsedUp {
                    let t = choose|t: int|
                        #![trigger old(objects)@[t]]
                        strike_candidate(*fov, old(objects)@, t) && dist_to_player(old(objects)@, t) < LIGHTNING_RANGE * LIGHTNING_RANGE + 1
                            && objects@.len() == old(objects)@.len() && damage_result(
                            old(objects)@[t],
                            LIGHTNING_DAMAGE as int,
                            objects@[t],
                        ) && objects@[PLAYER as int] == match kill_xp(old(objects)@[t], LIGHTNING_DAMAGE as int) {
                            Some(xp) => crate::combat::with_xp(old(objects)@[PLAYER as int], xp as int),
                            None => old(objects)@[PLAYER as int],
                        } && forall|i: int|
                            0 <= i < old(objects)@.len() && i != t && i != PLAYER ==> #[trigger] objects@[i] == old(objects)@[i];
                    assert(lightning_target(*fov, old(objects)@, t));
                }
                if kind == Item::Lightning && result != UseResult::UsedUp {
                    assert forall|t: int| !lightning_target(*fov, old(objects)@, t) by {}
                }
            }
            let ghost m1 = game.messages@;
            match result {
                UseResult::UsedUp => {
                    game.inventory.remove(inventory_id);
                },
                UseResult::UsedAndKept => {},
                UseResult::Cancelled => {
                    game.messages.add(String::from_str("Cancelled"), colour::white());
                },
            }
            assert(game.messages@.subrange(0, m0.len() as int) =~= m1.subrange(0, m0.len() as int));
        },
        None => {
            let text = String::from_str("The ").concat(game.inventory[inventory_id].name.as_str()).concat(
                " cannot be used",
            );
            game.messages.add(text, colour::white());
            assert(game.messages@.subrange(0, m0.len() as int) =~= m0);
        },
    }
}

} // verus!
