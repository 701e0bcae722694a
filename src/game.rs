//! The game session and the turn scheduler.
use vstd::prelude::*;
use vstd::string::*;
use crate::ai::{ai_next, ai_take_turn, basic_acts, in_reach, player_standing, took_turn, turn_effect, turn_fits, Ai};
use crate::colour;
use crate::combat::{attack_damage, can_take_damage, dies_from, hp_after};
use crate::death::DeathCallback;
use crate::equipment::{bonus_total, equipped_items, stat, Bonus, Equipment, Slot};
use crate::items::Item;
use crate::map::{generated, in_map, make_map, walkable, wf_flags, wf_map, Grid};
use crate::message::Messages;
use crate::movement::spec_blocked;
use crate::object::{fits_i32, small_coord, Fighter, Object};
use crate::tile::Rect;
use crate::{INVENTORY_CAPACITY, PLAYER};

verus! {

/// The state of one game: the level's map, the message log, the inventory and
/// the dungeon level.
pub struct Game {
    pub map: Grid,
    pub messages: Messages,
    pub inventory: Vec<Object>,
    pub dungeon_level: u32,
}

/// What a player's action amounted to.
#[derive(Clone, Copy, Debug, PartialEq, Eq, Structural)]
pub enum PlayerAction {
    TookTurn,
    DidntTakeTurn,
    Exit,
}

/// The bound that keeps the statistics of one turn within `i32`.
pub open spec fn stat_limit() -> int {
    1_000_000
}

/// An equipment's bonuses are within the bound.
pub open spec fn equipment_sane(e: Equipment) -> bool {
    &&& -stat_limit() <= e.max_hp_bonus <= stat_limit()
    &&& -stat_limit() <= e.power_bonus <= stat_limit()
    &&& -stat_limit() <= e.defense_bonus <= stat_limit()
}

/// An inventory item's equipment, if any, is within the bound.
pub open spec fn item_sane(o: Object) -> bool {
    match o.equipment {
        Some(e) => equipment_sane(e),
        None => true,
    }
}

/// An entity stands near the grid and its statistics are within the bound;
/// hit points may have run far below 0.
pub open spec fn entity_sane(o: Object) -> bool {
    &&& small_coord(o.x as int)
    &&& small_coord(o.y as int)
    &&& o.ai is Some ==> o.fighter is Some
    &&& o.fighter matches Some(f) ==> {
        &&& -stat_limit() <= f.base_max_hp <= stat_limit()
        &&& -stat_limit() <= f.base_power <= stat_limit()
        &&& -stat_limit() <= f.base_defense <= stat_limit()
        &&& -60 * stat_limit() <= f.hp <= stat_limit()
        &&& -2 * stat_limit() <= f.xp <= 2 * stat_limit()
    }
}

/// The world the monsters act in keeps every number of a turn within `i32`:
/// a full inventory at most, bounded bonuses and statistics, the player on
/// the grid, and, while the player stands, experience within the bound.
pub open spec fn world_sane(objects: Seq<Object>, inv: Seq<Object>) -> bool {
    &&& inv.len() <= INVENTORY_CAPACITY
    &&& forall|i: int| 0 <= i < inv.len() ==> item_sane(#[trigger] inv[i])
    &&& objects.len() > PLAYER
    &&& in_map((objects[PLAYER as int].x as int, objects[PLAYER as int].y as int))
    &&& forall|i: int| 0 <= i < objects.len() ==> entity_sane(#[trigger] objects[i])
    &&& player_standing(objects) ==> forall|i: int|
        0 <= i < objects.len() && (#[trigger] objects[i]).fighter is Some ==> -stat_limit() <= objects[i].fighter.unwrap().xp
            <= stat_limit()
}

proof fn lemma_worn_bounded(inv: Seq<Object>, kind: Bonus)
    requires
        forall|i: int| 0 <= i < inv.len() ==> item_sane(#[trigger] inv[i]),
    ensures
        -inv.len() * stat_limit() <= bonus_total(equipped_items(inv), kind) <= inv.len() * stat_limit(),
    decreases inv.len(),
{
    if inv.len() > 0 {
        let d = inv.drop_last();
        assert forall|i: int| 0 <= i < d.len() implies item_sane(#[trigger] d[i]) by {
            assert(d[i] == inv[i]);
        }
        lemma_worn_bounded(d, kind);
        let rest = equipped_items(d);
        assert(inv.last() == inv[inv.len() - 1]);
        match inv.last().equipment {
            Some(e) => {
                if e.equipped {
                    assert(rest.push(e).drop_last() =~= rest);
                }
            },
            None => {},
        }
        assert((inv.len() - 1) * stat_limit() + stat_limit() == inv.len() * stat_limit()) by (nonlinear_arith);
    }
}

proof fn lemma_stat_bounded(o: Object, inv: Seq<Object>, kind: Bonus)
    requires
        entity_sane(o),
        inv.len() <= INVENTORY_CAPACITY,
        forall|i: int| 0 <= i < inv.len() ==> item_sane(#[trigger] inv[i]),
    ensures
        -27 * stat_limit() <= stat(o, inv, kind) <= 27 * stat_limit(),
{
    lemma_worn_bounded(inv, kind);
    assert(inv.len() * stat_limit() <= 26 * stat_limit()) by (nonlinear_arith)
        requires
            inv.len() <= 26,
    ;
}

/// In a sane world every monster's turn fits in `i32`.
proof fn lemma_turn_fits(fov: Vec<Vec<bool>>, objects: Seq<Object>, inv: Seq<Object>, id: int)
    requires
        world_sane(objects, inv),
        0 <= id < objects.len(),
        objects[id].ai is Some,
    ensures
        turn_fits(fov, objects, inv, id),
{
    let o = objects[id];
    let p = objects[PLAYER as int];
    assert(entity_sane(o));
    assert(entity_sane(p));
    lemma_stat_bounded(o, inv, Bonus::Power);
    lemma_stat_bounded(p, inv, Bonus::Defense);
    if player_standing(objects) && o.fighter is Some {
        assert(-stat_limit() <= o.fighter.unwrap().xp <= stat_limit());
        assert(-stat_limit() <= p.fighter.unwrap().xp <= stat_limit());
    }
}

/// What a turn leaves unchanged, and that it keeps the world sane.
proof fn lemma_turn_keeps_sane(
    fov: Vec<Vec<bool>>,
    step: (i32, i32),
    g: Game,
    objects: Seq<Object>,
    id: int,
    g2: Game,
    objects2: Seq<Object>,
)
    requires
        world_sane(objects, g.inventory@),
        wf_map(g.map),
        id != PLAYER,
        0 <= id < objects.len(),
        objects2.len() == objects.len(),
        took_turn(fov, step, g, objects, id, g2, objects2),
    ensures
        world_sane(objects2, g2.inventory@),
        g2.map == g.map,
        g2.inventory == g.inventory,
        g2.dungeon_level == g.dungeon_level,
        g2.messages@.len() >= g.messages@.len(),
        g2.messages@.subrange(0, g.messages@.len() as int) == g.messages@,
        forall|j: int| 0 <= j < objects.len() && j != id && j != PLAYER ==> #[trigger] objects2[j] == objects[j],
{
    let o = objects[id];
    let p = objects[PLAYER as int];
    let inv = g.inventory@;
    assert(entity_sane(o));
    assert(entity_sane(p));
    if o.ai is None {
        assert(g.messages@.subrange(0, g.messages@.len() as int) =~= g.messages@);
        return;
    }
    let b = objects2.update(id, Object { ai: o.ai, ..objects2[id] });
    assert(turn_effect(fov, step, g, objects, id, g2, b));
    assert(b.len() == objects.len());
    assert forall|j: int| 0 <= j < objects.len() && j != id implies #[trigger] objects2[j] == b[j] by {}
    if g2 == g {
        assert(g.messages@.subrange(0, g.messages@.len() as int) =~= g.messages@);
    }
    // every entity but the mover and the player is untouched
    assert forall|j: int| 0 <= j < objects.len() && j != id && j != PLAYER implies #[trigger] objects2[j] == objects[j] by {
        assert(b[j] == objects[j]);
    }
    lemma_turn_fits(fov, objects, inv, id);
    lemma_stat_bounded(o, inv, Bonus::Power);
    lemma_stat_bounded(p, inv, Bonus::Defense);
    let attack = o.ai == Some(Ai::Basic) && basic_acts(fov, objects, id) && in_reach(objects, id) && player_standing(objects);
    if attack {
        let d = attack_damage(o, p, inv);
        let hit_player = b[PLAYER as int];
        assert(objects2[PLAYER as int] == hit_player);
        if d > 0 && can_take_damage(p) {
            assert(-60 * stat_limit() <= hp_after(p, d) <= stat_limit());
        }
        assert(entity_sane(hit_player));
        assert(entity_sane(objects2[id]));
        assert forall|i: int| 0 <= i < objects2.len() implies entity_sane(#[trigger] objects2[i]) by {
            if i != id && i != PLAYER {
                assert(objects2[i] == objects[i]);
            }
        }
        if player_standing(objects2) {
            assert(!(d > 0 && dies_from(p, d)));
            assert forall|i: int|
                0 <= i < objects2.len() && (#[trigger] objects2[i]).fighter is Some implies -stat_limit()
                    <= objects2[i].fighter.unwrap().xp <= stat_limit() by {
                if i != id && i != PLAYER {
                    assert(objects2[i] == objects[i]);
                }
            }
        }
    } else {
        // a move, a stumble, a message, or nothing: only the mover's place changes
        assert(b == objects || exists|nx: int, ny: int|
            !spec_blocked(g.map, objects, nx, ny) && b == objects.update(id, Object { x: nx as i32, y: ny as i32, ..o }));
        if b != objects {
            let (nx, ny) = choose|nx: int, ny: int|
                !spec_blocked(g.map, objects, nx, ny) && b == objects.update(id, Object { x: nx as i32, y: ny as i32, ..o });
            assert(walkable(g.map, (nx, ny)));
            assert(b[id].x == nx && b[id].y == ny);
        } else {
            assert(b[id] == o);
        }
        assert(objects2[id].x == b[id].x && objects2[id].y == b[id].y && objects2[id].fighter == b[id].fighter);
        assert(b[id].fighter == o.fighter);
        assert(entity_sane(objects2[id]));
        assert forall|i: int| 0 <= i < objects2.len() implies entity_sane(#[trigger] objects2[i]) by {
            if i != id {
                assert(objects2[i] == b[i]);
                assert(b[i] == objects[i]);
            }
        }
        assert(objects2[PLAYER as int] == p);
        if player_standing(objects2) {
            assert forall|i: int|
                0 <= i < objects2.len() && (#[trigger] objects2[i]).fighter is Some implies -stat_limit()
                    <= objects2[i].fighter.unwrap().xp <= stat_limit() by {
                if i != id {
                    assert(objects2[i] == b[i]);
                    assert(b[i] == objects[i]);
                } else {
                    assert(objects[id].fighter is Some);
                }
            }
        }
    }
}

/// A behaviour state advanced one turn; no state stays none.
pub open spec fn advanced(ai: Option<Ai>) -> Option<Ai> {
    match ai {
        Some(a) => Some(ai_next(a)),
        None => None,
    }
}

/// One index of the sweep: an entity other than the player that has a
/// behaviour state takes its turn; any other entity is passed over.
pub open spec fn sweep_step(
    fov: Vec<Vec<bool>>,
    g: Game,
    s: Seq<Object>,
    k: int,
    g2: Game,
    s2: Seq<Object>,
) -> bool {
    if k != PLAYER && s[k].ai is Some {
        exists|step: (i32, i32)| -1 <= step.0 <= 1 && -1 <= step.1 <= 1 && #[trigger] took_turn(fov, step, g, s, k, g2, s2)
    } else {
        g2 == g && s2 == s
    }
}

/// The states `gs[k]`, `ss[k]` for `k` from 0 to `n` form the sweep: each
/// follows from the one before by the sweep step at index `k`.
pub open spec fn sweep_chain(fov: Vec<Vec<bool>>, gs: Seq<Game>, ss: Seq<Seq<Object>>, n: int) -> bool {
    &&& gs.len() == n + 1
    &&& ss.len() == n + 1
    &&& forall|k: int| 0 <= k < n ==> #[trigger] sweep_step(fov, gs[k], ss[k], k, gs[k + 1], ss[k + 1])
}

/// The monsters' half of a turn: every entity but the player that has a
/// behaviour state takes its turn, in index order.
pub fn monsters_turn(fov: &Vec<Vec<bool>>, game: &mut Game, objects: &mut Vec<Object>)
    requires
        wf_map(old(game).map),
        wf_flags(*fov),
        world_sane(old(objects)@, old(game).inventory@),
    ensures
        final(objects)@.len() == old(objects)@.len(),
        world_sane(final(objects)@, final(game).inventory@),
        final(game).map == old(game).map,
        final(game).inventory == old(game).inventory,
        final(game).dungeon_level == old(game).dungeon_level,
        final(game).messages@.subrange(0, old(game).messages@.len() as int) == old(game).messages@,
        forall|j: int| 0 <= j < old(objects)@.len() && j != PLAYER ==> (#[trigger] final(objects)@[j]).ai == advanced(old(objects)@[j].ai),
        forall|j: int| 0 <= j < old(objects)@.len() && j != PLAYER && (#[trigger] old(objects)@[j]).ai is None ==> final(objects)@[j] == old(objects)@[j],
        exists|gs: Seq<Game>, ss: Seq<Seq<Object>>|
            #[trigger] sweep_chain(*fov, gs, ss, old(objects)@.len() as int) && gs[0] == *old(game) && ss[0] == old(objects)@
                && gs.last() == *final(game) && ss.last() == final(objects)@,
{
    let mut id: usize = 0;
    let ghost mut gs: Seq<Game> = seq![*game];
    let ghost mut ss: Seq<Seq<Object>> = seq![objects@];
    assert(game.messages@.subrange(0, old(game).messages@.len() as int) =~= old(game).messages@);
    while id < objects.len()
        invariant
            wf_map(game.map),
            wf_flags(*fov),
            game.map == old(game).map,
            game.inventory == old(game).inventory,
            game.dungeon_level == old(game).dungeon_level,
            game.messages@.len() >= old(game).messages@.len(),
            game.messages@.subrange(0, old(game).messages@.len() as int) == old(game).messages@,
            objects@.len() == old(objects)@.len(),
            world_sane(objects@, game.inventory@),
            forall|j: int|
                0 <= j < objects@.len() && j != PLAYER ==> (#[trigger] objects@[j]).ai == if j < id {
                    advanced(old(objects)@[j].ai)
                } else {
                    old(objects)@[j].ai
                },
            forall|j: int| 0 <= j < objects@.len() && j != PLAYER && (#[trigger] old(objects)@[j]).ai is None ==> objects@[j] == old(objects)@[j],
            sweep_chain(*fov, gs, ss, id as int),
            id <= objects@.len(),
            gs[0] == *old(game),
            ss[0] == old(objects)@,
            gs.last() == *game,
            ss.last() == objects@,
        decreases objects@.len() - id,
    {
        let ghost g_before = *game;
        let ghost o_before = objects@;
        if id != PLAYER && objects[id].ai.is_some() {
            let ghost g0 = *game;
            let ghost o0 = objects@;
            proof {
                lemma_turn_fits(*fov, objects@, game.inventory@, id as int);
            }
            ai_take_turn(id, fov, game, objects);
            proof {
                let step = choose|step: (i32, i32)|
                    -1 <= step.0 <= 1 && -1 <= step.1 <= 1 && #[trigger] took_turn(*fov, step, g0, o0, id as int, *game, objects@);
                lemma_turn_keeps_sane(*fov, step, g0, o0, id as int, *game, objects@);
                assert(game.messages@.subrange(0, old(game).messages@.len() as int) =~= g0.messages@.subrange(
                    0,
                    old(game).messages@.len() as int,
                ));
                assert(sweep_step(*fov, g_before, o_before, id as int, *game, objects@));
            }
        }
        proof {
            assert(sweep_step(*fov, g_before, o_before, id as int, *game, objects@));
            let gs2 = gs.push(*game);
            let ss2 = ss.push(objects@);
            assert forall|k: int| 0 <= k < id + 1 implies #[trigger] sweep_step(*fov, gs2[k], ss2[k], k, gs2[k + 1], ss2[k + 1]) by {
                if k < id {
                    assert(gs2[k] == gs[k] && gs2[k + 1] == gs[k + 1] && ss2[k] == ss[k] && ss2[k + 1] == ss[k + 1]);
                    assert(sweep_step(*fov, gs[k], ss[k], k, gs[k + 1], ss[k + 1]));
                } else {
                    assert(gs2[k] == gs.last() && ss2[k] == ss.last());
                }
            }
            gs = gs2;
            ss = ss2;
        }
        id = id + 1;
    }
    assert(sweep_chain(*fov, gs, ss, old(objects)@.len() as int));
}

/// The entity moved back to `(0, 0)`.
pub open spec fn at_origin(o: Object) -> Object {
    Object { x: 0, y: 0, ..o }
}

/// The player as a new game creates it.
pub open spec fn new_player(o: Object) -> bool {
    &&& o.name@ == "player"@
    &&& o.blocks
    &&& o.alive
    &&& o.level == 1
    &&& o.fighter == Some(Fighter { base_max_hp: 100, hp: 100, base_defense: 1, base_power: 2, xp: 0, on_death: DeathCallback::Player })
    &&& o.ai is None
    &&& o.item is None
    &&& o.equipment is None
}

/// Starts a game: the player, a first level, a dagger equipped in the left
/// hand, and a welcome message.
pub fn new_game() -> (r: (Game, Vec<Object>))
    ensures
        r.0.dungeon_level == 1,
        r.0.messages@ == seq![
            (
                "Welcome stranger! Prepare to perish in the Tombs of the Fallen."@,
                crate::colour::SerializableColour { r: 255, g: 0, b: 0 },
            ),
        ],
        r.0.inventory@.len() == 1,
        r.0.inventory@[0].item == Some(Item::Sword),
        r.0.inventory@[0].name@ == "Dagger"@,
        r.0.inventory@[0].equipment == Some(
            Equipment { equipped: true, slot: Slot::LeftHand, max_hp_bonus: 0, defense_bonus: 0, power_bonus: 2 },
        ),
        r.1@.len() >= 2,
        new_player(at_origin(r.1@[PLAYER as int])),
        exists|rooms: Seq<Rect>, flags: Seq<bool>|
            #[trigger] generated(r.0.map, rooms, flags, r.1@, at_origin(r.1@[PLAYER as int])),
{
    let mut player = Object::new(0, 0, '@', colour::white(), "player", true);
    player.alive = true;
    player.fighter = Some(
        Fighter { base_max_hp: 100, hp: 100, base_defense: 1, base_power: 2, xp: 0, on_death: DeathCallback::Player },
    );
    let mut objects = vec![player];
    let ghost first_player = objects@[0];
    assert(objects@.len() == 1);
    let map = make_map(&mut objects, 1);
    let mut game = Game { map, messages: Messages::new(), inventory: Vec::new(), dungeon_level: 1 };
    let mut dagger = Object::new(0, 0, '-', colour::sky(), "Dagger", false);
    dagger.item = Some(Item::Sword);
    dagger.equipment = Some(
        Equipment { equipped: true, slot: Slot::LeftHand, max_hp_bonus: 0, defense_bonus: 0, power_bonus: 2 },
    );
    game.inventory.push(dagger);
    game.messages.add(
        String::from_str("Welcome stranger! Prepare to perish in the Tombs of the Fallen."),
        colour::red(),
    );
    assert(game.messages@ =~= seq![
        (
            "Welcome stranger! Prepare to perish in the Tombs of the Fallen."@,
            crate::colour::SerializableColour { r: 255, g: 0, b: 0 },
        ),
    ]);
    proof {
        reveal_strlit("player");
        let (rooms, flags) = choose|rooms: Seq<Rect>, flags: Seq<bool>| generated(game.map, rooms, flags, objects@, first_player);
        assert(objects@[0] == crate::map::moved_to(first_player, crate::map::center_of(rooms[0]).0, crate::map::center_of(rooms[0]).1));
        assert(Object { x: 0, y: 0, ..objects@[0] } == first_player);
        assert(generated(game.map, rooms, flags, objects@, at_origin(objects@[PLAYER as int])));
    }
    (game, objects)
}

/// Half of `v`, rounded toward zero.
pub open spec fn half(v: int) -> int {
    if v >= 0 {
        v / 2
    } else {
        -((-v) / 2)
    }
}

/// The player after resting: healed by half of the maximum hit points,
/// without going over the maximum.
pub open spec fn rested(p: Object, inv: Seq<Object>) -> Object {
    let max = stat(p, inv, Bonus::MaxHp);
    match p.fighter {
        Some(f) => {
            let hp = if f.hp + half(max) > max { max } else { f.hp + half(max) };
            Object { fighter: Some(Fighter { hp: hp as i32, ..f }), ..p }
        },
        None => p,
    }
}

/// Goes down the stairs: the player rests, healing half of the maximum hit
/// points, and a new level one deeper is generated.
pub fn next_level(game: &mut Game, objects: &mut Vec<Object>)
    requires
        old(objects)@.len() > PLAYER,
        old(game).inventory@.len() <= INVENTORY_CAPACITY,
        old(game).dungeon_level < u32::MAX,
        fits_i32(stat(old(objects)@[PLAYER as int], old(game).inventory@, Bonus::MaxHp)),
        old(objects)@[PLAYER as int].fighter matches Some(f) ==> fits_i32(
            f.hp + half(stat(old(objects)@[PLAYER as int], old(game).inventory@, Bonus::MaxHp)),
        ),
    ensures
        final(game).dungeon_level == old(game).dungeon_level + 1,
        final(game).inventory == old(game).inventory,
        final(game).messages@.len() == old(game).messages@.len() + 2,
        final(game).messages@.subrange(0, old(game).messages@.len() as int) == old(game).messages@,
        exists|rooms: Seq<Rect>, flags: Seq<bool>|
            #[trigger] generated(final(game).map, rooms, flags, final(objects)@, rested(old(objects)@[PLAYER as int], old(game).inventory@)),
{
    let ghost m0 = game.messages@;
    game.messages.add(String::from_str("You take a moment to rest, and recover your strength."), colour::violet());
    let max = objects[PLAYER].max_hp(game);
    let heal_hp = if max >= 0 { max / 2 } else { -((-(max as i64)) / 2) as i32 };
    assert(heal_hp == half(max as int));
    objects[PLAYER].heal(heal_hp, game);
    game.messages.add(String::from_str("You descend deeper into the dungeon..."), colour::red());
    assert(game.messages@.subrange(0, m0.len() as int) =~= m0);
    game.dungeon_level = game.dungeon_level + 1;
    let level = game.dungeon_level;
    let ghost before = objects@[PLAYER as int];
    let ghost inv0 = old(game).inventory@;
    game.map = make_map(objects, level);
    proof {
        let p = old(objects)@[PLAYER as int];
        let max = stat(p, inv0, Bonus::MaxHp);
        let healed = match p.fighter {
            Some(f) => {
                let hp = if f.hp + half(max) > max { max } else { f.hp + half(max) };
                Object { fighter: Some(Fighter { hp: hp as i32, ..f }), ..p }
            },
            None => p,
        };
        assert(before == healed);
        let (rooms, flags) = choose|rooms: Seq<Rect>, flags: Seq<bool>| generated(game.map, rooms, flags, objects@, before);
        assert(healed == rested(p, inv0));
        assert(generated(game.map, rooms, flags, objects@, healed));
    }
}

/// Closes a turn: after an action that took a turn, while the player lives,
/// the monsters act. Any other action leaves the world as it is.
pub fn end_turn(action: PlayerAction, fov: &Vec<Vec<bool>>, game: &mut Game, objects: &mut Vec<Object>)
    requires
        wf_map(old(game).map),
        wf_flags(*fov),
        world_sane(old(objects)@, old(game).inventory@),
    ensures
        !(action == PlayerAction::TookTurn && old(objects)@[PLAYER as int].alive) ==> final(objects)@ == old(objects)@
            && *final(game) == *old(game),
        action == PlayerAction::TookTurn && old(objects)@[PLAYER as int].alive ==> {
            &&& final(objects)@.len() == old(objects)@.len()
            &&& world_sane(final(objects)@, final(game).inventory@)
            &&& final(game).map == old(game).map
            &&& final(game).inventory == old(game).inventory
            &&& forall|j: int| 0 <= j < old(objects)@.len() && j != PLAYER ==> (#[trigger] final(objects)@[j]).ai == advanced(old(objects)@[j].ai)
            &&& forall|j: int| 0 <= j < old(objects)@.len() && j != PLAYER && (#[trigger] old(objects)@[j]).ai is None ==> final(objects)@[j] == old(objects)@[j]
            &&& exists|gs: Seq<Game>, ss: Seq<Seq<Object>>|
                #[trigger] sweep_chain(*fov, gs, ss, old(objects)@.len() as int) && gs[0] == *old(game) && ss[0] == old(objects)@
                    && gs.last() == *final(game) && ss.last() == final(objects)@
        },
{
    if action == PlayerAction::TookTurn && objects[PLAYER].alive {
        monsters_turn(fov, game, objects);
    }
}

fn within_limit(v: i32, times: i64) -> (r: bool)
    requires
        1 <= times <= 60,
    ensures
        r == (-times * stat_limit() <= v <= times * stat_limit()),
{
    let b: i64 = times * 1_000_000;
    -b <= v as i64 && v as i64 <= b
}

fn check_entity(o: &Object) -> (r: bool)
    ensures
        r == entity_sane(*o),
{
    let coords = -1_000_000 <= o.x && o.x <= 1_000_000 && -1_000_000 <= o.y && o.y <= 1_000_000;
    let roles = o.ai.is_none() || o.fighter.is_some();
    let stats = match o.fighter {
        Some(f) => within_limit(f.base_max_hp, 1) && within_limit(f.base_power, 1) && within_limit(f.base_defense, 1)
            && f.hp as i64 >= -60_000_000 && f.hp <= 1_000_000 && within_limit(f.xp, 2),
        None => true,
    };
    coords && roles && stats
}

/// Whether the world keeps every number of the monsters' turn within `i32`
/// (see `world_sane`).
pub fn is_world_sane(objects: &Vec<Object>, inventory: &Vec<Object>) -> (r: bool)
    ensures
        r == world_sane(objects@, inventory@),
{
    if inventory.len() > INVENTORY_CAPACITY || objects.len() <= PLAYER {
        return false;
    }
    let mut i: usize = 0;
    while i < inventory.len()
        invariant
            i <= inventory@.len(),
            forall|j: int| 0 <= j < i ==> item_sane(#[trigger] inventory@[j]),
        decreases inventory@.len() - i,
    {
        let ok = match inventory[i].equipment {
            Some(e) => within_limit(e.max_hp_bonus, 1) && within_limit(e.power_bonus, 1) && within_limit(e.defense_bonus, 1),
            None => true,
        };
        if !ok {
            return false;
        }
        i = i + 1;
    }
    let p = &objects[PLAYER];
    if p.x < 0 || p.y < 0 || p.x >= crate::MAP_WIDTH || p.y >= crate::MAP_HEIGHT {
        return false;
    }
    let standing = match p.fighter {
        Some(f) => f.hp > 0,
        None => false,
    };
    let mut k: usize = 0;
    while k < objects.len()
        invariant
            k <= objects@.len(),
            standing == player_standing(objects@),
            forall|j: int| 0 <= j < k ==> entity_sane(#[trigger] objects@[j]),
            standing ==> forall|j: int|
                0 <= j < k && (#[trigger] objects@[j]).fighter is Some ==> -stat_limit() <= objects@[j].fighter.unwrap().xp
                    <= stat_limit(),
        decreases objects@.len() - k,
    {
        if !check_entity(&objects[k]) {
            return false;
        }
        if standing {
            if let Some(f) = objects[k].fighter {
                if !within_limit(f.xp, 1) {
                    return false;
                }
            }
        }
        k = k + 1;
    }
    true
}

} // verus!

verus! {

/// The first entity that is an item and lies on the player's tile.
pub fn item_under_player(objects: &Vec<Object>) -> (r: Option<usize>)
    requires
        objects@.len() > PLAYER,
    ensures
        match r {
            Some(i) => i < objects@.len() && objects@[i as int].item is Some && objects@[i as int].x == objects@[PLAYER as int].x
                && objects@[i as int].y == objects@[PLAYER as int].y && forall|j: int|
                0 <= j < i ==> !((#[trigger] objects@[j]).item is Some && objects@[j].x == objects@[PLAYER as int].x
                    && objects@[j].y == objects@[PLAYER as int].y),
            None => forall|j: int|
                0 <= j < objects@.len() ==> !((#[trigger] objects@[j]).item is Some && objects@[j].x == objects@[PLAYER as int].x
                    && objects@[j].y == objects@[PLAYER as int].y),
        },
{
    let (px, py) = objects[PLAYER].pos();
    let mut i: usize = 0;
    while i < objects.len()
        invariant
            i <= objects@.len(),
            objects@.len() > PLAYER,
            px == objects@[PLAYER as int].x && py == objects@[PLAYER as int].y,
            forall|j: int| 0 <= j < i ==> !((#[trigger] objects@[j]).item is Some && objects@[j].x == px && objects@[j].y == py),
        decreases objects@.len() - i,
    {
        if objects[i].item.is_some() && objects[i].x == px && objects[i].y == py {
            return Some(i);
        }
        i = i + 1;
    }
    None
}

/// Whether an entity named "Stairs" lies on the player's tile.
pub fn on_stairs(objects: &Vec<Object>) -> (r: bool)
    requires
        objects@.len() > PLAYER,
    ensures
        r == exists|j: int|
            0 <= j < objects@.len() && (#[trigger] objects@[j]).name@ == "Stairs"@ && objects@[j].x == objects@[PLAYER as int].x
                && objects@[j].y == objects@[PLAYER as int].y,
{
    let (px, py) = objects[PLAYER].pos();
    let stairs = String::from_str("Stairs");
    let mut i: usize = 0;
    while i < objects.len()
        invariant
            i <= objects@.len(),
            objects@.len() > PLAYER,
            stairs@ == "Stairs"@,
            px == objects@[PLAYER as int].x && py == objects@[PLAYER as int].y,
            forall|j: int|
                0 <= j < i ==> !((#[trigger] objects@[j]).name@ == "Stairs"@ && objects@[j].x == px && objects@[j].y == py),
        decreases objects@.len() - i,
    {
        if objects[i].x == px && objects[i].y == py && objects[i].name == stairs {
            return true;
        }
        i = i + 1;
    }
    false
}

/// Whether `(x, y)` lies within `max_range` tiles of the player.
pub fn within_reach(objects: &Vec<Object>, x: i32, y: i32, max_range: i32) -> (r: bool)
    requires
        objects@.len() > PLAYER,
        0 <= max_range,
    ensures
        r == (crate::object::dist_sq(objects@[PLAYER as int].x as int, objects@[PLAYER as int].y as int, x as int, y as int)
            <= max_range * max_range),
{
    let p = &objects[PLAYER];
    let dx: i128 = x as i128 - p.x as i128;
    let dy: i128 = y as i128 - p.y as i128;
    let m: i128 = max_range as i128;
    assert(0 <= dx * dx <= 0x10_0000_0000_0000_0000 && 0 <= dy * dy <= 0x10_0000_0000_0000_0000 && 0 <= m * m <= 0x10_0000_0000_0000_0000)
        by (nonlinear_arith)
        requires
            -0x1_0000_0000 <= dx <= 0x1_0000_0000,
            -0x1_0000_0000 <= dy <= 0x1_0000_0000,
            0 <= m <= 0x1_0000_0000,
    ;
    assert(crate::object::dist_sq(p.x as int, p.y as int, x as int, y as int) == dx * dx + dy * dy);
    dx * dx + dy * dy <= m * m
}

} // verus!
