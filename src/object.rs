//! The uniform entity record and the combat capability it may carry.
use vstd::prelude::*;
use vstd::string::*;
use crate::ai::Ai;
use crate::colour::SerializableColour;
use crate::death::DeathCallback;
use crate::equipment::Equipment;
use crate::items::Item;
use crate::equipment::Slot;
use crate::colour;
use crate::leveling::{from_dungeon_level, lemma_level_value_listed, level_value, Transition};
use crate::map::{in_interior, wf_map, Grid};
use crate::movement::{is_blocked, spec_blocked};
use crate::random::{lemma_weight_sum_at_least, lemma_weight_sum_at_most, random_range, random_weighted_index, weight_sum};
use crate::tile::Rect;

verus! {

/// Whether `v` is a value of `i32`.
pub open spec fn fits_i32(v: int) -> bool {
    i32::MIN <= v <= i32::MAX
}

/// A game entity: the player, a monster, an item on the ground or in the
/// inventory, or the stairs. Which optional capabilities are set decides its
/// role.
#[derive(Debug)]
pub struct Object {
    pub x: i32,
    pub y: i32,
    pub char: char,
    pub colour: SerializableColour,
    pub name: String,
    pub blocks: bool,
    pub alive: bool,
    pub fighter: Option<Fighter>,
    pub ai: Option<Ai>,
    pub item: Option<Item>,
    pub always_visible: bool,
    pub level: u32,
    pub equipment: Option<Equipment>,
}

/// Combat statistics of an entity.
#[derive(Clone, Copy, Debug, PartialEq, Eq, Structural)]
pub struct Fighter {
    pub base_max_hp: i32,
    pub hp: i32,
    pub base_defense: i32,
    pub base_power: i32,
    pub xp: i32,
    pub on_death: DeathCallback,
}

/// Square of the euclidean distance between two points.
pub open spec fn dist_sq(x1: int, y1: int, x2: int, y2: int) -> int {
    (x2 - x1) * (x2 - x1) + (y2 - y1) * (y2 - y1)
}

/// Whether a coordinate difference is small enough for its square to be
/// computed exactly.
pub open spec fn small_coord(v: int) -> bool {
    -1_000_000 <= v <= 1_000_000
}

impl Object {
    /// Where the entity stands.
    pub open spec fn spec_pos(&self) -> (int, int) {
        (self.x as int, self.y as int)
    }

    /// An entity with no capabilities, not alive, at character level 1.
    pub fn new(x: i32, y: i32, char: char, colour: SerializableColour, name: &str, blocks: bool) -> (o: Self)
        ensures
            o.x == x,
            o.y == y,
            o.char == char,
            o.colour == colour,
            o.name@ == name@,
            o.blocks == blocks,
            !o.alive,
            o.fighter.is_none(),
            o.ai.is_none(),
            o.item.is_none(),
            !o.always_visible,
            o.level == 1,
            o.equipment.is_none(),
    {
        Object {
            x,
            y,
            char,
            colour,
            name: String::from_str(name),
            blocks,
            alive: false,
            fighter: None,
            ai: None,
            item: None,
            always_visible: false,
            level: 1,
            equipment: None,
        }
    }

    pub fn pos(&self) -> (p: (i32, i32))
        ensures
            p == (self.x, self.y),
    {
        (self.x, self.y)
    }

    pub fn set_pos(&mut self, x: i32, y: i32)
        ensures
            *final(self) == (Object { x, y, ..*old(self) }),
    {
        self.x = x;
        self.y = y;
    }

    /// Square of the distance from this entity to the point `(x, y)`.
    pub fn distance_sq(&self, x: i32, y: i32) -> (d: i64)
        requires
            small_coord(x - self.x),
            small_coord(y - self.y),
        ensures
            d == dist_sq(self.x as int, self.y as int, x as int, y as int),
    {
        let dx = x as i64 - self.x as i64;
        let dy = y as i64 - self.y as i64;
        assert(0 <= dx * dx <= 1_000_000_000_000) by (nonlinear_arith)
            requires
                -1_000_000 <= dx <= 1_000_000,
        ;
        assert(0 <= dy * dy <= 1_000_000_000_000) by (nonlinear_arith)
            requires
                -1_000_000 <= dy <= 1_000_000,
        ;
        dx * dx + dy * dy
    }

    /// Square of the distance from this entity to `other`.
    pub fn distance_sq_to(&self, other: &Object) -> (d: i64)
        requires
            small_coord(other.x - self.x),
            small_coord(other.y - self.y),
        ensures
            d == dist_sq(self.x as int, self.y as int, other.x as int, other.y as int),
    {
        self.distance_sq(other.x, other.y)
    }
}

/// The kinds of monster the generator places.
#[derive(Clone, Copy, Debug, PartialEq, Eq, Structural)]
pub enum Monster {
    Orc,
    Troll,
}

/// The combat statistics a monster of a kind starts with.
pub open spec fn monster_fighter(kind: Monster) -> Fighter {
    match kind {
        Monster::Orc => Fighter {
            base_max_hp: 20,
            hp: 20,
            base_defense: 0,
            base_power: 4,
            xp: 35,
            on_death: DeathCallback::Monster,
        },
        Monster::Troll => Fighter {
            base_max_hp: 30,
            hp: 30,
            base_defense: 2,
            base_power: 8,
            xp: 100,
            on_death: DeathCallback::Monster,
        },
    }
}

/// The equipment an item of a kind comes with, if any.
pub open spec fn item_equipment(kind: Item) -> Option<Equipment> {
    match kind {
        Item::Sword => Some(
            Equipment { equipped: false, slot: Slot::RightHand, power_bonus: 3, defense_bonus: 0, max_hp_bonus: 0 },
        ),
        Item::Shield => Some(
            Equipment { equipped: false, slot: Slot::LeftHand, power_bonus: 0, defense_bonus: 2, max_hp_bonus: 0 },
        ),
        _ => None,
    }
}

/// A live, blocking monster of the given kind with the basic AI.
pub fn create_monster(x: i32, y: i32, kind: Monster) -> (o: Object)
    ensures
        o.x == x && o.y == y,
        o.blocks,
        o.alive,
        o.fighter == Some(monster_fighter(kind)),
        o.ai matches Some(Ai::Basic),
        o.item.is_none(),
        o.equipment.is_none(),
        o.level == 1,
{
    let mut monster = match kind {
        Monster::Orc => Object::new(x, y, 'o', colour::desaturated_green(), "orc", true),
        Monster::Troll => Object::new(x, y, 'T', colour::darker_green(), "troll", true),
    };
    let fighter = match kind {
        Monster::Orc => Fighter {
            base_max_hp: 20,
            hp: 20,
            base_defense: 0,
            base_power: 4,
            xp: 35,
            on_death: DeathCallback::Monster,
        },
        Monster::Troll => Fighter {
            base_max_hp: 30,
            hp: 30,
            base_defense: 2,
            base_power: 8,
            xp: 100,
            on_death: DeathCallback::Monster,
        },
    };
    monster.fighter = Some(fighter);
    monster.ai = Some(Ai::Basic);
    monster.alive = true;
    monster
}

/// An item of the given kind lying at `(x, y)`; swords and shields come as
/// unequipped equipment.
pub fn create_item(x: i32, y: i32, kind: Item) -> (o: Object)
    ensures
        o.x == x && o.y == y,
        !o.blocks,
        !o.alive,
        o.fighter.is_none(),
        o.ai.is_none(),
        o.item == Some(kind),
        o.equipment == item_equipment(kind),
        o.level == 1,
{
    let mut object = match kind {
        Item::Heal => Object::new(x, y, '!', colour::violet(), "Healing Potion", false),
        Item::Lightning => Object::new(x, y, '#', colour::light_yellow(), "Scroll of Lightning bolt", false),
        Item::Fireball => Object::new(x, y, '#', colour::darker_orange(), "Scroll of Fireball", false),
        Item::Confuse => Object::new(x, y, '#', colour::purple(), "Scroll of Confusion", false),
        Item::Sword => Object::new(x, y, '/', colour::sky(), "Sword", false),
        Item::Shield => Object::new(x, y, '[', colour::lighter_lime(), "Shield", false),
    };
    object.item = Some(kind);
    match kind {
        Item::Sword => {
            object.equipment = Some(
                Equipment { equipped: false, slot: Slot::RightHand, power_bonus: 3, defense_bonus: 0, max_hp_bonus: 0 },
            );
        },
        Item::Shield => {
            object.equipment = Some(
                Equipment { equipped: false, slot: Slot::LeftHand, power_bonus: 0, defense_bonus: 2, max_hp_bonus: 0 },
            );
        },
        _ => {},
    }
    object
}

/// A room whose interior has at least one tile and which lies on the grid.
pub open spec fn room_on_grid(room: Rect) -> bool {
    &&& 0 <= room.x1
    &&& room.x1 + 1 < room.x2
    &&& room.x2 < crate::MAP_WIDTH
    &&& 0 <= room.y1
    &&& room.y1 + 1 < room.y2
    &&& room.y2 < crate::MAP_HEIGHT
}

/// A random interior point of `room` if nothing blocks it, `None` otherwise.
fn find_unblocked_position(room: &Rect, map: &Grid, objects: &Vec<Object>) -> (r: Option<(i32, i32)>)
    requires
        wf_map(*map),
        room_on_grid(*room),
    ensures
        r matches Some(p) ==> in_interior(*room, (p.0 as int, p.1 as int)) && !spec_blocked(
            *map,
            objects@,
            p.0 as int,
            p.1 as int,
        ),
{
    let x = random_range(room.x1 + 1, room.x2);
    let y = random_range(room.y1 + 1, room.y2);
    if !is_blocked(x, y, map, objects) {
        Some((x, y))
    } else {
        None
    }
}

/// Entities that `place_objects` adds: monsters and items on free interior
/// tiles of the room.
pub open spec fn placed_in(room: Rect, o: Object) -> bool {
    &&& in_interior(room, (o.x as int, o.y as int))
    &&& {
        ||| (o.fighter == Some(monster_fighter(Monster::Orc)) || o.fighter == Some(monster_fighter(Monster::Troll)))
            && (o.ai matches Some(Ai::Basic)) && o.alive && o.blocks && o.item.is_none()
        ||| o.item is Some && o.equipment == item_equipment(o.item.unwrap()) && !o.blocks && o.fighter.is_none() && o.ai.is_none()
    }
}

/// A drawn placement: a point, and a kind chosen by its index in the list of
/// weights.
#[derive(Clone, Copy, Debug, PartialEq, Eq, Structural)]
pub struct Spawn {
    pub x: i32,
    pub y: i32,
    pub choice: usize,
}

/// The monster kind of a choice among the monster weights.
pub open spec fn monster_kind(choice: usize) -> Monster {
    if choice == 0 {
        Monster::Orc
    } else {
        Monster::Troll
    }
}

/// The item kind of a choice among the item weights.
pub open spec fn item_kind(choice: usize) -> Item {
    if choice == 0 {
        Item::Heal
    } else if choice == 1 {
        Item::Lightning
    } else if choice == 2 {
        Item::Fireball
    } else if choice == 3 {
        Item::Confuse
    } else if choice == 4 {
        Item::Sword
    } else {
        Item::Shield
    }
}

fn monster_of(choice: usize) -> (m: Monster)
    ensures
        m == monster_kind(choice),
{
    if choice == 0 {
        Monster::Orc
    } else {
        Monster::Troll
    }
}

fn item_of(choice: usize) -> (k: Item)
    ensures
        k == item_kind(choice),
{
    if choice == 0 {
        Item::Heal
    } else if choice == 1 {
        Item::Lightning
    } else if choice == 2 {
        Item::Fireball
    } else if choice == 3 {
        Item::Confuse
    } else if choice == 4 {
        Item::Sword
    } else {
        Item::Shield
    }
}

/// `o` is the monster that `create_monster` makes for the spawn.
pub open spec fn made_monster(o: Object, sp: Spawn) -> bool {
    &&& o.x == sp.x && o.y == sp.y
    &&& o.blocks && o.alive
    &&& o.fighter == Some(monster_fighter(monster_kind(sp.choice)))
    &&& o.ai matches Some(Ai::Basic)
    &&& o.item.is_none() && o.equipment.is_none()
    &&& o.level == 1
}

/// `o` is the item that `create_item` makes for the spawn.
pub open spec fn made_item(o: Object, sp: Spawn) -> bool {
    &&& o.x == sp.x && o.y == sp.y
    &&& !o.blocks && !o.alive
    &&& o.fighter.is_none() && o.ai.is_none()
    &&& o.item == Some(item_kind(sp.choice))
    &&& o.equipment == item_equipment(item_kind(sp.choice))
    &&& o.level == 1
}

/// One spawn: on a blocked point nothing happens; otherwise the monster (or
/// item) is appended.
pub open spec fn spawn_step(map: Grid, s: Seq<Object>, sp: Spawn, monster: bool, s2: Seq<Object>) -> bool {
    if spec_blocked(map, s, sp.x as int, sp.y as int) {
        s2 == s
    } else {
        &&& s2.len() == s.len() + 1
        &&& s2.drop_last() == s
        &&& if monster {
            made_monster(s2.last(), sp)
        } else {
            made_item(s2.last(), sp)
        }
    }
}

/// The lists `ss[0]` to `ss[n]` follow from each other by the spawns in
/// order.
pub open spec fn spawn_chain(map: Grid, ss: Seq<Seq<Object>>, spawns: Seq<Spawn>, monster: bool) -> bool {
    &&& ss.len() == spawns.len() + 1
    &&& forall|k: int| 0 <= k < spawns.len() ==> #[trigger] spawn_step(map, ss[k], spawns[k], monster, ss[k + 1])
}

/// All spawns lie inside the room.
pub open spec fn spawns_inside(room: Rect, spawns: Seq<Spawn>) -> bool {
    forall|k: int| 0 <= k < spawns.len() ==> in_interior(room, ((#[trigger] spawns[k]).x as int, spawns[k].y as int))
}

fn spawn_all(map: &Grid, objects: &mut Vec<Object>, spawns: &Vec<Spawn>, monster: bool, Ghost(room): Ghost<Rect>)
    requires
        wf_map(*map),
    ensures
        exists|ss: Seq<Seq<Object>>|
            #[trigger] spawn_chain(*map, ss, spawns@, monster) && ss[0] == old(objects)@ && ss.last() == final(objects)@,
        final(objects)@.len() <= old(objects)@.len() + spawns@.len(),
        final(objects)@.len() >= old(objects)@.len(),
        final(objects)@.subrange(0, old(objects)@.len() as int) == old(objects)@,
        spawns_inside(room, spawns@) ==> forall|i: int|
            old(objects)@.len() <= i < final(objects)@.len() ==> placed_in(room, #[trigger] final(objects)@[i]),
{
    let ghost start = objects@;
    let ghost mut ss: Seq<Seq<Object>> = seq![objects@];
    let mut k: usize = 0;
    while k < spawns.len()
        invariant
            wf_map(*map),
            k <= spawns@.len(),
            ss.len() == k + 1,
            forall|j: int| 0 <= j < k ==> #[trigger] spawn_step(*map, ss[j], spawns@[j], monster, ss[j + 1]),
            ss[0] == start,
            ss.last() == objects@,
            objects@.len() <= start.len() + k,
            objects@.len() >= start.len(),
            objects@.subrange(0, start.len() as int) == start,
            spawns_inside(room, spawns@) ==> forall|i: int|
                start.len() <= i < objects@.len() ==> placed_in(room, #[trigger] objects@[i]),
        decreases spawns@.len() - k,
    {
        let sp = spawns[k];
        let ghost before = objects@;
        if !is_blocked(sp.x, sp.y, map, objects) {
            if monster {
                let o = create_monster(sp.x, sp.y, monster_of(sp.choice));
                objects.push(o);
            } else {
                let o = create_item(sp.x, sp.y, item_of(sp.choice));
                objects.push(o);
            }
            assert(objects@.drop_last() =~= before);
            assert(objects@.subrange(0, start.len() as int) =~= before.subrange(0, start.len() as int));
        }
        proof {
            let ss2 = ss.push(objects@);
            assert forall|j: int| 0 <= j < k + 1 implies #[trigger] spawn_step(*map, ss2[j], spawns@[j], monster, ss2[j + 1]) by {
                if j < k {
                    assert(ss2[j] == ss[j] && ss2[j + 1] == ss[j + 1]);
                    assert(spawn_step(*map, ss[j], spawns@[j], monster, ss[j + 1]));
                } else {
                    assert(ss2[j] == before);
                }
            }
            if spawns_inside(room, spawns@) {
                assert(in_interior(room, (spawns@[k as int].x as int, spawns@[k as int].y as int)));
                assert forall|i: int| start.len() <= i < objects@.len() implies placed_in(room, #[trigger] objects@[i]) by {
                    if i < before.len() {
                        assert(objects@[i] == before[i]);
                    }
                }
            }
            ss = ss2;
        }
        k = k + 1;
    }
    assert(spawn_chain(*map, ss, spawns@, monster));
}

/// Places the drawn monsters, then the drawn items, each unless its point is
/// blocked by then; entities already listed are kept.
pub fn place_objects_from(room: Rect, map: &Grid, objects: &mut Vec<Object>, monsters: &Vec<Spawn>, items: &Vec<Spawn>)
    requires
        wf_map(*map),
    ensures
        exists|ms: Seq<Seq<Object>>, is: Seq<Seq<Object>>|
            #[trigger] spawn_chain(*map, ms, monsters@, true) && #[trigger] spawn_chain(*map, is, items@, false) && ms[0]
                == old(objects)@ && is[0] == ms.last() && is.last() == final(objects)@,
        final(objects)@.len() <= old(objects)@.len() + monsters@.len() + items@.len(),
        final(objects)@.len() >= old(objects)@.len(),
        final(objects)@.subrange(0, old(objects)@.len() as int) == old(objects)@,
        spawns_inside(room, monsters@) && spawns_inside(room, items@) ==> forall|i: int|
            old(objects)@.len() <= i < final(objects)@.len() ==> placed_in(room, #[trigger] final(objects)@[i]),
{
    let ghost o0 = objects@;
    spawn_all(map, objects, monsters, true, Ghost(room));
    let ghost o1 = objects@;
    spawn_all(map, objects, items, false, Ghost(room));
    proof {
        assert(objects@.subrange(0, o0.len() as int) =~= o1.subrange(0, o0.len() as int));
        if spawns_inside(room, monsters@) && spawns_inside(room, items@) {
            assert forall|i: int| o0.len() <= i < objects@.len() implies placed_in(room, #[trigger] objects@[i]) by {
                if i < o1.len() {
                    assert(objects@[i] == o1[i]);
                }
            }
        }
    }
}

/// Most monsters per room at each dungeon level.
pub open spec fn max_monsters_table() -> Seq<Transition> {
    seq![Transition { level: 1, value: 2 }, Transition { level: 4, value: 3 }, Transition { level: 6, value: 5 }]
}

/// Chance of a troll at each dungeon level.
pub open spec fn troll_table() -> Seq<Transition> {
    seq![Transition { level: 3, value: 15 }, Transition { level: 5, value: 30 }, Transition { level: 7, value: 60 }]
}

/// Most items per room at each dungeon level.
pub open spec fn max_items_table() -> Seq<Transition> {
    seq![Transition { level: 1, value: 1 }, Transition { level: 4, value: 2 }]
}

/// The weights of the monster kinds at a dungeon level.
pub open spec fn monster_weights(level: u32) -> Seq<u32> {
    seq![80u32, level_value(troll_table(), level)]
}

/// The weights of the item kinds at a dungeon level.
pub open spec fn item_weights(level: u32) -> Seq<u32> {
    seq![
        35u32,
        level_value(seq![Transition { level: 4, value: 25 }], level),
        level_value(seq![Transition { level: 6, value: 25 }], level),
        level_value(seq![Transition { level: 2, value: 10 }], level),
        level_value(seq![Transition { level: 4, value: 5 }], level),
        level_value(seq![Transition { level: 8, value: 15 }], level),
    ]
}

/// Draws the spawns of a room: a count up to the level's maximum, interior
/// points, and kinds by the level's weights.
fn draw_spawns(room: Rect, count_max: u32, weights: &Vec<u32>) -> (r: Vec<Spawn>)
    requires
        room_on_grid(room),
        count_max <= 100,
        weights@.len() > 0,
        0 < weight_sum(weights@) <= u32::MAX,
    ensures
        r@.len() <= count_max,
        spawns_inside(room, r@),
        forall|k: int| 0 <= k < r@.len() ==> (#[trigger] r@[k]).choice < weights@.len() && weights@[r@[k].choice as int] > 0,
{
    let n = random_range(0, count_max as i32 + 1);
    let mut r: Vec<Spawn> = Vec::new();
    let mut k: i32 = 0;
    while k < n
        invariant
            0 <= k <= n <= count_max,
            r@.len() == k,
            room_on_grid(room),
            weights@.len() > 0,
            0 < weight_sum(weights@) <= u32::MAX,
            spawns_inside(room, r@),
            forall|j: int| 0 <= j < r@.len() ==> (#[trigger] r@[j]).choice < weights@.len() && weights@[r@[j].choice as int] > 0,
        decreases n - k,
    {
        let x = random_range(room.x1 + 1, room.x2);
        let y = random_range(room.y1 + 1, room.y2);
        let choice = random_weighted_index(weights);
        r.push(Spawn { x, y, choice });
        k = k + 1;
    }
    r
}

/// Places a random number of monsters and items, scaled by the dungeon level,
/// on free interior tiles of `room`; entities already listed are kept.
pub fn place_objects(room: Rect, map: &Grid, objects: &mut Vec<Object>, level: u32)
    requires
        wf_map(*map),
        room_on_grid(room),
    ensures
        final(objects)@.len() >= old(objects)@.len(),
        final(objects)@.subrange(0, old(objects)@.len() as int) == old(objects)@,
        forall|i: int| old(objects)@.len() <= i < final(objects)@.len() ==> placed_in(room, #[trigger] final(objects)@[i]),
        exists|monsters: Seq<Spawn>, items: Seq<Spawn>, ms: Seq<Seq<Object>>, is: Seq<Seq<Object>>|
            #[trigger] spawn_chain(*map, ms, monsters, true) && #[trigger] spawn_chain(*map, is, items, false) && ms[0]
                == old(objects)@ && is[0] == ms.last() && is.last() == final(objects)@
                && monsters.len() <= level_value(max_monsters_table(), level)
                && items.len() <= level_value(max_items_table(), level)
                && spawns_inside(room, monsters) && spawns_inside(room, items)
                && (forall|k: int| 0 <= k < monsters.len() ==> #[trigger] monsters[k].choice < 2 && monster_weights(level)[monsters[k].choice as int] > 0)
                && (forall|k: int| 0 <= k < items.len() ==> #[trigger] items[k].choice < 6 && item_weights(level)[items[k].choice as int] > 0),
{
    let max_table = vec![Transition { level: 1, value: 2 }, Transition { level: 4, value: 3 }, Transition { level: 6, value: 5 }];
    assert(max_table@ == max_monsters_table());
    let max_monsters = from_dungeon_level(max_table.as_slice(), level);
    proof {
        lemma_level_value_listed(max_monsters_table(), level);
    }
    let troll = vec![Transition { level: 3, value: 15 }, Transition { level: 5, value: 30 }, Transition { level: 7, value: 60 }];
    assert(troll@ == troll_table());
    let troll_chance = from_dungeon_level(troll.as_slice(), level);
    proof {
        lemma_level_value_listed(troll_table(), level);
    }
    let monster_weights_v: Vec<u32> = vec![80, troll_chance];
    assert(monster_weights_v@ == monster_weights(level));
    proof {
        lemma_weight_sum_at_least(monster_weights_v@, 0);
        lemma_weight_sum_at_most(monster_weights_v@, 80);
    }
    let monsters = draw_spawns(room, max_monsters, &monster_weights_v);
    let items_table = vec![Transition { level: 1, value: 1 }, Transition { level: 4, value: 2 }];
    assert(items_table@ == max_items_table());
    let max_items = from_dungeon_level(items_table.as_slice(), level);
    proof {
        lemma_level_value_listed(max_items_table(), level);
    }
    let t1 = vec![Transition { level: 4, value: 25 }];
    let t2 = vec![Transition { level: 6, value: 25 }];
    let t3 = vec![Transition { level: 2, value: 10 }];
    let t4 = vec![Transition { level: 4, value: 5 }];
    let t5 = vec![Transition { level: 8, value: 15 }];
    let w1 = from_dungeon_level(t1.as_slice(), level);
    let w2 = from_dungeon_level(t2.as_slice(), level);
    let w3 = from_dungeon_level(t3.as_slice(), level);
    let w4 = from_dungeon_level(t4.as_slice(), level);
    let w5 = from_dungeon_level(t5.as_slice(), level);
    proof {
        lemma_level_value_listed(t1@, level);
        lemma_level_value_listed(t2@, level);
        lemma_level_value_listed(t3@, level);
        lemma_level_value_listed(t4@, level);
        lemma_level_value_listed(t5@, level);
    }
    let item_weights_v: Vec<u32> = vec![35, w1, w2, w3, w4, w5];
    assert(t1@ == seq![Transition { level: 4, value: 25 }]);
    assert(t2@ == seq![Transition { level: 6, value: 25 }]);
    assert(t3@ == seq![Transition { level: 2, value: 10 }]);
    assert(t4@ == seq![Transition { level: 4, value: 5 }]);
    assert(t5@ == seq![Transition { level: 8, value: 15 }]);
    assert(item_weights_v@ =~= item_weights(level));
    proof {
        lemma_weight_sum_at_least(item_weights_v@, 0);
        lemma_weight_sum_at_most(item_weights_v@, 35);
    }
    let items = draw_spawns(room, max_items, &item_weights_v);
    place_objects_from(room, map, objects, &monsters, &items);
}

} // verus!
