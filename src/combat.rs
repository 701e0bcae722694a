//! Damage, death, healing and choosing whom to hit.
use vstd::prelude::*;
use vstd::string::*;
use crate::colour;
use crate::colour::SerializableColour;
use crate::death::{corpse_of, death_message};
use crate::message::{decimal, decimal_text};
use crate::equipment::{stat, Bonus};
use crate::game::Game;
use crate::map::{flag_at, in_map, wf_flags, wf_map};
use crate::movement::{move_by, spec_blocked};
use crate::object::{dist_sq, fits_i32, Fighter, Object};
use crate::{INVENTORY_CAPACITY, PLAYER};

verus! {

/// Damage lands only on a living fighter.
pub open spec fn can_take_damage(o: Object) -> bool {
    o.alive && o.fighter is Some
}

/// Hit points after `damage`; damage that is not positive changes nothing.
pub open spec fn hp_after(o: Object, damage: int) -> int {
    if damage > 0 {
        o.fighter.unwrap().hp - damage
    } else {
        o.fighter.unwrap().hp as int
    }
}

/// The hit takes the entity from alive to dead.
pub open spec fn dies_from(o: Object, damage: int) -> bool {
    can_take_damage(o) && hp_after(o, damage) <= 0
}

/// `o2` is `o` after taking `damage`: unchanged unless it is a living fighter;
/// otherwise its hit points drop, and when they reach 0 it dies and becomes a
/// corpse.
pub open spec fn damage_result(o: Object, damage: int, o2: Object) -> bool {
    if !can_take_damage(o) {
        o2 == o
    } else {
        let hit = Object { fighter: Some(Fighter { hp: hp_after(o, damage) as i32, ..o.fighter.unwrap() }), ..o };
        if hp_after(o, damage) > 0 {
            o2 == hit
        } else {
            corpse_of(o.fighter.unwrap().on_death, Object { alive: false, ..hit }, o2)
        }
    }
}

/// The experience that killing `o` with `damage` awards.
pub open spec fn kill_xp(o: Object, damage: int) -> Option<i32> {
    if dies_from(o, damage) {
        Some(o.fighter.unwrap().xp)
    } else {
        None
    }
}

/// The arithmetic of `damage` on `o` stays within `i32`.
pub open spec fn damage_fits(o: Object, damage: int) -> bool {
    can_take_damage(o) && damage > 0 ==> fits_i32(o.fighter.unwrap().hp - damage)
}

/// `a` with `xp` more experience.
pub open spec fn with_xp(a: Object, xp: int) -> Object {
    Object { fighter: Some(Fighter { xp: (a.fighter.unwrap().xp + xp) as i32, ..a.fighter.unwrap() }), ..a }
}

/// Damage of an attack: power of the attacker less defense of the target.
pub open spec fn attack_damage(a: Object, t: Object, inv: Seq<Object>) -> int {
    stat(a, inv, Bonus::Power) - stat(t, inv, Bonus::Defense)
}

/// The numbers of an attack fit in `i32`, and an attacker that may kill can
/// take the experience.
pub open spec fn attack_fits(a: Object, t: Object, inv: Seq<Object>) -> bool {
    let d = attack_damage(a, t, inv);
    &&& inv.len() <= INVENTORY_CAPACITY
    &&& fits_i32(stat(a, inv, Bonus::Power))
    &&& fits_i32(stat(t, inv, Bonus::Defense))
    &&& fits_i32(d)
    &&& damage_fits(t, d)
    &&& d > 0 && dies_from(t, d) ==> a.fighter is Some && fits_i32(a.fighter.unwrap().xp + t.fighter.unwrap().xp)
}

/// `a2` and `t2` are attacker and target after `a` attacked `t`: with positive
/// damage the target takes it and a kill's experience goes to the attacker;
/// otherwise nothing changes.
pub open spec fn attacked(a: Object, t: Object, inv: Seq<Object>, a2: Object, t2: Object) -> bool {
    let d = attack_damage(a, t, inv);
    if d > 0 {
        &&& damage_result(t, d, t2)
        &&& a2 == match kill_xp(t, d) {
            Some(xp) => with_xp(a, xp as int),
            None => a,
        }
    } else {
        a2 == a && t2 == t
    }
}

/// Messages an attack logs: one for the blow, one more for a kill.
pub open spec fn attack_messages(a: Object, t: Object, inv: Seq<Object>) -> int {
    let d = attack_damage(a, t, inv);
    if d > 0 && dies_from(t, d) {
        2
    } else {
        1
    }
}

/// The game after `n` messages were logged, nothing else changed.
pub open spec fn logged(g: Game, g2: Game, n: int) -> bool {
    &&& g2.messages@.len() == g.messages@.len() + n
    &&& g2.messages@.subrange(0, g.messages@.len() as int) == g.messages@
    &&& g2.map == g.map
    &&& g2.inventory == g.inventory
    &&& g2.dungeon_level == g.dungeon_level
}

impl Object {
    /// Applies `damage` to a living fighter; when its hit points reach 0 it
    /// dies, and the experience it was worth is returned.
    pub fn take_damage(&mut self, damage: i32, game: &mut Game) -> (r: Option<i32>)
        requires
            damage_fits(*old(self), damage as int),
        ensures
            damage_result(*old(self), damage as int, *final(self)),
            r == kill_xp(*old(self), damage as int),
            logged(*old(game), *final(game), if dies_from(*old(self), damage as int) { 1 } else { 0 }),
            dies_from(*old(self), damage as int) ==> final(game).messages@ == old(game).messages@.push(
                death_message(old(self).fighter.unwrap().on_death, *old(self)),
            ),
    {
        if !self.alive {
            assert(final(game).messages@.subrange(0, old(game).messages@.len() as int) =~= old(game).messages@);
            return None;
        }
        match self.fighter {
            Some(f) => {
                let hp = if damage > 0 { f.hp - damage } else { f.hp };
                self.fighter = Some(Fighter { hp, ..f });
                if hp <= 0 {
                    self.alive = false;
                    let ghost dying = *self;
                    f.on_death.callback(self, game);
                    assert(death_message(f.on_death, dying) == death_message(f.on_death, *old(self)));
                    Some(f.xp)
                } else {
                    assert(final(game).messages@.subrange(0, old(game).messages@.len() as int) =~= old(game).messages@);
                    None
                }
            },
            None => {
                assert(final(game).messages@.subrange(0, old(game).messages@.len() as int) =~= old(game).messages@);
                None
            },
        }
    }

    /// Attacks `target` for power less defense; non-positive damage has no
    /// effect but a message. A kill's experience goes to the attacker.
    pub fn attack(&mut self, target: &mut Object, game: &mut Game)
        requires
            attack_fits(*old(self), *old(target), old(game).inventory@),
        ensures
            attacked(*old(self), *old(target), old(game).inventory@, *final(self), *final(target)),
            logged(*old(game), *final(game), attack_messages(*old(self), *old(target), old(game).inventory@)),
            attack_damage(*old(self), *old(target), old(game).inventory@) <= 0 ==> final(game).messages@
                == old(game).messages@.push(
                (
                    old(self).name@ + " attacks "@ + old(target).name@ + " but it has no effect!"@,
                    SerializableColour { r: 255, g: 255, b: 255 },
                ),
            ),
            attack_damage(*old(self), *old(target), old(game).inventory@) > 0 ==> final(game).messages@[old(
                game,
            ).messages@.len() as int] == (
                old(self).name@ + " attacks "@ + old(target).name@ + " for "@ + decimal(
                    attack_damage(*old(self), *old(target), old(game).inventory@),
                ) + " damage."@,
                SerializableColour { r: 255, g: 255, b: 255 },
            ),
            attack_damage(*old(self), *old(target), old(game).inventory@) > 0 && dies_from(
                *old(target),
                attack_damage(*old(self), *old(target), old(game).inventory@),
            ) ==> final(game).messages@.last() == death_message(old(target).fighter.unwrap().on_death, *old(target)),
    {
        let ghost m0 = game.messages@;
        let damage = self.power(game) - target.defense(game);
        if damage > 0 {
            let text = self.name.clone().concat(" attacks ").concat(target.name.as_str()).concat(" for ").concat(
                decimal_text(damage as i64).as_str(),
            ).concat(" damage.");
            game.messages.add(text, colour::white());
            let ghost m1 = game.messages@;
            assert(m1.subrange(0, m0.len() as int) =~= m0);
            let killed = target.take_damage(damage, game);
            assert(game.messages@.subrange(0, m0.len() as int) =~= m1.subrange(0, m0.len() as int));
            assert(game.messages@.subrange(0, m1.len() as int) == m1);
            assert(game.messages@[m0.len() as int] == game.messages@.subrange(0, m1.len() as int)[m0.len() as int]);
            if let Some(xp) = killed {
                let f = self.fighter.unwrap();
                self.fighter = Some(Fighter { xp: f.xp + xp, ..f });
            }
        } else {
            let text = self.name.clone().concat(" attacks ").concat(target.name.as_str()).concat(
                " but it has no effect!",
            );
            game.messages.add(text, colour::white());
            assert(game.messages@.subrange(0, m0.len() as int) =~= m0);
        }
    }

    /// Heals by `amount`, without going over the maximum; an entity without a
    /// fighter is left alone.
    pub fn heal(&mut self, amount: i32, game: &Game)
        requires
            game.inventory@.len() <= INVENTORY_CAPACITY,
            fits_i32(stat(*old(self), game.inventory@, Bonus::MaxHp)),
            old(self).fighter is Some ==> fits_i32(old(self).fighter.unwrap().hp + amount),
        ensures
            *final(self) == match old(self).fighter {
                Some(f) => {
                    let max = stat(*old(self), game.inventory@, Bonus::MaxHp);
                    let hp = if f.hp + amount > max { max } else { f.hp + amount };
                    Object { fighter: Some(Fighter { hp: hp as i32, ..f }), ..*old(self) }
                },
                None => *old(self),
            },
    {
        let max_hp = self.max_hp(game);
        if let Some(f) = self.fighter {
            let mut hp = f.hp + amount;
            if hp > max_hp {
                hp = max_hp;
            }
            self.fighter = Some(Fighter { hp, ..f });
        }
    }
}

/// Entity `attacker_id` attacks entity `target_id` of the same list.
pub fn attack_at(attacker_id: usize, target_id: usize, game: &mut Game, objects: &mut Vec<Object>)
    requires
        attacker_id != target_id,
        attacker_id < old(objects)@.len(),
        target_id < old(objects)@.len(),
        attack_fits(old(objects)@[attacker_id as int], old(objects)@[target_id as int], old(game).inventory@),
    ensures
        final(objects)@.len() == old(objects)@.len(),
        forall|i: int| 0 <= i < old(objects)@.len() && i != attacker_id && i != target_id ==> #[trigger] final(objects)@[i] == old(objects)@[i],
        attacked(
            old(objects)@[attacker_id as int],
            old(objects)@[target_id as int],
            old(game).inventory@,
            final(objects)@[attacker_id as int],
            final(objects)@[target_id as int],
        ),
        logged(
            *old(game),
            *final(game),
            attack_messages(old(objects)@[attacker_id as int], old(objects)@[target_id as int], old(game).inventory@),
        ),
{
    let mut target = Object::new(0, 0, ' ', colour::black(), "", false);
    std::mem::swap(&mut objects[target_id], &mut target);
    objects[attacker_id].attack(&mut target, game);
    std::mem::swap(&mut objects[target_id], &mut target);
}

/// A fighter stands at `(x, y)`.
pub open spec fn fighter_at(o: Object, x: int, y: int) -> bool {
    o.fighter is Some && o.x == x && o.y == y
}

/// `t` is the first index of a fighter at `(x, y)`.
pub open spec fn first_fighter_at(objects: Seq<Object>, t: int, x: int, y: int) -> bool {
    &&& 0 <= t < objects.len()
    &&& fighter_at(objects[t], x, y)
    &&& forall|j: int| 0 <= j < t ==> !fighter_at(#[trigger] objects[j], x, y)
}

/// The index of the first fighter at `(x, y)`.
fn fighter_index_at(x: i32, y: i32, objects: &Vec<Object>) -> (r: Option<usize>)
    ensures
        match r {
            Some(t) => first_fighter_at(objects@, t as int, x as int, y as int),
            None => forall|j: int| 0 <= j < objects@.len() ==> !fighter_at(#[trigger] objects@[j], x as int, y as int),
        },
{
    let mut i: usize = 0;
    while i < objects.len()
        invariant
            i <= objects@.len(),
            forall|j: int| 0 <= j < i ==> !fighter_at(#[trigger] objects@[j], x as int, y as int),
        decreases objects@.len() - i,
    {
        if objects[i].fighter.is_some() && objects[i].x == x && objects[i].y == y {
            return Some(i);
        }
        i = i + 1;
    }
    None
}

/// The player attacks the first fighter on the tile `(dx, dy)` away, or moves
/// there when there is none and the tile is free.
pub fn player_move_or_attack(dx: i32, dy: i32, game: &mut Game, objects: &mut Vec<Object>)
    requires
        wf_map(old(game).map),
        !(dx == 0 && dy == 0),
        old(objects)@.len() > PLAYER,
        fits_i32(old(objects)@[PLAYER as int].x + dx),
        fits_i32(old(objects)@[PLAYER as int].y + dy),
        forall|t: int|
            0 <= t < old(objects)@.len() && fighter_at(
                #[trigger] old(objects)@[t],
                old(objects)@[PLAYER as int].x + dx,
                old(objects)@[PLAYER as int].y + dy,
            ) ==> attack_fits(old(objects)@[PLAYER as int], old(objects)@[t], old(game).inventory@),
    ensures
        ({
            let p = old(objects)@[PLAYER as int];
            let x = p.x + dx;
            let y = p.y + dy;
            &&& (forall|t: int| 0 <= t < old(objects)@.len() ==> !fighter_at(#[trigger] old(objects)@[t], x, y)) ==> {
                &&& *final(game) == *old(game)
                &&& if spec_blocked(old(game).map, old(objects)@, x, y) {
                    *final(objects) == *old(objects)
                } else {
                    final(objects)@ == old(objects)@.update(PLAYER as int, Object { x: x as i32, y: y as i32, ..p })
                }
            }
            &&& forall|t: int|
                first_fighter_at(old(objects)@, t, x, y) ==> {
                    &&& final(objects)@.len() == old(objects)@.len()
                    &&& forall|i: int| 0 <= i < old(objects)@.len() && i != PLAYER && i != t ==> #[trigger] final(objects)@[i] == old(objects)@[i]
                    &&& attacked(p, old(objects)@[t], old(game).inventory@, final(objects)@[PLAYER as int], final(objects)@[t])
                    &&& logged(*old(game), *final(game), attack_messages(p, old(objects)@[t], old(game).inventory@))
                }
        }),
{
    let x = objects[PLAYER].x + dx;
    let y = objects[PLAYER].y + dy;
    let target_id = fighter_index_at(x, y, objects);
    match target_id {
        Some(t) => {
            assert forall|u: int| first_fighter_at(old(objects)@, u, x as int, y as int) implies u == t by {
                if u < t {
                    assert(!fighter_at(old(objects)@[u], x as int, y as int));
                } else if u > t {
                    assert(!fighter_at(old(objects)@[t as int], x as int, y as int));
                }
            }
            attack_at(PLAYER, t, game, objects);
        },
        None => {
            move_by(PLAYER, dx, dy, &game.map, objects);
        },
    }
}

/// Whether the point `(x, y)` is marked in the field-of-view grid.
pub open spec fn visible(fov: Vec<Vec<bool>>, x: int, y: int) -> bool {
    in_map((x, y)) && flag_at(fov, (x, y))
}

/// Whether the field-of-view grid marks `(x, y)`; points off the grid are not
/// visible.
pub fn is_in_fov(fov: &Vec<Vec<bool>>, x: i32, y: i32) -> (r: bool)
    requires
        wf_flags(*fov),
    ensures
        r == visible(*fov, x as int, y as int),
{
    if x < 0 || y < 0 || x >= crate::MAP_WIDTH || y >= crate::MAP_HEIGHT {
        return false;
    }
    assert(fov@[x as int]@.len() == crate::MAP_HEIGHT);
    fov[x as usize][y as usize]
}

/// A monster that a lightning bolt may strike: a visible fighter with an AI
/// other than the player.
pub open spec fn strike_candidate(fov: Vec<Vec<bool>>, objects: Seq<Object>, i: int) -> bool {
    &&& 0 <= i < objects.len()
    &&& i != PLAYER
    &&& objects[i].fighter is Some
    &&& objects[i].ai is Some
    &&& visible(fov, objects[i].x as int, objects[i].y as int)
}

/// Square of the distance from the player to entity `i`.
pub open spec fn dist_to_player(objects: Seq<Object>, i: int) -> int {
    dist_sq(objects[PLAYER as int].x as int, objects[PLAYER as int].y as int, objects[i].x as int, objects[i].y as int)
}

/// The visible monster closest to the player and at most `max_range` tiles away;
/// the first one on a tie.
pub fn closest_monster(fov: &Vec<Vec<bool>>, objects: &Vec<Object>, max_range: i32) -> (r: Option<usize>)
    requires
        wf_flags(*fov),
        objects@.len() > PLAYER,
        in_map((objects@[PLAYER as int].x as int, objects@[PLAYER as int].y as int)),
        0 <= max_range,
    ensures
        ({
            let limit = max_range * max_range + 1;
            match r {
                Some(i) => {
                    &&& strike_candidate(*fov, objects@, i as int)
                    &&& dist_to_player(objects@, i as int) < limit
                    &&& forall|j: int| strike_candidate(*fov, objects@, j) && j < i ==> dist_to_player(objects@, j) > dist_to_player(objects@, i as int)
                    &&& forall|j: int| strike_candidate(*fov, objects@, j) ==> dist_to_player(objects@, j) >= dist_to_player(objects@, i as int)
                },
                None => forall|j: int| strike_candidate(*fov, objects@, j) ==> dist_to_player(objects@, j) >= limit,
            }
        }),
{
    let m: i64 = max_range as i64;
    assert(0 <= m * m <= 0x4000_0000_0000_0000) by (nonlinear_arith)
        requires
            0 <= m <= 0x8000_0000,
    ;
    let limit: i64 = m * m + 1;
    let mut closest: Option<usize> = None;
    let mut closest_dist: i64 = limit;
    let mut id: usize = 0;
    while id < objects.len()
        invariant
            id <= objects@.len(),
            objects@.len() > PLAYER,
            wf_flags(*fov),
            in_map((objects@[PLAYER as int].x as int, objects@[PLAYER as int].y as int)),
            limit == max_range * max_range + 1,
            match closest {
                Some(i) => {
                    &&& i < id
                    &&& strike_candidate(*fov, objects@, i as int)
                    &&& closest_dist == dist_to_player(objects@, i as int)
                    &&& closest_dist < limit
                    &&& forall|j: int| strike_candidate(*fov, objects@, j) && j < i ==> dist_to_player(objects@, j) > closest_dist
                    &&& forall|j: int| strike_candidate(*fov, objects@, j) && j < id ==> dist_to_player(objects@, j) >= closest_dist
                },
                None => {
                    &&& closest_dist == limit
                    &&& forall|j: int| strike_candidate(*fov, objects@, j) && j < id ==> dist_to_player(objects@, j) >= limit
                },
            },
        decreases objects@.len() - id,
    {
        let o = &objects[id];
        if id != PLAYER && o.fighter.is_some() && o.ai.is_some() && is_in_fov(fov, o.x, o.y) {
            let dist = objects[PLAYER].distance_sq_to(o);
            if dist < closest_dist {
                closest = Some(id);
                closest_dist = dist;
            }
        }
        id = id + 1;
    }
    closest
}

/// The first fighter other than the player standing at `(x, y)`.
pub fn monster_at(x: i32, y: i32, objects: &Vec<Object>) -> (r: Option<usize>)
    ensures
        match r {
            Some(i) => i < objects@.len() && i != PLAYER && fighter_at(objects@[i as int], x as int, y as int)
                && forall|j: int| 0 <= j < i && j != PLAYER ==> !fighter_at(#[trigger] objects@[j], x as int, y as int),
            None => forall|j: int| 0 <= j < objects@.len() && j != PLAYER ==> !fighter_at(#[trigger] objects@[j], x as int, y as int),
        },
{
    let mut i: usize = 0;
    while i < objects.len()
        invariant
            i <= objects@.len(),
            forall|j: int| 0 <= j < i && j != PLAYER ==> !fighter_at(#[trigger] objects@[j], x as int, y as int),
        decreases objects@.len() - i,
    {
        if i != PLAYER && objects[i].fighter.is_some() && objects[i].x == x && objects[i].y == y {
            return Some(i);
        }
        i = i + 1;
    }
    None
}

/// An attack whose power does not exceed the target's defense leaves the
/// target, and so its hit points, unchanged.
pub proof fn lemma_damage_floor(a: Object, t: Object, inv: Seq<Object>, a2: Object, t2: Object)
    requires
        attacked(a, t, inv, a2, t2),
        attack_damage(a, t, inv) <= 0,
    ensures
        t2 == t,
        a2 == a,
{
}

/// A living fighter that a hit kills is dead afterwards, and any later damage
/// on it changes nothing and awards nothing.
pub proof fn lemma_death_once(o: Object, d1: int, o2: Object, d2: int, o3: Object)
    requires
        damage_result(o, d1, o2),
        dies_from(o, d1),
        damage_result(o2, d2, o3),
    ensures
        o.alive,
        !o2.alive,
        o3 == o2,
        kill_xp(o2, d2) is None,
{
}

/// The names of the entities among the first `n` that stand at `(x, y)` in
/// view, in list order.
pub open spec fn names_seen(fov: Vec<Vec<bool>>, objects: Seq<Object>, x: int, y: int, n: int) -> Seq<Seq<char>>
    decreases n,
{
    if n <= 0 {
        Seq::empty()
    } else {
        let rest = names_seen(fov, objects, x, y, n - 1);
        let o = objects[n - 1];
        if o.x == x && o.y == y && visible(fov, x, y) {
            rest.push(o.name@)
        } else {
            rest
        }
    }
}

/// Names joined by a comma and a space.
pub open spec fn joined(names: Seq<Seq<char>>) -> Seq<char>
    decreases names.len(),
{
    if names.len() == 0 {
        Seq::empty()
    } else if names.len() == 1 {
        names[0]
    } else {
        joined(names.drop_last()) + ", "@ + names.last()
    }
}

/// The names of the entities at `(x, y)`, if that point is in view, joined
/// by commas: what the cursor points at.
pub fn names_at(x: i32, y: i32, objects: &Vec<Object>, fov: &Vec<Vec<bool>>) -> (r: String)
    requires
        wf_flags(*fov),
    ensures
        r@ == joined(names_seen(*fov, objects@, x as int, y as int, objects@.len() as int)),
{
    let seen = is_in_fov(fov, x, y);
    let mut r = String::new();
    let mut count: usize = 0;
    let mut i: usize = 0;
    while i < objects.len()
        invariant
            i <= objects@.len(),
            seen == visible(*fov, x as int, y as int),
            count == names_seen(*fov, objects@, x as int, y as int, i as int).len(),
            r@ == joined(names_seen(*fov, objects@, x as int, y as int, i as int)),
            count <= i,
        decreases objects@.len() - i,
    {
        let o = &objects[i];
        if o.x == x && o.y == y && seen {
            let ghost before = names_seen(*fov, objects@, x as int, y as int, i as int);
            if count == 0 {
                r = o.name.clone();
                assert(before.push(o.name@).len() == 1);
            } else {
                r = r.concat(", ").concat(o.name.as_str());
                assert(before.push(o.name@).drop_last() =~= before);
            }
            count = count + 1;
        }
        i = i + 1;
    }
    r
}

} // verus!
