//! The monster behaviour state machine.
use vstd::prelude::*;
use vstd::string::*;
use crate::colour::{self, SerializableColour};
use crate::combat::{attack_at, attack_fits, attacked, attack_messages, is_in_fov, logged, visible};
use crate::game::Game;
use crate::map::{in_map, wf_flags, wf_map, Grid};
use crate::movement::{move_by, spec_blocked};
use crate::object::{dist_sq, fits_i32, small_coord, Object};
use crate::random::random_range;
use crate::PLAYER;

verus! {

/// The behaviour state of a monster.
#[derive(Debug)]
pub enum Ai {
    Basic,
    Confused { previous_ai: Box<Ai>, num_turns: i32 },
}

/// The state after one turn: basic stays basic; confusion counts down while
/// its counter is not negative, then gives back the state it wrapped.
pub open spec fn ai_next(ai: Ai) -> Ai {
    match ai {
        Ai::Basic => Ai::Basic,
        Ai::Confused { previous_ai, num_turns } => if num_turns >= 0 {
            Ai::Confused { previous_ai, num_turns: (num_turns - 1) as i32 }
        } else {
            *previous_ai
        },
    }
}

/// The state after `k` turns.
pub open spec fn ai_after(ai: Ai, k: nat) -> Ai
    decreases k,
{
    if k == 0 {
        ai
    } else {
        ai_next(ai_after(ai, (k - 1) as nat))
    }
}

/// A confusion of `n` turns, `n` not negative, stays for `n + 1` turns with
/// its counter running down to -1, and gives back the wrapped state on the
/// turn after.
pub proof fn lemma_confusion_countdown(previous_ai: Box<Ai>, n: i32)
    requires
        n >= 0,
    ensures
        forall|k: nat|
            k <= n + 1 ==> #[trigger] ai_after(Ai::Confused { previous_ai, num_turns: n }, k) == (Ai::Confused {
                previous_ai,
                num_turns: (n - k) as i32,
            }),
        ai_after(Ai::Confused { previous_ai, num_turns: n }, (n + 2) as nat) == *previous_ai,
{
    let start = Ai::Confused { previous_ai, num_turns: n };
    assert forall|k: nat| k <= n + 1 implies #[trigger] ai_after(start, k) == (Ai::Confused {
        previous_ai,
        num_turns: (n - k) as i32,
    }) by {
        lemma_countdown_step(previous_ai, n, k);
    }
    lemma_countdown_step(previous_ai, n, (n + 1) as nat);
}

proof fn lemma_countdown_step(previous_ai: Box<Ai>, n: i32, k: nat)
    requires
        n >= 0,
        k <= n + 1,
    ensures
        ai_after(Ai::Confused { previous_ai, num_turns: n }, k) == (Ai::Confused { previous_ai, num_turns: (n - k) as i32 }),
    decreases k,
{
    if k > 0 {
        lemma_countdown_step(previous_ai, n, (k - 1) as nat);
    }
}

/// One axis of a step toward a target `(dx, dy)` away: the direction vector
/// divided by its length, rounded to the nearest integer.
pub open spec fn step_toward(dx: int, dy: int) -> int {
    if dx != 0 && 3 * dx * dx >= dy * dy {
        if dx > 0 {
            1
        } else {
            -1
        }
    } else {
        0
    }
}

fn step_axis(dx: i64, dy: i64) -> (s: i32)
    requires
        -2_000_000 <= dx <= 2_000_000,
        -2_000_000 <= dy <= 2_000_000,
    ensures
        s == step_toward(dx as int, dy as int),
{
    assert(0 <= 3 * dx * dx <= 12_000_000_000_000 && 0 <= dy * dy <= 4_000_000_000_000) by (nonlinear_arith)
        requires
            -2_000_000 <= dx <= 2_000_000,
            -2_000_000 <= dy <= 2_000_000,
    ;
    if dx != 0 && 3 * dx * dx >= dy * dy {
        if dx > 0 {
            1
        } else {
            -1
        }
    } else {
        0
    }
}

/// Moves entity `id` one step toward `(target_x, target_y)` along the
/// normalised, rounded direction, unless that tile is blocked.
pub fn move_towards(id: usize, target_x: i32, target_y: i32, map: &Grid, objects: &mut Vec<Object>)
    requires
        wf_map(*map),
        id < old(objects)@.len(),
        small_coord(old(objects)@[id as int].x as int),
        small_coord(old(objects)@[id as int].y as int),
        small_coord(target_x as int),
        small_coord(target_y as int),
    ensures
        ({
            let o = old(objects)@[id as int];
            let nx = o.x + step_toward(target_x - o.x, target_y - o.y);
            let ny = o.y + step_toward(target_y - o.y, target_x - o.x);
            if spec_blocked(*map, old(objects)@, nx, ny) {
                *final(objects) == *old(objects)
            } else {
                final(objects)@ == old(objects)@.update(id as int, Object { x: nx as i32, y: ny as i32, ..o })
            }
        }),
{
    let dx: i64 = target_x as i64 - objects[id].x as i64;
    let dy: i64 = target_y as i64 - objects[id].y as i64;
    let sx = step_axis(dx, dy);
    let sy = step_axis(dy, dx);
    move_by(id, sx, sy, map, objects);
}

/// A monster acting on its own: if it stands in view, it steps toward a player
/// two or more tiles away, or attacks a living player next to it.
pub open spec fn basic_acts(fov: Vec<Vec<bool>>, objects: Seq<Object>, id: int) -> bool {
    visible(fov, objects[id].x as int, objects[id].y as int)
}

/// The monster is close enough to attack.
pub open spec fn in_reach(objects: Seq<Object>, id: int) -> bool {
    dist_sq(objects[id].x as int, objects[id].y as int, objects[PLAYER as int].x as int, objects[PLAYER as int].y as int) < 4
}

/// The player can still be attacked.
pub open spec fn player_standing(objects: Seq<Object>) -> bool {
    objects[PLAYER as int].fighter matches Some(f) && f.hp > 0
}

/// A monster with the basic behaviour takes its turn; the behaviour stays
/// basic.
pub fn ai_basic(monster_id: usize, fov: &Vec<Vec<bool>>, game: &mut Game, objects: &mut Vec<Object>) -> (r: Ai)
    requires
        wf_map(old(game).map),
        wf_flags(*fov),
        monster_id != PLAYER,
        monster_id < old(objects)@.len(),
        old(objects)@.len() > PLAYER,
        in_map((old(objects)@[PLAYER as int].x as int, old(objects)@[PLAYER as int].y as int)),
        basic_acts(*fov, old(objects)@, monster_id as int) && !in_reach(old(objects)@, monster_id as int)
            ==> small_coord(old(objects)@[monster_id as int].x as int),
        basic_acts(*fov, old(objects)@, monster_id as int) && in_reach(old(objects)@, monster_id as int)
            && player_standing(old(objects)@) ==> attack_fits(
            old(objects)@[monster_id as int],
            old(objects)@[PLAYER as int],
            old(game).inventory@,
        ),
    ensures
        r matches Ai::Basic,
        final(objects)@.len() == old(objects)@.len(),
        ({
            let id = monster_id as int;
            let o = old(objects)@[id];
            let p = old(objects)@[PLAYER as int];
            if !basic_acts(*fov, old(objects)@, id) {
                *final(objects) == *old(objects) && *final(game) == *old(game)
            } else if !in_reach(old(objects)@, id) {
                let nx = o.x + step_toward(p.x - o.x, p.y - o.y);
                let ny = o.y + step_toward(p.y - o.y, p.x - o.x);
                &&& *final(game) == *old(game)
                &&& if spec_blocked(old(game).map, old(objects)@, nx, ny) {
                    *final(objects) == *old(objects)
                } else {
                    final(objects)@ == old(objects)@.update(id, Object { x: nx as i32, y: ny as i32, ..o })
                }
            } else if player_standing(old(objects)@) {
                &&& attacked(o, p, old(game).inventory@, final(objects)@[id], final(objects)@[PLAYER as int])
                &&& forall|i: int| 0 <= i < old(objects)@.len() && i != id && i != PLAYER ==> #[trigger] final(objects)@[i] == old(objects)@[i]
                &&& logged(*old(game), *final(game), attack_messages(o, p, old(game).inventory@))
            } else {
                *final(objects) == *old(objects) && *final(game) == *old(game)
            }
        }),
{
    let (monster_x, monster_y) = objects[monster_id].pos();
    if is_in_fov(fov, monster_x, monster_y) {
        let d = objects[monster_id].distance_sq_to(&objects[PLAYER]);
        if d >= 4 {
            let (player_x, player_y) = objects[PLAYER].pos();
            move_towards(monster_id, player_x, player_y, &game.map, objects);
        } else {
            let standing = match objects[PLAYER].fighter {
                Some(f) => f.hp > 0,
                None => false,
            };
            if standing {
                attack_at(monster_id, PLAYER, game, objects);
            }
        }
    }
    Ai::Basic
}

/// A confused monster stumbles by `(dx, dy)` while its counter is not
/// negative, counting down; after that it gets its previous behaviour back,
/// with a message.
pub fn ai_confused(
    monster_id: usize,
    dx: i32,
    dy: i32,
    game: &mut Game,
    objects: &mut Vec<Object>,
    previous_ai: Box<Ai>,
    num_turns: i32,
) -> (r: Ai)
    requires
        wf_map(old(game).map),
        monster_id < old(objects)@.len(),
        -1 <= dx <= 1,
        -1 <= dy <= 1,
        num_turns >= 0 ==> fits_i32(old(objects)@[monster_id as int].x + dx) && fits_i32(old(objects)@[monster_id as int].y + dy),
    ensures
        r == ai_next(Ai::Confused { previous_ai, num_turns }),
        final(objects)@.len() == old(objects)@.len(),
        num_turns >= 0 ==> {
            let o = old(objects)@[monster_id as int];
            let nx = o.x + dx;
            let ny = o.y + dy;
            &&& *final(game) == *old(game)
            &&& if spec_blocked(old(game).map, old(objects)@, nx, ny) {
                *final(objects) == *old(objects)
            } else {
                final(objects)@ == old(objects)@.update(monster_id as int, Object { x: nx as i32, y: ny as i32, ..o })
            }
        },
        num_turns < 0 ==> *final(objects) == *old(objects) && logged(*old(game), *final(game), 1)
            && final(game).messages@ == old(game).messages@.push(("The "@ + old(objects)@[monster_id as int].name@ + " is no longer confused!"@, SerializableColour { r: 255, g: 0, b: 0 })),
{
    if num_turns >= 0 {
        move_by(monster_id, dx, dy, &game.map, objects);
        Ai::Confused { previous_ai, num_turns: num_turns - 1 }
    } else {
        let ghost m0 = game.messages@;
        let text = String::from_str("The ").concat(objects[monster_id].name.as_str()).concat(" is no longer confused!");
        game.messages.add(text, colour::red());
        assert(game.messages@.subrange(0, m0.len() as int) =~= m0);
        assert(game.messages@ == m0.push(("The "@ + old(objects)@[monster_id as int].name@ + " is no longer confused!"@, SerializableColour { r: 255, g: 0, b: 0 })));
        *previous_ai
    }
}

/// What a monster's turn may ask of the numbers: its position leaves room
/// for a step, and an attack on the player fits in `i32`.
pub open spec fn turn_fits(fov: Vec<Vec<bool>>, objects: Seq<Object>, inv: Seq<Object>, id: int) -> bool {
    &&& small_coord(objects[id].x as int)
    &&& small_coord(objects[id].y as int)
    &&& (basic_acts(fov, objects, id) && in_reach(objects, id) && player_standing(objects) ==> attack_fits(
        objects[id],
        objects[PLAYER as int],
        inv,
    ))
}

/// What one turn of monster `id` did to the entity list and the game: a
/// basic monster moved or attacked as `ai_basic` says, a confused one stumbled
/// by `step` or came to its senses as `ai_confused` says.
pub open spec fn turn_effect(
    fov: Vec<Vec<bool>>,
    step: (i32, i32),
    g: Game,
    objects: Seq<Object>,
    id: int,
    g2: Game,
    objects2: Seq<Object>,
) -> bool {
    let o = objects[id];
    let p = objects[PLAYER as int];
    let moved_to = |nx: int, ny: int|
        if spec_blocked(g.map, objects, nx, ny) {
            objects2 == objects
        } else {
            objects2 == objects.update(id, Object { x: nx as i32, y: ny as i32, ..o })
        };
    match o.ai {
        Some(Ai::Basic) => if !basic_acts(fov, objects, id) {
            objects2 == objects && g2 == g
        } else if !in_reach(objects, id) {
            g2 == g && moved_to(o.x + step_toward(p.x - o.x, p.y - o.y), o.y + step_toward(p.y - o.y, p.x - o.x))
        } else if player_standing(objects) {
            &&& objects2.len() == objects.len()
            &&& attacked(o, p, g.inventory@, objects2[id], objects2[PLAYER as int])
            &&& forall|i: int| 0 <= i < objects.len() && i != id && i != PLAYER ==> #[trigger] objects2[i] == objects[i]
            &&& logged(g, g2, attack_messages(o, p, g.inventory@))
        } else {
            objects2 == objects && g2 == g
        },
        Some(Ai::Confused { previous_ai, num_turns }) => if num_turns >= 0 {
            g2 == g && moved_to(o.x + step.0, o.y + step.1)
        } else {
            objects2 == objects && logged(g, g2, 1) && g2.messages@ == g.messages@.push(("The "@ + o.name@ + " is no longer confused!"@, SerializableColour { r: 255, g: 0, b: 0 }))
        },
        None => objects2 == objects && g2 == g,
    }
}

/// Monster `id` took its turn: its behaviour state advanced by one, and the
/// rest of the change is `turn_effect`.
pub open spec fn took_turn(
    fov: Vec<Vec<bool>>,
    step: (i32, i32),
    g: Game,
    objects: Seq<Object>,
    id: int,
    g2: Game,
    objects2: Seq<Object>,
) -> bool {
    let o = objects[id];
    match o.ai {
        Some(a) => {
            &&& objects2[id].ai == Some(ai_next(a))
            &&& turn_effect(fov, step, g, objects, id, g2, objects2.update(id, Object { ai: o.ai, ..objects2[id] }))
        },
        None => objects2 == objects && g2 == g,
    }
}

/// Monster `monster_id` takes its turn, a confused one stumbling by `step`.
/// Its behaviour state is taken out, advanced one turn, and put back.
pub fn ai_take_turn_with(
    monster_id: usize,
    fov: &Vec<Vec<bool>>,
    step: (i32, i32),
    game: &mut Game,
    objects: &mut Vec<Object>,
)
    requires
        wf_map(old(game).map),
        wf_flags(*fov),
        monster_id != PLAYER,
        monster_id < old(objects)@.len(),
        in_map((old(objects)@[PLAYER as int].x as int, old(objects)@[PLAYER as int].y as int)),
        -1 <= step.0 <= 1,
        -1 <= step.1 <= 1,
        turn_fits(*fov, old(objects)@, old(game).inventory@, monster_id as int),
    ensures
        final(objects)@.len() == old(objects)@.len(),
        took_turn(*fov, step, *old(game), old(objects)@, monster_id as int, *final(game), final(objects)@),
{
    let ghost o0 = objects@;
    let taken = objects[monster_id].ai.take();
    if let Some(ai) = taken {
        let ghost mid = objects@;
        assert(mid == o0.update(monster_id as int, Object { ai: None, ..o0[monster_id as int] }));
        let new_ai = match ai {
            Ai::Basic => ai_basic(monster_id, fov, game, objects),
            Ai::Confused { previous_ai, num_turns } => ai_confused(
                monster_id,
                step.0,
                step.1,
                game,
                objects,
                previous_ai,
                num_turns,
            ),
        };
        let ghost after = objects@;
        objects[monster_id].ai = Some(new_ai);
        proof {
            let id = monster_id as int;
            let fin0 = objects@;
            let back = fin0.update(id, Object { ai: o0[id].ai, ..fin0[id] });
            let fin = after;
            assert(back =~= after.update(id, Object { ai: o0[id].ai, ..after[id] }));
            assert(taken == o0[id].ai);
            assert(fin0[id].ai == Some(ai_next(ai)));
            let o = o0[id];
            let p = o0[PLAYER as int];
            assert(mid[PLAYER as int] == p);
            assert forall|x: int, y: int| #[trigger] spec_blocked(old(game).map, mid, x, y) == spec_blocked(old(game).map, o0, x, y) by {
                if crate::movement::blocker_at(o0, x, y) {
                    let i = choose|i: int| 0 <= i < o0.len() && (#[trigger] o0[i]).blocks && o0[i].x == x && o0[i].y == y;
                    assert(mid[i].blocks && mid[i].x == x && mid[i].y == y);
                }
                if crate::movement::blocker_at(mid, x, y) {
                    let i = choose|i: int| 0 <= i < mid.len() && (#[trigger] mid[i]).blocks && mid[i].x == x && mid[i].y == y;
                    assert(o0[i].blocks && o0[i].x == x && o0[i].y == y);
                }
            }
            assert(basic_acts(*fov, mid, id) == basic_acts(*fov, o0, id));
            assert(in_reach(mid, id) == in_reach(o0, id));
            assert(player_standing(mid) == player_standing(o0));
            assert(mid[id] == Object { ai: None, ..o });
            match o.ai {
                Some(Ai::Basic) => {
                    if !basic_acts(*fov, o0, id) {
                        assert(back =~= o0);
                    } else if !in_reach(o0, id) {
                        if fin == mid {
                            assert(back =~= o0);
                        } else {
                            assert(back =~= o0.update(id, Object { x: fin[id].x, y: fin[id].y, ..o }));
                        }
                    } else if player_standing(o0) {
                        assert forall|i: int| 0 <= i < o0.len() && i != id && i != PLAYER implies #[trigger] back[i] == o0[i] by {
                            assert(fin[i] == mid[i]);
                        }
                        assert(back[PLAYER as int] == fin[PLAYER as int]);
                        let d = crate::combat::attack_damage(o, p, game.inventory@);
                        assert(crate::combat::attack_damage(mid[id], p, game.inventory@) == d);
                        if d > 0 {
                            match crate::combat::kill_xp(p, d) {
                                Some(xp) => {
                                    assert(fin[id] == crate::combat::with_xp(mid[id], xp as int));
                                    assert(back[id] == crate::combat::with_xp(o, xp as int));
                                },
                                None => {
                                    assert(back[id] == o);
                                },
                            }
                        } else {
                            assert(back[id] == o);
                        }
                        assert(attacked(o, p, old(game).inventory@, back[id], back[PLAYER as int]));
                    } else {
                        assert(back =~= o0);
                    }
                    assert(turn_effect(*fov, step, *old(game), o0, id, *game, back));
                },
                Some(Ai::Confused { previous_ai, num_turns }) => {
                    let nx = o.x + step.0;
                    let ny = o.y + step.1;
                    assert(spec_blocked(old(game).map, mid, nx, ny) == spec_blocked(old(game).map, o0, nx, ny));
                    if num_turns < 0 {
                        assert(fin == mid);
                        assert(back =~= o0);
                    } else if spec_blocked(old(game).map, o0, nx, ny) {
                        assert(fin == mid);
                        assert(back =~= o0);
                    } else {
                        assert(fin == mid.update(id, Object { x: nx as i32, y: ny as i32, ..mid[id] }));
                        assert(back =~= o0.update(id, Object { x: nx as i32, y: ny as i32, ..o }));
                    }
                    assert(turn_effect(*fov, step, *old(game), o0, id, *game, back));
                },
                None => {},
            }
        }
    } else {
        assert(objects@ =~= o0);
    }
}

/// Monster `monster_id` takes its turn; a confused monster's stumble is drawn
/// at random, one of -1, 0 and 1 on each axis.
pub fn ai_take_turn(monster_id: usize, fov: &Vec<Vec<bool>>, game: &mut Game, objects: &mut Vec<Object>)
    requires
        wf_map(old(game).map),
        wf_flags(*fov),
        monster_id != PLAYER,
        monster_id < old(objects)@.len(),
        in_map((old(objects)@[PLAYER as int].x as int, old(objects)@[PLAYER as int].y as int)),
        turn_fits(*fov, old(objects)@, old(game).inventory@, monster_id as int),
    ensures
        final(objects)@.len() == old(objects)@.len(),
        exists|step: (i32, i32)|
            -1 <= step.0 <= 1 && -1 <= step.1 <= 1 && #[trigger] took_turn(
                *fov,
                step,
                *old(game),
                old(objects)@,
                monster_id as int,
                *final(game),
                final(objects)@,
            ),
{
    let dx = random_range(-1, 2);
    let dy = random_range(-1, 2);
    ai_take_turn_with(monster_id, fov, (dx, dy), game, objects);
}

} // verus!
