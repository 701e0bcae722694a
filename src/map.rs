//! The dungeon grid, walkable paths through it, and the procedural generator.
use vstd::prelude::*;
use crate::tile::{Rect, Tile};
use crate::{MAP_HEIGHT, MAP_WIDTH};
use crate::random::{random_bool, random_range};
use crate::colour;
use crate::object::{placed_in, place_objects, room_on_grid, Object};
use crate::{MAX_ROOMS, MIN_ROOMS, PLAYER, ROOM_MAX_SIZE, ROOM_MIN_SIZE};

verus! {

/// The dungeon grid, indexed as `map[x][y]`.
pub type Grid = Vec<Vec<Tile>>;

/// A map has `MAP_WIDTH` columns of `MAP_HEIGHT` tiles.
pub open spec fn wf_map(map: Grid) -> bool {
    &&& map@.len() == MAP_WIDTH
    &&& forall|x: int| 0 <= x < map@.len() ==> (#[trigger] map@[x])@.len() == MAP_HEIGHT
}

/// Whether a point lies on the grid.
pub open spec fn in_map(p: (int, int)) -> bool {
    0 <= p.0 < MAP_WIDTH && 0 <= p.1 < MAP_HEIGHT
}

/// The tile at a point of the grid.
pub open spec fn tile_at(map: Grid, p: (int, int)) -> Tile {
    map@[p.0]@[p.1]
}

/// The tile that carving leaves behind.
pub open spec fn floor_tile() -> Tile {
    Tile { blocked: false, block_sight: false, explored: false }
}

/// A point on the grid whose tile does not block movement.
pub open spec fn walkable(map: Grid, p: (int, int)) -> bool {
    in_map(p) && !tile_at(map, p).blocked
}

/// Two points are equal or share a side.
pub open spec fn adjacent(a: (int, int), b: (int, int)) -> bool {
    let dx = if a.0 >= b.0 { a.0 - b.0 } else { b.0 - a.0 };
    let dy = if a.1 >= b.1 { a.1 - b.1 } else { b.1 - a.1 };
    dx + dy <= 1
}

/// A non-empty sequence of walkable points, each next to the one before.
pub open spec fn is_walk(map: Grid, w: Seq<(int, int)>) -> bool {
    &&& w.len() > 0
    &&& forall|i: int| 0 <= i < w.len() ==> walkable(map, #[trigger] w[i])
    &&& forall|i: int| 0 <= i < w.len() - 1 ==> adjacent(#[trigger] w[i], w[i + 1])
}

/// A walk leads from `a` to `b`.
pub open spec fn connected(map: Grid, a: (int, int), b: (int, int)) -> bool {
    exists|w: Seq<(int, int)>| is_walk(map, w) && w[0] == a && w.last() == b
}

/// The points of the axis-aligned box spanned by `a` and `b`; for two points
/// on one row or column, the straight segment between them.
pub open spec fn on_segment(a: (int, int), b: (int, int), p: (int, int)) -> bool {
    &&& (if a.0 <= b.0 { a.0 <= p.0 <= b.0 } else { b.0 <= p.0 <= a.0 })
    &&& (if a.1 <= b.1 { a.1 <= p.1 <= b.1 } else { b.1 <= p.1 <= a.1 })
}

/// The points of the L-shaped tunnel from `(x1, y1)` to `(x2, y2)`, going
/// along the row first when `horizontal_first`, along the column first
/// otherwise.
pub open spec fn on_tunnel(x1: int, y1: int, x2: int, y2: int, horizontal_first: bool, p: (int, int)) -> bool {
    if horizontal_first {
        on_segment((x1, y1), (x2, y1), p) || on_segment((x2, y1), (x2, y2), p)
    } else {
        on_segment((x1, y1), (x1, y2), p) || on_segment((x1, y2), (x2, y2), p)
    }
}

/// The interior of a room: every point strictly inside its rectangle.
pub open spec fn in_interior(room: Rect, p: (int, int)) -> bool {
    room.x1 < p.0 < room.x2 && room.y1 < p.1 < room.y2
}

/// `new` is `old` with the points of `carve` turned into floor, and nothing
/// else changed.
pub open spec fn carved(old: Grid, new: Grid, carve: spec_fn((int, int)) -> bool) -> bool {
    &&& wf_map(new)
    &&& forall|p: (int, int)|
        in_map(p) ==> #[trigger] tile_at(new, p) == if carve(p) {
            floor_tile()
        } else {
            tile_at(old, p)
        }
}

/// Every walkable point of `a` is walkable in `b`.
pub open spec fn opens_up(a: Grid, b: Grid) -> bool {
    forall|p: (int, int)| walkable(a, p) ==> #[trigger] walkable(b, p)
}

pub proof fn lemma_connected_refl(map: Grid, a: (int, int))
    requires
        walkable(map, a),
    ensures
        connected(map, a, a),
{
    let w = seq![a];
    assert(is_walk(map, w));
    assert(w[0] == a && w.last() == a);
}

pub proof fn lemma_connected_step(map: Grid, a: (int, int), b: (int, int), c: (int, int))
    requires
        connected(map, a, b),
        walkable(map, c),
        adjacent(b, c),
    ensures
        connected(map, a, c),
{
    let w = choose|w: Seq<(int, int)>| is_walk(map, w) && w[0] == a && w.last() == b;
    let v = w.push(c);
    assert forall|i: int| 0 <= i < v.len() - 1 implies adjacent(#[trigger] v[i], v[i + 1]) by {
        if i < w.len() - 1 {
            assert(v[i] == w[i] && v[i + 1] == w[i + 1]);
        }
    }
    assert forall|i: int| 0 <= i < v.len() implies walkable(map, #[trigger] v[i]) by {
        if i < w.len() {
            assert(v[i] == w[i]);
        }
    }
    assert(is_walk(map, v));
    assert(v[0] == a && v.last() == c);
}

pub proof fn lemma_connected_trans(map: Grid, a: (int, int), b: (int, int), c: (int, int))
    requires
        connected(map, a, b),
        connected(map, b, c),
    ensures
        connected(map, a, c),
{
    let w = choose|w: Seq<(int, int)>| is_walk(map, w) && w[0] == a && w.last() == b;
    let u = choose|u: Seq<(int, int)>| is_walk(map, u) && u[0] == b && u.last() == c;
    let v = w + u;
    assert forall|i: int| 0 <= i < v.len() - 1 implies adjacent(#[trigger] v[i], v[i + 1]) by {
        if i < w.len() - 1 {
            assert(v[i] == w[i] && v[i + 1] == w[i + 1]);
        } else if i == w.len() - 1 {
            assert(v[i] == b && v[i + 1] == u[0]);
        } else {
            assert(v[i] == u[i - w.len()] && v[i + 1] == u[i - w.len() + 1]);
        }
    }
    assert forall|i: int| 0 <= i < v.len() implies walkable(map, #[trigger] v[i]) by {
        if i < w.len() {
            assert(v[i] == w[i]);
        } else {
            assert(v[i] == u[i - w.len()]);
        }
    }
    assert(is_walk(map, v));
    assert(v[0] == a && v.last() == c);
}

/// A walk stays a walk when the map only opens up.
pub proof fn lemma_connected_opens_up(a: Grid, b: Grid, p: (int, int), q: (int, int))
    requires
        connected(a, p, q),
        opens_up(a, b),
    ensures
        connected(b, p, q),
{
    let w = choose|w: Seq<(int, int)>| is_walk(a, w) && w[0] == p && w.last() == q;
    assert forall|i: int| 0 <= i < w.len() implies walkable(b, #[trigger] w[i]) by {
        assert(walkable(a, w[i]));
    }
    assert(is_walk(b, w));
}

/// A straight row or column of walkable points connects its two ends.
pub proof fn lemma_segment_connected(map: Grid, a: (int, int), b: (int, int))
    requires
        a.0 == b.0 || a.1 == b.1,
        forall|p: (int, int)| on_segment(a, b, p) ==> #[trigger] walkable(map, p),
    ensures
        connected(map, a, b),
    decreases
        (if a.0 >= b.0 { a.0 - b.0 } else { b.0 - a.0 }) + (if a.1 >= b.1 { a.1 - b.1 } else { b.1 - a.1 }),
{
    assert(on_segment(a, b, a));
    assert(on_segment(a, b, b));
    if a == b {
        lemma_connected_refl(map, a);
    } else {
        let c = if a.0 < b.0 {
            (b.0 - 1, b.1)
        } else if a.0 > b.0 {
            (b.0 + 1, b.1)
        } else if a.1 < b.1 {
            (b.0, b.1 - 1)
        } else {
            (b.0, b.1 + 1)
        };
        assert forall|p: (int, int)| on_segment(a, c, p) implies #[trigger] walkable(map, p) by {
            assert(on_segment(a, b, p));
        }
        lemma_segment_connected(map, a, c);
        lemma_connected_step(map, a, c, b);
    }
}

/// Carving only turns tiles into floor, so the map opens up.
pub proof fn lemma_carved_opens_up(old: Grid, new: Grid, carve: spec_fn((int, int)) -> bool)
    requires
        carved(old, new, carve),
    ensures
        opens_up(old, new),
{
    assert forall|p: (int, int)| walkable(old, p) implies #[trigger] walkable(new, p) by {
        assert(tile_at(new, p) == if carve(p) { floor_tile() } else { tile_at(old, p) });
    }
}

/// Carving twice carves the union.
pub proof fn lemma_carved_twice(
    m0: Grid,
    m1: Grid,
    m2: Grid,
    c1: spec_fn((int, int)) -> bool,
    c2: spec_fn((int, int)) -> bool,
    c: spec_fn((int, int)) -> bool,
)
    requires
        carved(m0, m1, c1),
        carved(m1, m2, c2),
        forall|p: (int, int)| #[trigger] c(p) == (c1(p) || c2(p)),
    ensures
        carved(m0, m2, c),
{
    assert forall|p: (int, int)| in_map(p) implies #[trigger] tile_at(m2, p) == if c(p) {
        floor_tile()
    } else {
        tile_at(m0, p)
    } by {
        assert(tile_at(m2, p) == if c2(p) { floor_tile() } else { tile_at(m1, p) });
        assert(tile_at(m1, p) == if c1(p) { floor_tile() } else { tile_at(m0, p) });
    }
}

} // verus!

verus! {

/// Turns the single tile at `(x, y)` into floor.
fn carve_tile(map: &mut Grid, x: i32, y: i32)
    requires
        wf_map(*old(map)),
        in_map((x as int, y as int)),
    ensures
        carved(*old(map), *final(map), |p: (int, int)| p == (x as int, y as int)),
{
    let xu = x as usize;
    let yu = y as usize;
    assert(map@[xu as int]@.len() == MAP_HEIGHT);
    map[xu][yu] = Tile::empty();
    assert forall|p: (int, int)| in_map(p) implies #[trigger] tile_at(*map, p) == if p == (
    x as int,
    y as int,
    ) {
        floor_tile()
    } else {
        tile_at(*old(map), p)
    } by {
        if p.0 != xu {
            assert(map@[p.0] == old(map)@[p.0]);
        }
    }
    assert forall|i: int| 0 <= i < map@.len() implies (#[trigger] map@[i])@.len() == MAP_HEIGHT by {
        assert(old(map)@[i]@.len() == MAP_HEIGHT);
    }
}

/// Turns the interior of `room` into floor; its outer ring is left alone.
pub fn create_room(room: Rect, map: &mut Grid)
    requires
        wf_map(*old(map)),
        0 <= room.x1,
        room.x2 <= MAP_WIDTH,
        0 <= room.y1,
        room.y2 <= MAP_HEIGHT,
        room.x1 <= room.x2,
        room.y1 <= room.y2,
    ensures
        carved(*old(map), *final(map), |p: (int, int)| in_interior(room, p)),
{
    let mut x: i32 = room.x1 + 1;
    while x < room.x2
        invariant
            room.x1 + 1 <= x,
            0 <= room.x1,
            room.x2 <= MAP_WIDTH,
            0 <= room.y1,
            room.y2 <= MAP_HEIGHT,
            x <= room.x2 || room.x1 + 1 >= room.x2,
            room.y1 <= room.y2,
            carved(*old(map), *map, |p: (int, int)| in_interior(room, p) && p.0 < x),
        decreases room.x2 - x,
    {
        let mut y: i32 = room.y1 + 1;
        while y < room.y2
            invariant
                room.x1 < x < room.x2,
                0 <= room.x1,
                room.y1 + 1 <= y,
                0 <= room.y1,
                room.x2 <= MAP_WIDTH,
                room.y2 <= MAP_HEIGHT,
                y <= room.y2 || room.y1 + 1 >= room.y2,
                carved(
                    *old(map),
                    *map,
                    |p: (int, int)| in_interior(room, p) && (p.0 < x || (p.0 == x && p.1 < y)),
                ),
            decreases room.y2 - y,
        {
            let ghost before = *map;
            carve_tile(map, x, y);
            proof {
                let xi = x as int;
                let yi = y as int;
                lemma_carved_twice(
                    *old(map),
                    before,
                    *map,
                    |p: (int, int)| in_interior(room, p) && (p.0 < xi || (p.0 == xi && p.1 < yi)),
                    |p: (int, int)| p == (xi, yi),
                    |p: (int, int)| in_interior(room, p) && (p.0 < xi || (p.0 == xi && p.1 < yi + 1)),
                );
            }
            y = y + 1;
        }
        x = x + 1;
    }
}

} // verus!

verus! {

/// Carving is the same for two descriptions of one set of points.
proof fn lemma_carved_equiv(old: Grid, new: Grid, c1: spec_fn((int, int)) -> bool, c2: spec_fn((int, int)) -> bool)
    requires
        carved(old, new, c1),
        forall|p: (int, int)| #[trigger] c1(p) == c2(p),
    ensures
        carved(old, new, c2),
{
    assert forall|p: (int, int)| in_map(p) implies #[trigger] tile_at(new, p) == if c2(p) {
        floor_tile()
    } else {
        tile_at(old, p)
    } by {
        assert(tile_at(new, p) == if c1(p) { floor_tile() } else { tile_at(old, p) });
    }
}

/// Carving nothing leaves the map as it is.
proof fn lemma_carved_nothing(map: Grid)
    requires
        wf_map(map),
    ensures
        carved(map, map, |p: (int, int)| false),
{
}

/// Turns the row `y` between `x1` and `x2`, both included, into floor.
pub fn create_h_tunnel(x1: i32, x2: i32, y: i32, map: &mut Grid)
    requires
        wf_map(*old(map)),
        in_map((x1 as int, y as int)),
        in_map((x2 as int, y as int)),
    ensures
        carved(*old(map), *final(map), |p: (int, int)| on_segment((x1 as int, y as int), (x2 as int, y as int), p)),
{
    let lo = if x1 <= x2 { x1 } else { x2 };
    let hi = if x1 <= x2 { x2 } else { x1 };
    let mut x: i32 = lo;
    proof {
        lemma_carved_nothing(*map);
        lemma_carved_equiv(*map, *map, |p: (int, int)| false, |p: (int, int)| p.1 == y && lo <= p.0 < lo);
    }
    while x <= hi
        invariant
            lo <= x <= hi + 1,
            0 <= lo <= hi < MAP_WIDTH,
            0 <= y < MAP_HEIGHT,
            carved(*old(map), *map, |p: (int, int)| p.1 == y && lo <= p.0 < x),
        decreases hi + 1 - x,
    {
        let ghost before = *map;
        carve_tile(map, x, y);
        proof {
            let xi = x as int;
            lemma_carved_twice(
                *old(map),
                before,
                *map,
                |p: (int, int)| p.1 == y && lo <= p.0 < xi,
                |p: (int, int)| p == (xi, y as int),
                |p: (int, int)| p.1 == y && lo <= p.0 < xi + 1,
            );
        }
        x = x + 1;
    }
    proof {
        lemma_carved_equiv(
            *old(map),
            *map,
            |p: (int, int)| p.1 == y && lo <= p.0 < hi + 1,
            |p: (int, int)| on_segment((x1 as int, y as int), (x2 as int, y as int), p),
        );
    }
}

/// Turns the column `x` between `y1` and `y2`, both included, into floor.
pub fn create_v_tunnel(y1: i32, y2: i32, x: i32, map: &mut Grid)
    requires
        wf_map(*old(map)),
        in_map((x as int, y1 as int)),
        in_map((x as int, y2 as int)),
    ensures
        carved(*old(map), *final(map), |p: (int, int)| on_segment((x as int, y1 as int), (x as int, y2 as int), p)),
{
    let lo = if y1 <= y2 { y1 } else { y2 };
    let hi = if y1 <= y2 { y2 } else { y1 };
    let mut y: i32 = lo;
    proof {
        lemma_carved_nothing(*map);
        lemma_carved_equiv(*map, *map, |p: (int, int)| false, |p: (int, int)| p.0 == x && lo <= p.1 < lo);
    }
    while y <= hi
        invariant
            lo <= y <= hi + 1,
            0 <= lo <= hi < MAP_HEIGHT,
            0 <= x < MAP_WIDTH,
            carved(*old(map), *map, |p: (int, int)| p.0 == x && lo <= p.1 < y),
        decreases hi + 1 - y,
    {
        let ghost before = *map;
        carve_tile(map, x, y);
        proof {
            let yi = y as int;
            lemma_carved_twice(
                *old(map),
                before,
                *map,
                |p: (int, int)| p.0 == x && lo <= p.1 < yi,
                |p: (int, int)| p == (x as int, yi),
                |p: (int, int)| p.0 == x && lo <= p.1 < yi + 1,
            );
        }
        y = y + 1;
    }
    proof {
        lemma_carved_equiv(
            *old(map),
            *map,
            |p: (int, int)| p.0 == x && lo <= p.1 < hi + 1,
            |p: (int, int)| on_segment((x as int, y1 as int), (x as int, y2 as int), p),
        );
    }
}

/// Joins `(x1, y1)` to `(x2, y2)` by an L-shaped tunnel, along the row first
/// when `horizontal_first` and along the column first otherwise.
pub fn connect_rooms_with(x1: i32, y1: i32, x2: i32, y2: i32, horizontal_first: bool, map: &mut Grid)
    requires
        wf_map(*old(map)),
        in_map((x1 as int, y1 as int)),
        in_map((x2 as int, y2 as int)),
    ensures
        carved(
            *old(map),
            *final(map),
            |p: (int, int)| on_tunnel(x1 as int, y1 as int, x2 as int, y2 as int, horizontal_first, p),
        ),
        connected(*final(map), (x1 as int, y1 as int), (x2 as int, y2 as int)),
{
    let ghost m0 = *map;
    let ghost a = (x1 as int, y1 as int);
    let ghost b = (x2 as int, y2 as int);
    if horizontal_first {
        let ghost c = (x2 as int, y1 as int);
        create_h_tunnel(x1, x2, y1, map);
        let ghost m1 = *map;
        create_v_tunnel(y1, y2, x2, map);
        proof {
            lemma_carved_twice(
                m0,
                m1,
                *map,
                |p: (int, int)| on_segment(a, c, p),
                |p: (int, int)| on_segment(c, b, p),
                |p: (int, int)| on_tunnel(x1 as int, y1 as int, x2 as int, y2 as int, horizontal_first, p),
            );
            lemma_tunnel_connected(m0, *map, a, c, b);
        }
    } else {
        let ghost c = (x1 as int, y2 as int);
        create_v_tunnel(y1, y2, x1, map);
        let ghost m1 = *map;
        create_h_tunnel(x1, x2, y2, map);
        proof {
            lemma_carved_twice(
                m0,
                m1,
                *map,
                |p: (int, int)| on_segment(a, c, p),
                |p: (int, int)| on_segment(c, b, p),
                |p: (int, int)| on_tunnel(x1 as int, y1 as int, x2 as int, y2 as int, horizontal_first, p),
            );
            lemma_tunnel_connected(m0, *map, a, c, b);
        }
    }
}

/// Two carved legs `a`–`c` and `c`–`b` on the grid join `a` to `b`.
proof fn lemma_tunnel_connected(m0: Grid, m: Grid, a: (int, int), c: (int, int), b: (int, int))
    requires
        in_map(a),
        in_map(b),
        in_map(c),
        a.0 == c.0 || a.1 == c.1,
        c.0 == b.0 || c.1 == b.1,
        carved(m0, m, |p: (int, int)| on_segment(a, c, p) || on_segment(c, b, p)),
    ensures
        connected(m, a, b),
{
    assert forall|p: (int, int)| on_segment(a, c, p) implies #[trigger] walkable(m, p) by {
        assert(tile_at(m, p) == floor_tile());
    }
    assert forall|p: (int, int)| on_segment(c, b, p) implies #[trigger] walkable(m, p) by {
        assert(tile_at(m, p) == floor_tile());
    }
    lemma_segment_connected(m, a, c);
    lemma_segment_connected(m, c, b);
    lemma_connected_trans(m, a, c, b);
}

/// Joins `(x1, y1)` to `(x2, y2)` by an L-shaped tunnel whose orientation is
/// drawn at random.
pub fn connect_rooms(x1: i32, y1: i32, x2: i32, y2: i32, map: &mut Grid)
    requires
        wf_map(*old(map)),
        in_map((x1 as int, y1 as int)),
        in_map((x2 as int, y2 as int)),
    ensures
        carved(*old(map), *final(map), |p: (int, int)| on_tunnel(x1 as int, y1 as int, x2 as int, y2 as int, true, p))
            || carved(*old(map), *final(map), |p: (int, int)| on_tunnel(x1 as int, y1 as int, x2 as int, y2 as int, false, p)),
        connected(*final(map), (x1 as int, y1 as int), (x2 as int, y2 as int)),
{
    let horizontal_first = random_bool();
    connect_rooms_with(x1, y1, x2, y2, horizontal_first, map);
}

} // verus!

verus! {

/// A grid of flags with the map's shape.
pub open spec fn wf_flags(v: Vec<Vec<bool>>) -> bool {
    &&& v@.len() == MAP_WIDTH
    &&& forall|x: int| 0 <= x < v@.len() ==> (#[trigger] v@[x])@.len() == MAP_HEIGHT
}

/// The flag at a point of the grid.
pub open spec fn flag_at(v: Vec<Vec<bool>>, p: (int, int)) -> bool {
    v@[p.0]@[p.1]
}

/// Number of unset flags in a column.
pub open spec fn unset_in_column(c: Seq<bool>) -> nat
    decreases c.len(),
{
    if c.len() == 0 {
        0
    } else {
        unset_in_column(c.drop_last()) + if c.last() {
            0nat
        } else {
            1nat
        }
    }
}

/// Number of unset flags in a grid of flags.
pub open spec fn unset_in_grid(g: Seq<Vec<bool>>) -> nat
    decreases g.len(),
{
    if g.len() == 0 {
        0
    } else {
        unset_in_grid(g.drop_last()) + unset_in_column(g.last()@)
    }
}

proof fn lemma_unset_column_update(c: Seq<bool>, i: int)
    requires
        0 <= i < c.len(),
        !c[i],
    ensures
        unset_in_column(c.update(i, true)) + 1 == unset_in_column(c),
    decreases c.len(),
{
    let d = c.update(i, true);
    if i == c.len() - 1 {
        assert(d.drop_last() =~= c.drop_last());
    } else {
        assert(d.drop_last() =~= c.drop_last().update(i, true));
        lemma_unset_column_update(c.drop_last(), i);
    }
}

proof fn lemma_unset_grid_update(g: Seq<Vec<bool>>, x: int, col: Vec<bool>)
    requires
        0 <= x < g.len(),
        unset_in_column(col@) + 1 == unset_in_column(g[x]@),
    ensures
        unset_in_grid(g.update(x, col)) + 1 == unset_in_grid(g),
    decreases g.len(),
{
    let h = g.update(x, col);
    if x == g.len() - 1 {
        assert(h.drop_last() =~= g.drop_last());
    } else {
        assert(h.drop_last() =~= g.drop_last().update(x, col));
        lemma_unset_grid_update(g.drop_last(), x, col);
    }
}

/// Sets the flag at `(x, y)`, which was unset.
fn set_flag(v: &mut Vec<Vec<bool>>, x: i32, y: i32)
    requires
        wf_flags(*old(v)),
        in_map((x as int, y as int)),
        !flag_at(*old(v), (x as int, y as int)),
    ensures
        wf_flags(*final(v)),
        forall|p: (int, int)| in_map(p) ==> #[trigger] flag_at(*final(v), p) == (p == (x as int, y as int) || flag_at(*old(v), p)),
        unset_in_grid(final(v)@) + 1 == unset_in_grid(old(v)@),
{
    let xu = x as usize;
    let yu = y as usize;
    assert(v@[xu as int]@.len() == MAP_HEIGHT);
    v[xu][yu] = true;
    assert forall|p: (int, int)| in_map(p) implies #[trigger] flag_at(*v, p) == (p == (x as int, y as int) || flag_at(*old(v), p)) by {
        if p.0 != xu {
            assert(v@[p.0] == old(v)@[p.0]);
        }
    }
    assert forall|i: int| 0 <= i < v@.len() implies (#[trigger] v@[i])@.len() == MAP_HEIGHT by {
        assert(old(v)@[i]@.len() == MAP_HEIGHT);
    }
    proof {
        lemma_unset_column_update(old(v)@[xu as int]@, yu as int);
        assert(v@[xu as int]@ == old(v)@[xu as int]@.update(yu as int, true));
        assert(v@ == old(v)@.update(xu as int, v@[xu as int]));
        lemma_unset_grid_update(old(v)@, xu as int, v@[xu as int]);
    }
}

/// Whether `n`, as a point, is among the entries of `s`.
pub open spec fn in_stack(s: Seq<(i32, i32)>, n: (int, int)) -> bool {
    exists|i: int| 0 <= i < s.len() && s[i].0 as int == n.0 && s[i].1 as int == n.1
}

/// Next to a point that a walk from `start` reaches.
pub open spec fn next_to_reached(map: Grid, start: (int, int), e: (int, int)) -> bool {
    exists|v: (int, int)| connected(map, start, v) && adjacent(v, e)
}

/// Flags closed under walkable neighbours: a set flag has every walkable
/// neighbour flagged.
pub open spec fn closed_under_steps(map: Grid, v: Vec<Vec<bool>>) -> bool {
    forall|a: (int, int), b: (int, int)|
        in_map(a) && #[trigger] flag_at(v, a) && adjacent(a, b) && #[trigger] walkable(map, b) ==> flag_at(v, b)
}

/// A set of flags closed under walkable neighbours holds the end of every
/// walk that starts on a flag.
proof fn lemma_closed_holds_walk(map: Grid, v: Vec<Vec<bool>>, w: Seq<(int, int)>)
    requires
        is_walk(map, w),
        flag_at(v, w[0]),
        closed_under_steps(map, v),
    ensures
        flag_at(v, w.last()),
    decreases w.len(),
{
    if w.len() > 1 {
        let u = w.drop_last();
        assert forall|i: int| 0 <= i < u.len() implies walkable(map, #[trigger] u[i]) by {
            assert(walkable(map, w[i]));
        }
        assert forall|i: int| 0 <= i < u.len() - 1 implies adjacent(#[trigger] u[i], u[i + 1]) by {
            assert(adjacent(w[i], w[i + 1]));
        }
        lemma_closed_holds_walk(map, v, u);
        let k = w.len() - 2;
        assert(adjacent(w[k], w[k + 1]));
        assert(walkable(map, w[k]));
        assert(walkable(map, w[k + 1]));
    }
}

} // verus!

verus! {

/// What the flood fill keeps true: every flag is reached from `start`; every
/// entry of the stack is `start` or next to a reached point; and a walkable
/// neighbour of a flag, or `start` itself, is flagged or waits on the stack.
#[verifier::opaque]
pub open spec fn fill_invariant(map: Grid, start: (int, int), v: Vec<Vec<bool>>, s: Seq<(i32, i32)>) -> bool {
    &&& wf_map(map)
    &&& wf_flags(v)
    &&& forall|p: (int, int)| in_map(p) && #[trigger] flag_at(v, p) ==> connected(map, start, p)
    &&& forall|i: int|
        0 <= i < s.len() ==> ((#[trigger] s[i]).0 as int, s[i].1 as int) == start || next_to_reached(
            map,
            start,
            (s[i].0 as int, s[i].1 as int),
        )
    &&& walkable(map, start) ==> flag_at(v, start) || in_stack(s, start)
    &&& forall|a: (int, int), b: (int, int)|
        in_map(a) && #[trigger] flag_at(v, a) && adjacent(a, b) && #[trigger] walkable(map, b) ==> flag_at(v, b)
            || in_stack(s, b)
}

proof fn lemma_pop_keeps_others(s: Seq<(i32, i32)>, n: (int, int))
    requires
        s.len() > 0,
        in_stack(s, n),
        n != (s.last().0 as int, s.last().1 as int),
    ensures
        in_stack(s.drop_last(), n),
{
    let i = choose|i: int| 0 <= i < s.len() && s[i].0 as int == n.0 && s[i].1 as int == n.1;
    assert(s.drop_last()[i] == s[i]);
}

/// Dropping a stack entry that is off the map, flagged or a wall keeps the
/// invariant.
proof fn lemma_fill_skip(map: Grid, start: (int, int), v: Vec<Vec<bool>>, s: Seq<(i32, i32)>)
    requires
        fill_invariant(map, start, v, s),
        s.len() > 0,
        !walkable(map, (s.last().0 as int, s.last().1 as int)) || flag_at(v, (s.last().0 as int, s.last().1 as int)),
    ensures
        fill_invariant(map, start, v, s.drop_last()),
{
    reveal(fill_invariant);
    let t = s.drop_last();
    let e = (s.last().0 as int, s.last().1 as int);
    assert forall|i: int| 0 <= i < t.len() implies ((#[trigger] t[i]).0 as int, t[i].1 as int) == start
        || next_to_reached(map, start, (t[i].0 as int, t[i].1 as int)) by {
        assert(t[i] == s[i]);
    }
    if walkable(map, start) && !flag_at(v, start) {
        lemma_pop_keeps_others(s, start);
    }
    assert forall|a: (int, int), b: (int, int)|
        in_map(a) && #[trigger] flag_at(v, a) && adjacent(a, b) && #[trigger] walkable(map, b) implies flag_at(v, b)
        || in_stack(t, b) by {
        if !flag_at(v, b) {
            lemma_pop_keeps_others(s, b);
        }
    }
}

/// Flagging the popped entry, a walkable unflagged point, and pushing its four
/// neighbours keeps the invariant.
proof fn lemma_fill_mark(
    map: Grid,
    start: (int, int),
    v: Vec<Vec<bool>>,
    w: Vec<Vec<bool>>,
    s: Seq<(i32, i32)>,
    t: Seq<(i32, i32)>,
)
    requires
        fill_invariant(map, start, v, s),
        s.len() > 0,
        walkable(map, (s.last().0 as int, s.last().1 as int)),
        !flag_at(v, (s.last().0 as int, s.last().1 as int)),
        wf_flags(w),
        forall|p: (int, int)|
            in_map(p) ==> #[trigger] flag_at(w, p) == (p == (s.last().0 as int, s.last().1 as int) || flag_at(v, p)),
        t.len() == s.len() + 3,
        forall|i: int| 0 <= i < s.len() - 1 ==> #[trigger] t[i] == s[i],
        t[s.len() as int - 1].0 == s.last().0 + 1 && t[s.len() as int - 1].1 == s.last().1,
        t[s.len() as int + 0].0 == s.last().0 - 1 && t[s.len() as int + 0].1 == s.last().1,
        t[s.len() as int + 1].0 == s.last().0 && t[s.len() as int + 1].1 == s.last().1 + 1,
        t[s.len() as int + 2].0 == s.last().0 && t[s.len() as int + 2].1 == s.last().1 - 1,
    ensures
        fill_invariant(map, start, w, t),
{
    reveal(fill_invariant);
    let e = (s.last().0 as int, s.last().1 as int);
    let n = s.len() as int - 1;
    if e != start {
        assert(s[n] == s.last());
        let u = choose|u: (int, int)| connected(map, start, u) && adjacent(u, e);
        lemma_connected_step(map, start, u, e);
    } else {
        lemma_connected_refl(map, e);
    }
    assert forall|q: (int, int)| in_stack(s, q) && q != e implies in_stack(t, q) by {
        let i = choose|i: int| 0 <= i < s.len() && s[i].0 as int == q.0 && s[i].1 as int == q.1;
        assert(t[i] == s[i]);
    }
    assert forall|i: int| 0 <= i < t.len() implies ((#[trigger] t[i]).0 as int, t[i].1 as int) == start
        || next_to_reached(map, start, (t[i].0 as int, t[i].1 as int)) by {
        if i < n {
            assert(t[i] == s[i]);
        } else {
            assert(adjacent(e, (t[i].0 as int, t[i].1 as int)));
        }
    }
    assert forall|a: (int, int), b: (int, int)|
        in_map(a) && #[trigger] flag_at(w, a) && adjacent(a, b) && #[trigger] walkable(map, b) implies flag_at(w, b)
        || in_stack(t, b) by {
        if a == e {
            if b == a {
            } else if b == (e.0 + 1, e.1) {
                assert(t[n].0 as int == b.0 && t[n].1 as int == b.1);
            } else if b == (e.0 - 1, e.1) {
                assert(t[n + 1].0 as int == b.0 && t[n + 1].1 as int == b.1);
            } else if b == (e.0, e.1 + 1) {
                assert(t[n + 2].0 as int == b.0 && t[n + 2].1 as int == b.1);
            } else {
                assert(t[n + 3].0 as int == b.0 && t[n + 3].1 as int == b.1);
            }
        } else {
            assert(flag_at(v, a));
        }
    }
}

/// Flags every point that a walk from `(x, y)` reaches. The flags must all be
/// unset on entry.
pub fn flood_fill(x: i32, y: i32, map: &Grid, visited: &mut Vec<Vec<bool>>)
    requires
        wf_map(*map),
        wf_flags(*old(visited)),
        forall|p: (int, int)| in_map(p) ==> !#[trigger] flag_at(*old(visited), p),
    ensures
        wf_flags(*final(visited)),
        forall|p: (int, int)|
            in_map(p) ==> (#[trigger] flag_at(*final(visited), p) <==> connected(*map, (x as int, y as int), p)),
{
    let ghost start = (x as int, y as int);
    let mut stack: Vec<(i32, i32)> = Vec::new();
    stack.push((x, y));
    proof {
        reveal(fill_invariant);
        assert(stack@[0] == (x, y));
        assert forall|p: (int, int)| in_map(p) && #[trigger] flag_at(*visited, p) implies connected(*map, start, p) by {
        }
    }
    while stack.len() > 0
        invariant
            wf_map(*map),
            wf_flags(*visited),
            fill_invariant(*map, start, *visited, stack@),
        decreases 5 * unset_in_grid(visited@) + stack@.len(),
    {
        let ghost s = stack@;
        let (cx, cy) = stack.pop().unwrap();
        assert(s.last() == (cx, cy));
        if cx < 0 || cy < 0 || cx >= MAP_WIDTH || cy >= MAP_HEIGHT {
            proof {
                lemma_fill_skip(*map, start, *visited, s);
            }
        } else if visited[cx as usize][cy as usize] || !map[cx as usize][cy as usize].is_walkable() {
            proof {
                lemma_fill_skip(*map, start, *visited, s);
            }
        } else {
            let ghost v = *visited;
            set_flag(visited, cx, cy);
            stack.push((cx + 1, cy));
            stack.push((cx - 1, cy));
            stack.push((cx, cy + 1));
            stack.push((cx, cy - 1));
            proof {
                lemma_fill_mark(*map, start, v, *visited, s, stack@);
            }
        }
    }
    proof {
        reveal(fill_invariant);
        assert forall|p: (int, int)| in_map(p) && connected(*map, start, p) implies #[trigger] flag_at(*visited, p) by {
            let w = choose|w: Seq<(int, int)>| is_walk(*map, w) && w[0] == start && w.last() == p;
            assert(walkable(*map, w[0]));
            lemma_closed_holds_walk(*map, *visited, w);
        }
    }
}

/// A grid of flags, all unset.
pub fn new_flags() -> (v: Vec<Vec<bool>>)
    ensures
        wf_flags(v),
        forall|p: (int, int)| in_map(p) ==> !#[trigger] flag_at(v, p),
{
    let mut v: Vec<Vec<bool>> = Vec::new();
    let mut x: i32 = 0;
    while x < MAP_WIDTH
        invariant
            0 <= x <= MAP_WIDTH,
            v@.len() == x,
            forall|i: int| 0 <= i < x ==> (#[trigger] v@[i])@.len() == MAP_HEIGHT,
            forall|i: int, j: int| 0 <= i < x && 0 <= j < MAP_HEIGHT ==> !(#[trigger] v@[i]@[j]),
        decreases MAP_WIDTH - x,
    {
        let mut col: Vec<bool> = Vec::new();
        let mut y: i32 = 0;
        while y < MAP_HEIGHT
            invariant
                0 <= y <= MAP_HEIGHT,
                col@.len() == y,
                forall|j: int| 0 <= j < y ==> !(#[trigger] col@[j]),
            decreases MAP_HEIGHT - y,
        {
            col.push(false);
            y = y + 1;
        }
        v.push(col);
        x = x + 1;
    }
    v
}

/// Every grid neighbour of `p` is flagged.
pub open spec fn neighbours_flagged(seen: Vec<Vec<bool>>, p: (int, int)) -> bool {
    forall|q: (int, int)| in_map(q) && adjacent(p, q) ==> #[trigger] flag_at(seen, q)
}

/// What the search keeps true, with the point `e` being expanded exempt: the
/// stack holds flagged grid points; the start is flagged; a flagged point
/// waits on the stack or has all its neighbours flagged; a flagged point off
/// the stack is not a target.
#[verifier::opaque]
pub open spec fn search_invariant(
    targets: Vec<Vec<bool>>,
    seen: Vec<Vec<bool>>,
    s: Seq<(i32, i32)>,
    start: (int, int),
    e: Option<(int, int)>,
) -> bool {
    &&& wf_flags(seen)
    &&& forall|i: int| 0 <= i < s.len() ==> in_map(((#[trigger] s[i]).0 as int, s[i].1 as int)) && flag_at(seen, (s[i].0 as int, s[i].1 as int))
    &&& in_map(start)
    &&& flag_at(seen, start)
    &&& forall|p: (int, int)|
        in_map(p) && #[trigger] flag_at(seen, p) && Some(p) != e ==> in_stack(s, p) || neighbours_flagged(seen, p)
    &&& forall|p: (int, int)|
        in_map(p) && #[trigger] flag_at(seen, p) && Some(p) != e && !in_stack(s, p) ==> !flag_at(targets, p)
    &&& e matches Some(q) ==> in_map(q) && flag_at(seen, q) && !flag_at(targets, q)
}

proof fn lemma_search_pop(targets: Vec<Vec<bool>>, seen: Vec<Vec<bool>>, s: Seq<(i32, i32)>, start: (int, int))
    requires
        search_invariant(targets, seen, s, start, None),
        s.len() > 0,
        !flag_at(targets, (s.last().0 as int, s.last().1 as int)),
    ensures
        search_invariant(targets, seen, s.drop_last(), start, Some((s.last().0 as int, s.last().1 as int))),
        in_map((s.last().0 as int, s.last().1 as int)),
{
    reveal(search_invariant);
    let t = s.drop_last();
    let e = (s.last().0 as int, s.last().1 as int);
    assert(s[s.len() - 1] == s.last());
    assert forall|i: int| 0 <= i < t.len() implies in_map(((#[trigger] t[i]).0 as int, t[i].1 as int)) && flag_at(seen, (t[i].0 as int, t[i].1 as int)) by {
        assert(t[i] == s[i]);
    }
    assert forall|p: (int, int)| in_map(p) && #[trigger] flag_at(seen, p) && Some(p) != Some(e) implies in_stack(t, p) || neighbours_flagged(seen, p) by {
        if in_stack(s, p) {
            lemma_pop_keeps_others(s, p);
        }
    }
    assert forall|p: (int, int)| in_map(p) && #[trigger] flag_at(seen, p) && Some(p) != Some(e) && !in_stack(t, p) implies !flag_at(targets, p) by {
        if in_stack(s, p) {
            lemma_pop_keeps_others(s, p);
        }
    }
}

proof fn lemma_search_close(targets: Vec<Vec<bool>>, seen: Vec<Vec<bool>>, s: Seq<(i32, i32)>, start: (int, int), e: (int, int))
    requires
        search_invariant(targets, seen, s, start, Some(e)),
        neighbours_flagged(seen, e),
    ensures
        search_invariant(targets, seen, s, start, None),
{
    reveal(search_invariant);
}

/// Flags the grid point `(nx, ny)` and pushes it, unless it was flagged.
fn visit(seen: &mut Vec<Vec<bool>>, stack: &mut Vec<(i32, i32)>, nx: i32, ny: i32, Ghost(targets): Ghost<Vec<Vec<bool>>>, Ghost(start): Ghost<(int, int)>, Ghost(e): Ghost<(int, int)>)
    requires
        in_map((nx as int, ny as int)),
        adjacent(e, (nx as int, ny as int)),
        search_invariant(targets, *old(seen), old(stack)@, start, Some(e)),
    ensures
        search_invariant(targets, *final(seen), final(stack)@, start, Some(e)),
        flag_at(*final(seen), (nx as int, ny as int)),
        forall|p: (int, int)| in_map(p) && #[trigger] flag_at(*old(seen), p) ==> flag_at(*final(seen), p),
        unset_in_grid(final(seen)@) + final(stack)@.len() == unset_in_grid(old(seen)@) + old(stack)@.len(),
{
    reveal(search_invariant);
    assert(seen@[nx as int]@.len() == MAP_HEIGHT);
    if !seen[nx as usize][ny as usize] {
        let ghost s0 = stack@;
        let ghost v0 = *seen;
        set_flag(seen, nx, ny);
        stack.push((nx, ny));
        let ghost n = (nx as int, ny as int);
        assert(stack@[s0.len() as int] == (nx, ny));
        assert(in_stack(stack@, n));
        assert forall|q: (int, int)| in_stack(s0, q) implies in_stack(stack@, q) by {
            let i = choose|i: int| 0 <= i < s0.len() && s0[i].0 as int == q.0 && s0[i].1 as int == q.1;
            assert(stack@[i] == s0[i]);
        }
        assert forall|i: int| 0 <= i < stack@.len() implies in_map(((#[trigger] stack@[i]).0 as int, stack@[i].1 as int)) && flag_at(*seen, (stack@[i].0 as int, stack@[i].1 as int)) by {
            if i < s0.len() {
                assert(stack@[i] == s0[i]);
            }
        }
        assert forall|p: (int, int)| in_map(p) && #[trigger] flag_at(*seen, p) && Some(p) != Some(e) implies in_stack(stack@, p) || neighbours_flagged(*seen, p) by {
            if p != n {
                assert(flag_at(v0, p));
                if !in_stack(s0, p) {
                    assert(neighbours_flagged(v0, p));
                    assert forall|q: (int, int)| in_map(q) && adjacent(p, q) implies #[trigger] flag_at(*seen, q) by {
                        assert(flag_at(v0, q));
                    }
                }
            }
        }
        assert forall|p: (int, int)| in_map(p) && #[trigger] flag_at(*seen, p) && Some(p) != Some(e) && !in_stack(stack@, p) implies !flag_at(targets, p) by {
            if p != n {
                assert(flag_at(v0, p));
            }
        }
        assert(flag_at(v0, start) && flag_at(v0, e));
        assert(flag_at(*seen, start) && flag_at(*seen, e));
        assert(search_invariant(targets, *seen, stack@, start, Some(e)));
    }
}

/// A set of grid points closed under neighbours that holds one point holds
/// every point of the grid.
proof fn lemma_closed_grid(seen: Vec<Vec<bool>>, a: (int, int), b: (int, int))
    requires
        in_map(a),
        in_map(b),
        flag_at(seen, a),
        forall|p: (int, int)| in_map(p) && #[trigger] flag_at(seen, p) ==> neighbours_flagged(seen, p),
    ensures
        flag_at(seen, b),
    decreases
        (if a.0 >= b.0 { a.0 - b.0 } else { b.0 - a.0 }) + (if a.1 >= b.1 { a.1 - b.1 } else { b.1 - a.1 }),
{
    if a != b {
        let c = if a.0 < b.0 {
            (a.0 + 1, a.1)
        } else if a.0 > b.0 {
            (a.0 - 1, a.1)
        } else if a.1 < b.1 {
            (a.0, a.1 + 1)
        } else {
            (a.0, a.1 - 1)
        };
        assert(neighbours_flagged(seen, a));
        assert(flag_at(seen, c));
        lemma_closed_grid(seen, c, b);
    }
}

/// Searches outwards from `(x, y)`, depth first and trying the row before the
/// column, for a flagged point; `(x, y)` itself when the grid holds none.
pub fn find_closest_connected_tile(x: i32, y: i32, visited: &Vec<Vec<bool>>) -> (r: (i32, i32))
    requires
        wf_flags(*visited),
        in_map((x as int, y as int)),
    ensures
        in_map((r.0 as int, r.1 as int)),
        flag_at(*visited, (r.0 as int, r.1 as int)) || (r == (x, y) && forall|p: (int, int)| in_map(p) ==> !#[trigger] flag_at(*visited, p)),
{
    let ghost start = (x as int, y as int);
    let mut seen = new_flags();
    set_flag(&mut seen, x, y);
    let mut stack: Vec<(i32, i32)> = Vec::new();
    stack.push((x, y));
    proof {
        reveal(search_invariant);
        assert(stack@[0] == (x, y));
        assert(in_stack(stack@, start));
    }
    while stack.len() > 0
        invariant
            wf_flags(*visited),
            search_invariant(*visited, seen, stack@, start, None),
        decreases unset_in_grid(seen@) + stack@.len(),
    {
        let ghost s = stack@;
        proof {
            reveal(search_invariant);
            assert(s[s.len() - 1] == s.last());
        }
        let (cx, cy) = stack.pop().unwrap();
        assert(s.last() == (cx, cy));
        assert(visited@[cx as int]@.len() == MAP_HEIGHT);
        if visited[cx as usize][cy as usize] {
            return (cx, cy);
        }
        proof {
            lemma_search_pop(*visited, seen, s, start);
        }
        let ghost e = (cx as int, cy as int);
        if cx > 0 {
            visit(&mut seen, &mut stack, cx - 1, cy, Ghost(*visited), Ghost(start), Ghost(e));
        }
        if cy > 0 {
            visit(&mut seen, &mut stack, cx, cy - 1, Ghost(*visited), Ghost(start), Ghost(e));
        }
        if cx < MAP_WIDTH - 1 {
            visit(&mut seen, &mut stack, cx + 1, cy, Ghost(*visited), Ghost(start), Ghost(e));
        }
        if cy < MAP_HEIGHT - 1 {
            visit(&mut seen, &mut stack, cx, cy + 1, Ghost(*visited), Ghost(start), Ghost(e));
        }
        proof {
            assert forall|q: (int, int)| in_map(q) && adjacent(e, q) implies #[trigger] flag_at(seen, q) by {
                reveal(search_invariant);
            }
            lemma_search_close(*visited, seen, stack@, start, e);
        }
    }
    proof {
        reveal(search_invariant);
        assert forall|p: (int, int)| in_map(p) implies !#[trigger] flag_at(*visited, p) by {
            assert forall|q: (int, int)| in_map(q) && #[trigger] flag_at(seen, q) implies neighbours_flagged(seen, q) by {
                assert(!in_stack(stack@, q));
            }
            lemma_closed_grid(seen, start, p);
            assert(!in_stack(stack@, p));
        }
    }
    (x, y)
}

/// The centre of a room, as a point.
pub open spec fn center_of(r: Rect) -> (int, int) {
    r.spec_center()
}

/// Every room centre lies on the grid.
pub open spec fn centers_on_grid(rooms: Seq<Rect>) -> bool {
    forall|i: int| 0 <= i < rooms.len() ==> in_map(center_of(#[trigger] rooms[i]))
}

/// Flood fills from the first room's centre and joins every room whose centre
/// was not reached, by a tunnel from the reached tile that a search from that
/// centre finds first.
pub fn ensure_map_connectivity(map: &mut Grid, rooms: &Vec<Rect>)
    requires
        wf_map(*old(map)),
        rooms@.len() > 0,
        centers_on_grid(rooms@),
        walkable(*old(map), center_of(rooms@[0])),
    ensures
        wf_map(*final(map)),
        opens_up(*old(map), *final(map)),
        forall|i: int| 0 <= i < rooms@.len() ==> connected(*final(map), center_of(rooms@[0]), center_of(#[trigger] rooms@[i])),
        (forall|i: int| 0 <= i < rooms@.len() ==> connected(*old(map), center_of(rooms@[0]), center_of(#[trigger] rooms@[i])))
            ==> *final(map) == *old(map),
{
    let mut visited = new_flags();
    let (start_x, start_y) = rooms[0].center();
    flood_fill(start_x, start_y, map, &mut visited);
    let ghost start = center_of(rooms@[0]);
    proof {
        lemma_connected_refl(*map, start);
    }
    let mut k: usize = 0;
    while k < rooms.len()
        invariant
            0 <= k <= rooms@.len(),
            centers_on_grid(rooms@),
            wf_flags(visited),
            wf_map(*map),
            opens_up(*old(map), *map),
            forall|p: (int, int)| in_map(p) ==> (#[trigger] flag_at(visited, p) <==> connected(*old(map), start, p)),
            start == center_of(rooms@[0]),
            in_map(start),
            connected(*old(map), start, start),
            forall|j: int| 0 <= j < k ==> connected(*map, start, center_of(#[trigger] rooms@[j])),
            (forall|i: int| 0 <= i < rooms@.len() ==> connected(*old(map), start, center_of(#[trigger] rooms@[i])))
                ==> *map == *old(map),
        decreases rooms@.len() - k,
    {
        let (room_x, room_y) = rooms[k].center();
        assert(in_map(center_of(rooms@[k as int])));
        assert(visited@[room_x as int]@.len() == MAP_HEIGHT);
        let ghost c = center_of(rooms@[k as int]);
        if !visited[room_x as usize][room_y as usize] {
            let (closest_x, closest_y) = find_closest_connected_tile(room_x, room_y, &visited);
            let ghost r = (closest_x as int, closest_y as int);
            assert(!flag_at(visited, c));
            assert(!connected(*old(map), start, c));
            assert(flag_at(visited, start));
            assert(flag_at(visited, r));
            let ghost before = *map;
            connect_rooms(closest_x, closest_y, room_x, room_y, map);
            proof {
                if carved(before, *map, |p: (int, int)| on_tunnel(closest_x as int, closest_y as int, room_x as int, room_y as int, true, p)) {
                    lemma_carved_opens_up(before, *map, |p: (int, int)| on_tunnel(closest_x as int, closest_y as int, room_x as int, room_y as int, true, p));
                } else {
                    lemma_carved_opens_up(before, *map, |p: (int, int)| on_tunnel(closest_x as int, closest_y as int, room_x as int, room_y as int, false, p));
                }
                assert forall|p: (int, int)| walkable(*old(map), p) implies #[trigger] walkable(*map, p) by {
                    assert(walkable(before, p));
                }
                lemma_connected_opens_up(*old(map), *map, start, r);
                lemma_connected_trans(*map, start, r, c);
                assert forall|j: int| 0 <= j < k implies connected(*map, start, center_of(#[trigger] rooms@[j])) by {
                    lemma_connected_opens_up(before, *map, start, center_of(rooms@[j]));
                }
            }
        } else {
            proof {
                assert(flag_at(visited, c));
                lemma_connected_opens_up(*old(map), *map, start, c);
            }
        }
        k = k + 1;
    }
}

/// A room of the generator's size that lies on the grid, its ring included.
pub open spec fn room_fits(r: Rect) -> bool {
    &&& 0 <= r.x1
    &&& r.x1 + ROOM_MIN_SIZE <= r.x2 <= r.x1 + ROOM_MAX_SIZE
    &&& r.x2 < MAP_WIDTH
    &&& 0 <= r.y1
    &&& r.y1 + ROOM_MIN_SIZE <= r.y2 <= r.y1 + ROOM_MAX_SIZE
    &&& r.y2 < MAP_HEIGHT
}

/// No two rooms satisfy the inclusive overlap test.
pub open spec fn rooms_apart(rooms: Seq<Rect>) -> bool {
    forall|i: int, j: int|
        #![trigger rooms[i], rooms[j]]
        0 <= i < rooms.len() && 0 <= j < rooms.len() && i != j ==> !rooms[i].spec_intersects(&rooms[j])
}

/// Every room centre is reached by a walk from the first room's centre.
pub open spec fn rooms_joined(map: Grid, rooms: Seq<Rect>) -> bool {
    forall|i: int| 0 <= i < rooms.len() ==> connected(map, center_of(rooms[0]), center_of(#[trigger] rooms[i]))
}

/// The entity stands inside one of the rooms, placed there by the generator.
pub open spec fn in_some_room(rooms: Seq<Rect>, o: Object) -> bool {
    exists|j: int| 0 <= j < rooms.len() && placed_in(#[trigger] rooms[j], o)
}

/// The player moved to `(x, y)`, nothing else changed.
pub open spec fn moved_to(player: Object, x: int, y: int) -> Object {
    Object { x: x as i32, y: y as i32, ..player }
}

/// What the room placement loop keeps true.
pub open spec fn rooms_placed(map: Grid, rooms: Seq<Rect>, objects: Seq<Object>, player: Object) -> bool {
    &&& wf_map(map)
    &&& forall|i: int| 0 <= i < rooms.len() ==> room_fits(#[trigger] rooms[i])
    &&& rooms_apart(rooms)
    &&& objects.len() >= 1
    &&& rooms.len() == 0 ==> objects == seq![player]
    &&& rooms.len() > 0 ==> objects[0] == moved_to(player, center_of(rooms[0]).0, center_of(rooms[0]).1)
    &&& forall|i: int| 1 <= i < objects.len() ==> in_some_room(rooms, #[trigger] objects[i])
    &&& rooms_joined(map, rooms)
}

/// The layout of a generated level: at least one room, rooms of the right
/// size apart from each other, the player on the first room's centre, and
/// every room centre reached by a walk from there.
pub open spec fn level_layout(map: Grid, rooms: Seq<Rect>, start: (int, int)) -> bool {
    &&& wf_map(map)
    &&& 0 < rooms.len() <= MAX_ROOMS
    &&& forall|i: int| 0 <= i < rooms.len() ==> room_fits(#[trigger] rooms[i])
    &&& rooms_apart(rooms)
    &&& start == center_of(rooms[0])
    &&& forall|i: int| 0 <= i < rooms.len() ==> connected(map, start, center_of(#[trigger] rooms[i]))
}

proof fn lemma_center_inside(r: Rect)
    requires
        room_fits(r),
    ensures
        in_interior(r, center_of(r)),
        in_map(center_of(r)),
        room_on_grid(r),
{
}

/// Whether `room` overlaps one of `rooms`.
fn overlaps_any(room: &Rect, rooms: &Vec<Rect>) -> (r: bool)
    ensures
        r == exists|j: int| 0 <= j < rooms@.len() && room.spec_intersects(&#[trigger] rooms@[j]),
{
    let mut k: usize = 0;
    while k < rooms.len()
        invariant
            k <= rooms@.len(),
            forall|j: int| 0 <= j < k ==> !room.spec_intersects(&#[trigger] rooms@[j]),
        decreases rooms@.len() - k,
    {
        if room.intersects_with(&rooms[k]) {
            return true;
        }
        k = k + 1;
    }
    false
}

/// Carves an accepted room, fills it, and joins it to the room before it (or
/// puts the player on it when it is the first).
fn accept_room(
    room: Rect,
    map: &mut Grid,
    rooms: &mut Vec<Rect>,
    objects: &mut Vec<Object>,
    level: u32,
    player: Ghost<Object>,
    horizontal_first: bool,
    Ghost(flags): Ghost<Seq<bool>>,
)
    requires
        rooms_placed(*old(map), old(rooms)@, old(objects)@, player@),
        room_fits(room),
        forall|j: int| 0 <= j < old(rooms)@.len() ==> !room.spec_intersects(&#[trigger] old(rooms)@[j]),
        old(rooms)@.len() < flags.len(),
        flags[old(rooms)@.len() as int] == horizontal_first,
        carved_layout(*old(map), old(rooms)@, flags),
    ensures
        rooms_placed(*final(map), final(rooms)@, final(objects)@, player@),
        final(rooms)@ == old(rooms)@.push(room),
        carved_layout(*final(map), final(rooms)@, flags),
{
    proof {
        lemma_center_inside(room);
    }
    let ghost m0 = *map;
    create_room(room, map);
    let ghost m1 = *map;
    proof {
        lemma_carved_opens_up(m0, m1, |p: (int, int)| in_interior(room, p));
    }
    let ghost o0 = objects@;
    place_objects(room, map, objects, level);
    let (new_x, new_y) = room.center();
    let ghost c = center_of(room);
    assert(tile_at(m1, c) == floor_tile());
    if rooms.len() == 0 {
        assert(objects@[0] == o0[0]);
        objects[PLAYER].set_pos(new_x, new_y);
        proof {
            lemma_connected_refl(*map, c);
        }
    } else {
        let ghost r0 = rooms@[rooms@.len() - 1];
        proof {
            lemma_center_inside(r0);
        }
        let (prev_x, prev_y) = rooms[rooms.len() - 1].center();
        connect_rooms_with(prev_x, prev_y, new_x, new_y, horizontal_first, map);
        proof {
            lemma_carved_opens_up(m1, *map, |p: (int, int)| on_tunnel(prev_x as int, prev_y as int, new_x as int, new_y as int, horizontal_first, p));
        }
    }
    let ghost old_rooms = rooms@;
    rooms.push(room);
    proof {
        let rs = rooms@;
        let m = *map;
        assert forall|p: (int, int)| in_map(p) implies #[trigger] tile_at(m, p) == if layout_floor(rs, flags, p) {
            floor_tile()
        } else {
            Tile::spec_wall()
        } by {
            lemma_layout_push(old_rooms, room, flags, p);
            assert(tile_at(m0, p) == if layout_floor(old_rooms, flags, p) { floor_tile() } else { Tile::spec_wall() });
            assert(tile_at(m1, p) == if in_interior(room, p) { floor_tile() } else { tile_at(m0, p) });
            if old_rooms.len() >= 1 {
                assert(rs[old_rooms.len() - 1] == old_rooms.last());
                assert(tile_at(m, p) == if on_joining_tunnel(rs, flags, old_rooms.len() as int, p) {
                    floor_tile()
                } else {
                    tile_at(m1, p)
                });
            }
        }
        assert(opens_up(m0, m)) by {
            assert forall|p: (int, int)| walkable(m0, p) implies #[trigger] walkable(m, p) by {
                assert(walkable(m1, p));
            }
        }
        assert(rs[0] == if old_rooms.len() == 0 { room } else { old_rooms[0] });
        assert forall|i: int| 0 <= i < rs.len() implies connected(m, center_of(rs[0]), center_of(#[trigger] rs[i])) by {
            if i < old_rooms.len() {
                assert(rs[i] == old_rooms[i]);
                assert(connected(m0, center_of(old_rooms[0]), center_of(old_rooms[i])));
                lemma_connected_opens_up(m0, m, center_of(old_rooms[0]), center_of(old_rooms[i]));
            } else if old_rooms.len() > 0 {
                let last = old_rooms.len() - 1;
                assert(connected(m0, center_of(old_rooms[0]), center_of(old_rooms[last])));
                lemma_connected_opens_up(m0, m, center_of(old_rooms[0]), center_of(old_rooms[last]));
                lemma_connected_trans(m, center_of(old_rooms[0]), center_of(old_rooms[last]), c);
            }
        }
        assert forall|i: int| 1 <= i < objects@.len() implies in_some_room(rs, #[trigger] objects@[i]) by {
            if i < o0.len() {
                assert(objects@[i] == o0[i]);
                let j = choose|j: int| 0 <= j < old_rooms.len() && placed_in(#[trigger] old_rooms[j], o0[i]);
                assert(rs[j] == old_rooms[j]);
            } else {
                assert(placed_in(room, objects@[i]));
                assert(rs[old_rooms.len() as int] == room);
            }
        }
        assert forall|i: int, j: int|
            #![trigger rs[i], rs[j]]
            0 <= i < rs.len() && 0 <= j < rs.len() && i != j implies !rs[i].spec_intersects(&rs[j]) by {
            if i < old_rooms.len() && j < old_rooms.len() {
                assert(rs[i] == old_rooms[i] && rs[j] == old_rooms[j]);
            } else if i < old_rooms.len() {
                assert(rs[i] == old_rooms[i]);
                assert(!room.spec_intersects(&old_rooms[i]));
            } else {
                assert(rs[j] == old_rooms[j]);
                assert(!room.spec_intersects(&old_rooms[j]));
            }
        }
        assert forall|i: int| 0 <= i < rs.len() implies room_fits(#[trigger] rs[i]) by {
            if i < old_rooms.len() {
                assert(rs[i] == old_rooms[i]);
            }
        }
    }
}

/// The rooms accepted from a list of candidates: a candidate is kept while
/// fewer than `MIN_ROOMS` are kept and it overlaps none of them.
pub open spec fn accepted(cands: Seq<Rect>) -> Seq<Rect>
    decreases cands.len(),
{
    if cands.len() == 0 {
        Seq::empty()
    } else {
        let prev = accepted(cands.drop_last());
        if prev.len() < MIN_ROOMS && forall|j: int| 0 <= j < prev.len() ==> !cands.last().spec_intersects(&#[trigger] prev[j]) {
            prev.push(cands.last())
        } else {
            prev
        }
    }
}

/// The tunnel that joins room `k` to room `k - 1`, oriented by `flags[k]`.
pub open spec fn on_joining_tunnel(rooms: Seq<Rect>, flags: Seq<bool>, k: int, p: (int, int)) -> bool {
    on_tunnel(
        center_of(rooms[k - 1]).0,
        center_of(rooms[k - 1]).1,
        center_of(rooms[k]).0,
        center_of(rooms[k]).1,
        flags[k],
        p,
    )
}

/// Floor of a level: the interiors of its rooms and the tunnels joining each
/// room to the one before.
pub open spec fn layout_floor(rooms: Seq<Rect>, flags: Seq<bool>, p: (int, int)) -> bool {
    ||| exists|i: int| 0 <= i < rooms.len() && in_interior(#[trigger] rooms[i], p)
    ||| exists|k: int| 1 <= k < rooms.len() && #[trigger] on_joining_tunnel(rooms, flags, k, p)
}

/// The map is wall everywhere but the level's floor.
pub open spec fn carved_layout(map: Grid, rooms: Seq<Rect>, flags: Seq<bool>) -> bool {
    &&& wf_map(map)
    &&& forall|p: (int, int)|
        in_map(p) ==> #[trigger] tile_at(map, p) == if layout_floor(rooms, flags, p) {
            floor_tile()
        } else {
            Tile::spec_wall()
        }
}

proof fn lemma_layout_push(rooms: Seq<Rect>, room: Rect, flags: Seq<bool>, p: (int, int))
    ensures
        layout_floor(rooms.push(room), flags, p) == (layout_floor(rooms, flags, p) || in_interior(room, p) || (rooms.len()
            >= 1 && on_joining_tunnel(rooms.push(room), flags, rooms.len() as int, p))),
{
    let r2 = rooms.push(room);
    assert forall|i: int| 0 <= i < rooms.len() implies #[trigger] r2[i] == rooms[i] by {}
    assert(r2[rooms.len() as int] == room);
    if exists|i: int| 0 <= i < rooms.len() && in_interior(#[trigger] rooms[i], p) {
        let i = choose|i: int| 0 <= i < rooms.len() && in_interior(#[trigger] rooms[i], p);
        assert(in_interior(r2[i], p));
    }
    if exists|k: int| 1 <= k < rooms.len() && #[trigger] on_joining_tunnel(rooms, flags, k, p) {
        let k = choose|k: int| 1 <= k < rooms.len() && #[trigger] on_joining_tunnel(rooms, flags, k, p);
        assert(r2[k] == rooms[k] && r2[k - 1] == rooms[k - 1]);
        assert(on_joining_tunnel(r2, flags, k, p));
    }
    if exists|i: int| 0 <= i < r2.len() && in_interior(#[trigger] r2[i], p) {
        let i = choose|i: int| 0 <= i < r2.len() && in_interior(#[trigger] r2[i], p);
        if i < rooms.len() {
            assert(in_interior(rooms[i], p));
        }
    }
    if exists|k: int| 1 <= k < r2.len() && #[trigger] on_joining_tunnel(r2, flags, k, p) {
        let k = choose|k: int| 1 <= k < r2.len() && #[trigger] on_joining_tunnel(r2, flags, k, p);
        if k < rooms.len() {
            assert(r2[k] == rooms[k] && r2[k - 1] == rooms[k - 1]);
            assert(on_joining_tunnel(rooms, flags, k, p));
        }
    }
}

/// A map of wall tiles only.
pub fn all_walls() -> (map: Grid)
    ensures
        wf_map(map),
        forall|p: (int, int)| in_map(p) ==> #[trigger] tile_at(map, p) == Tile::spec_wall(),
{
    let mut map: Grid = Vec::new();
    let mut x: i32 = 0;
    while x < MAP_WIDTH
        invariant
            0 <= x <= MAP_WIDTH,
            map@.len() == x,
            forall|i: int| 0 <= i < x ==> (#[trigger] map@[i])@.len() == MAP_HEIGHT,
            forall|i: int, j: int| 0 <= i < x && 0 <= j < MAP_HEIGHT ==> (#[trigger] map@[i]@[j]) == Tile::spec_wall(),
        decreases MAP_WIDTH - x,
    {
        let mut col: Vec<Tile> = Vec::new();
        let mut y: i32 = 0;
        while y < MAP_HEIGHT
            invariant
                0 <= y <= MAP_HEIGHT,
                col@.len() == y,
                forall|j: int| 0 <= j < y ==> (#[trigger] col@[j]) == Tile::spec_wall(),
            decreases MAP_HEIGHT - y,
        {
            col.push(Tile::wall());
            y = y + 1;
        }
        map.push(col);
        x = x + 1;
    }
    map
}

/// What `make_map` leaves in the entity list: the player moved to the first
/// room's centre, the monsters and items placed in the rooms, and the stairs
/// on the last room's centre.
pub open spec fn level_entities(rooms: Seq<Rect>, objects: Seq<Object>, player: Object) -> bool {
    &&& objects.len() >= 2
    &&& objects[0] == moved_to(player, center_of(rooms[0]).0, center_of(rooms[0]).1)
    &&& forall|i: int| 1 <= i < objects.len() - 1 ==> in_some_room(rooms, #[trigger] objects[i])
    &&& objects.last().spec_pos() == center_of(rooms.last())
    &&& objects.last().always_visible
    &&& !objects.last().blocks
    &&& objects.last().name@ == "Stairs"@
}

/// Every entity stands on a walkable tile.
pub open spec fn all_on_floor(map: Grid, objects: Seq<Object>) -> bool {
    forall|i: int| 0 <= i < objects.len() ==> walkable(map, (#[trigger] objects[i]).spec_pos())
}

/// The outer ring of the grid is wall.
pub open spec fn border_walls(map: Grid) -> bool {
    forall|p: (int, int)|
        in_map(p) && (p.0 == 0 || p.1 == 0 || p.0 == MAP_WIDTH - 1 || p.1 == MAP_HEIGHT - 1) ==> #[trigger] tile_at(map, p)
            == Tile::spec_wall()
}

/// Everything a generated level satisfies, for its rooms and tunnel
/// orientations: the map is wall but for the room interiors and the tunnels
/// joining each room to the one before; one to `MIN_ROOMS` rooms; the layout
/// and the entity list of `level_layout` and `level_entities`; every entity on
/// a walkable tile; a wall border; stairs drawn as '<'.
pub open spec fn generated(map: Grid, rooms: Seq<Rect>, flags: Seq<bool>, objects: Seq<Object>, player: Object) -> bool {
    &&& carved_layout(map, rooms, flags)
    &&& 1 <= rooms.len() <= MIN_ROOMS
    &&& level_layout(map, rooms, objects[PLAYER as int].spec_pos())
    &&& level_entities(rooms, objects, player)
    &&& all_on_floor(map, objects)
    &&& border_walls(map)
    &&& objects.last().char == '<'
    &&& forall|p: (int, int)| #[trigger] walkable(map, p) ==> connected(map, objects[PLAYER as int].spec_pos(), p)
}

proof fn lemma_layout_inside(rooms: Seq<Rect>, flags: Seq<bool>, p: (int, int))
    requires
        forall|i: int| 0 <= i < rooms.len() ==> room_fits(#[trigger] rooms[i]),
        layout_floor(rooms, flags, p),
    ensures
        1 <= p.0 <= MAP_WIDTH - 2,
        1 <= p.1 <= MAP_HEIGHT - 2,
{
    if exists|i: int| 0 <= i < rooms.len() && in_interior(#[trigger] rooms[i], p) {
        let i = choose|i: int| 0 <= i < rooms.len() && in_interior(#[trigger] rooms[i], p);
        assert(room_fits(rooms[i]));
    } else {
        let k = choose|k: int| 1 <= k < rooms.len() && #[trigger] on_joining_tunnel(rooms, flags, k, p);
        assert(room_fits(rooms[k]));
        assert(room_fits(rooms[k - 1]));
        lemma_center_inside(rooms[k]);
        lemma_center_inside(rooms[k - 1]);
    }
}

/// A floor tile of the layout is walkable.
proof fn lemma_layout_walkable(map: Grid, rooms: Seq<Rect>, flags: Seq<bool>, q: (int, int))
    requires
        carved_layout(map, rooms, flags),
        in_map(q),
        layout_floor(rooms, flags, q),
    ensures
        walkable(map, q),
{
    assert(tile_at(map, q) == floor_tile());
}

proof fn lemma_interior_reached(map: Grid, rooms: Seq<Rect>, flags: Seq<bool>, start: (int, int), i: int, p: (int, int))
    requires
        carved_layout(map, rooms, flags),
        level_layout(map, rooms, start),
        0 <= i < rooms.len(),
        in_interior(rooms[i], p),
    ensures
        connected(map, start, p),
{
    let r = rooms[i];
    assert(room_fits(r));
    lemma_center_inside(r);
    let c = center_of(r);
    let corner = (p.0, c.1);
    assert forall|q: (int, int)| on_segment(c, corner, q) implies #[trigger] walkable(map, q) by {
        assert(in_interior(rooms[i], q));
        lemma_layout_walkable(map, rooms, flags, q);
    }
    assert forall|q: (int, int)| on_segment(corner, p, q) implies #[trigger] walkable(map, q) by {
        assert(in_interior(rooms[i], q));
        lemma_layout_walkable(map, rooms, flags, q);
    }
    lemma_segment_connected(map, c, corner);
    lemma_segment_connected(map, corner, p);
    lemma_connected_trans(map, c, corner, p);
    assert(connected(map, start, c));
    lemma_connected_trans(map, start, c, p);
}

proof fn lemma_tunnel_reached(map: Grid, rooms: Seq<Rect>, flags: Seq<bool>, start: (int, int), k: int, p: (int, int))
    requires
        carved_layout(map, rooms, flags),
        level_layout(map, rooms, start),
        1 <= k < rooms.len(),
        on_joining_tunnel(rooms, flags, k, p),
    ensures
        connected(map, start, p),
{
    let a = center_of(rooms[k - 1]);
    let b = center_of(rooms[k]);
    assert(room_fits(rooms[k]));
    assert(room_fits(rooms[k - 1]));
    lemma_center_inside(rooms[k]);
    lemma_center_inside(rooms[k - 1]);
    let corner = if flags[k] { (b.0, a.1) } else { (a.0, b.1) };
    assert(connected(map, start, a));
    assert(connected(map, start, b));
    if on_segment(a, corner, p) {
        assert forall|q: (int, int)| on_segment(a, p, q) implies #[trigger] walkable(map, q) by {
            assert(on_joining_tunnel(rooms, flags, k, q));
            lemma_layout_walkable(map, rooms, flags, q);
        }
        lemma_segment_connected(map, a, p);
        lemma_connected_trans(map, start, a, p);
    } else {
        assert forall|q: (int, int)| on_segment(b, p, q) implies #[trigger] walkable(map, q) by {
            assert(on_joining_tunnel(rooms, flags, k, q));
            lemma_layout_walkable(map, rooms, flags, q);
        }
        lemma_segment_connected(map, b, p);
        lemma_connected_trans(map, start, b, p);
    }
}

/// Every floor tile of a generated layout is reached by a walk from the
/// first room's centre.
pub proof fn lemma_floor_reached(map: Grid, rooms: Seq<Rect>, flags: Seq<bool>, start: (int, int), p: (int, int))
    requires
        carved_layout(map, rooms, flags),
        level_layout(map, rooms, start),
        in_map(p),
        layout_floor(rooms, flags, p),
    ensures
        connected(map, start, p),
{
    if exists|i: int| 0 <= i < rooms.len() && in_interior(#[trigger] rooms[i], p) {
        let i = choose|i: int| 0 <= i < rooms.len() && in_interior(#[trigger] rooms[i], p);
        lemma_interior_reached(map, rooms, flags, start, i, p);
    } else {
        let k = choose|k: int| 1 <= k < rooms.len() && #[trigger] on_joining_tunnel(rooms, flags, k, p);
        lemma_tunnel_reached(map, rooms, flags, start, k, p);
    }
}

/// Generates a level from drawn values: candidate `k` becomes a room while
/// fewer than `MIN_ROOMS` are accepted and it overlaps none of them; each room
/// is carved, filled, and joined to the one before by a tunnel oriented by
/// `horizontal_first[k]` for the `k`-th room; stairs go on the last room; the
/// connectivity repair then runs. The entity list is cut down to the player,
/// who is moved to the first room.
pub fn make_map_from(
    objects: &mut Vec<Object>,
    level: u32,
    candidates: &Vec<Rect>,
    horizontal_first: &Vec<bool>,
) -> (map: Grid)
    requires
        old(objects)@.len() >= 1,
        candidates@.len() > 0,
        forall|k: int| 0 <= k < candidates@.len() ==> room_fits(#[trigger] candidates@[k]),
        horizontal_first@.len() >= MIN_ROOMS,
    ensures
        generated(map, accepted(candidates@), horizontal_first@, final(objects)@, old(objects)@[0]),
{
    let mut map = all_walls();
    let mut rooms: Vec<Rect> = Vec::new();
    objects.truncate(1);
    let ghost player = old(objects)@[0];
    let ghost flags = horizontal_first@;
    assert(objects@ =~= seq![player]);
    assert(carved_layout(map, rooms@, flags));
    let mut k: usize = 0;
    while k < candidates.len()
        invariant
            k <= candidates@.len(),
            forall|j: int| 0 <= j < candidates@.len() ==> room_fits(#[trigger] candidates@[j]),
            flags == horizontal_first@,
            flags.len() >= MIN_ROOMS,
            rooms_placed(map, rooms@, objects@, player),
            carved_layout(map, rooms@, flags),
            rooms@ == accepted(candidates@.subrange(0, k as int)),
            rooms@.len() <= MIN_ROOMS,
            k > 0 ==> rooms@.len() > 0,
        decreases candidates@.len() - k,
    {
        let candidate = candidates[k];
        proof {
            let t = candidates@.subrange(0, k + 1);
            assert(t.drop_last() =~= candidates@.subrange(0, k as int));
            assert(t.last() == candidate);
        }
        if rooms.len() < MIN_ROOMS as usize && !overlaps_any(&candidate, &rooms) {
            let h = horizontal_first[rooms.len()];
            accept_room(candidate, &mut map, &mut rooms, objects, level, Ghost(player), h, Ghost(flags));
        }
        k = k + 1;
    }
    assert(candidates@.subrange(0, candidates@.len() as int) =~= candidates@);
    let last_room = rooms[rooms.len() - 1];
    let (last_x, last_y) = last_room.center();
    let mut stairs = Object::new(last_x, last_y, '<', colour::white(), "Stairs", false);
    stairs.always_visible = true;
    let ghost before = objects@;
    objects.push(stairs);
    let ghost m0 = map;
    proof {
        let rs = rooms@;
        assert forall|i: int| 0 <= i < rs.len() implies in_map(center_of(#[trigger] rs[i])) by {
            lemma_center_inside(rs[i]);
        }
        lemma_center_inside(rs[0]);
        assert(layout_floor(rs, flags, center_of(rs[0])));
    }
    ensure_map_connectivity(&mut map, &rooms);
    proof {
        let rs = rooms@;
        assert(map == m0);
        assert(objects@[0] == before[0]);
        assert forall|i: int| 0 <= i < rs.len() implies connected(map, objects@[0].spec_pos(), center_of(#[trigger] rs[i])) by {
            assert(connected(m0, center_of(rs[0]), center_of(rs[i])));
        }
        assert forall|i: int| 1 <= i < objects@.len() - 1 implies in_some_room(rs, #[trigger] objects@[i]) by {
            assert(objects@[i] == before[i]);
        }
        assert(level_layout(map, rs, objects@[0].spec_pos()));
        assert(level_entities(rs, objects@, player));
        assert forall|i: int| 0 <= i < objects@.len() implies walkable(map, (#[trigger] objects@[i]).spec_pos()) by {
            let p = objects@[i].spec_pos();
            if i == 0 {
                lemma_center_inside(rs[0]);
                assert(layout_floor(rs, flags, p));
            } else if i == objects@.len() - 1 {
                let l = rs.len() - 1;
                lemma_center_inside(rs[l]);
                assert(in_interior(rs[l], p));
                assert(layout_floor(rs, flags, p));
            } else {
                assert(in_some_room(rs, objects@[i]));
                let j = choose|j: int| 0 <= j < rs.len() && placed_in(#[trigger] rs[j], objects@[i]);
                assert(in_interior(rs[j], p));
                assert(layout_floor(rs, flags, p));
            }
            assert(tile_at(map, p) == floor_tile());
        }
        assert forall|p: (int, int)| #[trigger] walkable(map, p) implies connected(map, objects@[PLAYER as int].spec_pos(), p) by {
            assert(tile_at(map, p) == if layout_floor(rs, flags, p) { floor_tile() } else { Tile::spec_wall() });
            lemma_floor_reached(map, rs, flags, objects@[PLAYER as int].spec_pos(), p);
        }
        assert forall|p: (int, int)|
            in_map(p) && (p.0 == 0 || p.1 == 0 || p.0 == MAP_WIDTH - 1 || p.1 == MAP_HEIGHT - 1) implies #[trigger] tile_at(map, p)
            == Tile::spec_wall() by {
            if layout_floor(rs, flags, p) {
                lemma_layout_inside(rs, flags, p);
            }
        }
    }
    map
}

/// Generates a level: `MAX_ROOMS` candidate rooms of random size and place
/// and `MIN_ROOMS` random tunnel orientations are drawn, and the level is made
/// from them by `make_map_from`.
pub fn make_map(objects: &mut Vec<Object>, level: u32) -> (map: Grid)
    requires
        old(objects)@.len() >= 1,
    ensures
        exists|rooms: Seq<Rect>, flags: Seq<bool>| #[trigger] generated(map, rooms, flags, final(objects)@, old(objects)@[0]),
{
    let mut candidates: Vec<Rect> = Vec::new();
    let mut n: i32 = 0;
    while n < MAX_ROOMS
        invariant
            0 <= n <= MAX_ROOMS,
            candidates@.len() == n,
            forall|k: int| 0 <= k < candidates@.len() ==> room_fits(#[trigger] candidates@[k]),
        decreases MAX_ROOMS - n,
    {
        let w = random_range(ROOM_MIN_SIZE, ROOM_MAX_SIZE + 1);
        let h = random_range(ROOM_MIN_SIZE, ROOM_MAX_SIZE + 1);
        let x = random_range(0, MAP_WIDTH - w);
        let y = random_range(0, MAP_HEIGHT - h);
        candidates.push(Rect::new(x, y, w, h));
        n = n + 1;
    }
    let mut flags: Vec<bool> = Vec::new();
    let mut f: i32 = 0;
    while f < MIN_ROOMS
        invariant
            0 <= f <= MIN_ROOMS,
            flags@.len() == f,
        decreases MIN_ROOMS - f,
    {
        flags.push(random_bool());
        f = f + 1;
    }
    let map = make_map_from(objects, level, &candidates, &flags);
    proof {
        assert(generated(map, accepted(candidates@), flags@, objects@, old(objects)@[0]));
    }
    map
}

/// On a generated level, a flood fill from the player's starting tile
/// reaches the centre of every room.
pub proof fn lemma_flood_fill_reaches_rooms(map: Grid, rooms: Seq<Rect>, start: (int, int), visited: Vec<Vec<bool>>)
    requires
        level_layout(map, rooms, start),
        forall|p: (int, int)| in_map(p) ==> (#[trigger] flag_at(visited, p) <==> connected(map, start, p)),
    ensures
        forall|i: int| 0 <= i < rooms.len() ==> flag_at(visited, center_of(#[trigger] rooms[i])),
{
    assert forall|i: int| 0 <= i < rooms.len() implies flag_at(visited, center_of(#[trigger] rooms[i])) by {
        lemma_center_inside(rooms[i]);
        assert(connected(map, start, center_of(rooms[i])));
    }
}

} // verus!
