//! Moving entities over the grid.
use vstd::prelude::*;
use crate::map::{wf_map, walkable, Grid};
use crate::object::{fits_i32, Object};

verus! {

/// Some blocking entity stands at `(x, y)`.
pub open spec fn blocker_at(objects: Seq<Object>, x: int, y: int) -> bool {
    exists|i: int| 0 <= i < objects.len() && (#[trigger] objects[i]).blocks && objects[i].x == x && objects[i].y == y
}

/// Nothing may enter `(x, y)`: it is off the grid, a wall, or a blocking
/// entity stands there.
pub open spec fn spec_blocked(map: Grid, objects: Seq<Object>, x: int, y: int) -> bool {
    !walkable(map, (x, y)) || blocker_at(objects, x, y)
}

/// Whether nothing may enter `(x, y)`.
pub fn is_blocked(x: i32, y: i32, map: &Grid, objects: &Vec<Object>) -> (r: bool)
    requires
        wf_map(*map),
    ensures
        r == spec_blocked(*map, objects@, x as int, y as int),
{
    if x < 0 || y < 0 || x >= crate::MAP_WIDTH || y >= crate::MAP_HEIGHT {
        return true;
    }
    assert(map@[x as int]@.len() == crate::MAP_HEIGHT);
    if map[x as usize][y as usize].blocked {
        return true;
    }
    let mut i: usize = 0;
    while i < objects.len()
        invariant
            i <= objects@.len(),
            forall|j: int| 0 <= j < i ==> !((#[trigger] objects@[j]).blocks && objects@[j].x == x && objects@[j].y == y),
        decreases objects@.len() - i,
    {
        if objects[i].blocks && objects[i].x == x && objects[i].y == y {
            return true;
        }
        i = i + 1;
    }
    false
}

/// Moves entity `id` by `(dx, dy)` unless the destination is blocked; a
/// blocked move is dropped.
pub fn move_by(id: usize, dx: i32, dy: i32, map: &Grid, objects: &mut Vec<Object>)
    requires
        wf_map(*map),
        id < old(objects)@.len(),
        fits_i32(old(objects)@[id as int].x + dx),
        fits_i32(old(objects)@[id as int].y + dy),
    ensures
        ({
            let o = old(objects)@[id as int];
            let nx = o.x + dx;
            let ny = o.y + dy;
            if spec_blocked(*map, old(objects)@, nx, ny) {
                *final(objects) == *old(objects)
            } else {
                final(objects)@ == old(objects)@.update(id as int, Object { x: nx as i32, y: ny as i32, ..o })
            }
        }),
{
    let (x, y) = objects[id].pos();
    if !is_blocked(x + dx, y + dy, map, objects) {
        objects[id].set_pos(x + dx, y + dy);
    }
}

} // verus!
