use roguelike::colour;
use roguelike::combat::closest_monster;
use roguelike::game::{item_under_player, on_stairs, within_reach};
use roguelike::items::Item;
use roguelike::map::{all_walls, create_room, make_map_from, new_flags};
use roguelike::message::decimal_text;
use roguelike::object::{create_item, create_monster, place_objects_from, Monster, Object, Spawn};
use roguelike::tile::Rect;
use roguelike::{MAP_HEIGHT, MAP_WIDTH, PLAYER};

fn player(x: i32, y: i32) -> Object {
    let mut p = Object::new(x, y, '@', colour::white(), "player", true);
    p.alive = true;
    p
}

#[test]
fn level_from_drawn_rooms() {
    let candidates = vec![
        Rect::new(1, 1, 8, 8),
        Rect::new(9, 1, 6, 6),
        Rect::new(30, 5, 6, 6),
        Rect::new(30, 20, 10, 10),
        Rect::new(50, 2, 6, 6),
        Rect::new(60, 20, 6, 6),
        Rect::new(70, 30, 6, 6),
    ];
    let flags = vec![true, true, false, true, false];
    let mut objects = vec![player(0, 0), create_monster(3, 3, Monster::Orc)];
    let map = make_map_from(&mut objects, 1, &candidates, &flags);
    // the second candidate touches the first, the seventh comes after five rooms
    assert_eq!(objects[PLAYER].pos(), (5, 5));
    let stairs = objects.last().unwrap();
    assert_eq!(stairs.pos(), (63, 23));
    assert_eq!(stairs.char, '<');
    assert!(map[72][32].blocked);
    assert!(map[11][3].blocked);
    assert!(!map[33][8].blocked);
    // the tunnel from room one to room three runs along the row first
    assert!(!map[20][5].blocked);
    for x in 0..MAP_WIDTH as usize {
        assert!(map[x][0].blocked && map[x][MAP_HEIGHT as usize - 1].blocked);
    }
    for o in objects.iter() {
        assert!(!map[o.x as usize][o.y as usize].blocked);
    }
}

#[test]
fn spawns_on_blocked_points_are_skipped() {
    let mut map = all_walls();
    let room = Rect::new(2, 2, 8, 8);
    create_room(room, &mut map);
    let mut objects = vec![player(4, 4)];
    let monsters = vec![Spawn { x: 4, y: 4, choice: 0 }, Spawn { x: 5, y: 5, choice: 1 }, Spawn { x: 5, y: 5, choice: 0 }];
    let items = vec![Spawn { x: 5, y: 5, choice: 4 }, Spawn { x: 1, y: 1, choice: 0 }, Spawn { x: 6, y: 6, choice: 2 }];
    place_objects_from(room, &map, &mut objects, &monsters, &items);
    assert_eq!(objects.len(), 3);
    assert_eq!(objects[1].name, "troll");
    assert_eq!(objects[2].item, Some(Item::Fireball));
    let mut free = vec![player(0, 0)];
    place_objects_from(room, &map, &mut free, &Vec::new(), &items);
    assert_eq!(free.len(), 3);
    assert_eq!(free[1].item, Some(Item::Sword));
    assert_eq!(free[2].item, Some(Item::Fireball));
}

#[test]
fn lightning_range_is_inclusive() {
    let fov = vec![vec![true; MAP_HEIGHT as usize]; MAP_WIDTH as usize];
    let at_five = vec![player(10, 10), create_monster(13, 14, Monster::Orc)];
    assert_eq!(closest_monster(&fov, &at_five, 5), Some(1));
    let beyond = vec![player(10, 10), create_monster(15, 11, Monster::Orc)];
    assert_eq!(closest_monster(&fov, &beyond, 5), None);
    let dark = new_flags();
    assert_eq!(closest_monster(&dark, &at_five, 5), None);
}

#[test]
fn pickup_and_stairs_queries() {
    let mut objects = vec![player(3, 3), create_monster(3, 3, Monster::Orc), create_item(4, 3, Item::Heal), create_item(3, 3, Item::Shield)];
    assert_eq!(item_under_player(&objects), Some(3));
    assert!(!on_stairs(&objects));
    objects.push(Object::new(3, 3, '<', colour::white(), "Stairs", false));
    assert!(on_stairs(&objects));
    objects[PLAYER].set_pos(9, 9);
    assert_eq!(item_under_player(&objects), None);
}

#[test]
fn reach_uses_euclidean_distance() {
    let objects = vec![player(10, 10)];
    assert!(within_reach(&objects, 18, 10, 8));
    assert!(!within_reach(&objects, 16, 16, 8));
    assert!(within_reach(&objects, 15, 16, 8));
}

#[test]
fn decimal_numbers() {
    assert_eq!(decimal_text(0), "0");
    assert_eq!(decimal_text(35), "35");
    assert_eq!(decimal_text(-120), "-120");
}
