use roguelike::colour;
use roguelike::combat::names_at;
use roguelike::game::{is_world_sane, new_game, next_level};
use roguelike::items::{announce_target, Item};
use roguelike::map::{
    all_walls, connect_rooms, connect_rooms_with, create_h_tunnel, create_room, create_v_tunnel, ensure_map_connectivity,
    find_closest_connected_tile, flood_fill, make_map, new_flags,
};
use roguelike::message::Messages;
use roguelike::object::{create_item, create_monster, place_objects, Monster, Object};
use roguelike::tile::Rect;
use roguelike::{MAP_HEIGHT, MAP_WIDTH, PLAYER};

fn reached(map: &roguelike::map::Grid, from: (i32, i32), to: (i32, i32)) -> bool {
    let mut visited = new_flags();
    flood_fill(from.0, from.1, map, &mut visited);
    visited[to.0 as usize][to.1 as usize]
}

#[test]
fn tunnels_carve_inclusive_segments() {
    let mut map = all_walls();
    create_h_tunnel(10, 4, 7, &mut map);
    for x in 4..=10 {
        assert!(!map[x][7].blocked);
    }
    assert!(map[3][7].blocked);
    assert!(map[11][7].blocked);
    create_v_tunnel(2, 5, 20, &mut map);
    for y in 2..=5 {
        assert!(!map[20][y].blocked);
    }
    assert!(map[20][6].blocked);
}

#[test]
fn l_tunnel_orientation() {
    let mut map = all_walls();
    connect_rooms_with(2, 2, 8, 9, true, &mut map);
    assert!(!map[8][2].blocked);
    assert!(map[2][9].blocked);
    assert!(reached(&map, (2, 2), (8, 9)));
    let mut map = all_walls();
    connect_rooms_with(2, 2, 8, 9, false, &mut map);
    assert!(!map[2][9].blocked);
    assert!(map[8][2].blocked);
    let mut map = all_walls();
    connect_rooms(30, 30, 5, 1, &mut map);
    assert!(reached(&map, (30, 30), (5, 1)));
}

#[test]
fn flood_fill_stops_at_walls() {
    let mut map = all_walls();
    create_room(Rect::new(1, 1, 6, 6), &mut map);
    create_room(Rect::new(20, 20, 6, 6), &mut map);
    assert!(reached(&map, (4, 4), (2, 2)));
    assert!(!reached(&map, (4, 4), (23, 23)));
    assert!(!reached(&map, (0, 0), (0, 0)));
}

#[test]
fn repair_joins_an_isolated_room() {
    let mut map = all_walls();
    let a = Rect::new(1, 1, 8, 8);
    let b = Rect::new(40, 20, 8, 8);
    create_room(a, &mut map);
    create_room(b, &mut map);
    assert!(!reached(&map, a.center(), b.center()));
    ensure_map_connectivity(&mut map, &vec![a, b]);
    assert!(reached(&map, a.center(), b.center()));
}

#[test]
fn closest_search_finds_a_flagged_tile() {
    let mut flags = new_flags();
    assert_eq!(find_closest_connected_tile(10, 10, &flags), (10, 10));
    flags[3][4] = true;
    let found = find_closest_connected_tile(10, 10, &flags);
    assert_eq!(found, (3, 4));
}

#[test]
fn placed_objects_stand_inside_the_room() {
    let mut map = all_walls();
    let room = Rect::new(10, 10, 8, 8);
    create_room(room, &mut map);
    let mut objects = vec![Object::new(0, 0, '@', colour::white(), "player", true)];
    for level in 1..10 {
        place_objects(room, &map, &mut objects, level);
    }
    for o in objects.iter().skip(1) {
        assert!(o.x > room.x1 && o.x < room.x2 && o.y > room.y1 && o.y < room.y2);
        assert!(o.item.is_some() || o.fighter.is_some());
    }
}

#[test]
fn generation_varies() {
    let mut starts = Vec::new();
    let mut trolls = 0;
    for level in 1..=30 {
        let mut objects = vec![Object::new(0, 0, '@', colour::white(), "player", true)];
        let map = make_map(&mut objects, 8 + level);
        assert_eq!(map.len(), MAP_WIDTH as usize);
        assert_eq!(map[0].len(), MAP_HEIGHT as usize);
        starts.push(objects[PLAYER].pos());
        trolls += objects.iter().filter(|o| o.name == "troll").count();
    }
    starts.sort();
    starts.dedup();
    assert!(starts.len() > 1);
    assert!(trolls > 0);
}

#[test]
fn deeper_levels_stay_connected() {
    let (mut game, mut objects) = new_game();
    for _ in 0..5 {
        next_level(&mut game, &mut objects);
        let stairs = objects.last().unwrap().pos();
        assert!(reached(&game.map, objects[PLAYER].pos(), stairs));
    }
    assert_eq!(game.dungeon_level, 6);
}

#[test]
fn names_under_cursor() {
    let fov = vec![vec![true; MAP_HEIGHT as usize]; MAP_WIDTH as usize];
    let objects = vec![
        create_monster(4, 4, Monster::Orc),
        create_item(4, 4, Item::Heal),
        create_monster(5, 4, Monster::Troll),
    ];
    assert_eq!(names_at(4, 4, &objects, &fov), "orc, Healing Potion");
    assert_eq!(names_at(5, 4, &objects, &fov), "troll");
    assert_eq!(names_at(6, 4, &objects, &fov), "");
    let dark = new_flags();
    assert_eq!(names_at(4, 4, &objects, &dark), "");
}

#[test]
fn targeting_prompts() {
    let mut game = roguelike::game::Game { map: all_walls(), messages: Messages::new(), inventory: Vec::new(), dungeon_level: 1 };
    game.inventory.push(create_item(0, 0, Item::Confuse));
    game.inventory.push(create_item(0, 0, Item::Fireball));
    game.inventory.push(create_item(0, 0, Item::Heal));
    assert_eq!(announce_target(0, &mut game), Some(Some(8)));
    assert_eq!(announce_target(1, &mut game), Some(None));
    assert_eq!(announce_target(2, &mut game), None);
    assert_eq!(game.messages.len(), 2);
}

#[test]
fn world_sanity_check() {
    let (game, mut objects) = new_game();
    assert!(is_world_sane(&objects, &game.inventory));
    objects[PLAYER].fighter.as_mut().unwrap().base_power = 2_000_000;
    assert!(!is_world_sane(&objects, &game.inventory));
}
