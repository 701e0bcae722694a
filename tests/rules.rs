use roguelike::ai::{ai_take_turn_with, Ai};
use roguelike::colour;
use roguelike::combat::{closest_monster, is_in_fov, monster_at, player_move_or_attack};
use roguelike::death::DeathCallback;
use roguelike::equipment::{get_equipped_in_slot, slot_name, toggle_equipment, Equipment, Slot};
use roguelike::game::{end_turn, new_game, next_level, Game, PlayerAction};
use roguelike::items::{cast_confuse, cast_fireball, drop_item, pick_item_up, use_item, Item, UseResult};
use roguelike::leveling::{from_dungeon_level, level_up, level_up_xp, needs_level_up, Transition};
use roguelike::map::{all_walls, create_room, flood_fill, new_flags, Grid};
use roguelike::message::Messages;
use roguelike::movement::{is_blocked, move_by};
use roguelike::object::{create_item, create_monster, Fighter, Monster, Object};
use roguelike::tile::{Rect, Tile};
use roguelike::{INVENTORY_CAPACITY, MAP_HEIGHT, MAP_WIDTH, PLAYER};

fn open_map() -> Grid {
    let mut map = all_walls();
    create_room(Rect::new(1, 1, 30, 30), &mut map);
    map
}

fn empty_game() -> Game {
    Game { map: open_map(), messages: Messages::new(), inventory: Vec::new(), dungeon_level: 1 }
}

fn player_at(x: i32, y: i32) -> Object {
    let mut p = Object::new(x, y, '@', colour::white(), "player", true);
    p.alive = true;
    p.fighter = Some(Fighter { base_max_hp: 100, hp: 100, base_defense: 1, base_power: 2, xp: 0, on_death: DeathCallback::Player });
    p
}

fn all_visible() -> Vec<Vec<bool>> {
    vec![vec![true; MAP_HEIGHT as usize]; MAP_WIDTH as usize]
}

fn last_message(game: &Game) -> String {
    let n = game.messages.len();
    game.messages.get(n - 1).0.to_string()
}

#[test]
fn rect_new_and_center() {
    let r = Rect::new(2, 3, 6, 7);
    assert_eq!((r.x1, r.y1, r.x2, r.y2), (2, 3, 8, 10));
    assert_eq!(r.center(), (5, 6));
}

#[test]
fn rect_center_rounds_down() {
    let r = Rect { x1: -3, y1: 0, x2: 0, y2: 3 };
    assert_eq!(r.center(), (-2, 1));
}

#[test]
fn rects_sharing_an_edge_intersect() {
    let a = Rect::new(0, 0, 6, 6);
    let b = Rect::new(6, 0, 6, 6);
    let c = Rect::new(7, 0, 6, 6);
    assert!(a.intersects_with(&b));
    assert!(b.intersects_with(&a));
    assert!(!a.intersects_with(&c));
}

#[test]
fn tiles() {
    assert!(Tile::empty().is_walkable());
    assert!(!Tile::wall().is_walkable());
    assert!(Tile::wall().block_sight);
    assert!(!Tile::empty().block_sight);
}

#[test]
fn messages_keep_order() {
    let mut m = Messages::new();
    assert_eq!(m.len(), 0);
    m.add("one".to_string(), colour::red());
    m.add("two".to_string(), colour::white());
    assert_eq!(m.len(), 2);
    assert_eq!(m.get(0).0, "one");
    assert_eq!(m.get(1).0, "two");
    assert_eq!(m.get(1).1, colour::white());
}

#[test]
fn level_table_takes_last_reached_entry() {
    let table = [Transition { level: 1, value: 2 }, Transition { level: 4, value: 3 }, Transition { level: 6, value: 5 }];
    assert_eq!(from_dungeon_level(&table, 1), 2);
    assert_eq!(from_dungeon_level(&table, 3), 2);
    assert_eq!(from_dungeon_level(&table, 4), 3);
    assert_eq!(from_dungeon_level(&table, 9), 5);
    assert_eq!(from_dungeon_level(&[Transition { level: 3, value: 15 }], 2), 0);
    assert_eq!(from_dungeon_level(&[], 2), 0);
}

#[test]
fn create_room_keeps_the_ring() {
    let mut map = all_walls();
    create_room(Rect::new(2, 2, 6, 6), &mut map);
    assert!(map[2][2].blocked);
    assert!(map[8][5].blocked);
    assert!(!map[3][3].blocked);
    assert!(!map[7][7].blocked);
    assert!(map[3][8].blocked);
}

#[test]
fn generated_level_is_connected() {
    for _ in 0..20 {
        let (game, objects) = new_game();
        let (px, py) = objects[PLAYER].pos();
        assert!(!game.map[px as usize][py as usize].blocked);
        let mut visited = new_flags();
        flood_fill(px, py, &game.map, &mut visited);
        let stairs = objects.last().unwrap();
        assert_eq!(stairs.name, "Stairs");
        assert!(stairs.always_visible);
        assert!(visited[stairs.x as usize][stairs.y as usize]);
        for o in objects.iter() {
            assert!(visited[o.x as usize][o.y as usize]);
        }
    }
}

#[test]
fn new_game_state() {
    let (game, objects) = new_game();
    assert_eq!(game.dungeon_level, 1);
    assert_eq!(game.inventory.len(), 1);
    assert_eq!(game.inventory[0].name, "Dagger");
    assert!(game.inventory[0].equipment.unwrap().equipped);
    assert_eq!(objects[PLAYER].name, "player");
    assert_eq!(objects[PLAYER].fighter.unwrap().hp, 100);
    assert_eq!(game.messages.len(), 1);
    assert_eq!(objects[PLAYER].power(&game), 4);
    assert_eq!(objects[PLAYER].defense(&game), 1);
    assert_eq!(objects[PLAYER].max_hp(&game), 100);
}

#[test]
fn attack_without_effect_changes_nothing() {
    let mut game = empty_game();
    let mut attacker = player_at(5, 5);
    attacker.name = "goblin".to_string();
    attacker.fighter = Some(Fighter { base_max_hp: 10, hp: 10, base_defense: 0, base_power: 2, xp: 0, on_death: DeathCallback::Monster });
    let mut defender = create_monster(6, 5, Monster::Orc);
    defender.fighter = Some(Fighter { base_max_hp: 20, hp: 20, base_defense: 5, base_power: 4, xp: 35, on_death: DeathCallback::Monster });
    attacker.attack(&mut defender, &mut game);
    assert_eq!(defender.fighter.unwrap().hp, 20);
    assert!(defender.alive);
    assert_eq!(game.messages.len(), 1);
    assert_eq!(last_message(&game), "goblin attacks orc but it has no effect!");
}

#[test]
fn attack_deals_power_minus_defense() {
    let mut game = empty_game();
    let mut troll = create_monster(5, 5, Monster::Troll);
    let mut orc = create_monster(6, 5, Monster::Orc);
    troll.attack(&mut orc, &mut game);
    assert_eq!(orc.fighter.unwrap().hp, 12);
    assert_eq!(last_message(&game), "troll attacks orc for 8 damage.");
}

#[test]
fn monster_dies_once() {
    let mut game = empty_game();
    let mut orc = create_monster(6, 5, Monster::Orc);
    assert_eq!(orc.take_damage(25, &mut game), Some(35));
    assert!(!orc.alive);
    assert!(orc.fighter.is_none());
    assert!(orc.ai.is_none());
    assert!(!orc.blocks);
    assert_eq!(orc.char, '%');
    assert_eq!(orc.name, "remains of orc");
    assert_eq!(last_message(&game), "orc is dead! You gain 35 experience points.");
    let before = game.messages.len();
    assert_eq!(orc.take_damage(25, &mut game), None);
    assert_eq!(orc.name, "remains of orc");
    assert_eq!(game.messages.len(), before);
}

#[test]
fn player_dies_once() {
    let mut game = empty_game();
    let mut p = player_at(3, 3);
    assert_eq!(p.take_damage(150, &mut game), Some(0));
    assert!(!p.alive);
    assert_eq!(p.fighter.unwrap().hp, -50);
    assert_eq!(last_message(&game), "You Died!");
    let before = game.messages.len();
    assert_eq!(p.take_damage(10, &mut game), None);
    assert_eq!(p.fighter.unwrap().hp, -50);
    assert_eq!(game.messages.len(), before);
}

#[test]
fn kill_awards_experience() {
    let mut game = empty_game();
    let mut objects = vec![player_at(5, 5), create_monster(6, 5, Monster::Orc)];
    objects[1].fighter = Some(Fighter { base_max_hp: 2, hp: 1, base_defense: 0, base_power: 4, xp: 35, on_death: DeathCallback::Monster });
    player_move_or_attack(1, 0, &mut game, &mut objects);
    assert_eq!(objects[PLAYER].fighter.unwrap().xp, 35);
    assert_eq!(objects[PLAYER].pos(), (5, 5));
    assert!(!objects[1].alive);
    player_move_or_attack(1, 0, &mut game, &mut objects);
    assert_eq!(objects[PLAYER].pos(), (6, 5));
}

#[test]
fn heal_is_clamped() {
    let game = empty_game();
    let mut p = player_at(3, 3);
    p.fighter.as_mut().unwrap().hp = 90;
    p.heal(40, &game);
    assert_eq!(p.fighter.unwrap().hp, 100);
    p.fighter.as_mut().unwrap().hp = 30;
    p.heal(40, &game);
    assert_eq!(p.fighter.unwrap().hp, 70);
}

#[test]
fn walls_and_blockers_stop_moves() {
    let game = empty_game();
    let mut objects = vec![player_at(1, 5), create_monster(3, 5, Monster::Orc)];
    move_by(PLAYER, -1, 0, &game.map, &mut objects);
    assert_eq!(objects[PLAYER].pos(), (1, 5));
    assert!(is_blocked(3, 5, &game.map, &objects));
    assert!(is_blocked(-4, 5, &game.map, &objects));
    move_by(PLAYER, 1, 0, &game.map, &mut objects);
    assert_eq!(objects[PLAYER].pos(), (2, 5));
    move_by(PLAYER, 1, 0, &game.map, &mut objects);
    assert_eq!(objects[PLAYER].pos(), (2, 5));
}

#[test]
fn confusion_lasts_eleven_turns() {
    let mut game = empty_game();
    let fov = all_visible();
    let mut objects = vec![player_at(20, 20), create_monster(5, 5, Monster::Orc)];
    let r = cast_confuse(Some((5, 5)), &mut game, &mut objects);
    assert_eq!(r, UseResult::UsedUp);
    let mut confused_moves = 0;
    loop {
        let confused = matches!(objects[1].ai, Some(Ai::Confused { num_turns, .. }) if num_turns >= 0);
        ai_take_turn_with(1, &fov, (1, 0), &mut game, &mut objects);
        if confused {
            confused_moves += 1;
        } else {
            break;
        }
    }
    assert_eq!(confused_moves, 11);
    assert!(matches!(objects[1].ai, Some(Ai::Basic)));
    assert_eq!(objects[1].pos(), (16, 5));
    assert_eq!(last_message(&game), "The orc is no longer confused!");
}

#[test]
fn basic_monster_steps_toward_player() {
    let mut game = empty_game();
    let fov = all_visible();
    let mut objects = vec![player_at(15, 8), create_monster(5, 5, Monster::Orc)];
    ai_take_turn_with(1, &fov, (0, 0), &mut game, &mut objects);
    assert_eq!(objects[1].pos(), (6, 5));
    objects[1].set_pos(10, 3);
    objects[PLAYER].set_pos(15, 8);
    ai_take_turn_with(1, &fov, (0, 0), &mut game, &mut objects);
    assert_eq!(objects[1].pos(), (11, 4));
    objects[1].set_pos(14, 8);
    ai_take_turn_with(1, &fov, (0, 0), &mut game, &mut objects);
    assert_eq!(objects[1].pos(), (14, 8));
    assert_eq!(objects[PLAYER].fighter.unwrap().hp, 97);
}

#[test]
fn unseen_monster_waits() {
    let mut game = empty_game();
    let fov = new_flags();
    let mut objects = vec![player_at(15, 8), create_monster(5, 5, Monster::Orc)];
    ai_take_turn_with(1, &fov, (0, 0), &mut game, &mut objects);
    assert_eq!(objects[1].pos(), (5, 5));
    assert!(!is_in_fov(&fov, 5, 5));
}

#[test]
fn equipping_into_occupied_slot_unequips_first() {
    let mut game = empty_game();
    let mut sword = create_item(0, 0, Item::Sword);
    sword.equipment.as_mut().unwrap().equipped = true;
    let mut other = create_item(0, 0, Item::Sword);
    other.name = "Long sword".to_string();
    game.inventory.push(sword);
    game.inventory.push(other);
    let r = toggle_equipment(1, &mut game);
    assert_eq!(r, UseResult::UsedAndKept);
    assert!(!game.inventory[0].equipment.unwrap().equipped);
    assert!(game.inventory[1].equipment.unwrap().equipped);
    let count = game.inventory.iter().filter(|o| o.equipment.map_or(false, |e| e.equipped && e.slot == Slot::RightHand)).count();
    assert_eq!(count, 1);
    assert_eq!(get_equipped_in_slot(Slot::RightHand, &game.inventory), Some(1));
    assert_eq!(last_message(&game), "Equipped Long sword on right hand.");
    toggle_equipment(1, &mut game);
    assert_eq!(get_equipped_in_slot(Slot::RightHand, &game.inventory), None);
    assert_eq!(toggle_equipment(1, &mut game), UseResult::UsedAndKept);
}

#[test]
fn toggle_refuses_non_equipment() {
    let mut game = empty_game();
    game.inventory.push(create_item(0, 0, Item::Heal));
    assert_eq!(toggle_equipment(0, &mut game), UseResult::Cancelled);
}

#[test]
fn slot_names() {
    assert_eq!(slot_name(Slot::LeftHand), "left hand");
    assert_eq!(slot_name(Slot::RightHand), "right hand");
    assert_eq!(slot_name(Slot::Head), "head");
}

#[test]
fn equipment_bonuses_only_for_player() {
    let mut game = empty_game();
    let mut shield = create_item(0, 0, Item::Shield);
    shield.equipment = Some(Equipment { slot: Slot::LeftHand, equipped: true, max_hp_bonus: 10, power_bonus: 1, defense_bonus: 2 });
    game.inventory.push(shield);
    let p = player_at(1, 1);
    assert_eq!(p.defense(&game), 3);
    assert_eq!(p.power(&game), 3);
    assert_eq!(p.max_hp(&game), 110);
    assert_eq!(p.get_all_equipped(&game).len(), 1);
    let orc = create_monster(2, 2, Monster::Orc);
    assert_eq!(orc.defense(&game), 0);
    assert!(orc.get_all_equipped(&game).is_empty());
}

#[test]
fn inventory_holds_twenty_six() {
    let mut game = empty_game();
    let mut objects = vec![player_at(5, 5)];
    for _ in 0..27 {
        objects.push(create_item(5, 5, Item::Heal));
    }
    for n in 1..=26 {
        pick_item_up(1, &mut game, &mut objects);
        assert_eq!(game.inventory.len(), n);
    }
    assert_eq!(game.inventory.len(), INVENTORY_CAPACITY);
    let before = game.messages.len();
    pick_item_up(1, &mut game, &mut objects);
    assert_eq!(game.inventory.len(), 26);
    assert_eq!(objects.len(), 2);
    assert_eq!(game.messages.len(), before + 1);
    assert_eq!(last_message(&game), "Your inventory is full, cannot pick up Healing Potion");
}

#[test]
fn picked_up_equipment_is_equipped_when_slot_free() {
    let mut game = empty_game();
    let mut objects = vec![player_at(5, 5), create_item(5, 5, Item::Sword), create_item(5, 5, Item::Sword)];
    pick_item_up(1, &mut game, &mut objects);
    assert!(game.inventory[0].equipment.unwrap().equipped);
    pick_item_up(1, &mut game, &mut objects);
    assert!(!game.inventory[1].equipment.unwrap().equipped);
    assert_eq!(objects.len(), 1);
}

#[test]
fn dropped_item_lands_under_player_unequipped() {
    let mut game = empty_game();
    let mut objects = vec![player_at(7, 9)];
    let mut sword = create_item(0, 0, Item::Sword);
    sword.equipment.as_mut().unwrap().equipped = true;
    game.inventory.push(sword);
    drop_item(0, &mut game, &mut objects);
    assert!(game.inventory.is_empty());
    assert_eq!(objects.len(), 2);
    assert_eq!(objects[1].pos(), (7, 9));
    assert!(!objects[1].equipment.unwrap().equipped);
    assert_eq!(last_message(&game), "You dropped your Sword.");
}

#[test]
fn fireball_on_player_spares_player() {
    let mut game = empty_game();
    let mut objects = vec![player_at(10, 10), create_monster(11, 10, Monster::Orc), create_monster(20, 20, Monster::Troll)];
    let r = cast_fireball(Some((10, 10)), &mut game, &mut objects);
    assert_eq!(r, UseResult::UsedUp);
    assert_eq!(objects[PLAYER].fighter.unwrap().hp, 100);
    assert!(objects[PLAYER].alive);
    assert!(!objects[1].alive);
    assert_eq!(objects[PLAYER].fighter.unwrap().xp, 35);
    assert_eq!(objects[2].fighter.unwrap().hp, 30);
}

#[test]
fn fireball_radius_is_three() {
    let mut game = empty_game();
    let mut objects = vec![player_at(1, 1), create_monster(10, 13, Monster::Troll), create_monster(12, 13, Monster::Troll)];
    cast_fireball(Some((10, 10)), &mut game, &mut objects);
    assert_eq!(objects[1].fighter.unwrap().hp, 5);
    assert_eq!(objects[2].fighter.unwrap().hp, 30);
    assert_eq!(cast_fireball(None, &mut game, &mut objects), UseResult::Cancelled);
}

#[test]
fn lightning_hits_closest_visible_monster() {
    let mut game = empty_game();
    let fov = all_visible();
    let mut objects = vec![player_at(10, 10), create_monster(14, 10, Monster::Troll), create_monster(12, 11, Monster::Troll), create_monster(13, 10, Monster::Orc)];
    assert_eq!(closest_monster(&fov, &objects, 5), Some(2));
    game.inventory.push(create_item(0, 0, Item::Lightning));
    use_item(0, &fov, None, &mut game, &mut objects);
    assert!(game.inventory.is_empty());
    assert_eq!(objects[2].fighter.unwrap().hp, 10);
    let far = vec![player_at(10, 10), create_monster(16, 10, Monster::Orc)];
    assert_eq!(closest_monster(&fov, &far, 5), None);
}

#[test]
fn cancelled_use_keeps_item() {
    let mut game = empty_game();
    let fov = all_visible();
    let mut objects = vec![player_at(10, 10)];
    game.inventory.push(create_item(0, 0, Item::Heal));
    use_item(0, &fov, None, &mut game, &mut objects);
    assert_eq!(game.inventory.len(), 1);
    assert_eq!(last_message(&game), "Cancelled");
    objects[PLAYER].fighter.as_mut().unwrap().hp = 50;
    use_item(0, &fov, None, &mut game, &mut objects);
    assert!(game.inventory.is_empty());
    assert_eq!(objects[PLAYER].fighter.unwrap().hp, 90);
}

#[test]
fn unusable_entity_is_refused() {
    let mut game = empty_game();
    let fov = all_visible();
    let mut objects = vec![player_at(10, 10)];
    game.inventory.push(Object::new(0, 0, '?', colour::white(), "rock", false));
    use_item(0, &fov, None, &mut game, &mut objects);
    assert_eq!(game.inventory.len(), 1);
    assert_eq!(last_message(&game), "The rock cannot be used");
}

#[test]
fn confuse_needs_a_monster() {
    let mut game = empty_game();
    let mut objects = vec![player_at(10, 10)];
    assert_eq!(cast_confuse(Some((3, 3)), &mut game, &mut objects), UseResult::Cancelled);
    assert_eq!(cast_confuse(Some((10, 10)), &mut game, &mut objects), UseResult::Cancelled);
    assert_eq!(monster_at(10, 10, &objects), None);
}

#[test]
fn levels_up_with_enough_experience() {
    let mut game = empty_game();
    let mut objects = vec![player_at(1, 1)];
    assert_eq!(level_up_xp(1), 350);
    assert!(!needs_level_up(&objects));
    objects[PLAYER].fighter.as_mut().unwrap().xp = 400;
    assert!(needs_level_up(&objects));
    level_up(1, &mut game, &mut objects);
    assert_eq!(objects[PLAYER].level, 2);
    let f = objects[PLAYER].fighter.unwrap();
    assert_eq!(f.xp, 50);
    assert_eq!(f.base_power, 3);
    assert_eq!(last_message(&game), "You leveled up! You are now level 2");
}

#[test]
fn next_level_rests_and_descends() {
    let (mut game, mut objects) = new_game();
    objects[PLAYER].fighter.as_mut().unwrap().hp = 20;
    next_level(&mut game, &mut objects);
    assert_eq!(game.dungeon_level, 2);
    assert_eq!(objects[PLAYER].fighter.unwrap().hp, 70);
    let (px, py) = objects[PLAYER].pos();
    assert!(!game.map[px as usize][py as usize].blocked);
}

#[test]
fn only_turn_taking_actions_move_monsters() {
    let mut game = empty_game();
    let fov = all_visible();
    let mut objects = vec![player_at(15, 8), create_monster(5, 5, Monster::Orc)];
    end_turn(PlayerAction::DidntTakeTurn, &fov, &mut game, &mut objects);
    assert_eq!(objects[1].pos(), (5, 5));
    end_turn(PlayerAction::TookTurn, &fov, &mut game, &mut objects);
    assert_eq!(objects[1].pos(), (6, 5));
}
