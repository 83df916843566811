use ended::components::{Appearance, Bump, MonsterMemory, Player, Pos};
use ended::monster_memory::memory_system;
use ended::movement::{distance_between_ents, movement_map, stepping_tiles, Dir};
use ended::resources::{PlayerData, Resources};
use ended::states::{GameState, StateChange};
use ended::store::position;
use ended::{get_entities_at, player};
use hecs::World;

#[test]
fn player_is_found() {
    let mut world = World::new();
    world.spawn((Pos::new(0, 0),));
    let hero = world.spawn((Player::new(), Pos::new(1, 1)));
    assert_eq!(player(&mut world), Ok(hero));
}

#[test]
fn player_is_missed_in_a_world_without_one() {
    let mut world = World::new();
    world.spawn((Pos::new(0, 0),));
    assert_eq!(player(&mut world), Err("No player found".to_owned()));
    assert_eq!(player(&mut World::new()), Err("No player found".to_owned()));
}

#[test]
fn position_is_read_from_the_world() {
    let mut world = World::new();
    let here = world.spawn((Pos::new(3, -4),));
    let nowhere = world.spawn((Bump::Attack,));
    assert_eq!(position(&mut world, here), Some(Pos::new(3, -4)));
    assert_eq!(position(&mut world, nowhere), None);
    world.despawn(here).unwrap();
    assert_eq!(position(&mut world, here), None);
}

#[test]
fn entities_at_a_tile_are_all_found() {
    let mut world = World::new();
    let a = world.spawn((Pos::new(2, 2),));
    let b = world.spawn((Pos::new(2, 2), Bump::Attack));
    world.spawn((Pos::new(2, 3),));
    world.spawn((Bump::Attack,));
    let mut found = get_entities_at(&mut world, (2, 2));
    found.sort();
    let mut expected = vec![a, b];
    expected.sort();
    assert_eq!(found, expected);
    assert_eq!(get_entities_at(&mut world, (7, 7)), vec![]);
}

#[test]
fn stepping_tiles_are_those_of_bumps_and_players() {
    let mut world = World::new();
    world.spawn((Pos::new(1, 1), Bump::BlocksMovement));
    world.spawn((Pos::new(2, 1), Bump::NextLevel));
    world.spawn((Pos::new(3, 1), Player::new()));
    world.spawn((Pos::new(4, 1),));
    world.spawn((Bump::Attack,));
    let taken = stepping_tiles(&mut world);
    assert!(taken.contains((1, 1)));
    assert!(taken.contains((2, 1)));
    assert!(taken.contains((3, 1)));
    assert!(!taken.contains((4, 1)));
    assert!(!taken.contains((0, 0)));
}

#[test]
fn movement_map_lists_what_can_be_bumped() {
    let mut world = World::new();
    let wall = world.spawn((Pos::new(1, 1), Bump::BlocksMovement));
    let rat = world.spawn((Pos::new(2, 1), Bump::Attack));
    world.spawn((Pos::new(3, 1), Player::new()));
    world.spawn((Bump::Attack,));
    let mut list = movement_map(&mut world);
    list.sort_by_key(|entry| entry.0);
    assert_eq!(list, vec![((1, 1), (wall, Bump::BlocksMovement)), ((2, 1), (rat, Bump::Attack))]);
}

#[test]
fn distance_between_entities_is_manhattan() {
    let mut world = World::new();
    let a = world.spawn((Pos::new(1, 1),));
    let b = world.spawn((Pos::new(4, -1),));
    let nowhere = world.spawn((Bump::Attack,));
    assert_eq!(distance_between_ents(&mut world, a, b), Some(5));
    assert_eq!(distance_between_ents(&mut world, b, a), Some(5));
    assert_eq!(distance_between_ents(&mut world, a, a), Some(0));
    assert_eq!(distance_between_ents(&mut world, a, nowhere), None);
}

#[test]
fn directions_have_their_steps() {
    assert_eq!(Dir::N.components(), (0, -1));
    assert_eq!(Dir::W.components(), (-1, 0));
    assert_eq!(Dir::S.components(), (0, 1));
    assert_eq!(Dir::E.components(), (1, 0));
}

#[test]
fn pos_converts_from_and_into_tiles() {
    let pos: Pos = (3, 9).into();
    assert_eq!(pos, Pos::new(3, 9));
    assert_eq!(Pos::from((-1, 2)), Pos { x: -1, y: 2 });
    assert_eq!(Pos::new(4, 5).into(), (4, 5));
}

#[test]
fn appearance_defaults_to_an_unseen_white_sprite() {
    let a = Appearance::default();
    assert_eq!(a.sprite, 0);
    assert_eq!(a.layer, 1);
    assert!(!a.ignore_overlap);
    assert!(!a.in_fov);
    assert_eq!((a.color.r, a.color.g, a.color.b, a.color.a), (255, 255, 255, 255));
}

#[test]
fn memory_fades_by_a_turn() {
    let mut world = World::new();
    let mut resources = Resources::new();
    let fading = world.spawn((MonsterMemory { time_to_remember: 3, strength: 5 },));
    let blank = world.spawn((MonsterMemory { time_to_remember: 0, strength: 5 },));
    let unseen = world.spawn((
        MonsterMemory { time_to_remember: 1, strength: 5 },
        Appearance::default(),
    ));
    memory_system(&mut world, &mut resources);
    assert_eq!(world.get::<MonsterMemory>(fading).unwrap().time_to_remember, 2);
    assert_eq!(world.get::<MonsterMemory>(blank).unwrap().time_to_remember, 0);
    assert_eq!(world.get::<MonsterMemory>(unseen).unwrap().time_to_remember, 0);
    assert_eq!(world.get::<MonsterMemory>(unseen).unwrap().strength, 5);
}

#[test]
fn memory_is_renewed_by_the_sight_of_the_player() {
    let mut world = World::new();
    let mut resources = Resources::new();
    let watcher = world.spawn((
        MonsterMemory { time_to_remember: 0, strength: 5 },
        Appearance { in_fov: true, ..Appearance::default() },
    ));
    memory_system(&mut world, &mut resources);
    assert_eq!(
        *world.get::<MonsterMemory>(watcher).unwrap(),
        MonsterMemory { time_to_remember: 5, strength: 5 }
    );
}

#[test]
fn resources_start_empty() {
    let resources = Resources::new();
    assert!(resources.player.inventory.is_empty());
    assert!(!resources.fov_set.contains((0, 0)));
    assert!(!resources.new_level_request);
    assert_eq!(resources.level, 0);
    assert!(PlayerData::new().inventory.is_empty());
}

#[test]
fn states_can_be_named() {
    let change = StateChange::Replace(GameState::Game);
    assert!(matches!(change, StateChange::Replace(GameState::Game)));
    assert!(matches!(StateChange::Quit, StateChange::Quit));
    assert!(matches!(GameState::MainMenu, GameState::MainMenu));
    assert!(matches!(GameState::GameOver, GameState::GameOver));
}
