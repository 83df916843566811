use ended::components::{Bump, Player, Pos};
use ended::movement::my_pathfinding::{basic_path, path, steps_of, successors};
use ended::tiles::TileSet;
use hecs::World;

fn walled_arena(low: i32, high: i32) -> TileSet {
    let mut set = TileSet::new();
    for i in low..=high {
        set.insert((i, low));
        set.insert((i, high));
        set.insert((low, i));
        set.insert((high, i));
    }
    set
}

#[test]
fn path_to_adjacent_tile_has_length_one() {
    let found = path(TileSet::new(), (5, 5), (6, 5));
    assert_eq!(found, Some((vec![(6, 5)], 1)));
}

#[test]
fn path_to_each_cardinal_neighbour_is_that_neighbour() {
    assert_eq!(path(TileSet::new(), (5, 5), (4, 5)), Some((vec![(4, 5)], 1)));
    assert_eq!(path(TileSet::new(), (5, 5), (5, 4)), Some((vec![(5, 4)], 1)));
    assert_eq!(path(TileSet::new(), (5, 5), (5, 6)), Some((vec![(5, 6)], 1)));
}

#[test]
fn path_to_own_tile_is_empty() {
    assert_eq!(path(TileSet::new(), (5, 5), (5, 5)), Some((vec![], 0)));
}

#[test]
fn path_to_enclosed_goal_is_unreachable() {
    let mut blocked = walled_arena(0, 10);
    blocked.insert((4, 5));
    blocked.insert((6, 5));
    blocked.insert((5, 4));
    blocked.insert((5, 6));
    assert_eq!(path(blocked, (2, 2), (5, 5)), None);
}

#[test]
fn path_ignores_blockers_on_its_two_ends() {
    let mut blocked = TileSet::new();
    blocked.insert((1, 1));
    blocked.insert((3, 1));
    assert_eq!(path(blocked, (1, 1), (3, 1)), Some((vec![(2, 1), (3, 1)], 2)));
}

#[test]
fn path_walks_around_a_blocker() {
    let mut blocked = walled_arena(0, 6);
    blocked.insert((3, 2));
    blocked.insert((3, 3));
    blocked.insert((3, 4));
    let found = path(blocked, (2, 3), (4, 3)).unwrap();
    assert_eq!(found.1, 6);
    assert_eq!(found.0.len(), 6);
    assert_eq!(found.0[5], (4, 3));
    assert!(!found.0.contains(&(3, 3)));
}

#[test]
fn path_length_is_manhattan_distance_on_open_ground() {
    let found = path(TileSet::new(), (0, 0), (3, -2)).unwrap();
    assert_eq!(found.1, 5);
    assert_eq!(found.0.len(), 5);
    assert_eq!(found.0[4], (3, -2));
}

#[test]
fn successors_on_a_wide_way_go_left_right_up_down() {
    let steps = successors(&TileSet::new(), (5, 5), false);
    assert_eq!(steps, vec![((4, 5), 1), ((6, 5), 1), ((5, 4), 1), ((5, 6), 1)]);
}

#[test]
fn successors_on_a_tall_way_go_up_down_left_right() {
    let steps = successors(&TileSet::new(), (5, 5), true);
    assert_eq!(steps, vec![((5, 4), 1), ((5, 6), 1), ((4, 5), 1), ((6, 5), 1)]);
}

#[test]
fn successors_leave_out_blocked_tiles_and_the_edge_of_the_grid() {
    let mut blocked = TileSet::new();
    blocked.insert((4, 5));
    assert_eq!(successors(&blocked, (5, 5), false), vec![((6, 5), 1), ((5, 4), 1), ((5, 6), 1)]);
    let corner = successors(&TileSet::new(), (i32::MIN, i32::MAX), false);
    assert_eq!(corner, vec![((i32::MIN + 1, i32::MAX), 1), ((i32::MIN, i32::MAX - 1), 1)]);
}

#[test]
fn steps_of_drops_the_first_tile() {
    assert_eq!(steps_of(Some((vec![(1, 1), (1, 2), (1, 3)], 2))), Some((vec![(1, 2), (1, 3)], 2)));
    assert_eq!(steps_of(Some((vec![(1, 1)], 0))), Some((vec![], 0)));
    assert_eq!(steps_of(Some((vec![], 0))), None);
    assert_eq!(steps_of(None), None);
}

#[test]
fn basic_path_leads_from_actor_to_target() {
    let mut world = World::new();
    let actor = world.spawn((Pos::new(2, 2), Bump::Attack));
    let target = world.spawn((Pos::new(2, 4), Player::new()));
    let found = basic_path(&mut world, actor, target);
    assert_eq!(found, Some((vec![(2, 3), (2, 4)], 2)));
}

#[test]
fn basic_path_goes_around_what_stands_in_the_way() {
    let mut world = World::new();
    for i in 0..=6 {
        world.spawn((Pos::new(i, 0), Bump::BlocksMovement));
        world.spawn((Pos::new(i, 6), Bump::BlocksMovement));
        world.spawn((Pos::new(0, i), Bump::BlocksMovement));
        world.spawn((Pos::new(6, i), Bump::BlocksMovement));
    }
    let actor = world.spawn((Pos::new(2, 2), Bump::Attack));
    world.spawn((Pos::new(2, 3), Bump::Attack));
    let target = world.spawn((Pos::new(2, 4), Player::new()));
    let found = basic_path(&mut world, actor, target).unwrap();
    assert_eq!(found.1, 4);
    assert!(!found.0.contains(&(2, 3)));
}

#[test]
fn basic_path_needs_both_places() {
    let mut world = World::new();
    let actor = world.spawn((Pos::new(2, 2),));
    let target = world.spawn((Player::new(),));
    assert_eq!(basic_path(&mut world, actor, target), None);
    assert_eq!(basic_path(&mut world, target, actor), None);
}
