use ended::combat::{attack_line, unblocked_attack_line, AttackData, Range};
use ended::components::{Appearance, BlocksSight, Bump, Player, PlayerMemory, Pos};
use ended::field_of_view::{block_map, fov, line_blocked, update_fov, update_fov_from, visible_tiles};
use ended::resources::Resources;
use ended::store::position;
use ended::tiles::TileSet;
use hecs::World;

fn seen() -> Appearance {
    Appearance { in_fov: true, ..Appearance::default() }
}

#[test]
fn attack_line_holds_the_tiles_between_the_ends() {
    let (tiles, count) = attack_line((0, 1), (6, 4));
    assert_eq!(tiles, vec![(1, 1), (2, 2), (3, 2), (4, 3), (5, 3)]);
    assert_eq!(count, 5);
}

#[test]
fn attack_line_runs_backwards_too() {
    let (tiles, count) = attack_line((6, 4), (0, 1));
    assert_eq!(tiles, vec![(5, 4), (4, 3), (3, 3), (2, 2), (1, 2)]);
    assert_eq!(count, 5);
}

#[test]
fn attack_line_between_neighbours_is_empty() {
    assert_eq!(attack_line((3, 3), (4, 3)), (vec![], 0));
    assert_eq!(attack_line((3, 3), (4, 4)), (vec![], 0));
    assert_eq!(attack_line((3, 3), (3, 3)), (vec![], 0));
}

#[test]
fn attack_line_along_an_axis_is_straight() {
    assert_eq!(attack_line((2, 3), (2, 7)), (vec![(2, 4), (2, 5), (2, 6)], 3));
    assert_eq!(attack_line((5, 3), (2, 3)), (vec![(4, 3), (3, 3)], 2));
}

#[test]
fn unblocked_attack_line_passes_creatures_and_stairs() {
    let mut world = World::new();
    world.spawn((Pos::new(2, 0), Bump::Attack));
    world.spawn((Pos::new(3, 0), Bump::NextLevel));
    world.spawn((Pos::new(1, 0),));
    let line = unblocked_attack_line(&mut world, (0, 0), (5, 0));
    assert_eq!(line, Some((vec![(1, 0), (2, 0), (3, 0), (4, 0)], 4)));
}

#[test]
fn unblocked_attack_line_stops_at_walls_and_closed_doors() {
    let mut world = World::new();
    world.spawn((Pos::new(2, 0), Bump::BlocksMovement));
    assert_eq!(unblocked_attack_line(&mut world, (0, 0), (5, 0)), None);
    let mut world = World::new();
    world.spawn((Pos::new(4, 0), Bump::OpenDoor));
    assert_eq!(unblocked_attack_line(&mut world, (0, 0), (5, 0)), None);
}

#[test]
fn unblocked_attack_line_ignores_what_stands_on_its_ends() {
    let mut world = World::new();
    world.spawn((Pos::new(0, 0), Bump::BlocksMovement));
    world.spawn((Pos::new(5, 0), Bump::BlocksMovement));
    world.spawn((Pos::new(2, 1), Bump::BlocksMovement));
    let line = unblocked_attack_line(&mut world, (0, 0), (5, 0));
    assert_eq!(line, Some((vec![(1, 0), (2, 0), (3, 0), (4, 0)], 4)));
}

#[test]
fn melee_range_is_manhattan_distance_one() {
    let mut world = World::new();
    let actor = world.spawn((Pos::new(5, 5),));
    let beside = world.spawn((Pos::new(6, 5),));
    let same = world.spawn((Pos::new(5, 5),));
    let two_away = world.spawn((Pos::new(7, 5),));
    let diagonal = world.spawn((Pos::new(6, 6),));
    assert_eq!(Range::Meele.in_range(&mut world, actor, beside), Some(true));
    assert_eq!(Range::Meele.in_range(&mut world, actor, same), Some(false));
    assert_eq!(Range::Meele.in_range(&mut world, actor, two_away), Some(false));
    assert_eq!(Range::Meele.in_range(&mut world, actor, diagonal), Some(false));
}

#[test]
fn melee_range_ignores_walls() {
    let mut world = World::new();
    let actor = world.spawn((Pos::new(5, 5), Bump::BlocksMovement));
    let beside = world.spawn((Pos::new(5, 4), Bump::BlocksMovement));
    assert_eq!(Range::Meele.in_range(&mut world, actor, beside), Some(true));
}

#[test]
fn range_needs_both_places() {
    let mut world = World::new();
    let actor = world.spawn((Pos::new(5, 5),));
    let nowhere = world.spawn((Bump::Attack,));
    assert_eq!(Range::Meele.in_range(&mut world, actor, nowhere), None);
    assert_eq!(Range::Ranged(3).in_range(&mut world, nowhere, actor), None);
}

#[test]
fn ranged_range_counts_the_tiles_between() {
    let mut world = World::new();
    let actor = world.spawn((Pos::new(0, 0),));
    let at_four = world.spawn((Pos::new(4, 0),));
    let at_five = world.spawn((Pos::new(5, 0),));
    let beside = world.spawn((Pos::new(1, 1),));
    assert_eq!(Range::Ranged(3).in_range(&mut world, actor, at_four), Some(true));
    assert_eq!(Range::Ranged(3).in_range(&mut world, actor, at_five), Some(false));
    assert_eq!(Range::Ranged(0).in_range(&mut world, actor, beside), Some(true));
    assert_eq!(Range::Ranged(-1).in_range(&mut world, actor, beside), Some(false));
}

#[test]
fn ranged_range_fails_on_a_blocked_line_however_near() {
    let mut world = World::new();
    let actor = world.spawn((Pos::new(0, 0),));
    let target = world.spawn((Pos::new(2, 0),));
    world.spawn((Pos::new(1, 0), Bump::BlocksMovement));
    assert_eq!(Range::Ranged(10).in_range(&mut world, actor, target), None);
}

#[test]
fn default_attack_is_a_weak_melee_attack() {
    let attack = AttackData::default();
    assert_eq!(
        attack,
        AttackData { range: Range::Meele, damage_low: 1, damage_high: 1, to_hit: 0, axe: false }
    );
}

#[test]
fn line_blocked_skips_both_ends() {
    let mut blockers = TileSet::new();
    blockers.insert((0, 0));
    blockers.insert((3, 0));
    assert!(!line_blocked(&blockers, (0, 0), (3, 0)));
    blockers.insert((2, 0));
    assert!(line_blocked(&blockers, (0, 0), (3, 0)));
    assert!(!line_blocked(&blockers, (0, 0), (2, 0)));
}

#[test]
fn visible_tiles_cover_the_whole_square_in_the_open() {
    let set = visible_tiles(&TileSet::new(), (10, 10), 2, false);
    for x in 8..=12 {
        for y in 8..=12 {
            assert!(set.contains((x, y)));
        }
    }
    assert!(!set.contains((13, 10)));
    assert!(!set.contains((10, 7)));
}

#[test]
fn visible_tiles_with_radius_zero_are_the_origin_alone() {
    let set = visible_tiles(&TileSet::new(), (4, 4), 0, false);
    assert!(set.contains((4, 4)));
    assert!(!set.contains((5, 4)));
}

#[test]
fn tiles_next_to_the_origin_are_always_visible() {
    let mut blockers = TileSet::new();
    for x in 4..=6 {
        for y in 4..=6 {
            blockers.insert((x, y));
        }
    }
    let set = visible_tiles(&blockers, (5, 5), 1, false);
    for x in 4..=6 {
        for y in 4..=6 {
            assert!(set.contains((x, y)));
        }
    }
}

#[test]
fn tile_behind_a_blocker_is_not_visible() {
    let mut blockers = TileSet::new();
    blockers.insert((6, 5));
    let set = visible_tiles(&blockers, (5, 5), 3, false);
    assert!(set.contains((6, 5)));
    assert!(!set.contains((7, 5)));
    assert!(!set.contains((8, 5)));
    assert!(set.contains((4, 5)));
    assert!(set.contains((3, 5)));
}

#[test]
fn reveal_shows_tiles_behind_blockers() {
    let mut blockers = TileSet::new();
    blockers.insert((6, 5));
    let set = visible_tiles(&blockers, (5, 5), 3, true);
    assert!(set.contains((7, 5)));
    assert!(set.contains((8, 5)));
    assert!(!set.contains((9, 5)));
}

#[test]
fn visible_tiles_stop_at_the_edge_of_the_grid() {
    let set = visible_tiles(&TileSet::new(), (i32::MAX, i32::MIN), 1, false);
    assert!(set.contains((i32::MAX, i32::MIN)));
    assert!(set.contains((i32::MAX - 1, i32::MIN + 1)));
}

#[test]
fn block_map_holds_what_blocks_sight() {
    let mut world = World::new();
    world.spawn((Pos::new(1, 2), BlocksSight));
    world.spawn((Pos::new(3, 4), Bump::BlocksMovement));
    world.spawn((BlocksSight,));
    let set = block_map(&mut world);
    assert!(set.contains((1, 2)));
    assert!(!set.contains((3, 4)));
    assert!(!set.contains((0, 0)));
}

#[test]
fn fov_sees_past_what_does_not_block_sight() {
    let mut world = World::new();
    world.spawn((Pos::new(6, 5), Bump::Attack));
    world.spawn((Pos::new(5, 6), BlocksSight));
    let set = fov(&mut world, (5, 5), 3, false);
    assert!(set.contains((7, 5)));
    assert!(set.contains((5, 6)));
    assert!(!set.contains((5, 7)));
    let all = fov(&mut world, (5, 5), 3, true);
    assert!(all.contains((5, 7)));
}

#[test]
fn update_fov_marks_what_is_seen() {
    let mut world = World::new();
    let mut resources = Resources::new();
    let player = world.spawn((Player::new(), Pos::new(5, 5), Appearance::default()));
    let near = world.spawn((Pos::new(7, 5), Appearance::default()));
    let wall = world.spawn((Pos::new(5, 7), Appearance::default(), BlocksSight));
    let hidden = world.spawn((Pos::new(5, 9), seen()));
    let far = world.spawn((Pos::new(5, 40), Appearance::default()));
    update_fov(&mut world, &mut resources, false);
    assert!(world.get::<Appearance>(player).unwrap().in_fov);
    assert!(world.get::<Appearance>(near).unwrap().in_fov);
    assert!(world.get::<Appearance>(wall).unwrap().in_fov);
    assert!(!world.get::<Appearance>(hidden).unwrap().in_fov);
    assert!(!world.get::<Appearance>(far).unwrap().in_fov);
    assert!(resources.fov_set.contains((7, 5)));
    assert!(resources.fov_set.contains((5, 7)));
    assert!(!resources.fov_set.contains((5, 9)));
    assert!(!resources.fov_set.contains((5, 40)));
}

#[test]
fn update_fov_remembers_what_leaves_the_view() {
    let mut world = World::new();
    let mut resources = Resources::new();
    world.spawn((Player::new(), Pos::new(5, 5)));
    world.spawn((Pos::new(5, 7), BlocksSight));
    let gone = world.spawn((Pos::new(5, 9), Appearance { sprite: 12, ..seen() }));
    assert_eq!(world.len(), 3);
    update_fov(&mut world, &mut resources, false);
    assert_eq!(world.len(), 4);
    assert!(!world.get::<Appearance>(gone).unwrap().in_fov);
    let memories: Vec<(Pos, Appearance)> = world
        .query_mut::<(&Pos, &Appearance, &PlayerMemory)>()
        .into_iter()
        .map(|(_, (pos, appearance, _))| (*pos, *appearance))
        .collect();
    assert_eq!(memories, vec![(Pos::new(5, 9), Appearance { sprite: 12, ..Appearance::default() })]);
    update_fov(&mut world, &mut resources, false);
    assert_eq!(world.len(), 4);
}

#[test]
fn update_fov_forgets_memories_that_come_into_view() {
    let mut world = World::new();
    let mut resources = Resources::new();
    world.spawn((Player::new(), Pos::new(5, 5)));
    let memory = world.spawn((PlayerMemory, Pos::new(6, 5), Appearance::default()));
    let kept = world.spawn((PlayerMemory, Pos::new(60, 5), Appearance::default()));
    update_fov(&mut world, &mut resources, false);
    assert!(!world.contains(memory));
    assert!(world.contains(kept));
}

#[test]
fn update_fov_with_magic_mapping_sees_through_walls() {
    let mut world = World::new();
    let mut resources = Resources::new();
    world.spawn((Player::new(), Pos::new(5, 5)));
    world.spawn((Pos::new(5, 7), BlocksSight));
    let behind = world.spawn((Pos::new(5, 9), Appearance::default()));
    update_fov(&mut world, &mut resources, true);
    assert!(world.get::<Appearance>(behind).unwrap().in_fov);
}

#[test]
fn update_fov_from_an_observer_without_a_place_sees_nothing() {
    let mut world = World::new();
    let mut resources = Resources::new();
    let observer = world.spawn((Player::new(),));
    let thing = world.spawn((Pos::new(1, 1), seen()));
    update_fov_from(&mut world, &mut resources, observer, false);
    assert!(!resources.fov_set.contains((1, 1)));
    assert!(!world.get::<Appearance>(thing).unwrap().in_fov);
    assert_eq!(world.len(), 3);
    assert_eq!(position(&mut world, observer), None);
}

#[test]
fn attack_line_has_one_tile_less_than_the_longer_axis_has_steps() {
    for ax in -3..=3 {
        for ay in -3..=3 {
            for bx in -3..=3 {
                for by in -3..=3 {
                    let (tiles, count) = attack_line((ax, ay), (bx, by));
                    let dx = (ax - bx).abs();
                    let dy = (ay - by).abs();
                    let steps = dx.max(dy);
                    let expected = if steps > 0 { steps - 1 } else { 0 };
                    assert_eq!(count as i32, expected);
                    assert_eq!(tiles.len() as i32, expected);
                    for tile in tiles {
                        assert!(tile != (ax, ay) && tile != (bx, by));
                        assert!(tile.0 >= ax.min(bx) && tile.0 <= ax.max(bx));
                        assert!(tile.1 >= ay.min(by) && tile.1 <= ay.max(by));
                    }
                }
            }
        }
    }
}
