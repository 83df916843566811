use ended::behavior::{
    act, act_toward, Action, ActorAction, BehaviorNode, BehaviorResult, Decision, Node, Selector,
    Sequence,
};
use ended::combat::{AttackData, AttackReport, Range};
use ended::components::{Appearance, Behavior, Bump, Equipment, Health, Player, Pos, Weapon};
use ended::dice::Dice;
use ended::resources::Resources;
use hecs::{Entity, World};

fn leaf(decision: Decision) -> Node {
    Node::Action(Action { act: decision })
}

fn selector(children: Vec<Node>) -> Node {
    Node::Selector(Selector::new(children))
}

fn sequence(children: Vec<Node>) -> Node {
    Node::Sequence(Sequence::new(children))
}

fn claws() -> AttackData {
    AttackData { range: Range::Meele, damage_low: 1, damage_high: 2, to_hit: 0, axe: false }
}

fn seen() -> Appearance {
    Appearance { in_fov: true, ..Appearance::default() }
}

fn is_wander(result: &BehaviorResult) -> bool {
    matches!(result, BehaviorResult::Acting(ActorAction::Wander))
}

fn is_wait(result: &BehaviorResult) -> bool {
    matches!(result, BehaviorResult::Acting(ActorAction::Wait))
}

fn arena() -> (World, Entity, Entity) {
    let mut world = World::new();
    let player = world.spawn((Player::new(), Pos::new(5, 5), Health::new(10), seen()));
    let monster = world.spawn((
        Pos::new(6, 5),
        Health::new(3),
        seen(),
        Bump::Attack,
        Weapon { attack: claws() },
    ));
    (world, player, monster)
}

#[test]
fn results_are_equal_by_kind() {
    let move_a = BehaviorResult::Acting(ActorAction::Move { origin: (0, 0), destination: (0, 1) });
    assert!(BehaviorResult::Success == BehaviorResult::Success);
    assert!(BehaviorResult::Fail == BehaviorResult::Fail);
    assert!(move_a == BehaviorResult::Acting(ActorAction::Wait));
    assert!(BehaviorResult::Success != BehaviorResult::Fail);
    assert!(BehaviorResult::Fail != BehaviorResult::Acting(ActorAction::Wander));
    assert!(BehaviorResult::Acting(ActorAction::Wander) != BehaviorResult::Success);
}

#[test]
fn selector_returns_first_result_that_is_no_failure() {
    let mut world = World::new();
    let resources = Resources::new();
    let mut dice = Dice::scripted(vec![10, 77]);
    let tree = selector(vec![
        leaf(Decision::PercentChance(50)),
        leaf(Decision::PercentChance(50)),
    ]);
    let result = tree.tick(&mut world, &resources, &mut dice);
    assert!(result == BehaviorResult::Success);
    assert_eq!(dice.roll(100), 77);
}

#[test]
fn selector_tries_its_children_in_order() {
    let mut world = World::new();
    let resources = Resources::new();
    let mut dice = Dice::scripted(vec![60, 61, 62]);
    let tree = selector(vec![
        leaf(Decision::PercentChance(50)),
        leaf(Decision::PercentChance(50)),
        leaf(Decision::Wait),
        leaf(Decision::Wander),
    ]);
    let result = tree.tick(&mut world, &resources, &mut dice);
    assert!(is_wait(&result));
    assert_eq!(dice.roll(100), 62);
}

#[test]
fn selector_fails_if_all_children_fail() {
    let mut world = World::new();
    let resources = Resources::new();
    let mut dice = Dice::scripted(vec![60, 61, 62]);
    let tree = selector(vec![
        leaf(Decision::PercentChance(50)),
        leaf(Decision::PercentChance(50)),
    ]);
    let result = tree.tick(&mut world, &resources, &mut dice);
    assert!(result == BehaviorResult::Fail);
    assert_eq!(dice.roll(100), 62);
    let empty = selector(vec![]);
    assert!(empty.tick(&mut world, &resources, &mut dice) == BehaviorResult::Fail);
}

#[test]
fn sequence_stops_at_first_failure() {
    let mut world = World::new();
    let resources = Resources::new();
    let mut dice = Dice::scripted(vec![60, 77]);
    let tree = sequence(vec![
        leaf(Decision::PercentChance(50)),
        leaf(Decision::PercentChance(50)),
    ]);
    let result = tree.tick(&mut world, &resources, &mut dice);
    assert!(result == BehaviorResult::Fail);
    assert_eq!(dice.roll(100), 77);
}

#[test]
fn sequence_returns_the_action_of_its_last_child() {
    let mut world = World::new();
    let resources = Resources::new();
    let mut dice = Dice::scripted(vec![10, 11, 12]);
    let tree = sequence(vec![
        leaf(Decision::PercentChance(50)),
        leaf(Decision::PercentChance(50)),
        leaf(Decision::Wander),
        leaf(Decision::PercentChance(50)),
    ]);
    let result = tree.tick(&mut world, &resources, &mut dice);
    assert!(is_wander(&result));
    assert_eq!(dice.roll(100), 12);
}

#[test]
fn sequence_succeeds_if_all_children_succeed() {
    let mut world = World::new();
    let resources = Resources::new();
    let mut dice = Dice::new();
    let tree = sequence(vec![leaf(Decision::Pass), leaf(Decision::Pass)]);
    assert!(tree.tick(&mut world, &resources, &mut dice) == BehaviorResult::Success);
    let empty = sequence(vec![]);
    assert!(empty.tick(&mut world, &resources, &mut dice) == BehaviorResult::Success);
}

#[test]
fn nested_nodes_evaluate_depth_first() {
    let mut world = World::new();
    let resources = Resources::new();
    let mut dice = Dice::scripted(vec![80, 20, 99]);
    let tree = selector(vec![
        sequence(vec![leaf(Decision::PercentChance(50)), leaf(Decision::Wait)]),
        sequence(vec![leaf(Decision::PercentChance(50)), leaf(Decision::Wander)]),
        leaf(Decision::PercentChance(50)),
    ]);
    let result = tree.tick(&mut world, &resources, &mut dice);
    assert!(is_wander(&result));
    assert_eq!(dice.roll(100), 99);
}

#[test]
fn percent_chance_succeeds_when_the_percentage_exceeds_the_draw() {
    let mut world = World::new();
    let resources = Resources::new();
    let mut dice = Dice::scripted(vec![29, 30, 31]);
    let node = leaf(Decision::PercentChance(30));
    assert!(node.tick(&mut world, &resources, &mut dice) == BehaviorResult::Success);
    assert!(node.tick(&mut world, &resources, &mut dice) == BehaviorResult::Fail);
    assert!(node.tick(&mut world, &resources, &mut dice) == BehaviorResult::Fail);
}

#[test]
fn percent_chance_of_zero_never_succeeds() {
    let mut world = World::new();
    let resources = Resources::new();
    let mut dice = Dice::new();
    let node = leaf(Decision::PercentChance(0));
    for _ in 0..10_000 {
        assert!(node.tick(&mut world, &resources, &mut dice) == BehaviorResult::Fail);
    }
}

#[test]
fn percent_chance_of_a_hundred_always_succeeds() {
    let mut world = World::new();
    let resources = Resources::new();
    let mut dice = Dice::new();
    let node = leaf(Decision::PercentChance(100));
    for _ in 0..10_000 {
        assert!(node.tick(&mut world, &resources, &mut dice) == BehaviorResult::Success);
    }
}

#[test]
fn percent_chance_succeeds_about_as_often_as_it_says() {
    macroquad::rand::srand(12345);
    let mut world = World::new();
    let resources = Resources::new();
    let mut dice = Dice::new();
    for percent in [10u32, 30, 50, 90] {
        let node = leaf(Decision::PercentChance(percent));
        let mut hits: u32 = 0;
        for _ in 0..100_000 {
            if node.tick(&mut world, &resources, &mut dice) == BehaviorResult::Success {
                hits += 1;
            }
        }
        let expected = percent * 1000;
        assert!(hits > expected - 2000 && hits < expected + 2000);
    }
}

#[test]
fn dice_roll_stays_below_its_bound() {
    let mut dice = Dice::new();
    for sides in [1u64, 2, 3, 20, 100] {
        for _ in 0..2000 {
            assert!(dice.roll(sides) < sides);
        }
    }
}

#[test]
fn dice_follow_their_script_and_skip_what_does_not_fit() {
    let mut dice = Dice::scripted(vec![3, 500, 0]);
    assert_eq!(dice.roll(4), 3);
    assert!(dice.roll(100) < 100);
    assert_eq!(dice.roll(1), 0);
    assert!(dice.roll(6) < 6);
}

#[test]
fn in_fov_reads_the_flag_of_the_actor() {
    let mut world = World::new();
    let resources = Resources::new();
    let mut dice = Dice::new();
    let seen_one = world.spawn((seen(),));
    let unseen = world.spawn((Appearance::default(),));
    let shapeless = world.spawn((Pos::new(0, 0),));
    let yes = leaf(Decision::InFov { actor: seen_one });
    let no = leaf(Decision::InFov { actor: unseen });
    let none = leaf(Decision::InFov { actor: shapeless });
    assert!(yes.tick(&mut world, &resources, &mut dice) == BehaviorResult::Success);
    assert!(no.tick(&mut world, &resources, &mut dice) == BehaviorResult::Fail);
    assert!(none.tick(&mut world, &resources, &mut dice) == BehaviorResult::Fail);
}

#[test]
fn in_attack_range_needs_an_attack_and_a_target_in_range() {
    let (mut world, player, monster) = arena();
    let resources = Resources::new();
    let mut dice = Dice::new();
    let far = world.spawn((Pos::new(9, 9), Weapon { attack: claws() }));
    let unarmed = world.spawn((Pos::new(5, 6),));
    let near = leaf(Decision::InAttackRange { actor: monster, target: player });
    let away = leaf(Decision::InAttackRange { actor: far, target: player });
    let tame = leaf(Decision::InAttackRange { actor: unarmed, target: player });
    assert!(near.tick(&mut world, &resources, &mut dice) == BehaviorResult::Success);
    assert!(away.tick(&mut world, &resources, &mut dice) == BehaviorResult::Fail);
    assert!(tame.tick(&mut world, &resources, &mut dice) == BehaviorResult::Fail);
}

#[test]
fn approach_steps_towards_the_target() {
    let mut world = World::new();
    let resources = Resources::new();
    let mut dice = Dice::new();
    let player = world.spawn((Player::new(), Pos::new(5, 5)));
    let monster = world.spawn((Pos::new(5, 8), Bump::Attack));
    let node = leaf(Decision::Approach { actor: monster, target: player });
    match node.tick(&mut world, &resources, &mut dice) {
        BehaviorResult::Acting(ActorAction::Move { origin, destination }) => {
            assert_eq!(origin, (5, 8));
            assert_eq!(destination, (5, 7));
        }
        other => panic!("unexpected result {:?}", other),
    }
}

#[test]
fn approach_succeeds_next_to_the_target() {
    let (mut world, player, monster) = arena();
    let resources = Resources::new();
    let mut dice = Dice::new();
    let node = leaf(Decision::Approach { actor: monster, target: player });
    assert!(matches!(node.tick(&mut world, &resources, &mut dice), BehaviorResult::Success));
}

#[test]
fn approach_fails_without_a_way() {
    let mut world = World::new();
    let resources = Resources::new();
    let mut dice = Dice::new();
    for i in 0..=8 {
        world.spawn((Pos::new(i, 0), Bump::BlocksMovement));
        world.spawn((Pos::new(i, 8), Bump::BlocksMovement));
        world.spawn((Pos::new(0, i), Bump::BlocksMovement));
        world.spawn((Pos::new(8, i), Bump::BlocksMovement));
        world.spawn((Pos::new(4, i), Bump::BlocksMovement));
    }
    let player = world.spawn((Player::new(), Pos::new(2, 4)));
    let monster = world.spawn((Pos::new(6, 4), Bump::Attack));
    let placeless = world.spawn((Bump::Attack,));
    let node = leaf(Decision::Approach { actor: monster, target: player });
    assert!(matches!(node.tick(&mut world, &resources, &mut dice), BehaviorResult::Fail));
    let lost = leaf(Decision::Approach { actor: placeless, target: player });
    assert!(matches!(lost.tick(&mut world, &resources, &mut dice), BehaviorResult::Fail));
}

#[test]
fn approach_fails_on_the_tile_of_the_target() {
    let mut world = World::new();
    let resources = Resources::new();
    let mut dice = Dice::new();
    let player = world.spawn((Player::new(), Pos::new(2, 4)));
    let ghost = world.spawn((Pos::new(2, 4),));
    let node = leaf(Decision::Approach { actor: ghost, target: player });
    assert!(matches!(node.tick(&mut world, &resources, &mut dice), BehaviorResult::Fail));
}

#[test]
fn strike_carries_the_attack_of_the_wielded_weapon() {
    let mut world = World::new();
    let resources = Resources::new();
    let mut dice = Dice::new();
    let spear = AttackData { range: Range::Ranged(4), ..claws() };
    let item = world.spawn((Weapon { attack: spear },));
    let player = world.spawn((Player::new(), Pos::new(5, 5)));
    let armed = world.spawn((
        Weapon { attack: claws() },
        Equipment { weapon: Some(item), armor: None },
    ));
    let unarmed = world.spawn((Pos::new(1, 1),));
    let node = leaf(Decision::Strike { actor: armed, target: player });
    match node.tick(&mut world, &resources, &mut dice) {
        BehaviorResult::Acting(ActorAction::Attack { target, weapon }) => {
            assert_eq!(target, player);
            assert_eq!(weapon, Weapon { attack: spear });
        }
        other => panic!("unexpected result {:?}", other),
    }
    let tame = leaf(Decision::Strike { actor: unarmed, target: player });
    assert!(matches!(tame.tick(&mut world, &resources, &mut dice), BehaviorResult::Fail));
}

#[test]
fn tick_leaves_the_world_as_it_is() {
    let (mut world, player, monster) = arena();
    let resources = Resources::new();
    let mut dice = Dice::scripted(vec![99]);
    let tree = BehaviorNode::Erratic(player, 10).build(monster);
    tree.tick(&mut world, &resources, &mut dice);
    assert_eq!(world.len(), 2);
    assert_eq!(*world.get::<Pos>(monster).unwrap(), Pos::new(6, 5));
    assert_eq!(*world.get::<Health>(player).unwrap(), Health::new(10));
}

#[test]
fn built_leaves_do_what_their_names_say() {
    let (mut world, player, monster) = arena();
    let resources = Resources::new();
    let mut dice = Dice::scripted(vec![5]);
    let wander = BehaviorNode::Wander.build(monster).tick(&mut world, &resources, &mut dice);
    assert!(is_wander(&wander));
    let idle = BehaviorNode::Idle.build(monster).tick(&mut world, &resources, &mut dice);
    assert!(is_wait(&idle));
    let debug = BehaviorNode::Debug("note".to_owned()).build(monster);
    assert!(matches!(debug.tick(&mut world, &resources, &mut dice), BehaviorResult::Success));
    let chance = BehaviorNode::PercentChance(6).build(monster);
    assert!(matches!(chance.tick(&mut world, &resources, &mut dice), BehaviorResult::Success));
    let in_fov = BehaviorNode::InFOV.build(monster);
    assert!(matches!(in_fov.tick(&mut world, &resources, &mut dice), BehaviorResult::Success));
    let range = BehaviorNode::DebugRange(player).build(monster);
    assert!(matches!(range.tick(&mut world, &resources, &mut dice), BehaviorResult::Success));
    let near = BehaviorNode::ApproachIntoRange(player).build(monster);
    assert!(matches!(near.tick(&mut world, &resources, &mut dice), BehaviorResult::Success));
    let step = BehaviorNode::ApproachEntity(player).build(monster);
    assert!(matches!(step.tick(&mut world, &resources, &mut dice), BehaviorResult::Success));
    let hit = BehaviorNode::Attack(player).build(monster);
    assert!(matches!(
        hit.tick(&mut world, &resources, &mut dice),
        BehaviorResult::Acting(ActorAction::Attack { .. })
    ));
}

#[test]
fn pursuit_or_wait_waits_when_unseen() {
    let (mut world, player, monster) = arena();
    world.insert_one(monster, Appearance::default()).unwrap();
    let resources = Resources::new();
    let mut dice = Dice::new();
    let tree = BehaviorNode::ApproachAndAttackOrWait(player).build(monster);
    assert!(is_wait(&tree.tick(&mut world, &resources, &mut dice)));
    let chase = BehaviorNode::ApproachAndAttack(player).build(monster);
    assert!(matches!(chase.tick(&mut world, &resources, &mut dice), BehaviorResult::Fail));
}

#[test]
fn erratic_creature_that_never_wanders_strikes_its_neighbour() {
    for seed in 0..20 {
        macroquad::rand::srand(seed);
        let (mut world, player, monster) = arena();
        let resources = Resources::new();
        let mut dice = Dice::new();
        let tree = BehaviorNode::Erratic(player, 0).build(monster);
        match tree.tick(&mut world, &resources, &mut dice) {
            BehaviorResult::Acting(ActorAction::Attack { target, weapon }) => {
                assert_eq!(target, player);
                assert_eq!(weapon, Weapon { attack: claws() });
            }
            other => panic!("unexpected result {:?}", other),
        }
    }
}

#[test]
fn unseen_creature_wanders_whatever_its_policy() {
    let (mut world, player, monster) = arena();
    world.insert_one(monster, Appearance::default()).unwrap();
    let resources = Resources::new();
    for draw in [0u64, 49, 50, 99] {
        let mut dice = Dice::scripted(vec![draw]);
        let erratic = BehaviorNode::Erratic(player, 50).build(monster);
        assert!(is_wander(&erratic.tick(&mut world, &resources, &mut dice)));
        let mut dice = Dice::scripted(vec![draw]);
        let steady = BehaviorNode::ApproachAndAttackOrWander(player).build(monster);
        assert!(is_wander(&steady.tick(&mut world, &resources, &mut dice)));
    }
    let mut dice = Dice::scripted(vec![50]);
    let slow = BehaviorNode::Slow(player, 50).build(monster);
    assert!(is_wander(&slow.tick(&mut world, &resources, &mut dice)));
}

#[test]
fn slow_creature_waits_when_the_dice_say_so() {
    let (mut world, player, monster) = arena();
    let resources = Resources::new();
    let mut dice = Dice::scripted(vec![49]);
    let slow = BehaviorNode::Slow(player, 50).build(monster);
    assert!(is_wait(&slow.tick(&mut world, &resources, &mut dice)));
}

#[test]
fn act_attacks_the_player_next_door() {
    let (mut world, player, monster) = arena();
    let resources = Resources::new();
    let mut dice = Dice::scripted(vec![99, 19, 0, 1]);
    let report = act(&mut world, &resources, monster, Behavior::Erratic(10), &mut dice);
    assert_eq!(
        report,
        Some(AttackReport { hit: true, damage: 2, origin: (6, 5), tile: (5, 5), on_player: true })
    );
    assert_eq!(world.get::<Health>(player).unwrap().current, 8);
    assert_eq!(*world.get::<Pos>(monster).unwrap(), Pos::new(6, 5));
}

#[test]
fn act_moves_a_step_towards_the_player() {
    let mut world = World::new();
    let resources = Resources::new();
    let player = world.spawn((Player::new(), Pos::new(5, 5), Health::new(10)));
    let monster = world.spawn((Pos::new(5, 9), seen(), Bump::Attack, Weapon { attack: claws() }));
    let mut dice = Dice::new();
    let report = act(&mut world, &resources, monster, Behavior::ApproachAndAttack, &mut dice);
    assert_eq!(report, None);
    assert_eq!(*world.get::<Pos>(monster).unwrap(), Pos::new(5, 8));
    assert_eq!(*world.get::<Pos>(player).unwrap(), Pos::new(5, 5));
}

#[test]
fn act_makes_an_unseen_creature_wander_onto_a_free_tile() {
    let mut world = World::new();
    let resources = Resources::new();
    world.spawn((Player::new(), Pos::new(5, 5)));
    world.spawn((Pos::new(1, 2), Bump::BlocksMovement));
    let monster = world.spawn((Pos::new(2, 2), Bump::Attack, Weapon { attack: claws() }));
    let mut dice = Dice::scripted(vec![1]);
    let report = act(&mut world, &resources, monster, Behavior::ApproachAndAttack, &mut dice);
    assert_eq!(report, None);
    assert_eq!(*world.get::<Pos>(monster).unwrap(), Pos::new(2, 1));
}

#[test]
fn act_leaves_a_hemmed_in_wanderer_where_it_is() {
    let mut world = World::new();
    let resources = Resources::new();
    world.spawn((Player::new(), Pos::new(9, 9)));
    world.spawn((Pos::new(1, 2), Bump::BlocksMovement));
    world.spawn((Pos::new(3, 2), Bump::BlocksMovement));
    world.spawn((Pos::new(2, 1), Bump::BlocksMovement));
    world.spawn((Pos::new(2, 3), Bump::BlocksMovement));
    let monster = world.spawn((Pos::new(2, 2), Bump::Attack));
    let mut dice = Dice::scripted(vec![0]);
    let report = act(&mut world, &resources, monster, Behavior::ApproachAndAttack, &mut dice);
    assert_eq!(report, None);
    assert_eq!(*world.get::<Pos>(monster).unwrap(), Pos::new(2, 2));
    assert_eq!(dice.roll(100), 0);
}

#[test]
fn act_lets_a_slow_creature_wait() {
    let (mut world, player, monster) = arena();
    let resources = Resources::new();
    let mut dice = Dice::scripted(vec![0]);
    let report = act(&mut world, &resources, monster, Behavior::Slow(50), &mut dice);
    assert_eq!(report, None);
    assert_eq!(*world.get::<Pos>(monster).unwrap(), Pos::new(6, 5));
    assert_eq!(world.get::<Health>(player).unwrap().current, 10);
}

#[test]
fn act_toward_goes_for_the_given_target() {
    let mut world = World::new();
    let resources = Resources::new();
    world.spawn((Player::new(), Pos::new(50, 50)));
    let bait = world.spawn((Pos::new(3, 1), Health::new(1)));
    let monster = world.spawn((Pos::new(2, 1), seen(), Weapon { attack: claws() }));
    let mut dice = Dice::scripted(vec![19, 0, 0]);
    let report =
        act_toward(&mut world, &resources, monster, Behavior::ApproachAndAttack, bait, &mut dice);
    assert_eq!(
        report,
        Some(AttackReport { hit: true, damage: 1, origin: (2, 1), tile: (3, 1), on_player: false })
    );
    assert!(!world.contains(bait));
}

#[test]
fn creature_with_a_short_ranged_attack_strikes_its_neighbour_too() {
    let mut world = World::new();
    let resources = Resources::new();
    let spear = AttackData { range: Range::Ranged(-1), ..claws() };
    let player = world.spawn((Player::new(), Pos::new(5, 5), Health::new(10)));
    let monster = world.spawn((Pos::new(5, 6), seen(), Bump::Attack, Weapon { attack: spear }));
    let mut dice = Dice::scripted(vec![99]);
    let tree = BehaviorNode::Erratic(player, 0).build(monster);
    match tree.tick(&mut world, &resources, &mut dice) {
        BehaviorResult::Acting(ActorAction::Attack { target, weapon }) => {
            assert_eq!(target, player);
            assert_eq!(weapon, Weapon { attack: spear });
        }
        other => panic!("unexpected result {:?}", other),
    }
}
