use ended::combat::{
    applied_damage, attack, get_attack, get_defense, is_hit, remove_dead_entities, resolve_attack,
    AttackData, AttackReport, Range,
};
use ended::components::{Bump, Defense, Equipment, Health, Player, Pos, Weapon};
use ended::dice::Dice;
use hecs::World;

fn sword() -> AttackData {
    AttackData { range: Range::Meele, damage_low: 2, damage_high: 5, to_hit: 0, axe: false }
}

#[test]
fn hit_needs_more_than_dodging_plus_ten() {
    assert!(!is_hit(0, 0, 10));
    assert!(is_hit(0, 0, 11));
    assert!(is_hit(5, 0, 6));
    assert!(!is_hit(5, 0, 5));
    assert!(!is_hit(0, 9, 19));
    assert!(is_hit(0, 8, 19));
}

#[test]
fn sure_hit_on_every_roll() {
    for roll in 0..20 {
        assert!(is_hit(100, -100, roll));
    }
}

#[test]
fn sure_miss_on_every_roll() {
    for roll in 0..20 {
        assert!(!is_hit(-100, 100, roll));
    }
}

#[test]
fn hit_roll_does_not_overflow() {
    assert!(is_hit(i32::MAX, i64::from(i32::MIN) * 2, u64::MAX));
    assert!(!is_hit(i32::MIN, i64::from(i32::MAX) * 2, 0));
}

#[test]
fn applied_damage_is_floored_at_zero() {
    assert_eq!(applied_damage(5, 2), 3);
    assert_eq!(applied_damage(5, 0), 5);
    assert_eq!(applied_damage(2, 5), 0);
    assert_eq!(applied_damage(2, 2), 0);
    assert_eq!(applied_damage(-3, 0), 0);
    assert_eq!(applied_damage(i32::MAX, u32::MAX), 0);
    assert_eq!(applied_damage(i32::MAX, 0), i32::MAX);
}

#[test]
fn defense_defaults_to_nothing() {
    let mut world = World::new();
    let bare = world.spawn((Pos::new(0, 0),));
    assert_eq!(get_defense(&mut world, bare), (0, 0));
    assert_eq!(Defense::default(), Defense { dodging: 0, armor: 0 });
}

#[test]
fn defense_adds_the_armor_that_is_worn() {
    let mut world = World::new();
    let armor = world.spawn((Defense { dodging: -2, armor: 2 },));
    let knight = world.spawn((
        Defense { dodging: 3, armor: 1 },
        Equipment { weapon: None, armor: Some(armor) },
    ));
    let squire = world.spawn((Equipment { weapon: None, armor: Some(armor) },));
    let plain = world.spawn((Defense { dodging: 3, armor: 1 },));
    assert_eq!(get_defense(&mut world, knight), (1, 3));
    assert_eq!(get_defense(&mut world, squire), (-2, 2));
    assert_eq!(get_defense(&mut world, plain), (3, 1));
}

#[test]
fn defense_adds_without_overflow() {
    let mut world = World::new();
    let armor = world.spawn((Defense { dodging: i32::MAX, armor: i32::MAX },));
    let knight = world.spawn((
        Defense { dodging: i32::MAX, armor: i32::MAX },
        Equipment { weapon: None, armor: Some(armor) },
    ));
    assert_eq!(get_defense(&mut world, knight), (4_294_967_294, 4_294_967_294));
}

#[test]
fn attack_is_that_of_the_wielded_weapon_first() {
    let mut world = World::new();
    let claws = AttackData { damage_low: 1, damage_high: 1, ..sword() };
    let blade = world.spawn((Weapon { attack: sword() },));
    let stick = world.spawn((Pos::new(0, 0),));
    let armed = world.spawn((
        Weapon { attack: claws },
        Equipment { weapon: Some(blade), armor: None },
    ));
    let natural = world.spawn((Weapon { attack: claws },));
    let fooled = world.spawn((
        Weapon { attack: claws },
        Equipment { weapon: Some(stick), armor: None },
    ));
    let harmless = world.spawn((Pos::new(1, 1),));
    assert_eq!(get_attack(&mut world, armed), Some(sword()));
    assert_eq!(get_attack(&mut world, natural), Some(claws));
    assert_eq!(get_attack(&mut world, fooled), Some(claws));
    assert_eq!(get_attack(&mut world, harmless), None);
}

#[test]
fn attack_that_hits_takes_the_damage_from_health() {
    let mut world = World::new();
    let attacker = world.spawn((Pos::new(1, 1),));
    let target = world.spawn((Pos::new(2, 1), Health::new(10), Defense { dodging: 0, armor: 3 }));
    let mut dice = Dice::scripted(vec![15, 1, 2]);
    let report = attack(&mut world, attacker, target, sword(), &mut dice);
    assert_eq!(
        report,
        AttackReport { hit: true, damage: 3, origin: (1, 1), tile: (2, 1), on_player: false }
    );
    assert_eq!(world.get::<Health>(target).unwrap().current, 7);
    assert_eq!(world.get::<Health>(target).unwrap().max, 10);
}

#[test]
fn attack_that_misses_changes_nothing_and_draws_once() {
    let mut world = World::new();
    let attacker = world.spawn((Pos::new(1, 1),));
    let target = world.spawn((Pos::new(2, 1), Health::new(10)));
    let mut dice = Dice::scripted(vec![10, 42, 43]);
    let report = attack(&mut world, attacker, target, sword(), &mut dice);
    assert_eq!(
        report,
        AttackReport { hit: false, damage: 0, origin: (1, 1), tile: (2, 1), on_player: false }
    );
    assert_eq!(world.get::<Health>(target).unwrap().current, 10);
    assert_eq!(dice.roll(100), 42);
}

#[test]
fn attack_against_no_armor_deals_the_raw_damage() {
    let mut world = World::new();
    let attacker = world.spawn((Pos::new(1, 1),));
    let target = world.spawn((Pos::new(1, 2), Health::new(10)));
    let mut dice = Dice::scripted(vec![19, 0, 3]);
    let report = attack(&mut world, attacker, target, sword(), &mut dice);
    assert_eq!(report.damage, 5);
    assert_eq!(world.get::<Health>(target).unwrap().current, 5);
}

#[test]
fn attack_damage_is_never_negative() {
    let mut world = World::new();
    let attacker = world.spawn((Pos::new(1, 1),));
    let target = world.spawn((Pos::new(1, 2), Health::new(10), Defense { dodging: 0, armor: 9 }));
    let mut dice = Dice::scripted(vec![19, 9, 0]);
    let report = attack(&mut world, attacker, target, sword(), &mut dice);
    assert!(report.hit);
    assert_eq!(report.damage, 0);
    assert_eq!(world.get::<Health>(target).unwrap().current, 10);
}

#[test]
fn attack_with_a_sure_hit_always_hits() {
    let sure = AttackData { to_hit: 100, ..sword() };
    for seed in 0..50 {
        macroquad::rand::srand(seed);
        let mut world = World::new();
        let attacker = world.spawn((Pos::new(1, 1),));
        let target = world.spawn((
            Pos::new(1, 2),
            Health::new(1000),
            Defense { dodging: -100, armor: 0 },
        ));
        let mut dice = Dice::new();
        let report = attack(&mut world, attacker, target, sure, &mut dice);
        assert!(report.hit);
        assert!(report.damage >= 2 && report.damage <= 5);
        assert_eq!(world.get::<Health>(target).unwrap().current, 1000 - report.damage);
    }
}

#[test]
fn attack_removes_the_dead() {
    let mut world = World::new();
    let attacker = world.spawn((Pos::new(1, 1),));
    let target = world.spawn((Pos::new(2, 1), Health::new(3)));
    let bystander = world.spawn((Pos::new(9, 9), Health::new(1)));
    let corpse = world.spawn((Health { max: 5, current: 0 },));
    let mut dice = Dice::scripted(vec![19, 0, 1]);
    let report = attack(&mut world, attacker, target, sword(), &mut dice);
    assert_eq!(report.damage, 3);
    assert!(!world.contains(target));
    assert!(!world.contains(corpse));
    assert!(world.contains(bystander));
    assert!(world.contains(attacker));
}

#[test]
fn attack_never_removes_the_player() {
    let mut world = World::new();
    let attacker = world.spawn((Pos::new(1, 1),));
    let player = world.spawn((Player::new(), Pos::new(2, 1), Health::new(2)));
    let mut dice = Dice::scripted(vec![19, 0, 3]);
    let report = attack(&mut world, attacker, player, sword(), &mut dice);
    assert_eq!(
        report,
        AttackReport { hit: true, damage: 5, origin: (1, 1), tile: (2, 1), on_player: true }
    );
    assert!(world.contains(player));
    assert_eq!(world.get::<Health>(player).unwrap().current, -3);
}

#[test]
fn attack_on_something_without_health_only_reports() {
    let mut world = World::new();
    let attacker = world.spawn((Pos::new(1, 1),));
    let door = world.spawn((Pos::new(2, 1),));
    let mut dice = Dice::scripted(vec![19, 0, 0]);
    let report = attack(&mut world, attacker, door, sword(), &mut dice);
    assert!(report.hit);
    assert_eq!(report.damage, 2);
    assert!(world.contains(door));
}

#[test]
fn attack_with_an_empty_damage_interval_deals_its_lower_end() {
    let odd = AttackData { damage_low: 4, damage_high: 1, ..sword() };
    let mut world = World::new();
    let attacker = world.spawn((Pos::new(1, 1),));
    let target = world.spawn((Pos::new(2, 1), Health::new(10), Defense { dodging: 0, armor: -5 }));
    let mut dice = Dice::scripted(vec![19, 0, 0]);
    let report = attack(&mut world, attacker, target, odd, &mut dice);
    assert_eq!(report.damage, 4);
    assert_eq!(world.get::<Health>(target).unwrap().current, 6);
}

#[test]
fn health_stops_at_its_lowest_value() {
    let heavy = AttackData { damage_low: i32::MAX, damage_high: i32::MAX, ..sword() };
    let mut world = World::new();
    let attacker = world.spawn((Pos::new(1, 1),));
    let player = world.spawn((
        Player::new(),
        Pos::new(2, 1),
        Health { max: 1, current: i32::MIN + 5 },
    ));
    let mut dice = Dice::scripted(vec![19, 0, 0]);
    attack(&mut world, attacker, player, heavy, &mut dice);
    assert_eq!(world.get::<Health>(player).unwrap().current, i32::MIN);
}

#[test]
fn sweep_removes_the_dead_and_spares_players() {
    let mut world = World::new();
    let dead = world.spawn((Health { max: 3, current: 0 },));
    let deader = world.spawn((Health { max: 3, current: -7 },));
    let alive = world.spawn((Health { max: 3, current: 1 },));
    let thing = world.spawn((Pos::new(0, 0),));
    let player = world.spawn((Player::new(), Health { max: 3, current: -1 }));
    remove_dead_entities(&mut world);
    assert!(!world.contains(dead));
    assert!(!world.contains(deader));
    assert!(world.contains(alive));
    assert!(world.contains(thing));
    assert!(world.contains(player));
    assert_eq!(world.get::<Health>(player).unwrap().current, -1);
}

#[test]
fn sweep_of_a_world_without_player_works() {
    let mut world = World::new();
    let dead = world.spawn((Health { max: 3, current: 0 },));
    remove_dead_entities(&mut world);
    assert!(!world.contains(dead));
    assert_eq!(world.len(), 0);
}

#[test]
fn health_starts_full() {
    assert_eq!(Health::new(7), Health { max: 7, current: 7 });
}

#[test]
fn plain_attack_strikes_its_target_alone() {
    let mut world = World::new();
    let attacker = world.spawn((Player::new(), Pos::new(5, 5)));
    let target = world.spawn((Pos::new(6, 5), Health::new(10), Bump::Attack));
    let other = world.spawn((Pos::new(4, 5), Health::new(10), Bump::Attack));
    let mut dice = Dice::scripted(vec![19, 0, 1, 19, 0, 1]);
    let reports = resolve_attack(&mut world, attacker, target, sword(), &mut dice);
    assert_eq!(
        reports,
        vec![AttackReport { hit: true, damage: 3, origin: (5, 5), tile: (6, 5), on_player: false }]
    );
    assert_eq!(world.get::<Health>(target).unwrap().current, 7);
    assert_eq!(world.get::<Health>(other).unwrap().current, 10);
    assert_eq!(dice.roll(20), 19);
}

#[test]
fn sweeping_attack_strikes_everything_around() {
    let axe = AttackData { axe: true, damage_low: 2, damage_high: 2, ..sword() };
    let mut world = World::new();
    let attacker = world.spawn((Player::new(), Pos::new(5, 5), Health::new(10)));
    let beside = world.spawn((Pos::new(6, 5), Health::new(10), Bump::Attack));
    let diagonal = world.spawn((Pos::new(4, 4), Health::new(10), Bump::Attack));
    let far = world.spawn((Pos::new(7, 5), Health::new(10), Bump::Attack));
    let wall = world.spawn((Pos::new(5, 6), Health::new(10), Bump::BlocksMovement));
    let mut dice = Dice::scripted(vec![19, 0, 0, 19, 0, 0]);
    let mut reports = resolve_attack(&mut world, attacker, far, axe, &mut dice);
    reports.sort_by_key(|report| report.tile);
    assert_eq!(
        reports,
        vec![
            AttackReport { hit: true, damage: 2, origin: (5, 5), tile: (4, 4), on_player: false },
            AttackReport { hit: true, damage: 2, origin: (5, 5), tile: (6, 5), on_player: false },
        ]
    );
    assert_eq!(world.get::<Health>(beside).unwrap().current, 8);
    assert_eq!(world.get::<Health>(diagonal).unwrap().current, 8);
    assert_eq!(world.get::<Health>(far).unwrap().current, 10);
    assert_eq!(world.get::<Health>(wall).unwrap().current, 10);
    assert_eq!(world.get::<Health>(attacker).unwrap().current, 10);
}

#[test]
fn sweeping_attack_with_nothing_around_does_nothing() {
    let axe = AttackData { axe: true, ..sword() };
    let mut world = World::new();
    let attacker = world.spawn((Player::new(), Pos::new(5, 5)));
    let far = world.spawn((Pos::new(7, 5), Health::new(10), Bump::Attack));
    let mut dice = Dice::scripted(vec![19]);
    let reports = resolve_attack(&mut world, attacker, far, axe, &mut dice);
    assert_eq!(reports, vec![]);
    assert_eq!(dice.roll(20), 19);
}

#[test]
fn attack_on_a_target_without_a_place_is_left_out() {
    let mut world = World::new();
    let attacker = world.spawn((Player::new(), Pos::new(5, 5)));
    let nowhere = world.spawn((Health::new(10), Bump::Attack));
    let mut dice = Dice::scripted(vec![19]);
    let reports = resolve_attack(&mut world, attacker, nowhere, sword(), &mut dice);
    assert_eq!(reports, vec![]);
    assert_eq!(world.get::<Health>(nowhere).unwrap().current, 10);
    assert_eq!(dice.roll(20), 19);
}

#[test]
fn sweeping_attack_goes_on_after_a_kill() {
    let axe = AttackData { axe: true, damage_low: 9, damage_high: 9, ..sword() };
    let mut world = World::new();
    let attacker = world.spawn((Player::new(), Pos::new(5, 5)));
    let a = world.spawn((Pos::new(6, 5), Health::new(5), Bump::Attack));
    let b = world.spawn((Pos::new(5, 4), Health::new(5), Bump::Attack));
    let mut dice = Dice::scripted(vec![19, 0, 0, 19, 0, 0]);
    let reports = resolve_attack(&mut world, attacker, a, axe, &mut dice);
    assert_eq!(reports.len(), 2);
    assert!(!world.contains(a));
    assert!(!world.contains(b));
    assert!(world.contains(attacker));
}
