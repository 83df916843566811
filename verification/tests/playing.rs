use ended::combat::{AttackData, Range};
use ended::components::{
    Appearance, BlocksSight, Bump, Equipable, Equipment, Health, Item, OnLevel, Player, Pos,
    Useable, Weapon,
};
use ended::dice::Dice;
use ended::movement::Dir;
use ended::resources::Resources;
use ended::states::game::{
    drop_item, equip_item, pick_up, player_actions, player_actions_of, remove_all, use_item, walk,
    PlayerAction,
};
use hecs::{Entity, World};

fn fists() -> AttackData {
    AttackData { range: Range::Meele, damage_low: 1, damage_high: 2, to_hit: 0, axe: false }
}

fn hero(world: &mut World, x: i32, y: i32) -> Entity {
    world.spawn((
        Player::new(),
        Pos::new(x, y),
        Health { max: 10, current: 4 },
        Equipment { weapon: None, armor: None },
        Weapon { attack: fists() },
    ))
}

#[test]
fn remove_all_takes_out_every_occurrence() {
    let mut world = World::new();
    let a = world.spawn(());
    let b = world.spawn(());
    let c = world.spawn(());
    let mut list = vec![a, b, a, c, a];
    remove_all(&mut list, a);
    assert_eq!(list, vec![b, c]);
    remove_all(&mut list, a);
    assert_eq!(list, vec![b, c]);
    remove_all(&mut list, c);
    assert_eq!(list, vec![b]);
}

#[test]
fn walking_onto_a_free_tile_moves_the_player() {
    let mut world = World::new();
    let mut resources = Resources::new();
    let mut dice = Dice::new();
    let me = hero(&mut world, 5, 5);
    world.spawn((Pos::new(5, 4),));
    let step = walk(&mut world, &mut resources, me, Dir::N, &mut dice);
    assert!(step.taken);
    assert_eq!(step.bumped, None);
    assert!(step.reports.is_empty());
    assert_eq!(*world.get::<Pos>(me).unwrap(), Pos::new(5, 4));
    walk(&mut world, &mut resources, me, Dir::E, &mut dice);
    walk(&mut world, &mut resources, me, Dir::S, &mut dice);
    walk(&mut world, &mut resources, me, Dir::S, &mut dice);
    walk(&mut world, &mut resources, me, Dir::W, &mut dice);
    assert_eq!(*world.get::<Pos>(me).unwrap(), Pos::new(5, 6));
}

#[test]
fn walking_into_a_wall_does_nothing() {
    let mut world = World::new();
    let mut resources = Resources::new();
    let mut dice = Dice::new();
    let me = hero(&mut world, 5, 5);
    let wall = world.spawn((Pos::new(6, 5), Bump::BlocksMovement, BlocksSight));
    let step = walk(&mut world, &mut resources, me, Dir::E, &mut dice);
    assert!(!step.taken);
    assert_eq!(step.bumped, Some(wall));
    assert_eq!(*world.get::<Pos>(me).unwrap(), Pos::new(5, 5));
    assert!(world.get::<Bump>(wall).is_ok());
}

#[test]
fn walking_into_a_door_opens_it() {
    let mut world = World::new();
    let mut resources = Resources::new();
    let mut dice = Dice::new();
    let me = hero(&mut world, 5, 5);
    let door = world.spawn((
        Pos::new(5, 6),
        Bump::OpenDoor,
        BlocksSight,
        Appearance { sprite: 6, ..Appearance::default() },
    ));
    let step = walk(&mut world, &mut resources, me, Dir::S, &mut dice);
    assert!(step.taken);
    assert_eq!(step.bumped, Some(door));
    assert_eq!(*world.get::<Pos>(me).unwrap(), Pos::new(5, 5));
    assert!(world.get::<Bump>(door).is_err());
    assert!(world.get::<BlocksSight>(door).is_err());
    assert_eq!(world.get::<Appearance>(door).unwrap().sprite, 7);
    let step = walk(&mut world, &mut resources, me, Dir::S, &mut dice);
    assert!(step.taken);
    assert_eq!(*world.get::<Pos>(me).unwrap(), Pos::new(5, 6));
}

#[test]
fn walking_into_a_creature_attacks_it() {
    let mut world = World::new();
    let mut resources = Resources::new();
    let mut dice = Dice::scripted(vec![19, 0, 1]);
    let me = hero(&mut world, 5, 5);
    let rat = world.spawn((Pos::new(4, 5), Bump::Attack, Health::new(5)));
    let step = walk(&mut world, &mut resources, me, Dir::W, &mut dice);
    assert!(step.taken);
    assert_eq!(step.bumped, Some(rat));
    assert_eq!(step.reports.len(), 1);
    assert!(step.reports[0].hit);
    assert_eq!(step.reports[0].damage, 2);
    assert_eq!(step.reports[0].tile, (4, 5));
    assert_eq!(world.get::<Health>(rat).unwrap().current, 3);
    assert_eq!(*world.get::<Pos>(me).unwrap(), Pos::new(5, 5));
}

#[test]
fn walking_into_a_creature_with_an_axe_strikes_all_around() {
    let mut world = World::new();
    let mut resources = Resources::new();
    let mut dice = Dice::scripted(vec![19, 0, 0, 19, 0, 0]);
    let me = hero(&mut world, 5, 5);
    let axe = world.spawn((Weapon { attack: AttackData { axe: true, ..fists() } },));
    world.insert_one(me, Equipment { weapon: Some(axe), armor: None }).unwrap();
    let rat = world.spawn((Pos::new(4, 5), Bump::Attack, Health::new(5)));
    let bat = world.spawn((Pos::new(6, 6), Bump::Attack, Health::new(5)));
    let step = walk(&mut world, &mut resources, me, Dir::W, &mut dice);
    assert!(step.taken);
    assert_eq!(step.reports.len(), 2);
    assert_eq!(world.get::<Health>(rat).unwrap().current, 4);
    assert_eq!(world.get::<Health>(bat).unwrap().current, 4);
}

#[test]
fn walking_unarmed_into_a_creature_does_nothing() {
    let mut world = World::new();
    let mut resources = Resources::new();
    let mut dice = Dice::scripted(vec![19]);
    let me = world.spawn((Player::new(), Pos::new(5, 5)));
    let rat = world.spawn((Pos::new(4, 5), Bump::Attack, Health::new(5)));
    let step = walk(&mut world, &mut resources, me, Dir::W, &mut dice);
    assert!(!step.taken);
    assert_eq!(step.bumped, Some(rat));
    assert!(step.reports.is_empty());
    assert_eq!(dice.roll(20), 19);
}

#[test]
fn walking_onto_stairs_asks_for_a_new_level() {
    let mut world = World::new();
    let mut resources = Resources::new();
    let mut dice = Dice::new();
    let me = hero(&mut world, 5, 5);
    world.spawn((Pos::new(5, 4), Bump::NextLevel));
    let step = walk(&mut world, &mut resources, me, Dir::N, &mut dice);
    assert!(!step.taken);
    assert!(resources.new_level_request);
    assert_eq!(*world.get::<Pos>(me).unwrap(), Pos::new(5, 5));
}

#[test]
fn walking_off_the_grid_or_without_a_place_does_nothing() {
    let mut world = World::new();
    let mut resources = Resources::new();
    let mut dice = Dice::new();
    let me = hero(&mut world, i32::MAX, i32::MIN);
    assert!(!walk(&mut world, &mut resources, me, Dir::E, &mut dice).taken);
    assert!(!walk(&mut world, &mut resources, me, Dir::N, &mut dice).taken);
    assert_eq!(*world.get::<Pos>(me).unwrap(), Pos::new(i32::MAX, i32::MIN));
    let nowhere = world.spawn((Player::new(),));
    assert!(!walk(&mut world, &mut resources, nowhere, Dir::E, &mut dice).taken);
}

#[test]
fn picking_up_and_dropping_moves_items_between_level_and_pack() {
    let mut world = World::new();
    let mut resources = Resources::new();
    let sword = world.spawn((Pos::new(3, 3), OnLevel, Item));
    pick_up(&mut world, &mut resources, sword);
    assert!(world.get::<Pos>(sword).is_err());
    assert!(world.get::<OnLevel>(sword).is_err());
    assert!(world.get::<Item>(sword).is_ok());
    assert_eq!(resources.player.inventory, vec![sword]);
    drop_item(&mut world, &mut resources, sword, Pos::new(7, 8));
    assert_eq!(*world.get::<Pos>(sword).unwrap(), Pos::new(7, 8));
    assert!(world.get::<OnLevel>(sword).is_ok());
    assert!(resources.player.inventory.is_empty());
}

#[test]
fn equipping_swaps_what_is_worn() {
    let mut world = World::new();
    let mut resources = Resources::new();
    let me = hero(&mut world, 5, 5);
    let sword = world.spawn((Item, Equipable::Weapon, Weapon { attack: fists() }));
    let axe = world.spawn((Item, Equipable::Weapon, Weapon { attack: fists() }));
    let mail = world.spawn((Item, Equipable::Armor));
    let potion = world.spawn((Item, Useable::Heal));
    resources.player.inventory = vec![sword, axe, mail, potion];
    equip_item(&mut world, &mut resources, me, sword);
    assert_eq!(*world.get::<Equipment>(me).unwrap(), Equipment { weapon: Some(sword), armor: None });
    assert_eq!(resources.player.inventory, vec![axe, mail, potion]);
    equip_item(&mut world, &mut resources, me, axe);
    assert_eq!(*world.get::<Equipment>(me).unwrap(), Equipment { weapon: Some(axe), armor: None });
    assert_eq!(resources.player.inventory, vec![mail, potion, sword]);
    equip_item(&mut world, &mut resources, me, mail);
    assert_eq!(
        *world.get::<Equipment>(me).unwrap(),
        Equipment { weapon: Some(axe), armor: Some(mail) }
    );
    assert_eq!(resources.player.inventory, vec![potion, sword]);
    equip_item(&mut world, &mut resources, me, potion);
    assert_eq!(resources.player.inventory, vec![potion, sword]);
}

#[test]
fn using_a_potion_heals_and_uses_it_up() {
    let mut world = World::new();
    let mut resources = Resources::new();
    let me = hero(&mut world, 5, 5);
    let potion = world.spawn((Item, Useable::Heal));
    let sword = world.spawn((Item, Equipable::Weapon));
    resources.player.inventory = vec![potion, sword];
    assert!(!use_item(&mut world, &mut resources, me, sword));
    assert_eq!(resources.player.inventory, vec![potion, sword]);
    assert!(use_item(&mut world, &mut resources, me, potion));
    assert_eq!(*world.get::<Health>(me).unwrap(), Health { max: 10, current: 10 });
    assert_eq!(resources.player.inventory, vec![sword]);
}

#[test]
fn using_a_potion_on_one_without_health_still_uses_it_up() {
    let mut world = World::new();
    let mut resources = Resources::new();
    let me = world.spawn((Player::new(), Pos::new(1, 1)));
    let potion = world.spawn((Item, Useable::Heal));
    resources.player.inventory = vec![potion];
    assert!(!use_item(&mut world, &mut resources, me, potion));
    assert!(resources.player.inventory.is_empty());
}

#[test]
fn a_turn_does_its_actions_in_order() {
    let mut world = World::new();
    let mut resources = Resources::new();
    let mut dice = Dice::new();
    let me = hero(&mut world, 5, 5);
    let sword = world.spawn((Pos::new(5, 5), OnLevel, Item, Equipable::Weapon));
    let actions = vec![
        PlayerAction::PickUpItem(sword),
        PlayerAction::TryWalk(Dir::E),
        PlayerAction::DropItem(sword),
    ];
    let played = player_actions(&mut world, &mut resources, actions, &mut dice);
    assert!(played.taken);
    assert!(played.reports.is_empty());
    assert_eq!(*world.get::<Pos>(me).unwrap(), Pos::new(6, 5));
    assert_eq!(*world.get::<Pos>(sword).unwrap(), Pos::new(5, 5));
    assert!(resources.player.inventory.is_empty());
}

#[test]
fn a_turn_without_effect_is_not_taken() {
    let mut world = World::new();
    let mut resources = Resources::new();
    let mut dice = Dice::new();
    let me = hero(&mut world, 5, 5);
    world.spawn((Pos::new(6, 5), Bump::BlocksMovement));
    let sword = world.spawn((Item,));
    let actions = vec![PlayerAction::TryWalk(Dir::E), PlayerAction::UseItem(sword)];
    let played =
        player_actions_of(&mut world, &mut resources, me, Pos::new(5, 5), actions, &mut dice);
    assert!(!played.taken);
    let played =
        player_actions_of(&mut world, &mut resources, me, Pos::new(5, 5), vec![], &mut dice);
    assert!(!played.taken);
    let waited = player_actions_of(
        &mut world,
        &mut resources,
        me,
        Pos::new(5, 5),
        vec![PlayerAction::Wait],
        &mut dice,
    );
    assert!(waited.taken);
    let tried = player_actions_of(
        &mut world,
        &mut resources,
        me,
        Pos::new(5, 5),
        vec![PlayerAction::EquipItem(sword)],
        &mut dice,
    );
    assert!(tried.taken);
}
