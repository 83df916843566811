//! What a level can be filled with, and the templates of its layout.
use crate::dungeon_gen::DungeonTemplate;
use crate::factory::EntityKind;
use vstd::prelude::*;

verus! {

/// The creatures, the weakest first.
pub fn enemies() -> (list: Vec<EntityKind>)
    ensures
        list@ == seq![
            EntityKind::Bat,
            EntityKind::Rat,
            EntityKind::Centipede,
            EntityKind::Zombie,
            EntityKind::Wizard,
        ],
{
    let mut list: Vec<EntityKind> = Vec::new();
    list.push(EntityKind::Bat);
    list.push(EntityKind::Rat);
    list.push(EntityKind::Centipede);
    list.push(EntityKind::Zombie);
    list.push(EntityKind::Wizard);
    assert(list@ =~= seq![
        EntityKind::Bat,
        EntityKind::Rat,
        EntityKind::Centipede,
        EntityKind::Zombie,
        EntityKind::Wizard,
    ]);
    list
}

/// The things that can be found.
pub fn items() -> (list: Vec<EntityKind>)
    ensures
        list@ == seq![
            EntityKind::HealthPotion,
            EntityKind::Sword,
            EntityKind::Axe,
            EntityKind::Armor,
        ],
{
    let mut list: Vec<EntityKind> = Vec::new();
    list.push(EntityKind::HealthPotion);
    list.push(EntityKind::Sword);
    list.push(EntityKind::Axe);
    list.push(EntityKind::Armor);
    assert(list@ =~= seq![
        EntityKind::HealthPotion,
        EntityKind::Sword,
        EntityKind::Axe,
        EntityKind::Armor,
    ]);
    list
}

/// A template with one treasure room and at most one dangerous room.
fn template(
    entrance: usize,
    exit: usize,
    treasure: usize,
    danger: Option<usize>,
    doors: [u8; 12],
) -> (t: DungeonTemplate)
    requires
        entrance < 9,
        exit < 9,
        treasure < 9,
        danger matches Some(room) ==> room < 9,
    ensures
        t.well_formed(),
        t.entrance == entrance,
        t.exit == exit,
        t.doors == doors,
        t.treasure_rooms@ == seq![treasure],
        t.danger_rooms@ == (match danger {
            Some(room) => seq![room],
            None => Seq::<usize>::empty(),
        }),
{
    let mut treasure_rooms: Vec<usize> = Vec::new();
    treasure_rooms.push(treasure);
    let mut danger_rooms: Vec<usize> = Vec::new();
    if let Some(room) = danger {
        danger_rooms.push(room);
    }
    assert(treasure_rooms@ =~= seq![treasure]);
    assert(danger_rooms@ =~= (match danger {
        Some(room) => seq![room],
        None => Seq::<usize>::empty(),
    }));
    DungeonTemplate { entrance, exit, doors, treasure_rooms, danger_rooms }
}

/// The six layouts from which a level is made by turning and swapping.
pub fn dungeon_templates() -> (list: Vec<DungeonTemplate>)
    ensures
        list@.len() == 6,
        forall|i: int| 0 <= i < 6 ==> (#[trigger] list@[i]).well_formed(),
        list@[0].entrance == 3 && list@[0].exit == 4,
        list@[1].entrance == 0 && list@[1].exit == 7,
        list@[2].entrance == 4 && list@[2].exit == 0,
        list@[3].entrance == 4 && list@[3].exit == 5,
        list@[4].entrance == 4 && list@[4].exit == 5,
        list@[5].entrance == 0 && list@[5].exit == 2,
{
    let mut list: Vec<DungeonTemplate> = Vec::new();
    list.push(template(3, 4, 2, Some(8), [1, 1, 1, 0, 1, 0, 1, 1, 0, 1, 1, 1]));
    list.push(template(0, 7, 8, Some(8), [1, 1, 0, 0, 1, 1, 1, 1, 0, 0, 1, 1]));
    list.push(template(4, 0, 8, None, [1, 1, 0, 1, 1, 1, 1, 0, 1, 0, 1, 1]));
    list.push(template(4, 5, 7, Some(8), [1, 1, 1, 0, 1, 1, 0, 1, 0, 0, 1, 1]));
    list.push(template(4, 5, 2, Some(6), [0, 1, 1, 1, 0, 1, 0, 1, 1, 1, 0, 1]));
    list.push(template(0, 2, 8, Some(7), [0, 0, 1, 1, 1, 1, 1, 1, 1, 1, 1, 0]));
    list
}

} // verus!
