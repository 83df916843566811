//! How long a creature remembers the player.
use crate::components::MonsterMemory;
use crate::resources::Resources;
use crate::store::{
    bodies, contents, lemma_listed_next, listed_before, lists_bodies, mind_of, put_memory, Mind,
    Record,
};
use hecs::{Entity, World};
use vstd::prelude::*;

verus! {

/// The memory of a creature one turn later: a turn shorter if any is left,
/// and back at full strength if the player sees the creature.
pub open spec fn recalled(r: Record) -> Record {
    match r.mind.memory {
        Some(memory) => {
            let faded: i32 = if memory.time_to_remember > 0 {
                (memory.time_to_remember - 1) as i32
            } else {
                memory.time_to_remember
            };
            let kept: i32 = if r.body.appearance is Some && r.body.appearance->0.in_fov {
                memory.strength
            } else {
                faded
            };
            Record {
                mind: Mind {
                    memory: Some(MonsterMemory { time_to_remember: kept, strength: memory.strength }),
                    ..r.mind
                },
                ..r
            }
        },
        None => r,
    }
}


/// Lets a turn pass for the memory of every creature.
pub fn memory_system(world: &mut World, _resources: &mut Resources)
    ensures
        *final(_resources) == *old(_resources),
        forall|e: Entity|
            #[trigger] contents(*final(world)).dom().contains(e) <==> contents(
                *old(world),
            ).dom().contains(e),
        forall|e: Entity|
            contents(*old(world)).dom().contains(e) ==> #[trigger] contents(*final(world))[e]
                == recalled(contents(*old(world))[e]),
{
    let list = bodies(world);
    let ghost s = contents(*world);
    let mut i: usize = 0;
    while i < list.len()
        invariant
            i <= list.len(),
            lists_bodies(list@, s),
            *_resources == *old(_resources),
            forall|e: Entity| #[trigger] contents(*world).dom().contains(e) <==> s.dom().contains(e),
            forall|e: Entity|
                s.dom().contains(e) ==> #[trigger] contents(*world)[e] == (if listed_before(
                    list@,
                    i as int,
                    e,
                ) {
                    recalled(s[e])
                } else {
                    s[e]
                }),
        decreases list.len() - i,
    {
        let entity = list[i].0;
        let body = &list[i].1;
        let ghost cur = contents(*world);
        proof {
            assert(s.dom().contains(entity));
            assert(s[entity].body == *body);
            assert(!listed_before(list@, i as int, entity)) by {
                if listed_before(list@, i as int, entity) {
                    let k = choose|k: int|
                        0 <= k < i && k < list@.len() && (#[trigger] list@[k]).0 == entity;
                    assert(list@[k].0 != list@[i as int].0);
                }
            }
            assert(cur.dom().contains(entity));
            assert(cur[entity] == s[entity]);
        }
        if let Some(mind) = mind_of(world, entity) {
            if let Some(memory) = mind.memory {
                let mut time = memory.time_to_remember;
                if time > 0 {
                    time = time - 1;
                }
                if let Some(appearance) = body.appearance {
                    if appearance.in_fov {
                        time = memory.strength;
                    }
                }
                put_memory(
                    world,
                    entity,
                    MonsterMemory { time_to_remember: time, strength: memory.strength },
                );
            }
        }
        proof {
            let now = contents(*world);
            assert(now[entity] == recalled(s[entity]));
            assert forall|e: Entity| s.dom().contains(e) implies #[trigger] now[e] == (
            if listed_before(list@, i + 1, e) {
                recalled(s[e])
            } else {
                s[e]
            }) by {
                lemma_listed_next(list@, i as int, e);
                if e != entity {
                    assert(now[e] == cur[e]);
                }
            }
        }
        i = i + 1;
    }
    proof {
        assert forall|e: Entity| s.dom().contains(e) implies #[trigger] contents(*world)[e]
            == recalled(s[e]) by {
            let k = choose|k: int| 0 <= k < list@.len() && (#[trigger] list@[k]).0 == e;
            assert(listed_before(list@, i as int, e));
        }
    }
}

} // verus!
