//! What a creature does on its turn: a tree of decisions, built afresh for
//! each turn from the creature's policy, and evaluated once.
use crate::combat::{
    aftermath, attack, blow, effective_defense, get_attack, report_of, resolved_attack,
    within_range, AttackData, AttackReport,
};
use crate::components::{Behavior, Pos, Weapon};
use crate::dice::{extends, since, Dice};
use crate::movement::my_pathfinding::{
    basic_path, next_to, open_steps, successors, way_between,
};
use crate::movement::{occupied, stepping_tiles};
use crate::resources::Resources;
use crate::{has_player, player};
use crate::store::{body_of, contents, place_of, position, put_pos, with_pos, Scene};
use hecs::{Entity, World};
use vstd::prelude::*;
use vstd::std_specs::cmp::PartialEqSpecImpl;

verus! {

broadcast use vstd::std_specs::vec::group_vec_axioms;

/// What a creature intends to do.
#[derive(Clone, Copy, Debug)]
pub enum ActorAction {
    /// Step from one tile to a neighbouring one.
    Move { origin: (i32, i32), destination: (i32, i32) },
    /// Attack `target` with the attack of `weapon`.
    Attack { target: Entity, weapon: Weapon },
    /// Step to a free neighbouring tile picked at random.
    Wander,
    /// Do nothing.
    Wait,
}

/// What the evaluation of a node gives.
#[derive(Clone, Copy, Debug)]
pub enum BehaviorResult {
    Success,
    Fail,
    Acting(ActorAction),
}

impl PartialEq for BehaviorResult {
    /// Two results are equal when they are of the same kind, whatever action
    /// they carry.
    fn eq(&self, other: &Self) -> (same: bool) {
        match self {
            BehaviorResult::Fail => {
                match other {
                    BehaviorResult::Fail => true,
                    _ => false,
                }
            },
            BehaviorResult::Acting(_) => {
                match other {
                    BehaviorResult::Acting(_) => true,
                    _ => false,
                }
            },
            BehaviorResult::Success => {
                match other {
                    BehaviorResult::Success => true,
                    _ => false,
                }
            },
        }
    }
}

impl PartialEqSpecImpl for BehaviorResult {
    open spec fn obeys_eq_spec() -> bool {
        true
    }

    open spec fn eq_spec(&self, other: &Self) -> bool {
        (*self is Fail && *other is Fail) || (*self is Acting && *other is Acting) || (*self
            is Success && *other is Success)
    }
}

/// A question or an intention at a leaf of the tree, asked of one creature.
#[derive(Clone, Copy, Debug)]
pub enum Decision {
    /// Intends to wander.
    Wander,
    /// Intends to wait.
    Wait,
    /// Succeeds.
    Pass,
    /// Succeeds if the actor is in the player's field of view.
    InFov { actor: Entity },
    /// Succeeds if the target is in range of the actor's attack.
    InAttackRange { actor: Entity, target: Entity },
    /// Takes the next step towards the target; succeeds next to it.
    Approach { actor: Entity, target: Entity },
    /// Intends to attack the target.
    Strike { actor: Entity, target: Entity },
    /// Succeeds with the given chance in a hundred.
    PercentChance(u32),
}

/// A leaf of the tree.
pub struct Action {
    pub act: Decision,
}

/// Gives the first result of its children that is no failure.
pub struct Selector {
    pub children: Vec<Node>,
}

/// Gives the first result of its children that is no success.
pub struct Sequence {
    pub children: Vec<Node>,
}

/// A node of the tree.
pub enum Node {
    Action(Action),
    Selector(Selector),
    Sequence(Sequence),
}

/// The shape of a tree.
pub enum Plan {
    Action(Decision),
    Selector(Seq<Plan>),
    Sequence(Seq<Plan>),
}

impl Selector {
    /// A selector over `children`.
    pub fn new(children: Vec<Node>) -> (node: Selector)
        ensures
            node.children@ == children@,
    {
        Selector { children }
    }
}

impl Sequence {
    /// A sequence of `children`.
    pub fn new(children: Vec<Node>) -> (node: Sequence)
        ensures
            node.children@ == children@,
    {
        Sequence { children }
    }
}

impl Node {
    /// The shape of the tree below the node.
    pub open spec fn view(&self) -> Plan
        decreases self,
    {
        match self {
            Node::Action(action) => Plan::Action(action.act),
            Node::Selector(selector) => Plan::Selector(
                Seq::new(
                    selector.children@.len(),
                    |i: int|
                        if 0 <= i < selector.children@.len() {
                            selector.children@[i].view()
                        } else {
                            Plan::Action(Decision::Pass)
                        },
                ),
            ),
            Node::Sequence(sequence) => Plan::Sequence(
                Seq::new(
                    sequence.children@.len(),
                    |i: int|
                        if 0 <= i < sequence.children@.len() {
                            sequence.children@[i].view()
                        } else {
                            Plan::Action(Decision::Pass)
                        },
                ),
            ),
        }
    }
}

/// What a leaf gives in the scene `s`, and how many of `draws` it uses up.
pub open spec fn decide(decision: Decision, s: Scene, draws: Seq<int>) -> (BehaviorResult, nat) {
    match decision {
        Decision::Wander => (BehaviorResult::Acting(ActorAction::Wander), 0),
        Decision::Wait => (BehaviorResult::Acting(ActorAction::Wait), 0),
        Decision::Pass => (BehaviorResult::Success, 0),
        Decision::InFov { actor } => if s.dom().contains(actor) && s[actor].body.appearance is Some
            && s[actor].body.appearance->0.in_fov {
            (BehaviorResult::Success, 0)
        } else {
            (BehaviorResult::Fail, 0)
        },
        Decision::InAttackRange { actor, target } => match resolved_attack(s, actor) {
            Some(attack) => if within_range(attack.range, s, actor, target) == Some(true) {
                (BehaviorResult::Success, 0)
            } else {
                (BehaviorResult::Fail, 0)
            },
            None => (BehaviorResult::Fail, 0),
        },
        Decision::Approach { actor, target } => match way_between(s, actor, target) {
            Some(way) => if way.1 == 1 {
                (BehaviorResult::Success, 0)
            } else if way.0.len() > 0 {
                (
                    BehaviorResult::Acting(
                        ActorAction::Move {
                            origin: place_of(s, actor)->0.tile(),
                            destination: way.0[0],
                        },
                    ),
                    0,
                )
            } else {
                (BehaviorResult::Fail, 0)
            },
            None => (BehaviorResult::Fail, 0),
        },
        Decision::Strike { actor, target } => match resolved_attack(s, actor) {
            Some(attack) => (
                BehaviorResult::Acting(ActorAction::Attack { target, weapon: Weapon { attack } }),
                0,
            ),
            None => (BehaviorResult::Fail, 0),
        },
        Decision::PercentChance(percent) => if percent > draws[0] {
            (BehaviorResult::Success, 1)
        } else {
            (BehaviorResult::Fail, 1)
        },
    }
}

impl Plan {
    /// The number of children of a node.
    pub open spec fn width(self) -> nat {
        match self {
            Plan::Action(_) => 0,
            Plan::Selector(children) => children.len(),
            Plan::Sequence(children) => children.len(),
        }
    }
}

/// What the evaluation of a tree gives in the scene `s`, and how many of
/// `draws` it uses up. Of a node with children, those before `from` are
/// passed over: the evaluation of the whole node is that from zero.
///
/// A selector gives the result of its first child that does not fail, and
/// fails if all do; a sequence gives the result of its first child that does
/// not succeed, and succeeds if all do. Later children are not evaluated and
/// draw nothing.
pub open spec fn run(plan: Plan, from: nat, s: Scene, draws: Seq<int>) -> (BehaviorResult, nat)
    decreases plan, plan.width() - from,
{
    match plan {
        Plan::Action(decision) => decide(decision, s, draws),
        Plan::Selector(children) => if from >= children.len() {
            (BehaviorResult::Fail, 0)
        } else {
            let first = run(children[from as int], 0, s, draws);
            if first.0 is Fail {
                let rest = run(plan, from + 1, s, draws.skip(first.1 as int));
                (rest.0, first.1 + rest.1)
            } else {
                first
            }
        },
        Plan::Sequence(children) => if from >= children.len() {
            (BehaviorResult::Success, 0)
        } else {
            let first = run(children[from as int], 0, s, draws);
            if first.0 is Success {
                let rest = run(plan, from + 1, s, draws.skip(first.1 as int));
                (rest.0, first.1 + rest.1)
            } else {
                first
            }
        },
    }
}

/// A result together with a number of draws that came before it.
pub open spec fn after(used: nat, outcome: (BehaviorResult, nat)) -> (BehaviorResult, nat) {
    (outcome.0, used + outcome.1)
}

impl Action {
    /// Asks the question, or states the intention, of the leaf.
    pub fn tick(&self, world: &mut World, resources: &Resources, dice: &mut Dice) -> (r:
        BehaviorResult)
        ensures
            contents(*final(world)) == contents(*old(world)),
            extends(old(dice).drawn(), final(dice).drawn()),
            forall|i: int|
                0 <= i < since(old(dice).drawn(), final(dice).drawn()).len() ==> 0 <= #[trigger] since(
                    old(dice).drawn(),
                    final(dice).drawn(),
                )[i] < 100,
            forall|later: Seq<int>|
                #[trigger] decide(
                    self.act,
                    contents(*old(world)),
                    since(old(dice).drawn(), final(dice).drawn()) + later,
                ) == (r, since(old(dice).drawn(), final(dice).drawn()).len()),
    {
        let ghost before = dice.drawn();
        assert(since(before, before) =~= Seq::<int>::empty());
        assert(before.take(before.len() as int) =~= before);
        assert forall|later: Seq<int>| Seq::<int>::empty() + later == later by {
            assert(Seq::<int>::empty() + later =~= later);
        }
        match self.act {
            Decision::Wander => BehaviorResult::Acting(ActorAction::Wander),
            Decision::Wait => BehaviorResult::Acting(ActorAction::Wait),
            Decision::Pass => BehaviorResult::Success,
            Decision::InFov { actor } => {
                if let Some(body) = body_of(world, actor) {
                    if let Some(appearance) = body.appearance {
                        if appearance.in_fov {
                            return BehaviorResult::Success;
                        }
                    }
                }
                BehaviorResult::Fail
            },
            Decision::InAttackRange { actor, target } => {
                if let Some(weapon) = get_attack(world, actor) {
                    if let Some(true) = weapon.range.in_range(world, actor, target) {
                        return BehaviorResult::Success;
                    }
                }
                BehaviorResult::Fail
            },
            Decision::Approach { actor, target } => {
                let origin = position(world, actor);
                if let Some(way) = basic_path(world, actor, target) {
                    if way.1 == 1 {
                        return BehaviorResult::Success;
                    } else if way.0.len() > 0 {
                        if let Some(from) = origin {
                            return BehaviorResult::Acting(
                                ActorAction::Move {
                                    origin: (from.x, from.y),
                                    destination: way.0[0],
                                },
                            );
                        }
                    }
                }
                BehaviorResult::Fail
            },
            Decision::Strike { actor, target } => {
                if let Some(attack) = get_attack(world, actor) {
                    return BehaviorResult::Acting(
                        ActorAction::Attack { target, weapon: Weapon { attack } },
                    );
                }
                BehaviorResult::Fail
            },
            Decision::PercentChance(percent) => {
                let roll = dice.roll(100);
                proof {
                    let drawn = since(before, dice.drawn());
                    assert(drawn =~= seq![roll as int]);
                    assert(dice.drawn().take(before.len() as int) =~= before);
                    assert forall|later: Seq<int>| (#[trigger] (drawn + later))[0] == roll by {}
                }
                if percent as u64 > roll {
                    BehaviorResult::Success
                } else {
                    BehaviorResult::Fail
                }
            },
        }
    }
}

impl Node {
    /// Evaluates the node. The world is read and never changed. The result
    /// is that of `run` on the numbers that were drawn, whatever is drawn
    /// afterwards, and exactly the numbers that `run` uses were drawn, each
    /// of them below a hundred.
    pub fn tick(&self, world: &mut World, resources: &Resources, dice: &mut Dice) -> (r:
        BehaviorResult)
        ensures
            contents(*final(world)) == contents(*old(world)),
            extends(old(dice).drawn(), final(dice).drawn()),
            forall|i: int|
                0 <= i < since(old(dice).drawn(), final(dice).drawn()).len() ==> 0 <= #[trigger] since(
                    old(dice).drawn(),
                    final(dice).drawn(),
                )[i] < 100,
            forall|later: Seq<int>|
                #[trigger] run(
                    self@,
                    0,
                    contents(*old(world)),
                    since(old(dice).drawn(), final(dice).drawn()) + later,
                ) == (r, since(old(dice).drawn(), final(dice).drawn()).len()),
        decreases self,
    {
        match self {
            Node::Action(action) => action.tick(world, resources, dice),
            Node::Selector(selector) => {
                let ghost before = dice.drawn();
                let ghost s = contents(*world);
                let mut i: usize = 0;
                proof {
                    assert(since(before, before) =~= Seq::<int>::empty());
                    assert(before.take(before.len() as int) =~= before);
                    assert forall|later: Seq<int>| #[trigger]
                        run(self@, 0, s, since(before, before) + later) == after(
                            0,
                            run(self@, 0, s, later),
                        ) by {
                        assert(since(before, before) + later =~= later);
                    }
                }
                while i < selector.children.len()
                    invariant
                        i <= selector.children.len(),
                        *self == Node::Selector(*selector),
                        contents(*world) == s,
                        s == contents(*old(world)),
                        before == old(dice).drawn(),
                        extends(before, dice.drawn()),
                        forall|k: int|
                            0 <= k < since(before, dice.drawn()).len() ==> 0 <= #[trigger] since(
                                before,
                                dice.drawn(),
                            )[k] < 100,
                        forall|later: Seq<int>|
                            #[trigger] run(self@, 0, s, since(before, dice.drawn()) + later)
                                == after(
                                since(before, dice.drawn()).len(),
                                run(self@, i as nat, s, later),
                            ),
                    decreases selector.children.len() - i,
                {
                    let ghost mid = dice.drawn();
                    let child = &selector.children[i];
                    assert(*selector == (*self)->Selector_0);
                    assert(child_at(self@, i as nat) == child@);
                    let result = child.tick(world, resources, dice);
                    proof {
                        lemma_step(self@, i as nat, s, before, mid, dice.drawn(), result);
                    }
                    match result {
                        BehaviorResult::Fail => {},
                        _ => {
                            return result;
                        },
                    }
                    i = i + 1;
                }
                proof {
                    assert forall|later: Seq<int>| #[trigger]
                        run(self@, 0, s, since(before, dice.drawn()) + later) == (
                            BehaviorResult::Fail,
                            since(before, dice.drawn()).len(),
                        ) by {
                        assert(run(self@, i as nat, s, later) == (BehaviorResult::Fail, 0nat));
                    }
                }
                BehaviorResult::Fail
            },
            Node::Sequence(sequence) => {
                let ghost before = dice.drawn();
                let ghost s = contents(*world);
                let mut i: usize = 0;
                proof {
                    assert(since(before, before) =~= Seq::<int>::empty());
                    assert(before.take(before.len() as int) =~= before);
                    assert forall|later: Seq<int>| #[trigger]
                        run(self@, 0, s, since(before, before) + later) == after(
                            0,
                            run(self@, 0, s, later),
                        ) by {
                        assert(since(before, before) + later =~= later);
                    }
                }
                while i < sequence.children.len()
                    invariant
                        i <= sequence.children.len(),
                        *self == Node::Sequence(*sequence),
                        contents(*world) == s,
                        s == contents(*old(world)),
                        before == old(dice).drawn(),
                        extends(before, dice.drawn()),
                        forall|k: int|
                            0 <= k < since(before, dice.drawn()).len() ==> 0 <= #[trigger] since(
                                before,
                                dice.drawn(),
                            )[k] < 100,
                        forall|later: Seq<int>|
                            #[trigger] run(self@, 0, s, since(before, dice.drawn()) + later)
                                == after(
                                since(before, dice.drawn()).len(),
                                run(self@, i as nat, s, later),
                            ),
                    decreases sequence.children.len() - i,
                {
                    let ghost mid = dice.drawn();
                    let child = &sequence.children[i];
                    assert(*sequence == (*self)->Sequence_0);
                    assert(child_at(self@, i as nat) == child@);
                    let result = child.tick(world, resources, dice);
                    proof {
                        lemma_step(self@, i as nat, s, before, mid, dice.drawn(), result);
                    }
                    match result {
                        BehaviorResult::Success => {},
                        _ => {
                            return result;
                        },
                    }
                    i = i + 1;
                }
                proof {
                    assert forall|later: Seq<int>| #[trigger]
                        run(self@, 0, s, since(before, dice.drawn()) + later) == (
                            BehaviorResult::Success,
                            since(before, dice.drawn()).len(),
                        ) by {
                        assert(run(self@, i as nat, s, later) == (BehaviorResult::Success, 0nat));
                    }
                }
                BehaviorResult::Success
            },
        }
    }
}

/// Whether `result` lets a node with children go on to its next child.
spec fn goes_on(plan: Plan, result: BehaviorResult) -> bool {
    match plan {
        Plan::Action(_) => false,
        Plan::Selector(_) => result is Fail,
        Plan::Sequence(_) => result is Success,
    }
}

/// The child of a node at a place.
spec fn child_at(plan: Plan, i: nat) -> Plan {
    match plan {
        Plan::Action(_) => plan,
        Plan::Selector(children) => children[i as int],
        Plan::Sequence(children) => children[i as int],
    }
}

/// One round of the loop over the children of a node: after child `i` has
/// given `result` on the draws between `mid` and `now`, the evaluation of the
/// whole on everything drawn since `before` is that of the children from
/// `i + 1` on, or `result` itself if it ends the evaluation.
proof fn lemma_step(
    node: Plan,
    i: nat,
    s: Scene,
    before: Seq<int>,
    mid: Seq<int>,
    now: Seq<int>,
    result: BehaviorResult,
)
    requires
        !(node is Action),
        i < node.width(),
        extends(before, mid),
        extends(mid, now),
        forall|k: int| 0 <= k < since(before, mid).len() ==> 0 <= #[trigger] since(before, mid)[k] < 100,
        forall|k: int| 0 <= k < since(mid, now).len() ==> 0 <= #[trigger] since(mid, now)[k] < 100,
        forall|later: Seq<int>| #[trigger]
            run(node, 0, s, since(before, mid) + later) == after(
                since(before, mid).len(),
                run(node, i, s, later),
            ),
        forall|later: Seq<int>| #[trigger]
            run(child_at(node, i), 0, s, since(mid, now) + later) == (result, since(mid, now).len()),
    ensures
        extends(before, now),
        forall|k: int| 0 <= k < since(before, now).len() ==> 0 <= #[trigger] since(before, now)[k] < 100,
        goes_on(node, result) ==> forall|later: Seq<int>| #[trigger]
            run(node, 0, s, since(before, now) + later) == after(
                since(before, now).len(),
                run(node, i + 1, s, later),
            ),
        !goes_on(node, result) ==> forall|later: Seq<int>| #[trigger]
            run(node, 0, s, since(before, now) + later) == (result, since(before, now).len()),
{
    let first = since(before, mid);
    let second = since(mid, now);
    assert(now.take(before.len() as int) =~= before) by {
        assert(now.take(mid.len() as int) == mid);
        assert(mid.take(before.len() as int) == before);
        assert forall|k: int| 0 <= k < before.len() implies now[k] == before[k] by {
            assert(now.take(mid.len() as int)[k] == now[k]);
            assert(mid.take(before.len() as int)[k] == mid[k]);
        }
    }
    assert(since(before, now) =~= first + second) by {
        assert forall|k: int| 0 <= k < mid.len() implies now[k] == mid[k] by {
            assert(now.take(mid.len() as int)[k] == now[k]);
        }
    }
    assert forall|k: int| 0 <= k < since(before, now).len() implies 0 <= #[trigger] since(
        before,
        now,
    )[k] < 100 by {
        if k < first.len() {
            assert(since(before, now)[k] == first[k]);
        } else {
            assert(since(before, now)[k] == second[k - first.len()]);
        }
    }
    assert forall|later: Seq<int>|
        #[trigger] run(node, 0, s, since(before, now) + later) == (if goes_on(node, result) {
            after(since(before, now).len(), run(node, i + 1, s, later))
        } else {
            (result, since(before, now).len())
        }) by {
        let tail = second + later;
        assert(since(before, now) + later =~= first + tail);
        assert(run(node, 0, s, first + tail) == after(first.len(), run(node, i, s, tail)));
        assert(run(child_at(node, i), 0, s, tail) == (result, second.len()));
        assert(tail.skip(second.len() as int) =~= later);
    }
}

/// The policies and their parts by name, each of which stands for a tree.
#[derive(Debug)]
pub enum BehaviorNode {
    ApproachAndAttack(Entity),
    Attack(Entity),
    ApproachAndAttackOrWait(Entity),
    ApproachAndAttackOrWander(Entity),
    ApproachEntity(Entity),
    ApproachIntoRange(Entity),
    InAttackRange(Entity),
    Erratic(Entity, u32),
    Slow(Entity, u32),
    Wander,
    InFOV,
    Idle,
    PercentChance(u32),
    Debug(String),
    DebugRange(Entity),
}

/// The tree that gets into range of the target: in range already, or else a
/// step closer.
pub open spec fn into_range(actor: Entity, target: Entity) -> Plan {
    Plan::Selector(
        seq![
            Plan::Action(Decision::InAttackRange { actor, target }),
            Plan::Action(Decision::Approach { actor, target }),
        ],
    )
}

/// The tree that goes for the target: seen, in range, strike.
pub open spec fn pursue_and_strike(actor: Entity, target: Entity) -> Plan {
    Plan::Sequence(
        seq![
            Plan::Action(Decision::InFov { actor }),
            into_range(actor, target),
            Plan::Action(Decision::Strike { actor, target }),
        ],
    )
}

/// The tree that goes for the target and falls back on `otherwise`.
pub open spec fn pursue_or(actor: Entity, target: Entity, otherwise: Decision) -> Plan {
    Plan::Selector(seq![pursue_and_strike(actor, target), Plan::Action(otherwise)])
}

/// The tree that gives what `decision` gives with the given chance in a
/// hundred, and fails otherwise.
pub open spec fn by_chance(decision: Decision, percent: u32) -> Plan {
    Plan::Sequence(seq![Plan::Action(Decision::PercentChance(percent)), Plan::Action(decision)])
}

/// The tree that does `whim` with the given chance in a hundred, and else
/// goes for the target or wanders.
pub open spec fn moody(actor: Entity, target: Entity, whim: Decision, percent: u32) -> Plan {
    Plan::Selector(seq![by_chance(whim, percent), pursue_or(actor, target, Decision::Wander)])
}

impl BehaviorNode {
    /// How far the tree of a name is from its leaves; the names of leaves
    /// have rank zero.
    pub open spec fn rank(&self) -> nat {
        match self {
            BehaviorNode::ApproachIntoRange(_) => 1,
            BehaviorNode::DebugRange(_) => 1,
            BehaviorNode::ApproachAndAttack(_) => 2,
            BehaviorNode::ApproachAndAttackOrWait(_) => 3,
            BehaviorNode::ApproachAndAttackOrWander(_) => 3,
            BehaviorNode::Erratic(_, _) => 4,
            BehaviorNode::Slow(_, _) => 4,
            _ => 0,
        }
    }

    /// The decision that the name of a leaf stands for.
    pub open spec fn leaf(&self, actor: Entity) -> Decision {
        match self {
            BehaviorNode::Attack(target) => Decision::Strike { actor, target: *target },
            BehaviorNode::ApproachEntity(target) => Decision::Approach { actor, target: *target },
            BehaviorNode::InAttackRange(target) => Decision::InAttackRange {
                actor,
                target: *target,
            },
            BehaviorNode::Wander => Decision::Wander,
            BehaviorNode::InFOV => Decision::InFov { actor },
            BehaviorNode::Idle => Decision::Wait,
            BehaviorNode::PercentChance(percent) => Decision::PercentChance(*percent),
            _ => Decision::Pass,
        }
    }

    /// The tree that the name stands for, for the creature `actor`.
    pub open spec fn plan(&self, actor: Entity) -> Plan {
        match self {
            BehaviorNode::ApproachIntoRange(target) => into_range(actor, *target),
            BehaviorNode::DebugRange(target) => Plan::Sequence(
                seq![
                    Plan::Action(Decision::InAttackRange { actor, target: *target }),
                    Plan::Action(Decision::Pass),
                ],
            ),
            BehaviorNode::ApproachAndAttack(target) => pursue_and_strike(actor, *target),
            BehaviorNode::ApproachAndAttackOrWait(target) => pursue_or(
                actor,
                *target,
                Decision::Wait,
            ),
            BehaviorNode::ApproachAndAttackOrWander(target) => pursue_or(
                actor,
                *target,
                Decision::Wander,
            ),
            BehaviorNode::Erratic(target, percent) => moody(
                actor,
                *target,
                Decision::Wander,
                *percent,
            ),
            BehaviorNode::Slow(target, percent) => moody(actor, *target, Decision::Wait, *percent),
            _ => Plan::Action(self.leaf(actor)),
        }
    }

    /// Builds the tree that the name stands for, for the creature `actor`.
    pub fn build(&self, actor: Entity) -> (node: Node)
        ensures
            node@ == self.plan(actor),
        decreases self.rank(), 0nat,
    {
        match self {
            BehaviorNode::Erratic(target, wander_rate) => selector_of(
                chance(actor, BehaviorNode::Wander, *wander_rate),
                BehaviorNode::ApproachAndAttackOrWander(*target).build(actor),
            ),
            BehaviorNode::Slow(target, wait_rate) => selector_of(
                chance(actor, BehaviorNode::Idle, *wait_rate),
                BehaviorNode::ApproachAndAttackOrWander(*target).build(actor),
            ),
            BehaviorNode::Debug(_) => action(Decision::Pass),
            BehaviorNode::DebugRange(target) => sequence_of(
                BehaviorNode::InAttackRange(*target).build(actor),
                action(Decision::Pass),
            ),
            BehaviorNode::ApproachAndAttackOrWander(target) => selector_of(
                BehaviorNode::ApproachAndAttack(*target).build(actor),
                BehaviorNode::Wander.build(actor),
            ),
            BehaviorNode::ApproachAndAttackOrWait(target) => selector_of(
                BehaviorNode::ApproachAndAttack(*target).build(actor),
                BehaviorNode::Idle.build(actor),
            ),
            BehaviorNode::Wander => action(Decision::Wander),
            BehaviorNode::InFOV => action(Decision::InFov { actor }),
            BehaviorNode::InAttackRange(target) => action(
                Decision::InAttackRange { actor, target: *target },
            ),
            BehaviorNode::ApproachAndAttack(target) => {
                let seen = BehaviorNode::InFOV.build(actor);
                let near = BehaviorNode::ApproachIntoRange(*target).build(actor);
                let strike = BehaviorNode::Attack(*target).build(actor);
                let mut children: Vec<Node> = Vec::new();
                children.push(seen);
                children.push(near);
                children.push(strike);
                let node = Node::Sequence(Sequence::new(children));
                assert(node@->Sequence_0 =~= seq![seen@, near@, strike@]);
                node
            },
            BehaviorNode::Attack(target) => action(Decision::Strike { actor, target: *target }),
            BehaviorNode::ApproachEntity(target) => action(
                Decision::Approach { actor, target: *target },
            ),
            BehaviorNode::ApproachIntoRange(target) => selector_of(
                BehaviorNode::InAttackRange(*target).build(actor),
                BehaviorNode::ApproachEntity(*target).build(actor),
            ),
            BehaviorNode::Idle => action(Decision::Wait),
            BehaviorNode::PercentChance(percent) => action(Decision::PercentChance(*percent)),
        }
    }
}

/// A leaf.
fn action(decision: Decision) -> (node: Node)
    ensures
        node@ == Plan::Action(decision),
{
    Node::Action(Action { act: decision })
}

/// A selector over two nodes.
fn selector_of(first: Node, second: Node) -> (node: Node)
    ensures
        node@ == Plan::Selector(seq![first@, second@]),
{
    let ghost a = first@;
    let ghost b = second@;
    let mut children: Vec<Node> = Vec::new();
    children.push(first);
    children.push(second);
    let node = Node::Selector(Selector::new(children));
    assert(node@->Selector_0 =~= seq![a, b]);
    node
}

/// A sequence of two nodes.
fn sequence_of(first: Node, second: Node) -> (node: Node)
    ensures
        node@ == Plan::Sequence(seq![first@, second@]),
{
    let ghost a = first@;
    let ghost b = second@;
    let mut children: Vec<Node> = Vec::new();
    children.push(first);
    children.push(second);
    let node = Node::Sequence(Sequence::new(children));
    assert(node@->Sequence_0 =~= seq![a, b]);
    node
}

/// The tree that does what the leaf `node` does with the given chance in a
/// hundred.
fn chance(actor: Entity, node: BehaviorNode, percent: u32) -> (built: Node)
    requires
        node.rank() == 0,
    ensures
        built@ == by_chance(node.leaf(actor), percent),
    decreases node.rank(), 1nat,
{
    sequence_of(BehaviorNode::PercentChance(percent).build(actor), node.build(actor))
}

/// A selector whose first child does not fail gives the result of that
/// child, and uses the draws of that child only: no later child is
/// evaluated.
pub proof fn selector_stops_at_first_result(children: Seq<Plan>, s: Scene, draws: Seq<int>)
    requires
        children.len() >= 1,
        !(run(children[0], 0, s, draws).0 is Fail),
    ensures
        run(Plan::Selector(children), 0, s, draws) == run(children[0], 0, s, draws),
{
}

/// A selector whose first child fails gives what its other children give on
/// the draws that the first has left.
pub proof fn selector_falls_through(children: Seq<Plan>, s: Scene, draws: Seq<int>)
    requires
        children.len() >= 1,
        run(children[0], 0, s, draws).0 is Fail,
    ensures
        run(Plan::Selector(children), 0, s, draws) == after(
            run(children[0], 0, s, draws).1,
            run(
                Plan::Selector(children),
                1,
                s,
                draws.skip(run(children[0], 0, s, draws).1 as int),
            ),
        ),
{
}

/// A sequence whose first child does not succeed gives the result of that
/// child, and uses the draws of that child only: no later child is
/// evaluated.
pub proof fn sequence_stops_at_first_failure(children: Seq<Plan>, s: Scene, draws: Seq<int>)
    requires
        children.len() >= 1,
        !(run(children[0], 0, s, draws).0 is Success),
    ensures
        run(Plan::Sequence(children), 0, s, draws) == run(children[0], 0, s, draws),
{
}

/// A chance of nothing in a hundred never succeeds, and a chance of a
/// hundred in a hundred always does, whatever is drawn from zero to
/// ninety-nine. In either case one number is drawn.
pub proof fn percent_chance_at_the_ends(percent: u32, s: Scene, draws: Seq<int>)
    requires
        0 <= draws[0] < 100,
    ensures
        percent == 0 ==> decide(Decision::PercentChance(percent), s, draws) == (
            BehaviorResult::Fail,
            1nat,
        ),
        percent >= 100 ==> decide(Decision::PercentChance(percent), s, draws) == (
            BehaviorResult::Success,
            1nat,
        ),
{
}

/// The tree of a policy, for the creature `actor` that is after `target`.
pub open spec fn policy_plan(behavior: Behavior, actor: Entity, target: Entity) -> Plan {
    match behavior {
        Behavior::Erratic(percent) => moody(
            actor,
            target,
            Decision::Wander,
            percent,
        ),
        Behavior::Slow(percent) => moody(actor, target, Decision::Wait, percent),
        Behavior::ApproachAndAttack => pursue_or(
            actor,
            target,
            Decision::Wander,
        ),
    }
}

/// Whether the player sees `actor`.
pub open spec fn in_view(s: Scene, actor: Entity) -> bool {
    s.dom().contains(actor) && s[actor].body.appearance is Some
        && s[actor].body.appearance->0.in_fov
}

/// Whether the target is within reach of the actor: in range of its attack,
/// or one step away.
pub open spec fn within_reach(s: Scene, actor: Entity, target: Entity, attack: AttackData) -> bool {
    within_range(attack.range, s, actor, target) == Some(true) || (way_between(s, actor, target)
        matches Some(way) && way.1 == 1)
}

/// A creature that is seen, has an attack and has its target within reach
/// strikes it, unless a whim takes it first.
pub proof fn pursuit_strikes_within_reach(
    actor: Entity,
    target: Entity,
    otherwise: Decision,
    attack: AttackData,
    s: Scene,
    draws: Seq<int>,
)
    requires
        in_view(s, actor),
        resolved_attack(s, actor) == Some(attack),
        within_reach(s, actor, target, attack),
    ensures
        run(pursue_or(actor, target, otherwise), 0, s, draws) == (
            BehaviorResult::Acting(ActorAction::Attack { target, weapon: Weapon { attack } }),
            0nat,
        ),
{
    reveal_with_fuel(run, 8);
    let near = into_range(actor, target);
    assert(draws.skip(0) =~= draws);
    assert(run(near, 1, s, draws) == run(
        Plan::Action(Decision::Approach { actor, target }),
        0,
        s,
        draws,
    )) by {
        assert(run(near, 2, s, draws) == (BehaviorResult::Fail, 0nat));
    }
    assert(run(near, 0, s, draws) == (BehaviorResult::Success, 0nat));
    let chase = pursue_and_strike(actor, target);
    assert(run(chase, 2, s, draws) == (
        BehaviorResult::Acting(ActorAction::Attack { target, weapon: Weapon { attack } }),
        0nat,
    ));
    assert(run(chase, 1, s, draws) == run(chase, 2, s, draws));
    assert(run(chase, 0, s, draws) == run(chase, 1, s, draws));
}

/// An erratic creature that never wanders, is seen, has an attack and
/// stands next to its target always strikes it. The way between neighbours
/// is one step, as `basic_path` finds; for a melee attack the neighbour is in
/// range whatever the way.
pub proof fn steady_creature_strikes_neighbour(
    actor: Entity,
    target: Entity,
    attack: AttackData,
    s: Scene,
    draws: Seq<int>,
)
    requires
        0 <= draws[0],
        in_view(s, actor),
        resolved_attack(s, actor) == Some(attack),
        next_to(s, actor, target),
        attack.range is Meele || way_between(s, actor, target) == Some(
            (seq![place_of(s, target)->0.tile()], 1nat),
        ),
    ensures
        run(policy_plan(Behavior::Erratic(0), actor, target), 0, s, draws) == (
            BehaviorResult::Acting(ActorAction::Attack { target, weapon: Weapon { attack } }),
            1nat,
        ),
{
    reveal_with_fuel(run, 8);
    let whim = by_chance(Decision::Wander, 0);
    assert(run(whim, 0, s, draws) == (BehaviorResult::Fail, 1nat));
    let rest = draws.skip(1);
    pursuit_strikes_within_reach(actor, target, Decision::Wander, attack, s, rest);
    let whole = policy_plan(Behavior::Erratic(0), actor, target);
    assert(rest.skip(0) =~= rest);
    assert(run(whole, 2, s, rest) == (BehaviorResult::Fail, 0nat));
    assert(run(whole, 1, s, rest) == run(pursue_or(actor, target, Decision::Wander), 0, s, rest));
}

/// A creature that the player does not see wanders, whatever else holds,
/// unless it is a slow one that the dice make wait.
pub proof fn unseen_creature_wanders(
    behavior: Behavior,
    actor: Entity,
    target: Entity,
    s: Scene,
    draws: Seq<int>,
)
    requires
        !in_view(s, actor),
        behavior matches Behavior::Slow(percent) ==> percent <= draws[0],
    ensures
        run(policy_plan(behavior, actor, target), 0, s, draws).0 == BehaviorResult::Acting(
            ActorAction::Wander,
        ),
{
    reveal_with_fuel(run, 8);
    let chase = pursue_and_strike(actor, target);
    let fallback = pursue_or(actor, target, Decision::Wander);
    assert forall|d: Seq<int>| #[trigger]
        run(fallback, 0, s, d) == (BehaviorResult::Acting(ActorAction::Wander), 0nat) by {
        assert(run(chase, 0, s, d) == (BehaviorResult::Fail, 0nat));
        assert(d.skip(0) =~= d);
        assert(run(fallback, 1, s, d) == (BehaviorResult::Acting(ActorAction::Wander), 0nat));
    }
    match behavior {
        Behavior::ApproachAndAttack => {},
        Behavior::Erratic(percent) => {
            let whim = by_chance(Decision::Wander, percent);
            let whole = policy_plan(behavior, actor, target);
            if percent > draws[0] {
                assert(run(whim, 1, s, draws.skip(1)) == (
                    BehaviorResult::Acting(ActorAction::Wander),
                    0nat,
                ));
                assert(run(whim, 0, s, draws).0 == BehaviorResult::Acting(ActorAction::Wander));
            } else {
                assert(run(whim, 0, s, draws) == (BehaviorResult::Fail, 1nat));
                assert(run(whole, 1, s, draws.skip(1)).0 == BehaviorResult::Acting(
                    ActorAction::Wander,
                ));
            }
        },
        Behavior::Slow(percent) => {
            let whim = by_chance(Decision::Wait, percent);
            let whole = policy_plan(behavior, actor, target);
            assert(run(whim, 0, s, draws) == (BehaviorResult::Fail, 1nat));
            assert(run(whole, 1, s, draws.skip(1)).0 == BehaviorResult::Acting(
                ActorAction::Wander,
            ));
        },
    }
}

/// What a turn comes to: the scene after it, the report of the attack if
/// one was made, and how many numbers were drawn.
pub struct Turn {
    pub scene: Scene,
    pub report: Option<AttackReport>,
    pub used: nat,
}

/// The turn in which nothing happens.
pub open spec fn idle(s: Scene) -> Turn {
    Turn { scene: s, report: None, used: 0 }
}

/// What carrying out the result of the tree comes to, with `draws` for the
/// numbers drawn while doing so.
///
/// A move puts the actor on its destination. An attack is made if the actor
/// has an attack and both it and the target have a place; it draws one
/// number for a miss and three for a hit. A wandering actor steps onto one
/// of the free tiles next to it (left, right, up, down), picked by one draw;
/// it stays where it is if none is free. Nothing else changes anything.
pub open spec fn carry_out(s: Scene, actor: Entity, result: BehaviorResult, draws: Seq<int>) -> Turn {
    match result {
        BehaviorResult::Acting(ActorAction::Move { origin, destination }) => Turn {
            scene: with_pos(s, actor, Pos { x: destination.0, y: destination.1 }),
            report: None,
            used: 0,
        },
        BehaviorResult::Acting(ActorAction::Attack { target, weapon }) => if resolved_attack(
            s,
            actor,
        ) is Some && place_of(s, actor) is Some && place_of(s, target) is Some {
            Turn {
                scene: aftermath(s, target, weapon.attack, draws),
                report: Some(report_of(s, actor, target, weapon.attack, draws)),
                used: if blow(weapon.attack, effective_defense(s, target), draws) is Some {
                    3
                } else {
                    1
                },
            }
        } else {
            idle(s)
        },
        BehaviorResult::Acting(ActorAction::Wander) => match place_of(s, actor) {
            Some(place) => {
                let free = open_steps(occupied(s), place.tile(), false);
                if free.len() > 0 && 0 <= draws[0] < free.len() {
                    Turn {
                        scene: with_pos(
                            s,
                            actor,
                            Pos { x: free[draws[0]].0.0, y: free[draws[0]].0.1 },
                        ),
                        report: None,
                        used: 1,
                    }
                } else {
                    idle(s)
                }
            },
            None => idle(s),
        },
        _ => idle(s),
    }
}

/// The turn of `actor` with the policy `behavior`, after `target`: the tree
/// of the policy is evaluated, and its result carried out on the draws that
/// the evaluation has left.
pub open spec fn turn(
    s: Scene,
    actor: Entity,
    behavior: Behavior,
    target: Entity,
    draws: Seq<int>,
) -> Turn {
    let decided = run(policy_plan(behavior, actor, target), 0, s, draws);
    let done = carry_out(s, actor, decided.0, draws.skip(decided.1 as int));
    Turn { scene: done.scene, report: done.report, used: decided.1 + done.used }
}

/// The tree of a policy.
fn policy_node(behavior: Behavior, target: Entity) -> (node: BehaviorNode)
    ensures
        forall|actor: Entity| #[trigger] node.plan(actor) == policy_plan(behavior, actor, target),
{
    match behavior {
        Behavior::Erratic(percent) => BehaviorNode::Erratic(target, percent),
        Behavior::Slow(percent) => BehaviorNode::Slow(target, percent),
        Behavior::ApproachAndAttack => BehaviorNode::ApproachAndAttackOrWander(target),
    }
}

/// Carries out what the tree has decided.
fn apply(world: &mut World, actor: Entity, result: BehaviorResult, dice: &mut Dice) -> (report:
    Option<AttackReport>)
    ensures
        extends(old(dice).drawn(), final(dice).drawn()),
        carry_out(
            contents(*old(world)),
            actor,
            result,
            since(old(dice).drawn(), final(dice).drawn()),
        ) == (Turn {
            scene: contents(*final(world)),
            report,
            used: since(old(dice).drawn(), final(dice).drawn()).len(),
        }),
{
    let ghost before = dice.drawn();
    let ghost s = contents(*world);
    assert(since(before, before) =~= Seq::<int>::empty());
    assert(before.take(before.len() as int) =~= before);
    match result {
        BehaviorResult::Acting(ActorAction::Move { origin: _, destination }) => {
            put_pos(world, actor, Pos { x: destination.0, y: destination.1 });
            None
        },
        BehaviorResult::Acting(ActorAction::Attack { target, weapon }) => {
            let armed = get_attack(world, actor);
            let here = position(world, actor);
            let there = position(world, target);
            if armed.is_some() && here.is_some() && there.is_some() {
                let report = attack(world, actor, target, weapon.attack, dice);
                Some(report)
            } else {
                None
            }
        },
        BehaviorResult::Acting(ActorAction::Wander) => {
            let taken = stepping_tiles(world);
            if let Some(place) = position(world, actor) {
                let free = successors(&taken, (place.x, place.y), false);
                if free.len() > 0 {
                    assert(free@.len() <= 4);
                    let pick = dice.roll(free.len() as u64);
                    proof {
                        assert(since(before, dice.drawn()) =~= seq![pick as int]);
                        assert(dice.drawn().take(before.len() as int) =~= before);
                    }
                    let to = free[pick as usize].0;
                    put_pos(world, actor, Pos { x: to.0, y: to.1 });
                }
            }
            None
        },
        _ => None,
    }
}

/// The turn of `actor`, which is after `target`: builds the tree of its
/// policy, evaluates it, and carries the result out.
pub fn act_toward(
    world: &mut World,
    resources: &Resources,
    actor: Entity,
    behavior: Behavior,
    target: Entity,
    dice: &mut Dice,
) -> (report: Option<AttackReport>)
    ensures
        extends(old(dice).drawn(), final(dice).drawn()),
        turn(
            contents(*old(world)),
            actor,
            behavior,
            target,
            since(old(dice).drawn(), final(dice).drawn()),
        ) == (Turn {
            scene: contents(*final(world)),
            report,
            used: since(old(dice).drawn(), final(dice).drawn()).len(),
        }),
{
    let ghost before = dice.drawn();
    let ghost s = contents(*world);
    let tree = policy_node(behavior, target).build(actor);
    let result = tree.tick(world, resources, dice);
    let ghost mid = dice.drawn();
    let report = apply(world, actor, result, dice);
    proof {
        let now = dice.drawn();
        let first = since(before, mid);
        let second = since(mid, now);
        assert forall|k: int| 0 <= k < before.len() implies now[k] == before[k] by {
            assert(now.take(mid.len() as int)[k] == now[k]);
            assert(mid.take(before.len() as int)[k] == mid[k]);
        }
        assert(now.take(before.len() as int) =~= before);
        assert forall|k: int| 0 <= k < mid.len() implies now[k] == mid[k] by {
            assert(now.take(mid.len() as int)[k] == now[k]);
        }
        assert(since(before, now) =~= first + second);
        assert(run(tree@, 0, s, first + second) == (result, first.len()));
        assert((first + second).skip(first.len() as int) =~= second);
    }
    report
}

/// The turn of `actor`: as `act_toward`, after a player of the world.
pub fn act(
    world: &mut World,
    resources: &Resources,
    actor: Entity,
    behavior: Behavior,
    dice: &mut Dice,
) -> (report: Option<AttackReport>)
    requires
        has_player(contents(*old(world))),
    ensures
        extends(old(dice).drawn(), final(dice).drawn()),
        exists|target: Entity|
            contents(*old(world)).dom().contains(target) && contents(
                *old(world),
            )[target].body.player && #[trigger] turn(
                contents(*old(world)),
                actor,
                behavior,
                target,
                since(old(dice).drawn(), final(dice).drawn()),
            ) == (Turn {
                scene: contents(*final(world)),
                report,
                used: since(old(dice).drawn(), final(dice).drawn()).len(),
            }),
{
    match player(world) {
        Ok(target) => act_toward(world, resources, actor, behavior, target, dice),
        Err(_) => {
            assert(false);
            None
        },
    }
}

} // verus!
