use vstd::prelude::*;

use crate::animation::{landed_decor, is_start_time, sat_add, BUMP_LENGTH, cleaned_up, game_over_started, sequenced, spawn_ok, still_playing, plays_on, Animation, AnimationKind, AnimationTimer};
use crate::pos::{IVec, Pos};
use crate::rand::RandomGenerator;
use crate::tile_map::TileMap;
use crate::tiles::{CreatureSprite, DrawTile};

verus! {

/// Hit points.
#[derive(Debug, Clone, Copy, PartialEq, Eq, Structural)]
pub struct HP {
    pub max: i32,
    pub current: i32,
}

/// An HP bar moving from `start_current / max` to `end_current / max`.
#[derive(Debug, Clone, Copy, PartialEq, Eq, Structural)]
pub struct HPBarAnimation {
    pub start_current: i32,
    pub end_current: i32,
    pub max: i32,
}

impl HP {
    pub fn new(amount: i32) -> (r: HP)
        ensures
            r.max == amount,
            r.current == amount,
    {
        HP { max: amount, current: amount }
    }

    /// Takes `amount` damage (a negative amount heals) and returns the HP bar change.
    pub fn dmg(&mut self, amount: i32) -> (r: HPBarAnimation)
        requires
            i32::MIN <= old(self).current - amount <= i32::MAX,
        ensures
            final(self).max == old(self).max,
            final(self).current == old(self).current - amount,
            r == (HPBarAnimation { start_current: old(self).current, end_current: final(self).current, max: old(self).max }),
    {
        let start_current = self.current;
        self.current = self.current - amount;
        HPBarAnimation { start_current, end_current: self.current, max: self.max }
    }
}

} // verus!

verus! {

/// Turn costs in aut, a tenth of a turn.
pub const TURN_COST: i64 = 10;
pub const LONG_TURN_COST: i64 = 50;
/// Game time an animation of meditation lasts, in microseconds.
pub const MEDITATE_LENGTH: i64 = 500_000;
pub const SLAM_HP_LENGTH: i64 = 300_000;
pub const JUMP_LENGTH: i64 = 150_000;
pub const JUMP_HP_LENGTH: i64 = 100_000;

/// Coordinates of actors stay within this distance of the origin.
pub const POS_LIMIT: i32 = 0x2000_0000;
/// Hit points and pulse stay within this bound.
pub const VALUE_LIMIT: i32 = 1_000_000_000;
/// Turn times stay below this bound.
pub const TIME_LIMIT: i64 = 0x4_0000_0000_0000;

/// The player character's marker: the pulse rises on aggressive actions and
/// falls on passive ones.
#[derive(Debug, Clone, Copy, PartialEq, Eq, Structural)]
pub struct Player {
    pub pulse: i32,
    /// aut of the last action that raised the pulse
    pub last_pulse_action: i64,
}

#[derive(Debug, Clone, Copy, PartialEq, Eq, Structural)]
pub enum CreatureType {
    PlayerCharacter,
    Goblin,
    GoblinBrute,
    GoblinArcher,
}

#[derive(Debug)]
pub struct Actor {
    pub name: String,
    pub pos: Pos,
    pub sprite: CreatureSprite,
    pub creature_type: CreatureType,
    pub hp: HP,
    /// when this actor's next turn is, in aut
    pub next_turn: i64,
}

/// The abstract time of the game.
#[derive(Debug, Clone, Copy, PartialEq, Eq, Structural)]
pub struct TurnCount {
    /// tenths of a turn
    pub aut: i64,
}

/// The positions within sight of an actor.
#[derive(Debug)]
pub struct Fov(pub Vec<Pos>);

/// Anything an actor may do.
#[derive(Debug)]
pub enum ActionKind {
    Wait,
    Meditate,
    GroundSlam,
    Move { from: Pos, to: Pos },
    BumpAttack { target: usize },
    RockThrow { path: Vec<Pos>, target: usize },
    ShootArrow { path: Vec<Pos>, target: usize },
    JumpAttack { path: Vec<Pos>, target: usize },
    Kick { target: usize },
    DelayedSmash { dir: IVec },
}

/// An action and the actor that takes it.
#[derive(Debug)]
pub struct Action {
    pub actor: usize,
    pub kind: ActionKind,
}

impl ActionKind {
    pub fn done_by(self, actor: usize) -> (r: Action)
        ensures
            r.actor == actor,
            r.kind == self,
    {
        Action { actor, kind: self }
    }
}

/// An action whose effect comes on a later turn of its actor.
#[derive(Debug)]
pub struct DelayedAction {
    pub action: Action,
}

/// An actor with what else belongs to its entity.
#[derive(Debug)]
pub struct Creature {
    pub actor: Actor,
    pub player: Option<Player>,
    pub delayed: Option<DelayedAction>,
    /// Removed from the world; its index stays taken.
    pub destroyed: bool,
    /// What a player sees, recomputed on every pass; empty for the others.
    pub fov: Fov,
}

/// What a message of the log says.
#[derive(Debug, Clone, Copy, PartialEq, Eq, Structural)]
pub enum MessageKind {
    Dies,
    Meditates,
    Attacks,
    ThrowsRock,
    ShootsArrow,
    JumpsAt,
    Kicks,
    FliesAway,
    Stomps,
    PreparesSmash,
    Smashes,
    SmashesNothing,
    PulseLow,
    PulseDangerouslyLow,
    CardiacArrest,
}

/// A message, shown once the animation `inhibitor` is over.
#[derive(Debug, Clone, Copy, PartialEq, Eq, Structural)]
pub struct LogEntry {
    pub kind: MessageKind,
    pub subject: usize,
    pub object: usize,
    pub amount: i32,
    pub inhibitor: u64,
}

#[derive(Debug, Clone, Copy, PartialEq, Eq, Structural)]
pub enum UIState {
    Normal,
    PostDeath,
    GameOver,
    Inventory,
    Inspect,
    Ability,
}

/// The whole simulation state: actors in creation order (an actor's index is its
/// handle), the animations in spawn order, the message log, the map, the random
/// generator, game time in microseconds and the interface state.
#[derive(Debug)]
pub struct World {
    pub creatures: Vec<Creature>,
    pub animations: Vec<Animation>,
    pub log: Vec<LogEntry>,
    pub map: TileMap,
    pub rng: RandomGenerator,
    pub now: i64,
    pub ui: UIState,
    pub next_id: u64,
    pub turn: TurnCount,
}

pub open spec fn pos_ok(p: Pos) -> bool {
    -POS_LIMIT <= p.x <= POS_LIMIT && -POS_LIMIT <= p.y <= POS_LIMIT
}

pub open spec fn creature_ok(c: Creature) -> bool {
    &&& -VALUE_LIMIT <= c.actor.hp.current <= c.actor.hp.max <= VALUE_LIMIT
    &&& 1 <= c.actor.hp.max
    &&& 0 <= c.actor.next_turn <= TIME_LIMIT
    &&& pos_ok(c.actor.pos)
    &&& c.player.is_some() ==> {
        &&& -VALUE_LIMIT <= c.player.unwrap().pulse <= VALUE_LIMIT
        &&& 0 <= c.player.unwrap().last_pulse_action <= TIME_LIMIT
    }
}

/// Takes part in the world: not destroyed.
pub open spec fn present(w: World, i: int) -> bool {
    0 <= i < w.creatures@.len() && !w.creatures@[i].destroyed
}

/// May act: present and alive.
pub open spec fn eligible(w: World, i: int) -> bool {
    present(w, i) && w.creatures@[i].actor.hp.current > 0
}

/// `i` acts before `j`: earlier turn, or the same turn and created earlier.
pub open spec fn acts_before(w: World, i: int, j: int) -> bool {
    let a = w.creatures@[i].actor.next_turn;
    let b = w.creatures@[j].actor.next_turn;
    a < b || (a == b && i <= j)
}

/// `r` is the actor whose turn it is, or none when no actor is alive.
pub open spec fn is_next_actor(w: World, r: Option<usize>) -> bool {
    match r {
        Some(i) => eligible(w, i as int) && forall|j: int| eligible(w, j) ==> acts_before(w, i as int, j),
        None => forall|j: int| !eligible(w, j),
    }
}

impl World {
    pub open spec fn wf(&self) -> bool {
        &&& self.map.tiles.wf()
        &&& 0 <= self.now
        &&& forall|i: int| 0 <= i < self.creatures@.len() ==> creature_ok(#[trigger] self.creatures@[i])
    }

    /// Checks the bounds of `wf`.
    pub fn is_valid(&self) -> (r: bool)
        requires
            self.map.tiles.wf(),
        ensures
            r == self.wf(),
    {
        if self.now < 0 {
            return false;
        }
        let mut i: usize = 0;
        while i < self.creatures.len()
            invariant
                i <= self.creatures@.len(),
                forall|k: int| 0 <= k < i ==> creature_ok(#[trigger] self.creatures@[k]),
            decreases self.creatures@.len() - i,
        {
            let c = &self.creatures[i];
            let a = &c.actor;
            if !(-VALUE_LIMIT <= a.hp.current && a.hp.current <= a.hp.max && a.hp.max <= VALUE_LIMIT && 1 <= a.hp.max) {
                return false;
            }
            if !(0 <= a.next_turn && a.next_turn <= TIME_LIMIT) {
                return false;
            }
            if !(-POS_LIMIT <= a.pos.x && a.pos.x <= POS_LIMIT && -POS_LIMIT <= a.pos.y && a.pos.y <= POS_LIMIT) {
                return false;
            }
            match &c.player {
                Some(p) => {
                    if !(-VALUE_LIMIT <= p.pulse && p.pulse <= VALUE_LIMIT) {
                        return false;
                    }
                    if !(0 <= p.last_pulse_action && p.last_pulse_action <= TIME_LIMIT) {
                        return false;
                    }
                },
                None => {},
            }
            i += 1;
        }
        true
    }
}

/// Selects the living actor with the smallest `next_turn`; ties go to the
/// actor created first. None when no actor is alive.
pub fn next_turn_actor(world: &World) -> (r: Option<usize>)
    ensures
        is_next_actor(*world, r),
{
    let mut best: Option<usize> = None;
    let mut i: usize = 0;
    while i < world.creatures.len()
        invariant
            i <= world.creatures@.len(),
            match best {
                Some(b) => b < i && eligible(*world, b as int) && forall|j: int| 0 <= j < i && eligible(*world, j)
                    ==> acts_before(*world, b as int, j),
                None => forall|j: int| 0 <= j < i ==> !eligible(*world, j),
            },
        decreases world.creatures@.len() - i,
    {
        let c = &world.creatures[i];
        if !c.destroyed && c.actor.hp.current > 0 {
            match best {
                Some(b) => {
                    if c.actor.next_turn < world.creatures[b].actor.next_turn {
                        best = Some(i);
                    }
                },
                None => {
                    best = Some(i);
                },
            }
        }
        i += 1;
    }
    best
}

/// The scheduler's choice is determined by the state alone: two choices that
/// both meet the scheduler's contract on the same world are the same.
pub proof fn lemma_turn_order_deterministic(w: World, a: Option<usize>, b: Option<usize>)
    requires
        is_next_actor(w, a),
        is_next_actor(w, b),
    ensures
        a == b,
{
    match (a, b) {
        (Some(x), Some(y)) => {
            assert(acts_before(w, x as int, y as int));
            assert(acts_before(w, y as int, x as int));
        },
        (Some(x), None) => {
            assert(!eligible(w, x as int));
        },
        (None, Some(y)) => {
            assert(!eligible(w, y as int));
        },
        (None, None) => {},
    }
}

/// The player is still alive.
pub fn player_is_alive(world: &World) -> (r: bool)
    ensures
        r == exists|i: int| eligible(*world, i) && (#[trigger] world.creatures@[i]).player.is_some(),
{
    let mut i: usize = 0;
    while i < world.creatures.len()
        invariant
            i <= world.creatures@.len(),
            forall|k: int| 0 <= k < i ==> !(eligible(*world, k) && (#[trigger] world.creatures@[k]).player.is_some()),
        decreases world.creatures@.len() - i,
    {
        let c = &world.creatures[i];
        if !c.destroyed && c.actor.hp.current > 0 && c.player.is_some() {
            return true;
        }
        i += 1;
    }
    false
}

/// Some animation still affects a player.
pub open spec fn animation_on_player(w: World) -> bool {
    exists|k: int, t: int|
        0 <= k < w.animations@.len() && 0 <= t < w.animations@[k].targets@.len() && ({
            let e = #[trigger] w.animations@[k].targets@[t] as int;
            0 <= e < w.creatures@.len() && w.creatures@[e].player.is_some()
        })
}

/// Some animation still affects the player: the turn must wait for it.
pub fn player_is_animation_target(world: &World) -> (r: bool)
    ensures
        r == animation_on_player(*world),
{
    let mut k: usize = 0;
    while k < world.animations.len()
        invariant
            k <= world.animations@.len(),
            forall|kk: int, t: int|
                0 <= kk < k && 0 <= t < world.animations@[kk].targets@.len() ==> !({
                    let e = #[trigger] world.animations@[kk].targets@[t] as int;
                    0 <= e < world.creatures@.len() && world.creatures@[e].player.is_some()
                }),
        decreases world.animations@.len() - k,
    {
        let a = &world.animations[k];
        let mut t: usize = 0;
        while t < a.targets.len()
            invariant
                t <= a.targets@.len(),
                k < world.animations@.len(),
                *a == world.animations@[k as int],
                forall|kk: int, t: int|
                    0 <= kk < k && 0 <= t < world.animations@[kk].targets@.len() ==> !({
                        let e = #[trigger] world.animations@[kk].targets@[t] as int;
                        0 <= e < world.creatures@.len() && world.creatures@[e].player.is_some()
                    }),
                forall|tt: int|
                    0 <= tt < t ==> !({
                        let e = #[trigger] a.targets@[tt] as int;
                        0 <= e < world.creatures@.len() && world.creatures@[e].player.is_some()
                    }),
            decreases a.targets@.len() - t,
        {
            let e = a.targets[t];
            if e < world.creatures.len() && world.creatures[e].player.is_some() {
                return true;
            }
            t += 1;
        }
        k += 1;
    }
    false
}

/// The last created actor still in the world that stands on `pos`.
pub fn actor_at(world: &World, pos: Pos) -> (r: Option<usize>)
    ensures
        match r {
            Some(i) => present(*world, i as int) && world.creatures@[i as int].actor.pos == pos && forall|j: int|
                i < j < world.creatures@.len() ==> !(present(*world, j) && (#[trigger] world.creatures@[j]).actor.pos == pos),
            None => forall|j: int| 0 <= j < world.creatures@.len() ==> !(present(*world, j) && (#[trigger] world.creatures@[j]).actor.pos == pos),
        },
{
    let mut i = world.creatures.len();
    while i > 0
        invariant
            i <= world.creatures@.len(),
            forall|j: int| i <= j < world.creatures@.len() ==> !(present(*world, j) && (#[trigger] world.creatures@[j]).actor.pos == pos),
        decreases i,
    {
        i -= 1;
        if !world.creatures[i].destroyed && world.creatures[i].actor.pos == pos {
            return Some(i);
        }
    }
    None
}

/// A wall or an actor stands on `pos`.
pub fn is_blocked(world: &World, pos: Pos) -> (r: bool)
    requires
        world.map.tiles.wf(),
    ensures
        r == ((exists|j: int| 0 <= j < world.creatures@.len() && present(*world, j) && (#[trigger] world.creatures@[j]).actor.pos == pos)
            || (world.map.tiles.in_grid(pos.x as int, pos.y as int) && world.map.tiles.cell(pos.x as int, pos.y as int)
            == crate::tiles::LogicTile::Wall)),
{
    match actor_at(world, pos) {
        Some(i) => true,
        None => world.map.is_wall(pos),
    }
}

} // verus!

verus! {

pub open spec fn set_hp(c: Creature, cur: int) -> Creature {
    Creature { actor: Actor { hp: HP { current: cur as i32, ..c.actor.hp }, ..c.actor }, ..c }
}

pub open spec fn set_turn(c: Creature, t: int) -> Creature {
    Creature { actor: Actor { next_turn: t as i64, ..c.actor }, ..c }
}

pub open spec fn set_pos(c: Creature, p: Pos) -> Creature {
    Creature { actor: Actor { pos: p, ..c.actor }, ..c }
}

pub open spec fn set_player(c: Creature, p: Option<Player>) -> Creature {
    Creature { player: p, ..c }
}

/// The pulse of `c` after an aggressive action at `turn`.
pub open spec fn raised(c: Creature) -> Option<Player> {
    match c.player {
        Some(p) => Some(Player { pulse: (p.pulse + 3) as i32, last_pulse_action: c.actor.next_turn }),
        None => None,
    }
}

/// A passive action lowers the pulse once 30 aut have passed since it last rose.
pub open spec fn pulse_drops(c: Creature) -> bool {
    c.player.is_some() && c.actor.next_turn - c.player.unwrap().last_pulse_action >= 30
}

/// `c` after `n` passive actions: the pulse falls by one each, and a pulse
/// below 30 stops the heart.
pub open spec fn lowered(c: Creature, n: int) -> Creature {
    if pulse_drops(c) {
        let p = c.player.unwrap();
        let c1 = set_player(c, Some(Player { pulse: (p.pulse - n) as i32, ..p }));
        if n >= 1 && p.pulse - n < 30 { set_hp(c1, -9999) } else { c1 }
    } else {
        c
    }
}

/// `c` raised if `i` is its index.
pub open spec fn raise_at(cs: Seq<Creature>, i: int) -> Seq<Creature> {
    cs.update(i, set_player(cs[i], raised(cs[i])))
}

pub open spec fn damage_at(cs: Seq<Creature>, i: int, amount: int) -> Seq<Creature> {
    cs.update(i, set_hp(cs[i], cs[i].actor.hp.current - amount))
}

pub open spec fn turn_at(cs: Seq<Creature>, i: int, cost: int) -> Seq<Creature> {
    cs.update(i, set_turn(cs[i], cs[i].actor.next_turn + cost))
}

/// An attack of `a` on `t` for `amount` damage: both pulses rise, `a` spends a turn.
pub open spec fn melee_effect(cs: Seq<Creature>, a: int, t: int, amount: int) -> Seq<Creature> {
    turn_at(raise_at(raise_at(damage_at(cs, t, amount), a), t), a, TURN_COST as int)
}

/// A shot of `a` at `t` for `amount` damage: the pulse of `t` rises, `a` spends a turn.
pub open spec fn ranged_effect(cs: Seq<Creature>, a: int, t: int, amount: int) -> Seq<Creature> {
    turn_at(raise_at(damage_at(cs, t, amount), t), a, TURN_COST as int)
}

/// Where a kick sends its target: one more step in the direction of the kick.
pub open spec fn kicked_to(from: Pos, to: Pos) -> Pos {
    Pos { x: (to.x + (to.x - from.x)) as i32, y: (to.y + (to.y - from.y)) as i32 }
}

/// `p` is free: no wall and nobody there.
pub open spec fn free_at(w: World, p: Pos) -> bool {
    &&& !(exists|j: int| 0 <= j < w.creatures@.len() && present(w, j) && (#[trigger] w.creatures@[j]).actor.pos == p)
    &&& !(w.map.tiles.in_grid(p.x as int, p.y as int) && w.map.tiles.cell(p.x as int, p.y as int)
        == crate::tiles::LogicTile::Wall)
}

/// The actor hit on `p`: the last created one still in the world standing there.
pub open spec fn last_occupant(w: World, p: Pos) -> Option<int> {
    if exists|t: int| occupant(w, p, t) {
        Some(choose|t: int| occupant(w, p, t))
    } else {
        None
    }
}

/// A ground slam of `a` at the positions `ns`, in order: whoever stands on a
/// position takes 2 damage, and both pulses rise.
pub open spec fn slam_effect(w: World, cs: Seq<Creature>, a: int, ns: Seq<Pos>) -> Seq<Creature>
    decreases ns.len(),
{
    if ns.len() == 0 {
        cs
    } else {
        let prev = slam_effect(w, cs, a, ns.drop_last());
        match last_occupant(w, ns.last()) {
            Some(t) => raise_at(raise_at(damage_at(prev, t, 2), a), t),
            None => prev,
        }
    }
}

/// The requirements of an action on the world it is resolved in.
pub open spec fn action_ok(w: World, action: Action) -> bool {
    let a = action.actor as int;
    &&& w.wf()
    &&& eligible(w, a)
    &&& match action.kind {
        ActionKind::Move { from, to } => pos_ok(to),
        ActionKind::BumpAttack { target } => present(w, target as int) && target != action.actor,
        ActionKind::RockThrow { path, target } => present(w, target as int) && target != action.actor,
        ActionKind::ShootArrow { path, target } => present(w, target as int) && target != action.actor,
        ActionKind::JumpAttack { path, target } => present(w, target as int) && target != action.actor
            && path@.len() >= 2 && pos_ok(path@[path@.len() - 2]),
        ActionKind::Kick { target } => present(w, target as int) && target != action.actor,
        ActionKind::DelayedSmash { dir } => -1 <= dir.x <= 1 && -1 <= dir.y <= 1,
        _ => true,
    }
}

/// What resolving `action` does to the actors.
pub open spec fn actors_after(w: World, action: Action) -> Seq<Creature> {
    let cs = w.creatures@;
    let a = action.actor as int;
    match action.kind {
        ActionKind::Wait => turn_at(cs.update(a, lowered(cs[a], 1)), a, TURN_COST as int),
        ActionKind::Meditate => {
            let c1 = lowered(cs[a], 10);
            let heal = if c1.actor.hp.max - c1.actor.hp.current < 5 { c1.actor.hp.max - c1.actor.hp.current } else { 5 };
            turn_at(cs.update(a, set_hp(c1, c1.actor.hp.current + heal)), a, LONG_TURN_COST as int)
        },
        ActionKind::Move { from, to } => turn_at(cs.update(a, lowered(set_pos(cs[a], to), 1)), a, TURN_COST as int),
        ActionKind::BumpAttack { target } => melee_effect(cs, a, target as int, 3),
        ActionKind::RockThrow { path, target } => ranged_effect(cs, a, target as int, 2),
        ActionKind::ShootArrow { path, target } => ranged_effect(cs, a, target as int, 2),
        ActionKind::JumpAttack { path, target } => melee_effect(
            cs.update(a, set_pos(cs[a], path@[path@.len() - 2])),
            a,
            target as int,
            4,
        ),
        ActionKind::Kick { target } => {
            let t = target as int;
            let dest = kicked_to(cs[a].actor.pos, cs[t].actor.pos);
            let moved = if free_at(w, dest) { cs.update(t, set_pos(cs[t], dest)) } else { cs };
            melee_effect(moved, a, t, 3)
        },
        ActionKind::GroundSlam => turn_at(
            slam_effect(w, cs, a, crate::pos::nbrs8(cs[a].actor.pos, w.map.tiles.width as int, w.map.tiles.height as int, 8)),
            a,
            TURN_COST as int,
        ),
        ActionKind::DelayedSmash { dir } => turn_at(
            cs.update(a, Creature { delayed: Some(DelayedAction { action }), ..cs[a] }),
            a,
            TURN_COST as int,
        ),
    }
}


/// Loose bounds that hold during the resolution of one action.
pub open spec fn creature_loose(c: Creature) -> bool {
    &&& -VALUE_LIMIT - 100_000 <= c.actor.hp.current <= VALUE_LIMIT
    &&& c.actor.hp.current <= c.actor.hp.max <= VALUE_LIMIT
    &&& 1 <= c.actor.hp.max
    &&& 0 <= c.actor.next_turn <= TIME_LIMIT + 1000
    &&& c.player.is_some() ==> {
        &&& -VALUE_LIMIT - 1000 <= c.player.unwrap().pulse <= VALUE_LIMIT + 1000
        &&& 0 <= c.player.unwrap().last_pulse_action <= TIME_LIMIT + 1000
    }
}

/// What a step of a resolution leaves alone, and the animations it keeps sequenced.
pub open spec fn step_ok(old_w: World, new_w: World, committed: int) -> bool {
    &&& spawn_ok(old_w.animations@, new_w.animations@, committed, old_w.now as int)
    &&& new_w.map == old_w.map
    &&& new_w.now == old_w.now
    &&& new_w.ui == old_w.ui
    &&& new_w.turn == old_w.turn
    &&& old_w.log@.len() <= new_w.log@.len()
    &&& new_w.log@.subrange(0, old_w.log@.len() as int) == old_w.log@
}

proof fn lemma_step_refl(w: World, committed: int)
    requires
        0 <= committed <= w.animations@.len(),
    ensures
        step_ok(w, w, committed),
{
    assert(w.log@.subrange(0, w.log@.len() as int) =~= w.log@);
}

proof fn lemma_step_trans(a: World, b: World, c: World, committed: int)
    requires
        step_ok(a, b, committed),
        step_ok(b, c, committed),
    ensures
        step_ok(a, c, committed),
{
    crate::animation::lemma_spawn_ok_trans(a.animations@, b.animations@, c.animations@, committed, a.now as int);
    assert(c.log@.subrange(0, a.log@.len() as int) =~= c.log@.subrange(0, b.log@.len() as int).subrange(0, a.log@.len() as int));
}

/// Adds a message that shows once the animation at `inhibitor` is over.
pub fn log_message(world: &mut World, committed: usize, kind: MessageKind, subject: usize, object: usize, amount: i32, inhibitor: usize)
    requires
        inhibitor < old(world).animations@.len(),
        committed <= old(world).animations@.len(),
    ensures
        step_ok(*old(world), *final(world), committed as int),
        final(world).creatures@ == old(world).creatures@,
        final(world).animations@ == old(world).animations@,
        final(world).rng == old(world).rng,
        final(world).log@.len() == old(world).log@.len() + 1,
        final(world).log@.last() == (LogEntry {
            kind,
            subject,
            object,
            amount,
            inhibitor: old(world).animations@[inhibitor as int].id,
        }),
{
    let id = world.animations[inhibitor].id;
    world.log.push(LogEntry { kind, subject, object, amount, inhibitor: id });
    proof {
        assert(world.log@.subrange(0, old(world).log@.len() as int) =~= old(world).log@);
        assert(world.animations@.subrange(0, committed as int) =~= old(world).animations@.subrange(0, committed as int));
    }
}

/// An aggressive action raises the pulse of a player.
pub fn raise_pulse(world: &mut World, committed: usize, e: usize)
    requires
        e < old(world).creatures@.len(),
        creature_loose(old(world).creatures@[e as int]),
        committed <= old(world).animations@.len(),
    ensures
        step_ok(*old(world), *final(world), committed as int),
        final(world).creatures@ == raise_at(old(world).creatures@, e as int),
        final(world).animations@ == old(world).animations@,
        final(world).rng == old(world).rng,
        final(world).log@ == old(world).log@,
{
    let turn = world.creatures[e].actor.next_turn;
    match world.creatures[e].player {
        Some(p) => {
            world.creatures[e].player = Some(Player { pulse: p.pulse + 3, last_pulse_action: turn });
        },
        None => {},
    }
    proof {
        assert(world.creatures@ =~= raise_at(old(world).creatures@, e as int));
        assert(world.log@.subrange(0, old(world).log@.len() as int) =~= old(world).log@);
        assert(world.animations@.subrange(0, committed as int) =~= old(world).animations@.subrange(0, committed as int));
    }
}

/// Applies `amount` damage to `t` and returns the HP bar change.
fn damage(world: &mut World, committed: usize, t: usize, amount: i32) -> (r: HPBarAnimation)
    requires
        t < old(world).creatures@.len(),
        creature_loose(old(world).creatures@[t as int]),
        -10 <= amount <= 10,
        committed <= old(world).animations@.len(),
    ensures
        step_ok(*old(world), *final(world), committed as int),
        final(world).creatures@ == damage_at(old(world).creatures@, t as int, amount as int),
        final(world).animations@ == old(world).animations@,
        final(world).rng == old(world).rng,
        final(world).log@ == old(world).log@,
        r == (HPBarAnimation {
            start_current: old(world).creatures@[t as int].actor.hp.current,
            end_current: (old(world).creatures@[t as int].actor.hp.current - amount) as i32,
            max: old(world).creatures@[t as int].actor.hp.max,
        }),
{
    let r = world.creatures[t].actor.hp.dmg(amount);
    proof {
        assert(world.creatures@ =~= damage_at(old(world).creatures@, t as int, amount as int));
        assert(world.log@.subrange(0, old(world).log@.len() as int) =~= old(world).log@);
        assert(world.animations@.subrange(0, committed as int) =~= old(world).animations@.subrange(0, committed as int));
    }
    r
}

/// Spends `cost` aut of the time of `e`.
fn spend_turn(world: &mut World, committed: usize, e: usize, cost: i64)
    requires
        e < old(world).creatures@.len(),
        creature_loose(old(world).creatures@[e as int]),
        0 <= cost <= 50,
        committed <= old(world).animations@.len(),
    ensures
        step_ok(*old(world), *final(world), committed as int),
        final(world).creatures@ == turn_at(old(world).creatures@, e as int, cost as int),
        final(world).animations@ == old(world).animations@,
        final(world).rng == old(world).rng,
        final(world).log@ == old(world).log@,
{
    world.creatures[e].actor.next_turn = world.creatures[e].actor.next_turn + cost;
    proof {
        assert(world.creatures@ =~= turn_at(old(world).creatures@, e as int, cost as int));
        assert(world.log@.subrange(0, old(world).log@.len() as int) =~= old(world).log@);
        assert(world.animations@.subrange(0, committed as int) =~= old(world).animations@.subrange(0, committed as int));
    }
}

/// If `target` has no hit points left: a message, and either the end of the
/// game (the player) or the removal of `target` together with the animation at `animation`.
pub fn handle_death(world: &mut World, committed: usize, target: usize, animation: usize)
    requires
        target < old(world).creatures@.len(),
        committed <= animation < old(world).animations@.len(),
        0 <= old(world).now,
    ensures
        step_ok(*old(world), *final(world), committed as int),
        final(world).creatures@ == old(world).creatures@,
        final(world).rng == old(world).rng,
        final(world).animations@.subrange(0, animation as int) == old(world).animations@.subrange(0, animation as int),
        final(world).animations@.len() >= old(world).animations@.len(),
        old(world).creatures@[target as int].actor.hp.current > 0 ==> *final(world) == *old(world),
        old(world).creatures@[target as int].actor.hp.current <= 0 ==> {
            &&& final(world).log@.len() == old(world).log@.len() + 1
            &&& final(world).log@.last().kind == MessageKind::Dies
            &&& final(world).log@.last().subject == target
        },
        old(world).creatures@[target as int].actor.hp.current <= 0 && old(world).creatures@[target as int].player.is_none()
            ==> {
            &&& final(world).animations@.len() == old(world).animations@.len()
            &&& final(world).animations@[animation as int].cleanup@ == old(world).animations@[animation as int].cleanup@.push(target)
            &&& final(world).animations@[animation as int].kind == old(world).animations@[animation as int].kind
            &&& final(world).animations@[animation as int].id == old(world).animations@[animation as int].id
            &&& final(world).animations@[animation as int].timer == old(world).animations@[animation as int].timer
            &&& final(world).animations@[animation as int].targets@ == old(world).animations@[animation as int].targets@
            &&& forall|k: int| 0 <= k < old(world).animations@.len() && k != animation ==> final(world).animations@[k]
                == old(world).animations@[k]
        },
        old(world).creatures@[target as int].actor.hp.current <= 0 && old(world).creatures@[target as int].player.is_some()
            ==> {
            &&& final(world).animations@.len() == old(world).animations@.len() + 1
            &&& final(world).animations@.last().kind is GameOver
            &&& final(world).animations@.last().targets@ == seq![target]
            &&& final(world).animations@.subrange(0, old(world).animations@.len() as int) == old(world).animations@
        },
{
    if world.creatures[target].actor.hp.current <= 0 {
        let ghost w0 = *world;
        log_message(world, committed, MessageKind::Dies, target, target, 0, animation);
        let ghost w1 = *world;
        if world.creatures[target].player.is_some() {
            let now = world.now;
            crate::animation::spawn_game_over_animation(&mut world.animations, &mut world.next_id, committed, now, target);
        } else {
            let now = world.now;
            crate::animation::add_cleanup(&mut world.animations, committed, now, animation, target);
        }
        proof {
            assert(step_ok(w1, *world, committed as int)) by {
                assert(world.log@.subrange(0, w1.log@.len() as int) =~= w1.log@);
            }
            lemma_step_trans(w0, w1, *world, committed as int);
            assert(world.animations@.subrange(0, animation as int) =~= old(world).animations@.subrange(0, animation as int));
            if world.animations@.len() == old(world).animations@.len() + 1 {
                assert(world.animations@.last() == world.animations@[old(world).animations@.len() as int]);
            }
        }
    } else {
        proof {
            lemma_step_refl(*world, committed as int);
        }
    }
}


proof fn lemma_after_spawn(w0: World, w1: World, committed: int)
    requires
        spawn_ok(w0.animations@, w1.animations@, committed, w0.now as int),
        w1.map == w0.map,
        w1.now == w0.now,
        w1.ui == w0.ui,
        w1.turn == w0.turn,
        w1.log == w0.log,
    ensures
        step_ok(w0, w1, committed),
{
    assert(w1.log@.subrange(0, w0.log@.len() as int) =~= w0.log@);
}

proof fn lemma_lowered_step(c: Creature, k: int)
    requires
        0 <= k <= 10,
        creature_loose(c),
    ensures
        lowered(lowered(c, k), 1) == lowered(c, k + 1),
        lowered(c, 0) == c,
{
    if pulse_drops(c) {
        let p = c.player.unwrap();
        assert(pulse_drops(lowered(c, k)));
        assert(lowered(lowered(c, k), 1) == lowered(c, k + 1));
        assert(lowered(c, 0) == c);
    }
}

/// A passive action lowers the pulse of a player once 30 aut have passed since
/// it last rose, with warnings at 60 and 45 and death below 30.
pub fn lower_pulse(world: &mut World, committed: usize, e: usize)
    requires
        e < old(world).creatures@.len(),
        creature_loose(old(world).creatures@[e as int]),
        committed <= old(world).animations@.len(),
        0 <= old(world).now,
    ensures
        final(world).rng == old(world).rng,
        step_ok(*old(world), *final(world), committed as int),
        final(world).creatures@ == old(world).creatures@.update(e as int, lowered(old(world).creatures@[e as int], 1)),
        final(world).animations@.subrange(0, old(world).animations@.len() as int) == old(world).animations@,
{
    let ghost w0 = *world;
    let turn = world.creatures[e].actor.next_turn;
    let player = world.creatures[e].player;
    match player {
        Some(p) => {
            if turn - p.last_pulse_action >= 30 {
                let before = p.pulse;
                let pulse = before - 1;
                world.creatures[e].player = Some(Player { pulse, last_pulse_action: p.last_pulse_action });
                proof {
                    lemma_step_refl(*world, committed as int);
                    assert(step_ok(w0, *world, committed as int)) by {
                        assert(world.log@.subrange(0, w0.log@.len() as int) =~= w0.log@);
                    }
                }
                if pulse < 60 && before >= 60 {
                    let ghost w1 = *world;
                    let now = world.now;
                    let a = crate::animation::spawn_empty_animation(&mut world.animations, &mut world.next_id, committed, now, e, 0);
                    proof { lemma_after_spawn(w1, *world, committed as int); lemma_step_trans(w0, w1, *world, committed as int); }
                    let ghost w2 = *world;
                    log_message(world, committed, MessageKind::PulseLow, e, e, 0, a);
                    proof { lemma_step_trans(w0, w2, *world, committed as int); }
                }
                if pulse < 45 && before >= 45 {
                    let ghost w1 = *world;
                    let now = world.now;
                    let a = crate::animation::spawn_empty_animation(&mut world.animations, &mut world.next_id, committed, now, e, 0);
                    proof { lemma_after_spawn(w1, *world, committed as int); lemma_step_trans(w0, w1, *world, committed as int); }
                    let ghost w2 = *world;
                    log_message(world, committed, MessageKind::PulseDangerouslyLow, e, e, 0, a);
                    proof { lemma_step_trans(w0, w2, *world, committed as int); }
                }
                if pulse < 30 {
                    let ghost w1 = *world;
                    let now = world.now;
                    let a = crate::animation::spawn_empty_animation(&mut world.animations, &mut world.next_id, committed, now, e, 0);
                    proof { lemma_after_spawn(w1, *world, committed as int); lemma_step_trans(w0, w1, *world, committed as int); }
                    let ghost w2 = *world;
                    log_message(world, committed, MessageKind::CardiacArrest, e, e, 0, a);
                    proof { lemma_step_trans(w0, w2, *world, committed as int); }
                    world.creatures[e].actor.hp.current = -9999;
                    proof {
                        assert(step_ok(w0, *world, committed as int)) by {
                            assert(world.log@.subrange(0, w0.log@.len() as int) =~= w0.log@.subrange(0, w0.log@.len() as int));
                        }
                    }
                    let ghost w3 = *world;
                    handle_death(world, committed, e, a);
                    proof { lemma_step_trans(w0, w3, *world, committed as int); }
                }
                proof {
                    assert(world.creatures@ =~= w0.creatures@.update(e as int, lowered(w0.creatures@[e as int], 1)));
                    assert(world.animations@.subrange(0, w0.animations@.len() as int) =~= w0.animations@);
                }
                return;
            }
        },
        None => {},
    }
    proof {
        lemma_step_refl(*world, committed as int);
        assert(world.creatures@ =~= w0.creatures@.update(e as int, lowered(w0.creatures@[e as int], 1)));
        assert(world.animations@.subrange(0, w0.animations@.len() as int) =~= w0.animations@);
    }
}


proof fn lemma_ok_loose(c: Creature)
    requires
        creature_ok(c),
    ensures
        creature_loose(c),
        creature_loose(lowered(c, 1)),
        creature_loose(set_player(c, raised(c))),
{
}

/// The start of every resolution: the world as it was, animations committed.
pub open spec fn resolution_start(w: World, a: int) -> bool {
    &&& w.wf()
    &&& eligible(w, a)
}

fn handle_wait(world: &mut World, a: usize)
    requires
        resolution_start(*old(world), a as int),
    ensures
        final(world).rng == old(world).rng,
        step_ok(*old(world), *final(world), old(world).animations@.len() as int),
        final(world).creatures@ == turn_at(
            old(world).creatures@.update(a as int, lowered(old(world).creatures@[a as int], 1)),
            a as int,
            TURN_COST as int,
        ),
{
    let committed = world.animations.len();
    let ghost w0 = *world;
    proof { lemma_ok_loose(w0.creatures@[a as int]); }
    lower_pulse(world, committed, a);
    let ghost w1 = *world;
    spend_turn(world, committed, a, TURN_COST);
    proof { lemma_step_trans(w0, w1, *world, committed as int); }
}

fn handle_meditate(world: &mut World, a: usize)
    requires
        resolution_start(*old(world), a as int),
    ensures
        final(world).rng == old(world).rng,
        step_ok(*old(world), *final(world), old(world).animations@.len() as int),
        final(world).creatures@ == actors_after(*old(world), ActionKind::Meditate.done_by_spec(a)),
{
    let committed = world.animations.len();
    let ghost w0 = *world;
    let ghost c0 = w0.creatures@[a as int];
    proof {
        lemma_ok_loose(c0);
        lemma_lowered_step(c0, 0);
        lemma_step_refl(w0, committed as int);
    }
    let mut k: usize = 0;
    while k < 10
        invariant
            k <= 10,
            a < w0.creatures@.len(),
            creature_ok(c0),
            committed == w0.animations@.len(),
            0 <= w0.now,
            world.creatures@ == w0.creatures@.update(a as int, lowered(c0, k as int)),
            step_ok(w0, *world, committed as int),
            world.rng == w0.rng,
        decreases 10 - k,
    {
        let ghost w1 = *world;
        proof { lemma_lowered_loose(c0, k as int); }
        lower_pulse(world, committed, a);
        proof {
            lemma_step_trans(w0, w1, *world, committed as int);
            lemma_lowered_step(c0, k as int);
            assert(world.creatures@ =~= w0.creatures@.update(a as int, lowered(c0, k + 1)));
        }
        k += 1;
    }
    let ghost c1 = lowered(c0, 10);
    proof { lemma_lowered_loose(c0, 10); }
    let max = world.creatures[a].actor.hp.max;
    let cur = world.creatures[a].actor.hp.current;
    let heal = if max - cur < 5 { max - cur } else { 5 };
    let ghost w2 = *world;
    let hp_change = damage(world, committed, a, -heal);
    proof { lemma_step_trans(w0, w2, *world, committed as int); }
    let now = world.now;
    let ghost w3 = *world;
    let anim = crate::animation::spawn_hp_bar_animation(&mut world.animations, &mut world.next_id, committed, now, a, MEDITATE_LENGTH, hp_change);
    proof { lemma_after_spawn(w3, *world, committed as int); lemma_step_trans(w0, w3, *world, committed as int); }
    let ghost w4 = *world;
    log_message(world, committed, MessageKind::Meditates, a, a, heal, anim);
    proof { lemma_step_trans(w0, w4, *world, committed as int); }
    let ghost w5 = *world;
    spend_turn(world, committed, a, LONG_TURN_COST);
    proof {
        lemma_step_trans(w0, w5, *world, committed as int);
        assert(damage_at(w0.creatures@.update(a as int, c1), a as int, -heal as int) =~= w0.creatures@.update(a as int, set_hp(c1, c1.actor.hp.current + heal)));
    }
}

proof fn lemma_lowered_loose(c: Creature, k: int)
    requires
        creature_ok(c),
        0 <= k <= 10,
    ensures
        creature_loose(lowered(c, k)),
        lowered(c, k).actor.hp.max == c.actor.hp.max,
{
}

impl ActionKind {
    pub open spec fn done_by_spec(self, actor: usize) -> Action {
        Action { actor, kind: self }
    }
}


fn handle_move(world: &mut World, a: usize, from: Pos, to: Pos)
    requires
        resolution_start(*old(world), a as int),
        pos_ok(to),
    ensures
        final(world).rng == old(world).rng,
        step_ok(*old(world), *final(world), old(world).animations@.len() as int),
        final(world).creatures@ == turn_at(
            old(world).creatures@.update(a as int, lowered(set_pos(old(world).creatures@[a as int], to), 1)),
            a as int,
            TURN_COST as int,
        ),
{
    let committed = world.animations.len();
    let ghost w0 = *world;
    let now = world.now;
    let anim = crate::animation::spawn_move_animation(&mut world.animations, &mut world.next_id, committed, now, a, from, to);
    proof { lemma_after_spawn(w0, *world, committed as int); }
    let ghost w1 = *world;
    world.creatures[a].actor.pos = to;
    proof {
        assert(step_ok(w1, *world, committed as int)) by {
            lemma_step_refl(w1, committed as int);
        }
        lemma_step_trans(w0, w1, *world, committed as int);
        assert(world.creatures@ =~= w0.creatures@.update(a as int, set_pos(w0.creatures@[a as int], to)));
    }
    if world.creatures[a].player.is_some() {
        let ghost w2 = *world;
        crate::animation::add_camera_move(&mut world.animations, &mut world.next_id, committed, now, anim, to);
        proof { lemma_after_spawn(w2, *world, committed as int); lemma_step_trans(w0, w2, *world, committed as int); }
    }
    let ghost w3 = *world;
    proof { lemma_ok_loose(set_pos(w0.creatures@[a as int], to)); }
    lower_pulse(world, committed, a);
    proof { lemma_step_trans(w0, w3, *world, committed as int); }
    let ghost w4 = *world;
    spend_turn(world, committed, a, TURN_COST);
    proof { lemma_step_trans(w0, w4, *world, committed as int); }
}

/// The hit of `a` on `t` for `amount` damage, shown by a bump, with its
/// message; returns the index of the bump animation.
fn bump_hit(world: &mut World, committed: usize, a: usize, t: usize, amount: i32, kind: MessageKind) -> (anim: usize)
    requires
        committed == old(world).animations@.len(),
        0 <= old(world).now,
        a < old(world).creatures@.len(),
        t < old(world).creatures@.len(),
        creature_loose(old(world).creatures@[t as int]),
        pos_ok(old(world).creatures@[t as int].actor.pos),
        0 <= amount <= 4,
    ensures
        step_ok(*old(world), *final(world), committed as int),
        anim == committed,
        final(world).creatures@ == damage_at(old(world).creatures@, t as int, amount as int),
        final(world).animations@.len() == committed + 3,
        final(world).animations@[committed as int].kind == (AnimationKind::BumpAttack {
            start: old(world).creatures@[a as int].actor.pos,
            end: old(world).creatures@[t as int].actor.pos,
        }),
        final(world).animations@[committed as int].targets@ == seq![a],
        final(world).animations@[committed as int].cleanup@.len() == 0,
        final(world).animations@[committed + 1].kind == AnimationKind::HPBar(HPBarAnimation {
            start_current: old(world).creatures@[t as int].actor.hp.current,
            end_current: (old(world).creatures@[t as int].actor.hp.current - amount) as i32,
            max: old(world).creatures@[t as int].actor.hp.max,
        }),
        final(world).animations@[committed + 1].targets@ == seq![t],
        final(world).log@ == old(world).log@.push(LogEntry {
            kind,
            subject: a,
            object: t,
            amount,
            inhibitor: final(world).animations@[committed as int].id,
        }),
        final(world).rng@ == crate::rand::lcg_step(crate::rand::lcg_step(old(world).rng@)),
        bump_timed(old(world).animations@, final(world).animations@, committed as int, old(world).now as int, a, t),
{
    let ghost w0 = *world;
    let hp_bar = damage(world, committed, t, amount);
    let now = world.now;
    let apos = world.creatures[a].actor.pos;
    let tpos = world.creatures[t].actor.pos;
    let ghost w1 = *world;
    let anim = crate::animation::spawn_bump_attack_animation(
        &mut world.animations, &mut world.next_id, &mut world.rng, committed, now, a, t, apos, tpos, hp_bar);
    proof { lemma_after_spawn(w1, *world, committed as int); lemma_step_trans(w0, w1, *world, committed as int); }
    let ghost w2 = *world;
    log_message(world, committed, kind, a, t, amount, anim);
    proof {
        lemma_step_trans(w0, w2, *world, committed as int);
        assert(world.log@ =~= w0.log@.push(world.log@.last()));
    }
    anim
}

/// Both pulses rise and `t` dies if it has no hit points left.
fn after_hit(world: &mut World, committed: usize, a: usize, t: usize, anim: usize)
    requires
        committed <= anim < old(world).animations@.len(),
        0 <= old(world).now,
        a < old(world).creatures@.len(),
        t < old(world).creatures@.len(),
        a != t,
        creature_loose(old(world).creatures@[a as int]),
        creature_loose(old(world).creatures@[t as int]),
    ensures
        step_ok(*old(world), *final(world), committed as int),
        final(world).creatures@ == raise_at(raise_at(old(world).creatures@, a as int), t as int),
        forall|k: int| 0 <= k < old(world).animations@.len() && k != anim ==> final(world).animations@[k] == old(world).animations@[k],
        final(world).animations@[anim as int].kind == old(world).animations@[anim as int].kind,
        final(world).animations@[anim as int].id == old(world).animations@[anim as int].id,
        final(world).animations@[anim as int].timer == old(world).animations@[anim as int].timer,
        final(world).rng == old(world).rng,
        final(world).animations@[anim as int].targets@ == old(world).animations@[anim as int].targets@,
        dies_logged(*old(world), *final(world), t as int, anim as int),
{
    let ghost w0 = *world;
    raise_pulse(world, committed, a);
    let ghost w1 = *world;
    raise_pulse(world, committed, t);
    proof { lemma_step_trans(w0, w1, *world, committed as int); }
    let ghost w2 = *world;
    handle_death(world, committed, t, anim);
    proof {
        lemma_step_trans(w0, w2, *world, committed as int);
        assert(w2.creatures@[t as int].actor.hp == w0.creatures@[t as int].actor.hp);
        assert(w2.creatures@[t as int].player.is_some() == w0.creatures@[t as int].player.is_some());
        if w2.creatures@[t as int].actor.hp.current <= 0 {
            assert(world.log@[world.log@.len() - 1].kind == MessageKind::Dies);
            if world.creatures@[t as int].player.is_some() {
                assert(world.animations@[world.animations@.len() - 1].kind is GameOver);
            }
        }
        if world.animations@.len() > w2.animations@.len() {
            assert forall|k: int| 0 <= k < w0.animations@.len() && k != anim implies world.animations@[k] == w0.animations@[k] by {
                assert(world.animations@.subrange(0, w2.animations@.len() as int)[k] == world.animations@[k]);
            }
            assert(world.animations@.subrange(0, w2.animations@.len() as int)[anim as int] == world.animations@[anim as int]);
        }
    }
}

/// The bump and HP bar animations at `c` and `c + 1` play for `a` hitting `t`:
/// the bump starts once the earlier animations on either are over and lasts
/// `BUMP_LENGTH`; the HP bar fills its second half.
pub open spec fn bump_timed(old_anims: Seq<Animation>, anims: Seq<Animation>, c: int, now: int, a: usize, t: usize) -> bool {
    let st = anims[c].timer.start as int;
    &&& is_start_time(old_anims, c, now, seq![a, t], st)
    &&& anims[c].timer.end == sat_add(st, BUMP_LENGTH as int)
    &&& anims[c + 1].timer.start == sat_add(st, BUMP_LENGTH / 2)
    &&& anims[c + 1].timer.end == sat_add(sat_add(st, BUMP_LENGTH / 2), BUMP_LENGTH / 2)
}

/// A hit that leaves `t` without hit points logs its death, and either links
/// `t` for removal to the animation at `anim` or, for the player, spawns the end
/// of the game; a hit that does not kill changes neither.
pub open spec fn dies_logged(old_w: World, new_w: World, t: int, anim: int) -> bool {
    let c = old_w.creatures@[t];
    &&& c.actor.hp.current <= 0 ==> exists|k: int|
        old_w.log@.len() <= k < new_w.log@.len() && (#[trigger] new_w.log@[k]).kind == MessageKind::Dies
            && new_w.log@[k].subject == t
    &&& (c.actor.hp.current <= 0 && c.player.is_none()) ==> new_w.animations@[anim].cleanup@
        == old_w.animations@[anim].cleanup@.push(t as usize)
    &&& (c.actor.hp.current <= 0 && c.player.is_some()) ==> exists|k: int|
        old_w.animations@.len() <= k < new_w.animations@.len() && (#[trigger] new_w.animations@[k]).kind is GameOver
    &&& c.actor.hp.current > 0 ==> new_w.animations@[anim].cleanup@ == old_w.animations@[anim].cleanup@
}



/// The first new animation of a resolution is a bump of `a` from `from` to
/// `to`, and the second the HP bar of `t` going down by `amount`; the first new
/// message says that `a` attacks `t`, and a kill is logged and handled.
pub open spec fn bump_shown(old_w: World, new_w: World, a: int, t: int, from: Pos, to: Pos, amount: int) -> bool {
    let c = old_w.animations@.len() as int;
    let ct = old_w.creatures@[t];
    &&& new_w.animations@.len() >= c + 3
    &&& new_w.animations@[c].kind == (AnimationKind::BumpAttack { start: from, end: to })
    &&& new_w.animations@[c].targets@ == seq![a as usize]
    &&& new_w.animations@[c + 1].kind == AnimationKind::HPBar(HPBarAnimation {
        start_current: ct.actor.hp.current,
        end_current: (ct.actor.hp.current - amount) as i32,
        max: ct.actor.hp.max,
    })
    &&& new_w.animations@[c + 1].targets@ == seq![t as usize]
    &&& bump_timed(old_w.animations@, new_w.animations@, c, old_w.now as int, a as usize, t as usize)
    &&& new_w.rng@ == crate::rand::lcg_step(crate::rand::lcg_step(old_w.rng@))
    &&& new_w.log@.len() > old_w.log@.len()
    &&& new_w.log@[old_w.log@.len() as int] == (LogEntry {
        kind: MessageKind::Attacks,
        subject: a as usize,
        object: t as usize,
        amount: amount as i32,
        inhibitor: new_w.animations@[c].id,
    })
    &&& ct.actor.hp.current - amount <= 0 ==> exists|k: int|
        old_w.log@.len() <= k < new_w.log@.len() && (#[trigger] new_w.log@[k]).kind == MessageKind::Dies
            && new_w.log@[k].subject == t
    &&& (ct.actor.hp.current - amount <= 0 && ct.player.is_none()) ==> new_w.animations@[c].cleanup@ == seq![t as usize]
    &&& (ct.actor.hp.current - amount <= 0 && ct.player.is_some()) ==> exists|k: int|
        old_w.animations@.len() <= k < new_w.animations@.len() && (#[trigger] new_w.animations@[k]).kind is GameOver
}

fn handle_bump(world: &mut World, a: usize, t: usize)
    requires
        resolution_start(*old(world), a as int),
        present(*old(world), t as int),
        a != t,
    ensures
        final(world).rng@ == crate::rand::lcg_step(crate::rand::lcg_step(old(world).rng@)),
        step_ok(*old(world), *final(world), old(world).animations@.len() as int),
        final(world).creatures@ == melee_effect(old(world).creatures@, a as int, t as int, 3),
        bump_shown(*old(world), *final(world), a as int, t as int, old(world).creatures@[a as int].actor.pos,
            old(world).creatures@[t as int].actor.pos, 3),
{
    let committed = world.animations.len();
    let ghost w0 = *world;
    proof {
        lemma_ok_loose(w0.creatures@[a as int]);
        lemma_ok_loose(w0.creatures@[t as int]);
    }
    let anim = bump_hit(world, committed, a, t, 3, MessageKind::Attacks);
    let ghost w1 = *world;
    after_hit(world, committed, a, t, anim);
    proof { lemma_step_trans(w0, w1, *world, committed as int); }
    let ghost w2 = *world;
    spend_turn(world, committed, a, TURN_COST);
    proof {
        lemma_step_trans(w0, w2, *world, committed as int);
        assert(world.animations@[committed + 1] == w1.animations@[committed + 1]);
        assert(world.animations@[committed as int].timer == w1.animations@[committed as int].timer);
        assert(world.log@.subrange(0, w1.log@.len() as int)[w0.log@.len() as int] == world.log@[w0.log@.len() as int]);
        assert(w1.creatures@[t as int].actor.hp.current == w0.creatures@[t as int].actor.hp.current - 3);
        assert(w1.creatures@[t as int].player == w0.creatures@[t as int].player);
        if w0.creatures@[t as int].actor.hp.current - 3 <= 0 {
            let k = choose|k: int| w1.log@.len() <= k < w2.log@.len() && (#[trigger] w2.log@[k]).kind == MessageKind::Dies
                && w2.log@[k].subject == t;
            assert(world.log@.subrange(0, w2.log@.len() as int)[k] == world.log@[k]);
        }
        if w0.creatures@[t as int].actor.hp.current - 3 <= 0 && w0.creatures@[t as int].player.is_none() {
            assert(w2.animations@[committed as int].cleanup@ =~= seq![t]);
        }
    }
}

fn handle_ranged(world: &mut World, a: usize, t: usize, path: Vec<Pos>, sprite: DrawTile, kind: MessageKind)
    requires
        resolution_start(*old(world), a as int),
        present(*old(world), t as int),
        a != t,
    ensures
        final(world).rng == old(world).rng,
        step_ok(*old(world), *final(world), old(world).animations@.len() as int),
        final(world).creatures@ == ranged_effect(old(world).creatures@, a as int, t as int, 2),
{
    let committed = world.animations.len();
    let ghost w0 = *world;
    proof {
        lemma_ok_loose(w0.creatures@[a as int]);
        lemma_ok_loose(w0.creatures@[t as int]);
    }
    let hp_bar = damage(world, committed, t, 2);
    let now = world.now;
    let ghost w1 = *world;
    let anim = crate::animation::spawn_projectile_animation(&mut world.animations, &mut world.next_id, committed, now, sprite, path, hp_bar, t);
    proof { lemma_after_spawn(w1, *world, committed as int); lemma_step_trans(w0, w1, *world, committed as int); }
    let ghost w2 = *world;
    log_message(world, committed, kind, a, t, 2, anim);
    proof { lemma_step_trans(w0, w2, *world, committed as int); }
    let ghost w3 = *world;
    raise_pulse(world, committed, t);
    proof { lemma_step_trans(w0, w3, *world, committed as int); }
    let ghost w4 = *world;
    spend_turn(world, committed, a, TURN_COST);
    proof { lemma_step_trans(w0, w4, *world, committed as int); }
    let ghost w5 = *world;
    handle_death(world, committed, t, anim);
    proof { lemma_step_trans(w0, w5, *world, committed as int); }
}

fn handle_jump(world: &mut World, a: usize, t: usize, path: Vec<Pos>)
    requires
        resolution_start(*old(world), a as int),
        present(*old(world), t as int),
        a != t,
        path@.len() >= 2,
        pos_ok(path@[path@.len() - 2]),
    ensures
        final(world).rng == old(world).rng,
        step_ok(*old(world), *final(world), old(world).animations@.len() as int),
        final(world).creatures@ == melee_effect(
            old(world).creatures@.update(a as int, set_pos(old(world).creatures@[a as int], path@[path@.len() - 2])),
            a as int,
            t as int,
            4,
        ),
{
    let committed = world.animations.len();
    let ghost w0 = *world;
    proof {
        lemma_ok_loose(w0.creatures@[a as int]);
        lemma_ok_loose(w0.creatures@[t as int]);
    }
    let now = world.now;
    let ts = vec![a, t];
    let ghost tsv = ts@;
    assert(tsv =~= seq![a, t]);
    let animation_start = crate::animation::start_time(&world.animations, committed, now, &ts);
    let jump_pos = path[path.len() - 2];
    let apos = world.creatures[a].actor.pos;
    let ta = vec![a];
    assert(ta@ =~= seq![a]);
    assert(forall|x: usize| ta@.contains(x) ==> tsv.contains(x)) by { assert(tsv[0] == a); }
    let jump_ani = crate::animation::push_after(&mut world.animations, &mut world.next_id, committed, now, Ghost(tsv),
        animation_start, AnimationTimer::new(animation_start, JUMP_LENGTH), AnimationKind::Movement { start: apos, end: jump_pos }, ta);
    proof { lemma_after_spawn(w0, *world, committed as int); }
    let ghost w1 = *world;
    // also keep the target from being animated meanwhile
    let tt = vec![t];
    assert(tt@ =~= seq![t]);
    assert(forall|x: usize| tt@.contains(x) ==> tsv.contains(x)) by { assert(tsv[1] == t); }
    crate::animation::push_after(&mut world.animations, &mut world.next_id, committed, now, Ghost(tsv),
        animation_start, AnimationTimer::new(animation_start, JUMP_LENGTH), AnimationKind::Empty, tt);
    proof { lemma_after_spawn(w1, *world, committed as int); lemma_step_trans(w0, w1, *world, committed as int); }
    let ghost w2 = *world;
    world.creatures[a].actor.pos = jump_pos;
    proof {
        lemma_after_spawn(w2, *world, committed as int);
        lemma_step_trans(w0, w2, *world, committed as int);
        assert(world.creatures@ =~= w0.creatures@.update(a as int, set_pos(w0.creatures@[a as int], jump_pos)));
        lemma_ok_loose(set_pos(w0.creatures@[a as int], jump_pos));
    }
    let ghost w3 = *world;
    let hp_change = damage(world, committed, t, 4);
    proof { lemma_step_trans(w0, w3, *world, committed as int); }
    let hp_start = if animation_start > i64::MAX - JUMP_LENGTH { i64::MAX } else { animation_start + JUMP_LENGTH };
    let tt2 = vec![t];
    assert(tt2@ =~= seq![t]);
    assert(forall|x: usize| tt2@.contains(x) ==> tsv.contains(x)) by { assert(tsv[1] == t); }
    let ghost w4 = *world;
    let hp_anim = crate::animation::push_after(&mut world.animations, &mut world.next_id, committed, now, Ghost(tsv),
        animation_start, AnimationTimer::new(hp_start, JUMP_HP_LENGTH), AnimationKind::HPBar(hp_change), tt2);
    proof { lemma_after_spawn(w4, *world, committed as int); lemma_step_trans(w0, w4, *world, committed as int); }
    let ghost w5 = *world;
    log_message(world, committed, MessageKind::JumpsAt, a, t, 4, jump_ani);
    proof { lemma_step_trans(w0, w5, *world, committed as int); }
    let ghost w6 = *world;
    after_hit(world, committed, a, t, hp_anim);
    proof { lemma_step_trans(w0, w6, *world, committed as int); }
    let ghost w7 = *world;
    spend_turn(world, committed, a, TURN_COST);
    proof { lemma_step_trans(w0, w7, *world, committed as int); }
}


fn handle_kick(world: &mut World, a: usize, t: usize)
    requires
        resolution_start(*old(world), a as int),
        present(*old(world), t as int),
        a != t,
    ensures
        final(world).rng@ == crate::rand::lcg_step(crate::rand::lcg_step(old(world).rng@)),
        step_ok(*old(world), *final(world), old(world).animations@.len() as int),
        final(world).creatures@ == actors_after(*old(world), ActionKind::Kick { target: t }.done_by_spec(a)),
{
    let committed = world.animations.len();
    let ghost w0 = *world;
    proof {
        lemma_ok_loose(w0.creatures@[a as int]);
        lemma_ok_loose(w0.creatures@[t as int]);
    }
    let apos = world.creatures[a].actor.pos;
    let tpos = world.creatures[t].actor.pos;
    let dest = Pos::new(tpos.x + (tpos.x - apos.x), tpos.y + (tpos.y - apos.y));
    let blocked = is_blocked(world, dest);
    let anim = bump_hit(world, committed, a, t, 3, MessageKind::Kicks);
    let ghost w1 = *world;
    if !blocked {
        let now = world.now;
        crate::animation::spawn_move_animation(&mut world.animations, &mut world.next_id, committed, now, t, tpos, dest);
        proof { lemma_after_spawn(w1, *world, committed as int); lemma_step_trans(w0, w1, *world, committed as int); }
        let ghost w2 = *world;
        world.creatures[t].actor.pos = dest;
        proof { lemma_after_spawn(w2, *world, committed as int); lemma_step_trans(w0, w2, *world, committed as int); }
        let ghost w3 = *world;
        log_message(world, committed, MessageKind::FliesAway, t, t, 0, anim);
        proof { lemma_step_trans(w0, w3, *world, committed as int); }
    }
    let ghost w4 = *world;
    proof {
        let moved = if !blocked { w0.creatures@.update(t as int, set_pos(w0.creatures@[t as int], dest)) } else { w0.creatures@ };
        assert(w4.creatures@ =~= damage_at(moved, t as int, 3));
    }
    after_hit(world, committed, a, t, anim);
    proof { lemma_step_trans(w0, w4, *world, committed as int); }
    let ghost w5 = *world;
    spend_turn(world, committed, a, TURN_COST);
    proof { lemma_step_trans(w0, w5, *world, committed as int); }
}

fn handle_prepare_smash(world: &mut World, action: Action)
    requires
        resolution_start(*old(world), action.actor as int),
        action.kind is DelayedSmash,
    ensures
        final(world).rng == old(world).rng,
        step_ok(*old(world), *final(world), old(world).animations@.len() as int),
        final(world).creatures@ == actors_after(*old(world), action),
{
    let a = action.actor;
    let dir = match &action.kind {
        ActionKind::DelayedSmash { dir } => *dir,
        _ => vstd::pervasive::unreached(),
    };
    let committed = world.animations.len();
    let ghost w0 = *world;
    proof { lemma_ok_loose(w0.creatures@[a as int]); }
    let now = world.now;
    let anim = crate::animation::spawn_add_dangerzone_animation(&mut world.animations, &mut world.next_id, committed, now, a, vec![dir]);
    proof { lemma_after_spawn(w0, *world, committed as int); }
    let ghost w1 = *world;
    log_message(world, committed, MessageKind::PreparesSmash, a, a, 0, anim);
    proof { lemma_step_trans(w0, w1, *world, committed as int); }
    let ghost w2 = *world;
    spend_turn(world, committed, a, TURN_COST);
    proof { lemma_step_trans(w0, w2, *world, committed as int); }
    let ghost w3 = *world;
    let ghost act = action;
    world.creatures[a].delayed = Some(DelayedAction { action });
    proof {
        lemma_after_spawn(w3, *world, committed as int);
        lemma_step_trans(w0, w3, *world, committed as int);
        let cs = w0.creatures@;
        assert(world.creatures@ =~= turn_at(
            cs.update(a as int, Creature { delayed: Some(DelayedAction { action: act }), ..cs[a as int] }),
            a as int,
            TURN_COST as int,
        ));
    }
}

/// Resolves `action`: applies its effects to the actors, spawns the animations
/// that show them, logs its messages and spends the turn of its actor. The new
/// animations start after the animations already playing on the same entities.
pub fn handle_action(world: &mut World, action: Action)
    requires
        action_ok(*old(world), action),
    ensures
        step_ok(*old(world), *final(world), old(world).animations@.len() as int),
        resolved(*old(world), action, *final(world)),
        action.kind is GroundSlam ==> slam_done(*old(world), *final(world), action.actor as int),
        (match action.kind {
            ActionKind::BumpAttack { target } => bump_shown(*old(world), *final(world), action.actor as int,
                target as int, old(world).creatures@[action.actor as int].actor.pos,
                old(world).creatures@[target as int].actor.pos, 3),
            _ => true,
        }),
{
    let ghost w0 = *world;
    let a = action.actor;
    match action.kind {
        ActionKind::Wait => handle_wait(world, a),
        ActionKind::Meditate => handle_meditate(world, a),
        ActionKind::GroundSlam => handle_ground_slam(world, a),
        ActionKind::Move { from, to } => handle_move(world, a, from, to),
        ActionKind::BumpAttack { target } => handle_bump(world, a, target),
        ActionKind::RockThrow { path, target } => handle_ranged(world, a, target, path, DrawTile::Rock, MessageKind::ThrowsRock),
        ActionKind::ShootArrow { path, target } => handle_ranged(world, a, target, path, DrawTile::Arrow, MessageKind::ShootsArrow),
        ActionKind::JumpAttack { path, target } => handle_jump(world, a, target, path),
        ActionKind::Kick { target } => handle_kick(world, a, target),
        ActionKind::DelayedSmash { dir } => handle_prepare_smash(world, Action { actor: a, kind: ActionKind::DelayedSmash { dir } }),
    }
    proof {
        assert(world.animations@.subrange(0, w0.animations@.len() as int) =~= w0.animations@);
    }
}

/// What a ground slam of `a` guarantees: `a` spends a turn, nobody moves, and
/// hit points only go down.
pub open spec fn slam_done(old_w: World, new_w: World, a: int) -> bool {
    &&& new_w.creatures@.len() == old_w.creatures@.len()
    &&& new_w.creatures@[a].actor.next_turn == old_w.creatures@[a].actor.next_turn + TURN_COST
    &&& forall|j: int| 0 <= j < old_w.creatures@.len() ==> {
        &&& (#[trigger] new_w.creatures@[j]).actor.pos == old_w.creatures@[j].actor.pos
        &&& new_w.creatures@[j].actor.hp.current <= old_w.creatures@[j].actor.hp.current
        &&& new_w.creatures@[j].actor.hp.max == old_w.creatures@[j].actor.hp.max
        &&& j != a ==> new_w.creatures@[j].actor.next_turn == old_w.creatures@[j].actor.next_turn
    }
}

/// The actors of a slam in progress, after `k` hits.
spec fn slam_progress(w0: World, w: World, k: int) -> bool {
    &&& w.creatures@.len() == w0.creatures@.len()
    &&& forall|j: int| 0 <= j < w0.creatures@.len() ==> {
        let c = #[trigger] w.creatures@[j];
        let c0 = w0.creatures@[j];
        &&& c.actor.pos == c0.actor.pos
        &&& c.actor.next_turn == c0.actor.next_turn
        &&& c.actor.hp.max == c0.actor.hp.max
        &&& c0.actor.hp.current - 2 * k <= c.actor.hp.current <= c0.actor.hp.current
        &&& c.destroyed == c0.destroyed
        &&& c.player.is_some() == c0.player.is_some()
        &&& c.player.is_some() ==> {
            &&& c0.player.unwrap().pulse <= c.player.unwrap().pulse <= c0.player.unwrap().pulse + 3 * k
            &&& 0 <= c.player.unwrap().last_pulse_action <= TIME_LIMIT
        }
    }
}

fn handle_ground_slam(world: &mut World, a: usize)
    requires
        resolution_start(*old(world), a as int),
    ensures
        final(world).rng == old(world).rng,
        step_ok(*old(world), *final(world), old(world).animations@.len() as int),
        slam_done(*old(world), *final(world), a as int),
        final(world).creatures@ == actors_after(*old(world), ActionKind::GroundSlam.done_by_spec(a)),
{
    let committed = world.animations.len();
    let ghost w0 = *world;
    let now = world.now;
    let shake = crate::animation::spawn_camera_shake_animation(&mut world.animations, &mut world.next_id, committed, now);
    let ghost a1 = world.animations@;
    crate::animation::relate_shake_target(&mut world.animations, committed, now, shake, a);
    proof {
        crate::animation::lemma_spawn_ok_trans(w0.animations@, a1, world.animations@, committed as int, now as int);
        lemma_after_spawn(w0, *world, committed as int);
    }
    let ghost w1 = *world;
    log_message(world, committed, MessageKind::Stomps, a, a, 0, shake);
    proof { lemma_step_trans(w0, w1, *world, committed as int); }
    let epicenter = world.creatures[a].actor.pos;
    let ns = epicenter.neighbors(&world.map.tiles);
    proof {
        crate::pos::lemma_nbrs8_inside(epicenter, world.map.tiles.width as int, world.map.tiles.height as int, 8);
    }
    let mut i: usize = 0;
    while i < ns.len()
        invariant
            i <= ns@.len(),
            ns@.len() <= 8,
            w0.wf(),
            a < w0.creatures@.len(),
            committed == w0.animations@.len(),
            shake < world.animations@.len(),
            committed <= shake,
            world.animations@[shake as int].kind is CameraShake,
            world.now == w0.now,
            now == w0.now,
            0 <= now,
            world.map == w0.map,
            epicenter == w0.creatures@[a as int].actor.pos,
            forall|k: int| 0 <= k < ns@.len() ==> crate::pos::chebyshev(epicenter, #[trigger] ns@[k]) == 1,
            step_ok(w0, *world, committed as int),
            slam_progress(w0, *world, i as int),
            world.rng == w0.rng,
            ns@ == crate::pos::nbrs8(epicenter, w0.map.tiles.width as int, w0.map.tiles.height as int, 8),
            world.creatures@ == slam_effect(w0, w0.creatures@, a as int, ns@.subrange(0, i as int)),
        decreases ns@.len() - i,
    {
        let pos = ns[i];
        let ghost wi = *world;
        proof {
            assert(ns@.subrange(0, i + 1).drop_last() =~= ns@.subrange(0, i as int));
            assert(ns@.subrange(0, i + 1).last() == pos);
            lemma_occupant_same(w0, *world, pos);
        }
        match actor_at(world, pos) {
            Some(t) => {
                proof {
                    assert(occupant(w0, pos, t as int));
                    lemma_occupant_unique(w0, pos, t as int);
                }
                proof {
                    assert(t != a);
                    assert(creature_ok(w0.creatures@[t as int]));
                    assert(creature_ok(w0.creatures@[a as int]));
                }
                crate::animation::relate_shake_target(&mut world.animations, committed, now, shake, t);
                proof { lemma_after_spawn(wi, *world, committed as int); lemma_step_trans(w0, wi, *world, committed as int); }
                let ghost wj = *world;
                let hp_change = damage(world, committed, t, 2);
                proof { lemma_step_trans(w0, wj, *world, committed as int); }
                let ghost wk = *world;
                let hp_anim = crate::animation::spawn_hp_bar_animation(&mut world.animations, &mut world.next_id, committed, now, t, SLAM_HP_LENGTH, hp_change);
                proof {
                    lemma_after_spawn(wk, *world, committed as int);
                    lemma_step_trans(w0, wk, *world, committed as int);
                    assert(world.animations@.subrange(0, wk.animations@.len() as int)[shake as int] == world.animations@[shake as int]);
                }
                let ghost wl = *world;
                raise_pulse(world, committed, a);
                raise_pulse(world, committed, t);
                proof { lemma_step_trans(w0, wl, *world, committed as int); }
                let ghost wm = *world;
                handle_death(world, committed, t, hp_anim);
                proof {
                    lemma_step_trans(w0, wm, *world, committed as int);
                    assert(world.animations@[shake as int] == wm.animations@[shake as int]) by {
                        if world.animations@.len() > wm.animations@.len() {
                            assert(world.animations@.subrange(0, wm.animations@.len() as int)[shake as int] == world.animations@[shake as int]);
                        }
                    }
                }
            },
            None => {
                proof {
                    assert(!exists|t: int| occupant(w0, pos, t));
                }
            },
        }
        i += 1;
    }
    proof {
        assert(ns@.subrange(0, ns@.len() as int) =~= ns@);
    }
    let ghost w9 = *world;
    spend_turn(world, committed, a, TURN_COST);
    proof { lemma_step_trans(w0, w9, *world, committed as int); }
}

/// Who stands where depends only on positions and presence.
proof fn lemma_occupant_same(w0: World, w1: World, p: Pos)
    requires
        w1.creatures@.len() == w0.creatures@.len(),
        forall|j: int| 0 <= j < w0.creatures@.len() ==> (#[trigger] w1.creatures@[j]).actor.pos == w0.creatures@[j].actor.pos
            && w1.creatures@[j].destroyed == w0.creatures@[j].destroyed,
    ensures
        forall|t: int| occupant(w0, p, t) <==> occupant(w1, p, t),
{
    assert forall|j: int| #[trigger] present(w0, j) == present(w1, j) by {
        if 0 <= j < w0.creatures@.len() {
            assert(w1.creatures@[j].destroyed == w0.creatures@[j].destroyed);
        }
    }
    assert forall|t: int| occupant(w0, p, t) <==> occupant(w1, p, t) by {
        if 0 <= t < w0.creatures@.len() {
            assert(w1.creatures@[t].actor.pos == w0.creatures@[t].actor.pos);
        }
        assert forall|j: int| t < j < w0.creatures@.len() implies (present(w0, j) && (#[trigger] w0.creatures@[j]).actor.pos == p)
            == (present(w1, j) && w1.creatures@[j].actor.pos == p) by {
            if 0 <= j {
                assert(w1.creatures@[j].actor.pos == w0.creatures@[j].actor.pos);
            }
        }
    }
}

/// There is at most one last occupant.
pub proof fn lemma_occupant_unique(w: World, p: Pos, t: int)
    requires
        occupant(w, p, t),
    ensures
        last_occupant(w, p) == Some(t),
{
    let u = choose|u: int| occupant(w, p, u);
    if u < t {
        assert(!(present(w, t) && w.creatures@[t].actor.pos == p));
    } else if u > t {
        assert(!(present(w, u) && w.creatures@[u].actor.pos == p));
    }
}


/// `t` is the last created actor still in the world that stands on `p`.
pub open spec fn occupant(w: World, p: Pos, t: int) -> bool {
    &&& present(w, t)
    &&& w.creatures@[t].actor.pos == p
    &&& forall|j: int| t < j < w.creatures@.len() ==> !(present(w, j) && (#[trigger] w.creatures@[j]).actor.pos == p)
}

/// Removes and returns the prepared action of `e`, if it has one.
pub fn take_delayed_action(world: &mut World, e: usize) -> (r: Option<Action>)
    requires
        e < old(world).creatures@.len(),
    ensures
        r == match old(world).creatures@[e as int].delayed {
            Some(d) => Some(d.action),
            None => None,
        },
        final(world).creatures@ == old(world).creatures@.update(e as int, Creature { delayed: None, ..old(world).creatures@[e as int] }),
        final(world).animations == old(world).animations,
        final(world).log == old(world).log,
        final(world).map == old(world).map,
        final(world).now == old(world).now,
{
    let mut taken: Option<DelayedAction> = None;
    std::mem::swap(&mut taken, &mut world.creatures[e].delayed);
    proof {
        assert(world.creatures@ =~= old(world).creatures@.update(e as int, Creature { delayed: None, ..old(world).creatures@[e as int] }));
    }
    match taken {
        Some(d) => Some(d.action),
        None => None,
    }
}

/// Resolves a prepared smash on a later turn of its actor: it hits whoever
/// stands on the target square now, or nothing.
pub fn handle_delayed_action(world: &mut World, action: Action)
    requires
        resolution_start(*old(world), action.actor as int),
        (match action.kind {
            ActionKind::DelayedSmash { dir } => -1 <= dir.x <= 1 && -1 <= dir.y <= 1 && (dir.x != 0 || dir.y != 0),
            _ => false,
        }),
    ensures
        step_ok(*old(world), *final(world), old(world).animations@.len() as int),
        (match action.kind {
            ActionKind::DelayedSmash { dir } => {
                let a = action.actor as int;
                let p = old(world).creatures@[a].actor.pos;
                let target_pos = Pos { x: (p.x + dir.x) as i32, y: (p.y + dir.y) as i32 };
                &&& forall|t: int| occupant(*old(world), target_pos, t) ==> final(world).creatures@ == melee_effect(
                    old(world).creatures@,
                    a,
                    t,
                    3,
                )
                &&& (forall|j: int| 0 <= j < old(world).creatures@.len() ==> !(present(*old(world), j)
                    && (#[trigger] old(world).creatures@[j]).actor.pos == target_pos)) ==> final(world).creatures@
                    == turn_at(old(world).creatures@, a, TURN_COST as int)
            },
            _ => true,
        }),
{
    let a = action.actor;
    let dir = match &action.kind {
        ActionKind::DelayedSmash { dir } => *dir,
        _ => vstd::pervasive::unreached(),
    };
    let committed = world.animations.len();
    let ghost w0 = *world;
    proof { lemma_ok_loose(w0.creatures@[a as int]); }
    let apos = world.creatures[a].actor.pos;
    let target_pos = Pos::new(apos.x + dir.x, apos.y + dir.y);
    let now = world.now;
    match actor_at(world, target_pos) {
        Some(t) => {
            proof {
                lemma_ok_loose(w0.creatures@[t as int]);
                assert(t != a);
            }
            crate::animation::spawn_remove_dangerzone_animation(&mut world.animations, &mut world.next_id, committed, now, a);
            proof { lemma_after_spawn(w0, *world, committed as int); }
            let ghost w1 = *world;
            let hp_bar = damage(world, committed, t, 3);
            proof { lemma_step_trans(w0, w1, *world, committed as int); }
            let ghost w2 = *world;
            let tpos = world.creatures[t].actor.pos;
            let anim = crate::animation::spawn_bump_attack_animation(
                &mut world.animations, &mut world.next_id, &mut world.rng, committed, now, a, t, apos, tpos, hp_bar);
            proof { lemma_after_spawn(w2, *world, committed as int); lemma_step_trans(w0, w2, *world, committed as int); }
            let ghost w3 = *world;
            log_message(world, committed, MessageKind::Smashes, a, t, 3, anim);
            proof { lemma_step_trans(w0, w3, *world, committed as int); }
            let ghost w4 = *world;
            after_hit(world, committed, a, t, anim);
            proof { lemma_step_trans(w0, w4, *world, committed as int); }
            proof {
                assert forall|u: int| occupant(w0, target_pos, u) implies u == t by {
                    if u < t {
                        assert(!(present(w0, t as int) && w0.creatures@[t as int].actor.pos == target_pos));
                    } else if u > t {
                        assert(!(present(w0, u) && w0.creatures@[u].actor.pos == target_pos));
                    }
                }
            }
        },
        None => {
            let anim = crate::animation::spawn_remove_dangerzone_animation(&mut world.animations, &mut world.next_id, committed, now, a);
            proof { lemma_after_spawn(w0, *world, committed as int); }
            let ghost w1 = *world;
            log_message(world, committed, MessageKind::SmashesNothing, a, a, 0, anim);
            proof { lemma_step_trans(w0, w1, *world, committed as int); }
            proof {
                assert forall|u: int| !occupant(w0, target_pos, u) by {}
            }
        },
    }
    let ghost w5 = *world;
    spend_turn(world, committed, a, TURN_COST);
    proof { lemma_step_trans(w0, w5, *world, committed as int); }
}


/// Advances the animations to the time `world.now`: a started game-over
/// animation switches the interface to the state after death, and every
/// animation whose timer has finished is destroyed together with the entities
/// linked to it for cleanup; a finished decor spawn leaves its decor on the map.
pub fn handle_animations(world: &mut World)
    ensures
        final(world).animations@ == still_playing(old(world).animations@, old(world).now as int),
        final(world).creatures@.len() == old(world).creatures@.len(),
        forall|e: int| 0 <= e < old(world).creatures@.len() ==> (#[trigger] final(world).creatures@[e]) == (Creature {
            destroyed: old(world).creatures@[e].destroyed || cleaned_up(old(world).animations@, old(world).now as int, e),
            ..old(world).creatures@[e]
        }),
        final(world).ui == if game_over_started(old(world).animations@, old(world).now as int) {
            UIState::PostDeath
        } else {
            old(world).ui
        },
        final(world).map.tiles == old(world).map.tiles,
        final(world).map.decor@ == old(world).map.decor@ + landed_decor(old(world).animations@, old(world).now as int),
        final(world).now == old(world).now,
        final(world).log == old(world).log,
{
    let now = world.now;
    let ghost w0 = *world;
    let ghost olds = w0.animations@;
    let mut old_anims: Vec<Animation> = Vec::new();
    std::mem::swap(&mut old_anims, &mut world.animations);
    let mut kept: Vec<Animation> = Vec::new();
    let total = old_anims.len();
    let ghost n = olds.len();
    let mut i: usize = 0;
    while old_anims.len() > 0
        invariant
            i <= n,
            n == total,
            n == olds.len(),
            old_anims@ == olds.subrange(i as int, n as int),
            kept@ == still_playing(olds.subrange(0, i as int), now as int),
            world.now == now,
            world.creatures@.len() == w0.creatures@.len(),
            forall|e: int| 0 <= e < w0.creatures@.len() ==> (#[trigger] world.creatures@[e]) == (Creature {
                destroyed: w0.creatures@[e].destroyed || cleaned_up(olds.subrange(0, i as int), now as int, e),
                ..w0.creatures@[e]
            }),
            world.ui == if game_over_started(olds.subrange(0, i as int), now as int) { UIState::PostDeath } else { w0.ui },
            world.map.tiles == w0.map.tiles,
            world.map.decor@ == w0.map.decor@ + landed_decor(olds.subrange(0, i as int), now as int),
            world.log == w0.log,
        decreases old_anims@.len(),
    {
        proof {
            assert(old_anims@.len() == n - i);
        }
        let a = old_anims.remove(0);
        proof {
            assert(olds.subrange(i as int, n as int)[0] == olds[i as int]);
            assert(old_anims@ =~= olds.subrange(i + 1, n as int));
        }
        let ghost sub = olds.subrange(0, i as int);
        let ghost sub1 = olds.subrange(0, i + 1);
        proof {
            assert(sub1.drop_last() =~= sub);
            assert(sub1.last() == a);
        }
        let is_game_over = match &a.kind {
            AnimationKind::GameOver(_) => true,
            _ => false,
        };
        if is_game_over && a.timer.start <= now {
            world.ui = UIState::PostDeath;
        }
        proof {
            if game_over_started(sub, now as int) {
                let k = choose|k: int| 0 <= k < sub.len() && (#[trigger] sub[k]).kind is GameOver && sub[k].timer.start <= now;
                assert(sub1[k] == sub[k]);
            }
            if game_over_started(sub1, now as int) && !game_over_started(sub, now as int) {
                let k = choose|k: int| 0 <= k < sub1.len() && (#[trigger] sub1[k]).kind is GameOver && sub1[k].timer.start <= now;
                if k < i {
                    assert(sub[k] == sub1[k]);
                }
            }
        }
        let decor_due = match &a.kind {
            AnimationKind::DecorSpawn(d) => a.timer.end <= now,
            _ => false,
        };
        if decor_due {
            match &a.kind {
                AnimationKind::DecorSpawn(d) => {
                    world.map.add_decor(d.pos, d.decor);
                },
                _ => {},
            }
        }
        let playing = now < a.timer.end;
        if playing {
            kept.push(a);
        } else {
            let ghost wb = *world;
            let mut c: usize = 0;
            while c < a.cleanup.len()
                invariant
                    c <= a.cleanup@.len(),
                    n == olds.len(),
                    old_anims@ == olds.subrange(i + 1, n as int),
                    kept@ == still_playing(sub, now as int),
                    world.now == wb.now,
                    world.ui == wb.ui,
                    world.map == wb.map,
                    world.log == wb.log,
                    a == olds[i as int],
                    i < olds.len(),
                    world.creatures@.len() == w0.creatures@.len(),
                    forall|e: int| 0 <= e < w0.creatures@.len() ==> (#[trigger] world.creatures@[e]) == (Creature {
                        destroyed: w0.creatures@[e].destroyed || cleaned_up(sub, now as int, e)
                            || a.cleanup@.subrange(0, c as int).contains(e as usize),
                        ..w0.creatures@[e]
                    }),
                decreases a.cleanup@.len() - c,
            {
                let e = a.cleanup[c];
                let ghost before = world.creatures@;
                if e < world.creatures.len() {
                    world.creatures[e].destroyed = true;
                }
                proof {
                    assert(a.cleanup@.subrange(0, c + 1) =~= a.cleanup@.subrange(0, c as int).push(e));
                    assert forall|x: int| 0 <= x < w0.creatures@.len() implies (#[trigger] world.creatures@[x]) == (Creature {
                        destroyed: w0.creatures@[x].destroyed || cleaned_up(sub, now as int, x)
                            || a.cleanup@.subrange(0, c + 1).contains(x as usize),
                        ..w0.creatures@[x]
                    }) by {
                        let s0 = a.cleanup@.subrange(0, c as int);
                        let s1 = s0.push(e);
                        let y = x as usize;
                        if s1.contains(y) {
                            let k = choose|k: int| 0 <= k < s1.len() && s1[k] == y;
                            if k < s0.len() {
                                assert(s0[k] == y);
                            }
                        }
                        if s0.contains(y) {
                            let k = choose|k: int| 0 <= k < s0.len() && s0[k] == y;
                            assert(s1[k] == y);
                        }
                        if y == e {
                            assert(s1[s0.len() as int] == e);
                        }
                        assert(s1.contains(y) == (s0.contains(y) || y == e));
                        if x != e {
                            assert(world.creatures@[x] == before[x]);
                        }
                    }
                }
                c += 1;
            }
            proof {
                assert(a.cleanup@.subrange(0, a.cleanup@.len() as int) =~= a.cleanup@);
            }
        }
        proof {
            assert(world.map.decor@ =~= w0.map.decor@ + landed_decor(sub1, now as int));
            assert forall|e: int| 0 <= e < w0.creatures@.len() implies cleaned_up(sub1, now as int, e) == (cleaned_up(sub, now as int, e)
                || (!plays_on(olds[i as int], now as int) && olds[i as int].cleanup@.contains(e as usize))) by {
                if cleaned_up(sub, now as int, e) {
                    let k = choose|k: int| 0 <= k < sub.len() && !plays_on(#[trigger] sub[k], now as int) && sub[k].cleanup@.contains(e as usize);
                    assert(sub1[k] == sub[k]);
                }
                if cleaned_up(sub1, now as int, e) && !cleaned_up(sub, now as int, e) {
                    let k = choose|k: int| 0 <= k < sub1.len() && !plays_on(#[trigger] sub1[k], now as int) && sub1[k].cleanup@.contains(e as usize);
                    if k < i {
                        assert(sub[k] == sub1[k]);
                    }
                }
                if !plays_on(olds[i as int], now as int) && olds[i as int].cleanup@.contains(e as usize) {
                    assert(sub1[i as int] == olds[i as int]);
                }
            }
        }
        i += 1;
    }
    proof {
        assert(olds.subrange(0, olds.len() as int) =~= olds);
        assert(i == n) by {
            assert(old_anims@.len() == n - i);
        }
    }
    world.animations = kept;
}


/// What every resolution of `action` from `old_w` to `new_w` guarantees: the
/// animations that were playing stay, the new ones are sequenced after them,
/// time stands still, the random generator advances only for the blood of a
/// bump, and the actors are exactly as `actors_after` says.
pub open spec fn resolved(old_w: World, action: Action, new_w: World) -> bool {
    &&& new_w.now == old_w.now
    &&& new_w.rng@ == if action.kind is BumpAttack || action.kind is Kick {
        crate::rand::lcg_step(crate::rand::lcg_step(old_w.rng@))
    } else {
        old_w.rng@
    }
    &&& sequenced(new_w.animations@, old_w.animations@.len() as int, old_w.now as int)
    &&& old_w.animations@.len() <= new_w.animations@.len()
    &&& new_w.animations@.subrange(0, old_w.animations@.len() as int) == old_w.animations@
    &&& new_w.creatures@ == actors_after(old_w, action)
}

/// Resolving the same action in the same world gives the same actors and the
/// same random generator: with the scheduler's determinism, two runs from one
/// state through the same actions keep identical positions and hit points at
/// every step.
pub proof fn lemma_resolution_deterministic(w: World, action: Action, r1: World, r2: World)
    requires
        resolved(w, action, r1),
        resolved(w, action, r2),
    ensures
        r1.creatures@ == r2.creatures@,
        r1.rng == r2.rng,
{
    crate::rand::lemma_view_eq(r1.rng, r2.rng);
}

/// Two resolutions in the same tick that both animate `t`: every animation of
/// the second one on `t` starts no earlier than the end of every animation of
/// the first one on `t`, so their intervals do not overlap and keep the order
/// in which the actions were resolved.
pub proof fn lemma_animation_chaining(w0: World, a1: Action, w1: World, a2: Action, w2: World, t: usize, j: int, k: int)
    requires
        resolved(w0, a1, w1),
        resolved(w1, a2, w2),
        w0.animations@.len() <= j < w1.animations@.len(),
        w1.animations@.len() <= k < w2.animations@.len(),
        w2.animations@[j].targets@.contains(t),
        w2.animations@[k].targets@.contains(t),
        !(w2.animations@[k].kind is CameraShake),
    ensures
        w2.animations@[j] == w1.animations@[j],
        w2.animations@[j].timer.end <= w2.animations@[k].timer.start,
{
    assert(w2.animations@.subrange(0, w1.animations@.len() as int)[j] == w2.animations@[j]);
    let jt = choose|i: int| 0 <= i < w2.animations@[j].targets@.len() && w2.animations@[j].targets@[i] == t;
    assert(crate::animation::meets(w2.animations@[j], w2.animations@[k].targets@));
}


impl CreatureType {
    /// A fresh creature of this type standing on `pos`; the player character
    /// carries the player marker with a pulse of 60.
    pub fn create(self, pos: Pos) -> (r: Creature)
        ensures
            r.actor.pos == pos,
            r.actor.creature_type == self,
            r.actor.next_turn == 0,
            r.actor.hp.current == r.actor.hp.max,
            r.actor.hp.max == match self {
                CreatureType::PlayerCharacter => 30i32,
                CreatureType::Goblin => 5i32,
                CreatureType::GoblinBrute => 15i32,
                CreatureType::GoblinArcher => 5i32,
            },
            r.player == if self == CreatureType::PlayerCharacter {
                Some(Player { pulse: 60, last_pulse_action: 0 })
            } else {
                None
            },
            r.delayed.is_none(),
            !r.destroyed,
    {
        let (name, sprite, hp) = match self {
            CreatureType::PlayerCharacter => ("Player", CreatureSprite::Dwarf, HP::new(30)),
            CreatureType::Goblin => ("Goblin", CreatureSprite::Goblin, HP { max: 5, current: 5 }),
            CreatureType::GoblinBrute => ("Goblin Brute", CreatureSprite::GoblinBrute, HP::new(15)),
            CreatureType::GoblinArcher => ("Goblin Archer", CreatureSprite::GoblinArcher, HP::new(5)),
        };
        let player = match self {
            CreatureType::PlayerCharacter => Some(Player { pulse: 60, last_pulse_action: 0 }),
            _ => None,
        };
        Creature {
            actor: Actor { name: name.to_string(), pos, creature_type: self, sprite, hp, next_turn: 0 },
            player,
            delayed: None,
            destroyed: false,
            fov: Fov(Vec::new()),
        }
    }
}

/// A room whose tiles can be numbered without overflow.
pub open spec fn room_ok(r: crate::tile_map::Room) -> bool {
    &&& 0 < r.w
    &&& 0 <= r.h
    &&& r.w * r.h <= i32::MAX
    &&& -POS_LIMIT <= r.x && r.x + r.w <= POS_LIMIT
    &&& -POS_LIMIT <= r.y && r.y + r.h <= POS_LIMIT
}

/// Places a goblin on each tile of each room with a chance of 20 in 1000,
/// drawn from a generator seeded with `seed`.
pub fn place_enemies(world: &mut World, seed: u64)
    requires
        forall|i: int| 0 <= i < old(world).map.rooms@.len() ==> room_ok(#[trigger] old(world).map.rooms@[i]),
    ensures
        final(world).creatures@.len() >= old(world).creatures@.len(),
        final(world).creatures@.subrange(0, old(world).creatures@.len() as int) == old(world).creatures@,
        forall|k: int| old(world).creatures@.len() <= k < final(world).creatures@.len() ==> {
            let c = #[trigger] final(world).creatures@[k];
            &&& c.actor.creature_type == CreatureType::Goblin
            &&& c.actor.hp == (HP { max: 5, current: 5 })
            &&& c.player.is_none()
            &&& !c.destroyed
            &&& exists|i: int| 0 <= i < final(world).map.rooms@.len() && ({
                let r = #[trigger] final(world).map.rooms@[i];
                r.x <= c.actor.pos.x < r.x + r.w && r.y <= c.actor.pos.y < r.y + r.h
            })
        },
        final(world).map == old(world).map,
        final(world).animations == old(world).animations,
        final(world).now == old(world).now,
        final(world).ui == old(world).ui,
        final(world).turn == old(world).turn,
        final(world).rng == old(world).rng,
{
    let ghost n0 = world.creatures@.len();
    let ghost c0 = world.creatures@;
    let mut rand = RandomGenerator::new(seed);
    let mut ri: usize = 0;
    while ri < world.map.rooms.len()
        invariant
            ri <= world.map.rooms@.len(),
            world.map == old(world).map,
            world.animations == old(world).animations,
            world.now == old(world).now,
            world.ui == old(world).ui,
            world.turn == old(world).turn,
            world.rng == old(world).rng,
            forall|i: int| 0 <= i < world.map.rooms@.len() ==> room_ok(#[trigger] world.map.rooms@[i]),
            world.creatures@.len() >= n0,
            n0 == old(world).creatures@.len(),
            c0 == old(world).creatures@,
            world.creatures@.subrange(0, n0 as int) == c0,
            forall|k: int| n0 <= k < world.creatures@.len() ==> {
                let c = #[trigger] world.creatures@[k];
                &&& c.actor.creature_type == CreatureType::Goblin
                &&& c.actor.hp == (HP { max: 5, current: 5 })
                &&& c.player.is_none()
                &&& !c.destroyed
                &&& exists|i: int| 0 <= i < world.map.rooms@.len() && ({
                    let r = #[trigger] world.map.rooms@[i];
                    r.x <= c.actor.pos.x < r.x + r.w && r.y <= c.actor.pos.y < r.y + r.h
                })
            },
        decreases world.map.rooms@.len() - ri,
    {
        let room = world.map.rooms[ri];
        proof {
            assert(room_ok(world.map.rooms@[ri as int]));
        }
        assert(room.w * room.h >= 0) by (nonlinear_arith)
            requires
                0 < room.w,
                0 <= room.h,
        ;
        let count = room.tile_count();
        let mut t: i32 = 0;
        while t < count
            invariant
                0 <= t,
                count == room.w * room.h,
                room == world.map.rooms@[ri as int],
                ri < world.map.rooms@.len(),
                room_ok(room),
                world.map == old(world).map,
                world.animations == old(world).animations,
                world.now == old(world).now,
                world.ui == old(world).ui,
                world.turn == old(world).turn,
                world.rng == old(world).rng,
                forall|i: int| 0 <= i < world.map.rooms@.len() ==> room_ok(#[trigger] world.map.rooms@[i]),
                world.creatures@.len() >= n0,
                world.creatures@.subrange(0, n0 as int) == c0,
                forall|k: int| n0 <= k < world.creatures@.len() ==> {
                    let c = #[trigger] world.creatures@[k];
                    &&& c.actor.creature_type == CreatureType::Goblin
                    &&& c.actor.hp == (HP { max: 5, current: 5 })
                    &&& c.player.is_none()
                    &&& !c.destroyed
                    &&& exists|i: int| 0 <= i < world.map.rooms@.len() && ({
                        let r = #[trigger] world.map.rooms@[i];
                        r.x <= c.actor.pos.x < r.x + r.w && r.y <= c.actor.pos.y < r.y + r.h
                    })
                },
            decreases count - t,
        {
            if rand.next_in_range(0, 1000) <= 20 {
                assert(t / room.w < room.h) by (nonlinear_arith)
                    requires
                        0 <= t < room.w * room.h,
                        0 < room.w,
                ;
                assert(0 <= t / room.w) by (nonlinear_arith)
                    requires
                        0 <= t,
                        0 < room.w,
                ;
                let pos = room.tile_pos(t);
                let goblin = CreatureType::Goblin.create(pos);
                let ghost before = world.creatures@;
                world.creatures.push(goblin);
                proof {
                    assert(world.creatures@.subrange(0, n0 as int) =~= before.subrange(0, n0 as int));
                    let c = world.creatures@[before.len() as int];
                    assert(world.map.rooms@[ri as int] == room);
                    assert(room.x <= c.actor.pos.x < room.x + room.w && room.y <= c.actor.pos.y < room.y + room.h);
                    assert forall|k: int| n0 <= k < world.creatures@.len() implies {
                        let c = #[trigger] world.creatures@[k];
                        &&& c.actor.creature_type == CreatureType::Goblin
                        &&& c.actor.hp == (HP { max: 5, current: 5 })
                        &&& c.player.is_none()
                        &&& !c.destroyed
                        &&& exists|i: int| 0 <= i < world.map.rooms@.len() && ({
                            let r = #[trigger] world.map.rooms@[i];
                            r.x <= c.actor.pos.x < r.x + r.w && r.y <= c.actor.pos.y < r.y + r.h
                        })
                    } by {
                        if k < before.len() {
                            assert(world.creatures@[k] == before[k]);
                        }
                    }
                }
            }
            t += 1;
        }
        ri += 1;
    }
}

/// A new world on the map `tm`: the player character on the up stairs,
/// goblins in the rooms, nothing animating and the random generator seeded
/// with `seed`.
pub fn create_world(tm: TileMap, seed: u64) -> (w: World)
    requires
        forall|i: int| 0 <= i < tm.rooms@.len() ==> room_ok(#[trigger] tm.rooms@[i]),
    ensures
        w.creatures@.len() >= 1,
        w.creatures@[0].actor.creature_type == CreatureType::PlayerCharacter,
        w.creatures@[0].actor.pos == tm.up_stairs,
        w.creatures@[0].player.is_some(),
        w.animations@.len() == 0,
        w.now == 0,
        w.ui == UIState::Normal,
        w.turn.aut == 0,
        w.rng@ == seed,
{
    let start = tm.up_stairs;
    let mut creatures: Vec<Creature> = Vec::new();
    creatures.push(CreatureType::PlayerCharacter.create(start));
    let mut world = World {
        creatures,
        animations: Vec::new(),
        log: Vec::new(),
        map: tm,
        rng: RandomGenerator::new(seed),
        now: 0,
        ui: UIState::Normal,
        next_id: 0,
        turn: TurnCount { aut: 0 },
    };
    place_enemies(&mut world, seed);
    proof {
        assert(world.creatures@.subrange(0, 1)[0] == world.creatures@[0]);
    }
    world
}


/// Tells whether `action` may be resolved in `world`.
pub fn action_is_ok(world: &World, action: &Action) -> (r: bool)
    requires
        world.map.tiles.wf(),
    ensures
        r == action_ok(*world, *action),
{
    if !world.is_valid() {
        return false;
    }
    let a = action.actor;
    if a >= world.creatures.len() || world.creatures[a].destroyed || world.creatures[a].actor.hp.current <= 0 {
        return false;
    }
    let present_other = |t: usize| -> (b: bool)
        ensures
            b == (present(*world, t as int) && t != a),
        { t < world.creatures.len() && !world.creatures[t].destroyed && t != a };
    match &action.kind {
        ActionKind::Move { from, to } => -POS_LIMIT <= to.x && to.x <= POS_LIMIT && -POS_LIMIT <= to.y && to.y <= POS_LIMIT,
        ActionKind::BumpAttack { target } => present_other(*target),
        ActionKind::RockThrow { path, target } => present_other(*target),
        ActionKind::ShootArrow { path, target } => present_other(*target),
        ActionKind::JumpAttack { path, target } => {
            if !present_other(*target) || path.len() < 2 {
                false
            } else {
                let p = path[path.len() - 2];
                -POS_LIMIT <= p.x && p.x <= POS_LIMIT && -POS_LIMIT <= p.y && p.y <= POS_LIMIT
            }
        },
        ActionKind::Kick { target } => present_other(*target),
        ActionKind::DelayedSmash { dir } => -1 <= dir.x && dir.x <= 1 && -1 <= dir.y && dir.y <= 1,
        _ => true,
    }
}


/// The turn times of `new` are those of `old`, with `cost` more for `a`.
pub open spec fn turns_moved(old_cs: Seq<Creature>, new_cs: Seq<Creature>, a: int, cost: int) -> bool {
    &&& new_cs.len() == old_cs.len()
    &&& forall|j: int| 0 <= j < old_cs.len() ==> (#[trigger] new_cs[j]).actor.next_turn == old_cs[j].actor.next_turn + if j
        == a { cost } else { 0 }
}

/// How much turn time the actors have left below a common bound.
pub open spec fn turn_room(cs: Seq<Creature>) -> int
    decreases cs.len(),
{
    if cs.len() == 0 {
        0
    } else {
        turn_room(cs.drop_last()) + (TIME_LIMIT + 100 - cs.last().actor.next_turn)
    }
}

pub proof fn lemma_turn_room_moved(old_cs: Seq<Creature>, new_cs: Seq<Creature>, a: int, cost: int)
    requires
        turns_moved(old_cs, new_cs, a, cost),
        0 <= a < old_cs.len(),
    ensures
        turn_room(new_cs) == turn_room(old_cs) - cost,
    decreases old_cs.len(),
{
    let n = old_cs.len();
    if a == n - 1 {
        assert(new_cs.drop_last() =~= new_cs.drop_last());
        lemma_turn_room_same(old_cs.drop_last(), new_cs.drop_last());
    } else {
        assert(turns_moved(old_cs.drop_last(), new_cs.drop_last(), a, cost)) by {
            assert forall|j: int| 0 <= j < n - 1 implies (#[trigger] new_cs.drop_last()[j]).actor.next_turn
                == old_cs.drop_last()[j].actor.next_turn + if j == a { cost } else { 0 } by {
                assert(new_cs.drop_last()[j] == new_cs[j]);
            }
        }
        lemma_turn_room_moved(old_cs.drop_last(), new_cs.drop_last(), a, cost);
    }
}

pub proof fn lemma_turn_room_same(old_cs: Seq<Creature>, new_cs: Seq<Creature>)
    requires
        new_cs.len() == old_cs.len(),
        forall|j: int| 0 <= j < old_cs.len() ==> (#[trigger] new_cs[j]).actor.next_turn == old_cs[j].actor.next_turn,
    ensures
        turn_room(new_cs) == turn_room(old_cs),
    decreases old_cs.len(),
{
    if old_cs.len() > 0 {
        assert forall|j: int| 0 <= j < old_cs.len() - 1 implies (#[trigger] new_cs.drop_last()[j]).actor.next_turn
            == old_cs.drop_last()[j].actor.next_turn by {
            assert(new_cs.drop_last()[j] == new_cs[j]);
        }
        lemma_turn_room_same(old_cs.drop_last(), new_cs.drop_last());
    }
}

/// Turn time is never negative room when every turn stays near its bound.
pub proof fn lemma_turn_room_nonneg(cs: Seq<Creature>)
    requires
        forall|j: int| 0 <= j < cs.len() ==> (#[trigger] cs[j]).actor.next_turn <= TIME_LIMIT + 100,
    ensures
        turn_room(cs) >= 0,
    decreases cs.len(),
{
    if cs.len() > 0 {
        lemma_turn_room_nonneg(cs.drop_last());
    }
}

proof fn lemma_slam_turns(w: World, cs: Seq<Creature>, a: int, ns: Seq<Pos>)
    requires
        0 <= a < cs.len(),
        forall|t: int| #[trigger] occupant(w, ns.last(), t) ==> 0 <= t < cs.len(),
        forall|p: Pos, t: int| occupant(w, p, t) ==> 0 <= t < cs.len(),
    ensures
        turns_moved(cs, slam_effect(w, cs, a, ns), a, 0),
    decreases ns.len(),
{
    if ns.len() > 0 {
        lemma_slam_turns(w, cs, a, ns.drop_last());
        let prev = slam_effect(w, cs, a, ns.drop_last());
        match last_occupant(w, ns.last()) {
            Some(t) => {
                let u = choose|u: int| occupant(w, ns.last(), u);
                assert(occupant(w, ns.last(), u));
            },
            None => {},
        }
    }
}

/// Every resolution spends turn time of its actor only: 50 aut for meditation, 10 otherwise.
pub proof fn lemma_resolution_turns(w: World, action: Action)
    requires
        action_ok(w, action),
    ensures
        turns_moved(
            w.creatures@,
            actors_after(w, action),
            action.actor as int,
            if action.kind is Meditate { LONG_TURN_COST as int } else { TURN_COST as int },
        ),
{
    let cs = w.creatures@;
    let a = action.actor as int;
    match action.kind {
        ActionKind::GroundSlam => {
            assert forall|p: Pos, t: int| occupant(w, p, t) implies 0 <= t < cs.len() by {}
            lemma_slam_turns(w, cs, a, crate::pos::nbrs8(cs[a].actor.pos, w.map.tiles.width as int, w.map.tiles.height as int, 8));
        },
        _ => {},
    }
}


/// The start time of new animations is determined by the animations playing.
pub proof fn lemma_start_time_unique(anims: Seq<Animation>, committed: int, now: int, ts: Seq<usize>, t1: int, t2: int)
    requires
        is_start_time(anims, committed, now, ts, t1),
        is_start_time(anims, committed, now, ts, t2),
    ensures
        t1 == t2,
{
    if t1 != now {
        let k = choose|k: int| 0 <= k < committed && crate::animation::meets(#[trigger] anims[k], ts) && anims[k].timer.end == t1;
    }
    if t2 != now {
        let k = choose|k: int| 0 <= k < committed && crate::animation::meets(#[trigger] anims[k], ts) && anims[k].timer.end == t2;
    }
}

/// Two resolutions of the same bump attack in the same world agree on the
/// actors, the random generator and the timers of the bump and its HP bar.
pub proof fn lemma_bump_deterministic(w: World, action: Action, r1: World, r2: World)
    requires
        resolved(w, action, r1),
        resolved(w, action, r2),
        action.kind is BumpAttack,
        match action.kind {
            ActionKind::BumpAttack { target } => {
                &&& bump_shown(w, r1, action.actor as int, target as int, w.creatures@[action.actor as int].actor.pos,
                    w.creatures@[target as int].actor.pos, 3)
                &&& bump_shown(w, r2, action.actor as int, target as int, w.creatures@[action.actor as int].actor.pos,
                    w.creatures@[target as int].actor.pos, 3)
            },
            _ => false,
        },
    ensures
        r1.creatures@ == r2.creatures@,
        r1.rng == r2.rng,
        r1.animations@[w.animations@.len() as int].timer == r2.animations@[w.animations@.len() as int].timer,
        r1.animations@[w.animations@.len() as int + 1].timer == r2.animations@[w.animations@.len() as int + 1].timer,
{
    let c = w.animations@.len() as int;
    match action.kind {
        ActionKind::BumpAttack { target } => {
            lemma_start_time_unique(w.animations@, c, w.now as int, seq![action.actor, target],
                r1.animations@[c].timer.start as int, r2.animations@[c].timer.start as int);
        },
        _ => {},
    }
    assert(r1.rng@ == r2.rng@);
    crate::rand::lemma_view_eq(r1.rng, r2.rng);
}

} // verus!
