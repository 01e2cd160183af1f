use vstd::prelude::*;

use crate::game::HPBarAnimation;
use crate::pos::{IVec, Pos};
use crate::rand::RandomGenerator;
use crate::tiles::{Decor, DrawTile};

verus! {

/// Game time is counted in microseconds: animation lengths are exact in it.
pub const BUMP_LENGTH: i64 = 150_000;
pub const MOVE_LENGTH: i64 = 100_000;
pub const CAMERA_SHAKE_LENGTH: i64 = 70_000;
pub const CAMERA_MOVE_LENGTH: i64 = 500_000;
pub const GAME_OVER_LENGTH: i64 = 500_000;
pub const HP_BAR_AFTER_PROJECTILE_LENGTH: i64 = 70_000;
pub const PROJECTILE_STEP_LENGTH: i64 = 20_000;

/// Relation: animation -> the entity it visually affects.
pub struct AnimationTarget;

/// Relation: animation -> an entity that is destroyed together with the animation.
pub struct AnimationCleanup;

/// When an animation plays, in game time.
#[derive(Debug, Clone, Copy, PartialEq, Eq, Structural)]
pub struct AnimationTimer {
    pub start: i64,
    pub end: i64,
}

/// `a + b`, capped at the largest time.
pub open spec fn sat_add(a: int, b: int) -> int {
    if a + b > i64::MAX { i64::MAX as int } else { a + b }
}

impl AnimationTimer {
    /// A timer that starts at `start` and lasts `length`.
    pub fn new(start: i64, length: i64) -> (r: AnimationTimer)
        requires
            0 <= start,
            0 <= length,
        ensures
            r.start == start,
            r.end == sat_add(start as int, length as int),
    {
        let end = if start > i64::MAX - length { i64::MAX } else { start + length };
        AnimationTimer { start, end }
    }

    /// It has started.
    pub fn is_active(&self, current_time: i64) -> (r: bool)
        ensures
            r == (current_time >= self.start),
    {
        current_time >= self.start
    }

    /// It is over.
    pub fn is_finished(&self, current_time: i64) -> (r: bool)
        ensures
            r == (current_time >= self.end),
    {
        current_time >= self.end
    }
}

#[derive(Debug, Clone, Copy, PartialEq, Eq, Structural)]
pub struct DecorSpawnAnimation {
    pub decor: Decor,
    pub pos: Pos,
}

#[derive(Debug, Clone)]
pub struct ProjectilePathAnimation {
    pub sprite: DrawTile,
    pub path: Vec<Pos>,
}

/// Switches the interface to the state after death.
#[derive(Debug, Clone, Copy, PartialEq, Eq, Structural)]
pub struct GameOverAnimation {}

/// What an animation shows.
#[derive(Debug, Clone)]
pub enum AnimationKind {
    /// Only holds its targets for a while.
    Empty,
    Movement { start: Pos, end: Pos },
    BumpAttack { start: Pos, end: Pos },
    HPBar(HPBarAnimation),
    ProjectilePath(ProjectilePathAnimation),
    CameraShake,
    /// Moves the camera centre to the tile `to`.
    CameraMove { to: Pos },
    DecorSpawn(DecorSpawnAnimation),
    GameOver(GameOverAnimation),
    DangerZoneAdd { offsets: Vec<IVec> },
    DangerZoneRemove,
}

/// An animation entity: a timer, a payload, the entities it affects and the
/// entities destroyed with it.
#[derive(Debug, Clone)]
pub struct Animation {
    pub id: u64,
    pub timer: AnimationTimer,
    pub kind: AnimationKind,
    pub targets: Vec<usize>,
    pub cleanup: Vec<usize>,
}

/// The animation affects one of `ts`.
pub open spec fn meets(a: Animation, ts: Seq<usize>) -> bool {
    exists|i: int| 0 <= i < a.targets@.len() && ts.contains(#[trigger] a.targets@[i])
}

/// `t` is the time a new animation on `ts` may start: not before `now`, and
/// not before any of the first `committed` animations that affect one of `ts` ends.
pub open spec fn is_start_time(anims: Seq<Animation>, committed: int, now: int, ts: Seq<usize>, t: int) -> bool {
    &&& t >= now
    &&& forall|k: int| 0 <= k < committed && meets(#[trigger] anims[k], ts) ==> anims[k].timer.end <= t
    &&& (t == now || exists|k: int| 0 <= k < committed && meets(#[trigger] anims[k], ts) && anims[k].timer.end == t)
}

fn meets_exec(a: &Animation, ts: &Vec<usize>) -> (r: bool)
    ensures
        r == meets(*a, ts@),
{
    let mut i: usize = 0;
    while i < a.targets.len()
        invariant
            i <= a.targets@.len(),
            forall|j: int| 0 <= j < i ==> !ts@.contains(#[trigger] a.targets@[j]),
        decreases a.targets@.len() - i,
    {
        let mut k: usize = 0;
        while k < ts.len()
            invariant
                k <= ts@.len(),
                i < a.targets@.len(),
                forall|j: int| 0 <= j < k ==> ts@[j] != a.targets@[i as int],
            decreases ts@.len() - k,
        {
            if ts[k] == a.targets[i] {
                proof {
                    assert(ts@.contains(a.targets@[i as int]));
                }
                return true;
            }
            k += 1;
        }
        i += 1;
    }
    false
}

/// The earliest time an animation on `targets` may start without overlapping
/// any of the first `committed` animations that affect the same entities.
pub fn start_time(anims: &Vec<Animation>, committed: usize, now: i64, targets: &Vec<usize>) -> (r: i64)
    requires
        committed <= anims@.len(),
    ensures
        is_start_time(anims@, committed as int, now as int, targets@, r as int),
{
    let mut t = now;
    let mut k: usize = 0;
    while k < committed
        invariant
            committed <= anims@.len(),
            k <= committed,
            is_start_time(anims@, k as int, now as int, targets@, t as int),
        decreases committed - k,
    {
        if meets_exec(&anims[k], targets) && anims[k].timer.end > t {
            t = anims[k].timer.end;
        }
        k += 1;
    }
    t
}



/// Every animation spawned after the first `committed` ones (camera shakes
/// aside, which play at once) starts no earlier than `now` and no earlier than
/// the end of every committed animation that affects one of its targets.
pub open spec fn sequenced(anims: Seq<Animation>, committed: int, now: int) -> bool {
    forall|k: int|
        committed <= k < anims.len() && !(#[trigger] anims[k].kind is CameraShake) ==> {
            &&& anims[k].timer.start >= now
            &&& forall|j: int|
                0 <= j < committed && meets(anims[j], anims[k].targets@) ==> anims[j].timer.end <= anims[k].timer.start
        }
}

/// A spawn keeps the committed animations and keeps the list sequenced.
pub open spec fn spawn_ok(old_anims: Seq<Animation>, new_anims: Seq<Animation>, committed: int, now: int) -> bool {
    &&& 0 <= committed <= old_anims.len() <= new_anims.len()
    &&& new_anims.subrange(0, committed) == old_anims.subrange(0, committed)
    &&& sequenced(old_anims, committed, now) ==> sequenced(new_anims, committed, now)
}

proof fn lemma_meets_subset(a: Animation, small: Seq<usize>, big: Seq<usize>)
    requires
        forall|x: usize| small.contains(x) ==> big.contains(x),
        meets(a, small),
    ensures
        meets(a, big),
{
    let i = choose|i: int| 0 <= i < a.targets@.len() && small.contains(#[trigger] a.targets@[i]);
    assert(big.contains(a.targets@[i]));
}

/// Appends an animation without targets or cleanup links; returns its index.
fn push_animation(anims: &mut Vec<Animation>, ids: &mut u64, timer: AnimationTimer, kind: AnimationKind, targets: Vec<usize>) -> (r: usize)
    ensures
        r == old(anims)@.len(),
        final(anims)@ == old(anims)@.push(final(anims)@[r as int]),
        final(anims)@[r as int].id == *old(ids),
        final(anims)@[r as int].timer == timer,
        final(anims)@[r as int].kind == kind,
        final(anims)@[r as int].targets@ == targets@,
        final(anims)@[r as int].cleanup@.len() == 0,
        *final(ids) == old(ids).wrapping_add(1),
{
    let id = *ids;
    *ids = ids.wrapping_add(1);
    let r = anims.len();
    anims.push(Animation { id, timer, kind, targets, cleanup: Vec::new() });
    r
}

/// Proves that a freshly pushed animation keeps the list sequenced.
proof fn lemma_push_sequenced(old_anims: Seq<Animation>, new_anims: Seq<Animation>, committed: int, now: int, ts: Seq<usize>, st: int)
    requires
        0 <= committed <= old_anims.len(),
        new_anims.len() == old_anims.len() + 1,
        new_anims.subrange(0, old_anims.len() as int) == old_anims,
        is_start_time(old_anims, committed, now, ts, st),
        new_anims.last().timer.start >= st,
        forall|x: usize| new_anims.last().targets@.contains(x) ==> ts.contains(x),
        sequenced(old_anims, committed, now),
    ensures
        sequenced(new_anims, committed, now),
{
    let n = old_anims.len() as int;
    assert forall|k: int| committed <= k < new_anims.len() && !(#[trigger] new_anims[k].kind is CameraShake) implies {
        &&& new_anims[k].timer.start >= now
        &&& forall|j: int|
            0 <= j < committed && meets(new_anims[j], new_anims[k].targets@) ==> new_anims[j].timer.end
                <= new_anims[k].timer.start
    } by {
        if k < n {
            assert(new_anims.subrange(0, n)[k] == new_anims[k]);
            assert(new_anims[k] == old_anims[k]);
            assert forall|j: int| 0 <= j < committed && meets(new_anims[j], new_anims[k].targets@) implies new_anims[j].timer.end
                <= new_anims[k].timer.start by {
                assert(new_anims[j] == old_anims[j]);
            }
        } else {
            assert forall|j: int| 0 <= j < committed && meets(new_anims[j], new_anims[k].targets@) implies new_anims[j].timer.end
                <= new_anims[k].timer.start by {
                assert(new_anims[j] == old_anims[j]);
                lemma_meets_subset(new_anims[j], new_anims[k].targets@, ts);
            }
        }
    }
}

/// Appends an animation on a subset of `ts` starting no earlier than the start
/// time `st` computed for `ts`; returns its index.
pub(crate) fn push_after(
    anims: &mut Vec<Animation>,
    ids: &mut u64,
    committed: usize,
    now: i64,
    ts: Ghost<Seq<usize>>,
    st: i64,
    timer: AnimationTimer,
    kind: AnimationKind,
    targets: Vec<usize>,
) -> (r: usize)
    requires
        committed <= old(anims)@.len(),
        is_start_time(old(anims)@, committed as int, now as int, ts@, st as int),
        timer.start >= st,
        forall|x: usize| targets@.contains(x) ==> ts@.contains(x),
    ensures
        spawn_ok(old(anims)@, final(anims)@, committed as int, now as int),
        is_start_time(final(anims)@, committed as int, now as int, ts@, st as int),
        r == old(anims)@.len(),
        final(anims)@ == old(anims)@.push(final(anims)@[r as int]),
        final(anims)@.len() == old(anims)@.len() + 1,
        final(anims)@.subrange(0, old(anims)@.len() as int) == old(anims)@,
        final(anims)@[r as int].timer == timer,
        final(anims)@[r as int].kind == kind,
        final(anims)@[r as int].targets@ == targets@,
        final(anims)@[r as int].cleanup@.len() == 0,
{
    let ghost before = anims@;
    let ghost tv = targets@;
    let r = push_animation(anims, ids, timer, kind, targets);
    proof {
        let n = before.len() as int;
        assert(anims@ == before.push(anims@[r as int]));
        assert(anims@.subrange(0, n) =~= before);
        assert forall|k: int| 0 <= k < n implies anims@[k] == before[k] by {
            assert(anims@.subrange(0, n)[k] == anims@[k]);
        }
        assert(anims@.subrange(0, committed as int) =~= before.subrange(0, committed as int));
        if sequenced(before, committed as int, now as int) {
            lemma_push_sequenced(before, anims@, committed as int, now as int, ts@, st as int);
        }
        if st != now {
            let k = choose|k: int| 0 <= k < committed && meets(#[trigger] before[k], ts@) && before[k].timer.end == st;
            assert(anims@[k] == before[k]);
        }
        assert forall|k: int| 0 <= k < committed && meets(#[trigger] anims@[k], ts@) implies anims@[k].timer.end <= st by {
            assert(anims@[k] == before[k]);
        }
    }
    r
}

pub(crate) proof fn lemma_spawn_ok_trans(a: Seq<Animation>, b: Seq<Animation>, c: Seq<Animation>, committed: int, now: int)
    requires
        spawn_ok(a, b, committed, now),
        spawn_ok(b, c, committed, now),
    ensures
        spawn_ok(a, c, committed, now),
{

}

/// An animation on `target` with payload `kind` that lasts `animation_length`
/// and starts once the earlier animations on `target` are over; returns its index.
fn spawn_timed(anims: &mut Vec<Animation>, ids: &mut u64, committed: usize, now: i64, target: usize, animation_length: i64, kind: AnimationKind) -> (r: usize)
    requires
        committed <= old(anims)@.len(),
        0 <= now,
        0 <= animation_length,
    ensures
        spawn_ok(old(anims)@, final(anims)@, committed as int, now as int),
        final(anims)@.len() == old(anims)@.len() + 1,
        final(anims)@.subrange(0, old(anims)@.len() as int) == old(anims)@,
        r == old(anims)@.len(),
        final(anims)@[r as int].kind == kind,
        final(anims)@[r as int].targets@ == seq![target],
        final(anims)@[r as int].timer.start >= now,
        final(anims)@[r as int].cleanup@.len() == 0,
{
    let ts = vec![target];
    let ghost tsv = ts@;
    assert(tsv =~= seq![target]);
    let start = start_time(anims, committed, now, &ts);
    push_after(anims, ids, committed, now, Ghost(tsv), start, AnimationTimer::new(start, animation_length), kind, ts)
}

/// An animation that only holds `target` for `animation_length`; returns its index.
pub fn spawn_empty_animation(anims: &mut Vec<Animation>, ids: &mut u64, committed: usize, now: i64, target: usize, animation_length: i64) -> (r: usize)
    requires
        committed <= old(anims)@.len(),
        0 <= now,
        0 <= animation_length,
    ensures
        spawn_ok(old(anims)@, final(anims)@, committed as int, now as int),
        final(anims)@.len() == old(anims)@.len() + 1,
        final(anims)@.subrange(0, old(anims)@.len() as int) == old(anims)@,
        r == old(anims)@.len(),
        final(anims)@[r as int].kind is Empty,
        final(anims)@[r as int].targets@ == seq![target],
        final(anims)@[r as int].cleanup@.len() == 0,
{
    spawn_timed(anims, ids, committed, now, target, animation_length, AnimationKind::Empty)
}

/// An HP bar change on `target` lasting `animation_length`; returns its index.
pub fn spawn_hp_bar_animation(anims: &mut Vec<Animation>, ids: &mut u64, committed: usize, now: i64, target: usize, animation_length: i64, hp: HPBarAnimation) -> (r: usize)
    requires
        committed <= old(anims)@.len(),
        0 <= now,
        0 <= animation_length,
    ensures
        spawn_ok(old(anims)@, final(anims)@, committed as int, now as int),
        final(anims)@.len() == old(anims)@.len() + 1,
        final(anims)@.subrange(0, old(anims)@.len() as int) == old(anims)@,
        r == old(anims)@.len(),
        final(anims)@[r as int].kind == AnimationKind::HPBar(hp),
        final(anims)@[r as int].targets@ == seq![target],
        final(anims)@[r as int].cleanup@.len() == 0,
{
    spawn_timed(anims, ids, committed, now, target, animation_length, AnimationKind::HPBar(hp))
}

/// Moves `e` from `start` to `end`; returns the index of the animation.
pub fn spawn_move_animation(anims: &mut Vec<Animation>, ids: &mut u64, committed: usize, now: i64, e: usize, start: Pos, end: Pos) -> (r: usize)
    requires
        committed <= old(anims)@.len(),
        0 <= now,
    ensures
        spawn_ok(old(anims)@, final(anims)@, committed as int, now as int),
        final(anims)@.len() == old(anims)@.len() + 1,
        final(anims)@.subrange(0, old(anims)@.len() as int) == old(anims)@,
        r == old(anims)@.len(),
        final(anims)@[r as int].kind == (AnimationKind::Movement { start, end }),
        final(anims)@[r as int].targets@ == seq![e],
        final(anims)@[r as int].timer.start >= now,
{
    spawn_timed(anims, ids, committed, now, e, MOVE_LENGTH, AnimationKind::Movement { start, end })
}

/// Ends the game for `target` once its other animations are over.
pub fn spawn_game_over_animation(anims: &mut Vec<Animation>, ids: &mut u64, committed: usize, now: i64, target: usize) -> (r: usize)
    requires
        committed <= old(anims)@.len(),
        0 <= now,
    ensures
        spawn_ok(old(anims)@, final(anims)@, committed as int, now as int),
        final(anims)@.len() == old(anims)@.len() + 1,
        final(anims)@.subrange(0, old(anims)@.len() as int) == old(anims)@,
        r == old(anims)@.len(),
        final(anims)@[r as int].kind is GameOver,
        final(anims)@[r as int].targets@ == seq![target],
{
    spawn_timed(anims, ids, committed, now, target, GAME_OVER_LENGTH, AnimationKind::GameOver(GameOverAnimation {}))
}

/// Shows the tiles a prepared attack of `actor` will hit.
pub fn spawn_add_dangerzone_animation(anims: &mut Vec<Animation>, ids: &mut u64, committed: usize, now: i64, actor: usize, offsets: Vec<IVec>) -> (r: usize)
    requires
        committed <= old(anims)@.len(),
        0 <= now,
    ensures
        spawn_ok(old(anims)@, final(anims)@, committed as int, now as int),
        final(anims)@.len() == old(anims)@.len() + 1,
        final(anims)@.subrange(0, old(anims)@.len() as int) == old(anims)@,
        r == old(anims)@.len(),
        final(anims)@[r as int].kind is DangerZoneAdd,
        final(anims)@[r as int].targets@ == seq![actor],
{
    spawn_timed(anims, ids, committed, now, actor, 0, AnimationKind::DangerZoneAdd { offsets })
}

/// Hides the tiles a prepared attack of `actor` was going to hit.
pub fn spawn_remove_dangerzone_animation(anims: &mut Vec<Animation>, ids: &mut u64, committed: usize, now: i64, actor: usize) -> (r: usize)
    requires
        committed <= old(anims)@.len(),
        0 <= now,
    ensures
        spawn_ok(old(anims)@, final(anims)@, committed as int, now as int),
        final(anims)@.len() == old(anims)@.len() + 1,
        final(anims)@.subrange(0, old(anims)@.len() as int) == old(anims)@,
        r == old(anims)@.len(),
        final(anims)@[r as int].kind is DangerZoneRemove,
        final(anims)@[r as int].targets@ == seq![actor],
{
    spawn_timed(anims, ids, committed, now, actor, 0, AnimationKind::DangerZoneRemove)
}

/// A camera shake that plays at once; its targets are added by the caller.
pub fn spawn_camera_shake_animation(anims: &mut Vec<Animation>, ids: &mut u64, committed: usize, now: i64) -> (r: usize)
    requires
        committed <= old(anims)@.len(),
        0 <= now,
    ensures
        spawn_ok(old(anims)@, final(anims)@, committed as int, now as int),
        final(anims)@.len() == old(anims)@.len() + 1,
        final(anims)@.subrange(0, old(anims)@.len() as int) == old(anims)@,
        r == old(anims)@.len(),
        final(anims)@[r as int].kind is CameraShake,
        final(anims)@[r as int].timer.start == now,
{
    let ghost before = anims@;
    let r = push_animation(anims, ids, AnimationTimer::new(now, CAMERA_SHAKE_LENGTH), AnimationKind::CameraShake, Vec::new());
    proof {
        let n = before.len() as int;
        assert(anims@.subrange(0, n) =~= before);
        assert forall|k: int| 0 <= k < n implies anims@[k] == before[k] by {
            assert(anims@.subrange(0, n)[k] == anims@[k]);
        }
        assert(anims@.subrange(0, committed as int) =~= before.subrange(0, committed as int));
    }
    r
}

/// Keeps every animation but the one at `idx` and keeps the list sequenced,
/// given that the one at `idx` is new and keeps its timer and targets or is a camera shake.
proof fn lemma_replace_new(before: Seq<Animation>, after: Seq<Animation>, committed: int, now: int, idx: int)
    requires
        0 <= committed <= idx < before.len(),
        after.len() == before.len(),
        forall|k: int| 0 <= k < before.len() && k != idx ==> after[k] == before[k],
        (after[idx].kind is CameraShake) || (after[idx].timer == before[idx].timer && after[idx].targets@
            == before[idx].targets@ && !(before[idx].kind is CameraShake)),
    ensures
        spawn_ok(before, after, committed, now),
{
    assert(after.subrange(0, committed) =~= before.subrange(0, committed));
    if sequenced(before, committed, now) {
        assert forall|k: int| committed <= k < after.len() && !(#[trigger] after[k].kind is CameraShake) implies {
            &&& after[k].timer.start >= now
            &&& forall|j: int|
                0 <= j < committed && meets(after[j], after[k].targets@) ==> after[j].timer.end <= after[k].timer.start
        } by {
            assert forall|j: int| 0 <= j < committed && meets(after[j], after[k].targets@) implies after[j].timer.end
                <= after[k].timer.start by {
                assert(after[j] == before[j]);
                if k == idx {
                    assert(meets(before[j], before[k].targets@));
                }
            }
        }
    }
}

/// Adds `target` to the targets of the camera shake at `idx`.
pub fn relate_shake_target(anims: &mut Vec<Animation>, committed: usize, now: i64, idx: usize, target: usize)
    requires
        committed <= idx < old(anims)@.len(),
        old(anims)@[idx as int].kind is CameraShake,
    ensures
        spawn_ok(old(anims)@, final(anims)@, committed as int, now as int),
        final(anims)@.len() == old(anims)@.len(),
        final(anims)@[idx as int].kind is CameraShake,
        final(anims)@[idx as int].targets@ == old(anims)@[idx as int].targets@.push(target),
        forall|k: int| 0 <= k < old(anims)@.len() && k != idx ==> final(anims)@[k] == old(anims)@[k],
{
    let ghost before = anims@;
    anims[idx].targets.push(target);
    proof {
        lemma_replace_new(before, anims@, committed as int, now as int, idx as int);
    }
}

/// Destroys `e` together with the animation at `idx`.
pub fn add_cleanup(anims: &mut Vec<Animation>, committed: usize, now: i64, idx: usize, e: usize)
    requires
        committed <= idx < old(anims)@.len(),
    ensures
        spawn_ok(old(anims)@, final(anims)@, committed as int, now as int),
        final(anims)@.len() == old(anims)@.len(),
        final(anims)@[idx as int].cleanup@ == old(anims)@[idx as int].cleanup@.push(e),
        forall|k: int| 0 <= k < old(anims)@.len() && k != idx ==> final(anims)@[k] == old(anims)@[k],
        final(anims)@[idx as int].timer == old(anims)@[idx as int].timer,
        final(anims)@[idx as int].id == old(anims)@[idx as int].id,
        final(anims)@[idx as int].kind == old(anims)@[idx as int].kind,
        final(anims)@[idx as int].targets@ == old(anims)@[idx as int].targets@,
{
    let ghost before = anims@;
    anims[idx].cleanup.push(e);
    proof {
        if !(before[idx as int].kind is CameraShake) {
            lemma_replace_new(before, anims@, committed as int, now as int, idx as int);
        } else {
            lemma_replace_new(before, anims@, committed as int, now as int, idx as int);
        }
    }
}

/// Moves the camera to `goal` at the pace of the animation at `sync_anim`.
pub fn add_camera_move(anims: &mut Vec<Animation>, ids: &mut u64, committed: usize, now: i64, sync_anim: usize, goal: Pos) -> (r: usize)
    requires
        committed <= old(anims)@.len(),
        sync_anim < old(anims)@.len(),
        old(anims)@[sync_anim as int].timer.start >= now,
        0 <= now,
    ensures
        spawn_ok(old(anims)@, final(anims)@, committed as int, now as int),
        final(anims)@.len() == old(anims)@.len() + 1,
        final(anims)@.subrange(0, old(anims)@.len() as int) == old(anims)@,
        r == old(anims)@.len(),
        final(anims)@[r as int].kind == (AnimationKind::CameraMove { to: goal }),
        final(anims)@[r as int].timer.start == old(anims)@[sync_anim as int].timer.start,
        final(anims)@[r as int].targets@.len() == 0,
{
    let start = anims[sync_anim].timer.start;
    let ghost before = anims@;
    let r = push_animation(anims, ids, AnimationTimer::new(start, CAMERA_MOVE_LENGTH), AnimationKind::CameraMove { to: goal }, Vec::new());
    proof {
        let n = before.len() as int;
        assert(anims@.subrange(0, n) =~= before);
        assert forall|k: int| 0 <= k < n implies anims@[k] == before[k] by {
            assert(anims@.subrange(0, n)[k] == anims@[k]);
        }
        assert(anims@.subrange(0, committed as int) =~= before.subrange(0, committed as int));
        if sequenced(before, committed as int, now as int) {
            assert forall|k: int| committed <= k < anims@.len() && !(#[trigger] anims@[k].kind is CameraShake) implies {
                &&& anims@[k].timer.start >= now
                &&& forall|j: int|
                    0 <= j < committed && meets(anims@[j], anims@[k].targets@) ==> anims@[j].timer.end <= anims@[k].timer.start
            } by {
                if k < n {
                    assert(anims@[k] == before[k]);
                    assert forall|j: int| 0 <= j < committed && meets(anims@[j], anims@[k].targets@) implies anims@[j].timer.end
                        <= anims@[k].timer.start by {
                        assert(anims@[j] == before[j]);
                    }
                }
            }
        }
    }
    r
}


/// A bump of `e` towards `target`, the HP bar change of `target` halfway in and
/// blood on the ground next to `end_p`; returns the index of the bump.
#[verifier::rlimit(60)]
pub fn spawn_bump_attack_animation(
    anims: &mut Vec<Animation>,
    ids: &mut u64,
    rand: &mut RandomGenerator,
    committed: usize,
    now: i64,
    e: usize,
    target: usize,
    start_p: Pos,
    end_p: Pos,
    hp_bar_animation: HPBarAnimation,
) -> (r: usize)
    requires
        committed <= old(anims)@.len(),
        0 <= now,
        i32::MIN < end_p.x < i32::MAX,
        i32::MIN < end_p.y < i32::MAX,
    ensures
        spawn_ok(old(anims)@, final(anims)@, committed as int, now as int),
        final(anims)@.len() == old(anims)@.len() + 3,
        final(anims)@.subrange(0, old(anims)@.len() as int) == old(anims)@,
        r == old(anims)@.len(),
        final(anims)@[r as int].kind == (AnimationKind::BumpAttack { start: start_p, end: end_p }),
        final(anims)@[r as int].targets@ == seq![e],
        final(anims)@[r as int].cleanup@.len() == 0,
        final(anims)@[r + 1].kind == AnimationKind::HPBar(hp_bar_animation),
        final(anims)@[r + 1].targets@ == seq![target],
        final(anims)@[r + 1].timer.start >= final(anims)@[r as int].timer.start,
        final(anims)@[r + 2].kind is DecorSpawn,
        final(anims)@[r + 2].targets@ == seq![target],
        final(rand)@ == crate::rand::lcg_step(crate::rand::lcg_step(old(rand)@)),
        ({
            let st = final(anims)@[r as int].timer.start as int;
            let dir = crate::rand::dir9(((crate::rand::lcg_step(old(rand)@) / 32) % 9) as int);
            let pick = (crate::rand::lcg_step(crate::rand::lcg_step(old(rand)@)) / 32) as int % 2;
            &&& is_start_time(old(anims)@, committed as int, now as int, seq![e, target], st)
            &&& final(anims)@[r as int].timer.end == sat_add(st, BUMP_LENGTH as int)
            &&& final(anims)@[r + 1].timer.start == sat_add(st, BUMP_LENGTH / 2)
            &&& final(anims)@[r + 1].timer.end == sat_add(sat_add(st, BUMP_LENGTH / 2), BUMP_LENGTH / 2)
            &&& final(anims)@[r + 2].timer.start == sat_add(st, BUMP_LENGTH * 3 / 4)
            &&& final(anims)@[r + 2].timer.end == final(anims)@[r + 2].timer.start
            &&& final(anims)@[r + 2].kind == AnimationKind::DecorSpawn(DecorSpawnAnimation {
                decor: if pick == 0 { Decor::BloodRed1 } else { Decor::BloodRed2 },
                pos: Pos { x: (end_p.x + dir.0) as i32, y: (end_p.y + dir.1) as i32 },
            })
        }),
{
    let ts = vec![e, target];
    let ghost tsv = ts@;
    assert(tsv =~= seq![e, target]);
    let start_time = start_time(anims, committed, now, &ts);
    let ghost a0 = anims@;

    // bump animation
    let te = vec![e];
    assert(te@ =~= seq![e]);
    assert(forall|x: usize| te@.contains(x) ==> tsv.contains(x)) by {
        assert(tsv[0] == e);
    }
    let r = push_after(anims, ids, committed, now, Ghost(tsv), start_time,
        AnimationTimer::new(start_time, BUMP_LENGTH), AnimationKind::BumpAttack { start: start_p, end: end_p }, te);
    let ghost a1 = anims@;

    // hp bar animation
    let tt = vec![target];
    assert(tt@ =~= seq![target]);
    assert(forall|x: usize| tt@.contains(x) ==> tsv.contains(x)) by {
        assert(tsv[1] == target);
    }
    let half = if start_time > i64::MAX - BUMP_LENGTH / 2 { i64::MAX } else { start_time + BUMP_LENGTH / 2 };
    push_after(anims, ids, committed, now, Ghost(tsv), start_time,
        AnimationTimer::new(half, BUMP_LENGTH / 2), AnimationKind::HPBar(hp_bar_animation), tt);
    let ghost a2 = anims@;

    // blood on the ground
    let dir = rand.random_direction();
    let decor_pos = Pos::new(end_p.x + dir.0, end_p.y + dir.1);
    let options = vec![Decor::BloodRed1, Decor::BloodRed2];
    assert(options@ =~= seq![Decor::BloodRed1, Decor::BloodRed2]);
    let decor = rand.pick_random(options.as_slice());
    let tt2 = vec![target];
    assert(tt2@ =~= seq![target]);
    assert(forall|x: usize| tt2@.contains(x) ==> tsv.contains(x)) by {
        assert(tsv[1] == target);
    }
    let three_quarters = if start_time > i64::MAX - BUMP_LENGTH * 3 / 4 {
        i64::MAX
    } else {
        start_time + BUMP_LENGTH * 3 / 4
    };
    push_after(anims, ids, committed, now, Ghost(tsv), start_time,
        AnimationTimer::new(three_quarters, 0), AnimationKind::DecorSpawn(DecorSpawnAnimation { decor, pos: decor_pos }), tt2);
    proof {
        lemma_spawn_ok_trans(a0, a1, a2, committed as int, now as int);
        lemma_spawn_ok_trans(a0, a2, anims@, committed as int, now as int);
        assert(anims@.subrange(0, a0.len() as int) =~= a0);
        assert(anims@[r as int] == a1[r as int]);
        assert(anims@[r + 1] == a2[r + 1]);
        assert(BUMP_LENGTH / 2 == 75_000);
        assert(BUMP_LENGTH * 3 / 4 == 112_500);
    }
    r
}

/// A projectile flying along `path` to `target`, then the HP bar change of
/// `target`; returns the index of the HP bar animation.
pub fn spawn_projectile_animation(
    anims: &mut Vec<Animation>,
    ids: &mut u64,
    committed: usize,
    now: i64,
    projectile_sprite: DrawTile,
    path: Vec<Pos>,
    hp_bar_animation: HPBarAnimation,
    target: usize,
) -> (r: usize)
    requires
        committed <= old(anims)@.len(),
        0 <= now,
    ensures
        spawn_ok(old(anims)@, final(anims)@, committed as int, now as int),
        final(anims)@.len() == old(anims)@.len() + 2,
        final(anims)@.subrange(0, old(anims)@.len() as int) == old(anims)@,
        r == old(anims)@.len() + 1,
        final(anims)@[r - 1].kind is ProjectilePath,
        final(anims)@[r - 1].targets@ == seq![target],
        final(anims)@[r as int].kind == AnimationKind::HPBar(hp_bar_animation),
        final(anims)@[r as int].targets@ == seq![target],
        final(anims)@[r as int].cleanup@.len() == 0,
        final(anims)@[r as int].timer.start >= final(anims)@[r - 1].timer.end,
{
    let steps: i64 = if path.len() < 5 { path.len() as i64 } else { 5 };
    let animation_length = PROJECTILE_STEP_LENGTH * steps;
    let ts = vec![target];
    let ghost tsv = ts@;
    assert(tsv =~= seq![target]);
    let start_time = start_time(anims, committed, now, &ts);
    let ghost a0 = anims@;
    let tt = vec![target];
    assert(tt@ =~= seq![target]);
    let fly = AnimationTimer::new(start_time, animation_length);
    push_after(anims, ids, committed, now, Ghost(tsv), start_time, fly,
        AnimationKind::ProjectilePath(ProjectilePathAnimation { path, sprite: projectile_sprite }), tt);
    let ghost a1 = anims@;
    // the HP bar animation starts after the hit
    let r = push_after(anims, ids, committed, now, Ghost(tsv), start_time,
        AnimationTimer::new(fly.end, HP_BAR_AFTER_PROJECTILE_LENGTH), AnimationKind::HPBar(hp_bar_animation), ts);
    proof {
        lemma_spawn_ok_trans(a0, a1, anims@, committed as int, now as int);
        assert(anims@[r - 1] == a1[r - 1]);
        assert(anims@.subrange(0, a0.len() as int) =~= a0);
    }
    r
}


/// The animation is still playing at `now`: its timer has not finished.
pub open spec fn plays_on(a: Animation, now: int) -> bool {
    now < a.timer.end
}

/// The animations of `s` that still play at `now`, in order.
pub open spec fn still_playing(s: Seq<Animation>, now: int) -> Seq<Animation>
    decreases s.len(),
{
    if s.len() == 0 {
        seq![]
    } else {
        let rest = still_playing(s.drop_last(), now);
        if plays_on(s.last(), now) { rest.push(s.last()) } else { rest }
    }
}

/// The decor that the finished decor spawns of `s` leave on the map, in order.
pub open spec fn landed_decor(s: Seq<Animation>, now: int) -> Seq<crate::tile_map::DecorWithPos>
    decreases s.len(),
{
    if s.len() == 0 {
        seq![]
    } else {
        let rest = landed_decor(s.drop_last(), now);
        match s.last().kind {
            AnimationKind::DecorSpawn(d) => if plays_on(s.last(), now) {
                rest
            } else {
                rest.push(crate::tile_map::DecorWithPos(d.pos, d.decor))
            },
            _ => rest,
        }
    }
}

/// Entity `e` goes with some animation of `s` that stops playing at `now`.
pub open spec fn cleaned_up(s: Seq<Animation>, now: int, e: int) -> bool {
    exists|k: int| 0 <= k < s.len() && !plays_on(#[trigger] s[k], now) && s[k].cleanup@.contains(e as usize)
}

/// Some game-over animation of `s` has started.
pub open spec fn game_over_started(s: Seq<Animation>, now: int) -> bool {
    exists|k: int| 0 <= k < s.len() && (#[trigger] s[k]).kind is GameOver && s[k].timer.start <= now
}


/// A camera move that has started at `now`.
pub open spec fn active_camera_move(a: Animation, now: int) -> bool {
    a.kind is CameraMove && a.timer.start <= now
}

/// The camera move that may move the camera at `now`: among the started ones,
/// the one with the latest start, the first of them on a tie.
pub fn active_camera_move_index(anims: &Vec<Animation>, now: i64) -> (r: Option<usize>)
    ensures
        r.is_none() <==> forall|k: int| 0 <= k < anims@.len() ==> !active_camera_move(#[trigger] anims@[k], now as int),
        match r {
            Some(i) => {
                &&& i < anims@.len()
                &&& active_camera_move(anims@[i as int], now as int)
                &&& forall|k: int| 0 <= k < anims@.len() && active_camera_move(#[trigger] anims@[k], now as int)
                    ==> anims@[k].timer.start <= anims@[i as int].timer.start
                &&& forall|k: int| 0 <= k < i && active_camera_move(#[trigger] anims@[k], now as int)
                    ==> anims@[k].timer.start < anims@[i as int].timer.start
            },
            None => true,
        },
{
    let mut best: Option<usize> = None;
    let mut k: usize = 0;
    while k < anims.len()
        invariant
            k <= anims@.len(),
            match best {
                Some(i) => {
                    &&& i < k
                    &&& active_camera_move(anims@[i as int], now as int)
                    &&& forall|j: int| 0 <= j < k && active_camera_move(#[trigger] anims@[j], now as int)
                        ==> anims@[j].timer.start <= anims@[i as int].timer.start
                    &&& forall|j: int| 0 <= j < i && active_camera_move(#[trigger] anims@[j], now as int)
                        ==> anims@[j].timer.start < anims@[i as int].timer.start
                },
                None => forall|j: int| 0 <= j < k ==> !active_camera_move(#[trigger] anims@[j], now as int),
            },
        decreases anims@.len() - k,
    {
        let is_move = match &anims[k].kind {
            AnimationKind::CameraMove { .. } => true,
            _ => false,
        };
        if is_move && anims[k].timer.start <= now {
            match best {
                Some(i) => {
                    if anims[k].timer.start > anims[i].timer.start {
                        best = Some(k);
                    }
                },
                None => {
                    best = Some(k);
                },
            }
        }
        k += 1;
    }
    best
}

} // verus!
