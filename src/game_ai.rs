use vstd::prelude::*;

use crate::dijkstra::{cost_ok, dijkstra, dijkstra_path, in_grid, nb, near_seed, settled, val, best_nbr};
use crate::game::{actor_at, animation_on_player, eligible, handle_action, handle_delayed_action, is_blocked, is_next_actor, next_turn_actor, occupant, player_is_animation_target, present, take_delayed_action, Action, ActionKind, Creature, CreatureType, Fov, World, POS_LIMIT, TIME_LIMIT};
use crate::grids::Grid;
use crate::pos::{chebyshev, line_ok, IVec, Pos};

verus! {

/// The value the influence grids give the tiles next to a player.
pub const SEED_VALUE: i32 = 500;
/// The cost of stepping through an occupied tile: discouraged, not forbidden.
pub const CROWD_COST: i32 = 25;
/// Archers want to stand this close to a player, with a clear line.
pub const RANGED_RADIUS: i32 = 5;

/// Influence grids, one per behaviour.
pub struct Pathfinding {
    /// Leads towards the player, to attack in melee.
    pub melee_grid: Grid<i32>,
    /// Leads towards tiles from which a player can be shot.
    pub ranged_grid: Grid<i32>,
}

/// The cost of entering `p`: walls all but forbid it, actors discourage it.
pub open spec fn step_cost(w: World, p: Pos) -> i32 {
    if w.map.tiles.in_grid(p.x as int, p.y as int) && w.map.tiles.cell(p.x as int, p.y as int) == crate::tiles::LogicTile::Wall {
        i32::MAX
    } else if exists|j: int| 0 <= j < w.creatures@.len() && present(w, j) && (#[trigger] w.creatures@[j]).actor.pos == p {
        CROWD_COST
    } else {
        1
    }
}

/// A player still in the world.
pub open spec fn is_player(w: World, j: int) -> bool {
    present(w, j) && w.creatures@[j].player.is_some()
}

/// A player stands on `p`.
pub open spec fn player_tile(w: World, p: Pos) -> bool {
    exists|j: int| is_player(w, j) && (#[trigger] w.creatures@[j]).actor.pos == p
}

/// `p` lies `RANGED_RADIUS` steps from a player.
pub open spec fn ring_tile(w: World, p: Pos) -> bool {
    exists|j: int| is_player(w, j) && chebyshev(#[trigger] w.creatures@[j].actor.pos, p) == RANGED_RADIUS
}

/// `p` is settled in `g` under the step costs of `w`: no neighbour is worth
/// more than its value plus its cost.
pub open spec fn settled_on(g: Grid<i32>, w: World, p: Pos) -> bool {
    forall|q: Pos| #[trigger] nb(g, p).contains(q) ==> val(g, q) <= val(g, p) + step_cost(w, p)
}

/// `p` took its value from a neighbour: that neighbour is worth exactly its value plus its cost.
pub open spec fn fed_on(g: Grid<i32>, w: World, p: Pos) -> bool {
    exists|q: Pos| #[trigger] nb(g, p).contains(q) && val(g, q) == val(g, p) + step_cost(w, p)
}

/// Every player stands on the map.
pub open spec fn players_on_map(w: World) -> bool {
    forall|j: int| is_player(w, j) ==> w.map.tiles.in_grid(w.creatures@[j].actor.pos.x as int, w.creatures@[j].actor.pos.y as int)
}

/// Tells whether the influence grids can be built and `npc` can take its turn.
pub fn ai_turn_ready(world: &World, npc: usize) -> (r: bool)
    requires
        world.map.tiles.wf(),
    ensures
        r == (world.wf() && npc < world.creatures@.len() && players_on_map(*world)),
{
    if !world.is_valid() || npc >= world.creatures.len() {
        return false;
    }
    let mut j: usize = 0;
    while j < world.creatures.len()
        invariant
            j <= world.creatures@.len(),
            forall|k: int| 0 <= k < j ==> (is_player(*world, k) ==> world.map.tiles.in_grid(
                (#[trigger] world.creatures@[k]).actor.pos.x as int,
                world.creatures@[k].actor.pos.y as int,
            )),
        decreases world.creatures@.len() - j,
    {
        let c = &world.creatures[j];
        if !c.destroyed && c.player.is_some() && !world.map.tiles.is_valid(c.actor.pos) {
            proof {
                assert(is_player(*world, j as int));
                assert(!players_on_map(*world));
            }
            return false;
        }
        j += 1;
    }
    true
}

/// Seeds `grid` with `SEED_VALUE` on `seeds`, everything else 0.
spec fn seeded(g: Grid<i32>, seeds: Seq<Pos>) -> bool {
    forall|p: Pos| in_grid(g, p) ==> val(g, p) == if seeds.contains(p) { SEED_VALUE as int } else { 0 }
}

proof fn lemma_seeded_settled<F: Fn(Pos) -> i32>(g: Grid<i32>, seeds: Seq<Pos>, cost: F)
    requires
        g.wf(),
        seeded(g, seeds),
        cost_ok(cost),
        forall|i: int| 0 <= i < seeds.len() ==> in_grid(g, #[trigger] seeds[i]),
    ensures
        forall|p: Pos| in_grid(g, p) && !near_seed(g, seeds, p) ==> #[trigger] settled(g, cost, p),
{
    assert forall|p: Pos| in_grid(g, p) && !near_seed(g, seeds, p) implies #[trigger] settled(g, cost, p) by {
        assert forall|q: Pos| #[trigger] nb(g, p).contains(q) implies val(g, q) <= val(g, p) + crate::dijkstra::cost_at(cost, p) by {
            crate::pos::lemma_nbrs8_complete(p, g.width as int, g.height as int, q);
            crate::pos::lemma_nbrs8_complete(q, g.width as int, g.height as int, p);
            if seeds.contains(q) {
                let i = choose|i: int| 0 <= i < seeds.len() && seeds[i] == q;
                assert(nb(g, seeds[i]).contains(p));
                assert(near_seed(g, seeds, p));
            }
            if exists|c: i32| cost.ensures((p,), c) {
                let c = choose|c: i32| cost.ensures((p,), c);
                assert(c >= 0);
            }
        }
    }
}

proof fn lemma_seeded_bounds(g: Grid<i32>, seeds: Seq<Pos>)
    requires
        g.wf(),
        seeded(g, seeds),
    ensures
        forall|i: int| 0 <= i < g.data@.len() ==> 0 <= #[trigger] g.data@[i] <= SEED_VALUE,
        crate::dijkstra::seq_max(g.data@) <= SEED_VALUE,
{
    assert forall|i: int| 0 <= i < g.data@.len() implies 0 <= #[trigger] g.data@[i] <= SEED_VALUE by {
        crate::grids::lemma_index_cell(g.width as int, g.height as int, i);
        let p = Pos { x: (i % g.width as int) as i32, y: (i / g.width as int) as i32 };
        assert(in_grid(g, p));
    }
    crate::dijkstra::lemma_seq_max_le(g.data@, SEED_VALUE as int);
}

proof fn lemma_cost_is_step<F: Fn(Pos) -> i32>(world: &World, cost: F, p: Pos)
    requires
        cost.ensures((p,), crate::dijkstra::cost_at(cost, p) as i32),
        forall|q: Pos, c: i32| cost.ensures((q,), c) ==> c == step_cost(*world, q),
    ensures
        crate::dijkstra::cost_at(cost, p) == step_cost(*world, p),
{
}

/// Builds a grid of the map's size with `SEED_VALUE` on `seeds` and 0 elsewhere.
fn seeded_grid(w: i32, h: i32, seeds: &Vec<Pos>) -> (g: Grid<i32>)
    requires
        0 <= w,
        0 <= h,
        w * h <= i32::MAX,
        forall|i: int| 0 <= i < seeds@.len() ==> 0 <= (#[trigger] seeds@[i]).x < w && 0 <= seeds@[i].y < h,
    ensures
        g.wf(),
        g.width == w,
        g.height == h,
        seeded(g, seeds@),
{
    let mut g = Grid::new(w, h, 0);
    proof {
        assert forall|p: Pos| in_grid(g, p) implies val(g, p) == if seeds@.subrange(0, 0).contains(p) { SEED_VALUE as int } else { 0 } by {
            crate::grids::lemma_cell_index(w as int, h as int, p.x as int, p.y as int);
        }
    }
    let mut i: usize = 0;
    while i < seeds.len()
        invariant
            g.wf(),
            g.width == w,
            g.height == h,
            i <= seeds@.len(),
            forall|k: int| 0 <= k < seeds@.len() ==> 0 <= (#[trigger] seeds@[k]).x < w && 0 <= seeds@[k].y < h,
            forall|p: Pos| in_grid(g, p) ==> val(g, p) == if seeds@.subrange(0, i as int).contains(p) { SEED_VALUE as int } else { 0 },
        decreases seeds@.len() - i,
    {
        let s = seeds[i];
        let ghost g0 = g;
        proof {
            crate::grids::lemma_cell_index(w as int, h as int, s.x as int, s.y as int);
        }
        let idx = (s.x + s.y * w) as usize;
        g.data.set(idx, SEED_VALUE);
        proof {
            assert forall|p: Pos| in_grid(g, p) implies val(g, p) == if seeds@.subrange(0, i + 1).contains(p) { SEED_VALUE as int } else { 0 } by {
                crate::grids::lemma_cell_index(w as int, h as int, p.x as int, p.y as int);
                crate::grids::lemma_cell_index(w as int, h as int, s.x as int, s.y as int);
                if p.x + p.y * w == s.x + s.y * w {
                    crate::grids::lemma_cell_index_unique(w as int, p.x as int, p.y as int, s.x as int, s.y as int);
                }
                let sub0 = seeds@.subrange(0, i as int);
                let sub1 = seeds@.subrange(0, i + 1);
                assert(sub1 =~= sub0.push(s));
                if sub1.contains(p) && p != s {
                    let k = choose|k: int| 0 <= k < sub1.len() && sub1[k] == p;
                    assert(sub0[k] == p);
                }
                if sub0.contains(p) {
                    let k = choose|k: int| 0 <= k < sub0.len() && sub0[k] == p;
                    assert(sub1[k] == p);
                }
                if p == s {
                    assert(sub1[i as int] == s);
                    assert(sub1.contains(p));
                } else {
                    assert(in_grid(g0, p));
                    assert(val(g0, p) == if sub0.contains(p) { SEED_VALUE as int } else { 0 });
                    assert(val(g, p) == val(g0, p));
                }
            }
        }
        i += 1;
    }
    proof {
        assert(seeds@.subrange(0, seeds@.len() as int) =~= seeds@);
    }
    g
}

impl Pathfinding {
    /// Builds both grids: the melee grid flows from the players' tiles, the
    /// ranged grid from the tiles within `RANGED_RADIUS` of a player that have a
    /// clear line to the player.
    pub fn new(world: &World) -> (r: Pathfinding)
        requires
            world.wf(),
            players_on_map(*world),
        ensures
            r.melee_grid.wf(),
            r.ranged_grid.wf(),
            r.melee_grid.width == world.map.tiles.width,
            r.melee_grid.height == world.map.tiles.height,
            r.ranged_grid.width == world.map.tiles.width,
            r.ranged_grid.height == world.map.tiles.height,
            forall|j: int| is_player(*world, j) ==> val(r.melee_grid, #[trigger] world.creatures@[j].actor.pos) == SEED_VALUE,
            forall|i: int| 0 <= i < r.melee_grid.data@.len() ==> 0 <= #[trigger] r.melee_grid.data@[i] <= SEED_VALUE,
            forall|i: int| 0 <= i < r.ranged_grid.data@.len() ==> 0 <= #[trigger] r.ranged_grid.data@[i] <= SEED_VALUE,
            forall|p: Pos| in_grid(r.melee_grid, p) ==> #[trigger] settled_on(r.melee_grid, *world, p) && (fed_on(
                r.melee_grid,
                *world,
                p,
            ) || val(r.melee_grid, p) == if player_tile(*world, p) { SEED_VALUE as int } else { 0 }),
            forall|p: Pos| in_grid(r.ranged_grid, p) ==> #[trigger] settled_on(r.ranged_grid, *world, p) && (fed_on(
                r.ranged_grid,
                *world,
                p,
            ) || val(r.ranged_grid, p) == 0 || (val(r.ranged_grid, p) == SEED_VALUE && ring_tile(*world, p))),
    {
        let w = world.map.tiles.width;
        let h = world.map.tiles.height;
        let cost_function = |pos: Pos| -> (c: i32)
            requires
                world.map.tiles.wf(),
            ensures
                c == step_cost(*world, pos),
            {
                if world.map.is_wall(pos) {
                    i32::MAX
                } else if actor_at(world, pos).is_some() {
                    CROWD_COST
                } else {
                    1
                }
            };

        // melee: seed the tiles of the players
        let mut seeds: Vec<Pos> = Vec::new();
        let mut j: usize = 0;
        while j < world.creatures.len()
            invariant
                j <= world.creatures@.len(),
                world.wf(),
                w == world.map.tiles.width,
                h == world.map.tiles.height,
                forall|jj: int| is_player(*world, jj) ==> world.map.tiles.in_grid(world.creatures@[jj].actor.pos.x as int, world.creatures@[jj].actor.pos.y as int),
                forall|i: int| 0 <= i < seeds@.len() ==> 0 <= (#[trigger] seeds@[i]).x < w && 0 <= seeds@[i].y < h,
                forall|jj: int| 0 <= jj < j && is_player(*world, jj) ==> seeds@.contains(#[trigger] world.creatures@[jj].actor.pos),
                forall|i: int| 0 <= i < seeds@.len() ==> player_tile(*world, #[trigger] seeds@[i]),
            decreases world.creatures@.len() - j,
        {
            let c = &world.creatures[j];
            if !c.destroyed && c.player.is_some() {
                proof {
                    assert(is_player(*world, j as int));
                }
                let ghost before = seeds@;
                seeds.push(c.actor.pos);
                proof {
                    assert forall|i: int| 0 <= i < seeds@.len() implies player_tile(*world, #[trigger] seeds@[i]) by {
                        if i < before.len() {
                            assert(seeds@[i] == before[i]);
                        } else {
                            assert(world.creatures@[j as int].actor.pos == seeds@[i]);
                        }
                    }
                }
                proof {
                    assert(seeds@[before.len() as int] == c.actor.pos);
                    assert forall|jj: int| 0 <= jj < j + 1 && is_player(*world, jj) implies seeds@.contains(#[trigger] world.creatures@[jj].actor.pos) by {
                        if jj < j {
                            let k = choose|k: int| 0 <= k < before.len() && before[k] == world.creatures@[jj].actor.pos;
                            assert(seeds@[k] == before[k]);
                        }
                    }
                }
            }
            j += 1;
        }
        let mut melee_grid = seeded_grid(w, h, &seeds);
        let ghost melee0 = melee_grid;
        proof {
            lemma_seeded_settled(melee_grid, seeds@, cost_function);
            lemma_seeded_bounds(melee_grid, seeds@);
        }
        dijkstra(&mut melee_grid, seeds.as_slice(), cost_function);
        proof {
            assert forall|p: Pos| in_grid(melee_grid, p) implies #[trigger] settled_on(melee_grid, *world, p) && (fed_on(
                melee_grid,
                *world,
                p,
            ) || val(melee_grid, p) == if player_tile(*world, p) { SEED_VALUE as int } else { 0 }) by {
                lemma_cost_is_step(world, cost_function, p);
                assert(settled(melee_grid, cost_function, p));
                assert(crate::dijkstra::derived(melee_grid, melee0, cost_function, p));
                assert(in_grid(melee0, p));
                if player_tile(*world, p) {
                    let jj = choose|jj: int| is_player(*world, jj) && (#[trigger] world.creatures@[jj]).actor.pos == p;
                    assert(seeds@.contains(world.creatures@[jj].actor.pos));
                }
                if seeds@.contains(p) {
                    let i = choose|i: int| 0 <= i < seeds@.len() && seeds@[i] == p;
                    assert(player_tile(*world, seeds@[i]));
                }
                if !crate::dijkstra::derived(melee_grid, melee0, cost_function, p) {
                } else if val(melee_grid, p) != val(melee0, p) {
                    let q = choose|q: Pos| #[trigger] nb(melee_grid, p).contains(q) && val(melee_grid, q) == val(melee_grid, p)
                        + crate::dijkstra::cost_at(cost_function, p);
                    assert(fed_on(melee_grid, *world, p));
                }
            }
        }
        proof {
            assert forall|jj: int| is_player(*world, jj) implies val(melee_grid, #[trigger] world.creatures@[jj].actor.pos) == SEED_VALUE by {
                let p = world.creatures@[jj].actor.pos;
                crate::grids::lemma_cell_index(w as int, h as int, p.x as int, p.y as int);
                assert(in_grid(melee0, p));
                assert(val(melee0, p) == SEED_VALUE);
            }
        }

        // ranged: seed the tiles around the players with a clear line to them
        let mut rseeds: Vec<Pos> = Vec::new();
        let mut j: usize = 0;
        while j < world.creatures.len()
            invariant
                j <= world.creatures@.len(),
                world.wf(),
                w == world.map.tiles.width,
                h == world.map.tiles.height,
                forall|i: int| 0 <= i < rseeds@.len() ==> 0 <= (#[trigger] rseeds@[i]).x < w && 0 <= rseeds@[i].y < h,
                forall|i: int| 0 <= i < rseeds@.len() ==> ring_tile(*world, #[trigger] rseeds@[i]),
            decreases world.creatures@.len() - j,
        {
            let c = &world.creatures[j];
            if !c.destroyed && c.player.is_some() {
                proof {
                    assert(crate::game::creature_ok(world.creatures@[j as int]));
                }
                let ppos = c.actor.pos;
                let ring = ppos.circle_around(RANGED_RADIUS);
                let mut k: usize = 0;
                while k < ring.len()
                    invariant
                        k <= ring@.len(),
                        world.wf(),
                        w == world.map.tiles.width,
                        h == world.map.tiles.height,
                        line_ok(ppos),
                        -0x3000_0000 <= ppos.x <= 0x3000_0000,
                        -0x3000_0000 <= ppos.y <= 0x3000_0000,
                        forall|i: int| 0 <= i < ring@.len() ==> chebyshev(ppos, #[trigger] ring@[i]) == RANGED_RADIUS,
                        forall|i: int| 0 <= i < rseeds@.len() ==> 0 <= (#[trigger] rseeds@[i]).x < w && 0 <= rseeds@[i].y < h,
                        forall|i: int| 0 <= i < rseeds@.len() ==> ring_tile(*world, #[trigger] rseeds@[i]),
                        j < world.creatures@.len(),
                        is_player(*world, j as int),
                        ppos == world.creatures@[j as int].actor.pos,
                    decreases ring@.len() - k,
                {
                    let pos = ring[k];
                    proof {
                        assert(chebyshev(ppos, ring@[k as int]) == RANGED_RADIUS);
                    }
                    if pos.x >= 0 && pos.x < w && pos.y >= 0 && pos.y < h {
                        let line = pos.bresenham(ppos);
                        let mut has_los = true;
                        let mut q: usize = 0;
                        while q < line.len()
                            invariant
                                q <= line@.len(),
                                world.wf(),
                            decreases line@.len() - q,
                        {
                            if world.map.is_wall(line[q]) {
                                has_los = false;
                            }
                            q += 1;
                        }
                        if has_los {
                            let ghost before = rseeds@;
                            rseeds.push(pos);
                            proof {
                                assert forall|i: int| 0 <= i < rseeds@.len() implies ring_tile(*world, #[trigger] rseeds@[i]) by {
                                    if i < before.len() {
                                        assert(rseeds@[i] == before[i]);
                                    } else {
                                        assert(chebyshev(world.creatures@[j as int].actor.pos, rseeds@[i]) == RANGED_RADIUS);
                                    }
                                }
                            }
                        }
                    }
                    k += 1;
                }
            }
            j += 1;
        }
        let mut ranged_grid = seeded_grid(w, h, &rseeds);
        let ghost ranged0 = ranged_grid;
        proof {
            lemma_seeded_settled(ranged_grid, rseeds@, cost_function);
            lemma_seeded_bounds(ranged_grid, rseeds@);
        }
        dijkstra(&mut ranged_grid, rseeds.as_slice(), cost_function);
        proof {
            assert forall|p: Pos| in_grid(ranged_grid, p) implies #[trigger] settled_on(ranged_grid, *world, p) && (fed_on(
                ranged_grid,
                *world,
                p,
            ) || val(ranged_grid, p) == 0 || (val(ranged_grid, p) == SEED_VALUE && ring_tile(*world, p))) by {
                lemma_cost_is_step(world, cost_function, p);
                assert(settled(ranged_grid, cost_function, p));
                assert(crate::dijkstra::derived(ranged_grid, ranged0, cost_function, p));
                assert(in_grid(ranged0, p));
                if rseeds@.contains(p) {
                    let i = choose|i: int| 0 <= i < rseeds@.len() && rseeds@[i] == p;
                    assert(ring_tile(*world, rseeds@[i]));
                }
                if val(ranged_grid, p) != val(ranged0, p) {
                    let q = choose|q: Pos| #[trigger] nb(ranged_grid, p).contains(q) && val(ranged_grid, q) == val(ranged_grid, p)
                        + crate::dijkstra::cost_at(cost_function, p);
                    assert(fed_on(ranged_grid, *world, p));
                }
            }
        }
        Pathfinding { melee_grid, ranged_grid }
    }
}


/// A free tile: no wall and nobody on it.
pub open spec fn tile_free(w: World, p: Pos) -> bool {
    crate::game::free_at(w, p)
}

/// A player in the world next to `pos`.
pub open spec fn smash_target(w: World, pos: Pos, j: int) -> bool {
    is_player(w, j) && chebyshev(pos, w.creatures@[j].actor.pos) == 1
}

/// The first created player next to `pos`.
pub open spec fn first_smash_target(w: World, pos: Pos, j: int) -> bool {
    smash_target(w, pos, j) && forall|k: int| 0 <= k < j ==> !smash_target(w, pos, k)
}

/// A player between 2 and `RANGED_RADIUS` tiles away from `pos`.
pub open spec fn in_range(w: World, pos: Pos, j: int) -> bool {
    is_player(w, j) && 1 < chebyshev(pos, w.creatures@[j].actor.pos) <= RANGED_RADIUS
}

/// A player in range whose line from `pos` has nothing in between.
pub open spec fn clear_shot(w: World, pos: Pos, j: int) -> bool {
    let line = crate::pos::bresenham_line(pos, w.creatures@[j].actor.pos);
    in_range(w, pos, j) && forall|i: int| 0 < i < line.len() - 1 ==> tile_free(w, #[trigger] line[i])
}

/// The first created player that an archer at `pos` can shoot.
pub open spec fn first_clear_shot(w: World, pos: Pos, j: int) -> bool {
    clear_shot(w, pos, j) && forall|k: int| 0 <= k < j ==> !clear_shot(w, pos, k)
}

/// An actor at `pos` can climb `grid`: a path starts there and its best neighbour is worth more.
pub open spec fn climbs(grid: Grid<i32>, pos: Pos) -> bool {
    &&& crate::dijkstra::path_start_ok(grid, pos)
    &&& nb(grid, pos).len() > 0
    &&& val(grid, pos) < val(grid, next_step(grid, pos))
}

/// The next step of the gradient path of an actor at `pos` on `grid`.
pub open spec fn next_step(grid: Grid<i32>, pos: Pos) -> Pos {
    best_nbr(grid, nb(grid, pos))
}

/// Chooses the action of the non-player actor `npc`, without changing the
/// world: a brute next to a player prepares a smash, an archer with a clear
/// shot at a player 2 to 5 tiles away shoots, otherwise the actor climbs its
/// influence grid, attacks a player that blocks the way, or waits.
pub fn ai_turn(world: &World, pf: &Pathfinding, npc: usize) -> (r: Action)
    requires
        world.wf(),
        npc < world.creatures@.len(),
        pf.melee_grid.wf(),
        pf.ranged_grid.wf(),
    ensures
        r.actor == npc,
        ({
            let me = world.creatures@[npc as int].actor;
            let grid = if me.creature_type == CreatureType::GoblinArcher { pf.ranged_grid } else { pf.melee_grid };
            let s = next_step(grid, me.pos);
            let smash = me.creature_type == CreatureType::GoblinBrute && (exists|j: int| smash_target(*world, me.pos, j));
            let shoot = me.creature_type == CreatureType::GoblinArcher && (exists|j: int| clear_shot(*world, me.pos, j));
            &&& smash ==> (match r.kind {
                ActionKind::DelayedSmash { dir } => exists|j: int| first_smash_target(*world, me.pos, j)
                    && dir.x == world.creatures@[j].actor.pos.x - me.pos.x && dir.y == world.creatures@[j].actor.pos.y
                    - me.pos.y,
                _ => false,
            })
            &&& shoot ==> (match r.kind {
                ActionKind::ShootArrow { path, target } => {
                    &&& first_clear_shot(*world, me.pos, target as int)
                    &&& path@ == crate::pos::bresenham_line(me.pos, world.creatures@[target as int].actor.pos)
                },
                _ => false,
            })
            &&& (r.kind is ShootArrow) ==> shoot
            &&& (!smash && !shoot) ==> if climbs(grid, me.pos) && tile_free(*world, s) {
                r.kind == (ActionKind::Move { from: me.pos, to: s })
            } else if climbs(grid, me.pos) && exists|t: int| occupant(*world, s, t) && is_player(*world, t) {
                match r.kind {
                    ActionKind::BumpAttack { target } => occupant(*world, s, target as int) && is_player(*world, target as int),
                    _ => false,
                }
            } else {
                r.kind is Wait
            }
        }),
{
    let me = &world.creatures[npc].actor;
    let pos = me.pos;
    proof {
        assert(crate::game::creature_ok(world.creatures@[npc as int]));
    }

    // goblin brutes smash a player next to them
    if me.creature_type == CreatureType::GoblinBrute {
        let mut j: usize = 0;
        while j < world.creatures.len()
            invariant
                j <= world.creatures@.len(),
                npc < world.creatures@.len(),
                world.wf(),
                pos == world.creatures@[npc as int].actor.pos,
                world.creatures@[npc as int].actor.creature_type == CreatureType::GoblinBrute,
                crate::game::pos_ok(pos),
                forall|k: int| 0 <= k < j ==> !smash_target(*world, pos, k),
            decreases world.creatures@.len() - j,
        {
            let c = &world.creatures[j];
            if !c.destroyed && c.player.is_some() {
                proof {
                    assert(crate::game::creature_ok(world.creatures@[j as int]));
                }
                if pos.distance(c.actor.pos) == 1 {
                    let dir = IVec::new(c.actor.pos.x - pos.x, c.actor.pos.y - pos.y);
                    proof {
                        assert(is_player(*world, j as int));
                        assert(first_smash_target(*world, pos, j as int));
                    }
                    return ActionKind::DelayedSmash { dir }.done_by(npc);
                }
            }
            j += 1;
        }
        proof {
            assert(!exists|k: int| smash_target(*world, pos, k));
        }
    }

    // goblin archers shoot a player in range with a clear line
    if me.creature_type == CreatureType::GoblinArcher {
        let mut j: usize = 0;
        while j < world.creatures.len()
            invariant
                j <= world.creatures@.len(),
                npc < world.creatures@.len(),
                world.wf(),
                pos == world.creatures@[npc as int].actor.pos,
                world.creatures@[npc as int].actor.creature_type == CreatureType::GoblinArcher,
                crate::game::pos_ok(pos),
                forall|k: int| 0 <= k < j ==> !clear_shot(*world, pos, k),
            decreases world.creatures@.len() - j,
        {
            let c = &world.creatures[j];
            if !c.destroyed && c.player.is_some() {
                proof {
                    assert(crate::game::creature_ok(world.creatures@[j as int]));
                    assert(is_player(*world, j as int));
                }
                let distance = pos.distance(c.actor.pos);
                if distance > 1 && distance <= RANGED_RADIUS {
                    let path = pos.bresenham(c.actor.pos);
                    let mut blocked = false;
                    let mut k: usize = 1;
                    while k < path.len() - 1
                        invariant
                            1 <= k <= path@.len(),
                            path@.len() >= 2,
                            world.wf(),
                            !blocked ==> forall|i: int| 0 < i < k ==> tile_free(*world, #[trigger] path@[i]),
                            blocked ==> exists|i: int| 0 < i < path@.len() - 1 && !tile_free(*world, #[trigger] path@[i]),
                        decreases path@.len() - k,
                    {
                        if is_blocked(world, path[k]) {
                            blocked = true;
                        }
                        k += 1;
                    }
                    if !blocked {
                        proof {
                            assert(k >= path@.len() - 1);
                            assert(clear_shot(*world, pos, j as int));
                            assert(first_clear_shot(*world, pos, j as int));
                        }
                        return ActionKind::ShootArrow { path, target: j }.done_by(npc);
                    }
                    proof {
                        assert(!clear_shot(*world, pos, j as int));
                    }
                }
            }
            j += 1;
        }
        proof {
            assert(!exists|k: int| clear_shot(*world, pos, k));
        }
    }

    // climb the influence grid
    let grid = if me.creature_type == CreatureType::GoblinArcher { &pf.ranged_grid } else { &pf.melee_grid };
    let path = dijkstra_path(grid, pos);
    if path.len() > 1 {
        let next = path[1];
        proof {
            assert(path@[1] == best_nbr(*grid, nb(*grid, path@[0])));
            assert(val(*grid, path@[0]) < val(*grid, path@[1]));
            assert(nb(*grid, path@[0]).contains(path@[1]));
            assert(climbs(*grid, pos));
        }
        if !is_blocked(world, next) {
            return ActionKind::Move { from: pos, to: next }.done_by(npc);
        }
        // attack the player if the player is what blocks the way
        match actor_at(world, next) {
            Some(t) => {
                if world.creatures[t].player.is_some() {
                    proof {
                        assert(occupant(*world, next, t as int));
                        assert(is_player(*world, t as int));
                        assert(!tile_free(*world, next));
                        assert(next == next_step(*grid, pos));
                    }
                    return ActionKind::BumpAttack { target: t }.done_by(npc);
                }
                proof {
                    crate::game::lemma_occupant_unique(*world, next, t as int);
                    assert forall|u: int| occupant(*world, next, u) implies !is_player(*world, u) by {
                        crate::game::lemma_occupant_unique(*world, next, u);
                    }
                }
            },
            None => {},
        }
    } else {
        proof {
            if path@.len() == 1 && nb(*grid, pos).len() > 0 {
                crate::dijkstra::lemma_best_nbr(*grid, nb(*grid, pos));
                assert(nb(*grid, path@.last()).contains(next_step(*grid, pos)));
            }
            assert(!climbs(*grid, pos));
        }
    }
    ActionKind::Wait.done_by(npc)
}


/// A map whose views can be computed: at most 10000 tiles a side.
pub open spec fn map_ok(w: World) -> bool {
    &&& w.map.tiles.wf()
    &&& w.map.tiles.width <= 10000
    &&& w.map.tiles.height <= 10000
}

/// The creature `n` holds a prepared smash of its own, one step long.
pub open spec fn smash_prepared(w: World, n: int) -> bool {
    match w.creatures@[n].delayed {
        Some(d) => d.action.actor == n && match d.action.kind {
            ActionKind::DelayedSmash { dir } => -1 <= dir.x <= 1 && -1 <= dir.y <= 1 && (dir.x != 0 || dir.y != 0),
            _ => false,
        },
        None => false,
    }
}

fn smash_ready(world: &World, n: usize) -> (r: bool)
    requires
        n < world.creatures@.len(),
    ensures
        r == smash_prepared(*world, n as int),
{
    match &world.creatures[n].delayed {
        Some(d) => d.action.actor == n && match &d.action.kind {
            ActionKind::DelayedSmash { dir } => -1 <= dir.x && dir.x <= 1 && -1 <= dir.y && dir.y <= 1 && (dir.x != 0 || dir.y
                != 0),
            _ => false,
        },
        None => false,
    }
}

/// What a view from `p` contains at least: `p` first, and every tile next to it.
pub open spec fn view_of(p: Pos, v: Seq<Pos>) -> bool {
    &&& v.len() >= 1
    &&& v[0] == p
    &&& forall|q: Pos| chebyshev(p, q) == 1 ==> v.contains(q)
}

/// Recomputes the view of every player in the world; outside the map counts as wall.
pub fn update_fov(world: &mut World)
    requires
        old(world).wf(),
        map_ok(*old(world)),
        players_on_map(*old(world)),
    ensures
        final(world).creatures@.len() == old(world).creatures@.len(),
        forall|j: int| 0 <= j < old(world).creatures@.len() ==> (#[trigger] final(world).creatures@[j]) == (Creature {
            fov: final(world).creatures@[j].fov,
            ..old(world).creatures@[j]
        }),
        forall|j: int| is_player(*old(world), j) ==> view_of(old(world).creatures@[j].actor.pos, (#[trigger] final(world).creatures@[j]).fov.0@),
        final(world).animations == old(world).animations,
        final(world).map == old(world).map,
        final(world).log == old(world).log,
        final(world).now == old(world).now,
        final(world).ui == old(world).ui,
        final(world).turn == old(world).turn,
        final(world).rng == old(world).rng,
        final(world).next_id == old(world).next_id,
{
    let ghost w0 = *world;
    let radius = if world.map.tiles.width > world.map.tiles.height { world.map.tiles.width } else { world.map.tiles.height };
    let mut j: usize = 0;
    while j < world.creatures.len()
        invariant
            j <= world.creatures@.len(),
            w0.wf(),
            map_ok(w0),
            players_on_map(w0),
            world.map == w0.map,
            world.animations == w0.animations,
            world.log == w0.log,
            world.now == w0.now,
            world.ui == w0.ui,
            world.turn == w0.turn,
            world.rng == w0.rng,
            world.next_id == w0.next_id,
            radius == if w0.map.tiles.width > w0.map.tiles.height { w0.map.tiles.width } else { w0.map.tiles.height },
            world.creatures@.len() == w0.creatures@.len(),
            forall|k: int| 0 <= k < w0.creatures@.len() ==> (#[trigger] world.creatures@[k]) == (Creature {
                fov: world.creatures@[k].fov,
                ..w0.creatures@[k]
            }),
            forall|k: int| 0 <= k < j && is_player(w0, k) ==> view_of(w0.creatures@[k].actor.pos, (#[trigger] world.creatures@[k]).fov.0@),
        decreases world.creatures@.len() - j,
    {
        if !world.creatures[j].destroyed && world.creatures[j].player.is_some() {
            let origin = world.creatures[j].actor.pos;
            proof {
                assert(is_player(w0, j as int));
                assert(crate::game::creature_ok(w0.creatures@[j as int]));
            }
            let v = {
                let tiles = &world.map.tiles;
                let is_blocking = |p: Pos| -> (b: bool)
                    requires
                        tiles.wf(),
                    ensures
                        b == (!tiles.in_grid(p.x as int, p.y as int) || tiles.cell(p.x as int, p.y as int)
                            == crate::tiles::LogicTile::Wall),
                    { !tiles.is_valid(p) || *tiles.get(p.x, p.y) == crate::tiles::LogicTile::Wall };
                proof {
                    assert forall|p: Pos, b: bool| #[trigger] is_blocking.ensures((p,), b) && chebyshev(origin, p) > radius implies b by {
                        assert(!tiles.in_grid(p.x as int, p.y as int));
                    }
                }
                crate::shadowcasting::compute_fov(origin, radius, &is_blocking)
            };
            let ghost before = world.creatures@;
            world.creatures[j].fov = Fov(v);
            proof {
                assert forall|k: int| 0 <= k < w0.creatures@.len() implies (#[trigger] world.creatures@[k]) == (Creature {
                    fov: world.creatures@[k].fov,
                    ..w0.creatures@[k]
                }) by {
                    if k != j {
                        assert(world.creatures@[k] == before[k]);
                    }
                }
                assert forall|k: int| 0 <= k < j + 1 && is_player(w0, k) implies view_of(w0.creatures@[k].actor.pos, (#[trigger] world.creatures@[k]).fov.0@) by {
                    if k != j {
                        assert(world.creatures@[k] == before[k]);
                    }
                }
            }
        }
        j += 1;
    }
}

/// The view update leaves the scheduler's choice alone.
proof fn lemma_fov_keeps_order(a: World, b: World)
    requires
        b.creatures@.len() == a.creatures@.len(),
        forall|j: int| 0 <= j < a.creatures@.len() ==> (#[trigger] b.creatures@[j]) == (Creature {
            fov: b.creatures@[j].fov,
            ..a.creatures@[j]
        }),
    ensures
        forall|r: Option<usize>| is_next_actor(b, r) ==> is_next_actor(a, r),
        forall|j: int| 0 <= j < a.creatures@.len() ==> (#[trigger] b.creatures@[j]).player == a.creatures@[j].player,
{
    assert forall|j: int| 0 <= j < a.creatures@.len() implies (#[trigger] b.creatures@[j]).player == a.creatures@[j].player by {
        assert(b.creatures@[j] == (Creature { fov: b.creatures@[j].fov, ..a.creatures@[j] }));
    }
    assert forall|j: int| #[trigger] eligible(b, j) == eligible(a, j) by {
        if 0 <= j < a.creatures@.len() {
            assert(b.creatures@[j] == (Creature { fov: b.creatures@[j].fov, ..a.creatures@[j] }));
        }
    }
    assert forall|i: int, j: int| 0 <= i < a.creatures@.len() && 0 <= j < a.creatures@.len() implies
        #[trigger] crate::game::acts_before(b, i, j) == crate::game::acts_before(a, i, j) by {
        assert(b.creatures@[i] == (Creature { fov: b.creatures@[i].fov, ..a.creatures@[i] }));
        assert(b.creatures@[j] == (Creature { fov: b.creatures@[j].fov, ..a.creatures@[j] }));
    }
    assert forall|r: Option<usize>| is_next_actor(b, r) implies is_next_actor(a, r) by {
        match r {
            Some(i) => {
                assert(eligible(b, i as int));
                assert forall|j: int| eligible(a, j) implies crate::game::acts_before(a, i as int, j) by {
                    assert(eligible(b, j));
                    assert(crate::game::acts_before(b, i as int, j));
                }
            },
            None => {
                assert forall|j: int| !eligible(a, j) by {
                    assert(!eligible(b, j));
                }
            },
        }
    }
}


/// Someone in the world stands on `p`, so somebody is its last occupant.
proof fn lemma_occupant_exists(w: World, p: Pos, j: int)
    requires
        present(w, j),
        w.creatures@[j].actor.pos == p,
    ensures
        exists|t: int| occupant(w, p, t),
    decreases w.creatures@.len() - j,
{
    if !occupant(w, p, j) {
        let k = choose|k: int| j < k < w.creatures@.len() && present(w, k) && (#[trigger] w.creatures@[k]).actor.pos == p;
        lemma_occupant_exists(w, p, k);
    }
}

/// The action `ai_turn` picks for a non-player actor can be resolved.
proof fn lemma_ai_action_ok(world: World, pf: Pathfinding, npc: usize, r: Action)
    requires
        world.wf(),
        map_ok(world),
        eligible(world, npc as int),
        world.creatures@[npc as int].player.is_none(),
        pf.melee_grid.wf(),
        pf.ranged_grid.wf(),
        pf.melee_grid.width == world.map.tiles.width,
        pf.melee_grid.height == world.map.tiles.height,
        pf.ranged_grid.width == world.map.tiles.width,
        pf.ranged_grid.height == world.map.tiles.height,
        r.actor == npc,
        ({
            let me = world.creatures@[npc as int].actor;
            let grid = if me.creature_type == CreatureType::GoblinArcher { pf.ranged_grid } else { pf.melee_grid };
            let s = next_step(grid, me.pos);
            let smash = me.creature_type == CreatureType::GoblinBrute && (exists|j: int| smash_target(world, me.pos, j));
            let shoot = me.creature_type == CreatureType::GoblinArcher && (exists|j: int| clear_shot(world, me.pos, j));
            &&& smash ==> (match r.kind {
                ActionKind::DelayedSmash { dir } => exists|j: int| first_smash_target(world, me.pos, j)
                    && dir.x == world.creatures@[j].actor.pos.x - me.pos.x && dir.y == world.creatures@[j].actor.pos.y
                    - me.pos.y,
                _ => false,
            })
            &&& shoot ==> (match r.kind {
                ActionKind::ShootArrow { path, target } => first_clear_shot(world, me.pos, target as int),
                _ => false,
            })
            &&& (r.kind is ShootArrow) ==> shoot
            &&& (!smash && !shoot) ==> if climbs(grid, me.pos) && tile_free(world, s) {
                r.kind == (ActionKind::Move { from: me.pos, to: s })
            } else if climbs(grid, me.pos) && exists|t: int| occupant(world, s, t) && is_player(world, t) {
                match r.kind {
                    ActionKind::BumpAttack { target } => occupant(world, s, target as int) && is_player(world, target as int),
                    _ => false,
                }
            } else {
                r.kind is Wait
            }
        }),
    ensures
        crate::game::action_ok(world, r),
{
    let me = world.creatures@[npc as int].actor;
    let grid = if me.creature_type == CreatureType::GoblinArcher { pf.ranged_grid } else { pf.melee_grid };
    match r.kind {
        ActionKind::Move { from, to } => {
            crate::dijkstra::lemma_best_nbr(grid, nb(grid, me.pos));
            crate::pos::lemma_nbrs8_inside(me.pos, grid.width as int, grid.height as int, 8);
            let t = choose|t: int| 0 <= t < nb(grid, me.pos).len() && nb(grid, me.pos)[t] == to;
            assert(crate::pos::inside(nb(grid, me.pos)[t], grid.width as int, grid.height as int));
        },
        ActionKind::DelayedSmash { dir } => {
            let j = choose|j: int| first_smash_target(world, me.pos, j) && dir.x == world.creatures@[j].actor.pos.x - me.pos.x
                && dir.y == world.creatures@[j].actor.pos.y - me.pos.y;
        },
        _ => {},
    }
}

/// Every player stands on the map.
fn players_on_map_check(world: &World) -> (r: bool)
    requires
        world.map.tiles.wf(),
    ensures
        r == players_on_map(*world),
{
    let mut j: usize = 0;
    while j < world.creatures.len()
        invariant
            j <= world.creatures@.len(),
            forall|k: int| 0 <= k < j ==> (is_player(*world, k) ==> world.map.tiles.in_grid(
                (#[trigger] world.creatures@[k]).actor.pos.x as int,
                world.creatures@[k].actor.pos.y as int,
            )),
        decreases world.creatures@.len() - j,
    {
        let c = &world.creatures[j];
        if !c.destroyed && c.player.is_some() && !world.map.tiles.is_valid(c.actor.pos) {
            proof {
                assert(is_player(*world, j as int));
            }
            return false;
        }
        j += 1;
    }
    true
}

/// The pass over the turns is done: a player is next or nobody is, unless the
/// world has left the bounds the simulation keeps to.
pub open spec fn turns_done(w: World) -> bool {
    (forall|r: Option<usize>| is_next_actor(w, r) && r.is_some() ==> w.creatures@[r.unwrap() as int].player.is_some())
        || !(w.wf() && players_on_map(w))
}

/// Unless an animation still targets the player, resolves the non-player
/// actors in scheduler order (a prepared smash lands on its actor's turn)
/// until a player is next or nobody is left; then recomputes the players' views.
pub fn process_turns(world: &mut World)
    requires
        map_ok(*old(world)),
    ensures
        animation_on_player(*old(world)) ==> *final(world) == *old(world),
        !animation_on_player(*old(world)) ==> turns_done(*final(world)),
        !animation_on_player(*old(world)) && final(world).wf() && players_on_map(*final(world)) ==> forall|j: int|
            is_player(*final(world), j) ==> view_of(
                final(world).creatures@[j].actor.pos,
                (#[trigger] final(world).creatures@[j]).fov.0@,
            ),
        final(world).map == old(world).map,
        final(world).now == old(world).now,
{
    if player_is_animation_target(world) {
        return;
    }
    let ghost w0 = *world;
    loop
        invariant
            world.map == w0.map,
            world.now == w0.now,
            map_ok(*world),
        ensures
            world.map == w0.map,
            world.now == w0.now,
            map_ok(*world),
            turns_done(*world),
        decreases crate::game::turn_room(world.creatures@),
    {
        if !world.is_valid() {
            break;
        }
        let ghost wt = *world;
        proof {
            crate::game::lemma_turn_room_nonneg(wt.creatures@);
        }
        let n = match next_turn_actor(world) {
            Some(n) => n,
            None => {
                proof {
                    assert forall|r: Option<usize>| is_next_actor(*world, r) && r.is_some() implies world.creatures@[r.unwrap() as int].player.is_some() by {
                        crate::game::lemma_turn_order_deterministic(*world, r, None);
                    }
                }
                break;
            },
        };
        if world.creatures[n].player.is_some() {
            proof {
                assert forall|r: Option<usize>| is_next_actor(*world, r) && r.is_some() implies world.creatures@[r.unwrap() as int].player.is_some() by {
                    crate::game::lemma_turn_order_deterministic(*world, r, Some(n));
                }
            }
            break;
        }
        if !players_on_map_check(world) {
            break;
        }
        if smash_ready(world, n) {
            let taken = take_delayed_action(world, n);
            let ghost wd = *world;
            proof {
                assert forall|j: int| 0 <= j < wd.creatures@.len() implies #[trigger] crate::game::creature_ok(wd.creatures@[j]) by {
                    assert(crate::game::creature_ok(wt.creatures@[j]));
                    if j != n {
                        assert(wd.creatures@[j] == wt.creatures@[j]);
                    }
                }
                crate::game::lemma_turn_room_same(wt.creatures@, wd.creatures@);
            }
            match taken {
                Some(action) => {
                    let ghost act = action;
                    handle_delayed_action(world, action);
                    proof {
                        match act.kind {
                            ActionKind::DelayedSmash { dir } => {
                                let p = wd.creatures@[n as int].actor.pos;
                                let tp = Pos { x: (p.x + dir.x) as i32, y: (p.y + dir.y) as i32 };
                                if exists|j: int| 0 <= j < wd.creatures@.len() && present(wd, j) && (#[trigger] wd.creatures@[j]).actor.pos == tp {
                                    let j = choose|j: int| 0 <= j < wd.creatures@.len() && present(wd, j) && (#[trigger] wd.creatures@[j]).actor.pos == tp;
                                    lemma_occupant_exists(wd, tp, j);
                                    let t = choose|t: int| occupant(wd, tp, t);
                                    assert(world.creatures@ == crate::game::melee_effect(wd.creatures@, n as int, t, 3));
                                }
                                assert(crate::game::turns_moved(wd.creatures@, world.creatures@, n as int, 10));
                                crate::game::lemma_turn_room_moved(wd.creatures@, world.creatures@, n as int, 10);
                            },
                            _ => {},
                        }
                        assert forall|j: int| 0 <= j < world.creatures@.len() implies (#[trigger] world.creatures@[j]).actor.next_turn <= TIME_LIMIT + 100 by {
                            assert(crate::game::creature_ok(wd.creatures@[j]));
                        }
                        crate::game::lemma_turn_room_nonneg(world.creatures@);
                    }
                },
                None => {
                    proof {
                        assert(false);
                    }
                },
            }
        } else {
            let pf = Pathfinding::new(world);
            let action = ai_turn(world, &pf, n);
            let ghost act = action;
            proof {
                lemma_ai_action_ok(*world, pf, n, action);
                crate::game::lemma_resolution_turns(*world, action);
            }
            let ghost wa = *world;
            handle_action(world, action);
            proof {
                let cost = if act.kind is Meditate { 50int } else { 10int };
                crate::game::lemma_turn_room_moved(wa.creatures@, world.creatures@, n as int, cost);
                assert forall|j: int| 0 <= j < world.creatures@.len() implies (#[trigger] world.creatures@[j]).actor.next_turn <= TIME_LIMIT + 100 by {
                    assert(crate::game::creature_ok(wa.creatures@[j]));
                }
                crate::game::lemma_turn_room_nonneg(world.creatures@);
            }
        }
    }
    if world.is_valid() && players_on_map_check(world) {
        let ghost wb = *world;
        update_fov(world);
        proof {
            lemma_fov_keeps_order(wb, *world);
            assert forall|j: int| 0 <= j < world.creatures@.len() implies #[trigger] crate::game::creature_ok(world.creatures@[j]) by {
                assert(crate::game::creature_ok(wb.creatures@[j]));
                assert(world.creatures@[j] == (Creature { fov: world.creatures@[j].fov, ..wb.creatures@[j] }));
            }
            assert forall|j: int| #[trigger] is_player(*world, j) == is_player(wb, j) by {
                if 0 <= j < wb.creatures@.len() {
                    assert(world.creatures@[j] == (Creature { fov: world.creatures@[j].fov, ..wb.creatures@[j] }));
                }
            }
            assert forall|j: int| is_player(*world, j) implies view_of(world.creatures@[j].actor.pos, (#[trigger] world.creatures@[j]).fov.0@) by {
                assert(world.creatures@[j] == (Creature { fov: world.creatures@[j].fov, ..wb.creatures@[j] }));
            }
            assert(players_on_map(*world));
            assert(turns_done(*world));
        }
    }
}

} // verus!
