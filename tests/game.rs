use dungeon::animation::{active_camera_move_index, Animation, AnimationKind, AnimationTimer};
use dungeon::game_ai::{ai_turn, process_turns, Pathfinding};
use dungeon::game::{
    handle_action, handle_animations, next_turn_actor, player_is_alive, Action, ActionKind, Actor, Creature,
    CreatureType, Fov, LogEntry, MessageKind, Player, TurnCount, UIState, World, HP,
};
use dungeon::game::{handle_delayed_action, take_delayed_action};
use dungeon::pos::{IVec, Pos};
use dungeon::rand::RandomGenerator;
use dungeon::tile_map::TileMap;
use dungeon::tiles::{CreatureSprite, LogicTile};

fn creature(name: &str, pos: Pos, hp: i32, player: bool) -> Creature {
    Creature {
        actor: Actor {
            name: name.to_string(),
            pos,
            sprite: CreatureSprite::Goblin,
            creature_type: CreatureType::Goblin,
            hp: HP { max: hp, current: hp },
            next_turn: 0,
        },
        player: if player { Some(Player { pulse: 60, last_pulse_action: 0 }) } else { None },
        delayed: None,
        destroyed: false,
        fov: Fov(Vec::new()),
    }
}

fn world(creatures: Vec<Creature>) -> World {
    World {
        creatures,
        animations: Vec::new(),
        log: Vec::new(),
        map: TileMap::new(10, 10, LogicTile::Floor),
        rng: RandomGenerator::new(12345),
        now: 0,
        ui: UIState::Normal,
        next_id: 0,
        turn: TurnCount { aut: 0 },
    }
}

fn bump(actor: usize, target: usize) -> Action {
    ActionKind::BumpAttack { target }.done_by(actor)
}

#[test]
fn bump_attack_end_to_end() {
    let mut w = world(vec![creature("A", Pos::new(1, 1), 10, false), creature("B", Pos::new(2, 1), 5, false)]);
    handle_action(&mut w, bump(0, 1));
    assert_eq!(w.creatures[1].actor.hp.current, 2);
    assert_eq!(w.creatures[0].actor.next_turn, 10);
    match &w.animations[0].kind {
        AnimationKind::BumpAttack { start, end } => {
            assert_eq!(*start, Pos::new(1, 1));
            assert_eq!(*end, Pos::new(2, 1));
        },
        other => panic!("{:?}", other),
    }
    assert_eq!(w.animations[0].targets, vec![0]);
    match &w.animations[1].kind {
        AnimationKind::HPBar(hp) => {
            assert_eq!(hp.start_current as f32 / hp.max as f32, 1.0);
            assert_eq!(hp.end_current as f32 / hp.max as f32, 0.4);
        },
        other => panic!("{:?}", other),
    }
    assert_eq!(w.animations[1].targets, vec![1]);

    // a second attack before the animations are over kills B
    handle_action(&mut w, bump(0, 1));
    assert_eq!(w.creatures[1].actor.hp.current, -1);
    assert!(w.log.iter().any(|e: &LogEntry| e.kind == MessageKind::Dies && e.subject == 1));
    let newest_bump = w
        .animations
        .iter()
        .rposition(|a| matches!(a.kind, AnimationKind::BumpAttack { .. }))
        .unwrap();
    assert_eq!(newest_bump, 3);
    assert_eq!(w.animations[newest_bump].cleanup, vec![1]);

    // once all animations are over, B is gone
    w.now = 10_000_000;
    handle_animations(&mut w);
    assert!(w.animations.is_empty());
    assert!(w.creatures[1].destroyed);
    assert!(!w.creatures[0].destroyed);
    assert_eq!(w.map.decor.len(), 2);
}

#[test]
fn bump_animations_on_one_target_do_not_overlap() {
    let mut w = world(vec![
        creature("A", Pos::new(1, 1), 10, false),
        creature("B", Pos::new(2, 1), 50, false),
        creature("C", Pos::new(3, 1), 10, false),
    ]);
    handle_action(&mut w, bump(0, 1));
    let first = w.animations.len();
    handle_action(&mut w, bump(2, 1));
    let on_b: Vec<_> = w.animations.iter().enumerate().filter(|(_, a)| a.targets.contains(&1)).collect();
    for (i, a) in &on_b {
        for (j, b) in &on_b {
            if *i < first && *j >= first {
                assert!(a.timer.end <= b.timer.start);
            }
        }
    }
}

#[test]
fn turn_order_is_deterministic() {
    let make = || {
        world(vec![
            creature("P", Pos::new(1, 1), 30, true),
            creature("G", Pos::new(2, 1), 20, false),
            creature("H", Pos::new(1, 2), 20, false),
        ])
    };
    let run = || {
        let mut w = make();
        let mut trace = Vec::new();
        for _ in 0..12 {
            let Some(a) = next_turn_actor(&w) else { break };
            let target = if a == 0 { 1 + (w.creatures[0].actor.next_turn as usize / 10) % 2 } else { 0 };
            if w.creatures[target].actor.hp.current > 0 {
                handle_action(&mut w, bump(a, target));
            } else {
                handle_action(&mut w, ActionKind::Wait.done_by(a));
            }
            trace.push(
                w.creatures.iter().map(|c| (a, c.actor.pos, c.actor.hp.current, c.actor.next_turn)).collect::<Vec<_>>(),
            );
        }
        trace
    };
    assert_eq!(run(), run());
    // ties go to the actor created first
    let w = make();
    assert_eq!(next_turn_actor(&w), Some(0));
    assert!(player_is_alive(&w));
}

#[test]
fn no_actor_left_means_no_turn() {
    let mut w = world(vec![creature("A", Pos::new(1, 1), 10, false)]);
    w.creatures[0].actor.hp.current = 0;
    assert_eq!(next_turn_actor(&w), None);
    assert!(!player_is_alive(&w));
}

#[test]
fn kick_sends_the_target_flying() {
    let mut w = world(vec![creature("A", Pos::new(1, 1), 10, false), creature("B", Pos::new(2, 1), 10, false)]);
    handle_action(&mut w, ActionKind::Kick { target: 1 }.done_by(0));
    assert_eq!(w.creatures[1].actor.pos, Pos::new(3, 1));
    assert_eq!(w.creatures[1].actor.hp.current, 7);
    assert!(w.log.iter().any(|e| e.kind == MessageKind::FliesAway));
}

#[test]
fn meditation_heals_and_takes_long() {
    let mut w = world(vec![creature("A", Pos::new(1, 1), 10, false)]);
    w.creatures[0].actor.hp.current = 3;
    handle_action(&mut w, ActionKind::Meditate.done_by(0));
    assert_eq!(w.creatures[0].actor.hp.current, 8);
    assert_eq!(w.creatures[0].actor.next_turn, 50);
}

#[test]
fn waiting_lowers_the_pulse() {
    let mut w = world(vec![creature("P", Pos::new(1, 1), 10, true)]);
    w.creatures[0].actor.next_turn = 40;
    handle_action(&mut w, ActionKind::Wait.done_by(0));
    assert_eq!(w.creatures[0].player.unwrap().pulse, 59);
    assert_eq!(w.creatures[0].actor.next_turn, 50);
    assert!(w.log.iter().any(|e| e.kind == MessageKind::PulseLow));
}

#[test]
fn delayed_smash_hits_who_is_there_later() {
    let mut w = world(vec![creature("A", Pos::new(1, 1), 10, false), creature("B", Pos::new(2, 1), 10, false)]);
    handle_action(&mut w, ActionKind::DelayedSmash { dir: IVec::new(1, 0) }.done_by(0));
    assert_eq!(w.creatures[1].actor.hp.current, 10);
    let later = take_delayed_action(&mut w, 0).unwrap();
    assert!(take_delayed_action(&mut w, 0).is_none());
    handle_delayed_action(&mut w, later);
    assert_eq!(w.creatures[1].actor.hp.current, 7);
    assert_eq!(w.creatures[0].actor.next_turn, 20);
}

#[test]
fn ground_slam_hits_everyone_around() {
    let mut w = world(vec![
        creature("P", Pos::new(5, 5), 30, true),
        creature("G", Pos::new(6, 5), 10, false),
        creature("H", Pos::new(4, 6), 10, false),
        creature("F", Pos::new(8, 8), 10, false),
    ]);
    handle_action(&mut w, ActionKind::GroundSlam.done_by(0));
    assert_eq!(w.creatures[1].actor.hp.current, 8);
    assert_eq!(w.creatures[2].actor.hp.current, 8);
    assert_eq!(w.creatures[3].actor.hp.current, 10);
    assert_eq!(w.creatures[0].actor.next_turn, 10);
    assert_eq!(w.creatures[0].player.unwrap().pulse, 66);
    assert!(w.log.iter().any(|e| e.kind == MessageKind::Stomps));
}

#[test]
fn a_turn_pass_lets_the_goblins_act_until_the_player_is_next() {
    let mut w = world(vec![creature("P", Pos::new(4, 4), 30, true), creature("G", Pos::new(5, 4), 10, false)]);
    w.creatures[0].actor.next_turn = 10;
    process_turns(&mut w);
    assert_eq!(next_turn_actor(&w), Some(0));
    // the goblin attacked the player standing in its way
    assert_eq!(w.creatures[0].actor.hp.current, 27);
    assert_eq!(w.creatures[1].actor.next_turn, 10);
    // the player's view was recomputed
    assert_eq!(w.creatures[0].fov.0[0], Pos::new(4, 4));
    assert!(w.creatures[0].fov.0.contains(&Pos::new(5, 5)));
}

#[test]
fn a_turn_pass_waits_for_animations_on_the_player() {
    let mut w = world(vec![creature("P", Pos::new(4, 4), 30, true), creature("G", Pos::new(5, 4), 10, false)]);
    w.creatures[0].actor.next_turn = 10;
    w.animations.push(Animation {
        id: 7,
        timer: AnimationTimer { start: 0, end: 100 },
        kind: AnimationKind::Empty,
        targets: vec![0],
        cleanup: Vec::new(),
    });
    process_turns(&mut w);
    assert_eq!(w.creatures[0].actor.hp.current, 30);
    assert_eq!(w.creatures[1].actor.next_turn, 0);
}

#[test]
fn a_prepared_smash_lands_on_the_brutes_turn() {
    let mut brute = creature("B", Pos::new(5, 4), 10, false);
    brute.actor.creature_type = CreatureType::GoblinBrute;
    let mut w = world(vec![creature("P", Pos::new(4, 4), 30, true), brute]);
    w.creatures[0].actor.next_turn = 15;
    process_turns(&mut w);
    // first turn: the brute prepares; second turn: the smash lands
    assert_eq!(w.creatures[0].actor.hp.current, 27);
    assert!(w.log.iter().any(|e| e.kind == MessageKind::PreparesSmash));
    assert!(w.log.iter().any(|e| e.kind == MessageKind::Smashes));
}

#[test]
fn decor_stays_until_its_timer_ends() {
    let mut w = world(vec![creature("A", Pos::new(1, 1), 10, false), creature("B", Pos::new(2, 1), 50, false)]);
    handle_action(&mut w, bump(0, 1));
    let decor = w.animations.iter().find(|a| matches!(a.kind, AnimationKind::DecorSpawn(_))).unwrap().timer;
    assert_eq!(decor.start, 112_500);
    w.now = decor.end - 1;
    handle_animations(&mut w);
    assert!(w.animations.iter().any(|a| matches!(a.kind, AnimationKind::DecorSpawn(_))));
    assert!(w.map.decor.is_empty());
    w.now = decor.end;
    handle_animations(&mut w);
    assert!(!w.animations.iter().any(|a| matches!(a.kind, AnimationKind::DecorSpawn(_))));
    assert_eq!(w.map.decor.len(), 1);
}

#[test]
fn the_latest_started_camera_move_leads() {
    let mv = |start: i64, to: Pos| Animation {
        id: 0,
        timer: AnimationTimer { start, end: start + 500_000 },
        kind: AnimationKind::CameraMove { to },
        targets: Vec::new(),
        cleanup: Vec::new(),
    };
    let anims = vec![mv(0, Pos::new(1, 1)), mv(100, Pos::new(2, 2)), mv(900, Pos::new(3, 3))];
    assert_eq!(active_camera_move_index(&anims, 500), Some(1));
    assert_eq!(active_camera_move_index(&anims, 1000), Some(2));
    assert_eq!(active_camera_move_index(&anims, -1), None);
}

#[test]
fn archers_shoot_and_brutes_smash() {
    let mut archer = creature("A", Pos::new(1, 4), 5, false);
    archer.actor.creature_type = CreatureType::GoblinArcher;
    let mut brute = creature("B", Pos::new(5, 5), 15, false);
    brute.actor.creature_type = CreatureType::GoblinBrute;
    let w = world(vec![creature("P", Pos::new(4, 4), 30, true), archer, brute, creature("G", Pos::new(8, 8), 5, false)]);
    let pf = Pathfinding::new(&w);
    match ai_turn(&w, &pf, 1).kind {
        ActionKind::ShootArrow { path, target } => {
            assert_eq!(target, 0);
            assert_eq!(path, Pos::new(1, 4).bresenham(Pos::new(4, 4)));
        },
        other => panic!("{:?}", other),
    }
    match ai_turn(&w, &pf, 2).kind {
        ActionKind::DelayedSmash { dir } => assert_eq!((dir.x, dir.y), (-1, -1)),
        other => panic!("{:?}", other),
    }
    match ai_turn(&w, &pf, 3).kind {
        ActionKind::Move { from, to } => {
            assert_eq!(from, Pos::new(8, 8));
            assert_eq!(to, Pos::new(7, 7));
        },
        other => panic!("{:?}", other),
    }
    assert_eq!(*pf.melee_grid.get(4, 4), 500);
}
