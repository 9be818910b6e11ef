use rust_invaders::explosion::EXPLOSION_LIFETIME_MS;
use rust_invaders::game::Controls;
use rust_invaders::geometry::{approach, half_extent, isqrt, overlaps, Aabb};
use rust_invaders::spawn::{firings, PLAYER_SPAWN_PERIOD_MS};
use rust_invaders::world::{
    Entity, Footprint, Kind, Origin, PlayerState, SpriteSizes, Tag, WinSize, World, MAX_ENEMIES,
};

fn sprites() -> SpriteSizes {
    SpriteSizes {
        player: Footprint { w: 80, h: 80 },
        player_laser: Footprint { w: 16, h: 40 },
        enemy: Footprint { w: 200, h: 200 },
        enemy_laser: Footprint { w: 16, h: 40 },
    }
}

fn new_world() -> World {
    World::new(WinSize { w: 600, h: 700 }, sprites())
}

fn live(w: &World, t: Tag) -> Vec<usize> {
    w.query(t)
}

fn entity(w: &World, h: usize) -> Entity {
    w.get(h).unwrap()
}

#[test]
fn laser_overlapping_enemy_destroys_both() {
    let mut w = new_world();
    let e = w.spawn_enemy_at(0, 0).unwrap();
    let l = w.spawn_laser(Origin::FromPlayer, 0, 0);
    assert_eq!(w.active_enemies, 1);
    assert_eq!(w.laser_hit_enemy(), vec![(l, e)]);
    assert!(w.get(e).is_none());
    assert!(w.get(l).is_none());
    assert_eq!(w.active_enemies, 0);
    let reqs = live(&w, Tag::Request);
    assert_eq!(reqs.len(), 1);
    let r = entity(&w, reqs[0]);
    assert_eq!((r.x, r.y, r.z), (0, 0, 10_000));
}

#[test]
fn one_laser_takes_only_one_enemy() {
    let mut w = new_world();
    let e1 = w.spawn_enemy_at(0, 0).unwrap();
    w.spawn_enemy_at(1_000, 0).unwrap();
    let l = w.spawn_laser(Origin::FromPlayer, 0, 0);
    assert_eq!(w.laser_hit_enemy(), vec![(l, e1)]);
    assert_eq!(live(&w, Tag::Enemy).len(), 1);
    assert_eq!(w.active_enemies, 1);
    assert_eq!(live(&w, Tag::Request).len(), 1);
}

#[test]
fn distant_laser_misses_enemy() {
    let mut w = new_world();
    w.spawn_enemy_at(0, 0).unwrap();
    w.spawn_laser(Origin::FromPlayer, 0, 200_000);
    assert!(w.laser_hit_enemy().is_empty());
    assert_eq!(live(&w, Tag::Enemy).len(), 1);
    assert_eq!(live(&w, Tag::PlayerLaser).len(), 1);
    assert_eq!(w.active_enemies, 1);
}

#[test]
fn enemy_laser_without_player_is_no_op() {
    let mut w = new_world();
    let l = w.spawn_laser(Origin::FromEnemy, 0, -305_000);
    assert_eq!(w.laser_hit_player(1_000), None);
    assert!(w.get(l).is_some());
    assert_eq!(w.len(), 1);
    assert_eq!(w.player, PlayerState::Dead { last_shot: None });
}

#[test]
fn enemy_laser_kills_player() {
    let mut w = new_world();
    let p = w.player_spawn(0).unwrap();
    let pe = entity(&w, p);
    assert_eq!((pe.x, pe.y), (0, -305_000));
    let l = w.spawn_laser(Origin::FromEnemy, 0, -300_000);
    assert_eq!(w.laser_hit_player(3_000), Some(l));
    assert!(w.get(p).is_none());
    assert!(w.get(l).is_none());
    assert_eq!(w.player, PlayerState::Dead { last_shot: Some(3_000) });
    assert_eq!(w.find_player(), None);
    let reqs = live(&w, Tag::Request);
    assert_eq!(reqs.len(), 1);
    let r = entity(&w, reqs[0]);
    assert_eq!((r.x, r.y), (0, -305_000));
}

#[test]
fn respawn_gate_is_multiplicative() {
    let mut w = new_world();
    let p = w.player_spawn(0).unwrap();
    assert_eq!(w.player, PlayerState::Alive);
    assert_eq!(w.player_spawn(100), None);
    w.destroy(p, 10_000);
    assert_eq!(w.player, PlayerState::Dead { last_shot: Some(10_000) });
    assert_eq!(w.player_spawn(20_000), None);
    assert!(w.player_spawn(20_001).is_some());
    let mut w2 = new_world();
    let p2 = w2.player_spawn(0).unwrap();
    w2.destroy(p2, 10_000);
    assert!(w2.player_spawn(25_000).is_some());
    assert_eq!(w2.player, PlayerState::Alive);
}

#[test]
fn respawn_happens_on_next_cadence_tick() {
    let mut w = new_world();
    let p = w.player_spawn(0).unwrap();
    w.destroy(p, 10_000);
    let idle = Controls { left_held: false, right_held: false, fire_held: false, fire_just_released: false };
    assert_eq!(firings(24_990, 25_000, PLAYER_SPAWN_PERIOD_MS), 1);
    w.tick(24_990, 25_000, idle, 0, 100_000);
    assert_eq!(w.player, PlayerState::Alive);
    assert_eq!(live(&w, Tag::Player).len(), 1);
}

#[test]
fn no_respawn_before_gate() {
    let mut w = new_world();
    let p = w.player_spawn(0).unwrap();
    w.destroy(p, 10_000);
    let idle = Controls { left_held: false, right_held: false, fire_held: false, fire_just_released: false };
    w.tick(19_990, 20_000, idle, 0, 100_000);
    assert_eq!(w.player, PlayerState::Dead { last_shot: Some(10_000) });
    assert_eq!(live(&w, Tag::Player).len(), 0);
}

#[test]
fn held_fire_gives_one_shot() {
    let mut w = new_world();
    w.player_spawn(0).unwrap();
    let mut shots = 0;
    for _ in 0..120 {
        if w.player_shoot(true, false).is_some() {
            shots += 1;
        }
    }
    assert_eq!(shots, 1);
    assert_eq!(live(&w, Tag::PlayerLaser).len(), 1);
    assert!(w.player_shoot(false, true).is_none());
    assert!(w.player_shoot(true, false).is_some());
    assert_eq!(live(&w, Tag::PlayerLaser).len(), 2);
}

#[test]
fn held_fire_over_two_seconds_of_ticks() {
    let mut w = new_world();
    w.player_spawn(0).unwrap();
    let fire = Controls { left_held: false, right_held: false, fire_held: true, fire_just_released: false };
    let mut t: u64 = 0;
    let mut fired = 0;
    while t < 2_000 {
        let before = live(&w, Tag::PlayerLaser).len();
        w.tick(t, t + 16, fire, 0, 100_000);
        if live(&w, Tag::PlayerLaser).len() > before {
            fired += 1;
        }
        t += 16;
    }
    assert_eq!(fired, 1);
}

#[test]
fn player_laser_position_above_player() {
    let mut w = new_world();
    let p = w.player_spawn(0).unwrap();
    let l = w.player_shoot(true, false).unwrap();
    let pe = entity(&w, p);
    let le = entity(&w, l);
    assert_eq!((le.x, le.y), (pe.x, pe.y + 15_000));
    assert_eq!(le.kind, Kind::Laser { origin: Origin::FromPlayer });
    assert_eq!(pe.kind, Kind::Player { ready_to_fire: false });
}

#[test]
fn explosion_runs_sixteen_frames() {
    let mut w = new_world();
    let r = w.request_explosion(50_000, 50_000, 0);
    w.explosion_to_spawn();
    assert_eq!(live(&w, Tag::Request).len(), 0);
    let ex = live(&w, Tag::Explosion);
    assert_eq!(ex, vec![r]);
    let e = entity(&w, r);
    assert_eq!((e.x, e.y), (50_000, 50_000));
    assert_eq!(e.kind, Kind::Explosion { frame: 0, elapsed_ms: 0 });
    for f in 1..16u32 {
        w.animate_exp(50);
        assert_eq!(entity(&w, r).kind, Kind::Explosion { frame: f, elapsed_ms: 0 });
    }
    w.animate_exp(50);
    assert!(w.get(r).is_none());
    assert_eq!(EXPLOSION_LIFETIME_MS, 800);
}

#[test]
fn explosion_time_accumulates() {
    let mut w = new_world();
    let r = w.request_explosion(0, 0, 0);
    w.explosion_to_spawn();
    w.animate_exp(30);
    assert_eq!(entity(&w, r).kind, Kind::Explosion { frame: 0, elapsed_ms: 30 });
    w.animate_exp(30);
    assert_eq!(entity(&w, r).kind, Kind::Explosion { frame: 1, elapsed_ms: 10 });
    w.animate_exp(739);
    assert!(w.get(r).is_some());
    w.animate_exp(1);
    assert!(w.get(r).is_none());
}

#[test]
fn enemy_spawn_respects_cap() {
    let mut w = new_world();
    for _ in 0..5 {
        w.enemy_spawn();
    }
    assert_eq!(live(&w, Tag::Enemy).len(), MAX_ENEMIES as usize);
    assert_eq!(w.active_enemies, 2);
    assert_eq!(w.spawn_enemy_at(0, 0), None);
    for h in live(&w, Tag::Enemy) {
        let e = entity(&w, h);
        assert!(-200_000 <= e.x && e.x < 200_000);
        assert!(-250_000 <= e.y && e.y < 250_000);
    }
}

#[test]
fn enemy_spawn_positions_vary() {
    let mut xs = Vec::new();
    for _ in 0..20 {
        let mut w = new_world();
        let h = w.enemy_spawn().unwrap();
        xs.push(entity(&w, h).x);
    }
    assert!(xs.iter().any(|x| *x != -200_000));
    assert!(xs.iter().any(|x| *x != xs[0]));
}

#[test]
fn enemy_count_follows_destroy() {
    let mut w = new_world();
    let a = w.spawn_enemy_at(0, 0).unwrap();
    let b = w.spawn_enemy_at(5_000, 0).unwrap();
    assert_eq!(w.active_enemies, 2);
    w.destroy(a, 0);
    assert_eq!(w.active_enemies, 1);
    assert_eq!(live(&w, Tag::Enemy), vec![b]);
    assert!(w.spawn_enemy_at(0, 0).is_some());
}

#[test]
fn destroy_twice_same_as_once() {
    let mut w = new_world();
    let a = w.spawn_enemy_at(0, 0).unwrap();
    w.spawn_enemy_at(5_000, 0).unwrap();
    w.destroy(a, 0);
    let once: Vec<Option<Entity>> = w.slots.clone();
    let count = w.active_enemies;
    w.destroy(a, 7);
    assert_eq!(w.slots, once);
    assert_eq!(w.active_enemies, count);
    w.destroy(99, 7);
    assert_eq!(w.slots, once);
}

#[test]
fn player_laser_leaves_only_through_top() {
    let mut w = new_world();
    let top = w.spawn_laser(Origin::FromPlayer, 0, 699_000);
    let low = w.spawn_laser(Origin::FromPlayer, 0, -900_000);
    w.laser_movement(10);
    assert!(w.get(top).is_none());
    assert_eq!(entity(&w, low).y, -895_000);
}

#[test]
fn enemy_laser_leaves_only_through_bottom() {
    let mut w = new_world();
    let low = w.spawn_laser(Origin::FromEnemy, 0, -399_000);
    let high = w.spawn_laser(Origin::FromEnemy, 0, 900_000);
    w.enemy_laser_movement(10);
    assert!(w.get(low).is_none());
    assert_eq!(entity(&w, high).y, 895_000);
    let edge = w.spawn_laser(Origin::FromEnemy, 0, -395_000);
    w.enemy_laser_movement(10);
    assert_eq!(entity(&w, edge).y, -400_000);
}

#[test]
fn enemy_fire_one_laser_per_enemy() {
    let mut w = new_world();
    w.spawn_enemy_at(10_000, 20_000).unwrap();
    w.spawn_enemy_at(-30_000, 40_000).unwrap();
    w.enemy_fire();
    let lasers = live(&w, Tag::EnemyLaser);
    assert_eq!(lasers.len(), 2);
    let a = entity(&w, lasers[0]);
    let b = entity(&w, lasers[1]);
    assert_eq!((a.x, a.y), (10_000, 5_000));
    assert_eq!((b.x, b.y), (-30_000, 25_000));
}

#[test]
fn player_moves_sideways() {
    let mut w = new_world();
    let p = w.player_spawn(0).unwrap();
    w.player_movement(true, false, 16);
    assert_eq!(entity(&w, p).x, -8_000);
    w.player_movement(false, true, 32);
    assert_eq!(entity(&w, p).x, 8_000);
    w.player_movement(false, false, 32);
    assert_eq!(entity(&w, p).x, 8_000);
    assert_eq!(entity(&w, p).y, -305_000);
}

#[test]
fn enemy_moves_toward_path_point() {
    let mut w = new_world();
    let e = w.spawn_enemy_at(0, 0).unwrap();
    w.enemy_movement(300_000, 400_000, 10);
    let m = entity(&w, e);
    assert_eq!((m.x, m.y), (3_000, 4_000));
    w.enemy_movement(3_000, 4_000, 10);
    let m = entity(&w, e);
    assert_eq!((m.x, m.y), (3_000, 4_000));
}

#[test]
fn approach_clamps_y_against_its_own_candidate() {
    assert_eq!(approach(0, 0, 0, -1_000, 100), (0, -100));
    assert_eq!(approach(0, 0, 0, 1_000, 100), (0, 100));
    assert_eq!(approach(0, 0, 30, 40, 1_000), (30, 40));
    assert_eq!(approach(7, 7, 7, 7, 1_000), (7, 7));
}

#[test]
fn integer_square_root() {
    assert_eq!(isqrt(0), 0);
    assert_eq!(isqrt(15), 3);
    assert_eq!(isqrt(16), 4);
    assert_eq!(isqrt(2_500), 50);
    assert_eq!(isqrt(u128::MAX), u64::MAX as u128);
}

#[test]
fn boxes_overlap_strictly() {
    let a = Aabb { x: 0, y: 0, half_w: 10, half_h: 10 };
    let b = Aabb { x: 20, y: 0, half_w: 10, half_h: 10 };
    let c = Aabb { x: 19, y: 5, half_w: 10, half_h: 10 };
    assert!(!overlaps(a, b));
    assert!(overlaps(a, c));
    assert_eq!(half_extent(80, 250), 10_000);
    assert_eq!(half_extent(7, 1000), 3_500);
}

#[test]
fn player_state_transitions() {
    let mut s = PlayerState::default();
    assert_eq!(s, PlayerState::Dead { last_shot: None });
    assert!(s.respawn_due(0));
    s.spawned();
    assert_eq!(s, PlayerState::Alive);
    assert!(!s.respawn_due(1_000_000));
    s.shot(10_000);
    assert!(!s.respawn_due(20_000));
    assert!(s.respawn_due(20_001));
}

#[test]
fn cadence_counts_multiples() {
    assert_eq!(firings(0, 999, 1_000), 0);
    assert_eq!(firings(999, 1_000, 1_000), 1);
    assert_eq!(firings(0, 2_700, 900), 3);
    assert_eq!(firings(500, 500, 500), 0);
}

#[test]
fn tick_spawns_and_clears_requests() {
    let mut w = new_world();
    let idle = Controls { left_held: false, right_held: false, fire_held: false, fire_just_released: false };
    w.tick(990, 1_000, idle, 0, 100_000);
    assert_eq!(live(&w, Tag::Player).len(), 1);
    assert_eq!(live(&w, Tag::Enemy).len(), 1);
    assert_eq!(w.active_enemies, 1);
    assert_eq!(live(&w, Tag::Request).len(), 0);
}

#[test]
fn each_laser_system_moves_only_its_side() {
    let mut w = new_world();
    let up = w.spawn_laser(Origin::FromPlayer, 0, 0);
    let down = w.spawn_laser(Origin::FromEnemy, 0, 0);
    w.laser_movement(10);
    assert_eq!(entity(&w, up).y, 5_000);
    assert_eq!(entity(&w, down).y, 0);
    w.enemy_laser_movement(10);
    assert_eq!(entity(&w, up).y, 5_000);
    assert_eq!(entity(&w, down).y, -5_000);
}

#[test]
fn two_lasers_on_one_enemy_take_it_once() {
    let mut w = new_world();
    let e = w.spawn_enemy_at(0, 0).unwrap();
    let l1 = w.spawn_laser(Origin::FromPlayer, 0, 0);
    let l2 = w.spawn_laser(Origin::FromPlayer, 1_000, 0);
    assert_eq!(w.laser_hit_enemy(), vec![(l1, e)]);
    assert!(w.get(l2).is_some());
    assert_eq!(live(&w, Tag::Request).len(), 1);
    assert_eq!(w.active_enemies, 0);
}
