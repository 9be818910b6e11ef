use vstd::prelude::*;

use crate::combat::{hits, paired, pass_frame, player_hit, settled};
use crate::explosion::{explosion_slot_after, materialized};
use crate::geometry::in_range;
use crate::motion::{direction, enemy_slot_after, laser_slot_after, player_slot_after};
use crate::spawn::{
    enemy_entity, enemy_volley, fire_step, firings, firings_spec, player_entity, player_laser,
    spawn_span_spec, ENEMY_FIRE_PERIOD_MS, ENEMY_SPAWN_PERIOD_MS, PLAYER_SPAWN_PERIOD_MS,
};
use crate::world::{
    count_tag, has_tag, Entity, Kind, Origin, PlayerState, Tag, World, WorldView, MAX_ENEMIES,
};

verus! {

/// The input signals of one tick.
#[derive(Clone, Copy, Debug, PartialEq, Eq, Structural)]
pub struct Controls {
    pub left_held: bool,
    pub right_held: bool,
    pub fire_held: bool,
    pub fire_just_released: bool,
}

/// The world after the respawn cadence fired `k` times at `now_ms`: the player
/// appears once if it is due to respawn; later firings find it alive.
pub open spec fn respawn_phase(a: WorldView, k: int, now_ms: u64) -> WorldView {
    if k >= 1 && a.player.respawn_due_spec(now_ms) {
        WorldView {
            slots: a.slots.push(Some(player_entity(a.win, a.sprites))),
            player: PlayerState::Alive,
            ..a
        }
    } else {
        a
    }
}

/// The enemy spawn cadence fired `k` times between `a` and `b`: as many enemies
/// as the cap leaves room for, up to `k`, were appended, each at a point of the
/// inset play area, and counted.
pub open spec fn spawn_phase(a: WorldView, b: WorldView, k: int) -> bool {
    let n = a.slots.len();
    let m = b.slots.len() - n;
    let room = MAX_ENEMIES - a.active_enemies;
    let sx = spawn_span_spec(a.win.w);
    let sy = spawn_span_spec(a.win.h);
    &&& n <= b.slots.len()
    &&& m == if k < room { k } else { room }
    &&& b == (WorldView { slots: b.slots, active_enemies: (a.active_enemies + m) as u64, ..a })
    &&& forall|i: int| 0 <= i < n ==> #[trigger] b.slots[i] == a.slots[i]
    &&& forall|i: int|
        n <= i < b.slots.len() ==> {
            let e = b.slots[i]->Some_0;
            &&& #[trigger] b.slots[i] == Some(enemy_entity(e.x, e.y, a.sprites))
            &&& (sx == 0 ==> e.x == 0) &&& (sx > 0 ==> -sx <= e.x < sx)
            &&& (sy == 0 ==> e.y == 0) &&& (sy > 0 ==> -sy <= e.y < sy)
        }
}

/// The slots after `k` enemy volleys, each fired by the enemies alive at that time.
pub open spec fn volleys(s: Seq<Option<Entity>>, sprites: crate::world::SpriteSizes, k: nat) -> Seq<
    Option<Entity>,
>
    decreases k,
{
    if k == 0 {
        s
    } else {
        let p = volleys(s, sprites, (k - 1) as nat);
        p + enemy_volley(p, sprites)
    }
}

/// What the player's fire input does between `a` and `b` (see `player_shoot`).
pub open spec fn shoot_phase(a: WorldView, b: WorldView, held: bool, released: bool) -> bool {
    &&& a.count(Tag::Player) == 0 ==> b == a
    &&& forall|h: int|
        0 <= h < a.slots.len() && has_tag(#[trigger] a.slots[h], Tag::Player) ==> {
            let p = a.entity(h);
            let step = fire_step(p.kind->ready_to_fire, held, released);
            let moved = a.slots.update(
                h,
                Some(Entity { kind: Kind::Player { ready_to_fire: step.1 }, ..p }),
            );
            &&& step.0 ==> b == (WorldView {
                slots: moved.push(Some(player_laser(p, a.sprites))),
                ..a
            })
            &&& !step.0 ==> b == (WorldView { slots: moved, ..a })
        }
}

/// What the enemy-laser pass does between `a` and `b` (see `laser_hit_player`).
pub open spec fn player_pass(a: WorldView, b: WorldView, now_ms: u64) -> bool {
    &&& a.count(Tag::Player) == 0 ==> b == a
    &&& forall|p: int|
        0 <= p < a.slots.len() && has_tag(#[trigger] a.slots[p], Tag::Player) ==> {
            ||| (b == a && forall|k: int|
                0 <= k < a.slots.len() && has_tag(#[trigger] a.slots[k], Tag::EnemyLaser)
                    ==> !hits(a, k, p))
            ||| exists|l: int|
                0 <= l < a.slots.len() && has_tag(a.slots[l], Tag::EnemyLaser) && hits(a, l, p)
                    && (forall|k: int|
                    0 <= k < l && has_tag(#[trigger] a.slots[k], Tag::EnemyLaser) ==> !hits(a, k, p))
                    && #[trigger] player_hit(a, p, l, now_ms) == b
        }
}

pub open spec fn mapped(a: WorldView, slots: Seq<Option<Entity>>) -> WorldView {
    WorldView { slots, ..a }
}

/// The phases of one tick, in order, through the views `t[0]` to `t[13]`.
pub open spec fn tick_steps(
    t: Seq<WorldView>,
    prev_ms: u64,
    now_ms: u64,
    c: Controls,
    tx: i64,
    ty: i64,
) -> bool {
    let dt = (now_ms - prev_ms) as u32;
    &&& t.len() == 14
    &&& t[1] == respawn_phase(t[0], firings_spec(prev_ms, now_ms, PLAYER_SPAWN_PERIOD_MS), now_ms)
    &&& spawn_phase(t[1], t[2], firings_spec(prev_ms, now_ms, ENEMY_SPAWN_PERIOD_MS))
    &&& t[3] == mapped(
        t[2],
        volleys(t[2].slots, t[2].sprites, firings_spec(prev_ms, now_ms, ENEMY_FIRE_PERIOD_MS) as nat),
    )
    &&& t[4] == mapped(
        t[3],
        t[3].slots.map_values(
            |o: Option<Entity>| player_slot_after(o, direction(c.left_held, c.right_held), dt),
        ),
    )
    &&& shoot_phase(t[4], t[5], c.fire_held, c.fire_just_released)
    &&& t[6] == mapped(
        t[5],
        t[5].slots.map_values(|o: Option<Entity>| laser_slot_after(o, Origin::FromPlayer, t[5].win.h, dt)),
    )
    &&& t[7] == mapped(
        t[6],
        t[6].slots.map_values(|o: Option<Entity>| laser_slot_after(o, Origin::FromEnemy, t[6].win.h, dt)),
    )
    &&& t[8] == mapped(t[7], t[7].slots.map_values(|o: Option<Entity>| enemy_slot_after(o, tx, ty, dt)))
    &&& pass_frame(t[8], t[9])
    &&& (exists|pairs: Seq<(usize, usize)>| #[trigger] paired(t[8], t[9], pairs))
    &&& settled(t[9], t[9].slots.len() as int) &&& t[9].wf()
    &&& player_pass(t[9], t[10], now_ms)
    &&& t[11] == mapped(t[10], t[10].slots.map_values(|o: Option<Entity>| materialized(o)))
    &&& t[12] == mapped(t[11], t[11].slots.map_values(|o: Option<Entity>| explosion_slot_after(o, dt)))
    &&& t[13] == t[12]
}

impl World {
    /// One tick from `prev_ms` to `now_ms` (times since the start of the run).
    /// First the cadences that came due in between: player respawn, enemy spawn,
    /// enemy fire. Then the player's input, motion (player lasers, enemy lasers,
    /// enemies toward `(tx, ty)`), both collision passes, materialization of
    /// explosion requests and the explosion animation, each phase as its own
    /// function states it. No explosion request outlives the tick.
    pub fn tick(&mut self, prev_ms: u64, now_ms: u64, controls: Controls, tx: i64, ty: i64)
        requires
            old(self).wf(),
            prev_ms <= now_ms,
            now_ms - prev_ms <= u32::MAX,
            in_range(tx as int),
            in_range(ty as int),
        ensures
            final(self).wf(),
            final(self)@.count(Tag::Request) == 0,
            exists|t: Seq<WorldView>|
                #[trigger] tick_steps(t, prev_ms, now_ms, controls, tx, ty) && t[0] == old(self)@
                    && t[13] == final(self)@,
    {
        let dt: u32 = (now_ms - prev_ms) as u32;
        let ghost v0 = self@;
        let k = firings(prev_ms, now_ms, PLAYER_SPAWN_PERIOD_MS);
        let mut c: u64 = 0;
        while c < k
            invariant
                self.wf(),
                c <= k,
                v0.wf(),
                self@ == respawn_phase(v0, c as int, now_ms),
            decreases k - c,
        {
            self.player_spawn(now_ms);
            c = c + 1;
        }
        let ghost v1 = self@;
        let k = firings(prev_ms, now_ms, ENEMY_SPAWN_PERIOD_MS);
        let mut c: u64 = 0;
        while c < k
            invariant
                self.wf(),
                v1.wf(),
                c <= k,
                spawn_phase(v1, self@, c as int),
            decreases k - c,
        {
            let ghost before = self@;
            self.enemy_spawn();
            proof {
                if before.active_enemies < MAX_ENEMIES {
                    assert forall|i: int| 0 <= i < v1.slots.len() implies #[trigger] self@.slots[i]
                        == v1.slots[i] by {
                        assert(self@.slots[i] == before.slots[i]);
                    }
                    assert forall|i: int| v1.slots.len() <= i < self@.slots.len() implies {
                        let e = self@.slots[i]->Some_0;
                        let sx = spawn_span_spec(v1.win.w);
                        let sy = spawn_span_spec(v1.win.h);
                        &&& #[trigger] self@.slots[i] == Some(enemy_entity(e.x, e.y, v1.sprites))
                        &&& (sx == 0 ==> e.x == 0) &&& (sx > 0 ==> -sx <= e.x < sx)
                        &&& (sy == 0 ==> e.y == 0) &&& (sy > 0 ==> -sy <= e.y < sy)
                    } by {
                        if i < before.slots.len() {
                            assert(self@.slots[i] == before.slots[i]);
                        }
                    }
                }
            }
            c = c + 1;
        }
        let ghost v2 = self@;
        let k = firings(prev_ms, now_ms, ENEMY_FIRE_PERIOD_MS);
        let mut c: u64 = 0;
        while c < k
            invariant
                self.wf(),
                c <= k,
                self@ == mapped(v2, volleys(v2.slots, v2.sprites, c as nat)),
            decreases k - c,
        {
            self.enemy_fire();
            c = c + 1;
        }
        let ghost v3 = self@;
        self.player_movement(controls.left_held, controls.right_held, dt);
        let ghost v4 = self@;
        self.player_shoot(controls.fire_held, controls.fire_just_released);
        let ghost v5 = self@;
        self.laser_movement(dt);
        let ghost v6 = self@;
        self.enemy_laser_movement(dt);
        let ghost v7 = self@;
        self.enemy_movement(tx, ty, dt);
        let ghost v8 = self@;
        let pairs = self.laser_hit_enemy();
        let ghost v9 = self@;
        assert(paired(v8, v9, pairs@));
        let r = self.laser_hit_player(now_ms);
        let ghost v10 = self@;
        proof {
            assert forall|p: int|
                0 <= p < v9.slots.len() && has_tag(#[trigger] v9.slots[p], Tag::Player) implies {
                ||| (v10 == v9 && forall|k: int|
                    0 <= k < v9.slots.len() && has_tag(#[trigger] v9.slots[k], Tag::EnemyLaser)
                        ==> !hits(v9, k, p))
                ||| exists|l: int|
                    0 <= l < v9.slots.len() && has_tag(v9.slots[l], Tag::EnemyLaser) && hits(v9, l, p)
                        && (forall|k: int|
                        0 <= k < l && has_tag(#[trigger] v9.slots[k], Tag::EnemyLaser) ==> !hits(v9, k, p))
                        && #[trigger] player_hit(v9, p, l, now_ms) == v10
            } by {
                if let Some(l) = r {
                    assert(player_hit(v9, p, l as int, now_ms) == v10);
                }
            }
        }
        self.explosion_to_spawn();
        let ghost v11 = self@;
        self.animate_exp(dt);
        let ghost v12 = self@;
        proof {
            assert forall|h: int| 0 <= h < self@.slots.len() implies !has_tag(
                #[trigger] self@.slots[h],
                Tag::Request,
            ) by {
                crate::world::lemma_count_zero(v11.slots, Tag::Request, h);
                assert(self@.slots[h] == explosion_slot_after(v11.slots[h], dt));
            }
            crate::world::lemma_count_none(self@.slots, Tag::Request);
            let t = seq![v0, v1, v2, v3, v4, v5, v6, v7, v8, v9, v10, v11, v12, v12];
            assert(t[3] == v3);
            assert(tick_steps(t, prev_ms, now_ms, controls, tx, ty));
        }
    }
}

/// The enemy count always equals the number of live enemies.
pub proof fn lemma_enemy_count_matches(w: WorldView)
    requires
        w.wf(),
    ensures
        w.active_enemies == count_tag(w.slots, Tag::Enemy),
{
}

/// Never more live enemies than the cap.
pub proof fn lemma_enemy_cap(w: WorldView)
    requires
        w.wf(),
    ensures
        count_tag(w.slots, Tag::Enemy) <= MAX_ENEMIES,
{
}

/// At most one player is alive, and none while the player is dead.
pub proof fn lemma_player_singleton(w: WorldView)
    requires
        w.wf(),
    ensures
        count_tag(w.slots, Tag::Player) <= 1,
        w.player is Dead ==> forall|h: int|
            0 <= h < w.slots.len() ==> !crate::world::has_tag(#[trigger] w.slots[h], Tag::Player),
{
    if w.player is Dead {
        assert forall|h: int| 0 <= h < w.slots.len() implies !crate::world::has_tag(
            #[trigger] w.slots[h],
            Tag::Player,
        ) by {
            crate::world::lemma_count_zero(w.slots, Tag::Player, h);
        }
    }
}

} // verus!
