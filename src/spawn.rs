use vstd::prelude::*;

use rand::Rng;

use crate::geometry::{clamp_coord, clamp_spec, in_range};
use crate::world::{
    has_tag, ind, lemma_count_two, make, make_spec, Entity, Kind, Origin, PlayerState,
    SpriteSizes, Tag, WinSize, World, WorldView, MAX_ENEMIES,
};

verus! {

/// Interval of the enemy spawn cadence.
pub const ENEMY_SPAWN_PERIOD_MS: u64 = 1000;

/// Interval of the enemy fire cadence.
pub const ENEMY_FIRE_PERIOD_MS: u64 = 900;

/// Interval of the player respawn cadence.
pub const PLAYER_SPAWN_PERIOD_MS: u64 = 500;

/// How many times a cadence of `period_ms`, counted from the start of the run,
/// fires in the interval `(prev_ms, now_ms]`.
pub open spec fn firings_spec(prev_ms: u64, now_ms: u64, period_ms: u64) -> int {
    now_ms as int / period_ms as int - prev_ms as int / period_ms as int
}

pub fn firings(prev_ms: u64, now_ms: u64, period_ms: u64) -> (r: u64)
    requires
        prev_ms <= now_ms,
        period_ms > 0,
    ensures
        r == firings_spec(prev_ms, now_ms, period_ms),
{
    proof {
        vstd::arithmetic::div_mod::lemma_div_is_ordered(
            prev_ms as int,
            now_ms as int,
            period_ms as int,
        );
    }
    now_ms / period_ms - prev_ms / period_ms
}

/// Where the player appears: bottom centre, raised by half its sprite height
/// and a margin of five units.
pub open spec fn player_entity(win: WinSize, sprites: SpriteSizes) -> Entity {
    make_spec(
        Kind::Player { ready_to_fire: true },
        0,
        (-(win.h as int * 500) + sprites.player.h as int * 500 + 5000) as i64,
        10_000,
        1000,
        1000,
        sprites.player,
    )
}

/// A laser fired by the player entity `p`, 15 units above it.
pub open spec fn player_laser(p: Entity, sprites: SpriteSizes) -> Entity {
    make_spec(
        Kind::Laser { origin: Origin::FromPlayer },
        p.x,
        clamp_spec(p.y + 15_000) as i64,
        0,
        250,
        500,
        sprites.player_laser,
    )
}

/// A laser fired by the enemy entity `e`, 15 units below it.
pub open spec fn enemy_laser(e: Entity, sprites: SpriteSizes) -> Entity {
    make_spec(
        Kind::Laser { origin: Origin::FromEnemy },
        e.x,
        clamp_spec(e.y - 15_000) as i64,
        0,
        500,
        500,
        sprites.enemy_laser,
    )
}

/// A laser of the given origin at `(x, y)`.
pub open spec fn laser_entity(origin: Origin, x: i64, y: i64, sprites: SpriteSizes) -> Entity {
    match origin {
        Origin::FromPlayer => make_spec(Kind::Laser { origin }, x, y, 0, 250, 500, sprites.player_laser),
        Origin::FromEnemy => make_spec(Kind::Laser { origin }, x, y, 0, 500, 500, sprites.enemy_laser),
    }
}

pub open spec fn enemy_entity(x: i64, y: i64, sprites: SpriteSizes) -> Entity {
    make_spec(Kind::Enemy, x, y, 10_000, 250, 250, sprites.enemy)
}

/// The lasers of one enemy volley over a slot sequence: one per live enemy, in
/// handle order.
pub open spec fn enemy_volley(s: Seq<Option<Entity>>, sprites: SpriteSizes) -> Seq<
    Option<Entity>,
>
    decreases s.len(),
{
    if s.len() == 0 {
        Seq::empty()
    } else {
        let rest = enemy_volley(s.drop_last(), sprites);
        if has_tag(s.last(), Tag::Enemy) {
            rest.push(Some(enemy_laser(s.last()->Some_0, sprites)))
        } else {
            rest
        }
    }
}

/// The fire gate of the player for one tick: it shoots when ready and the fire
/// input is held, which spends the readiness; a release makes it ready again.
/// Returns (shoots, ready afterwards).
pub open spec fn fire_step(ready: bool, held: bool, released: bool) -> (bool, bool) {
    let shoots = ready && held;
    (shoots, if released {
        true
    } else if shoots {
        false
    } else {
        ready
    })
}

/// Half the span, on one axis, in which enemies appear: half the window less 100
/// units, or nothing when the window is too small for that margin.
pub open spec fn spawn_span_spec(size: u32) -> int {
    let s = size as int * 500 - 100_000;
    if s > 0 {
        s
    } else {
        0
    }
}

fn spawn_span(size: u32) -> (r: i64)
    ensures
        r == spawn_span_spec(size),
        0 <= r <= 3_000_000_000_000,
{
    let s: i64 = size as i64 * 500 - 100_000;
    if s > 0 {
        s
    } else {
        0
    }
}

/// Relies on rand's `thread_rng().gen_range(low..high)`: a value drawn from the
/// half-open range, which must not be empty.
#[verifier::external_body]
fn random_in(low: i64, high: i64) -> (r: i64)
    requires
        low < high,
    ensures
        low <= r < high,
{
    rand::thread_rng().gen_range(low..high)
}

/// A coordinate drawn from `[-span, span)`, or 0 when the span is empty.
fn random_coord(span: i64) -> (r: i64)
    requires
        0 <= span <= 3_000_000_000_000,
    ensures
        span == 0 ==> r == 0,
        span > 0 ==> -span <= r < span,
{
    if span > 0 {
        random_in(-span, span)
    } else {
        0
    }
}

impl World {
    /// Spawns the player at its starting point when it is dead and the respawn
    /// gate lets it through at `now_ms`.
    pub fn player_spawn(&mut self, now_ms: u64) -> (r: Option<usize>)
        requires
            old(self).wf(),
        ensures
            final(self).wf(),
            old(self)@.player.respawn_due_spec(now_ms) ==> r == Some(old(self)@.slots.len() as usize)
                && final(self)@ == (WorldView {
                slots: old(self)@.slots.push(Some(player_entity(old(self)@.win, old(self)@.sprites))),
                player: PlayerState::Alive,
                ..old(self)@
            }),
            !old(self)@.player.respawn_due_spec(now_ms) ==> r is None && final(self)@ == old(
                self,
            )@,
    {
        if self.player.respawn_due(now_ms) {
            let y: i64 = -(self.win.h as i64 * 500) + self.sprites.player.h as i64 * 500 + 5000;
            let e = make(
                Kind::Player { ready_to_fire: true },
                0,
                y,
                10_000,
                1000,
                1000,
                self.sprites.player,
            );
            let h = self.push_raw(e);
            assert(self@.count(Tag::Enemy) == old(self)@.count(Tag::Enemy));
            assert(self@.count(Tag::Player) == old(self)@.count(Tag::Player) + 1);
            self.player.spawned();
            Some(h)
        } else {
            None
        }
    }

    /// Adds a laser of the given origin at `(x, y)`, with that side's footprint and scale.
    pub fn spawn_laser(&mut self, origin: Origin, x: i64, y: i64) -> (r: usize)
        requires
            old(self).wf(),
            in_range(x as int),
            in_range(y as int),
        ensures
            final(self).wf(),
            r == old(self)@.slots.len(),
            final(self)@ == (WorldView {
                slots: old(self)@.slots.push(Some(laser_entity(origin, x, y, old(self)@.sprites))),
                ..old(self)@
            }),
    {
        let e = match origin {
            Origin::FromPlayer => make(
                Kind::Laser { origin: Origin::FromPlayer },
                x,
                y,
                0,
                250,
                500,
                self.sprites.player_laser,
            ),
            Origin::FromEnemy => make(
                Kind::Laser { origin: Origin::FromEnemy },
                x,
                y,
                0,
                500,
                500,
                self.sprites.enemy_laser,
            ),
        };
        self.push_other(e)
    }

    /// Adds an enemy at `(x, y)` unless the cap of live enemies is reached.
    pub fn spawn_enemy_at(&mut self, x: i64, y: i64) -> (r: Option<usize>)
        requires
            old(self).wf(),
            in_range(x as int),
            in_range(y as int),
        ensures
            final(self).wf(),
            old(self)@.active_enemies < MAX_ENEMIES ==> r == Some(old(self)@.slots.len() as usize)
                && final(self)@ == (WorldView {
                slots: old(self)@.slots.push(Some(enemy_entity(x, y, old(self)@.sprites))),
                active_enemies: (old(self)@.active_enemies + 1) as u64,
                ..old(self)@
            }),
            old(self)@.active_enemies >= MAX_ENEMIES ==> r is None && final(self)@ == old(
                self,
            )@,
    {
        if self.active_enemies < MAX_ENEMIES {
            let e = make(Kind::Enemy, x, y, 10_000, 250, 250, self.sprites.enemy);
            let h = self.push_raw(e);
            assert(self@.count(Tag::Enemy) == old(self)@.count(Tag::Enemy) + 1);
            assert(self@.count(Tag::Player) == old(self)@.count(Tag::Player));
            self.active_enemies = self.active_enemies + 1;
            Some(h)
        } else {
            None
        }
    }

    /// The enemy spawn cadence: below the cap, one enemy appears at a random point
    /// of the play area inset by 100 units on each side.
    pub fn enemy_spawn(&mut self) -> (r: Option<usize>)
        requires
            old(self).wf(),
        ensures
            final(self).wf(),
            old(self)@.active_enemies < MAX_ENEMIES ==> r == Some(old(self)@.slots.len() as usize)
                && final(self)@.slots.len() == old(self)@.slots.len() + 1 && ({
                let e = final(self)@.entity(old(self)@.slots.len() as int);
                let sx = spawn_span_spec(old(self)@.win.w);
                let sy = spawn_span_spec(old(self)@.win.h);
                &&& final(self)@ == (WorldView {
                    slots: old(self)@.slots.push(Some(enemy_entity(e.x, e.y, old(self)@.sprites))),
                    active_enemies: (old(self)@.active_enemies + 1) as u64,
                    ..old(self)@
                })
                &&& (sx == 0 ==> e.x == 0) &&& (sx > 0 ==> -sx <= e.x < sx)
                &&& (sy == 0 ==> e.y == 0) &&& (sy > 0 ==> -sy <= e.y < sy)
            }),
            old(self)@.active_enemies >= MAX_ENEMIES ==> r is None && final(self)@ == old(
                self,
            )@,
    {
        if self.active_enemies < MAX_ENEMIES {
            let x = random_coord(spawn_span(self.win.w));
            let y = random_coord(spawn_span(self.win.h));
            let r = self.spawn_enemy_at(x, y);
            assert(self@.slots[old(self)@.slots.len() as int] == Some(
                enemy_entity(x, y, old(self)@.sprites),
            ));
            r
        } else {
            None
        }
    }

    /// The enemy fire cadence: every live enemy fires one laser 15 units below itself.
    pub fn enemy_fire(&mut self)
        requires
            old(self).wf(),
        ensures
            final(self).wf(),
            final(self)@ == (WorldView {
                slots: old(self)@.slots + enemy_volley(old(self)@.slots, old(self)@.sprites),
                ..old(self)@
            }),
    {
        let ghost start = self@;
        let n = self.slots.len();
        let mut i: usize = 0;
        while i < n
            invariant
                self.wf(),
                i <= n,
                n == start.slots.len(),
                self@ == (WorldView { slots: self@.slots, ..start }),
                self@.slots =~= start.slots + enemy_volley(start.slots.take(i as int), start.sprites),
            decreases n - i,
        {
            assert(start.slots.take(i as int + 1).drop_last() =~= start.slots.take(i as int));
            assert(self@.slots[i as int] == start.slots[i as int]);
            if let Some(e) = self.slots[i] {
                if let Kind::Enemy = e.kind {
                    let l = make(
                        Kind::Laser { origin: Origin::FromEnemy },
                        e.x,
                        clamp_coord(e.y as i128 - 15_000),
                        0,
                        500,
                        500,
                        self.sprites.enemy_laser,
                    );
                    let ghost before = self@;
                    self.push_raw(l);
                    assert(self@.count(Tag::Enemy) == before.count(Tag::Enemy));
                    assert(self@.count(Tag::Player) == before.count(Tag::Player));
                }
            }
            i = i + 1;
        }
        assert(start.slots.take(n as int) =~= start.slots);
    }

    /// The player's fire input for one tick: with the fire input held and the
    /// player ready to fire, one laser appears 15 units above the player and the
    /// readiness is spent; a release of the input restores it. Nothing happens while the
    /// player is dead.
    pub fn player_shoot(&mut self, fire_held: bool, fire_released: bool) -> (r: Option<usize>)
        requires
            old(self).wf(),
        ensures
            final(self).wf(),
            old(self)@.count(Tag::Player) == 0 ==> r is None && final(self)@ == old(self)@,
            final(self)@.win == old(self)@.win,
            final(self)@.player == old(self)@.player,
            final(self)@.sprites == old(self)@.sprites,
            forall|h: int|
                0 <= h < old(self)@.slots.len() && has_tag(#[trigger] old(self)@.slots[h], Tag::Player)
                    ==> ({
                    let p = old(self)@.entity(h);
                    let step = fire_step(p.kind->ready_to_fire, fire_held, fire_released);
                    let moved = old(self)@.slots.update(
                        h,
                        Some(Entity { kind: Kind::Player { ready_to_fire: step.1 }, ..p }),
                    );
                    &&& step.0 ==> r == Some(old(self)@.slots.len() as usize) && final(self)@ == (
                    WorldView {
                        slots: moved.push(Some(player_laser(p, old(self)@.sprites))),
                        ..old(self)@
                    })
                    &&& !step.0 ==> r is None && final(self)@ == (WorldView {
                        slots: moved,
                        ..old(self)@
                    })
                }),
    {
        match self.find_player() {
            None => {
                proof {
                    assert forall|j: int|
                        0 <= j < old(self)@.slots.len() implies !has_tag(
                            #[trigger] old(self)@.slots[j],
                            Tag::Player,
                        ) by {
                        crate::world::lemma_count_zero(old(self)@.slots, Tag::Player, j);
                    }
                }
                None
            },
            Some(h) => {
                proof {
                    assert forall|j: int|
                        0 <= j < old(self)@.slots.len() && has_tag(
                            #[trigger] old(self)@.slots[j],
                            Tag::Player,
                        ) implies j == h by {
                        if j != h {
                            lemma_count_two(old(self)@.slots, Tag::Player, j, h as int);
                        }
                    }
                }
                let p = self.slots[h].unwrap();
                let ready = match p.kind {
                    Kind::Player { ready_to_fire } => ready_to_fire,
                    _ => false,
                };
                let shoots = ready && fire_held;
                let ready_after = if fire_released {
                    true
                } else if shoots {
                    false
                } else {
                    ready
                };
                self.set_slot(h, Some(Entity { kind: Kind::Player { ready_to_fire: ready_after }, ..p }));
                if shoots {
                    let l = make(
                        Kind::Laser { origin: Origin::FromPlayer },
                        p.x,
                        clamp_coord(p.y as i128 + 15_000),
                        0,
                        250,
                        500,
                        self.sprites.player_laser,
                    );
                    let ghost before = self@;
                    let r = self.push_raw(l);
                    assert(self@.count(Tag::Enemy) == before.count(Tag::Enemy));
                    assert(self@.count(Tag::Player) == before.count(Tag::Player));
                    Some(r)
                } else {
                    None
                }
            },
        }
    }
}

/// How many shots a sequence of (held, released) inputs gives, from a gate that
/// starts as `ready`.
pub open spec fn shots(ready: bool, inputs: Seq<(bool, bool)>) -> nat
    decreases inputs.len(),
{
    if inputs.len() == 0 {
        0
    } else {
        let step = fire_step(ready, inputs[0].0, inputs[0].1);
        ind(step.0) + shots(step.1, inputs.drop_first())
    }
}

/// One press gives one shot: however long the fire input is held, a run of
/// ticks without a release fires at most once, and exactly once when the player
/// starts ready and the input is held on the first tick.
pub proof fn lemma_one_shot_per_press(ready: bool, inputs: Seq<(bool, bool)>)
    requires
        forall|k: int| 0 <= k < inputs.len() ==> !(#[trigger] inputs[k]).1,
    ensures
        shots(ready, inputs) <= 1,
        ready && inputs.len() > 0 && inputs[0].0 ==> shots(ready, inputs) == 1,
    decreases inputs.len(),
{
    if inputs.len() > 0 {
        let rest = inputs.drop_first();
        assert forall|k: int| 0 <= k < rest.len() implies !(#[trigger] rest[k]).1 by {
            assert(rest[k] == inputs[k + 1]);
        }
        let step = fire_step(ready, inputs[0].0, inputs[0].1);
        lemma_one_shot_per_press(step.1, rest);
        if step.0 {
            lemma_never_ready_no_shot(rest);
        }
    }
}

/// A closed gate stays closed, and silent, until a release.
proof fn lemma_never_ready_no_shot(inputs: Seq<(bool, bool)>)
    requires
        forall|k: int| 0 <= k < inputs.len() ==> !(#[trigger] inputs[k]).1,
    ensures
        shots(false, inputs) == 0,
    decreases inputs.len(),
{
    if inputs.len() > 0 {
        let rest = inputs.drop_first();
        assert forall|k: int| 0 <= k < rest.len() implies !(#[trigger] rest[k]).1 by {
            assert(rest[k] == inputs[k + 1]);
        }
        lemma_never_ready_no_shot(rest);
    }
}

} // verus!
