use vstd::prelude::*;

use crate::geometry::{approach, approach_spec, clamp_coord, clamp_spec, in_range};
use crate::world::{has_tag, Entity, Kind, Origin, Tag, World, WorldView};

verus! {

/// Height above which a player laser is gone: the window height itself, in thousandths.
pub open spec fn top_exit(win_h: u32) -> int {
    win_h as int * 1000
}

/// Depth below which an enemy laser is gone: 50 units under the bottom edge.
pub open spec fn bottom_exit(win_h: u32) -> int {
    -(win_h as int * 500) - 50_000
}

/// A slot after one step of `dt_ms` of the lasers of side `side`: a player laser
/// rises, an enemy laser falls, each by speed times time, and is removed once
/// past its own exit; any other slot, the other side's lasers included, is unchanged.
pub open spec fn laser_slot_after(o: Option<Entity>, side: Origin, win_h: u32, dt_ms: u32) -> Option<
    Entity,
> {
    match o {
        Some(e) => if e.kind != (Kind::Laser { origin: side }) {
            o
        } else {
            laser_step(e, win_h, dt_ms)
        },
        None => None,
    }
}

/// One step of a laser: up for a player laser, down for an enemy laser.
pub open spec fn laser_step(e: Entity, win_h: u32, dt_ms: u32) -> Option<Entity> {
    match e.kind {
            Kind::Laser { origin: Origin::FromPlayer } => {
                let y = clamp_spec(e.y + e.speed * dt_ms);
                if y > top_exit(win_h) {
                    None
                } else {
                    Some(Entity { y: y as i64, ..e })
                }
            },
            Kind::Laser { origin: Origin::FromEnemy } => {
                let y = clamp_spec(e.y - e.speed * dt_ms);
                if y < bottom_exit(win_h) {
                    None
                } else {
                    Some(Entity { y: y as i64, ..e })
                }
            },
            _ => Some(e),
    }
}

/// -1 for left, +1 for right, 0 for neither; left wins when both are held.
pub open spec fn direction(left: bool, right: bool) -> int {
    if left {
        -1
    } else if right {
        1
    } else {
        0
    }
}

/// A slot after one player step: the player moves sideways by direction times
/// speed times time; nothing else changes.
pub open spec fn player_slot_after(o: Option<Entity>, dir: int, dt_ms: u32) -> Option<Entity> {
    match o {
        Some(e) => if e.kind is Player {
            Some(Entity { x: clamp_spec(e.x + dir * (e.speed * dt_ms)) as i64, ..e })
        } else {
            o
        },
        None => None,
    }
}

/// A slot after one enemy step toward the point `(tx, ty)` of the enemies' path,
/// by at most speed times time.
pub open spec fn enemy_slot_after(o: Option<Entity>, tx: i64, ty: i64, dt_ms: u32) -> Option<
    Entity,
> {
    match o {
        Some(e) => if e.kind is Enemy {
            let p = approach_spec(e.x as int, e.y as int, tx as int, ty as int, e.speed * dt_ms);
            Some(Entity { x: p.0 as i64, y: p.1 as i64, ..e })
        } else {
            o
        },
        None => None,
    }
}

/// The exit rule is one-sided: a player laser is removed only once above the top
/// exit and never for being low; an enemy laser only once below the bottom exit
/// and never for being high. Each side's step leaves the other side's lasers as they are.
pub proof fn lemma_exit_one_sided(e: Entity, win_h: u32, dt_ms: u32)
    requires
        e.valid(),
    ensures
        e.kind == (Kind::Laser { origin: Origin::FromPlayer }) ==> {
            let y = clamp_spec(e.y + e.speed * dt_ms);
            &&& laser_slot_after(Some(e), Origin::FromPlayer, win_h, dt_ms) is None <==> y > top_exit(win_h)
            &&& y < bottom_exit(win_h) ==> laser_slot_after(Some(e), Origin::FromPlayer, win_h, dt_ms) is Some
            &&& laser_slot_after(Some(e), Origin::FromEnemy, win_h, dt_ms) == Some(e)
        },
        e.kind == (Kind::Laser { origin: Origin::FromEnemy }) ==> {
            let y = clamp_spec(e.y - e.speed * dt_ms);
            &&& laser_slot_after(Some(e), Origin::FromEnemy, win_h, dt_ms) is None <==> y < bottom_exit(win_h)
            &&& y > top_exit(win_h) ==> laser_slot_after(Some(e), Origin::FromEnemy, win_h, dt_ms) is Some
            &&& laser_slot_after(Some(e), Origin::FromPlayer, win_h, dt_ms) == Some(e)
        },
{
}

proof fn lemma_speed_time(speed: u32, dt_ms: u32)
    ensures
        0 <= speed as int * dt_ms as int <= 18_446_744_065_119_617_025,
{
    assert(0 <= speed as int * dt_ms as int <= 4_294_967_295 * 4_294_967_295) by (nonlinear_arith)
        requires
            speed <= 4_294_967_295u32,
            dt_ms <= 4_294_967_295u32,
    ;
}

fn laser_after(o: Option<Entity>, side: Origin, win_h: u32, dt_ms: u32) -> (r: Option<Entity>)
    requires
        o matches Some(e) ==> e.valid(),
    ensures
        r == laser_slot_after(o, side, win_h, dt_ms),
        r matches Some(e) ==> e.valid(),
        has_tag(r, Tag::Enemy) == has_tag(o, Tag::Enemy),
        has_tag(r, Tag::Player) == has_tag(o, Tag::Player),
{
    match o {
        Some(e) => match e.kind {
            Kind::Laser { origin } if origin != side => o,
            Kind::Laser { origin: Origin::FromPlayer } => {
                proof {
                    lemma_speed_time(e.speed, dt_ms);
                }
                let y = clamp_coord(e.y as i128 + e.speed as i128 * dt_ms as i128);
                if y as i128 > win_h as i128 * 1000 {
                    None
                } else {
                    Some(Entity { y, ..e })
                }
            },
            Kind::Laser { origin: Origin::FromEnemy } => {
                proof {
                    lemma_speed_time(e.speed, dt_ms);
                }
                let y = clamp_coord(e.y as i128 - e.speed as i128 * dt_ms as i128);
                if (y as i128) < -(win_h as i128 * 500) - 50_000 {
                    None
                } else {
                    Some(Entity { y, ..e })
                }
            },
            _ => o,
        },
        None => None,
    }
}

fn player_after(o: Option<Entity>, left: bool, right: bool, dt_ms: u32) -> (r: Option<Entity>)
    requires
        o matches Some(e) ==> e.valid(),
    ensures
        r == player_slot_after(o, direction(left, right), dt_ms),
        r matches Some(e) ==> e.valid(),
        has_tag(r, Tag::Enemy) == has_tag(o, Tag::Enemy),
        has_tag(r, Tag::Player) == has_tag(o, Tag::Player),
{
    match o {
        Some(e) => if let Kind::Player { .. } = e.kind {
            proof {
                lemma_speed_time(e.speed, dt_ms);
            }
            let step: i128 = e.speed as i128 * dt_ms as i128;
            let x = if left {
                clamp_coord(e.x as i128 - step)
            } else if right {
                clamp_coord(e.x as i128 + step)
            } else {
                e.x
            };
            Some(Entity { x, ..e })
        } else {
            o
        },
        None => None,
    }
}

fn enemy_after(o: Option<Entity>, tx: i64, ty: i64, dt_ms: u32) -> (r: Option<Entity>)
    requires
        o matches Some(e) ==> e.valid(),
        in_range(tx as int),
        in_range(ty as int),
    ensures
        r == enemy_slot_after(o, tx, ty, dt_ms),
        r matches Some(e) ==> e.valid(),
        has_tag(r, Tag::Enemy) == has_tag(o, Tag::Enemy),
        has_tag(r, Tag::Player) == has_tag(o, Tag::Player),
{
    match o {
        Some(e) => if let Kind::Enemy = e.kind {
            proof {
                lemma_speed_time(e.speed, dt_ms);
            }
            let p = approach(e.x, e.y, tx, ty, e.speed as u64 * dt_ms as u64);
            Some(Entity { x: p.0, y: p.1, ..e })
        } else {
            o
        },
        None => None,
    }
}

impl World {
    /// Moves every player laser up by one step of `dt_ms`; one above the top exit
    /// is removed. Every other slot is unchanged.
    pub fn laser_movement(&mut self, dt_ms: u32)
        requires
            old(self).wf(),
        ensures
            final(self).wf(),
            final(self)@ == (WorldView {
                slots: old(self)@.slots.map_values(
                    |o: Option<Entity>| laser_slot_after(o, Origin::FromPlayer, old(self)@.win.h, dt_ms),
                ),
                ..old(self)@
            }),
    {
        self.move_lasers(Origin::FromPlayer, dt_ms);
    }

    /// Moves every enemy laser down by one step of `dt_ms`; one below the bottom
    /// exit is removed. Every other slot is unchanged.
    pub fn enemy_laser_movement(&mut self, dt_ms: u32)
        requires
            old(self).wf(),
        ensures
            final(self).wf(),
            final(self)@ == (WorldView {
                slots: old(self)@.slots.map_values(
                    |o: Option<Entity>| laser_slot_after(o, Origin::FromEnemy, old(self)@.win.h, dt_ms),
                ),
                ..old(self)@
            }),
    {
        self.move_lasers(Origin::FromEnemy, dt_ms);
    }

    fn move_lasers(&mut self, side: Origin, dt_ms: u32)
        requires
            old(self).wf(),
        ensures
            final(self).wf(),
            final(self)@ == (WorldView {
                slots: old(self)@.slots.map_values(
                    |o: Option<Entity>| laser_slot_after(o, side, old(self)@.win.h, dt_ms),
                ),
                ..old(self)@
            }),
    {
        let ghost start = self@;
        let n = self.slots.len();
        let mut i: usize = 0;
        while i < n
            invariant
                self.wf(),
                n == self@.slots.len(),
                i <= n,
                self@ == (WorldView { slots: self@.slots, ..start }),
                start.slots.len() == n,
                forall|k: int|
                    0 <= k < i ==> self@.slots[k] == laser_slot_after(
                        #[trigger] start.slots[k],
                        side,
                        start.win.h,
                        dt_ms,
                    ),
                forall|k: int| i <= k < n ==> self@.slots[k] == #[trigger] start.slots[k],
            decreases n - i,
        {
            let v = laser_after(self.slots[i], side, self.win.h, dt_ms);
            self.set_slot(i, v);
            i = i + 1;
        }
        assert(self@.slots =~= start.slots.map_values(
            |o: Option<Entity>| laser_slot_after(o, side, start.win.h, dt_ms),
        ));
    }

    /// Moves the player sideways: left when `left` is held, else right when `right`
    /// is held. There is no player to move while it is dead.
    pub fn player_movement(&mut self, left: bool, right: bool, dt_ms: u32)
        requires
            old(self).wf(),
        ensures
            final(self).wf(),
            final(self)@ == (WorldView {
                slots: old(self)@.slots.map_values(
                    |o: Option<Entity>| player_slot_after(o, direction(left, right), dt_ms),
                ),
                ..old(self)@
            }),
    {
        let ghost start = self@;
        let n = self.slots.len();
        let mut i: usize = 0;
        while i < n
            invariant
                self.wf(),
                n == self@.slots.len(),
                i <= n,
                self@ == (WorldView { slots: self@.slots, ..start }),
                start.slots.len() == n,
                forall|k: int|
                    0 <= k < i ==> self@.slots[k] == player_slot_after(
                        #[trigger] start.slots[k],
                        direction(left, right),
                        dt_ms,
                    ),
                forall|k: int| i <= k < n ==> self@.slots[k] == #[trigger] start.slots[k],
            decreases n - i,
        {
            let v = player_after(self.slots[i], left, right, dt_ms);
            self.set_slot(i, v);
            i = i + 1;
        }
        assert(self@.slots =~= start.slots.map_values(
            |o: Option<Entity>| player_slot_after(o, direction(left, right), dt_ms),
        ));
    }

    /// Moves every enemy toward `(tx, ty)`, the current point of the enemies'
    /// elliptical path, by at most its speed times `dt_ms`.
    pub fn enemy_movement(&mut self, tx: i64, ty: i64, dt_ms: u32)
        requires
            old(self).wf(),
            in_range(tx as int),
            in_range(ty as int),
        ensures
            final(self).wf(),
            final(self)@ == (WorldView {
                slots: old(self)@.slots.map_values(
                    |o: Option<Entity>| enemy_slot_after(o, tx, ty, dt_ms),
                ),
                ..old(self)@
            }),
    {
        let ghost start = self@;
        let n = self.slots.len();
        let mut i: usize = 0;
        while i < n
            invariant
                self.wf(),
                n == self@.slots.len(),
                i <= n,
                in_range(tx as int),
                in_range(ty as int),
                self@ == (WorldView { slots: self@.slots, ..start }),
                start.slots.len() == n,
                forall|k: int|
                    0 <= k < i ==> self@.slots[k] == enemy_slot_after(
                        #[trigger] start.slots[k],
                        tx,
                        ty,
                        dt_ms,
                    ),
                forall|k: int| i <= k < n ==> self@.slots[k] == #[trigger] start.slots[k],
            decreases n - i,
        {
            let v = enemy_after(self.slots[i], tx, ty, dt_ms);
            self.set_slot(i, v);
            i = i + 1;
        }
        assert(self@.slots =~= start.slots.map_values(
            |o: Option<Entity>| enemy_slot_after(o, tx, ty, dt_ms),
        ));
    }
}

} // verus!
