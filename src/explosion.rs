use vstd::prelude::*;

use crate::geometry::in_range;
use crate::world::{
    has_tag, Entity, Kind, Tag, World, WorldView, EXPLOSION_FRAMES, FRAME_PERIOD_MS,
};

verus! {

/// Time from the first frame of an explosion to its removal.
pub const EXPLOSION_LIFETIME_MS: u64 = 800;

/// A marker asking for an explosion at `(x, y, z)`; it has no collision box.
pub open spec fn request_entity(x: i64, y: i64, z: i64) -> Entity {
    Entity {
        kind: Kind::ExplosionRequest,
        x,
        y,
        z,
        scale_x: 1000,
        scale_y: 1000,
        half_w: 0,
        half_h: 0,
        speed: 0,
    }
}

/// A slot after materialization: a request becomes an explosion on its first
/// frame, at the same place, drawn at half scale; other slots are unchanged.
pub open spec fn materialized(o: Option<Entity>) -> Option<Entity> {
    match o {
        Some(e) => if e.kind is ExplosionRequest {
            Some(
                Entity {
                    kind: Kind::Explosion { frame: 0, elapsed_ms: 0 },
                    scale_x: 500,
                    scale_y: 500,
                    ..e
                },
            )
        } else {
            o
        },
        None => None,
    }
}

/// Time an explosion has run: whole frames plus the time on the current one.
pub open spec fn progress(frame: u32, elapsed_ms: u64) -> int {
    frame * FRAME_PERIOD_MS + elapsed_ms
}

/// A slot after `dt_ms` of animation: each period that elapses advances the
/// frame by one, and the explosion is gone once its frame would reach the frame
/// count; other slots are unchanged.
pub open spec fn explosion_slot_after(o: Option<Entity>, dt_ms: u32) -> Option<Entity> {
    match o {
        Some(e) => match e.kind {
            Kind::Explosion { frame, elapsed_ms } => {
                let total = progress(frame, elapsed_ms) + dt_ms;
                if total >= EXPLOSION_FRAMES * FRAME_PERIOD_MS {
                    None
                } else {
                    Some(
                        Entity {
                            kind: Kind::Explosion {
                                frame: (total / FRAME_PERIOD_MS as int) as u32,
                                elapsed_ms: (total % FRAME_PERIOD_MS as int) as u64,
                            },
                            ..e
                        },
                    )
                }
            },
            _ => o,
        },
        None => None,
    }
}

fn explosion_after(o: Option<Entity>, dt_ms: u32) -> (r: Option<Entity>)
    requires
        o matches Some(e) ==> e.valid(),
    ensures
        r == explosion_slot_after(o, dt_ms),
        r matches Some(e) ==> e.valid(),
        has_tag(r, Tag::Enemy) == has_tag(o, Tag::Enemy),
        has_tag(r, Tag::Player) == has_tag(o, Tag::Player),
{
    match o {
        Some(e) => match e.kind {
            Kind::Explosion { frame, elapsed_ms } => {
                let total: u64 = frame as u64 * FRAME_PERIOD_MS + elapsed_ms + dt_ms as u64;
                if total >= EXPLOSION_FRAMES as u64 * FRAME_PERIOD_MS {
                    None
                } else {
                    Some(
                        Entity {
                            kind: Kind::Explosion {
                                frame: (total / FRAME_PERIOD_MS) as u32,
                                elapsed_ms: total % FRAME_PERIOD_MS,
                            },
                            ..e
                        },
                    )
                }
            },
            _ => o,
        },
        None => None,
    }
}

fn materialize(o: Option<Entity>) -> (r: Option<Entity>)
    requires
        o matches Some(e) ==> e.valid(),
    ensures
        r == materialized(o),
        r matches Some(e) ==> e.valid(),
        has_tag(r, Tag::Enemy) == has_tag(o, Tag::Enemy),
        has_tag(r, Tag::Player) == has_tag(o, Tag::Player),
{
    match o {
        Some(e) => if let Kind::ExplosionRequest = e.kind {
            Some(
                Entity {
                    kind: Kind::Explosion { frame: 0, elapsed_ms: 0 },
                    scale_x: 500,
                    scale_y: 500,
                    ..e
                },
            )
        } else {
            o
        },
        None => None,
    }
}

impl World {
    /// Asks for an explosion at `(x, y, z)`; it appears at the next materialization.
    pub fn request_explosion(&mut self, x: i64, y: i64, z: i64) -> (r: usize)
        requires
            old(self).wf(),
            in_range(x as int),
            in_range(y as int),
            in_range(z as int),
        ensures
            final(self).wf(),
            r == old(self)@.slots.len(),
            final(self)@ == (WorldView {
                slots: old(self)@.slots.push(Some(request_entity(x, y, z))),
                ..old(self)@
            }),
    {
        let e = Entity {
            kind: Kind::ExplosionRequest,
            x,
            y,
            z,
            scale_x: 1000,
            scale_y: 1000,
            half_w: 0,
            half_h: 0,
            speed: 0,
        };
        self.push_other(e)
    }

    /// Turns every explosion request into an explosion on its first frame, at the
    /// request's place; no request is left.
    pub fn explosion_to_spawn(&mut self)
        requires
            old(self).wf(),
        ensures
            final(self).wf(),
            final(self)@ == (WorldView {
                slots: old(self)@.slots.map_values(|o: Option<Entity>| materialized(o)),
                ..old(self)@
            }),
            final(self)@.count(Tag::Request) == 0,
    {
        let ghost start = self@;
        let n = self.slots.len();
        let mut i: usize = 0;
        while i < n
            invariant
                self.wf(),
                n == self@.slots.len(),
                i <= n,
                self@ == (WorldView { slots: self@.slots, ..start }),
                start.slots.len() == n,
                forall|k: int|
                    0 <= k < i ==> self@.slots[k] == materialized(#[trigger] start.slots[k]),
                forall|k: int| i <= k < n ==> self@.slots[k] == #[trigger] start.slots[k],
            decreases n - i,
        {
            let v = materialize(self.slots[i]);
            self.set_slot(i, v);
            i = i + 1;
        }
        assert(self@.slots =~= start.slots.map_values(|o: Option<Entity>| materialized(o)));
        proof {
            assert forall|k: int| 0 <= k < self@.slots.len() implies !has_tag(
                #[trigger] self@.slots[k],
                Tag::Request,
            ) by {
                assert(self@.slots[k] == materialized(start.slots[k]));
            }
            crate::world::lemma_count_none(self@.slots, Tag::Request);
        }
    }

    /// Advances every explosion by `dt_ms`; an explosion that reaches the end of
    /// its sprite sheet is removed.
    pub fn animate_exp(&mut self, dt_ms: u32)
        requires
            old(self).wf(),
        ensures
            final(self).wf(),
            final(self)@ == (WorldView {
                slots: old(self)@.slots.map_values(
                    |o: Option<Entity>| explosion_slot_after(o, dt_ms),
                ),
                ..old(self)@
            }),
    {
        let ghost start = self@;
        let n = self.slots.len();
        let mut i: usize = 0;
        while i < n
            invariant
                self.wf(),
                n == self@.slots.len(),
                i <= n,
                self@ == (WorldView { slots: self@.slots, ..start }),
                start.slots.len() == n,
                forall|k: int|
                    0 <= k < i ==> self@.slots[k] == explosion_slot_after(
                        #[trigger] start.slots[k],
                        dt_ms,
                    ),
                forall|k: int| i <= k < n ==> self@.slots[k] == #[trigger] start.slots[k],
            decreases n - i,
        {
            let v = explosion_after(self.slots[i], dt_ms);
            self.set_slot(i, v);
            i = i + 1;
        }
        assert(self@.slots =~= start.slots.map_values(
            |o: Option<Entity>| explosion_slot_after(o, dt_ms),
        ));
    }
}

/// A slot after a run of animation steps, first step first.
pub open spec fn run_animation(o: Option<Entity>, dts: Seq<u32>) -> Option<Entity>
    decreases dts.len(),
{
    if dts.len() == 0 {
        o
    } else {
        run_animation(explosion_slot_after(o, dts[0]), dts.drop_first())
    }
}

pub open spec fn total_time(dts: Seq<u32>) -> int
    decreases dts.len(),
{
    if dts.len() == 0 {
        0
    } else {
        dts[0] + total_time(dts.drop_first())
    }
}

/// An explosion always ends: over any run of animation steps, it is gone exactly
/// when the time it had run plus the time of the steps reaches 16 frames of
/// 50 ms (800 ms from its first frame); once gone it stays gone.
pub proof fn lemma_explosion_terminates(e: Entity, dts: Seq<u32>)
    requires
        e.valid(),
        e.kind is Explosion,
    ensures
        run_animation(Some(e), dts) is None <==> progress(
            e.kind->frame,
            e.kind->elapsed_ms,
        ) + total_time(dts) >= EXPLOSION_LIFETIME_MS,
    decreases dts.len(),
{
    if dts.len() > 0 {
        let p = progress(e.kind->frame, e.kind->elapsed_ms);
        let total = p + dts[0];
        lemma_total_time_nonneg(dts.drop_first());
        if total >= EXPLOSION_LIFETIME_MS {
            lemma_gone_stays_gone(dts.drop_first());
        } else {
            let n = explosion_slot_after(Some(e), dts[0])->Some_0;
            vstd::arithmetic::div_mod::lemma_fundamental_div_mod(total, FRAME_PERIOD_MS as int);
            assert(progress(n.kind->frame, n.kind->elapsed_ms) == total);
            lemma_explosion_terminates(n, dts.drop_first());
        }
    }
}

proof fn lemma_total_time_nonneg(dts: Seq<u32>)
    ensures
        total_time(dts) >= 0,
    decreases dts.len(),
{
    if dts.len() > 0 {
        lemma_total_time_nonneg(dts.drop_first());
    }
}

proof fn lemma_gone_stays_gone(dts: Seq<u32>)
    ensures
        run_animation(None, dts) is None,
    decreases dts.len(),
{
    if dts.len() > 0 {
        lemma_gone_stays_gone(dts.drop_first());
    }
}

/// The slots after a run of `animate_exp` calls, first step first.
pub open spec fn animate_run(slots: Seq<Option<Entity>>, dts: Seq<u32>) -> Seq<Option<Entity>>
    decreases dts.len(),
{
    if dts.len() == 0 {
        slots
    } else {
        animate_run(
            slots.map_values(|o: Option<Entity>| explosion_slot_after(o, dts[0])),
            dts.drop_first(),
        )
    }
}

/// Successive `animate_exp` calls act on each slot alone: slot `h` after the run
/// is that slot's own explosion run.
pub proof fn lemma_animate_run_slot(slots: Seq<Option<Entity>>, dts: Seq<u32>, h: int)
    requires
        0 <= h < slots.len(),
    ensures
        animate_run(slots, dts).len() == slots.len(),
        animate_run(slots, dts)[h] == run_animation(slots[h], dts),
    decreases dts.len(),
{
    if dts.len() > 0 {
        let next = slots.map_values(|o: Option<Entity>| explosion_slot_after(o, dts[0]));
        lemma_animate_run_slot(next, dts.drop_first(), h);
    }
}

/// Through `animate_exp` calls, an explosion entity is removed once the time of
/// the calls reaches what remains of its 800 ms, and not before.
pub proof fn lemma_animate_exp_terminates(w: WorldView, h: int, dts: Seq<u32>)
    requires
        w.wf(),
        w.live(h),
        w.entity(h).kind is Explosion,
    ensures
        animate_run(w.slots, dts)[h] is None <==> progress(
            w.entity(h).kind->frame,
            w.entity(h).kind->elapsed_ms,
        ) + total_time(dts) >= EXPLOSION_LIFETIME_MS,
{
    lemma_animate_run_slot(w.slots, dts, h);
    lemma_explosion_terminates(w.entity(h), dts);
}

} // verus!
