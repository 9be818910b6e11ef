use vstd::prelude::*;

use crate::geometry::{half_extent, half_extent_spec, in_range, Aabb, COORD_LIMIT};

verus! {

/// Most enemies alive at once.
pub const MAX_ENEMIES: u64 = 2;

/// Frames of the explosion sprite sheet (a four by four grid).
pub const EXPLOSION_FRAMES: u32 = 16;

/// Time each explosion frame stays on screen.
pub const FRAME_PERIOD_MS: u64 = 50;

/// Speed given to every moving entity, in units per second.
pub const DEFAULT_SPEED: u32 = 500;

/// Which side fired a laser.
#[derive(Clone, Copy, Debug, PartialEq, Eq, Structural)]
pub enum Origin {
    FromPlayer,
    FromEnemy,
}

/// The category of an entity, with the state that only that category carries.
#[derive(Clone, Copy, Debug, PartialEq, Eq, Structural)]
pub enum Kind {
    Player { ready_to_fire: bool },
    Enemy,
    Laser { origin: Origin },
    /// `elapsed_ms` is the time spent on the current frame.
    Explosion { frame: u32, elapsed_ms: u64 },
    ExplosionRequest,
}

/// A live simulation object. Coordinates and half extents are in thousandths
/// of a unit, scales in thousandths (signed), speed in units per second.
#[derive(Clone, Copy, Debug, PartialEq, Eq, Structural)]
pub struct Entity {
    pub kind: Kind,
    pub x: i64,
    pub y: i64,
    pub z: i64,
    pub scale_x: i32,
    pub scale_y: i32,
    pub half_w: i64,
    pub half_h: i64,
    pub speed: u32,
}

impl Entity {
    pub open spec fn valid(self) -> bool {
        &&& in_range(self.x as int)
        &&& in_range(self.y as int)
        &&& in_range(self.z as int)
        &&& 0 <= self.half_w <= COORD_LIMIT
        &&& 0 <= self.half_h <= COORD_LIMIT
        &&& (self.kind matches Kind::Explosion { frame, elapsed_ms } ==> frame
            < EXPLOSION_FRAMES && elapsed_ms < FRAME_PERIOD_MS)
    }

    pub open spec fn aabb(self) -> Aabb {
        Aabb { x: self.x, y: self.y, half_w: self.half_w, half_h: self.half_h }
    }

    /// The collision box.
    pub fn bounds(&self) -> (r: Aabb)
        ensures
            r == self.aabb(),
    {
        Aabb { x: self.x, y: self.y, half_w: self.half_w, half_h: self.half_h }
    }
}

/// The category of an entity with, for a laser, its origin.
#[derive(Clone, Copy, Debug, PartialEq, Eq, Structural)]
pub enum Tag {
    Player,
    Enemy,
    PlayerLaser,
    EnemyLaser,
    Explosion,
    Request,
}

pub open spec fn tag_of(k: Kind) -> Tag {
    match k {
        Kind::Player { .. } => Tag::Player,
        Kind::Enemy => Tag::Enemy,
        Kind::Laser { origin: Origin::FromPlayer } => Tag::PlayerLaser,
        Kind::Laser { origin: Origin::FromEnemy } => Tag::EnemyLaser,
        Kind::Explosion { .. } => Tag::Explosion,
        Kind::ExplosionRequest => Tag::Request,
    }
}

pub open spec fn has_tag(o: Option<Entity>, t: Tag) -> bool {
    match o {
        Some(e) => tag_of(e.kind) == t,
        None => false,
    }
}

pub open spec fn ind(b: bool) -> nat {
    if b {
        1
    } else {
        0
    }
}

/// How many live entities of a slot sequence carry the tag.
pub open spec fn count_tag(s: Seq<Option<Entity>>, t: Tag) -> nat
    decreases s.len(),
{
    if s.len() == 0 {
        0
    } else {
        count_tag(s.drop_last(), t) + ind(has_tag(s.last(), t))
    }
}

pub proof fn lemma_count_push(s: Seq<Option<Entity>>, v: Option<Entity>, t: Tag)
    ensures
        count_tag(s.push(v), t) == count_tag(s, t) + ind(has_tag(v, t)),
{
    assert(s.push(v).drop_last() =~= s);
}

pub proof fn lemma_count_update(s: Seq<Option<Entity>>, i: int, v: Option<Entity>, t: Tag)
    requires
        0 <= i < s.len(),
    ensures
        count_tag(s.update(i, v), t) + ind(has_tag(s[i], t)) == count_tag(s, t) + ind(
            has_tag(v, t),
        ),
    decreases s.len(),
{
    let u = s.update(i, v);
    if i == s.len() - 1 {
        assert(u.drop_last() =~= s.drop_last());
    } else {
        lemma_count_update(s.drop_last(), i, v, t);
        assert(u.drop_last() =~= s.drop_last().update(i, v));
    }
}

/// A count of zero means no slot carries the tag.
pub proof fn lemma_count_zero(s: Seq<Option<Entity>>, t: Tag, i: int)
    requires
        0 <= i < s.len(),
        count_tag(s, t) == 0,
    ensures
        !has_tag(s[i], t),
{
    lemma_count_update(s, i, None, t);
}

/// The window, in whole units; fixed at setup.
#[derive(Clone, Copy, Debug, PartialEq, Eq, Structural)]
pub struct WinSize {
    pub w: u32,
    pub h: u32,
}

/// A sprite's unscaled footprint, in whole units.
#[derive(Clone, Copy, Debug, PartialEq, Eq, Structural)]
pub struct Footprint {
    pub w: u32,
    pub h: u32,
}

/// The footprints that collision boxes are derived from.
#[derive(Clone, Copy, Debug, PartialEq, Eq, Structural)]
pub struct SpriteSizes {
    pub player: Footprint,
    pub player_laser: Footprint,
    pub enemy: Footprint,
    pub enemy_laser: Footprint,
}

/// Life of the player: alive, or dead since a given time (none before the first death).
#[derive(Clone, Copy, Debug, PartialEq, Eq, Structural)]
pub enum PlayerState {
    Alive,
    Dead { last_shot: Option<u64> },
}

/// Multiplier of the respawn gate: a dead player returns once the time exceeds
/// the time of death times this factor.
pub const RESPAWN_DELAY: u64 = 2;

impl PlayerState {
    pub open spec fn respawn_due_spec(self, now_ms: u64) -> bool {
        match self {
            PlayerState::Alive => false,
            PlayerState::Dead { last_shot: None } => true,
            PlayerState::Dead { last_shot: Some(t) } => now_ms > t * RESPAWN_DELAY,
        }
    }

    /// Whether a dead player may reappear at `now_ms`.
    pub fn respawn_due(&self, now_ms: u64) -> (r: bool)
        ensures
            r == self.respawn_due_spec(now_ms),
    {
        match self {
            PlayerState::Alive => false,
            PlayerState::Dead { last_shot: None } => true,
            PlayerState::Dead { last_shot: Some(t) } => now_ms as u128 > *t as u128
                * RESPAWN_DELAY as u128,
        }
    }

    /// Records a death at `now_ms`.
    pub fn shot(&mut self, now_ms: u64)
        ensures
            *final(self) == (PlayerState::Dead { last_shot: Some(now_ms) }),
    {
        *self = PlayerState::Dead { last_shot: Some(now_ms) };
    }

    /// Records a respawn; the time of the last death is cleared.
    pub fn spawned(&mut self)
        ensures
            *final(self) == PlayerState::Alive,
    {
        *self = PlayerState::Alive;
    }
}

impl Default for PlayerState {
    /// Dead, never shot.
    fn default() -> (r: Self)
        ensures
            r == (PlayerState::Dead { last_shot: None }),
    {
        PlayerState::Dead { last_shot: None }
    }
}

/// What a world holds, as mathematical values.
pub ghost struct WorldView {
    pub slots: Seq<Option<Entity>>,
    pub active_enemies: u64,
    pub player: PlayerState,
    pub win: WinSize,
    pub sprites: SpriteSizes,
}

impl WorldView {
    pub open spec fn live(self, h: int) -> bool {
        0 <= h < self.slots.len() && self.slots[h] is Some
    }

    pub open spec fn entity(self, h: int) -> Entity {
        self.slots[h]->Some_0
    }

    pub open spec fn count(self, t: Tag) -> nat {
        count_tag(self.slots, t)
    }

    pub open spec fn wf(self) -> bool {
        &&& self.active_enemies == self.count(Tag::Enemy)
        &&& self.count(Tag::Enemy) <= MAX_ENEMIES
        &&& self.count(Tag::Player) <= 1
        &&& (self.player == PlayerState::Alive <==> self.count(Tag::Player) == 1)
        &&& self.all_valid()
    }

    pub open spec fn all_valid(self) -> bool {
        forall|h: int| #![trigger self.slots[h]] self.live(h) ==> self.entity(h).valid()
    }

    /// The world after destroying handle `h` at `now_ms`: a dead or unknown handle
    /// changes nothing; an enemy lowers the enemy count (never below zero); the
    /// player records a death at `now_ms`.
    pub open spec fn destroy_spec(self, h: int, now_ms: u64) -> WorldView {
        if self.live(h) {
            let k = self.entity(h).kind;
            WorldView {
                slots: self.slots.update(h, None),
                active_enemies: if k is Enemy && self.active_enemies > 0 {
                    (self.active_enemies - 1) as u64
                } else {
                    self.active_enemies
                },
                player: if k is Player {
                    PlayerState::Dead { last_shot: Some(now_ms) }
                } else {
                    self.player
                },
                ..self
            }
        } else {
            self
        }
    }
}

/// The registry of live entities, with the enemy count and the player's life.
/// A handle is an index into `slots`; a destroyed slot holds `None` and is never reused.
pub struct World {
    pub slots: Vec<Option<Entity>>,
    pub active_enemies: u64,
    pub player: PlayerState,
    pub win: WinSize,
    pub sprites: SpriteSizes,
}

impl View for World {
    type V = WorldView;

    open spec fn view(&self) -> WorldView {
        WorldView {
            slots: self.slots@,
            active_enemies: self.active_enemies,
            player: self.player,
            win: self.win,
            sprites: self.sprites,
        }
    }
}

pub open spec fn make_spec(
    kind: Kind,
    x: i64,
    y: i64,
    z: i64,
    scale_x: i32,
    scale_y: i32,
    size: Footprint,
) -> Entity {
    Entity {
        kind,
        x,
        y,
        z,
        scale_x,
        scale_y,
        half_w: half_extent_spec(size.w, abs_permille(scale_x)) as i64,
        half_h: half_extent_spec(size.h, abs_permille(scale_y)) as i64,
        speed: DEFAULT_SPEED,
    }
}

pub open spec fn abs_permille(s: i32) -> u32 {
    if s < 0 {
        (-s) as u32
    } else {
        s as u32
    }
}

/// Builds an entity whose collision box is its footprint times the magnitude of its scale.
pub fn make(kind: Kind, x: i64, y: i64, z: i64, scale_x: i32, scale_y: i32, size: Footprint) -> (r:
    Entity)
    requires
        -1000 <= scale_x <= 1000,
        -1000 <= scale_y <= 1000,
    ensures
        r == make_spec(kind, x, y, z, scale_x, scale_y, size),
        0 <= r.half_w <= COORD_LIMIT,
        0 <= r.half_h <= COORD_LIMIT,
{
    let ax: u32 = if scale_x < 0 {
        (-scale_x) as u32
    } else {
        scale_x as u32
    };
    let ay: u32 = if scale_y < 0 {
        (-scale_y) as u32
    } else {
        scale_y as u32
    };
    Entity {
        kind,
        x,
        y,
        z,
        scale_x,
        scale_y,
        half_w: half_extent(size.w, ax),
        half_h: half_extent(size.h, ay),
        speed: DEFAULT_SPEED,
    }
}

impl World {
    pub open spec fn wf(&self) -> bool {
        self@.wf()
    }

    /// An empty world: no entities, no enemies, the player dead and never shot.
    pub fn new(win: WinSize, sprites: SpriteSizes) -> (r: World)
        ensures
            r.wf(),
            r@.slots.len() == 0,
            r@.active_enemies == 0,
            r@.player == (PlayerState::Dead { last_shot: None }),
            r@.win == win,
            r@.sprites == sprites,
    {
        World {
            slots: Vec::new(),
            active_enemies: 0,
            player: PlayerState::default(),
            win,
            sprites,
        }
    }

    /// Number of handles ever given out.
    pub fn len(&self) -> (r: usize)
        ensures
            r == self@.slots.len(),
    {
        self.slots.len()
    }

    /// The entity behind a handle, or `None` when it was destroyed or never existed.
    pub fn get(&self, h: usize) -> (r: Option<Entity>)
        ensures
            r == (if self@.live(h as int) {
                Some(self@.entity(h as int))
            } else {
                None::<Entity>
            }),
    {
        if h < self.slots.len() {
            self.slots[h]
        } else {
            None
        }
    }

    /// The handles of the live entities that carry `t`, in handle order.
    pub fn query(&self, t: Tag) -> (r: Vec<usize>)
        ensures
            forall|k: int| 0 <= k < r@.len() ==> has_tag(self@.slots[r@[k] as int], t) && r@[k]
                < self@.slots.len(),
            forall|h: int|
                0 <= h < self@.slots.len() && has_tag(#[trigger] self@.slots[h], t) ==> exists|
                    k: int,
                | 0 <= k < r@.len() && r@[k] == h,
            forall|a: int, b: int| 0 <= a < b < r@.len() ==> r@[a] < r@[b],
    {
        let mut r: Vec<usize> = Vec::new();
        let mut i: usize = 0;
        while i < self.slots.len()
            invariant
                i <= self@.slots.len(),
                forall|k: int| 0 <= k < r@.len() ==> has_tag(self@.slots[r@[k] as int], t) && r@[k]
                    < i,
                forall|h: int|
                    0 <= h < i && has_tag(#[trigger] self@.slots[h], t) ==> exists|k: int|
                        0 <= k < r@.len() && r@[k] == h,
                forall|a: int, b: int| 0 <= a < b < r@.len() ==> r@[a] < r@[b],
            decreases self@.slots.len() - i,
        {
            let ghost before = r@;
            if tag_matches(&self.slots[i], t) {
                r.push(i);
            }
            proof {
                assert forall|h: int|
                    0 <= h < i + 1 && has_tag(#[trigger] self@.slots[h], t) implies exists|k: int|
                    0 <= k < r@.len() && r@[k] == h by {
                    if h < i {
                        let k = choose|k: int| 0 <= k < before.len() && before[k] == h;
                        assert(r@[k] == h);
                    } else {
                        assert(r@[r@.len() - 1] == h);
                    }
                }
            }
            i = i + 1;
        }
        r
    }

    /// Destroys a handle; a handle already destroyed, or never given out, is left alone.
    pub fn destroy(&mut self, h: usize, now_ms: u64)
        requires
            old(self).wf(),
        ensures
            final(self)@ == old(self)@.destroy_spec(h as int, now_ms),
            final(self).wf(),
    {
        if h < self.slots.len() {
            match self.slots[h] {
                Some(e) => {
                    proof {
                        lemma_count_update(self@.slots, h as int, None, Tag::Enemy);
                        lemma_count_update(self@.slots, h as int, None, Tag::Player);
                    }
                    match e.kind {
                        Kind::Enemy => {
                            if self.active_enemies > 0 {
                                self.active_enemies = self.active_enemies - 1;
                            }
                        },
                        Kind::Player { .. } => {
                            self.player.shot(now_ms);
                        },
                        _ => {},
                    }
                    self.slots.set(h, None);
                },
                None => {},
            }
        }
    }

    /// Adds an entity that is neither an enemy nor the player.
    pub(crate) fn push_other(&mut self, e: Entity) -> (r: usize)
        requires
            old(self).wf(),
            e.valid(),
            tag_of(e.kind) != Tag::Enemy,
            tag_of(e.kind) != Tag::Player,
        ensures
            r == old(self)@.slots.len(),
            final(self)@ == (WorldView { slots: old(self)@.slots.push(Some(e)), ..old(self)@ }),
            final(self).wf(),
    {
        proof {
            lemma_count_push(self@.slots, Some(e), Tag::Enemy);
            lemma_count_push(self@.slots, Some(e), Tag::Player);
        }
        let r = self.slots.len();
        self.slots.push(Some(e));
        assert(forall|h: int| #![trigger self@.slots[h]] self@.live(h) && h < r ==> old(self)@.live(h) && self@.slots[h] == old(self)@.slots[h]);
        r
    }
}

impl World {
    /// Overwrites a slot with a value that neither adds nor removes an enemy or the player.
    pub(crate) fn set_slot(&mut self, h: usize, v: Option<Entity>)
        requires
            old(self).wf(),
            h < old(self)@.slots.len(),
            has_tag(old(self)@.slots[h as int], Tag::Enemy) == has_tag(v, Tag::Enemy),
            has_tag(old(self)@.slots[h as int], Tag::Player) == has_tag(v, Tag::Player),
            v matches Some(e) ==> e.valid(),
        ensures
            final(self)@ == (WorldView { slots: old(self)@.slots.update(h as int, v), ..old(self)@ }),
            final(self).wf(),
    {
        proof {
            lemma_count_update(self@.slots, h as int, v, Tag::Enemy);
            lemma_count_update(self@.slots, h as int, v, Tag::Player);
        }
        self.slots.set(h, v);
    }

    /// The handle of the player, if one is alive.
    pub fn find_player(&self) -> (r: Option<usize>)
        requires
            self.wf(),
        ensures
            r matches Some(h) ==> h < self@.slots.len() && has_tag(self@.slots[h as int], Tag::Player),
            r is None <==> self@.count(Tag::Player) == 0,
    {
        let mut i: usize = 0;
        while i < self.slots.len()
            invariant
                i <= self@.slots.len(),
                forall|k: int| 0 <= k < i ==> !has_tag(#[trigger] self@.slots[k], Tag::Player),
            decreases self@.slots.len() - i,
        {
            if tag_matches(&self.slots[i], Tag::Player) {
                proof {
                    lemma_count_update(self@.slots, i as int, None, Tag::Player);
                }
                return Some(i);
            }
            i = i + 1;
        }
        proof {
            lemma_count_none(self@.slots, Tag::Player);
        }
        None
    }
}

impl World {
    /// Appends an entity; the caller accounts for an enemy or the player.
    pub(crate) fn push_raw(&mut self, e: Entity) -> (r: usize)
        requires
            old(self)@.all_valid(),
            e.valid(),
        ensures
            r == old(self)@.slots.len(),
            final(self)@ == (WorldView { slots: old(self)@.slots.push(Some(e)), ..old(self)@ }),
            final(self)@.all_valid(),
            forall|t: Tag| #[trigger] final(self)@.count(t) == old(self)@.count(t) + ind(tag_of(e.kind) == t),
    {
        let r = self.slots.len();
        proof {
            assert forall|t: Tag| #[trigger] count_tag(old(self)@.slots.push(Some(e)), t) == count_tag(old(self)@.slots, t) + ind(tag_of(e.kind) == t) by {
                lemma_count_push(old(self)@.slots, Some(e), t);
            }
        }
        self.slots.push(Some(e));
        assert(forall|h: int| #![trigger self@.slots[h]] self@.live(h) && h < r ==> old(self)@.live(h) && self@.slots[h] == old(self)@.slots[h]);
        r
    }
}

/// Two distinct slots that carry the tag make a count of at least two.
pub proof fn lemma_count_two(s: Seq<Option<Entity>>, t: Tag, i: int, j: int)
    requires
        0 <= i < s.len(),
        0 <= j < s.len(),
        i != j,
        has_tag(s[i], t),
        has_tag(s[j], t),
    ensures
        count_tag(s, t) >= 2,
{
    lemma_count_update(s, i, None, t);
    let u = s.update(i, None);
    if count_tag(u, t) == 0 {
        lemma_count_zero(u, t, j);
    }
}

/// No slot carrying the tag means a count of zero.
pub proof fn lemma_count_none(s: Seq<Option<Entity>>, t: Tag)
    requires
        forall|k: int| 0 <= k < s.len() ==> !has_tag(#[trigger] s[k], t),
    ensures
        count_tag(s, t) == 0,
    decreases s.len(),
{
    if s.len() > 0 {
        let d = s.drop_last();
        assert forall|k: int| 0 <= k < d.len() implies !has_tag(#[trigger] d[k], t) by {
            assert(d[k] == s[k]);
        }
        lemma_count_none(d, t);
    }
}

/// Whether a slot holds a live entity that carries `t`.
pub fn tag_matches(o: &Option<Entity>, t: Tag) -> (r: bool)
    ensures
        r == has_tag(*o, t),
{
    match o {
        Some(e) => {
            let k = match e.kind {
                Kind::Player { .. } => Tag::Player,
                Kind::Enemy => Tag::Enemy,
                Kind::Laser { origin: Origin::FromPlayer } => Tag::PlayerLaser,
                Kind::Laser { origin: Origin::FromEnemy } => Tag::EnemyLaser,
                Kind::Explosion { .. } => Tag::Explosion,
                Kind::ExplosionRequest => Tag::Request,
            };
            k == t
        },
        None => false,
    }
}

/// Destroying a handle a second time changes nothing more than the first time did.
pub proof fn lemma_destroy_idempotent(w: WorldView, h: int, t1: u64, t2: u64)
    ensures
        w.destroy_spec(h, t1).destroy_spec(h, t2) == w.destroy_spec(h, t1),
{
}

} // verus!
