use vstd::prelude::*;

use crate::explosion::request_entity;
use crate::geometry::{overlap_spec, overlaps};
use crate::world::{
    has_tag, lemma_count_two, lemma_count_update, lemma_count_zero, tag_matches,
    PlayerState, Tag, World, WorldView,
};

verus! {

/// Whether the entities behind two handles overlap.
pub open spec fn hits(w: WorldView, a: int, b: int) -> bool {
    overlap_spec(w.entity(a).aabb(), w.entity(b).aabb())
}

/// The world after the enemy laser `l` hits the player `p` at `now_ms`: both are
/// gone, the player is dead since `now_ms`, and an explosion is requested where
/// the player was.
pub open spec fn player_hit(w: WorldView, p: int, l: int, now_ms: u64) -> WorldView {
    let e = w.entity(p);
    WorldView {
        slots: w.slots.update(p, None).update(l, None).push(Some(request_entity(e.x, e.y, e.z))),
        player: PlayerState::Dead { last_shot: Some(now_ms) },
        ..w
    }
}

/// What a pass of the player-laser collision may have done to `start` to give
/// `now`, over the first `n` handles: a slot is unchanged or was a player laser
/// or an enemy and is gone; each handle past `n` is an explosion request where a
/// destroyed enemy stood; each destroyed entity overlaps a destroyed one of the
/// other side; as many lasers as enemies were destroyed, one per request.
pub open spec fn pass_frame(start: WorldView, now: WorldView) -> bool {
    let n = start.slots.len();
    &&& now.slots.len() >= n
    &&& now.player == start.player
    &&& now.win == start.win
    &&& now.sprites == start.sprites
    &&& forall|k: int|
        0 <= k < n ==> (#[trigger] now.slots[k] == start.slots[k] || (now.slots[k] is None && (
        has_tag(start.slots[k], Tag::PlayerLaser) || has_tag(start.slots[k], Tag::Enemy))))
    &&& forall|k: int|
        n <= k < now.slots.len() ==> exists|j: int|
            0 <= j < n && has_tag(start.slots[j], Tag::Enemy) && now.slots[j] is None && #[trigger] now.slots[k]
                == Some(
                request_entity(start.entity(j).x, start.entity(j).y, start.entity(j).z),
            )
    &&& forall|k: int|
        0 <= k < n && #[trigger] now.slots[k] is None && start.slots[k] is Some ==> exists|m: int|
            0 <= m < n && now.slots[m] is None && hits(start, k, m) && ((has_tag(
                start.slots[k],
                Tag::PlayerLaser,
            ) && has_tag(start.slots[m], Tag::Enemy)) || (has_tag(start.slots[k], Tag::Enemy)
                && has_tag(start.slots[m], Tag::PlayerLaser)))
    &&& now.count(Tag::Enemy) + (now.slots.len() - n) == start.count(Tag::Enemy)
    &&& now.count(Tag::PlayerLaser) + (now.slots.len() - n) == start.count(Tag::PlayerLaser)
}

/// The hits of a player-laser pass, as (laser, enemy) handle pairs in the order
/// they happened, pair `k` giving the explosion request at handle `n + k`: each
/// pair overlapped, both of its entities are gone, no laser and no enemy is in
/// two pairs, and every entity the pass destroyed is in a pair.
pub open spec fn paired(start: WorldView, now: WorldView, pairs: Seq<(usize, usize)>) -> bool {
    let n = start.slots.len();
    &&& pairs.len() == now.slots.len() - n
    &&& forall|k: int|
        0 <= k < pairs.len() ==> {
            let l = (#[trigger] pairs[k]).0 as int;
            let e = pairs[k].1 as int;
            &&& 0 <= l < n &&& 0 <= e < n
            &&& has_tag(start.slots[l], Tag::PlayerLaser)
            &&& has_tag(start.slots[e], Tag::Enemy)
            &&& now.slots[l] is None &&& now.slots[e] is None
            &&& hits(start, l, e)
            &&& now.slots[n + k] == Some(
                request_entity(start.entity(e).x, start.entity(e).y, start.entity(e).z),
            )
        }
    &&& forall|k1: int, k2: int|
        0 <= k1 < k2 < pairs.len() ==> (#[trigger] pairs[k1]).0 != (#[trigger] pairs[k2]).0
            && pairs[k1].1 != pairs[k2].1
    &&& forall|j: int|
        0 <= j < n && #[trigger] now.slots[j] is None && start.slots[j] is Some ==> exists|k: int|
            0 <= k < pairs.len() && (pairs[k].0 == j || pairs[k].1 == j)
}

/// No live player laser overlaps a live enemy among handles `a < upto`.
pub open spec fn settled(w: WorldView, upto: int) -> bool {
    forall|a: int, b: int|
        0 <= a < upto && 0 <= b < w.slots.len() && has_tag(#[trigger] w.slots[a], Tag::PlayerLaser)
            && has_tag(#[trigger] w.slots[b], Tag::Enemy) ==> !hits(w, a, b)
}

#[verifier::rlimit(100)]
proof fn lemma_paired_step(
    start: WorldView,
    before: WorldView,
    after: WorldView,
    pairs: Seq<(usize, usize)>,
    l: int,
    e: int,
)
    requires
        paired(start, before, pairs),
        before.slots.len() >= start.slots.len(),
        0 <= l < start.slots.len(),
        0 <= e < start.slots.len(),
        l < usize::MAX,
        e < usize::MAX,
        has_tag(before.slots[l], Tag::PlayerLaser),
        has_tag(before.slots[e], Tag::Enemy),
        before.slots[l] == start.slots[l],
        before.slots[e] == start.slots[e],
        hits(start, l, e),
        after.slots == before.slots.update(e, None).update(l, None).push(
            Some(request_entity(before.entity(e).x, before.entity(e).y, before.entity(e).z)),
        ),
    ensures
        paired(start, after, pairs.push((l as usize, e as usize))),
{
    let n = start.slots.len();
    let np = pairs.push((l as usize, e as usize));
    assert forall|k: int| 0 <= k < pairs.len() implies (#[trigger] pairs[k]).0 != l
        && pairs[k].1 != e by {
        assert(before.slots[pairs[k].0 as int] is None);
        assert(before.slots[pairs[k].1 as int] is None);
    }
    assert forall|k: int| 0 <= k < np.len() implies {
        let l2 = (#[trigger] np[k]).0 as int;
        let e2 = np[k].1 as int;
        &&& 0 <= l2 < n &&& 0 <= e2 < n
        &&& has_tag(start.slots[l2], Tag::PlayerLaser)
        &&& has_tag(start.slots[e2], Tag::Enemy)
        &&& after.slots[l2] is None &&& after.slots[e2] is None
        &&& hits(start, l2, e2)
        &&& after.slots[n + k] == Some(
            request_entity(start.entity(e2).x, start.entity(e2).y, start.entity(e2).z),
        )
    } by {
        if k < pairs.len() {
            assert(np[k] == pairs[k]);
            assert(before.slots[n + k] == after.slots[n + k]);
        }
    }
    assert forall|k1: int, k2: int|
        0 <= k1 < k2 < np.len() implies (#[trigger] np[k1]).0 != (#[trigger] np[k2]).0
            && np[k1].1 != np[k2].1 by {
        assert(np[k1] == pairs[k1]);
        if k2 < pairs.len() {
            assert(np[k2] == pairs[k2]);
        }
    }
    assert forall|j: int|
        0 <= j < n && #[trigger] after.slots[j] is None && start.slots[j] is Some implies exists|k: int|
            0 <= k < np.len() && (np[k].0 == j || np[k].1 == j) by {
        if j == l || j == e {
            assert(np[pairs.len() as int] == (l as usize, e as usize));
        } else {
            assert(before.slots[j] is None);
            let k = choose|k: int| 0 <= k < pairs.len() && (pairs[k].0 == j || pairs[k].1 == j);
            assert(np[k] == pairs[k]);
        }
    }
}

impl World {
    /// The player-laser pass: every player laser that overlaps an enemy destroys
    /// it and is destroyed with it, and an explosion is requested where the enemy
    /// stood. A destroyed entity is matched no more, and when the pass is over no
    /// live player laser overlaps a live enemy. Returns the hits as (laser, enemy)
    /// handle pairs, in order.
    #[verifier::rlimit(100)]
    pub fn laser_hit_enemy(&mut self) -> (pairs: Vec<(usize, usize)>)
        requires
            old(self).wf(),
        ensures
            final(self).wf(),
            pass_frame(old(self)@, final(self)@),
            paired(old(self)@, final(self)@, pairs@),
            settled(final(self)@, final(self)@.slots.len() as int),
    {
        let ghost start = self@;
        let mut pairs: Vec<(usize, usize)> = Vec::new();
        let n = self.slots.len();
        let mut i: usize = 0;
        while i < n
            invariant
                self.wf(),
                n == start.slots.len(),
                i <= n,
                pass_frame(start, self@),
                paired(start, self@, pairs@),
                settled(self@, i as int),
            decreases n - i,
        {
            if tag_matches(&self.slots[i], Tag::PlayerLaser) {
                let mut j: usize = 0;
                while j < n
                    invariant
                        self.wf(),
                        n == start.slots.len(),
                        i < n,
                        j <= n,
                        pass_frame(start, self@),
                        paired(start, self@, pairs@),
                        settled(self@, i as int),
                        forall|b: int|
                            0 <= b < j && has_tag(self@.slots[i as int], Tag::PlayerLaser) && has_tag(
                                #[trigger] self@.slots[b],
                                Tag::Enemy,
                            ) ==> !hits(self@, i as int, b),
                    decreases n - j,
                {
                    if tag_matches(&self.slots[i], Tag::PlayerLaser) && tag_matches(
                        &self.slots[j],
                        Tag::Enemy,
                    ) {
                        let le = self.slots[i].unwrap();
                        let ee = self.slots[j].unwrap();
                        if overlaps(le.bounds(), ee.bounds()) {
                            proof {
                                assert(self@.slots[i as int] == start.slots[i as int]);
                                assert(self@.slots[j as int] == start.slots[j as int]);
                            }
                            let ghost before = self@;
                            let ghost old_pairs = pairs@;
                            self.hit_pair(i, j, Ghost(start));
                            pairs.push((i, j));
                            proof {
                                lemma_paired_step(start, before, self@, old_pairs, i as int, j as int);
                            }
                        }
                    }
                    j = j + 1;
                }
                proof {
                    assert forall|b: int|
                        0 <= b < self@.slots.len() && has_tag(self@.slots[i as int], Tag::PlayerLaser)
                            && has_tag(#[trigger] self@.slots[b], Tag::Enemy) implies !hits(
                        self@,
                        i as int,
                        b,
                    ) by {
                        if b >= n {
                            let j = choose|j: int|
                                0 <= j < n && has_tag(start.slots[j], Tag::Enemy)
                                    && self@.slots[j] is None && #[trigger] self@.slots[b] == Some(
                                    request_entity(
                                        start.entity(j).x,
                                        start.entity(j).y,
                                        start.entity(j).z,
                                    ),
                                );
                        }
                    }
                }
            }
            i = i + 1;
        }
        pairs
    }

    /// Destroys the player laser `l` and the enemy `e` and requests an explosion
    /// where the enemy stood.
    #[verifier::rlimit(50)]
    fn hit_pair(&mut self, l: usize, e: usize, Ghost(start): Ghost<WorldView>)
        requires
            old(self).wf(),
            pass_frame(start, old(self)@),
            l < start.slots.len(),
            e < start.slots.len(),
            has_tag(old(self)@.slots[l as int], Tag::PlayerLaser),
            has_tag(old(self)@.slots[e as int], Tag::Enemy),
            old(self)@.slots[l as int] == start.slots[l as int],
            old(self)@.slots[e as int] == start.slots[e as int],
            hits(start, l as int, e as int),
        ensures
            final(self).wf(),
            pass_frame(start, final(self)@),
            final(self)@.slots == old(self)@.slots.update(e as int, None).update(l as int, None).push(
                Some(request_entity(old(self)@.entity(e as int).x, old(self)@.entity(e as int).y, old(self)@.entity(e as int).z)),
            ),
    {
        let ghost s0 = self@;
        let ee = self.slots[e].unwrap();
        proof {
            lemma_count_update(s0.slots, e as int, None, Tag::PlayerLaser);
            lemma_count_update(s0.slots, e as int, None, Tag::Enemy);
        }
        self.destroy(e, 0);
        let ghost s1 = self@;
        proof {
            lemma_count_update(s1.slots, l as int, None, Tag::PlayerLaser);
            lemma_count_update(s1.slots, l as int, None, Tag::Enemy);
        }
        self.destroy(l, 0);
        let ghost s2 = self@;
        proof {
            crate::world::lemma_count_push(s2.slots, Some(request_entity(ee.x, ee.y, ee.z)), Tag::PlayerLaser);
            crate::world::lemma_count_push(s2.slots, Some(request_entity(ee.x, ee.y, ee.z)), Tag::Enemy);
        }
        self.request_explosion(ee.x, ee.y, ee.z);
        proof {
            let n = start.slots.len() as int;
            assert(s0.slots[e as int] == start.slots[e as int]);
            assert(s0.slots[l as int] == start.slots[l as int]);
            assert(forall|k: int|
                0 <= k < n ==> (#[trigger] self@.slots[k] == start.slots[k] || (self@.slots[k] is None && (
                has_tag(start.slots[k], Tag::PlayerLaser) || has_tag(start.slots[k], Tag::Enemy)))));
            assert(self@.count(Tag::Enemy) + (self@.slots.len() - n) == start.count(Tag::Enemy));
            assert forall|k: int|
                0 <= k < n && #[trigger] self@.slots[k] is None && start.slots[k] is Some implies exists|m: int|
                    0 <= m < n && self@.slots[m] is None && hits(start, k, m) && ((has_tag(
                        start.slots[k],
                        Tag::PlayerLaser,
                    ) && has_tag(start.slots[m], Tag::Enemy)) || (has_tag(start.slots[k], Tag::Enemy)
                        && has_tag(start.slots[m], Tag::PlayerLaser))) by {
                if k == l as int {
                    assert(self@.slots[e as int] is None);
                    assert(hits(start, k, e as int));
                } else if k == e as int {
                    assert(self@.slots[l as int] is None);
                    assert(hits(start, k, l as int));
                } else {
                    assert(s0.slots[k] is None);
                    let m = choose|m: int|
                        0 <= m < n && s0.slots[m] is None && hits(start, k, m) && ((has_tag(
                            start.slots[k],
                            Tag::PlayerLaser,
                        ) && has_tag(start.slots[m], Tag::Enemy)) || (has_tag(start.slots[k], Tag::Enemy)
                            && has_tag(start.slots[m], Tag::PlayerLaser)));
                    assert(self@.slots[m] is None);
                }
            }
            assert(self@.count(Tag::PlayerLaser) + (self@.slots.len() - n) == start.count(Tag::PlayerLaser));
            assert forall|k: int| n <= k < self@.slots.len() implies exists|j: int|
                0 <= j < n && has_tag(start.slots[j], Tag::Enemy) && self@.slots[j] is None && #[trigger] self@.slots[k]
                    == Some(
                    request_entity(start.entity(j).x, start.entity(j).y, start.entity(j).z),
                ) by {
                if k < s0.slots.len() {
                    let j = choose|j: int|
                        0 <= j < n && has_tag(start.slots[j], Tag::Enemy) && s0.slots[j] is None && #[trigger] s0.slots[k]
                            == Some(
                            request_entity(start.entity(j).x, start.entity(j).y, start.entity(j).z),
                        );
                    assert(self@.slots[j] is None);
                } else {
                    assert(self@.slots[e as int] is None);
                }
            }
        }
    }
    /// The enemy-laser pass: the first enemy laser, in handle order, that overlaps
    /// the player destroys it and is destroyed; its handle is returned. Without
    /// a live player nothing happens.
    pub fn laser_hit_player(&mut self, now_ms: u64) -> (r: Option<usize>)
        requires
            old(self).wf(),
        ensures
            final(self).wf(),
            old(self)@.count(Tag::Player) == 0 ==> r is None && final(self)@ == old(self)@,
            final(self)@.win == old(self)@.win,
            final(self)@.player == old(self)@.player || final(self)@.player == (PlayerState::Dead {
                last_shot: Some(now_ms),
            }),
            r is Some ==> final(self)@.player == (PlayerState::Dead { last_shot: Some(now_ms) })
                && final(self)@.count(Tag::Player) == 0,
            final(self)@.sprites == old(self)@.sprites,
            forall|p: int|
                0 <= p < old(self)@.slots.len() && has_tag(#[trigger] old(self)@.slots[p], Tag::Player)
                    ==> {
                    &&& r is None <==> forall|k: int|
                        0 <= k < old(self)@.slots.len() && has_tag(
                            #[trigger] old(self)@.slots[k],
                            Tag::EnemyLaser,
                        ) ==> !hits(old(self)@, k, p)
                    &&& r is None ==> final(self)@ == old(self)@
                    &&& r matches Some(l) ==> {
                        &&& l < old(self)@.slots.len()
                        &&& has_tag(old(self)@.slots[l as int], Tag::EnemyLaser)
                        &&& hits(old(self)@, l as int, p)
                        &&& forall|k: int|
                            0 <= k < l && has_tag(#[trigger] old(self)@.slots[k], Tag::EnemyLaser)
                                ==> !hits(old(self)@, k, p)
                        &&& final(self)@ == player_hit(old(self)@, p, l as int, now_ms)
                    }
                },
    {
        let ghost start = self@;
        match self.find_player() {
            None => {
                proof {
                    assert forall|j: int| 0 <= j < start.slots.len() implies !has_tag(
                        #[trigger] start.slots[j],
                        Tag::Player,
                    ) by {
                        lemma_count_zero(start.slots, Tag::Player, j);
                    }
                }
                None
            },
            Some(p) => {
                proof {
                    assert forall|j: int|
                        0 <= j < start.slots.len() && has_tag(
                            #[trigger] start.slots[j],
                            Tag::Player,
                        ) implies j == p by {
                        if j != p {
                            lemma_count_two(start.slots, Tag::Player, j, p as int);
                        }
                    }
                }
                let pe = self.slots[p].unwrap();
                let pb = pe.bounds();
                let n = self.slots.len();
                let mut i: usize = 0;
                while i < n
                    invariant
                        self@ == start,
                        start == old(self)@,
                        self.wf(),
                        start.count(Tag::Player) == 1,
                        forall|j: int|
                            0 <= j < start.slots.len() && has_tag(#[trigger] start.slots[j], Tag::Player)
                                ==> j == p,
                        n == start.slots.len(),
                        i <= n,
                        p < n,
                        has_tag(start.slots[p as int], Tag::Player),
                        pe == start.entity(p as int),
                        pb == pe.aabb(),
                        forall|k: int|
                            0 <= k < i && has_tag(#[trigger] start.slots[k], Tag::EnemyLaser)
                                ==> !hits(start, k, p as int),
                    decreases n - i,
                {
                    if tag_matches(&self.slots[i], Tag::EnemyLaser) {
                        let le = self.slots[i].unwrap();
                        if overlaps(le.bounds(), pb) {
                            self.destroy(p, now_ms);
                            self.destroy(i, now_ms);
                            self.request_explosion(pe.x, pe.y, pe.z);
                            return Some(i);
                        }
                    }
                    i = i + 1;
                }
                None
            },
        }
    }
}

} // verus!
