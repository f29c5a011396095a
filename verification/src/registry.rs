//! The island registry: one spatial grid per island id, with lazy creation
//! and the end-of-tick teardown sweep.

use vstd::prelude::*;
use crate::grid::SpatialGrid;
use crate::pos::GridPos;
use crate::tile::{EntityId, Tile, TileKind};

verus! {

/// One island's grid, tagged with the island id.
pub struct IslandEntry {
    pub id: u64,
    pub map: SpatialGrid,
}

pub open spec fn island_ids_unique(s: Seq<IslandEntry>) -> bool {
    forall|i: int, j: int| 0 <= i < j < s.len() ==> s[i].id != s[j].id
}

/// The index of the entry of island `id`, if one is present.
pub open spec fn island_idx(s: Seq<IslandEntry>, id: u64) -> Option<int>
    decreases s.len(),
{
    if s.len() == 0 {
        None
    } else if s.last().id == id {
        Some(s.len() - 1)
    } else {
        island_idx(s.drop_last(), id)
    }
}

pub proof fn lemma_island_idx_props(s: Seq<IslandEntry>, id: u64)
    ensures
        match island_idx(s, id) {
            Some(i) => 0 <= i < s.len() && s[i].id == id,
            None => forall|j: int| 0 <= j < s.len() ==> s[j].id != id,
        },
    decreases s.len(),
{
    if s.len() > 0 && s.last().id != id {
        lemma_island_idx_props(s.drop_last(), id);
        assert(forall|j: int| 0 <= j < s.len() - 1 ==> s.drop_last()[j] == s[j]);
        assert(s[s.len() - 1] == s.last());
    }
}

/// With unique ids, any entry that carries `id` is the one `island_idx` finds.
pub proof fn lemma_island_idx_unique(s: Seq<IslandEntry>, id: u64, i: int)
    requires
        island_ids_unique(s),
        0 <= i < s.len(),
        s[i].id == id,
    ensures
        island_idx(s, id) == Some(i),
{
    lemma_island_idx_props(s, id);
}

/// Appending an entry leaves every other id's lookup unchanged.
pub proof fn lemma_island_idx_push(s: Seq<IslandEntry>, e: IslandEntry, id: u64)
    ensures
        island_idx(s.push(e), id) == if e.id == id {
            Some(s.len() as int)
        } else {
            island_idx(s, id)
        },
{
    assert(s.push(e).last() == e);
    assert(s.push(e).drop_last() =~= s);
}

/// `island_idx` depends only on the sequence of ids.
pub proof fn lemma_island_idx_same_ids(s1: Seq<IslandEntry>, s2: Seq<IslandEntry>, id: u64)
    requires
        s1.len() == s2.len(),
        forall|i: int| 0 <= i < s1.len() ==> s1[i].id == s2[i].id,
    ensures
        island_idx(s1, id) == island_idx(s2, id),
    decreases s1.len(),
{
    if s1.len() > 0 {
        assert(s1.last().id == s2.last().id);
        if s1.last().id != id {
            assert(forall|i: int|
                0 <= i < s1.len() - 1 ==> s1.drop_last()[i].id == s2.drop_last()[i].id);
            lemma_island_idx_same_ids(s1.drop_last(), s2.drop_last(), id);
        }
    }
}

/// What one end-of-tick pass did: the islands torn down and the player
/// arrivals that were admitted.
pub struct TickOutcome {
    pub removed: Vec<u64>,
    pub admitted: Vec<(u64, EntityId)>,
}

/// The cell an admitted player spawns at: on the ray two cells above the
/// portal running in the positive `z` direction, the first empty one.
pub open spec fn admit_spawn_at(m0: SpatialGrid, p: GridPos) -> bool {
    let leave = m0.spec_leave_position();
    &&& p.x == leave.x
    &&& p.y as int == leave.y as int + 2
    &&& p.z >= leave.z
    &&& m0.spec_tile(p).kind is Empty
    &&& forall|w: int|
        leave.z <= w < p.z ==> !((#[trigger] m0.spec_tile_at(
            leave.x as int,
            leave.y as int + 2,
            w,
        )).kind is Empty)
}

/// The full outcome of processing one queued arrival against registry `pre`:
/// admission happens exactly when the island exists, its player counter has
/// room, the spawn row is representable and some cell of it is free; the
/// admitted player then stands at the first such cell, counted and recorded.
/// Nothing else changes.
pub open spec fn admit_post(
    pre: IslandMaps,
    post: IslandMaps,
    island: u64,
    entity: EntityId,
    admitted: bool,
) -> bool {
    &&& post.spec_has(island) == pre.spec_has(island)
    &&& forall|other: u64|
        other != island ==> (#[trigger] post.spec_has(other) == pre.spec_has(other) && (
        pre.spec_has(other) ==> post.spec_map(other) == pre.spec_map(other)))
    &&& (admitted <==> (pre.spec_has(island) && {
        let m0 = pre.spec_map(island);
        let leave = m0.spec_leave_position();
        &&& m0.spec_player_count() < u32::MAX
        &&& leave.y as int + 2 <= i32::MAX
        &&& exists|w: int|
            leave.z <= w <= i32::MAX && (#[trigger] m0.spec_tile_at(
                leave.x as int,
                leave.y as int + 2,
                w,
            )).kind is Empty
    }))
    &&& (!admitted && pre.spec_has(island) ==> post.spec_map(island) == pre.spec_map(island))
    &&& (admitted ==> {
        let m0 = pre.spec_map(island);
        let m1 = post.spec_map(island);
        exists|p: GridPos|
            {
                &&& #[trigger] admit_spawn_at(m0, p)
                &&& m1.spec_tile(p) == (Tile { kind: TileKind::Player, entity })
                &&& forall|x: int, y: int, z: int|
                    !(x == p.x as int && y == p.y as int && z == p.z as int)
                        ==> #[trigger] m1.spec_tile_at(x, y, z) == m0.spec_tile_at(x, y, z)
                &&& m1.spec_player_count() == m0.spec_player_count() + 1
                &&& m1.spec_enemy_count() == m0.spec_enemy_count()
                &&& m1.spec_leave_position() == m0.spec_leave_position()
                &&& m1.spec_entities().contains(entity)
                &&& forall|e: EntityId|
                    #[trigger] m1.spec_entities().contains(e) <==> (m0.spec_entities().contains(e)
                        || e == entity)
            }
    })
}

/// The outcome of the teardown sweep on registry `pre`: exactly the islands
/// that count a player survive, unchanged; `removed` lists exactly the rest.
pub open spec fn sweep_post(pre: IslandMaps, post: IslandMaps, removed: Seq<u64>) -> bool {
    &&& forall|id: u64|
        #[trigger] post.spec_has(id) <==> (pre.spec_has(id) && pre.spec_map(
            id,
        ).spec_player_count() > 0)
    &&& forall|id: u64| #[trigger] post.spec_has(id) ==> post.spec_map(id) == pre.spec_map(id)
    &&& forall|id: u64|
        #[trigger] removed.contains(id) <==> (pre.spec_has(id) && pre.spec_map(
            id,
        ).spec_player_count() == 0)
}

/// The outcome of one whole tick: some mid-state is reached from `pre` by
/// processing the arrival queue in order, and `post` is its teardown sweep.
pub open spec fn tick_post(
    pre: IslandMaps,
    post: IslandMaps,
    arrivals: Seq<(u64, EntityId)>,
    removed: Seq<u64>,
    admitted: Seq<(u64, EntityId)>,
) -> bool {
    exists|mid: IslandMaps|
        #[trigger] arrivals_post(pre, mid, arrivals, admitted) && sweep_post(mid, post, removed)
}

/// The outcome of processing a queue of arrivals in order against registry
/// `pre`: each arrival goes through `admit_post` in turn, and `admitted`
/// lists exactly the arrivals that were admitted, in queue order.
pub open spec fn arrivals_post(
    pre: IslandMaps,
    post: IslandMaps,
    arrivals: Seq<(u64, EntityId)>,
    admitted: Seq<(u64, EntityId)>,
) -> bool
    decreases arrivals.len(),
{
    if arrivals.len() == 0 {
        post == pre && admitted.len() == 0
    } else {
        let a = arrivals.last();
        exists|mid: IslandMaps, ok: bool|
            {
                &&& #[trigger] admit_post(mid, post, a.0, a.1, ok)
                &&& if ok {
                    admitted.len() > 0 && admitted.last() == a && arrivals_post(
                        pre,
                        mid,
                        arrivals.drop_last(),
                        admitted.drop_last(),
                    )
                } else {
                    arrivals_post(pre, mid, arrivals.drop_last(), admitted)
                }
            }
    }
}

/// Owner of every island's grid, keyed by island id.
pub struct IslandMaps {
    maps: Vec<IslandEntry>,
}

impl IslandMaps {
    pub closed spec fn entries(self) -> Seq<IslandEntry> {
        self.maps@
    }

    pub open spec fn wf(self) -> bool {
        &&& island_ids_unique(self.entries())
        &&& forall|i: int|
            0 <= i < self.entries().len() ==> (#[trigger] self.entries()[i]).map.wf()
    }

    /// Whether an island's grid exists.
    pub open spec fn spec_has(self, id: u64) -> bool {
        island_idx(self.entries(), id) is Some
    }

    /// The grid of island `id` (meaningful only when it exists).
    pub open spec fn spec_map(self, id: u64) -> SpatialGrid
        recommends
            self.spec_has(id),
    {
        self.entries()[island_idx(self.entries(), id)->Some_0].map
    }

    pub fn new() -> (r: IslandMaps)
        ensures
            r.wf(),
            r.entries().len() == 0,
            forall|id: u64| !r.spec_has(id),
    {
        IslandMaps { maps: Vec::new() }
    }

    fn find(&self, id: u64) -> (r: Option<usize>)
        requires
            self.wf(),
        ensures
            match r {
                Some(i) => island_idx(self.entries(), id) == Some(i as int),
                None => island_idx(self.entries(), id) is None,
            },
    {
        let n = self.maps.len();
        let mut i: usize = 0;
        while i < n
            invariant
                self.wf(),
                n == self.entries().len(),
                i <= n,
                forall|j: int| 0 <= j < i as int ==> self.entries()[j].id != id,
            decreases n - i,
        {
            if self.maps[i].id == id {
                proof {
                    lemma_island_idx_unique(self.entries(), id, i as int);
                }
                return Some(i);
            }
            i = i + 1;
        }
        proof {
            lemma_island_idx_props(self.entries(), id);
        }
        None
    }

    /// Read-only lookup; callers must tolerate absence (the island may not
    /// have been entered yet).
    pub fn get_map(&self, id: u64) -> (r: Option<&SpatialGrid>)
        requires
            self.wf(),
        ensures
            match r {
                Some(m) => self.spec_has(id) && *m == self.spec_map(id),
                None => !self.spec_has(id),
            },
    {
        match self.find(id) {
            Some(i) => {
                proof {
                    lemma_island_idx_props(self.entries(), id);
                }
                Some(&self.maps[i].map)
            },
            None => None,
        }
    }

    /// Mutable access to an existing island's grid. The rest of the registry
    /// is untouched: only the entry of `id` follows the returned reference.
    pub fn get_map_mut(&mut self, id: u64) -> (m: &mut SpatialGrid)
        requires
            old(self).wf(),
            old(self).spec_has(id),
        ensures
            *m == old(self).spec_map(id),
            final(self).entries() == old(self).entries().update(
                island_idx(old(self).entries(), id)->Some_0,
                IslandEntry { id, map: *final(m) },
            ),
    {
        proof {
            lemma_island_idx_props(self.entries(), id);
        }
        let i = match self.find(id) {
            Some(i) => i,
            None => {
                proof {
                    assert(false);
                }
                0
            },
        };
        let entry = &mut self.maps[i];
        proof {
            assert(entry.id == id);
        }
        &mut entry.map
    }

    /// After mutating through `get_map_mut`: the registry is well-formed again
    /// once the touched grid is, island `id` still exists and holds the new
    /// grid, and every other island is untouched.
    pub proof fn lemma_after_map_update(pre: IslandMaps, post: IslandMaps, id: u64, m: SpatialGrid)
        requires
            pre.wf(),
            pre.spec_has(id),
            m.wf(),
            post.entries() == pre.entries().update(
                island_idx(pre.entries(), id)->Some_0,
                IslandEntry { id, map: m },
            ),
        ensures
            post.wf(),
            post.spec_has(id),
            post.spec_map(id) == m,
            forall|other: u64|
                other != id ==> (#[trigger] post.spec_has(other) == pre.spec_has(other) && (
                pre.spec_has(other) ==> post.spec_map(other) == pre.spec_map(other))),
    {
        lemma_island_idx_props(pre.entries(), id);
        let i = island_idx(pre.entries(), id)->Some_0;
        assert(forall|j: int| 0 <= j < post.entries().len() ==> post.entries()[j].id
            == pre.entries()[j].id);
        assert forall|other: u64|
            island_idx(post.entries(), other) == island_idx(pre.entries(), other) by {
            lemma_island_idx_same_ids(post.entries(), pre.entries(), other);
        }
        assert forall|other: u64| other != id implies (#[trigger] post.spec_has(other)
            == pre.spec_has(other) && (pre.spec_has(other) ==> post.spec_map(other)
            == pre.spec_map(other))) by {
            lemma_island_idx_props(pre.entries(), other);
        }
    }

    /// Create the island's grid if it does not exist yet (the caller then
    /// populates terrain through the world-generation collaborator).
    pub fn ensure_island(&mut self, id: u64)
        requires
            old(self).wf(),
        ensures
            final(self).wf(),
            final(self).spec_has(id),
            old(self).spec_has(id) ==> *final(self) == *old(self),
            !old(self).spec_has(id) ==> {
                &&& final(self).spec_map(id).entries().len() == 0
                &&& final(self).spec_map(id).spec_player_count() == 0
                &&& final(self).spec_map(id).spec_enemy_count() == 0
                &&& final(self).spec_map(id).spec_entities().len() == 0
            },
            forall|other: u64|
                other != id ==> (#[trigger] final(self).spec_has(other) == old(self).spec_has(
                    other,
                ) && (old(self).spec_has(other) ==> final(self).spec_map(other) == old(
                    self,
                ).spec_map(other))),
    {
        match self.find(id) {
            Some(_) => {
                proof {
                    assert(*self == *old(self));
                }
            },
            None => {
                let ghost old_entries = self.maps@;
                let entry = IslandEntry { id, map: SpatialGrid::new() };
                let ghost ge = entry;
                self.maps.push(entry);
                proof {
                    let s = self.maps@;
                    assert(s == old_entries.push(ge));
                    lemma_island_idx_props(old_entries, id);
                    assert(forall|j: int| 0 <= j < old_entries.len() ==> s[j] == old_entries[j]);
                    assert forall|j1: int, j2: int| 0 <= j1 < j2 < s.len() implies s[j1].id
                        != s[j2].id by {
                        if j2 == old_entries.len() as int {
                            assert(s[j1].id != id);
                        }
                    }
                    assert forall|other: u64|
                        island_idx(s, other) == if other == id {
                            Some(old_entries.len() as int)
                        } else {
                            island_idx(old_entries, other)
                        } by {
                        lemma_island_idx_push(old_entries, ge, other);
                    }
                    assert forall|other: u64| other != id implies (#[trigger] self.spec_has(other)
                        == old(self).spec_has(other) && (old(self).spec_has(other)
                        ==> self.spec_map(other) == old(self).spec_map(other))) by {
                        lemma_island_idx_props(old_entries, other);
                    }
                }
            },
        }
    }
    /// Process one queued player arrival: spawn the player above the island's
    /// portal cell, on the first free cell of the spawn row, and count it.
    /// Returns whether the player was admitted; the full outcome, admission
    /// condition included, is `admit_post`.
    pub fn admit_player(&mut self, island: u64, entity: EntityId) -> (admitted: bool)
        requires
            old(self).wf(),
        ensures
            final(self).wf(),
            admit_post(*old(self), *final(self), island, entity, admitted),
            final(self).spec_has(island) == old(self).spec_has(island),
            admitted ==> final(self).spec_has(island) && final(self).spec_map(
                island,
            ).spec_player_count() > 0,
            !admitted && old(self).spec_has(island) ==> final(self).spec_map(island) == old(
                self,
            ).spec_map(island),
            forall|other: u64|
                other != island ==> (#[trigger] final(self).spec_has(other) == old(
                    self,
                ).spec_has(other) && (old(self).spec_has(other) ==> final(self).spec_map(other)
                    == old(self).spec_map(other))),
    {
        let present = match self.find(island) {
            Some(_) => true,
            None => false,
        };
        if !present {
            proof {
                assert(admit_post(*old(self), *self, island, entity, false));
            }
            return false;
        }
        let ghost idx = island_idx(old(self).entries(), island)->Some_0;
        proof {
            lemma_island_idx_props(self.entries(), island);
        }
        let m = self.get_map_mut(island);
        let leave = m.leave_position();
        let count = m.player_count();
        let mut admitted = false;
        let ghost mut spawn: GridPos = leave;
        if count < u32::MAX {
            match leave.y.checked_add(2) {
                Some(y) => {
                    match m.find_spawn_position(GridPos { x: leave.x, y, z: leave.z }) {
                        Some(p) => {
                            m.add_player(p, entity);
                            admitted = true;
                            proof {
                                spawn = p;
                            }
                        },
                        None => (),
                    }
                },
                None => (),
            }
        }
        proof {
            lemma_island_idx_props(old(self).entries(), island);
            let mm = self.entries()[idx].map;
            Self::lemma_after_map_update(*old(self), *self, island, mm);
            let m0 = old(self).spec_map(island);
            let m1 = self.spec_map(island);
            assert(leave == m0.spec_leave_position());
            assert(count == m0.spec_player_count());
            if admitted {
                assert(admit_spawn_at(m0, spawn));
                assert(m0.spec_tile_at(leave.x as int, leave.y as int + 2, spawn.z as int).kind
                    is Empty);
                assert(exists|w: int|
                    leave.z <= w <= i32::MAX && (#[trigger] m0.spec_tile_at(
                        leave.x as int,
                        leave.y as int + 2,
                        w,
                    )).kind is Empty);
            } else {
                if count < u32::MAX && leave.y as int + 2 <= i32::MAX {
                    // the spawn scan found nothing: the whole row is taken
                    assert(!(exists|w: int|
                        leave.z <= w <= i32::MAX && (#[trigger] m0.spec_tile_at(
                            leave.x as int,
                            leave.y as int + 2,
                            w,
                        )).kind is Empty)) by {
                        if exists|w: int|
                            leave.z <= w <= i32::MAX && (#[trigger] m0.spec_tile_at(
                                leave.x as int,
                                leave.y as int + 2,
                                w,
                            )).kind is Empty {
                            let w = choose|w: int|
                                leave.z <= w <= i32::MAX && (#[trigger] m0.spec_tile_at(
                                    leave.x as int,
                                    leave.y as int + 2,
                                    w,
                                )).kind is Empty;
                            assert(false);
                        }
                    }
                }
            }
            assert(admit_post(*old(self), *self, island, entity, admitted));
        }
        admitted
    }

    /// A player standing on an island's portal departs: the cell is freed,
    /// the island's player counter drops and the entity record is cleared.
    /// With the island absent or the player elsewhere nothing happens.
    pub fn player_leaves_island(&mut self, island: u64, entity: EntityId, position: GridPos) -> (
        left: bool)
        requires
            old(self).wf(),
        ensures
            final(self).wf(),
            final(self).spec_has(island) == old(self).spec_has(island),
            !old(self).spec_has(island) ==> !left && *final(self) == *old(self),
            forall|other: u64|
                other != island ==> (#[trigger] final(self).spec_has(other) == old(
                    self,
                ).spec_has(other) && (old(self).spec_has(other) ==> final(self).spec_map(other)
                    == old(self).spec_map(other))),
            old(self).spec_has(island) ==> {
                let m0 = old(self).spec_map(island);
                let m1 = final(self).spec_map(island);
                &&& left == (position.x == m0.spec_leave_position().x && position.y as int
                    == m0.spec_leave_position().y as int + 1 && position.z
                    == m0.spec_leave_position().z)
                &&& (!left ==> m1 == m0)
                &&& (left ==> SpatialGrid::depart_left_post(m0, m1, entity, position))
            },
    {
        let present = match self.find(island) {
            Some(_) => true,
            None => false,
        };
        if !present {
            return false;
        }
        let ghost idx = island_idx(old(self).entries(), island)->Some_0;
        proof {
            lemma_island_idx_props(self.entries(), island);
        }
        let m = self.get_map_mut(island);
        let left = m.depart_player(entity, position);
        proof {
            lemma_island_idx_props(old(self).entries(), island);
            let mm = self.entries()[idx].map;
            Self::lemma_after_map_update(*old(self), *self, island, mm);
        }
        left
    }

    /// Run the arrival-then-sweep order of one tick: admit every queued player
    /// arrival first, then tear down the islands that still count no player.
    /// The outcome lists, in order, exactly the admitted arrivals and exactly
    /// the torn-down islands: the final registry is the sweep of the
    /// post-arrival registry.
    ///
    /// Law: arrivals are processed before the teardown sweep, so an island
    /// that admitted a player this tick is never torn down in the same tick.
    pub fn end_of_tick(&mut self, arrivals: &Vec<(u64, EntityId)>) -> (r: TickOutcome)
        requires
            old(self).wf(),
        ensures
            final(self).wf(),
            tick_post(*old(self), *final(self), arrivals@, r.removed@, r.admitted@),
            forall|j: int|
                0 <= j < r.admitted@.len() ==> #[trigger] final(self).spec_has(r.admitted@[j].0)
                    && final(self).spec_map(r.admitted@[j].0).spec_player_count() > 0,
            forall|id: u64| #[trigger] final(self).spec_has(id) ==> old(self).spec_has(id),
    {
        let mut admitted: Vec<(u64, EntityId)> = Vec::new();
        let n = arrivals.len();
        let mut i: usize = 0;
        while i < n
            invariant
                self.wf(),
                n == arrivals@.len(),
                i <= n,
                arrivals_post(*old(self), *self, arrivals@.subrange(0, i as int), admitted@),
                forall|j: int|
                    0 <= j < admitted@.len() ==> #[trigger] self.spec_has(admitted@[j].0)
                        && self.spec_map(admitted@[j].0).spec_player_count() > 0,
                forall|id: u64| #[trigger] self.spec_has(id) ==> old(self).spec_has(id),
            decreases n - i,
        {
            let (island, entity) = arrivals[i];
            let ghost pre = *self;
            let ghost pre_adm = admitted@;
            proof {
                assert forall|j: int|
                    0 <= j < admitted@.len() implies #[trigger] pre.spec_has(admitted@[j].0)
                    && pre.spec_map(admitted@[j].0).spec_player_count() > 0 by {
                    assert(self.spec_has(admitted@[j].0) && self.spec_map(
                        admitted@[j].0,
                    ).spec_player_count() > 0);
                }
            }
            let ok = self.admit_player(island, entity);
            proof {
                assert forall|j: int|
                    0 <= j < admitted@.len() implies #[trigger] self.spec_has(admitted@[j].0)
                    && self.spec_map(admitted@[j].0).spec_player_count() > 0 by {
                    let a = admitted@[j].0;
                    if a != island {
                        assert(pre.spec_has(a));
                        assert(pre.spec_map(a).spec_player_count() > 0);
                    } else {
                        if ok {
                        } else {
                            assert(self.spec_map(a) == pre.spec_map(a));
                        }
                    }
                }
            }
            if ok {
                admitted.push((island, entity));
                proof {
                    assert(forall|j: int|
                        0 <= j < pre_adm.len() ==> admitted@[j] == pre_adm[j]);
                    assert(admitted@[pre_adm.len() as int] == (island, entity));
                }
            }
            proof {
                let sub1 = arrivals@.subrange(0, i as int + 1);
                assert(sub1.last() == arrivals@[i as int]);
                assert(sub1.drop_last() =~= arrivals@.subrange(0, i as int));
                assert(admit_post(pre, *self, island, entity, ok));
                if ok {
                    assert(admitted@.last() == (island, entity));
                    assert(admitted@.drop_last() =~= pre_adm);
                    assert(arrivals_post(
                        *old(self),
                        pre,
                        sub1.drop_last(),
                        admitted@.drop_last(),
                    ));
                } else {
                    assert(admitted@ == pre_adm);
                    assert(arrivals_post(*old(self), pre, sub1.drop_last(), admitted@));
                }
                assert(arrivals_post(*old(self), *self, sub1, admitted@));
            }
            i = i + 1;
        }
        let ghost mid = *self;
        proof {
            assert(arrivals@.subrange(0, n as int) =~= arrivals@);
            assert(arrivals_post(*old(self), mid, arrivals@, admitted@));
        }
        let removed = self.sweep_empty_islands();
        proof {
            assert(sweep_post(mid, *self, removed@));
            assert forall|j: int|
                0 <= j < admitted@.len() implies #[trigger] self.spec_has(admitted@[j].0)
                && self.spec_map(admitted@[j].0).spec_player_count() > 0 by {
                let a = admitted@[j].0;
                assert(mid.spec_has(a));
                assert(mid.spec_map(a).spec_player_count() > 0);
            }
        }
        let r = TickOutcome { removed, admitted };
        proof {
            assert(arrivals_post(*old(self), mid, arrivals@, r.admitted@));
            assert(sweep_post(mid, *self, r.removed@));
            assert(tick_post(*old(self), *self, arrivals@, r.removed@, r.admitted@));
        }
        r
    }

    /// The end-of-tick teardown sweep: every island whose player count is zero
    /// is removed (enemies alone do not keep an island alive). Returns the ids
    /// of the islands that were torn down, so the caller can despawn their
    /// actors.
    pub fn sweep_empty_islands(&mut self) -> (removed: Vec<u64>)
        requires
            old(self).wf(),
        ensures
            final(self).wf(),
            forall|id: u64|
                #[trigger] final(self).spec_has(id) <==> (old(self).spec_has(id) && old(
                    self,
                ).spec_map(id).spec_player_count() > 0),
            forall|id: u64|
                final(self).spec_has(id) ==> final(self).spec_map(id) == old(self).spec_map(id),
            forall|id: u64|
                #[trigger] removed@.contains(id) <==> (old(self).spec_has(id) && old(
                    self,
                ).spec_map(id).spec_player_count() == 0),
    {
        let ghost orig = self.maps@;
        let mut rest: Vec<IslandEntry> = Vec::new();
        core::mem::swap(&mut self.maps, &mut rest);
        let mut removed: Vec<u64> = Vec::new();
        let ghost mut k: int = 0;
        let n = rest.len();
        while rest.len() > 0
            invariant
                island_ids_unique(orig),
                forall|i: int| 0 <= i < orig.len() ==> (#[trigger] orig[i]).map.wf(),
                0 <= k <= orig.len(),
                rest@ == orig.subrange(k, orig.len() as int),
                island_ids_unique(self.maps@),
                forall|i: int| 0 <= i < self.maps@.len() ==> (#[trigger] self.maps@[i]).map.wf(),
                forall|id: u64|
                    #[trigger] island_idx(self.maps@, id) is Some <==> exists|j: int|
                        0 <= j < k && orig[j].id == id && (#[trigger] orig[j]).map.spec_player_count() > 0,
                forall|id: u64|
                    island_idx(self.maps@, id) is Some ==> self.maps@[island_idx(self.maps@, id)->Some_0]
                        == orig[island_idx(orig, id)->Some_0],
                forall|id: u64|
                    #[trigger] removed@.contains(id) <==> exists|j: int|
                        0 <= j < k && orig[j].id == id && (#[trigger] orig[j]).map.spec_player_count() == 0,
            decreases rest.len(),
        {
            let entry = rest.remove(0);
            let ghost ge = entry;
            proof {
                assert(orig[k] == ge);
                assert(rest@ == orig.subrange(k + 1, orig.len() as int));
            }
            let keep = entry.map.player_count() > 0;
            if keep {
                let ghost pre_kept = self.maps@;
                self.maps.push(entry);
                proof {
                    assert(self.maps@ == pre_kept.push(ge));
                    assert(forall|j: int| 0 <= j < pre_kept.len() ==> self.maps@[j] == pre_kept[j]);
                    assert forall|id: u64|
                        island_idx(self.maps@, id) == if ge.id == id {
                            Some(pre_kept.len() as int)
                        } else {
                            island_idx(pre_kept, id)
                        } by {
                        lemma_island_idx_push(pre_kept, ge, id);
                    }
                    // the pushed id was not kept before (ids unique in orig)
                    assert(!(island_idx(pre_kept, ge.id) is Some)) by {
                        if island_idx(pre_kept, ge.id) is Some {
                            let j = choose|j: int|
                                0 <= j < k && orig[j].id == ge.id
                                    && (#[trigger] orig[j]).map.spec_player_count() > 0;
                            assert(orig[j].id == orig[k].id);
                        }
                    }
                    assert forall|j1: int, j2: int| 0 <= j1 < j2 < self.maps@.len() implies self.maps@[j1].id
                        != self.maps@[j2].id by {
                        if j2 == pre_kept.len() as int {
                            lemma_island_idx_unique(pre_kept, self.maps@[j1].id, j1);
                        }
                    }
                    assert forall|id: u64|
                        #[trigger] island_idx(self.maps@, id) is Some <==> exists|j: int|
                            0 <= j < k + 1 && orig[j].id == id
                                && (#[trigger] orig[j]).map.spec_player_count() > 0 by {
                        if island_idx(self.maps@, id) is Some {
                            if ge.id == id {
                                assert(orig[k].id == id && orig[k].map.spec_player_count() > 0);
                            } else {
                                let j = choose|j: int|
                                    0 <= j < k && orig[j].id == id
                                        && (#[trigger] orig[j]).map.spec_player_count() > 0;
                            }
                        } else {
                            if exists|j: int|
                                0 <= j < k + 1 && orig[j].id == id
                                    && (#[trigger] orig[j]).map.spec_player_count() > 0 {
                                let j = choose|j: int|
                                    0 <= j < k + 1 && orig[j].id == id
                                        && (#[trigger] orig[j]).map.spec_player_count() > 0;
                                assert(j == k);
                                assert(ge.id == id);
                                assert(false);
                            }
                        }
                    }
                    assert forall|id: u64| island_idx(self.maps@, id) is Some implies self.maps@[island_idx(
                        self.maps@,
                        id,
                    )->Some_0] == orig[island_idx(orig, id)->Some_0] by {
                        if ge.id == id {
                            lemma_island_idx_unique(orig, id, k);
                        } else {
                            lemma_island_idx_props(pre_kept, id);
                        }
                    }
                    k = k + 1;
                }
            } else {
                let ghost pre_removed = removed@;
                removed.push(entry.id);
                proof {
                    assert(removed@ == pre_removed.push(ge.id));
                    assert forall|id: u64|
                        #[trigger] removed@.contains(id) <==> (pre_removed.contains(id) || id
                            == ge.id) by {
                        assert(removed@[pre_removed.len() as int] == ge.id);
                        if removed@.contains(id) {
                            let w = choose|w: int| 0 <= w < removed@.len() && removed@[w] == id;
                            if w < pre_removed.len() {
                                assert(pre_removed[w] == id);
                            }
                        } else {
                            assert(!pre_removed.contains(id)) by {
                                if pre_removed.contains(id) {
                                    let w = choose|w: int|
                                        0 <= w < pre_removed.len() && pre_removed[w] == id;
                                    assert(removed@[w] == id);
                                }
                            }
                        }
                    }
                    assert forall|id: u64|
                        #[trigger] removed@.contains(id) <==> exists|j: int|
                            0 <= j < k + 1 && orig[j].id == id
                                && (#[trigger] orig[j]).map.spec_player_count() == 0 by {
                        if removed@.contains(id) {
                            if id == ge.id {
                                assert(orig[k].id == id && orig[k].map.spec_player_count() == 0);
                            } else {
                                let j = choose|j: int|
                                    0 <= j < k && orig[j].id == id
                                        && (#[trigger] orig[j]).map.spec_player_count() == 0;
                            }
                        } else {
                            if exists|j: int|
                                0 <= j < k + 1 && orig[j].id == id
                                    && (#[trigger] orig[j]).map.spec_player_count() == 0 {
                                let j = choose|j: int|
                                    0 <= j < k + 1 && orig[j].id == id
                                        && (#[trigger] orig[j]).map.spec_player_count() == 0;
                                assert(j == k);
                                assert(false);
                            }
                        }
                    }
                    k = k + 1;
                }
            }
        }
        proof {
            assert(orig.subrange(k, orig.len() as int).len() == 0);
            assert(k == orig.len());
            assert forall|id: u64|
                #[trigger] self.spec_has(id) <==> (old(self).spec_has(id) && old(self).spec_map(
                    id,
                ).spec_player_count() > 0) by {
                lemma_island_idx_props(orig, id);
                if self.spec_has(id) {
                    let j = choose|j: int|
                        0 <= j < k && orig[j].id == id
                            && (#[trigger] orig[j]).map.spec_player_count() > 0;
                    lemma_island_idx_unique(orig, id, j);
                } else {
                    if old(self).spec_has(id) && old(self).spec_map(id).spec_player_count() > 0 {
                        let j = island_idx(orig, id)->Some_0;
                        assert(0 <= j < k && orig[j].id == id && orig[j].map.spec_player_count()
                            > 0);
                        assert(false);
                    }
                }
            }
            assert forall|id: u64| self.spec_has(id) implies self.spec_map(id) == old(
                self,
            ).spec_map(id) by {
                lemma_island_idx_props(self.maps@, id);
            }
            assert forall|id: u64|
                #[trigger] removed@.contains(id) <==> (old(self).spec_has(id) && old(
                    self,
                ).spec_map(id).spec_player_count() == 0) by {
                lemma_island_idx_props(orig, id);
                if removed@.contains(id) {
                    let j = choose|j: int|
                        0 <= j < k && orig[j].id == id
                            && (#[trigger] orig[j]).map.spec_player_count() == 0;
                    lemma_island_idx_unique(orig, id, j);
                } else {
                    if old(self).spec_has(id) && old(self).spec_map(id).spec_player_count() == 0 {
                        let j = island_idx(orig, id)->Some_0;
                        assert(0 <= j < k && orig[j].id == id && orig[j].map.spec_player_count()
                            == 0);
                        assert(false);
                    }
                }
            }
        }
        removed
    }
}

} // verus!
