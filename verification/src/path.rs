//! The A* path planner over a spatial grid, driven by a movement rule.

use vstd::prelude::*;
use crate::pos::GridPos;
use crate::grid::SpatialGrid;
use crate::movement::{MoveRule, Heuristic, spec_heuristic, eval_heuristic};

verus! {

/// Whether the integer cell `(x, y, z)` is walkable (see
/// [`SpatialGrid::spec_can_move`], extended to unbounded coordinates).
pub open spec fn walkable_at(m: SpatialGrid, x: int, y: int, z: int) -> bool {
    &&& i32::MIN <= x <= i32::MAX && i32::MIN <= y <= i32::MAX && i32::MIN <= z <= i32::MAX
    &&& m.spec_tile_at(x, y - 1, z).kind is Terrain
    &&& (m.spec_tile_at(x, y, z).kind is Empty || m.spec_tile_at(x, y, z).kind is Player)
}

/// Where one candidate offset leads from `p`: the direct step when walkable;
/// one cell higher when blocked and the rule may climb; one cell lower when
/// still blocked and the rule may drop; nowhere otherwise.
pub open spec fn spec_neighbor(
    m: SpatialGrid,
    can_climb: bool,
    can_drop: bool,
    p: GridPos,
    o: GridPos,
) -> Option<GridPos> {
    let tx = p.x as int + o.x as int;
    let ty = p.y as int + o.y as int;
    let tz = p.z as int + o.z as int;
    if walkable_at(m, tx, ty, tz) {
        Some(GridPos { x: tx as i32, y: ty as i32, z: tz as i32 })
    } else if can_climb && walkable_at(m, tx, ty + 1, tz) {
        Some(GridPos { x: tx as i32, y: (ty + 1) as i32, z: tz as i32 })
    } else if can_drop && walkable_at(m, tx, ty - 1, tz) {
        Some(GridPos { x: tx as i32, y: (ty - 1) as i32, z: tz as i32 })
    } else {
        None
    }
}

/// One legal move of a rule: some offset leads from `p` to `q`.
pub open spec fn valid_step(
    m: SpatialGrid,
    offsets: Seq<GridPos>,
    can_climb: bool,
    can_drop: bool,
    p: GridPos,
    q: GridPos,
) -> bool {
    exists|i: int|
        0 <= i < offsets.len() && spec_neighbor(m, can_climb, can_drop, p, #[trigger] offsets[i])
            == Some(q)
}

/// A legal rule-path from `start` to `goal`: the ordered positions after
/// `start`, each one legal step from its predecessor, ending at `goal`. The
/// empty sequence is the no-path answer.
pub open spec fn valid_path(
    m: SpatialGrid,
    offsets: Seq<GridPos>,
    can_climb: bool,
    can_drop: bool,
    start: GridPos,
    goal: GridPos,
    path: Seq<GridPos>,
) -> bool {
    &&& (path.len() > 0 ==> valid_step(m, offsets, can_climb, can_drop, start, path[0]))
    &&& (forall|i: int|
        0 <= i < path.len() - 1 ==> valid_step(
            m,
            offsets,
            can_climb,
            can_drop,
            path[i],
            #[trigger] path[i + 1],
        ))
    &&& (path.len() > 0 ==> path.last() == goal)
}

fn in_i32(v: i64) -> (r: bool)
    ensures
        r == (i32::MIN <= v <= i32::MAX),
{
    i32::MIN as i64 <= v && v <= i32::MAX as i64
}

fn can_move_wide(m: &SpatialGrid, x: i64, y: i64, z: i64) -> (r: bool)
    requires
        m.wf(),
    ensures
        r == walkable_at(*m, x as int, y as int, z as int),
{
    if in_i32(x) && in_i32(y) && in_i32(z) {
        let p = GridPos { x: x as i32, y: y as i32, z: z as i32 };
        proof {
            if y as int - 1 < i32::MIN {
                m.lemma_below_world_empty(x as int, y as int - 1, z as int);
            }
        }
        m.can_move(p)
    } else {
        false
    }
}

/// The neighbour a candidate offset yields from `position`, if any.
fn neighbor_for_offset(m: &SpatialGrid, can_climb: bool, can_drop: bool, position: GridPos, o:
    GridPos) -> (r: Option<GridPos>)
    requires
        m.wf(),
    ensures
        r == spec_neighbor(*m, can_climb, can_drop, position, o),
{
    let tx = position.x as i64 + o.x as i64;
    let ty = position.y as i64 + o.y as i64;
    let tz = position.z as i64 + o.z as i64;
    if can_move_wide(m, tx, ty, tz) {
        Some(GridPos { x: tx as i32, y: ty as i32, z: tz as i32 })
    } else if can_climb && can_move_wide(m, tx, ty + 1, tz) {
        Some(GridPos { x: tx as i32, y: (ty + 1) as i32, z: tz as i32 })
    } else if can_drop && can_move_wide(m, tx, ty - 1, tz) {
        Some(GridPos { x: tx as i32, y: (ty - 1) as i32, z: tz as i32 })
    } else {
        None
    }
}

/// All positions one legal step of the rule away from `position`.
pub fn get_valid_neighbors(position: GridPos, map: &SpatialGrid, rule: &MoveRule) -> (r: Vec<
    GridPos,
>)
    requires
        map.wf(),
    ensures
        forall|j: int|
            0 <= j < r@.len() ==> valid_step(
                *map,
                rule.offsets@,
                rule.can_climb,
                rule.can_drop,
                position,
                #[trigger] r@[j],
            ),
        forall|i: int|
            0 <= i < rule.offsets@.len() ==> match spec_neighbor(
                *map,
                rule.can_climb,
                rule.can_drop,
                position,
                #[trigger] rule.offsets@[i],
            ) {
                Some(q) => r@.contains(q),
                None => true,
            },
{
    let mut r: Vec<GridPos> = Vec::new();
    let n = rule.offsets.len();
    let mut i: usize = 0;
    while i < n
        invariant
            map.wf(),
            n == rule.offsets@.len(),
            i <= n,
            forall|j: int|
                0 <= j < r@.len() ==> valid_step(
                    *map,
                    rule.offsets@,
                    rule.can_climb,
                    rule.can_drop,
                    position,
                    #[trigger] r@[j],
                ),
            forall|w: int|
                0 <= w < i as int ==> match spec_neighbor(
                    *map,
                    rule.can_climb,
                    rule.can_drop,
                    position,
                    #[trigger] rule.offsets@[w],
                ) {
                    Some(q) => r@.contains(q),
                    None => true,
                },
        decreases n - i,
    {
        let o = rule.offsets[i];
        match neighbor_for_offset(map, rule.can_climb, rule.can_drop, position, o) {
            Some(q) => {
                let ghost pre = r@;
                r.push(q);
                proof {
                    assert(r@ == pre.push(q));
                    assert(r@[pre.len() as int] == q);
                    assert(valid_step(
                        *map,
                        rule.offsets@,
                        rule.can_climb,
                        rule.can_drop,
                        position,
                        q,
                    ));
                    assert(forall|w: int| 0 <= w < pre.len() ==> r@[w] == pre[w]);
                    assert forall|w: int|
                        0 <= w < i as int + 1 implies match spec_neighbor(
                        *map,
                        rule.can_climb,
                        rule.can_drop,
                        position,
                        #[trigger] rule.offsets@[w],
                    ) {
                        Some(q2) => r@.contains(q2),
                        None => true,
                    } by {
                        match spec_neighbor(
                            *map,
                            rule.can_climb,
                            rule.can_drop,
                            position,
                            rule.offsets@[w],
                        ) {
                            Some(q2) => {
                                if w < i as int {
                                    assert(pre.contains(q2));
                                    let wi = choose|wi: int|
                                        0 <= wi < pre.len() && pre[wi] == q2;
                                    assert(r@[wi] == q2);
                                } else {
                                    assert(r@[pre.len() as int] == q2);
                                }
                            },
                            None => (),
                        }
                    }
                }
            },
            None => (),
        }
        i = i + 1;
    }
    r
}

/// One record of the planner's bookkeeping: how `pos` was reached. The start
/// carries no predecessor; every other record points one legal step back, at
/// a strictly smaller path cost.
pub struct PathEntry {
    pub pos: GridPos,
    pub prev: Option<GridPos>,
    pub g: u64,
}

/// The index of the record of `p`, if one is present.
pub open spec fn entry_idx(s: Seq<PathEntry>, p: GridPos) -> Option<int>
    decreases s.len(),
{
    if s.len() == 0 {
        None
    } else if s.last().pos == p {
        Some(s.len() - 1)
    } else {
        entry_idx(s.drop_last(), p)
    }
}

pub proof fn lemma_entry_idx_props(s: Seq<PathEntry>, p: GridPos)
    ensures
        match entry_idx(s, p) {
            Some(i) => 0 <= i < s.len() && s[i].pos == p,
            None => forall|j: int| 0 <= j < s.len() ==> s[j].pos != p,
        },
    decreases s.len(),
{
    if s.len() > 0 && s.last().pos != p {
        lemma_entry_idx_props(s.drop_last(), p);
        assert(forall|j: int| 0 <= j < s.len() - 1 ==> s.drop_last()[j] == s[j]);
        assert(s[s.len() - 1] == s.last());
    }
}

pub proof fn lemma_entry_idx_unique(s: Seq<PathEntry>, p: GridPos, i: int)
    requires
        entry_positions_unique(s),
        0 <= i < s.len(),
        s[i].pos == p,
    ensures
        entry_idx(s, p) == Some(i),
{
    lemma_entry_idx_props(s, p);
}

pub proof fn lemma_entry_idx_push(s: Seq<PathEntry>, e: PathEntry, p: GridPos)
    ensures
        entry_idx(s.push(e), p) == if e.pos == p {
            Some(s.len() as int)
        } else {
            entry_idx(s, p)
        },
{
    assert(s.push(e).last() == e);
    assert(s.push(e).drop_last() =~= s);
}

pub proof fn lemma_entry_idx_same_positions(s1: Seq<PathEntry>, s2: Seq<PathEntry>, p: GridPos)
    requires
        s1.len() == s2.len(),
        forall|i: int| 0 <= i < s1.len() ==> s1[i].pos == s2[i].pos,
    ensures
        entry_idx(s1, p) == entry_idx(s2, p),
    decreases s1.len(),
{
    if s1.len() > 0 {
        assert(s1.last().pos == s2.last().pos);
        if s1.last().pos != p {
            assert(forall|i: int|
                0 <= i < s1.len() - 1 ==> s1.drop_last()[i].pos == s2.drop_last()[i].pos);
            lemma_entry_idx_same_positions(s1.drop_last(), s2.drop_last(), p);
        }
    }
}

pub open spec fn entry_positions_unique(s: Seq<PathEntry>) -> bool {
    forall|i: int, j: int| 0 <= i < j < s.len() ==> s[i].pos != s[j].pos
}

/// The planner's bookkeeping invariant: records are unique per position; the
/// start's record has no predecessor and cost zero; every other record points
/// one legal step back to a recorded position of strictly smaller cost.
pub open spec fn entries_inv(
    m: SpatialGrid,
    offsets: Seq<GridPos>,
    can_climb: bool,
    can_drop: bool,
    start: GridPos,
    s: Seq<PathEntry>,
) -> bool {
    &&& entry_positions_unique(s)
    &&& forall|i: int|
        0 <= i < s.len() ==> match (#[trigger] s[i]).prev {
            Option::None => s[i].pos == start && s[i].g == 0,
            Option::Some(p) => valid_step(m, offsets, can_climb, can_drop, p, s[i].pos) && exists|
                j: int,
            | 0 <= j < s.len() && (#[trigger] s[j]).pos == p && s[j].g < s[i].g,
        }
}

/// Costs stay below the record count: they grow by one per recorded step.
pub open spec fn entry_g_bounded(s: Seq<PathEntry>) -> bool {
    forall|i: int| 0 <= i < s.len() ==> (#[trigger] s[i]).g < s.len()
}

/// The start's record never gains a predecessor.
pub open spec fn start_entry_root(s: Seq<PathEntry>, start: GridPos) -> bool {
    forall|i: int| 0 <= i < s.len() && (#[trigger] s[i]).pos == start ==> s[i].prev is None
}

struct OpenNode {
    pos: GridPos,
    f: u64,
}

spec fn in_open(s: Seq<OpenNode>, p: GridPos) -> bool {
    exists|k: int| 0 <= k < s.len() && (#[trigger] s[k]).pos == p
}

/// No legal path leaves a step-closed set: with every recorded position
/// closed, every closed position's successors recorded and the start closed,
/// a legal path from the start puts its goal in the closed set too.
proof fn lemma_path_stays_in_closed(
    m: SpatialGrid,
    offsets: Seq<GridPos>,
    can_climb: bool,
    can_drop: bool,
    s: Seq<PathEntry>,
    cs: Seq<GridPos>,
    start: GridPos,
    goal: GridPos,
    path: Seq<GridPos>,
)
    requires
        valid_path(m, offsets, can_climb, can_drop, start, goal, path),
        path.len() > 0,
        forall|j: int, q: GridPos|
            0 <= j < cs.len() && #[trigger] valid_step(m, offsets, can_climb, can_drop, cs[j], q)
                ==> entry_idx(s, q) is Some,
        forall|i: int| 0 <= i < s.len() ==> cs.contains((#[trigger] s[i]).pos),
        cs.contains(start),
    ensures
        cs.contains(goal),
    decreases path.len(),
{
    let first = path[0];
    let w = choose|w: int| 0 <= w < cs.len() && cs[w] == start;
    assert(valid_step(m, offsets, can_climb, can_drop, cs[w], first));
    lemma_entry_idx_props(s, first);
    let ei = entry_idx(s, first)->Some_0;
    assert(cs.contains(s[ei].pos));
    if path.len() == 1 {
        assert(first == goal);
    } else {
        let tail = path.subrange(1, path.len() as int);
        assert(tail[0] == path[1]);
        assert(tail.last() == path.last());
        assert forall|i: int|
            0 <= i < tail.len() - 1 implies valid_step(
            m,
            offsets,
            can_climb,
            can_drop,
            tail[i],
            #[trigger] tail[i + 1],
        ) by {
            assert(tail[i] == path[i + 1]);
            assert(tail[i + 1] == path[i + 2]);
            assert(valid_step(m, offsets, can_climb, can_drop, path[i + 1], path[i + 1 + 1]));
        }
        assert(valid_step(m, offsets, can_climb, can_drop, path[0int], path[0int + 1]));
        let w3 = choose|w3: int| 0 <= w3 < cs.len() && cs[w3] == first;
        lemma_path_stays_in_closed(m, offsets, can_climb, can_drop, s, cs, first, goal, tail);
    }
}

/// A* search from `start` to `goal` over `map`, expanding steps allowed by
/// `move_rule`. Returns the ordered positions from the step after `start` up
/// to `goal`. Every returned path is a legal rule-path ending at the goal;
/// the empty sequence comes back exactly when the goal is the start itself or
/// no legal rule-path reaches it (not an error: the caller holds position).
#[verifier::rlimit(100)]
#[verifier::spinoff_prover]
pub fn astar(start: GridPos, goal: GridPos, map: &SpatialGrid, move_rule: &MoveRule) -> (r: Vec<
    GridPos,
>)
    requires
        map.wf(),
    ensures
        valid_path(
            *map,
            move_rule.offsets@,
            move_rule.can_climb,
            move_rule.can_drop,
            start,
            goal,
            r@,
        ),
        start == goal ==> r@.len() == 0,
        start != goal && r@.len() == 0 ==> !(exists|path: Seq<GridPos>|
            #[trigger] valid_path(
                *map,
                move_rule.offsets@,
                move_rule.can_climb,
                move_rule.can_drop,
                start,
                goal,
                path,
            ) && path.len() > 0),
{
    let ghost offsets = move_rule.offsets@;
    let ghost climb = move_rule.can_climb;
    let ghost drop = move_rule.can_drop;
    let ghost m = *map;

    let mut entries: Vec<PathEntry> = Vec::new();
    entries.push(PathEntry { pos: start, prev: None, g: 0 });
    proof {
        assert(entries@.len() == 1);
        assert(entries@[0] == (PathEntry { pos: start, prev: None::<GridPos>, g: 0u64 }));
    }
    let mut open: Vec<OpenNode> = Vec::new();
    let start_h = eval_heuristic(move_rule.heuristic, start, goal);
    open.push(OpenNode { pos: start, f: start_h });
    let mut closed: Vec<GridPos> = Vec::new();
    proof {
        assert(in_open(open@, start)) by {
            assert(open@[0].pos == start);
        }
    }

    // the budget never runs out before the frontier does: it falls by one per
    // expansion, and expansions never outnumber the records
    let mut fuel: usize = usize::MAX;

    while fuel > 0 && open.len() > 0
        invariant
            map.wf(),
            m == *map,
            entries_inv(m, offsets, climb, drop, start, entries@),
            entry_g_bounded(entries@),
            start_entry_root(entries@, start),
            entry_idx(entries@, start) is Some,
            forall|j: int|
                0 <= j < open@.len() ==> entry_idx(entries@, (#[trigger] open@[j]).pos) is Some,
            open@.len() <= entries@.len(),
            fuel as int == usize::MAX as int - (entries@.len() - open@.len()),
            forall|j: int| 0 <= j < closed@.len() ==> (#[trigger] closed@[j]) != goal,
            forall|j: int|
                0 <= j < closed@.len() ==> entry_idx(entries@, (#[trigger] closed@[j])) is Some,
            forall|j: int, q: GridPos|
                0 <= j < closed@.len() && #[trigger] valid_step(
                    m,
                    offsets,
                    climb,
                    drop,
                    closed@[j],
                    q,
                ) ==> entry_idx(entries@, q) is Some,
            forall|i: int|
                0 <= i < entries@.len() ==> closed@.contains((#[trigger] entries@[i]).pos)
                    || in_open(open@, entries@[i].pos),
            offsets == move_rule.offsets@,
            climb == move_rule.can_climb,
            drop == move_rule.can_drop,
        decreases fuel,
    {
        fuel = fuel - 1;
        // pop the earliest node among those with the lowest f-score
        let mut best: usize = 0;
        let mut k: usize = 1;
        while k < open.len()
            invariant
                open@.len() > 0,
                best < open@.len(),
                k <= open@.len(),
            decreases open@.len() - k,
        {
            if open[k].f < open[best].f {
                best = k;
            }
            k = k + 1;
        }
        let ghost pre_open = open@;
        let current_node = open.remove(best);
        let current = current_node.pos;
        proof {
            assert(pre_open[best as int].pos == current);
            assert(forall|j: int| 0 <= j < best as int ==> open@[j] == pre_open[j]);
            assert(forall|j: int|
                best as int <= j < open@.len() ==> open@[j] == pre_open[j + 1]);
            assert forall|p: GridPos| in_open(pre_open, p) && p != current implies in_open(
                open@,
                p,
            ) by {
                let w = choose|w: int| 0 <= w < pre_open.len() && pre_open[w].pos == p;
                if w < best as int {
                    assert(open@[w].pos == p);
                } else {
                    assert(w != best as int);
                    assert(open@[w - 1].pos == p);
                }
            }
        }

        if current == goal {
            let r = reconstruct_path(Ghost(m), Ghost(offsets), Ghost(climb), Ghost(drop), Ghost(
                start,
            ), &entries, goal);
            return r;
        }

        let el = entries.len();
        let gc = match find_entry(&entries, current) {
            Some(i) => entries[i].g,
            None => {
                proof {
                    lemma_entry_idx_props(entries@, current);
                    assert(false);
                }
                0
            },
        };
        proof {
            assert(gc < el);
        }
        let tentative = gc + 1;

        let neighbors = get_valid_neighbors(current, map, move_rule);
        let mut ni: usize = 0;
        while ni < neighbors.len()
            invariant
                entries_inv(m, offsets, climb, drop, start, entries@),
                entry_g_bounded(entries@),
                start_entry_root(entries@, start),
                entry_idx(entries@, start) is Some,
                forall|j: int|
                    0 <= j < open@.len() ==> entry_idx(entries@, (#[trigger] open@[j]).pos)
                        is Some,
                open@.len() <= entries@.len(),
                fuel as int == usize::MAX as int - (entries@.len() - open@.len()),
                forall|j: int|
                    0 <= j < closed@.len() ==> entry_idx(entries@, (#[trigger] closed@[j]))
                        is Some,
                forall|j: int, q: GridPos|
                    0 <= j < closed@.len() && #[trigger] valid_step(
                        m,
                        offsets,
                        climb,
                        drop,
                        closed@[j],
                        q,
                    ) ==> entry_idx(entries@, q) is Some,
                forall|i: int|
                    0 <= i < entries@.len() ==> closed@.contains((#[trigger] entries@[i]).pos)
                        || in_open(open@, entries@[i].pos) || entries@[i].pos == current,
                forall|j: int|
                    0 <= j < neighbors@.len() ==> valid_step(
                        m,
                        offsets,
                        climb,
                        drop,
                        current,
                        #[trigger] neighbors@[j],
                    ),
                ni <= neighbors@.len(),
                forall|w: int|
                    0 <= w < ni as int ==> entry_idx(
                        entries@,
                        #[trigger] neighbors@[w],
                    ) is Some,
                entry_idx(entries@, current) is Some,
                entries@[entry_idx(entries@, current)->Some_0].g <= tentative - 1,
                tentative >= 1,
                tentative <= entries@.len(),
            decreases neighbors@.len() - ni,
        {
            let neighbor = neighbors[ni];
            let mut in_closed = false;
            let mut ci: usize = 0;
            while ci < closed.len()
                invariant
                    ci <= closed@.len(),
                    in_closed ==> closed@.contains(neighbor),
                decreases closed@.len() - ci,
            {
                if closed[ci] == neighbor {
                    proof {
                        assert(closed@[ci as int] == neighbor);
                    }
                    in_closed = true;
                }
                ci = ci + 1;
            }
            if !in_closed {
                let ghost pre_entries = entries@;
                let ghost pre_open2 = open@;
                process_neighbor(
                    Ghost(m),
                    Ghost(offsets),
                    Ghost(climb),
                    Ghost(drop),
                    Ghost(start),
                    &mut entries,
                    &mut open,
                    move_rule,
                    current,
                    neighbor,
                    tentative,
                    goal,
                );
                proof {
                    assert forall|j: int|
                        0 <= j < closed@.len() implies entry_idx(
                        entries@,
                        (#[trigger] closed@[j]),
                    ) is Some by {
                        assert(entry_idx(pre_entries, closed@[j]) is Some);
                    }
                    assert forall|j: int, q: GridPos|
                        0 <= j < closed@.len() && #[trigger] valid_step(
                            m,
                            offsets,
                            climb,
                            drop,
                            closed@[j],
                            q,
                        ) implies entry_idx(entries@, q) is Some by {
                        assert(entry_idx(pre_entries, q) is Some);
                    }
                    assert forall|i2: int|
                        0 <= i2 < entries@.len() implies closed@.contains(
                        (#[trigger] entries@[i2]).pos,
                    ) || in_open(open@, entries@[i2].pos) || entries@[i2].pos == current by {
                        if i2 < pre_entries.len() {
                            assert(entries@[i2].pos == pre_entries[i2].pos);
                            if in_open(pre_open2, pre_entries[i2].pos) {
                                assert(in_open(open@, entries@[i2].pos));
                            }
                        } else {
                            assert(i2 == pre_entries.len());
                            assert(entries@[i2].pos == neighbor);
                            assert(in_open(open@, neighbor));
                        }
                    }
                    assert forall|w: int|
                        0 <= w < ni as int + 1 implies entry_idx(
                        entries@,
                        #[trigger] neighbors@[w],
                    ) is Some by {
                        if w < ni as int {
                            assert(entry_idx(pre_entries, neighbors@[w]) is Some);
                        } else {
                            assert(neighbors@[w] == neighbor);
                        }
                    }
                }
            } else {
                proof {
                    let w = choose|w: int|
                        0 <= w < closed@.len() && closed@[w] == neighbor;
                    assert(entry_idx(entries@, closed@[w]) is Some);
                    assert forall|w2: int|
                        0 <= w2 < ni as int + 1 implies entry_idx(
                        entries@,
                        #[trigger] neighbors@[w2],
                    ) is Some by {}
                }
            }
            ni = ni + 1;
        }
        let ghost pre_closed = closed@;
        closed.push(current);
        proof {
            assert(closed@ == pre_closed.push(current));
            assert(forall|j: int| 0 <= j < pre_closed.len() ==> closed@[j] == pre_closed[j]);
            assert(closed@[pre_closed.len() as int] == current);
            // the freshly closed node has all its successors recorded
            assert forall|j: int, q: GridPos|
                0 <= j < closed@.len() && #[trigger] valid_step(
                    m,
                    offsets,
                    climb,
                    drop,
                    closed@[j],
                    q,
                ) implies entry_idx(entries@, q) is Some by {
                if j == pre_closed.len() as int {
                    assert(valid_step(m, offsets, climb, drop, current, q));
                    let oi = choose|oi: int|
                        0 <= oi < offsets.len() && spec_neighbor(m, climb, drop, current, #[trigger] offsets[oi])
                            == Some(q);
                    assert(neighbors@.contains(q));
                    let w = choose|w: int| 0 <= w < neighbors@.len() && neighbors@[w] == q;
                    assert(entry_idx(entries@, neighbors@[w]) is Some);
                }
            }
            assert forall|i: int|
                0 <= i < entries@.len() implies closed@.contains((#[trigger] entries@[i]).pos)
                || in_open(open@, entries@[i].pos) by {
                if entries@[i].pos == current {
                    assert(closed@[pre_closed.len() as int] == entries@[i].pos);
                } else {
                    if pre_closed.contains(entries@[i].pos) {
                        let w = choose|w: int|
                            0 <= w < pre_closed.len() && pre_closed[w] == entries@[i].pos;
                        assert(closed@[w] == entries@[i].pos);
                    }
                }
            }
        }
    }
    proof {
        // the budget cannot be what ended the loop
        if open@.len() > 0 {
            assert(fuel == 0);
            assert(entries@.len() - open@.len() == usize::MAX as int);
            assert(false);
        }
        // every record is closed; the goal has no record, the start does
        assert forall|i: int|
            0 <= i < entries@.len() implies closed@.contains((#[trigger] entries@[i]).pos) by {
            assert(!in_open(open@, entries@[i].pos));
        }
        lemma_entry_idx_props(entries@, goal);
        if entry_idx(entries@, goal) is Some {
            let gi = entry_idx(entries@, goal)->Some_0;
            assert(closed@.contains(entries@[gi].pos));
            let w = choose|w: int| 0 <= w < closed@.len() && closed@[w] == goal;
            assert(false);
        }
        if start != goal {
            assert(closed@.contains(start)) by {
                lemma_entry_idx_props(entries@, start);
                let si = entry_idx(entries@, start)->Some_0;
                assert(closed@.contains(entries@[si].pos));
            }
            if exists|path: Seq<GridPos>|
                #[trigger] valid_path(m, offsets, climb, drop, start, goal, path) && path.len()
                    > 0 {
                let path = choose|path: Seq<GridPos>|
                    #[trigger] valid_path(m, offsets, climb, drop, start, goal, path)
                        && path.len() > 0;
                assert forall|j: int, q: GridPos|
                    0 <= j < closed@.len() && #[trigger] valid_step(
                        m,
                        offsets,
                        climb,
                        drop,
                        closed@[j],
                        q,
                    ) implies entry_idx(entries@, q) is Some by {}
                lemma_path_stays_in_closed(
                    m,
                    offsets,
                    climb,
                    drop,
                    entries@,
                    closed@,
                    start,
                    goal,
                    path,
                );
                let wg = choose|wg: int| 0 <= wg < closed@.len() && closed@[wg] == goal;
                assert(false);
            }
        }
    }
    Vec::new()
}

/// Appending any record keeps positions unique when its position is new, and
/// shifts no other record's lookup.
proof fn lemma_push_idx_map(pre: Seq<PathEntry>, ge: PathEntry, s: Seq<PathEntry>)
    requires
        entry_positions_unique(pre),
        entry_idx(pre, ge.pos) is None,
        s == pre.push(ge),
    ensures
        entry_positions_unique(s),
        forall|p2: GridPos|
            #[trigger] entry_idx(s, p2) == if p2 == ge.pos {
                Some(pre.len() as int)
            } else {
                entry_idx(pre, p2)
            },
{
    assert(forall|j: int| 0 <= j < pre.len() ==> s[j] == pre[j]);
    assert(s[pre.len() as int] == ge);
    assert forall|p2: GridPos|
        #[trigger] entry_idx(s, p2) == if p2 == ge.pos {
            Some(pre.len() as int)
        } else {
            entry_idx(pre, p2)
        } by {
        lemma_entry_idx_push(pre, ge, p2);
    }
    assert forall|j1: int, j2: int| 0 <= j1 < j2 < s.len() implies s[j1].pos != s[j2].pos by {
        if j2 == pre.len() as int {
            lemma_entry_idx_props(pre, s[j1].pos);
            if s[j1].pos == ge.pos {
                lemma_entry_idx_unique(pre, ge.pos, j1);
            }
        }
    }
}

/// The per-record invariant survives appending a fresh record one step past
/// `current`'s.
proof fn lemma_push_entries_wf(
    m: SpatialGrid,
    offsets: Seq<GridPos>,
    can_climb: bool,
    can_drop: bool,
    start: GridPos,
    pre: Seq<PathEntry>,
    s: Seq<PathEntry>,
    current: GridPos,
    neighbor: GridPos,
    tentative: u64,
    ci: int,
)
    requires
        entries_inv(m, offsets, can_climb, can_drop, start, pre),
        s == pre.push(PathEntry { pos: neighbor, prev: Some(current), g: tentative }),
        valid_step(m, offsets, can_climb, can_drop, current, neighbor),
        0 <= ci < pre.len(),
        pre[ci].pos == current,
        pre[ci].g < tentative,
    ensures
        forall|w: int|
            0 <= w < s.len() ==> match (#[trigger] s[w]).prev {
                Option::None => s[w].pos == start && s[w].g == 0,
                Option::Some(p) => valid_step(m, offsets, can_climb, can_drop, p, s[w].pos)
                    && exists|j: int|
                    0 <= j < s.len() && (#[trigger] s[j]).pos == p && s[j].g < s[w].g,
            },
{
    assert(forall|j: int| 0 <= j < pre.len() ==> s[j] == pre[j]);
    assert(s[pre.len() as int] == (PathEntry { pos: neighbor, prev: Some(current), g: tentative }));
    assert forall|w: int| 0 <= w < s.len() implies match (#[trigger] s[w]).prev {
        Option::None => s[w].pos == start && s[w].g == 0,
        Option::Some(p) => valid_step(m, offsets, can_climb, can_drop, p, s[w].pos) && exists|
            j: int,
        | 0 <= j < s.len() && (#[trigger] s[j]).pos == p && s[j].g < s[w].g,
    } by {
        if w == pre.len() as int {
            assert(s[ci].pos == current && s[ci].g < s[w].g);
        } else {
            match pre[w].prev {
                Option::None => (),
                Option::Some(p) => {
                    let j = choose|j: int|
                        0 <= j < pre.len() && (#[trigger] pre[j]).pos == p && pre[j].g
                            < pre[w].g;
                    assert(s[j].pos == p && s[j].g < s[w].g);
                },
            }
        }
    }
}

/// Appending a fresh record for `neighbor`, one step past `current`'s record,
/// keeps the planner's bookkeeping invariants.
proof fn lemma_record_push(
    m: SpatialGrid,
    offsets: Seq<GridPos>,
    can_climb: bool,
    can_drop: bool,
    start: GridPos,
    pre: Seq<PathEntry>,
    s: Seq<PathEntry>,
    current: GridPos,
    neighbor: GridPos,
    tentative: u64,
)
    requires
        entries_inv(m, offsets, can_climb, can_drop, start, pre),
        entry_g_bounded(pre),
        start_entry_root(pre, start),
        s == pre.push(PathEntry { pos: neighbor, prev: Some(current), g: tentative }),
        entry_idx(pre, neighbor) is None,
        entry_idx(pre, start) is Some,
        valid_step(m, offsets, can_climb, can_drop, current, neighbor),
        entry_idx(pre, current) is Some,
        pre[entry_idx(pre, current)->Some_0].g < tentative,
        tentative <= pre.len(),
    ensures
        entries_inv(m, offsets, can_climb, can_drop, start, s),
        entry_g_bounded(s),
        start_entry_root(s, start),
        forall|p2: GridPos|
            #[trigger] entry_idx(s, p2) == if p2 == neighbor {
                Some(pre.len() as int)
            } else {
                entry_idx(pre, p2)
            },
{
    let ge = PathEntry { pos: neighbor, prev: Some(current), g: tentative };
    lemma_push_idx_map(pre, ge, s);
    lemma_entry_idx_props(pre, current);
    assert(neighbor != start);
    lemma_push_entries_wf(
        m,
        offsets,
        can_climb,
        can_drop,
        start,
        pre,
        s,
        current,
        neighbor,
        tentative,
        entry_idx(pre, current)->Some_0,
    );
    assert(forall|j: int| 0 <= j < pre.len() ==> s[j] == pre[j]);
    assert(s[pre.len() as int] == ge);
}

/// Rerouting an existing record through `current` at a strictly smaller cost
/// keeps the planner's bookkeeping invariants.
#[verifier::rlimit(100)]
proof fn lemma_record_improve(
    m: SpatialGrid,
    offsets: Seq<GridPos>,
    can_climb: bool,
    can_drop: bool,
    start: GridPos,
    pre: Seq<PathEntry>,
    s: Seq<PathEntry>,
    i: int,
    current: GridPos,
    tentative: u64,
)
    requires
        entries_inv(m, offsets, can_climb, can_drop, start, pre),
        entry_g_bounded(pre),
        start_entry_root(pre, start),
        0 <= i < pre.len(),
        s == pre.update(i, PathEntry { pos: pre[i].pos, prev: Some(current), g: tentative }),
        tentative < pre[i].g,
        valid_step(m, offsets, can_climb, can_drop, current, pre[i].pos),
        entry_idx(pre, current) is Some,
        pre[entry_idx(pre, current)->Some_0].g < tentative,
    ensures
        entries_inv(m, offsets, can_climb, can_drop, start, s),
        entry_g_bounded(s),
        start_entry_root(s, start),
        forall|p2: GridPos| #[trigger] entry_idx(s, p2) == entry_idx(pre, p2),
{
    assert(forall|j: int| 0 <= j < s.len() ==> s[j].pos == pre[j].pos);
    assert forall|p2: GridPos| #[trigger] entry_idx(s, p2) == entry_idx(pre, p2) by {
        lemma_entry_idx_same_positions(s, pre, p2);
    }
    lemma_entry_idx_props(pre, current);
    let ci = entry_idx(pre, current)->Some_0;
    assert(ci != i);
    assert(s[ci].g < tentative);
    assert forall|w: int| 0 <= w < s.len() implies match (#[trigger] s[w]).prev {
        Option::None => s[w].pos == start && s[w].g == 0,
        Option::Some(p) => valid_step(m, offsets, can_climb, can_drop, p, s[w].pos) && exists|
            j: int,
        | 0 <= j < s.len() && (#[trigger] s[j]).pos == p && s[j].g < s[w].g,
    } by {
        if w == i {
            assert(s[ci].pos == current && s[ci].g < s[w].g);
        } else {
            match pre[w].prev {
                Option::None => (),
                Option::Some(p) => {
                    let j = choose|j: int|
                        0 <= j < pre.len() && (#[trigger] pre[j]).pos == p && pre[j].g
                            < pre[w].g;
                    if j == i {
                        assert(s[j].pos == p && s[j].g < s[w].g);
                    } else {
                        assert(s[j].pos == p && s[j].g < s[w].g);
                    }
                },
            }
        }
    }
    // the start's record keeps no predecessor: its cost is already zero
    assert forall|w: int| 0 <= w < s.len() && (#[trigger] s[w]).pos == start implies s[w].prev
        is None by {
        if w == i {
            assert(pre[w].pos == start && pre[w].prev is None);
            assert(pre[w].g == 0);
            assert(false);
        }
    }
}

/// Record or improve the cost of one neighbour and queue it for expansion.
/// Record or improve the cost of one neighbour and queue it for expansion.
#[verifier::rlimit(100)]
fn process_neighbor(
    Ghost(m): Ghost<SpatialGrid>,
    Ghost(offsets): Ghost<Seq<GridPos>>,
    Ghost(climb): Ghost<bool>,
    Ghost(drop): Ghost<bool>,
    Ghost(start): Ghost<GridPos>,
    entries: &mut Vec<PathEntry>,
    open: &mut Vec<OpenNode>,
    move_rule: &MoveRule,
    current: GridPos,
    neighbor: GridPos,
    tentative: u64,
    goal: GridPos,
)
    requires
        entries_inv(m, offsets, climb, drop, start, old(entries)@),
        entry_g_bounded(old(entries)@),
        start_entry_root(old(entries)@, start),
        entry_idx(old(entries)@, start) is Some,
        forall|j: int|
            0 <= j < old(open)@.len() ==> entry_idx(
                old(entries)@,
                (#[trigger] old(open)@[j]).pos,
            ) is Some,
        valid_step(m, offsets, climb, drop, current, neighbor),
        entry_idx(old(entries)@, current) is Some,
        old(entries)@[entry_idx(old(entries)@, current)->Some_0].g <= tentative - 1,
        tentative >= 1,
        tentative <= old(entries)@.len(),
    ensures
        entries_inv(m, offsets, climb, drop, start, final(entries)@),
        entry_g_bounded(final(entries)@),
        start_entry_root(final(entries)@, start),
        forall|j: int|
            0 <= j < final(open)@.len() ==> entry_idx(
                final(entries)@,
                (#[trigger] final(open)@[j]).pos,
            ) is Some,
        entry_idx(final(entries)@, current) is Some,
        final(entries)@[entry_idx(final(entries)@, current)->Some_0].g <= tentative - 1,
        // records only grow, and the frontier grows with them
        forall|p: GridPos|
            entry_idx(old(entries)@, p) is Some ==> #[trigger] entry_idx(
                final(entries)@,
                p,
            ) is Some,
        entry_idx(final(entries)@, neighbor) is Some,
        old(entries)@.len() <= final(entries)@.len() <= old(entries)@.len() + 1,
        final(open)@.len() - old(open)@.len() == final(entries)@.len() - old(entries)@.len(),
        forall|p: GridPos| in_open(old(open)@, p) ==> #[trigger] in_open(final(open)@, p),
        forall|i: int|
            0 <= i < old(entries)@.len() ==> (#[trigger] final(entries)@[i]).pos == old(
                entries,
            )@[i].pos,
        final(entries)@.len() == old(entries)@.len() + 1 ==> final(entries)@[old(
            entries,
        )@.len() as int].pos == neighbor && in_open(final(open)@, neighbor),
{
    proof {
        lemma_entry_idx_props(entries@, current);
    }
    match find_entry(entries, neighbor) {
        Some(i) => {
            proof {
                lemma_entry_idx_props(entries@, neighbor);
            }
            if tentative < entries[i].g {
                let ghost pre = entries@;
                let e = &mut entries[i];
                e.prev = Some(current);
                e.g = tentative;
                proof {
                    assert(entries@ == pre.update(
                        i as int,
                        PathEntry { pos: pre[i as int].pos, prev: Some(current), g: tentative },
                    ));
                    lemma_record_improve(
                        m,
                        offsets,
                        climb,
                        drop,
                        start,
                        pre,
                        entries@,
                        i as int,
                        current,
                        tentative,
                    );
                }
            }
        },
        None => {
            proof {
                lemma_entry_idx_props(entries@, neighbor);
            }
            let ghost pre = entries@;
            let ghost pre_open = open@;
            let e = PathEntry { pos: neighbor, prev: Some(current), g: tentative };
            entries.push(e);
            let h = eval_heuristic(move_rule.heuristic, neighbor, goal);
            let node = OpenNode { pos: neighbor, f: tentative.saturating_add(h) };
            let ghost gn = node;
            open.push(node);
            proof {
                assert(entries@ == pre.push(
                    PathEntry { pos: neighbor, prev: Some(current), g: tentative },
                ));
                lemma_record_push(
                    m,
                    offsets,
                    climb,
                    drop,
                    start,
                    pre,
                    entries@,
                    current,
                    neighbor,
                    tentative,
                );
                assert(open@ == pre_open.push(gn));
                assert(forall|j: int| 0 <= j < pre_open.len() ==> open@[j] == pre_open[j]);
                assert(open@[pre_open.len() as int].pos == neighbor);
                assert(in_open(open@, neighbor));
                assert forall|p: GridPos| in_open(pre_open, p) implies #[trigger] in_open(
                    open@,
                    p,
                ) by {
                    let w = choose|w: int| 0 <= w < pre_open.len() && pre_open[w].pos == p;
                    assert(open@[w].pos == p);
                }
            }
        },
    }
}

fn find_entry(entries: &Vec<PathEntry>, p: GridPos) -> (r: Option<usize>)
    requires
        entry_positions_unique(entries@),
    ensures
        match r {
            Some(i) => (i as int) < entries@.len() && entry_idx(entries@, p) == Some(i as int)
                && entries@[i as int].pos == p,
            None => entry_idx(entries@, p) is None,
        },
{
    let n = entries.len();
    let mut i: usize = 0;
    while i < n
        invariant
            i <= n,
            n == entries@.len(),
            forall|j: int| 0 <= j < i as int ==> (#[trigger] entries@[j]).pos != p,
            entry_positions_unique(entries@),
        decreases n - i,
    {
        if entries[i].pos == p {
            proof {
                lemma_entry_idx_unique(entries@, p, i as int);
            }
            return Some(i);
        }
        i = i + 1;
    }
    proof {
        lemma_entry_idx_props(entries@, p);
    }
    None
}

/// Follow the predecessor records back from `goal` and return the ordered
/// path from the step after the start up to `goal`; empty exactly when the
/// goal is the start itself.
fn reconstruct_path(
    Ghost(m): Ghost<SpatialGrid>,
    Ghost(offsets): Ghost<Seq<GridPos>>,
    Ghost(climb): Ghost<bool>,
    Ghost(drop): Ghost<bool>,
    Ghost(start): Ghost<GridPos>,
    entries: &Vec<PathEntry>,
    goal: GridPos,
) -> (r: Vec<GridPos>)
    requires
        entries_inv(m, offsets, climb, drop, start, entries@),
        start_entry_root(entries@, start),
        entry_idx(entries@, goal) is Some,
    ensures
        valid_path(m, offsets, climb, drop, start, goal, r@),
        (r@.len() == 0) == (goal == start),
{
    let mut rev: Vec<GridPos> = Vec::new();
    let mut cur = goal;
    proof {
        lemma_entry_idx_props(entries@, goal);
    }
    loop
        invariant
            entries_inv(m, offsets, climb, drop, start, entries@),
            start_entry_root(entries@, start),
            entry_idx(entries@, cur) is Some,
            rev@.len() > 0 ==> rev@[0] == goal,
            rev@.len() > 0 ==> valid_step(m, offsets, climb, drop, cur, rev@.last()),
            forall|i: int|
                0 <= i < rev@.len() - 1 ==> valid_step(
                    m,
                    offsets,
                    climb,
                    drop,
                    #[trigger] rev@[i + 1],
                    rev@[i],
                ),
            rev@.len() == 0 ==> cur == goal,
            start == goal ==> rev@.len() == 0,
        ensures
            cur == start,
            rev@.len() > 0 ==> rev@[0] == goal,
            rev@.len() > 0 ==> valid_step(m, offsets, climb, drop, start, rev@.last()),
            forall|i: int|
                0 <= i < rev@.len() - 1 ==> valid_step(
                    m,
                    offsets,
                    climb,
                    drop,
                    #[trigger] rev@[i + 1],
                    rev@[i],
                ),
            rev@.len() == 0 ==> start == goal,
            start == goal ==> rev@.len() == 0,
        decreases entries@[entry_idx(entries@, cur)->Some_0].g,
    {
        let i = match find_entry(entries, cur) {
            Some(i) => i,
            None => {
                proof {
                    assert(false);
                }
                0
            },
        };
        match entries[i].prev {
            Some(p) => {
                let ghost pre = rev@;
                rev.push(cur);
                proof {
                    assert(rev@ == pre.push(cur));
                    assert(forall|w: int| 0 <= w < pre.len() ==> rev@[w] == pre[w]);
                    assert(rev@.last() == cur);
                    // the predecessor is recorded with strictly smaller cost
                    let w = choose|w: int|
                        0 <= w < entries@.len() && (#[trigger] entries@[w]).pos == p
                            && entries@[w].g < entries@[i as int].g;
                    lemma_entry_idx_unique(entries@, p, w);
                    assert(valid_step(m, offsets, climb, drop, p, cur));
                    if pre.len() > 0 {
                        assert(rev@[pre.len() as int - 1] == pre.last());
                    }
                    // the chain never revisits the start mid-way: the start's
                    // record has no predecessor
                    assert(cur != start);
                }
                cur = p;
            },
            None => {
                proof {
                    assert(entries@[i as int].pos == start && cur == start);
                }
                break ;
            },
        }
    }
    proof {
        assert(cur == start);
    }
    let n = rev.len();
    let mut path: Vec<GridPos> = Vec::new();
    let mut k: usize = 0;
    while k < n
        invariant
            n == rev@.len(),
            k <= n,
            path@.len() == k as int,
            forall|w: int| 0 <= w < k as int ==> path@[w] == rev@[n - 1 - w],
        decreases n - k,
    {
        path.push(rev[n - 1 - k]);
        k = k + 1;
    }
    proof {
        if path@.len() > 0 {
            assert(path@[0] == rev@[n - 1]);
            assert(rev@.last() == rev@[n - 1]);
            assert(valid_step(m, offsets, climb, drop, start, path@[0]));
            assert(path@.last() == rev@[0]);
            assert(rev@[0] == goal);
            assert forall|i: int|
                0 <= i < path@.len() - 1 implies valid_step(
                m,
                offsets,
                climb,
                drop,
                path@[i],
                #[trigger] path@[i + 1],
            ) by {
                let ri = n - 1 - i;
                assert(path@[i] == rev@[ri]);
                assert(path@[i + 1] == rev@[ri - 1]);
                assert(valid_step(m, offsets, climb, drop, rev@[ri - 1 + 1], rev@[ri - 1]));
            }
        }
    }
    path
}

/// A heuristic is step-admissible for a rule when no legal step lowers the
/// estimated distance to the goal by more than one.
pub open spec fn step_admissible(
    m: SpatialGrid,
    offsets: Seq<GridPos>,
    can_climb: bool,
    can_drop: bool,
    h: Heuristic,
    goal: GridPos,
) -> bool {
    forall|p: GridPos, q: GridPos|
        #[trigger] valid_step(m, offsets, can_climb, can_drop, p, q) ==> spec_heuristic(h, p, goal)
            <= spec_heuristic(h, q, goal) + 1
}

/// Law: with a step-admissible heuristic, any legal rule-path from `start` to
/// `goal` is at least as long as the heuristic's estimate between them — in
/// particular every path the planner returns is.
pub proof fn lemma_path_length_at_least_heuristic(
    m: SpatialGrid,
    offsets: Seq<GridPos>,
    can_climb: bool,
    can_drop: bool,
    h: Heuristic,
    start: GridPos,
    goal: GridPos,
    path: Seq<GridPos>,
)
    requires
        valid_path(m, offsets, can_climb, can_drop, start, goal, path),
        step_admissible(m, offsets, can_climb, can_drop, h, goal),
        path.len() > 0,
    ensures
        path.len() >= spec_heuristic(h, start, goal),
    decreases path.len(),
{
    if path.len() == 1 {
        assert(path[0] == goal);
        assert(spec_heuristic(h, goal, goal) == 0);
        assert(spec_heuristic(h, start, goal) <= 1);
    } else {
        let tail = path.subrange(1, path.len() as int);
        assert(tail[0] == path[1]);
        assert(tail.last() == path.last());
        assert forall|i: int|
            0 <= i < tail.len() - 1 implies valid_step(
            m,
            offsets,
            can_climb,
            can_drop,
            tail[i],
            #[trigger] tail[i + 1],
        ) by {
            assert(tail[i] == path[i + 1]);
            assert(tail[i + 1] == path[i + 2]);
            assert(valid_step(m, offsets, can_climb, can_drop, path[i + 1], path[i + 1 + 1]));
        }
        assert(valid_step(m, offsets, can_climb, can_drop, path[0int], path[0int + 1]));
        lemma_path_length_at_least_heuristic(
            m,
            offsets,
            can_climb,
            can_drop,
            h,
            path[0],
            goal,
            tail,
        );
        assert(spec_heuristic(h, start, goal) <= spec_heuristic(h, path[0], goal) + 1);
    }
}

/// The Manhattan and Chebyshev estimates are step-admissible for any rule
/// whose offsets are single cells and that neither climbs nor drops: one such
/// step changes each estimate by at most one.
pub proof fn lemma_unit_steps_admissible(
    m: SpatialGrid,
    offsets: Seq<GridPos>,
    h: Heuristic,
    goal: GridPos,
)
    requires
        forall|i: int|
            0 <= i < offsets.len() ==> crate::movement::abs_diff((#[trigger] offsets[i]).x as int, 0)
                + crate::movement::abs_diff(offsets[i].y as int, 0) + crate::movement::abs_diff(
                offsets[i].z as int,
                0,
            ) <= 1,
        h is Manhattan || h is Chebyshev,
    ensures
        step_admissible(m, offsets, false, false, h, goal),
{
    assert forall|p: GridPos, q: GridPos|
        #[trigger] valid_step(m, offsets, false, false, p, q) implies spec_heuristic(h, p, goal)
        <= spec_heuristic(h, q, goal) + 1 by {
        let i = choose|i: int|
            0 <= i < offsets.len() && spec_neighbor(m, false, false, p, #[trigger] offsets[i])
                == Some(q);
        let o = offsets[i];
        assert(q.x == p.x as int + o.x as int && q.y == p.y as int + o.y as int && q.z == p.z as int
            + o.z as int);
    }
}

} // verus!
