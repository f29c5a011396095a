//! Attack identities, the attack catalogue, cooldown gating and the transient
//! attack-instance state machine.

use vstd::prelude::*;
use crate::pos::GridPos;
use crate::kv::{KeyedVec, pair_keys_unique};
use crate::timer::Timer;
use crate::tile::EntityId;
use crate::grid::SpatialGrid;

verus! {

/// The stable numeric identity of an attack type, shared by client and
/// server builds.
pub type AttackId = u64;

/// What the 64-bit digest of an attack's logical name is. The digest is fixed
/// by the name alone, so both sides of a connection derive the same id.
pub uninterp spec fn attack_key_of(name: Seq<char>) -> u64;

/// Relies on `twox_hash::XxHash64::oneshot` with seed 0: the digest is a pure
/// function of the input bytes, and so of the name's characters.
#[verifier::external_body]
fn hash_attack_name(name: &str) -> (r: u64)
    ensures
        r == attack_key_of(name@),
{
    twox_hash::XxHash64::oneshot(0, name.as_bytes())
}

/// The unique key of an attack, derived deterministically from its logical
/// name.
pub fn key_of(name: &str) -> (r: AttackId)
    ensures
        r == attack_key_of(name@),
{
    hash_attack_name(name)
}

/// The immutable description of an attack type, registered once at startup.
pub struct AttackSpec {
    /// Target directions the attack may be aimed at.
    pub offsets: Vec<GridPos>,
    /// Cooldown between casts, in milliseconds.
    pub cooldown_ms: u64,
    pub damage: u64,
}

/// The static table from attack id to its description.
pub type AttackCatalogue = KeyedVec<AttackSpec>;

/// Per-actor map from attack id to its remaining-cooldown timer.
pub type AttackCooldowns = KeyedVec<Timer>;

/// Per-actor map from attack id to the entity of its active instance.
pub type ActiveSkills = KeyedVec<EntityId>;

/// Advance every cooldown timer of an actor by the tick's delta.
pub fn tick_attack_cooldowns(cooldowns: &mut AttackCooldowns, delta_ms: u64)
    requires
        old(cooldowns).wf(),
    ensures
        final(cooldowns).wf(),
        forall|k: u64| #[trigger]
            final(cooldowns).spec_has(k) == old(cooldowns).spec_has(k),
        forall|k: u64|
            old(cooldowns).spec_has(k) ==> {
                let t0 = old(cooldowns).spec_get(k);
                let t1 = #[trigger] final(cooldowns).spec_get(k);
                &&& t1.spec_duration() == t0.spec_duration()
                &&& t1.spec_elapsed() == if t0.spec_elapsed() + delta_ms <= t0.spec_duration() {
                    t0.spec_elapsed() + delta_ms
                } else {
                    t0.spec_duration() as int
                }
            },
{
    let n = cooldowns.len();
    let mut i: usize = 0;
    while i < n
        invariant
            n == cooldowns.entries().len(),
            old(cooldowns).entries().len() == n,
            i <= n,
            forall|j: int|
                0 <= j < n ==> (#[trigger] cooldowns.entries()[j]).key == old(
                    cooldowns,
                ).entries()[j].key,
            forall|j: int|
                i as int <= j < n ==> (#[trigger] cooldowns.entries()[j]).val == old(
                    cooldowns,
                ).entries()[j].val,
            forall|j: int|
                0 <= j < i as int ==> {
                    let t0 = old(cooldowns).entries()[j].val;
                    let t1 = (#[trigger] cooldowns.entries()[j]).val;
                    &&& t1.spec_duration() == t0.spec_duration()
                    &&& t1.spec_elapsed() == if t0.spec_elapsed() + delta_ms
                        <= t0.spec_duration() {
                        t0.spec_elapsed() + delta_ms
                    } else {
                        t0.spec_duration() as int
                    }
                },
        decreases n - i,
    {
        let t = cooldowns.val_mut_at(i);
        t.tick(delta_ms);
        i = i + 1;
    }
    proof {
        assert(pair_keys_unique(cooldowns.entries())) by {
            assert forall|j1: int, j2: int|
                0 <= j1 < j2 < cooldowns.entries().len() implies cooldowns.entries()[j1].key
                != cooldowns.entries()[j2].key by {
                assert(old(cooldowns).entries()[j1].key != old(cooldowns).entries()[j2].key);
            }
        }
        assert forall|k: u64| #[trigger]
            cooldowns.spec_has(k) == old(cooldowns).spec_has(k) by {
            crate::kv::lemma_pair_idx_same_keys(
                cooldowns.entries(),
                old(cooldowns).entries(),
                k,
            );
        }
        assert forall|k: u64| old(cooldowns).spec_has(k) implies {
            let t0 = old(cooldowns).spec_get(k);
            let t1 = #[trigger] cooldowns.spec_get(k);
            &&& t1.spec_duration() == t0.spec_duration()
            &&& t1.spec_elapsed() == if t0.spec_elapsed() + delta_ms <= t0.spec_duration() {
                t0.spec_elapsed() + delta_ms
            } else {
                t0.spec_duration() as int
            }
        } by {
            crate::kv::lemma_pair_idx_same_keys(
                cooldowns.entries(),
                old(cooldowns).entries(),
                k,
            );
            crate::kv::lemma_pair_idx_props(old(cooldowns).entries(), k);
        }
    }
}

/// The answer of the cast gate.
#[derive(Clone, Copy, PartialEq, Eq, Structural, Debug)]
pub enum CastOutcome {
    /// The cast went through; the cooldown has been restarted.
    Cast,
    /// Rejected: the attack's previous cooldown has not elapsed yet.
    OnCooldown,
    /// Rejected: no such attack is registered; the request is a no-op.
    UnknownAttack,
}

/// Gate a cast request: a cast goes through exactly when the attack is
/// registered and no unfinished cooldown for it is pending; a successful cast
/// restarts the attack's cooldown at the catalogued duration.
pub fn try_cast(cooldowns: &mut AttackCooldowns, catalogue: &AttackCatalogue, attack_id: AttackId)
    -> (r: CastOutcome)
    requires
        old(cooldowns).wf(),
        catalogue.wf(),
    ensures
        final(cooldowns).wf(),
        (r is UnknownAttack) == !catalogue.spec_has(attack_id),
        (r is OnCooldown) == (catalogue.spec_has(attack_id) && old(cooldowns).spec_has(attack_id)
            && !old(cooldowns).spec_get(attack_id).spec_finished()),
        (r is Cast) == (catalogue.spec_has(attack_id) && (!old(cooldowns).spec_has(attack_id)
            || old(cooldowns).spec_get(attack_id).spec_finished())),
        r is Cast ==> final(cooldowns).spec_has(attack_id) && final(cooldowns).spec_get(
            attack_id,
        ).spec_elapsed() == 0 && final(cooldowns).spec_get(attack_id).spec_duration()
            == catalogue.spec_get(attack_id).cooldown_ms,
        !(r is Cast) ==> *final(cooldowns) == *old(cooldowns),
        forall|k: u64|
            k != attack_id ==> (#[trigger] final(cooldowns).spec_has(k) == old(
                cooldowns,
            ).spec_has(k) && (old(cooldowns).spec_has(k) ==> final(cooldowns).spec_get(k) == old(
                cooldowns,
            ).spec_get(k))),
{
    let spec_entry = match catalogue.get(attack_id) {
        Some(s) => s,
        None => {
            return CastOutcome::UnknownAttack;
        },
    };
    match cooldowns.get(attack_id) {
        Some(t) => {
            if !t.finished() {
                return CastOutcome::OnCooldown;
            }
        },
        None => (),
    }
    cooldowns.set(attack_id, Timer::new(spec_entry.cooldown_ms));
    CastOutcome::Cast
}

/// Law: a successful cast leaves the attack's cooldown unelapsed, so until
/// the full cooldown has passed the timer is unfinished and `try_cast`'s
/// contract rejects a second cast of the same attack with `OnCooldown`.
pub proof fn lemma_second_cast_rejected(
    after_cast: AttackCooldowns,
    ticked: AttackCooldowns,
    attack_id: AttackId,
    cooldown_ms: u64,
    delta_ms: u64,
)
    requires
        after_cast.spec_has(attack_id),
        after_cast.spec_get(attack_id).spec_elapsed() == 0,
        after_cast.spec_get(attack_id).spec_duration() == cooldown_ms,
        // `ticked` is the tracker after cooldown ticks worth `delta_ms` in all
        ticked.spec_has(attack_id),
        ticked.spec_get(attack_id).spec_duration() == cooldown_ms,
        ticked.spec_get(attack_id).spec_elapsed() <= delta_ms,
        delta_ms < cooldown_ms,
    ensures
        !ticked.spec_get(attack_id).spec_finished(),
{
}

/// The phase timing of an active cast: how it fires and when it ends.
#[derive(Clone, Copy, PartialEq, Eq, Structural, Debug)]
pub enum AttackKind {
    /// A swing that lands a hit one cell along its direction.
    Melee,
    /// A throw that releases a projectile along its direction.
    Ranged,
    /// A dash that damages every occupant along its direction and moves the
    /// attacker past them.
    Dash,
    /// A counter stance: while active the owner negates one incoming hit.
    Counter,
}

/// One active cast: the transient state that lives from the cast until the
/// phase timer completes or the instance is interrupted.
pub struct AttackInstance {
    pub attack_id: AttackId,
    pub kind: AttackKind,
    pub direction: GridPos,
    pub timer: Timer,
    /// Set once the instance's single hit has been released.
    pub hit_applied: bool,
    pub interruptible: bool,
    pub damage: u64,
}

impl AttackInstance {
    pub fn new(
        attack_id: AttackId,
        kind: AttackKind,
        direction: GridPos,
        duration_ms: u64,
        interruptible: bool,
        damage: u64,
    ) -> (r: AttackInstance)
        ensures
            r.attack_id == attack_id,
            r.kind == kind,
            r.direction == direction,
            r.timer.spec_elapsed() == 0,
            r.timer.spec_duration() == duration_ms,
            !r.hit_applied,
            r.interruptible == interruptible,
            r.damage == damage,
    {
        AttackInstance {
            attack_id,
            kind,
            direction,
            timer: Timer::new(duration_ms),
            hit_applied: false,
            interruptible,
            damage,
        }
    }

    /// Advance the phase timer by the tick's delta. `fires` is true exactly
    /// when the timer crossed the midpoint of the phase and the hit has not
    /// been released before: over the instance's whole life the hit fires
    /// exactly once. `finished` reports that the instance is done and must
    /// despawn, returning its owner to `Idle`.
    pub fn tick(&mut self, delta_ms: u64) -> (r: (bool, bool))
        ensures
            final(self).attack_id == old(self).attack_id,
            final(self).kind == old(self).kind,
            final(self).direction == old(self).direction,
            final(self).interruptible == old(self).interruptible,
            final(self).damage == old(self).damage,
            final(self).timer.spec_duration() == old(self).timer.spec_duration(),
            final(self).timer.spec_elapsed() == if old(self).timer.spec_elapsed() + delta_ms
                <= old(self).timer.spec_duration() {
                old(self).timer.spec_elapsed() + delta_ms
            } else {
                old(self).timer.spec_duration() as int
            },
            r.0 == (!old(self).hit_applied && final(self).timer.spec_past_midpoint()),
            final(self).hit_applied == (old(self).hit_applied || r.0),
            r.1 == final(self).timer.spec_finished(),
    {
        self.timer.tick(delta_ms);
        let fires = !self.hit_applied && self.timer.past_midpoint();
        if fires {
            self.hit_applied = true;
        }
        let finished = self.timer.finished();
        (fires, finished)
    }

    /// The interrupt rule: an interruptible instance is force-despawned the
    /// tick its owner is stunned.
    pub fn should_interrupt(&self, owner_stunned: bool) -> (r: bool)
        ensures
            r == (self.interruptible && owner_stunned),
    {
        self.interruptible && owner_stunned
    }
}

/// A decreasing bound on how many cells a ray can still cross before leaving
/// the representable world along its first moving axis.
pub open spec fn ray_fuel(p: GridPos, dir: GridPos) -> int {
    if dir.x > 0 {
        i32::MAX - p.x
    } else if dir.x < 0 {
        p.x - i32::MIN
    } else if dir.y > 0 {
        i32::MAX - p.y
    } else if dir.y < 0 {
        p.y - i32::MIN
    } else if dir.z > 0 {
        i32::MAX - p.z
    } else {
        p.z - i32::MIN
    }
}

/// Walk from `start` along `dir` and collect the unbroken run of cells that
/// hold a target (each is hit in order); the attacker lands one cell past the
/// run when that cell is walkable.
pub fn cut_through_ray(map: &SpatialGrid, start: GridPos, dir: GridPos) -> (r: (
    Vec<GridPos>,
    Option<GridPos>,
))
    requires
        map.wf(),
        !(dir.x == 0 && dir.y == 0 && dir.z == 0),
    ensures
        forall|j: int|
            0 <= j < r.0@.len() ==> crate::grid::SpatialGrid::spec_get_target(
                *map,
                #[trigger] r.0@[j],
            ) is Some,
        r.0@.len() > 0 ==> r.0@[0].x == start.x as int + dir.x as int && r.0@[0].y
            == start.y as int + dir.y as int && r.0@[0].z == start.z as int + dir.z as int,
        forall|j: int|
            0 <= j < r.0@.len() - 1 ==> (#[trigger] r.0@[j + 1]).x == r.0@[j].x as int
                + dir.x as int && r.0@[j + 1].y == r.0@[j].y as int + dir.y as int && r.0@[j
                + 1].z == r.0@[j].z as int + dir.z as int,
        match r.1 {
            Some(p) => {
                &&& map.spec_can_move(p)
                &&& map.spec_get_target(p) is None
                &&& if r.0@.len() == 0 {
                    p.x == start.x as int + dir.x as int && p.y == start.y as int + dir.y as int
                        && p.z == start.z as int + dir.z as int
                } else {
                    p.x == r.0@.last().x as int + dir.x as int && p.y == r.0@.last().y as int
                        + dir.y as int && p.z == r.0@.last().z as int + dir.z as int
                }
            },
            // there is no landing only when the cell past the run leaves the
            // representable world or is not walkable
            None => ({
                let ex = if r.0@.len() == 0 {
                    start.x as int + dir.x as int
                } else {
                    r.0@.last().x as int + dir.x as int
                };
                let ey = if r.0@.len() == 0 {
                    start.y as int + dir.y as int
                } else {
                    r.0@.last().y as int + dir.y as int
                };
                let ez = if r.0@.len() == 0 {
                    start.z as int + dir.z as int
                } else {
                    r.0@.last().z as int + dir.z as int
                };
                i32::MIN <= ex <= i32::MAX && i32::MIN <= ey <= i32::MAX && i32::MIN <= ez
                    <= i32::MAX ==> {
                    let past = GridPos { x: ex as i32, y: ey as i32, z: ez as i32 };
                    &&& map.spec_get_target(past) is None
                    &&& !map.spec_can_move(past)
                }
            }),
        },
{
    let mut hits: Vec<GridPos> = Vec::new();
    let mut pos = match start.checked_add(dir) {
        Some(p) => p,
        None => {
            return (hits, None);
        },
    };
    loop
        invariant
            map.wf(),
            !(dir.x == 0 && dir.y == 0 && dir.z == 0),
            forall|j: int|
                0 <= j < hits@.len() ==> crate::grid::SpatialGrid::spec_get_target(
                    *map,
                    #[trigger] hits@[j],
                ) is Some,
            hits@.len() > 0 ==> hits@[0].x == start.x as int + dir.x as int && hits@[0].y
                == start.y as int + dir.y as int && hits@[0].z == start.z as int + dir.z as int,
            forall|j: int|
                0 <= j < hits@.len() - 1 ==> (#[trigger] hits@[j + 1]).x == hits@[j].x as int
                    + dir.x as int && hits@[j + 1].y == hits@[j].y as int + dir.y as int
                    && hits@[j + 1].z == hits@[j].z as int + dir.z as int,
            if hits@.len() == 0 {
                pos.x == start.x as int + dir.x as int && pos.y == start.y as int + dir.y as int
                    && pos.z == start.z as int + dir.z as int
            } else {
                pos.x == hits@.last().x as int + dir.x as int && pos.y == hits@.last().y as int
                    + dir.y as int && pos.z == hits@.last().z as int + dir.z as int
            },
        ensures
            map.spec_get_target(pos) is None,
            forall|j: int|
                0 <= j < hits@.len() ==> crate::grid::SpatialGrid::spec_get_target(
                    *map,
                    #[trigger] hits@[j],
                ) is Some,
            hits@.len() > 0 ==> hits@[0].x == start.x as int + dir.x as int && hits@[0].y
                == start.y as int + dir.y as int && hits@[0].z == start.z as int + dir.z as int,
            forall|j: int|
                0 <= j < hits@.len() - 1 ==> (#[trigger] hits@[j + 1]).x == hits@[j].x as int
                    + dir.x as int && hits@[j + 1].y == hits@[j].y as int + dir.y as int
                    && hits@[j + 1].z == hits@[j].z as int + dir.z as int,
            if hits@.len() == 0 {
                pos.x == start.x as int + dir.x as int && pos.y == start.y as int + dir.y as int
                    && pos.z == start.z as int + dir.z as int
            } else {
                pos.x == hits@.last().x as int + dir.x as int && pos.y == hits@.last().y as int
                    + dir.y as int && pos.z == hits@.last().z as int + dir.z as int
            },
        decreases ray_fuel(pos, dir),
    {
        match map.get_target(pos) {
            Some(_) => {
                let ghost pre = hits@;
                hits.push(pos);
                proof {
                    assert(hits@ == pre.push(pos));
                    assert(forall|j: int| 0 <= j < pre.len() ==> hits@[j] == pre[j]);
                    assert(hits@.last() == pos);
                }
                match pos.checked_add(dir) {
                    Some(next) => {
                        pos = next;
                    },
                    None => {
                        return (hits, None);
                    },
                }
            },
            None => {
                break ;
            },
        }
    }
    if map.can_move(pos) {
        (hits, Some(pos))
    } else {
        (hits, None)
    }
}

/// A freshly registered catalogue of the stock attacks: the basic swing, the
/// counter stance, the dash and the dagger throw, each under the id derived
/// from its logical name, with its aim offsets, cooldown and damage. A later
/// registration overwrites an earlier one whose name digest collides, so each
/// entry's values are stated under the (always observed) distinctness of its
/// key from the keys registered after it.
pub fn register_standard_attacks(catalogue: &mut AttackCatalogue)
    requires
        old(catalogue).wf(),
    ensures
        final(catalogue).wf(),
        final(catalogue).spec_has(attack_key_of("base_attack"@)),
        final(catalogue).spec_has(attack_key_of("counter"@)),
        final(catalogue).spec_has(attack_key_of("cut_through"@)),
        final(catalogue).spec_has(attack_key_of("dagger_throw"@)),
        ({
            let s = final(catalogue).spec_get(attack_key_of("dagger_throw"@));
            s.cooldown_ms == 800 && s.damage == 8 && s.offsets@
                =~= crate::movement::standard_offsets_spec()
        }),
        attack_key_of("cut_through"@) != attack_key_of("dagger_throw"@) ==> ({
            let s = final(catalogue).spec_get(attack_key_of("cut_through"@));
            s.cooldown_ms == 6000 && s.damage == 20 && s.offsets@
                =~= crate::movement::standard_offsets_spec()
        }),
        attack_key_of("counter"@) != attack_key_of("cut_through"@) && attack_key_of("counter"@)
            != attack_key_of("dagger_throw"@) ==> ({
            let s = final(catalogue).spec_get(attack_key_of("counter"@));
            s.cooldown_ms == 6000 && s.damage == 10 && s.offsets@
                =~= crate::movement::standard_offsets_spec()
        }),
        attack_key_of("base_attack"@) != attack_key_of("counter"@) && attack_key_of(
            "base_attack"@,
        ) != attack_key_of("cut_through"@) && attack_key_of("base_attack"@) != attack_key_of(
            "dagger_throw"@,
        ) ==> ({
            let s = final(catalogue).spec_get(attack_key_of("base_attack"@));
            s.cooldown_ms == 400 && s.damage == 10 && s.offsets@
                =~= crate::movement::standard_offsets_spec()
        }),
        forall|k: u64|
            k != attack_key_of("base_attack"@) && k != attack_key_of("counter"@) && k
                != attack_key_of("cut_through"@) && k != attack_key_of("dagger_throw"@) ==> (
            #[trigger] final(catalogue).spec_has(k) == old(catalogue).spec_has(k) && (old(
                catalogue,
            ).spec_has(k) ==> final(catalogue).spec_get(k) == old(catalogue).spec_get(k))),
{
    let base = AttackSpec {
        offsets: crate::movement::standard_offsets(),
        cooldown_ms: 400,
        damage: 10,
    };
    catalogue.set(key_of("base_attack"), base);
    let ghost g1 = *catalogue;
    let counter = AttackSpec {
        offsets: crate::movement::standard_offsets(),
        cooldown_ms: 6000,
        damage: 10,
    };
    catalogue.set(key_of("counter"), counter);
    let ghost g2 = *catalogue;
    let cut = AttackSpec {
        offsets: crate::movement::standard_offsets(),
        cooldown_ms: 6000,
        damage: 20,
    };
    catalogue.set(key_of("cut_through"), cut);
    let ghost g3 = *catalogue;
    let dagger = AttackSpec {
        offsets: crate::movement::standard_offsets(),
        cooldown_ms: 800,
        damage: 8,
    };
    catalogue.set(key_of("dagger_throw"), dagger);
    proof {
        let bk = attack_key_of("base_attack"@);
        let ck = attack_key_of("counter"@);
        let tk = attack_key_of("cut_through"@);
        let dk = attack_key_of("dagger_throw"@);
        if tk != dk {
            assert(catalogue.spec_has(tk) == g3.spec_has(tk));
            assert(catalogue.spec_get(tk) == g3.spec_get(tk));
        }
        if ck != tk && ck != dk {
            assert(g3.spec_has(ck) == g2.spec_has(ck));
            assert(g3.spec_get(ck) == g2.spec_get(ck));
            assert(catalogue.spec_has(ck) == g3.spec_has(ck));
            assert(catalogue.spec_get(ck) == g3.spec_get(ck));
        }
        if bk != ck && bk != tk && bk != dk {
            assert(g2.spec_has(bk) == g1.spec_has(bk));
            assert(g2.spec_get(bk) == g1.spec_get(bk));
            assert(g3.spec_has(bk) == g2.spec_has(bk));
            assert(g3.spec_get(bk) == g2.spec_get(bk));
            assert(catalogue.spec_has(bk) == g3.spec_has(bk));
            assert(catalogue.spec_get(bk) == g3.spec_get(bk));
        }
        assert forall|k: u64| k != bk && k != ck && k != tk && k != dk implies (
        #[trigger] catalogue.spec_has(k) == old(catalogue).spec_has(k) && (old(
            catalogue,
        ).spec_has(k) ==> catalogue.spec_get(k) == old(catalogue).spec_get(k))) by {
            assert(g1.spec_has(k) == old(catalogue).spec_has(k));
            assert(g2.spec_has(k) == g1.spec_has(k));
            assert(g3.spec_has(k) == g2.spec_has(k));
            assert(catalogue.spec_has(k) == g3.spec_has(k));
            if old(catalogue).spec_has(k) {
                assert(g1.spec_get(k) == old(catalogue).spec_get(k));
                assert(g2.spec_get(k) == g1.spec_get(k));
                assert(g3.spec_get(k) == g2.spec_get(k));
                assert(catalogue.spec_get(k) == g3.spec_get(k));
            }
        }
    }
}

/// The explicit dispatch table replacing type-erased attack spawning: build
/// the transient instance for a known attack id, aimed along `direction`,
/// matching the ids in order of registration. An unregistered id yields
/// `None` and the request is a no-op.
pub fn instance_for(attack_id: AttackId, direction: GridPos) -> (r: Option<AttackInstance>)
    ensures
        ({
            let bk = attack_key_of("base_attack"@);
            let ck = attack_key_of("counter"@);
            let tk = attack_key_of("cut_through"@);
            let dk = attack_key_of("dagger_throw"@);
            &&& (r matches Some(inst) ==> inst.attack_id == attack_id && inst.direction
                == direction && !inst.hit_applied && inst.timer.spec_elapsed() == 0)
            &&& (attack_id == bk ==> (r matches Some(inst) && inst.kind is Melee
                && inst.timer.spec_duration() == 200 && inst.interruptible && inst.damage == 10))
            &&& (attack_id != bk && attack_id == ck ==> (r matches Some(inst)
                && inst.kind is Counter && inst.timer.spec_duration() == 5000
                && !inst.interruptible && inst.damage == 10))
            &&& (attack_id != bk && attack_id != ck && attack_id == tk ==> (r matches Some(inst)
                && inst.kind is Dash && inst.timer.spec_duration() == 0 && inst.interruptible
                && inst.damage == 20))
            &&& (attack_id != bk && attack_id != ck && attack_id != tk && attack_id == dk ==> (
            r matches Some(inst) && inst.kind is Ranged && inst.timer.spec_duration() == 200
                && inst.interruptible && inst.damage == 8))
            &&& (attack_id != bk && attack_id != ck && attack_id != tk && attack_id != dk
                ==> r is None)
        }),
{
    if attack_id == key_of("base_attack") {
        Some(AttackInstance::new(attack_id, AttackKind::Melee, direction, 200, true, 10))
    } else if attack_id == key_of("counter") {
        Some(AttackInstance::new(attack_id, AttackKind::Counter, direction, 5000, false, 10))
    } else if attack_id == key_of("cut_through") {
        Some(AttackInstance::new(attack_id, AttackKind::Dash, direction, 0, true, 20))
    } else if attack_id == key_of("dagger_throw") {
        Some(AttackInstance::new(attack_id, AttackKind::Ranged, direction, 200, true, 8))
    } else {
        None
    }
}

} // verus!
