//! The local copy of the game world: entities keyed by id, and the diffs that
//! local changes produce for the other participants.

use std::collections::HashMap;
use vstd::prelude::*;
use vstd::std_specs::iter::IteratorSpec;

use crate::network::Diff;

verus! {

broadcast use vstd::std_specs::hash::group_hash_axioms;

pub type EntityID = u64;

/// A position in world coordinates.
///
/// Each coordinate is held as the bit pattern of an IEEE-754 double
/// (`f64::to_bits`); the library stores and forwards positions and never
/// computes on them.
#[derive(Clone, Copy, Debug, PartialEq, Eq, Structural)]
pub struct Point {
    pub x_bits: u64,
    pub y_bits: u64,
}

/// One entity of the world; all the world knows of it is where it is.
#[derive(Clone, Copy, Debug, PartialEq, Eq, Structural)]
pub struct Entity {
    p: Point,
}

impl View for Entity {
    type V = Point;

    closed spec fn view(&self) -> Point {
        self.p
    }
}

impl Entity {
    /// The entity's position.
    pub fn p(&self) -> (r: &Point)
        ensures
            *r == self@,
    {
        &self.p
    }
}

/// The entity map after one diff took effect: both kinds of diff put the
/// entity at the diff's point.
pub open spec fn apply_diff(m: Map<EntityID, Point>, d: Diff) -> Map<EntityID, Point> {
    match d {
        Diff::Creation(id, p) => m.insert(id, p),
        Diff::Movement(id, p) => m.insert(id, p),
    }
}

/// A creation can always take effect; a movement only of an entity that exists.
pub open spec fn diff_applicable(m: Map<EntityID, Point>, d: Diff) -> bool {
    match d {
        Diff::Creation(_, _) => true,
        Diff::Movement(id, _) => m.contains_key(id),
    }
}

/// The entity map after the diffs took effect one after the other.
pub open spec fn replay(m: Map<EntityID, Point>, ds: Seq<Diff>) -> Map<EntityID, Point>
    decreases ds.len(),
{
    if ds.len() == 0 {
        m
    } else {
        apply_diff(replay(m, ds.drop_last()), ds.last())
    }
}

/// Each diff can take effect on the map that the diffs before it left.
pub open spec fn replayable(m: Map<EntityID, Point>, ds: Seq<Diff>) -> bool
    decreases ds.len(),
{
    if ds.len() == 0 {
        true
    } else {
        replayable(m, ds.drop_last()) && diff_applicable(replay(m, ds.drop_last()), ds.last())
    }
}

/// Replaying `a` then `b` is replaying `a + b`.
pub proof fn lemma_replay_append(m: Map<EntityID, Point>, a: Seq<Diff>, b: Seq<Diff>)
    ensures
        replay(m, a + b) == replay(replay(m, a), b),
    decreases b.len(),
{
    if b.len() == 0 {
        assert(a + b =~= a);
    } else {
        lemma_replay_append(m, a, b.drop_last());
        assert((a + b).drop_last() =~= a + b.drop_last());
        assert((a + b).last() == b.last());
    }
}

/// A prefix of replayable diffs is replayable, and the diff after it can take
/// effect on the map the prefix leaves.
proof fn lemma_replayable_prefix(m: Map<EntityID, Point>, ds: Seq<Diff>, k: int)
    requires
        replayable(m, ds),
        0 <= k <= ds.len(),
    ensures
        replayable(m, ds.take(k)),
        k < ds.len() ==> diff_applicable(replay(m, ds.take(k)), ds[k]),
    decreases ds.len(),
{
    if k == ds.len() {
        assert(ds.take(k) =~= ds);
    } else {
        lemma_replayable_prefix(m, ds.drop_last(), k);
        assert(ds.drop_last().take(k) =~= ds.take(k));
        if k == ds.len() - 1 {
            assert(ds.take(k) =~= ds.drop_last());
        }
    }
}

/// Replication: a participant whose entities are `base` replayed by the diffs
/// it has pending keeps that relation through a local change that records its
/// diff. So a replica that holds `base` and applies the pending diffs once they
/// are handed out ends with the same entities as this participant.
pub proof fn lemma_local_change_replays(
    base: Map<EntityID, Point>,
    pending: Seq<Diff>,
    d: Diff,
)
    requires
        replayable(base, pending),
        diff_applicable(replay(base, pending), d),
    ensures
        replayable(base, pending.push(d)),
        replay(base, pending.push(d)) == apply_diff(replay(base, pending), d),
{
    assert(pending.push(d).drop_last() =~= pending);
}

/// Convergence: a participant goes from `base` through the maps `states` by
/// the local changes `ds`, each allowed where it happens and each recorded (as
/// `create_entity` and `move_entity_to` ensure with `generate_diff` set). Then
/// the recorded diffs replay on `base`, and replaying them gives the
/// participant's last map: a replica holding `base` that runs
/// `exchange_diffs` on them ends with the same entities.
pub proof fn lemma_replica_converges(
    base: Map<EntityID, Point>,
    ds: Seq<Diff>,
    states: Seq<Map<EntityID, Point>>,
)
    requires
        states.len() == ds.len() + 1,
        states[0] == base,
        forall|k: int|
            0 <= k < ds.len() ==> diff_applicable(#[trigger] states[k], ds[k]) && states[k + 1]
                == apply_diff(states[k], ds[k]),
    ensures
        replayable(base, ds),
        replay(base, ds) == states.last(),
    decreases ds.len(),
{
    if ds.len() > 0 {
        let k = ds.len() - 1;
        assert(diff_applicable(states[k], ds[k]));
        lemma_replica_converges(base, ds.drop_last(), states.drop_last());
        assert(states.drop_last().last() == states[k]);
    }
}

/// The world as this participant sees it.
pub struct World {
    entities: HashMap<EntityID, Entity>,
    diffs: Vec<Diff>,
}

impl World {
    /// Where each entity is.
    pub closed spec fn entity_map(&self) -> Map<EntityID, Point> {
        self.entities@.map_values(|e: Entity| e@)
    }

    /// The diffs produced locally and not yet handed out, oldest first.
    pub closed spec fn pending(&self) -> Seq<Diff> {
        self.diffs@
    }

    /// Applies the diffs received from elsewhere, then hands out the diffs
    /// produced locally since the last exchange.
    pub fn exchange_diffs(&mut self, incoming: Vec<Diff>) -> (out: Vec<Diff>)
        requires
            replayable(old(self).entity_map(), incoming@),
        ensures
            final(self).entity_map() == replay(old(self).entity_map(), incoming@),
            out@ == old(self).pending(),
            final(self).pending() == Seq::<Diff>::empty(),
    {
        self.apply_incoming_diffs(incoming);
        self.give_outgoing_diffs()
    }

    fn apply_incoming_diffs(&mut self, diffs: Vec<Diff>)
        requires
            replayable(old(self).entity_map(), diffs@),
        ensures
            final(self).entity_map() == replay(old(self).entity_map(), diffs@),
            final(self).pending() == old(self).pending(),
    {
        let ghost m0 = self.entity_map();
        let ghost p0 = self.pending();
        let mut i: usize = 0;
        assert(diffs@.take(0) =~= Seq::<Diff>::empty());
        while i < diffs.len()
            invariant
                0 <= i <= diffs.len(),
                replayable(m0, diffs@),
                self.entity_map() == replay(m0, diffs@.take(i as int)),
                self.pending() == p0,
            decreases diffs.len() - i,
        {
            let d = diffs[i];
            proof {
                lemma_replayable_prefix(m0, diffs@, i as int);
                assert(diffs@.take(i + 1).drop_last() =~= diffs@.take(i as int));
                assert(diffs@.take(i + 1).last() == d);
            }
            match d {
                Diff::Creation(e_id, p) => { self.create_entity(e_id, p, false) },
                Diff::Movement(e_id, p) => { self.move_entity_to(e_id, p, false) },
            }
            i = i + 1;
        }
        assert(diffs@.take(diffs@.len() as int) =~= diffs@);
    }

    fn give_outgoing_diffs(&mut self) -> (out: Vec<Diff>)
        ensures
            out@ == old(self).pending(),
            final(self).pending() == Seq::<Diff>::empty(),
            final(self).entity_map() == old(self).entity_map(),
    {
        let mut out: Vec<Diff> = Vec::new();
        std::mem::swap(&mut out, &mut self.diffs);
        out
    }

    /// An empty world with nothing pending.
    pub fn new() -> (w: World)
        ensures
            w.entity_map() == Map::<EntityID, Point>::empty(),
            w.pending() == Seq::<Diff>::empty(),
    {
        let w = World { entities: HashMap::new(), diffs: Vec::new() };
        assert(w.entity_map() =~= Map::<EntityID, Point>::empty());
        w
    }

    /// Puts entity `id` at `p`, replacing any entity of that id; records the
    /// creation for the others when `generate_diff` is set.
    pub fn create_entity(&mut self, id: EntityID, p: Point, generate_diff: bool)
        ensures
            final(self).entity_map() == apply_diff(old(self).entity_map(), Diff::Creation(id, p)),
            final(self).pending() == (if generate_diff {
                old(self).pending().push(Diff::Creation(id, p))
            } else {
                old(self).pending()
            }),
    {
        self.entities.insert(id, Entity { p: p });
        if generate_diff {
            self.diffs.push(Diff::Creation(id, p));
        }
        assert(self.entity_map() =~= old(self).entity_map().insert(id, p));
    }

    /// Moves the existing entity `id` to `p`; records the movement for the
    /// others when `generate_diff` is set.
    pub fn move_entity_to(&mut self, id: EntityID, p: Point, generate_diff: bool)
        requires
            old(self).entity_map().contains_key(id),
        ensures
            final(self).entity_map() == apply_diff(old(self).entity_map(), Diff::Movement(id, p)),
            final(self).pending() == (if generate_diff {
                old(self).pending().push(Diff::Movement(id, p))
            } else {
                old(self).pending()
            }),
    {
        self.entities.insert(id, Entity { p: p });
        if generate_diff {
            self.diffs.push(Diff::Movement(id, p));
        }
        assert(self.entity_map() =~= old(self).entity_map().insert(id, p));
    }

    /// Every entity with its id, each once, in no promised order.
    pub fn entities_iter(&self) -> (r: Vec<(EntityID, Entity)>)
        ensures
            r@.len() == self.entity_map().len(),
            forall|i: int|
                0 <= i < r@.len() ==> {
                    &&& self.entity_map().contains_key(#[trigger] r@[i].0)
                    &&& self.entity_map()[r@[i].0] == r@[i].1@
                },
            forall|id: EntityID|
                #[trigger] self.entity_map().contains_key(id) ==> exists|i: int|
                    0 <= i < r@.len() && r@[i].0 == id && r@[i].1@ == self.entity_map()[id],
            forall|i: int, j: int|
                0 <= i < r@.len() && 0 <= j < r@.len() && i != j ==> r@[i].0 != r@[j].0,
    {
        let mut r: Vec<(EntityID, Entity)> = Vec::new();
        let ghost m = self.entities@;
        let ghost v = vstd::std_specs::hash::spec_hash_map_iter(&self.entities).remaining();
        for kv in it: self.entities.iter()
            invariant
                m == self.entities@,
                it.seq() == v,
                r@.len() == it.index(),
                forall|i: int|
                    0 <= i < it.index() ==> #[trigger] r@[i] == (*it.seq()[i].0, *it.seq()[i].1),
        {
            r.push((*kv.0, *kv.1));
        }
        proof {
            assert(self.entity_map().dom() =~= m.dom());
            assert forall|i: int| 0 <= i < r@.len() implies {
                &&& self.entity_map().contains_key(#[trigger] r@[i].0)
                &&& self.entity_map()[r@[i].0] == r@[i].1@
            } by {
                assert(m.contains_key(*v[i].0) && m[*v[i].0] == *v[i].1);
            }
            assert forall|id: EntityID| #[trigger] self.entity_map().contains_key(id) implies exists|i: int|
                0 <= i < r@.len() && r@[i].0 == id && r@[i].1@ == self.entity_map()[id] by {
                assert(v.contains((&id, &m[id])));
                let i = choose|i: int| 0 <= i < v.len() && v[i] == (&id, &m[id]);
                assert(r@[i].0 == id && r@[i].1@ == self.entity_map()[id]);
            }
            assert forall|i: int, j: int|
                0 <= i < r@.len() && 0 <= j < r@.len() && i != j implies r@[i].0 != r@[j].0 by {
                if r@[i].0 == r@[j].0 {
                    assert(m.contains_key(*v[i].0) && m[*v[i].0] == *v[i].1);
                    assert(m.contains_key(*v[j].0) && m[*v[j].0] == *v[j].1);
                    assert(v[i] == v[j]);
                }
            }
        }
        r
    }
}

} // verus!
