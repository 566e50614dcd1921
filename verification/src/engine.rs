//! The game loop's own bookkeeping: the window it asks for, the id of the
//! local player's entity, and what a click does to the local entities.

use vstd::prelude::*;

use crate::network::Diff;
use crate::world::{apply_diff, lemma_replay_append, replay, EntityID, Point};

verus! {

/// Width of the window in pixels.
pub const WIDTH: u32 = 500;

/// Height of the window in pixels.
pub const HEIGHT: u32 = 400;

/// What the game asks of its window and of the event loop that drives it.
#[derive(Clone, Copy, Debug)]
pub struct WindowConfig {
    pub title: &'static str,
    pub width: u32,
    pub height: u32,
    pub exit_on_esc: bool,
    pub max_fps: u64,
    pub ups: u64,
    pub ups_reset: u64,
    pub swap_buffers: bool,
    pub bench_mode: bool,
    pub lazy: bool,
}

/// The window: "Multiplayer", `WIDTH` by `HEIGHT`, closed by Escape, drawn
/// and updated 32 times a second, with buffer swapping and without bench or
/// lazy mode.
pub fn init_window() -> (c: WindowConfig)
    ensures
        c.title@ == "Multiplayer"@,
        c.width == WIDTH,
        c.height == HEIGHT,
        c.exit_on_esc,
        c.max_fps == 32,
        c.ups == 32,
        c.ups_reset == 2,
        c.swap_buffers,
        !c.bench_mode,
        !c.lazy,
{
    WindowConfig {
        title: "Multiplayer",
        width: WIDTH,
        height: HEIGHT,
        exit_on_esc: true,
        max_fps: 32,
        ups: 32,
        ups_reset: 2,
        swap_buffers: true,
        bench_mode: false,
        lazy: false,
    }
}

/// The id of player `player_id`'s own entity: 23 in the second byte, the
/// player id or-ed into the low bits.
pub open spec fn player_entity_id_spec(player_id: u64) -> EntityID {
    (23u64 << 8u64) | player_id
}

/// The id of player `player_id`'s own entity.
pub fn player_entity_id(player_id: u64) -> (id: EntityID)
    ensures
        id == player_entity_id_spec(player_id),
{
    (23u64 << 8u64) | player_id
}

/// Players numbered below 256 get distinct entities, all with 23 in the
/// second byte.
pub proof fn lemma_player_entity_ids_distinct(a: u64, b: u64)
    requires
        a < 256,
        b < 256,
        a != b,
    ensures
        player_entity_id_spec(a) != player_entity_id_spec(b),
        player_entity_id_spec(a) >> 8u64 == 23,
        player_entity_id_spec(a) & 255u64 == a,
{
    assert(((23u64 << 8u64) | a) != ((23u64 << 8u64) | b)) by (bit_vector)
        requires
            a < 256,
            b < 256,
            a != b,
    ;
    assert(((23u64 << 8u64) | a) >> 8u64 == 23) by (bit_vector)
        requires
            a < 256,
    ;
    assert(((23u64 << 8u64) | a) & 255u64 == a) by (bit_vector)
        requires
            a < 256,
    ;
}

/// What one event of the window brings: whether to draw, where the cursor is
/// now (in world coordinates), whether the left button was released, and
/// whether it is time to update.
#[derive(Clone, Copy, Debug)]
pub struct FrameInput {
    pub render: bool,
    pub cursor: Option<Point>,
    pub left_release: bool,
    pub update: bool,
}

/// What the game loop does for an event, in order.
#[derive(Clone, Copy, Debug, PartialEq, Eq, Structural)]
pub enum FrameAction {
    /// Draw the entities.
    Draw,
    /// Move every local entity to the point (a click).
    MoveAllTo(Point),
    /// Take the diffs that arrived and interpret them.
    ApplyIncoming,
}

/// Where the cursor is known to be after the event.
pub open spec fn cursor_after(mouse_at: Option<Point>, input: FrameInput) -> Option<Point> {
    if input.cursor is Some {
        input.cursor
    } else {
        mouse_at
    }
}

/// The actions for an event: draw on a render event; on a release of the left
/// button, move everything to the cursor if its place is known; on an update
/// event, take in what arrived.
pub open spec fn frame_actions(mouse_at: Option<Point>, input: FrameInput) -> Seq<FrameAction> {
    let m = cursor_after(mouse_at, input);
    (if input.render {
        seq![FrameAction::Draw]
    } else {
        Seq::<FrameAction>::empty()
    }) + (if input.left_release && m is Some {
        seq![FrameAction::MoveAllTo(m->0)]
    } else {
        Seq::<FrameAction>::empty()
    }) + (if input.update {
        seq![FrameAction::ApplyIncoming]
    } else {
        Seq::<FrameAction>::empty()
    })
}

/// What an event leads to, stated action by action: drawing comes first and
/// exactly on a render event; taking in what arrived comes last and exactly
/// on an update event; a move happens exactly on a left-button release with
/// the cursor's place known (from this event, else from before), and goes to
/// that place; nothing else happens.
pub proof fn lemma_frame_actions(mouse_at: Option<Point>, input: FrameInput)
    ensures
        input.render ==> frame_actions(mouse_at, input).len() > 0 && frame_actions(mouse_at, input)[0]
            == FrameAction::Draw,
        !input.render ==> !frame_actions(mouse_at, input).contains(FrameAction::Draw),
        input.update ==> frame_actions(mouse_at, input).len() > 0 && frame_actions(mouse_at, input).last()
            == FrameAction::ApplyIncoming,
        !input.update ==> !frame_actions(mouse_at, input).contains(FrameAction::ApplyIncoming),
        forall|x: Point|
            #[trigger] frame_actions(mouse_at, input).contains(FrameAction::MoveAllTo(x)) <==> (
            input.left_release && (if input.cursor is Some {
                input.cursor
            } else {
                mouse_at
            }) == Some(x)),
        frame_actions(mouse_at, input).len() == (if input.render {
            1int
        } else {
            0int
        }) + (if input.left_release && (input.cursor is Some || mouse_at is Some) {
            1int
        } else {
            0int
        }) + (if input.update {
            1int
        } else {
            0int
        }),
{
    let a = frame_actions(mouse_at, input);
    let m = cursor_after(mouse_at, input);
    let d = if input.render {
        seq![FrameAction::Draw]
    } else {
        Seq::<FrameAction>::empty()
    };
    let mv = if input.left_release && m is Some {
        seq![FrameAction::MoveAllTo(m->0)]
    } else {
        Seq::<FrameAction>::empty()
    };
    let u = if input.update {
        seq![FrameAction::ApplyIncoming]
    } else {
        Seq::<FrameAction>::empty()
    };
    assert(a == d + mv + u);
    assert forall|x: FrameAction| a.contains(x) <==> d.contains(x) || mv.contains(x) || u.contains(x) by {
        if a.contains(x) {
            let i = choose|i: int| 0 <= i < a.len() && a[i] == x;
            if i < d.len() {
                assert(d[i] == x);
            } else if i < d.len() + mv.len() {
                assert(mv[i - d.len()] == x);
            } else {
                assert(u[i - d.len() - mv.len()] == x);
            }
        }
        if d.contains(x) {
            let i = choose|i: int| 0 <= i < d.len() && d[i] == x;
            assert(a[i] == x);
        }
        if mv.contains(x) {
            let i = choose|i: int| 0 <= i < mv.len() && mv[i] == x;
            assert(a[d.len() + i] == x);
        }
        if u.contains(x) {
            let i = choose|i: int| 0 <= i < u.len() && u[i] == x;
            assert(a[d.len() + mv.len() + i] == x);
        }
    }
    if input.render {
        assert(d.contains(FrameAction::Draw));
    }
    if input.update {
        assert(u.contains(FrameAction::ApplyIncoming));
    }
    if input.left_release && m is Some {
        assert(mv[0] == FrameAction::MoveAllTo(m->0));
        assert(mv.contains(FrameAction::MoveAllTo(m->0)));
    }
    assert forall|x: Point| #[trigger] a.contains(FrameAction::MoveAllTo(x)) <==> (input.left_release
        && m == Some(x)) by {
        if mv.contains(FrameAction::MoveAllTo(x)) {
            let i = choose|i: int| 0 <= i < mv.len() && mv[i] == FrameAction::MoveAllTo(x);
            assert(mv[i] == FrameAction::MoveAllTo(m->0));
        }
        if input.left_release && m == Some(x) {
            assert(mv[0] == FrameAction::MoveAllTo(x));
            assert(mv.contains(FrameAction::MoveAllTo(x)));
        }
    }
}

/// Decides what the game loop does for one event, remembering the cursor.
pub fn dispatch_event(mouse_at: &mut Option<Point>, input: FrameInput) -> (actions: Vec<FrameAction>)
    ensures
        *final(mouse_at) == cursor_after(*old(mouse_at), input),
        actions@ == frame_actions(*old(mouse_at), input),
        *final(mouse_at) == (if input.cursor is Some {
            input.cursor
        } else {
            *old(mouse_at)
        }),
        input.render ==> actions@.len() > 0 && actions@[0] == FrameAction::Draw,
        !input.render ==> !actions@.contains(FrameAction::Draw),
        input.update ==> actions@.len() > 0 && actions@.last() == FrameAction::ApplyIncoming,
        !input.update ==> !actions@.contains(FrameAction::ApplyIncoming),
        forall|x: Point|
            #[trigger] actions@.contains(FrameAction::MoveAllTo(x)) <==> (input.left_release
                && *final(mouse_at) == Some(x)),
{
    proof {
        lemma_frame_actions(*mouse_at, input);
    }
    let mut actions: Vec<FrameAction> = Vec::new();
    if input.render {
        actions.push(FrameAction::Draw);
    }
    if let Some(z) = input.cursor {
        *mouse_at = Some(z);
    }
    if input.left_release {
        if let Some(m) = *mouse_at {
            actions.push(FrameAction::MoveAllTo(m));
        }
    }
    if input.update {
        actions.push(FrameAction::ApplyIncoming);
    }
    assert(actions@ =~= frame_actions(*old(mouse_at), input));
    actions
}

/// An entity as the game loop keeps it.
#[derive(Clone, Copy, Debug, PartialEq, Eq, Structural)]
pub struct Entity {
    pub id: EntityID,
    pub p: Point,
}

/// The entity a diff is about and the point it puts it at.
pub open spec fn diff_target(d: Diff) -> (EntityID, Point) {
    match d {
        Diff::Creation(id, p) => (id, p),
        Diff::Movement(id, p) => (id, p),
    }
}

/// No two entries of the list share an id.
pub open spec fn ids_unique(s: Seq<Entity>) -> bool {
    forall|i: int, j: int| 0 <= i < j < s.len() ==> s[i].id != s[j].id
}

/// Where each entity of the list is; of entries sharing an id, the later one
/// counts.
pub open spec fn entity_map(s: Seq<Entity>) -> Map<EntityID, Point>
    decreases s.len(),
{
    if s.len() == 0 {
        Map::empty()
    } else {
        entity_map(s.drop_last()).insert(s.last().id, s.last().p)
    }
}

/// The list with every entry of `id` put at `p`.
pub open spec fn with_point(s: Seq<Entity>, id: EntityID, p: Point) -> Seq<Entity> {
    Seq::new(s.len(), |i: int| if s[i].id == id { Entity { id: id, p: p } } else { s[i] })
}

proof fn lemma_entity_map_keys(s: Seq<Entity>, k: EntityID)
    ensures
        entity_map(s).contains_key(k) <==> exists|i: int| 0 <= i < s.len() && s[i].id == k,
    decreases s.len(),
{
    if s.len() > 0 {
        let t = s.drop_last();
        lemma_entity_map_keys(t, k);
        if entity_map(s).contains_key(k) {
            if s.last().id == k {
                assert(s[s.len() - 1].id == k);
            } else {
                let i = choose|i: int| 0 <= i < t.len() && t[i].id == k;
                assert(s[i] == t[i]);
            }
        }
        if exists|i: int| 0 <= i < s.len() && s[i].id == k {
            let i = choose|i: int| 0 <= i < s.len() && s[i].id == k;
            if i < s.len() - 1 {
                assert(t[i] == s[i]);
            }
        }
    }
}

proof fn lemma_with_point(s: Seq<Entity>, id: EntityID, p: Point)
    ensures
        entity_map(with_point(s, id, p)) == (if entity_map(s).contains_key(id) {
            entity_map(s).insert(id, p)
        } else {
            entity_map(s)
        }),
    decreases s.len(),
{
    let w = with_point(s, id, p);
    if s.len() == 0 {
        assert(entity_map(w) =~= entity_map(s));
    } else {
        let t = s.drop_last();
        lemma_with_point(t, id, p);
        assert(w.drop_last() =~= with_point(t, id, p));
        let mt = entity_map(t);
        let l = s.last();
        if l.id == id {
            assert(w.last() == (Entity { id: id, p: p }));
            assert(entity_map(w) =~= mt.insert(id, p));
            assert(entity_map(s).insert(id, p) =~= mt.insert(id, p));
        } else {
            assert(w.last() == l);
            if mt.contains_key(id) {
                assert(entity_map(w) =~= entity_map(s).insert(id, p));
            } else {
                assert(entity_map(w) =~= entity_map(s));
            }
        }
    }
}

proof fn lemma_all_at(s: Seq<Entity>, p: Point, k: EntityID)
    requires
        forall|i: int| 0 <= i < s.len() ==> #[trigger] s[i].p == p,
        entity_map(s).contains_key(k),
    ensures
        entity_map(s)[k] == p,
    decreases s.len(),
{
    if s.len() > 0 && s.last().id != k {
        let t = s.drop_last();
        assert forall|i: int| 0 <= i < t.len() implies #[trigger] t[i].p == p by {
            assert(t[i] == s[i]);
        }
        lemma_all_at(t, p, k);
    }
}

proof fn lemma_replay_moves(m: Map<EntityID, Point>, ids: Seq<EntityID>, ds: Seq<Diff>, p: Point)
    requires
        ds.len() == ids.len(),
        forall|i: int| 0 <= i < ds.len() ==> #[trigger] ds[i] == Diff::Movement(ids[i], p),
    ensures
        forall|k: EntityID|
            #[trigger] replay(m, ds).contains_key(k) <==> m.contains_key(k) || ids.contains(k),
        forall|k: EntityID| ids.contains(k) ==> #[trigger] replay(m, ds)[k] == p,
        forall|k: EntityID| !ids.contains(k) && m.contains_key(k) ==> #[trigger] replay(m, ds)[k] == m[k],
    decreases ds.len(),
{
    if ds.len() > 0 {
        let n = ds.len() - 1;
        assert forall|i: int| 0 <= i < ds.drop_last().len() implies #[trigger] ds.drop_last()[i]
            == Diff::Movement(ids.drop_last()[i], p) by {
            assert(ds.drop_last()[i] == ds[i]);
        }
        lemma_replay_moves(m, ids.drop_last(), ds.drop_last(), p);
        assert(ds.last() == Diff::Movement(ids[n], p));
        let r0 = replay(m, ds.drop_last());
        assert(replay(m, ds) == r0.insert(ids[n], p));
        assert forall|k: EntityID| ids.contains(k) <==> (ids.drop_last().contains(k) || ids[n] == k) by {
            if ids.contains(k) {
                let i = choose|i: int| 0 <= i < ids.len() && ids[i] == k;
                if i < n {
                    assert(ids.drop_last()[i] == k);
                }
            }
            if ids.drop_last().contains(k) {
                let i = choose|i: int| 0 <= i < ids.drop_last().len() && ids.drop_last()[i] == k;
                assert(ids[i] == k);
            }
            if ids[n] == k {
                assert(ids[n] == k);
            }
        }
        assert forall|k: EntityID|
            #[trigger] replay(m, ds).contains_key(k) <==> m.contains_key(k) || ids.contains(k) by {
            assert(r0.contains_key(k) <==> m.contains_key(k) || ids.drop_last().contains(k));
        }
        assert forall|k: EntityID| ids.contains(k) implies #[trigger] replay(m, ds)[k] == p by {
            if k != ids[n] {
                assert(ids.drop_last().contains(k));
                assert(r0[k] == p);
            }
        }
        assert forall|k: EntityID| !ids.contains(k) && m.contains_key(k) implies #[trigger] replay(
            m,
            ds,
        )[k] == m[k] by {
            assert(!ids.drop_last().contains(k));
            assert(r0[k] == m[k]);
        }
    }
}

/// The game loop's local copy of the world.
pub struct World {
    pub entities: Vec<Entity>,
}

impl World {
    /// No entity yet.
    pub fn new() -> (w: World)
        ensures
            w.entities@ == Seq::<Entity>::empty(),
    {
        World { entities: Vec::new() }
    }

    /// Adds player `player_id`'s own entity at `p`, and gives the creation
    /// diff that tells the others of it.
    pub fn spawn_local_player(&mut self, player_id: u64, p: Point) -> (d: Diff)
        ensures
            d == Diff::Creation(player_entity_id_spec(player_id), p),
            final(self).entities@ == old(self).entities@.push(
                (Entity { id: player_entity_id_spec(player_id), p: p }),
            ),
            entity_map(final(self).entities@) == apply_diff(entity_map(old(self).entities@), d),
    {
        let id = player_entity_id(player_id);
        let mine = Entity { id: id, p: p };
        self.entities.push(mine);
        assert(self.entities@.drop_last() =~= old(self).entities@);
        Diff::Creation(id, mine.p)
    }

    /// A click at `p`: every local entity moves there, and the movements are
    /// given, one per entity in order, for the others. Replaying them on the
    /// entities before gives the entities after.
    pub fn move_all_to(&mut self, p: Point) -> (diffs: Vec<Diff>)
        ensures
            final(self).entities@.len() == old(self).entities@.len(),
            forall|i: int|
                0 <= i < old(self).entities@.len() ==> #[trigger] final(self).entities@[i] == (Entity {
                    id: old(self).entities@[i].id,
                    p: p,
                }),
            diffs@.len() == old(self).entities@.len(),
            forall|i: int|
                0 <= i < old(self).entities@.len() ==> #[trigger] diffs@[i] == Diff::Movement(
                    old(self).entities@[i].id,
                    p,
                ),
            entity_map(final(self).entities@) == replay(entity_map(old(self).entities@), diffs@),
    {
        let mut diffs: Vec<Diff> = Vec::new();
        let mut i: usize = 0;
        while i < self.entities.len()
            invariant
                0 <= i <= self.entities@.len(),
                self.entities@.len() == old(self).entities@.len(),
                diffs@.len() == i,
                forall|k: int|
                    0 <= k < i ==> #[trigger] self.entities@[k] == (Entity {
                        id: old(self).entities@[k].id,
                        p: p,
                    }),
                forall|k: int|
                    i <= k < self.entities@.len() ==> #[trigger] self.entities@[k]
                        == old(self).entities@[k],
                forall|k: int|
                    0 <= k < i ==> #[trigger] diffs@[k] == Diff::Movement(
                        old(self).entities@[k].id,
                        p,
                    ),
            decreases self.entities@.len() - i,
        {
            let id = self.entities[i].id;
            self.entities.set(i, Entity { id: id, p: p });
            diffs.push(Diff::Movement(id, p));
            i = i + 1;
        }
        proof {
            let before = old(self).entities@;
            let after = self.entities@;
            let ids = before.map_values(|e: Entity| e.id);
            let m = entity_map(before);
            lemma_replay_moves(m, ids, diffs@, p);
            let r = replay(m, diffs@);
            assert forall|k: EntityID| #[trigger] entity_map(after).contains_key(k) == r.contains_key(k) by {
                lemma_entity_map_keys(after, k);
                lemma_entity_map_keys(before, k);
                if exists|j: int| 0 <= j < after.len() && after[j].id == k {
                    let j = choose|j: int| 0 <= j < after.len() && after[j].id == k;
                    assert(before[j].id == k);
                    assert(ids[j] == k);
                }
                if exists|j: int| 0 <= j < before.len() && before[j].id == k {
                    let j = choose|j: int| 0 <= j < before.len() && before[j].id == k;
                    assert(after[j].id == k);
                }
                if ids.contains(k) {
                    let j = choose|j: int| 0 <= j < ids.len() && ids[j] == k;
                    assert(after[j].id == k);
                }
            }
            assert forall|k: EntityID| #[trigger] entity_map(after).contains_key(k) implies entity_map(
                after,
            )[k] == r[k] by {
                lemma_all_at(after, p, k);
                lemma_entity_map_keys(after, k);
                let j = choose|j: int| 0 <= j < after.len() && after[j].id == k;
                assert(ids[j] == k);
            }
            assert(entity_map(after) =~= r);
        }
        diffs
    }

    /// Interprets one diff from elsewhere: every entry of its entity goes to
    /// its point, or the entity is added if the list has none.
    fn apply_one(&mut self, d: Diff)
        ensures
            entity_map(final(self).entities@) == apply_diff(entity_map(old(self).entities@), d),
            ({
                let (id, p) = diff_target(d);
                let before = old(self).entities@;
                let after = final(self).entities@;
                let known = exists|k: int| 0 <= k < before.len() && before[k].id == id;
                &&& after.len() == before.len() + (if known {
                    0int
                } else {
                    1int
                })
                &&& forall|k: int|
                    0 <= k < before.len() ==> #[trigger] after[k] == (if before[k].id == id {
                        Entity { id: id, p: p }
                    } else {
                        before[k]
                    })
                &&& !known ==> after[before.len() as int] == (Entity { id: id, p: p })
            }),
    {
        let (id, p) = match d {
            Diff::Creation(id, p) => (id, p),
            Diff::Movement(id, p) => (id, p),
        };
        assert(diff_target(d) == (id, p));
        let ghost before = self.entities@;
        let mut found = false;
        let mut i: usize = 0;
        while i < self.entities.len()
            invariant
                0 <= i <= self.entities@.len(),
                self.entities@.len() == before.len(),
                forall|k: int| 0 <= k < i ==> #[trigger] self.entities@[k] == with_point(before, id, p)[k],
                forall|k: int| i <= k < self.entities@.len() ==> #[trigger] self.entities@[k] == before[k],
                found <==> exists|k: int| 0 <= k < i && before[k].id == id,
            decreases self.entities@.len() - i,
        {
            if self.entities[i].id == id {
                self.entities.set(i, Entity { id: id, p: p });
                found = true;
            }
            i = i + 1;
        }
        assert(self.entities@ =~= with_point(before, id, p));
        proof {
            lemma_with_point(before, id, p);
            lemma_entity_map_keys(before, id);
        }
        if !found {
            assert(with_point(before, id, p) =~= before);
            let ghost mid = self.entities@;
            self.entities.push(Entity { id: id, p: p });
            assert(self.entities@.drop_last() =~= mid);
        }
    }

    /// Interprets the diffs received from the others, in order: the
    /// entities after are the entities before replayed by them.
    pub fn apply_incoming(&mut self, diffs: Vec<Diff>)
        ensures
            entity_map(final(self).entities@) == replay(entity_map(old(self).entities@), diffs@),
            final(self).entities@.len() >= old(self).entities@.len(),
            forall|k: int|
                0 <= k < old(self).entities@.len() ==> (#[trigger] final(self).entities@[k]).id
                    == old(self).entities@[k].id,
            ids_unique(old(self).entities@) ==> ids_unique(final(self).entities@),
    {
        let ghost m0 = entity_map(self.entities@);
        let ghost s0 = self.entities@;
        let mut i: usize = 0;
        assert(diffs@.take(0) =~= Seq::<Diff>::empty());
        while i < diffs.len()
            invariant
                0 <= i <= diffs.len(),
                entity_map(self.entities@) == replay(m0, diffs@.take(i as int)),
                self.entities@.len() >= s0.len(),
                forall|k: int| 0 <= k < s0.len() ==> (#[trigger] self.entities@[k]).id == s0[k].id,
                ids_unique(s0) ==> ids_unique(self.entities@),
            decreases diffs.len() - i,
        {
            assert(diffs@.take(i + 1).drop_last() =~= diffs@.take(i as int));
            let ghost prev = self.entities@;
            self.apply_one(diffs[i]);
            proof {
                let (id, p) = diff_target(diffs@[i as int]);
                let cur = self.entities@;
                assert forall|k: int| 0 <= k < prev.len() implies (#[trigger] cur[k]).id == prev[k].id by {
                    if prev[k].id == id {
                        assert(cur[k] == (Entity { id: id, p: p }));
                    } else {
                        assert(cur[k] == prev[k]);
                    }
                }
                if ids_unique(prev) {
                    assert forall|a: int, b: int| 0 <= a < b < cur.len() implies cur[a].id != cur[b].id by {
                        assert(cur[a].id == prev[a].id);
                        if b < prev.len() {
                            assert(cur[b].id == prev[b].id);
                        } else {
                            assert(!(exists|k: int| 0 <= k < prev.len() && prev[k].id == id));
                            assert(cur[b] == (Entity { id: id, p: p }));
                            assert(prev[a].id != id);
                        }
                    }
                }
            }
            i = i + 1;
        }
        assert(diffs@.take(diffs@.len() as int) =~= diffs@);
    }
}

/// Every local change informs the others: if the game loop's world goes,
/// from no entity, through the maps `maps`, each step (a spawn, a click, or
/// any other change) replaying the batch of diffs it handed over, then
/// replaying everything handed over, in order, on an empty world gives the
/// world's last map.
pub proof fn lemma_handed_over_diffs_replay(
    batches: Seq<Seq<Diff>>,
    maps: Seq<Map<EntityID, Point>>,
)
    requires
        maps.len() == batches.len() + 1,
        maps[0] == Map::<EntityID, Point>::empty(),
        forall|k: int| 0 <= k < batches.len() ==> #[trigger] maps[k + 1] == replay(maps[k], batches[k]),
    ensures
        replay(Map::<EntityID, Point>::empty(), batches.flatten_alt()) == maps.last(),
    decreases batches.len(),
{
    if batches.len() == 0 {
        assert(batches.flatten_alt() =~= Seq::<Diff>::empty());
    } else {
        let n = batches.len() - 1;
        assert forall|k: int| 0 <= k < batches.drop_last().len() implies #[trigger] maps.drop_last()[k
            + 1] == replay(maps.drop_last()[k], batches.drop_last()[k]) by {
            assert(maps[k + 1] == replay(maps[k], batches[k]));
        }
        lemma_handed_over_diffs_replay(batches.drop_last(), maps.drop_last());
        lemma_replay_append(Map::<EntityID, Point>::empty(), batches.drop_last().flatten_alt(), batches.last());
        assert(maps[n + 1] == replay(maps[n], batches[n]));
    }
}

} // verus!
