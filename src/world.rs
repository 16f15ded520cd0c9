//! The marker-synchronization model: entities that may carry the tagged-union
//! component and its markers, a deferred command queue, and the lifecycle
//! hooks that keep markers in step with the component.
//!
//! The component of an entity is described by the index of its variant; the
//! marker of variant `i` is marker `i`. Every write is stamped with the
//! current tick, so that a marker can report whether it was added or changed
//! since a given tick. A flush applies the queued commands in order and then
//! advances the tick.
use vstd::prelude::*;

verus! {

/// The component of an entity: the variant it holds, and the ticks at which
/// it was first attached and last written.
#[derive(Clone, Copy, PartialEq, Eq, Debug, Structural)]
pub struct ComponentCell {
    pub variant: usize,
    pub added: u64,
    pub changed: u64,
}

/// A marker on an entity: the ticks at which it was attached and last written.
#[derive(Clone, Copy, PartialEq, Eq, Debug, Structural)]
pub struct MarkerCell {
    pub added: u64,
    pub changed: u64,
}

/// A deferred marker mutation.
#[derive(Clone, Copy, PartialEq, Eq, Debug, Structural)]
pub enum Command {
    /// Remove every marker of the entity but that of `variant`, and attach
    /// that one unless it is already there.
    SetMarker { entity: usize, variant: usize },
    /// Remove every marker of the entity.
    StripMarkers { entity: usize },
}

/// How markers are kept in step with the component.
#[derive(Clone, Copy, PartialEq, Eq, Debug, Structural)]
pub enum Strategy {
    /// Lifecycle hooks of the component queue marker commands as it is
    /// inserted, replaced or removed.
    Hooks,
    /// Nothing happens on a lifecycle event; scheduled watchers catch up.
    Polling,
}

/// An entity as a mathematical value.
pub struct EntityView {
    pub alive: bool,
    pub component: Option<ComponentCell>,
    pub markers: Seq<Option<MarkerCell>>,
}

/// A world as a mathematical value.
pub struct WorldView {
    pub variant_count: nat,
    pub hooks: bool,
    pub tick: u64,
    pub entities: Seq<EntityView>,
    pub commands: Seq<Command>,
    /// Every entity whose component was removed, in order of removal.
    pub removed: Seq<usize>,
}

/// An empty world for a union of `n` variants, with or without hooks.
pub open spec fn new_world(n: nat, hooks: bool) -> WorldView {
    WorldView {
        variant_count: n,
        hooks,
        tick: 0,
        entities: Seq::empty(),
        commands: Seq::empty(),
        removed: Seq::empty(),
    }
}

/// The tick after `t`; the tick stays at its largest value once there.
pub open spec fn next_tick(t: u64) -> u64 {
    if t < u64::MAX {
        (t + 1) as u64
    } else {
        t
    }
}

/// No marker at all, for `n` variants.
pub open spec fn no_markers(n: nat) -> Seq<Option<MarkerCell>> {
    Seq::new(n, |i: int| None::<MarkerCell>)
}

/// `ms` with every marker removed.
pub open spec fn stripped(ms: Seq<Option<MarkerCell>>) -> Seq<Option<MarkerCell>> {
    no_markers(ms.len())
}

/// `ms` with every marker but that of `v` removed, and that one attached at
/// `tick` unless it was already there, in which case it is left as it was.
pub open spec fn marked(ms: Seq<Option<MarkerCell>>, v: int, tick: u64) -> Seq<Option<MarkerCell>> {
    Seq::new(
        ms.len(),
        |i: int|
            if i != v {
                None
            } else if ms[i] is Some {
                ms[i]
            } else {
                Some(MarkerCell { added: tick, changed: tick })
            },
    )
}

/// Entity `e` exists and has not been despawned.
pub open spec fn live(w: WorldView, e: int) -> bool {
    0 <= e < w.entities.len() && w.entities[e].alive
}

/// `w` with the markers of entity `e` replaced by `ms`.
pub open spec fn with_markers(w: WorldView, e: int, ms: Seq<Option<MarkerCell>>) -> WorldView {
    WorldView {
        entities: w.entities.update(
            e,
            EntityView { alive: w.entities[e].alive, component: w.entities[e].component, markers: ms },
        ),
        ..w
    }
}

/// The effect of one command. A command on an entity that does not exist or
/// was despawned does nothing.
pub open spec fn apply_command(w: WorldView, c: Command) -> WorldView {
    match c {
        Command::SetMarker { entity, variant } => {
            if live(w, entity as int) && variant < w.variant_count {
                with_markers(
                    w,
                    entity as int,
                    marked(w.entities[entity as int].markers, variant as int, w.tick),
                )
            } else {
                w
            }
        },
        Command::StripMarkers { entity } => {
            if live(w, entity as int) {
                with_markers(w, entity as int, stripped(w.entities[entity as int].markers))
            } else {
                w
            }
        },
    }
}

/// The effect of commands applied in order.
pub open spec fn apply_commands(w: WorldView, cs: Seq<Command>) -> WorldView
    decreases cs.len(),
{
    if cs.len() == 0 {
        w
    } else {
        apply_command(apply_commands(w, cs.drop_last()), cs.last())
    }
}

/// A flush: the queued commands are applied in order, the queue is emptied,
/// and the tick advances.
pub open spec fn flush_spec(w: WorldView) -> WorldView {
    let a = apply_commands(w, w.commands);
    WorldView { commands: Seq::empty(), tick: next_tick(w.tick), ..a }
}

/// `w` with entity `e` holding `c` as its component.
pub open spec fn with_component(w: WorldView, e: int, c: Option<ComponentCell>) -> Seq<EntityView> {
    w.entities.update(
        e,
        EntityView { alive: w.entities[e].alive, component: c, markers: w.entities[e].markers },
    )
}

/// A new entity, with neither component nor marker; a world that holds
/// `usize::MAX` entities is full and stays as it is.
pub open spec fn spawn_spec(w: WorldView) -> WorldView {
    if w.entities.len() < usize::MAX {
        WorldView {
            entities: w.entities.push(
                EntityView { alive: true, component: None, markers: no_markers(w.variant_count) },
            ),
            ..w
        }
    } else {
        w
    }
}

/// The commands that the hooks queue when variant `v` is inserted on entity
/// `e`: a replaced value has its markers stripped, then the marker of `v` is
/// set.
pub open spec fn insert_hook_commands(replacing: bool, e: int, v: int) -> Seq<Command> {
    if replacing {
        seq![
            Command::StripMarkers { entity: e as usize },
            Command::SetMarker { entity: e as usize, variant: v as usize },
        ]
    } else {
        seq![Command::SetMarker { entity: e as usize, variant: v as usize }]
    }
}

/// Inserting variant `v` on entity `e`. A value that replaces another keeps
/// its first attachment tick. Nothing happens where `e` is not live or `v`
/// is not a variant.
pub open spec fn insert_spec(w: WorldView, e: int, v: int) -> WorldView {
    if live(w, e) && 0 <= v < w.variant_count {
        let prior = w.entities[e].component;
        let cell = match prior {
            Some(c) => ComponentCell { variant: v as usize, added: c.added, changed: w.tick },
            None => ComponentCell { variant: v as usize, added: w.tick, changed: w.tick },
        };
        WorldView {
            entities: with_component(w, e, Some(cell)),
            commands: if w.hooks {
                w.commands + insert_hook_commands(prior is Some, e, v)
            } else {
                w.commands
            },
            ..w
        }
    } else {
        w
    }
}

/// Removing the component of entity `e`: the removal is recorded, and the
/// hooks queue a strip. Nothing happens where `e` is not live or holds no
/// component.
pub open spec fn remove_spec(w: WorldView, e: int) -> WorldView {
    if live(w, e) && w.entities[e].component is Some {
        WorldView {
            entities: with_component(w, e, None),
            commands: if w.hooks {
                w.commands.push(Command::StripMarkers { entity: e as usize })
            } else {
                w.commands
            },
            removed: w.removed.push(e as usize),
            ..w
        }
    } else {
        w
    }
}

/// Despawning entity `e`: it loses its component and every marker; a
/// component it held is recorded as removed, and the hooks queue a strip,
/// which then finds the entity gone.
pub open spec fn despawn_spec(w: WorldView, e: int) -> WorldView {
    if live(w, e) {
        let had = w.entities[e].component is Some;
        WorldView {
            entities: w.entities.update(
                e,
                EntityView {
                    alive: false,
                    component: None,
                    markers: no_markers(w.variant_count),
                },
            ),
            commands: if w.hooks && had {
                w.commands.push(Command::StripMarkers { entity: e as usize })
            } else {
                w.commands
            },
            removed: if had {
                w.removed.push(e as usize)
            } else {
                w.removed
            },
            ..w
        }
    } else {
        w
    }
}

/// Commands change markers only: what else a world holds, and whether each
/// entity is live, and its component, stay as they were.
pub proof fn lemma_apply_commands_frame(w: WorldView, cs: Seq<Command>)
    ensures
        ({
            let a = apply_commands(w, cs);
            &&& a.variant_count == w.variant_count
            &&& a.hooks == w.hooks
            &&& a.tick == w.tick
            &&& a.commands == w.commands
            &&& a.removed == w.removed
            &&& a.entities.len() == w.entities.len()
            &&& forall|x: int|
                0 <= x < w.entities.len() ==> (#[trigger] a.entities[x]).alive == w.entities[x].alive
                    && a.entities[x].component == w.entities[x].component
        }),
    decreases cs.len(),
{
    if cs.len() > 0 {
        lemma_apply_commands_frame(w, cs.drop_last());
    }
}

/// The shape that every world keeps: one marker slot per variant, a
/// component that names a variant, and nothing left on a despawned entity.
pub open spec fn world_wf(w: WorldView) -> bool {
    &&& w.entities.len() <= usize::MAX
    &&& forall|e: int|
        0 <= e < w.entities.len() ==> {
            &&& (#[trigger] w.entities[e]).markers.len() == w.variant_count
            &&& (w.entities[e].component matches Some(c) ==> c.variant < w.variant_count)
            &&& (!w.entities[e].alive ==> w.entities[e].component is None
                && w.entities[e].markers == no_markers(w.variant_count))
        }
}

/// The variant that entity `e` holds, if any.
pub open spec fn variant_spec(w: WorldView, e: int) -> Option<usize> {
    if 0 <= e < w.entities.len() {
        match w.entities[e].component {
            Some(c) => Some(c.variant),
            None => None,
        }
    } else {
        None
    }
}

/// The marker of variant `v` on entity `e`, if present.
pub open spec fn marker_spec(w: WorldView, e: int, v: int) -> Option<MarkerCell> {
    if 0 <= e < w.entities.len() && 0 <= v < w.entities[e].markers.len() {
        w.entities[e].markers[v]
    } else {
        None
    }
}

/// What setting the marker of one variant does to one marker slot.
#[derive(Clone, Copy, PartialEq, Eq, Debug, Structural)]
pub enum MarkerAction {
    /// The marker is taken off.
    Remove,
    /// The slot is left as it is.
    Keep,
    /// The marker is attached.
    Attach,
}

/// What setting the marker of `variant` does to the slot of `marker`, which
/// holds a marker where `present`: another variant's marker is removed, the
/// marker of `variant` is attached unless it is already there, and an empty
/// slot of another variant is left empty.
pub open spec fn set_action_spec(variant: usize, marker: usize, present: bool) -> MarkerAction {
    if marker != variant {
        if present {
            MarkerAction::Remove
        } else {
            MarkerAction::Keep
        }
    } else if present {
        MarkerAction::Keep
    } else {
        MarkerAction::Attach
    }
}

/// What setting the marker of `variant` does to the slot of `marker`, which
/// holds a marker where `present`. Lifecycle hooks on the host engine apply
/// it slot by slot; [`World`] applies it the same way.
pub fn set_marker_action(variant: usize, marker: usize, present: bool) -> (r: MarkerAction)
    ensures
        r == set_action_spec(variant, marker, present),
{
    if marker != variant {
        if present {
            MarkerAction::Remove
        } else {
            MarkerAction::Keep
        }
    } else if present {
        MarkerAction::Keep
    } else {
        MarkerAction::Attach
    }
}

/// An entity record.
struct EntityRecord {
    alive: bool,
    component: Option<ComponentCell>,
    markers: Vec<Option<MarkerCell>>,
}

impl View for EntityRecord {
    type V = EntityView;

    closed spec fn view(&self) -> EntityView {
        EntityView { alive: self.alive, component: self.component, markers: self.markers@ }
    }
}

/// Entities, each with at most one tagged-union component and its markers.
pub struct World {
    variant_count: usize,
    hooks: bool,
    tick: u64,
    entities: Vec<EntityRecord>,
    commands: Vec<Command>,
    removed: Vec<usize>,
}

impl View for World {
    type V = WorldView;

    closed spec fn view(&self) -> WorldView {
        WorldView {
            variant_count: self.variant_count as nat,
            hooks: self.hooks,
            tick: self.tick,
            entities: self.entities@.map_values(|r: EntityRecord| r@),
            commands: self.commands@,
            removed: self.removed@,
        }
    }
}

impl World {
    /// An empty world whose tagged union has `variant_count` variants, whose
    /// markers follow the component by `strategy`.
    pub fn new(variant_count: usize, strategy: Strategy) -> (r: World)
        ensures
            r@ == new_world(variant_count as nat, strategy == Strategy::Hooks),
            world_wf(r@),
    {
        let r = World {
            variant_count,
            hooks: match strategy {
                Strategy::Hooks => true,
                Strategy::Polling => false,
            },
            tick: 0,
            entities: Vec::new(),
            commands: Vec::new(),
            removed: Vec::new(),
        };
        assert(r@.entities =~= Seq::<EntityView>::empty());
        r
    }

    /// The number of variants of the tagged union.
    pub fn variant_count(&self) -> (r: usize)
        ensures
            r == self@.variant_count,
    {
        self.variant_count
    }

    /// The current tick.
    pub fn tick(&self) -> (r: u64)
        ensures
            r == self@.tick,
    {
        self.tick
    }

    /// The number of entities ever spawned.
    pub fn entity_count(&self) -> (r: usize)
        ensures
            r == self@.entities.len(),
    {
        self.entities.len()
    }

    /// The number of queued commands.
    pub fn pending_commands(&self) -> (r: usize)
        ensures
            r == self@.commands.len(),
    {
        self.commands.len()
    }

    /// The number of removals recorded so far.
    pub fn removed_count(&self) -> (r: usize)
        ensures
            r == self@.removed.len(),
    {
        self.removed.len()
    }

    /// The entity of the `k`-th recorded removal.
    pub fn removed_at(&self, k: usize) -> (r: usize)
        requires
            k < self@.removed.len(),
        ensures
            r == self@.removed[k as int],
    {
        self.removed[k]
    }

    /// Whether entity `e` exists and has not been despawned.
    pub fn is_alive(&self, e: usize) -> (r: bool)
        ensures
            r == live(self@, e as int),
    {
        e < self.entities.len() && self.entities[e].alive
    }

    /// The component of entity `e`, if it holds one.
    pub fn component(&self, e: usize) -> (r: Option<ComponentCell>)
        ensures
            e < self@.entities.len() ==> r == self@.entities[e as int].component,
            e >= self@.entities.len() ==> r is None,
    {
        if e < self.entities.len() {
            self.entities[e].component
        } else {
            None
        }
    }

    /// The variant that entity `e` holds, if any.
    pub fn variant_of(&self, e: usize) -> (r: Option<usize>)
        ensures
            r == variant_spec(self@, e as int),
    {
        match self.component(e) {
            Some(c) => Some(c.variant),
            None => None,
        }
    }

    /// The marker of variant `v` on entity `e`, if present.
    pub fn marker(&self, e: usize, v: usize) -> (r: Option<MarkerCell>)
        ensures
            r == marker_spec(self@, e as int, v as int),
    {
        if e < self.entities.len() && v < self.entities[e].markers.len() {
            self.entities[e].markers[v]
        } else {
            None
        }
    }

    /// Whether entity `e` carries the marker of variant `v`.
    pub fn has_marker(&self, e: usize, v: usize) -> (r: bool)
        ensures
            r == marker_spec(self@, e as int, v as int) is Some,
    {
        self.marker(e, v).is_some()
    }

    /// Whether the marker of variant `v` on entity `e` is present and was
    /// attached at tick `since` or later.
    pub fn marker_added_since(&self, e: usize, v: usize, since: u64) -> (r: bool)
        ensures
            r == (marker_spec(self@, e as int, v as int) matches Some(m) && m.added >= since),
    {
        match self.marker(e, v) {
            Some(m) => m.added >= since,
            None => false,
        }
    }

    /// Whether the marker of variant `v` on entity `e` is present and was
    /// written at tick `since` or later.
    pub fn marker_changed_since(&self, e: usize, v: usize, since: u64) -> (r: bool)
        ensures
            r == (marker_spec(self@, e as int, v as int) matches Some(m) && m.changed >= since),
    {
        match self.marker(e, v) {
            Some(m) => m.changed >= since,
            None => false,
        }
    }

    /// Spawns an entity with neither component nor marker, and returns it.
    /// A full world spawns nothing and returns `usize::MAX`, which names no
    /// entity.
    pub fn spawn(&mut self) -> (r: usize)
        requires
            world_wf(old(self)@),
        ensures
            final(self)@ == spawn_spec(old(self)@),
            old(self)@.entities.len() < usize::MAX ==> r == old(self)@.entities.len(),
            old(self)@.entities.len() == usize::MAX ==> r == usize::MAX,
            world_wf(final(self)@),
    {
        if self.entities.len() == usize::MAX {
            return usize::MAX;
        }
        let mut markers: Vec<Option<MarkerCell>> = Vec::new();
        let mut i: usize = 0;
        while i < self.variant_count
            invariant
                i <= self.variant_count,
                markers@ == no_markers(i as nat),
            decreases self.variant_count - i,
        {
            markers.push(None);
            assert(markers@ =~= no_markers((i + 1) as nat));
            i = i + 1;
        }
        let r = self.entities.len();
        let rec = EntityRecord { alive: true, component: None, markers };
        self.entities.push(rec);
        assert(self@.entities =~= spawn_spec(old(self)@).entities);
        r
    }

    /// Sets entity `e`'s component to `c`.
    fn put_component(&mut self, e: usize, c: Option<ComponentCell>)
        requires
            e < old(self)@.entities.len(),
        ensures
            final(self)@ == (WorldView { entities: with_component(old(self)@, e as int, c), ..old(self)@ }),
    {
        self.entities[e].component = c;
        assert(self@.entities =~= with_component(old(self)@, e as int, c));
    }

    /// Inserts variant `v` on entity `e`, replacing the value it held. With
    /// hooks, queues a strip of the replaced value's markers, then the marker
    /// of `v`. Returns whether anything happened: not where `e` is not live
    /// or `v` is not a variant.
    pub fn insert(&mut self, e: usize, v: usize) -> (r: bool)
        requires
            world_wf(old(self)@),
        ensures
            final(self)@ == insert_spec(old(self)@, e as int, v as int),
            r == (live(old(self)@, e as int) && v < old(self)@.variant_count),
            world_wf(final(self)@),
    {
        if !self.is_alive(e) || v >= self.variant_count {
            return false;
        }
        let prior = self.entities[e].component;
        let cell = match prior {
            Some(c) => ComponentCell { variant: v, added: c.added, changed: self.tick },
            None => ComponentCell { variant: v, added: self.tick, changed: self.tick },
        };
        self.put_component(e, Some(cell));
        if self.hooks {
            if prior.is_some() {
                self.commands.push(Command::StripMarkers { entity: e });
            }
            self.commands.push(Command::SetMarker { entity: e, variant: v });
        }
        proof {
            let w = insert_spec(old(self)@, e as int, v as int);
            assert(self@.commands =~= w.commands);
        }
        true
    }

    /// Inserts `value` on entity `e` as [`World::insert`] does with the
    /// index of its variant, and returns that index.
    pub fn insert_value<T: crate::EnumComponent>(&mut self, e: usize, value: &T) -> (v: usize)
        requires
            world_wf(old(self)@),
        ensures
            v == value.variant_spec(),
            final(self)@ == insert_spec(old(self)@, e as int, v as int),
            world_wf(final(self)@),
    {
        let v = value.variant_index();
        self.insert(e, v);
        v
    }

    /// Removes the component of entity `e`. The removal is recorded; with
    /// hooks, a strip of its markers is queued. Returns whether there was a
    /// component to remove.
    pub fn remove(&mut self, e: usize) -> (r: bool)
        requires
            world_wf(old(self)@),
        ensures
            final(self)@ == remove_spec(old(self)@, e as int),
            r == (live(old(self)@, e as int) && old(self)@.entities[e as int].component is Some),
            world_wf(final(self)@),
    {
        if !self.is_alive(e) || self.entities[e].component.is_none() {
            return false;
        }
        self.put_component(e, None);
        self.removed.push(e);
        if self.hooks {
            self.commands.push(Command::StripMarkers { entity: e });
        }
        true
    }

    /// Despawns entity `e`, with its component and markers. A component it
    /// held is recorded as removed; with hooks, a strip is queued, which will
    /// find the entity gone. Returns whether `e` was live.
    pub fn despawn(&mut self, e: usize) -> (r: bool)
        requires
            world_wf(old(self)@),
        ensures
            final(self)@ == despawn_spec(old(self)@, e as int),
            r == live(old(self)@, e as int),
            world_wf(final(self)@),
    {
        if !self.is_alive(e) {
            return false;
        }
        let had = self.entities[e].component.is_some();
        let mut markers: Vec<Option<MarkerCell>> = Vec::new();
        let mut i: usize = 0;
        while i < self.variant_count
            invariant
                i <= self.variant_count,
                markers@ == no_markers(i as nat),
            decreases self.variant_count - i,
        {
            markers.push(None);
            assert(markers@ =~= no_markers((i + 1) as nat));
            i = i + 1;
        }
        self.entities.set(e, EntityRecord { alive: false, component: None, markers });
        if had {
            self.removed.push(e);
            if self.hooks {
                self.commands.push(Command::StripMarkers { entity: e });
            }
        }
        proof {
            let w = despawn_spec(old(self)@, e as int);
            assert(self@.entities =~= w.entities);
        }
        true
    }
}

impl World {
    /// Replaces the markers of live entity `e` by `marked` or `stripped` of
    /// its current ones, as `keep` names a variant or none.
    fn rewrite_markers(&mut self, e: usize, keep: Option<usize>)
        requires
            world_wf(old(self)@),
            live(old(self)@, e as int),
            keep matches Some(v) ==> v < old(self)@.variant_count,
        ensures
            final(self)@ == with_markers(
                old(self)@,
                e as int,
                match keep {
                    Some(v) => marked(old(self)@.entities[e as int].markers, v as int, old(self)@.tick),
                    None => stripped(old(self)@.entities[e as int].markers),
                },
            ),
            world_wf(final(self)@),
    {
        let ghost ms = old(self)@.entities[e as int].markers;
        let ghost target = match keep {
            Some(v) => marked(ms, v as int, old(self)@.tick),
            None => stripped(ms),
        };
        assert(self.entities@[e as int]@.markers == ms);
        let n = self.entities[e].markers.len();
        let mut fresh: Vec<Option<MarkerCell>> = Vec::new();
        let mut i: usize = 0;
        while i < n
            invariant
                n == ms.len(),
                n == target.len(),
                keep matches Some(v) ==> target == marked(ms, v as int, old(self)@.tick),
                keep is None ==> target == stripped(ms),
                i <= n,
                self == old(self),
                e < self.entities@.len(),
                self.entities@[e as int]@.markers == ms,
                fresh@ == target.subrange(0, i as int),
            decreases n - i,
        {
            let cur = self.entities[e].markers[i];
            assert(cur == ms[i as int]);
            let next = match keep {
                Some(v) => match set_marker_action(v, i, cur.is_some()) {
                    MarkerAction::Remove => None,
                    MarkerAction::Keep => cur,
                    MarkerAction::Attach => Some(MarkerCell { added: self.tick, changed: self.tick }),
                },
                None => None,
            };
            fresh.push(next);
            assert(fresh@ =~= target.subrange(0, i + 1));
            i = i + 1;
        }
        assert(fresh@ =~= target);
        self.entities[e].markers = fresh;
        assert(self@.entities =~= with_markers(old(self)@, e as int, target).entities);
    }

    /// Applies one command at once.
    pub fn apply(&mut self, c: Command)
        requires
            world_wf(old(self)@),
        ensures
            final(self)@ == apply_command(old(self)@, c),
            world_wf(final(self)@),
    {
        match c {
            Command::SetMarker { entity, variant } => {
                if self.is_alive(entity) && variant < self.variant_count {
                    self.rewrite_markers(entity, Some(variant));
                }
            },
            Command::StripMarkers { entity } => {
                if self.is_alive(entity) {
                    self.rewrite_markers(entity, None);
                }
            },
        }
    }

    /// Queues a command, to be applied at the next flush.
    pub fn queue(&mut self, c: Command)
        ensures
            final(self)@ == (WorldView { commands: old(self)@.commands.push(c), ..old(self)@ }),
    {
        self.commands.push(c);
    }

    /// Applies the queued commands in order, empties the queue, and advances
    /// the tick.
    pub fn flush(&mut self)
        requires
            world_wf(old(self)@),
        ensures
            final(self)@ == flush_spec(old(self)@),
            world_wf(final(self)@),
    {
        let mut cmds: Vec<Command> = Vec::new();
        std::mem::swap(&mut cmds, &mut self.commands);
        let ghost w0 = old(self)@;
        assert(cmds@ == w0.commands);
        let mut i: usize = 0;
        while i < cmds.len()
            invariant
                cmds@ == w0.commands,
                i <= cmds@.len(),
                world_wf(self@),
                self@ == (WorldView { commands: Seq::empty(), ..apply_commands(w0, cmds@.take(i as int)) }),
            decreases cmds@.len() - i,
        {
            self.apply(cmds[i]);
            assert(cmds@.take(i + 1).drop_last() =~= cmds@.take(i as int));
            i = i + 1;
        }
        assert(cmds@.take(i as int) =~= cmds@);
        proof {
            lemma_apply_commands_frame(w0, w0.commands);
        }
        if self.tick < u64::MAX {
            self.tick = self.tick + 1;
        }
    }
}

} // verus!
