//! The polling strategy: watchers, run on a schedule, that bring markers in
//! step with components that were removed, inserted or replaced since they
//! last ran.
//!
//! Each watcher queues its commands behind those already queued and ends at
//! a sync point, where the queue is flushed. Within one cycle the removal
//! watcher must run before the change watcher: removals are reported without
//! saying whether a new value came after them, so a removal watcher that runs
//! second strips the marker that the change watcher has just set.
use crate::world::{Command, World, WorldView, flush_spec, live, world_wf};
use vstd::prelude::*;

verus! {

/// The removals that a watcher that has read the first `cursor` of them has
/// yet to read.
pub open spec fn pending_removals(w: WorldView, cursor: int) -> Seq<usize> {
    if 0 <= cursor <= w.removed.len() {
        w.removed.subrange(cursor, w.removed.len() as int)
    } else {
        Seq::empty()
    }
}

/// A strip for each entity of `es`, in order.
pub open spec fn strip_commands(es: Seq<usize>) -> Seq<Command> {
    es.map_values(|e: usize| Command::StripMarkers { entity: e })
}

/// Entity `e` is live and its component was written at tick `seen` or later.
pub open spec fn watched(w: WorldView, e: int, seen: u64) -> bool {
    &&& live(w, e)
    &&& (w.entities[e].component matches Some(c) && c.changed >= seen)
}

/// A set of the current variant's marker for each of the first `k` entities
/// that is watched from tick `seen`, in entity order.
pub open spec fn set_commands(w: WorldView, seen: u64, k: int) -> Seq<Command>
    decreases k,
{
    if k <= 0 {
        Seq::empty()
    } else {
        set_commands(w, seen, k - 1) + if watched(w, k - 1, seen) {
            seq![
                Command::SetMarker {
                    entity: (k - 1) as usize,
                    variant: w.entities[k - 1].component->Some_0.variant,
                },
            ]
        } else {
            Seq::empty()
        }
    }
}

/// A watcher's run: `own` is queued behind what is queued, and the queue is
/// flushed.
pub open spec fn run_spec(w: WorldView, own: Seq<Command>) -> WorldView {
    flush_spec(WorldView { commands: w.commands + own, ..w })
}

/// The removal watcher's run, from `cursor`.
pub open spec fn removal_pass(w: WorldView, cursor: int) -> WorldView {
    run_spec(w, strip_commands(pending_removals(w, cursor)))
}

/// The change watcher's run, from `seen`.
pub open spec fn change_pass(w: WorldView, seen: u64) -> WorldView {
    run_spec(w, set_commands(w, seen, w.entities.len() as int))
}

/// What the watchers remember between runs.
pub struct WatcherView {
    /// How many recorded removals the removal watcher has read.
    pub cursor: usize,
    /// The tick from which the change watcher looks for writes.
    pub seen: u64,
}

/// The watchers of the polling strategy, with what they remember between
/// runs.
pub struct EnumFilterSystems {
    cursor: usize,
    seen: u64,
}

impl View for EnumFilterSystems {
    type V = WatcherView;

    closed spec fn view(&self) -> WatcherView {
        WatcherView { cursor: self.cursor, seen: self.seen }
    }
}

impl EnumFilterSystems {
    /// Watchers that start from `world` as it is: earlier removals and
    /// writes are not seen; [`EnumFilterSystems::create_marker_for_enum`]
    /// covers what was there before.
    pub fn new(world: &World) -> (r: EnumFilterSystems)
        ensures
            r@ == (WatcherView { cursor: world@.removed.len() as usize, seen: world@.tick }),
    {
        EnumFilterSystems { cursor: world.removed_count(), seen: world.tick() }
    }

    /// The removal watcher: strips every marker of each entity whose component
    /// was removed since the last run. An entity that has been despawned
    /// since is passed over.
    pub fn remove_marker_for_enum(&mut self, world: &mut World)
        requires
            world_wf(old(world)@),
        ensures
            final(world)@ == removal_pass(old(world)@, old(self)@.cursor as int),
            final(self)@ == (WatcherView {
                cursor: old(world)@.removed.len() as usize,
                seen: old(self)@.seen,
            }),
            world_wf(final(world)@),
    {
        let ghost w0 = world@;
        let n = world.removed_count();
        let start = if self.cursor <= n {
            self.cursor
        } else {
            n
        };
        let ghost pending = pending_removals(w0, self.cursor as int);
        assert(pending =~= w0.removed.subrange(start as int, n as int));
        let mut k: usize = start;
        while k < n
            invariant
                start <= k <= n,
                n == w0.removed.len(),
                pending == w0.removed.subrange(start as int, n as int),
                world@ == (WorldView {
                    commands: w0.commands + strip_commands(pending.take(k - start)),
                    ..w0
                }),
            decreases n - k,
        {
            let e = world.removed_at(k);
            world.queue(Command::StripMarkers { entity: e });
            assert(strip_commands(pending.take(k + 1 - start)) =~= strip_commands(
                pending.take(k - start),
            ).push(Command::StripMarkers { entity: e }));
            k = k + 1;
        }
        assert(pending.take(n - start) =~= pending);
        assert(world@ == (WorldView { commands: w0.commands + strip_commands(pending), ..w0 }));
        world.flush();
        self.cursor = n;
    }

    /// The change watcher: sets the marker of the current variant on each
    /// entity whose component was inserted or replaced since the last run.
    pub fn watch_for_enum(&mut self, world: &mut World)
        requires
            world_wf(old(world)@),
        ensures
            final(world)@ == change_pass(old(world)@, old(self)@.seen),
            final(self)@ == (WatcherView { cursor: old(self)@.cursor, seen: final(world)@.tick }),
            world_wf(final(world)@),
    {
        set_markers_from(world, self.seen);
        self.seen = world.tick();
    }

    /// The initializer, to run once: sets the marker of the current variant
    /// on every entity that holds the component.
    pub fn create_marker_for_enum(world: &mut World)
        requires
            world_wf(old(world)@),
        ensures
            final(world)@ == change_pass(old(world)@, 0),
            world_wf(final(world)@),
    {
        set_markers_from(world, 0);
    }

    /// One cycle in the required order: the removal watcher, then the change
    /// watcher.
    pub fn run_update(&mut self, world: &mut World)
        requires
            world_wf(old(world)@),
        ensures
            final(world)@ == change_pass(
                removal_pass(old(world)@, old(self)@.cursor as int),
                old(self)@.seen,
            ),
            final(self)@ == (WatcherView {
                cursor: old(world)@.removed.len() as usize,
                seen: final(world)@.tick,
            }),
            world_wf(final(world)@),
    {
        self.remove_marker_for_enum(world);
        self.watch_for_enum(world);
    }
}

/// Queues a marker set for each entity watched from `seen`, then flushes.
fn set_markers_from(world: &mut World, seen: u64)
    requires
        world_wf(old(world)@),
    ensures
        final(world)@ == change_pass(old(world)@, seen),
        world_wf(final(world)@),
{
    let ghost w0 = world@;
    let n = world.entity_count();
    let mut e: usize = 0;
    while e < n
        invariant
            e <= n,
            n == w0.entities.len(),
            world_wf(w0),
            world@ == (WorldView { commands: w0.commands + set_commands(w0, seen, e as int), ..w0 }),
        decreases n - e,
    {
        let alive = world.is_alive(e);
        match world.component(e) {
            Some(c) => {
                if alive && c.changed >= seen {
                    world.queue(Command::SetMarker { entity: e, variant: c.variant });
                }
            },
            None => {},
        }
        assert(w0.commands + set_commands(w0, seen, e + 1) =~= world@.commands);
        e = e + 1;
    }
    world.flush();
}

} // verus!
