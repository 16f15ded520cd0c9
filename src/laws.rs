//! What holds of markers whatever the sequence of lifecycle events: at a
//! settle point every entity carries exactly the marker of the variant it
//! holds, and none where it holds no component.
use crate::systems::{
    WatcherView, change_pass, pending_removals, removal_pass, set_commands,
    strip_commands, watched,
};
use crate::world::{
    Command, EntityView, MarkerCell, WorldView, apply_command, apply_commands, despawn_spec,
    flush_spec, insert_hook_commands, insert_spec, lemma_apply_commands_frame, live, marked,
    marker_spec, new_world, no_markers, remove_spec, spawn_spec, stripped, variant_spec, world_wf,
};
use vstd::prelude::*;

verus! {

/// The markers of an entity are exactly that of the variant it holds.
pub open spec fn entity_synced(ev: EntityView) -> bool {
    forall|i: int|
        0 <= i < ev.markers.len() ==> ((#[trigger] ev.markers[i]) is Some <==> (
        ev.component matches Some(c) && c.variant == i))
}

/// Every entity carries exactly the marker of the variant it holds.
pub open spec fn synced(w: WorldView) -> bool {
    forall|e: int| 0 <= e < w.entities.len() ==> entity_synced(#[trigger] w.entities[e])
}

/// No entity carries two markers, and a marker on an entity that holds the
/// component is that of its variant.
pub open spec fn exclusive(w: WorldView) -> bool {
    &&& forall|e: int, i: int, j: int|
        marker_spec(w, e, i) is Some && marker_spec(w, e, j) is Some ==> i == j
    &&& forall|e: int, i: int|
        #![trigger marker_spec(w, e, i)]
        marker_spec(w, e, i) is Some && w.entities[e].component is Some
            ==> w.entities[e].component->Some_0.variant == i
}

/// An entity without the component carries no marker.
pub open spec fn absent_unmarked(w: WorldView) -> bool {
    forall|e: int, i: int|
        #![trigger marker_spec(w, e, i)]
        0 <= e < w.entities.len() && w.entities[e].component is None ==> marker_spec(w, e, i) is None
}

proof fn lemma_synced_settled(w: WorldView)
    requires
        world_wf(w),
        synced(w),
    ensures
        exclusive(w),
        absent_unmarked(w),
{
    assert forall|e: int, i: int, j: int|
        marker_spec(w, e, i) is Some && marker_spec(w, e, j) is Some implies i == j by {
        assert(entity_synced(w.entities[e]));
        assert(w.entities[e].markers[i] is Some);
        assert(w.entities[e].markers[j] is Some);
    }
    assert forall|e: int, i: int|
        #![trigger marker_spec(w, e, i)]
        marker_spec(w, e, i) is Some && w.entities[e].component is Some
            implies w.entities[e].component->Some_0.variant == i by {
        assert(entity_synced(w.entities[e]));
        assert(w.entities[e].markers[i] is Some);
    }
    assert forall|e: int, i: int|
        #![trigger marker_spec(w, e, i)]
        0 <= e < w.entities.len() && w.entities[e].component is None
            implies marker_spec(w, e, i) is None by {
        assert(entity_synced(w.entities[e]));
        if 0 <= i < w.entities[e].markers.len() {
            assert(w.entities[e].markers[i] is None);
        }
    }
}

/// Stripping the markers of an entity that carries none changes nothing.
pub proof fn lemma_strip_idempotent(w: WorldView, e: usize)
    requires
        world_wf(w),
        forall|i: int| marker_spec(w, e as int, i) is None,
    ensures
        apply_command(w, Command::StripMarkers { entity: e }) == w,
{
    if live(w, e as int) {
        let ev = w.entities[e as int];
        assert forall|i: int| 0 <= i < ev.markers.len() implies ev.markers[i] is None by {
            assert(marker_spec(w, e as int, i) is None);
        }
        assert(stripped(ev.markers) =~= ev.markers);
        assert(w.entities.update(e as int, EntityView { markers: stripped(ev.markers), ..ev }) =~= w.entities);
    }
}

/// Setting the marker of a variant on an entity that carries that marker
/// alone changes nothing: the marker is neither attached again nor written.
pub proof fn lemma_set_marker_idempotent(w: WorldView, e: usize, v: usize)
    requires
        world_wf(w),
        marker_spec(w, e as int, v as int) is Some,
        forall|i: int| i != v ==> marker_spec(w, e as int, i) is None,
    ensures
        apply_command(w, Command::SetMarker { entity: e, variant: v }) == w,
{
    if live(w, e as int) && v < w.variant_count {
        let ev = w.entities[e as int];
        assert forall|i: int| 0 <= i < ev.markers.len() && i != v implies ev.markers[i] is None by {
            assert(marker_spec(w, e as int, i) is None);
        }
        assert(marked(ev.markers, v as int, w.tick) =~= ev.markers);
        assert(w.entities.update(e as int, EntityView { markers: marked(ev.markers, v as int, w.tick), ..ev }) =~= w.entities);
    }
}

/// The entity a command is about.
pub open spec fn target(c: Command) -> usize {
    match c {
        Command::SetMarker { entity, .. } => entity,
        Command::StripMarkers { entity } => entity,
    }
}

proof fn lemma_apply_commands_concat(w: WorldView, a: Seq<Command>, b: Seq<Command>)
    ensures
        apply_commands(w, a + b) == apply_commands(apply_commands(w, a), b),
    decreases b.len(),
{
    if b.len() == 0 {
        assert(a + b =~= a);
    } else {
        assert((a + b).drop_last() =~= a + b.drop_last());
        assert((a + b).last() == b.last());
        lemma_apply_commands_concat(w, a, b.drop_last());
    }
}

proof fn lemma_apply_command_wf(w: WorldView, c: Command)
    requires
        world_wf(w),
    ensures
        world_wf(apply_command(w, c)),
{
    let a = apply_command(w, c);
    assert forall|e: int| 0 <= e < a.entities.len() implies {
        &&& (#[trigger] a.entities[e]).markers.len() == a.variant_count
        &&& (a.entities[e].component matches Some(c) ==> c.variant < a.variant_count)
        &&& (!a.entities[e].alive ==> a.entities[e].component is None
            && a.entities[e].markers == no_markers(a.variant_count))
    } by {
        assert(w.entities[e].markers.len() == w.variant_count);
    }
}

proof fn lemma_apply_commands_wf(w: WorldView, cs: Seq<Command>)
    requires
        world_wf(w),
    ensures
        world_wf(apply_commands(w, cs)),
    decreases cs.len(),
{
    if cs.len() > 0 {
        lemma_apply_commands_wf(w, cs.drop_last());
        lemma_apply_command_wf(apply_commands(w, cs.drop_last()), cs.last());
    }
}

/// The markers that commands leave on entity `y` depend only on whether `y`
/// is live and on the markers it starts with.
proof fn lemma_commands_local(w1: WorldView, w2: WorldView, cs: Seq<Command>, y: int)
    requires
        w1.tick == w2.tick,
        w1.variant_count == w2.variant_count,
        0 <= y < w1.entities.len(),
        y < w2.entities.len(),
        w1.entities[y].alive == w2.entities[y].alive,
        w1.entities[y].markers == w2.entities[y].markers,
    ensures
        apply_commands(w1, cs).entities[y].markers == apply_commands(w2, cs).entities[y].markers,
    decreases cs.len(),
{
    lemma_apply_commands_frame(w1, cs);
    lemma_apply_commands_frame(w2, cs);
    if cs.len() > 0 {
        lemma_commands_local(w1, w2, cs.drop_last(), y);
        lemma_apply_commands_frame(w1, cs.drop_last());
        lemma_apply_commands_frame(w2, cs.drop_last());
    }
}

/// Commands leave alone an entity that none of them is about.
proof fn lemma_commands_untargeted(w: WorldView, cs: Seq<Command>, y: int)
    requires
        0 <= y < w.entities.len(),
        forall|k: int| 0 <= k < cs.len() ==> target(#[trigger] cs[k]) != y,
    ensures
        apply_commands(w, cs).entities[y].markers == w.entities[y].markers,
    decreases cs.len(),
{
    if cs.len() > 0 {
        assert forall|k: int| 0 <= k < cs.drop_last().len() implies target(
            #[trigger] cs.drop_last()[k],
        ) != y by {
            assert(cs.drop_last()[k] == cs[k]);
        }
        assert(target(cs[cs.len() - 1]) != y);
        lemma_commands_untargeted(w, cs.drop_last(), y);
        lemma_apply_commands_frame(w, cs.drop_last());
    }
}

/// Commands leave alone an entity that is not live.
proof fn lemma_commands_dead(w: WorldView, cs: Seq<Command>, y: int)
    requires
        0 <= y < w.entities.len(),
        !w.entities[y].alive,
    ensures
        apply_commands(w, cs).entities[y].markers == w.entities[y].markers,
    decreases cs.len(),
{
    if cs.len() > 0 {
        lemma_commands_dead(w, cs.drop_last(), y);
        lemma_apply_commands_frame(w, cs.drop_last());
    }
}

/// A lifecycle event or a flush, as application code causes them.
#[derive(Clone, Copy, PartialEq, Eq, Debug, Structural)]
pub enum Op {
    /// A new entity.
    Spawn,
    /// An insert, or a replacement where the entity holds the component.
    Insert { entity: usize, variant: usize },
    /// A removal of the component.
    Remove { entity: usize },
    /// A despawn of the entity.
    Despawn { entity: usize },
    /// A flush of the command queue.
    Flush,
}

/// The effect of one event.
pub open spec fn step(w: WorldView, op: Op) -> WorldView {
    match op {
        Op::Spawn => spawn_spec(w),
        Op::Insert { entity, variant } => insert_spec(w, entity as int, variant as int),
        Op::Remove { entity } => remove_spec(w, entity as int),
        Op::Despawn { entity } => despawn_spec(w, entity as int),
        Op::Flush => flush_spec(w),
    }
}

/// The effect of events in order.
pub open spec fn run_ops(w: WorldView, ops: Seq<Op>) -> WorldView
    decreases ops.len(),
{
    if ops.len() == 0 {
        w
    } else {
        step(run_ops(w, ops.drop_last()), ops.last())
    }
}

/// Every queued command is about an entity that exists.
pub open spec fn commands_in_range(w: WorldView) -> bool {
    forall|k: int| 0 <= k < w.commands.len() ==> target(#[trigger] w.commands[k]) < w.entities.len()
}

/// What the hooks maintain between flushes: applying the queue would leave
/// every entity synced.
pub open spec fn hook_inv(w: WorldView) -> bool {
    &&& world_wf(w)
    &&& w.hooks
    &&& commands_in_range(w)
    &&& synced(apply_commands(w, w.commands))
}

proof fn lemma_step_wf(w: WorldView, op: Op)
    requires
        world_wf(w),
    ensures
        world_wf(step(w, op)),
{
    let a = step(w, op);
    match op {
        Op::Flush => {
            lemma_apply_commands_wf(w, w.commands);
            lemma_apply_commands_frame(w, w.commands);
            let b = apply_commands(w, w.commands);
            assert forall|e: int| 0 <= e < a.entities.len() implies {
                &&& (#[trigger] a.entities[e]).markers.len() == a.variant_count
                &&& (a.entities[e].component matches Some(c) ==> c.variant < a.variant_count)
                &&& (!a.entities[e].alive ==> a.entities[e].component is None
                    && a.entities[e].markers == no_markers(a.variant_count))
            } by {
                assert(a.entities[e] == b.entities[e]);
            }
        },
        _ => {
            assert forall|e: int| 0 <= e < a.entities.len() implies {
                &&& (#[trigger] a.entities[e]).markers.len() == a.variant_count
                &&& (a.entities[e].component matches Some(c) ==> c.variant < a.variant_count)
                &&& (!a.entities[e].alive ==> a.entities[e].component is None
                    && a.entities[e].markers == no_markers(a.variant_count))
            } by {
                if e < w.entities.len() {
                    assert(w.entities[e].markers.len() == w.variant_count);
                }
            }
        },
    }
}

/// Entities other than `e` are the same in `w` and `a`, and `a` queues the
/// commands of `w` followed by commands about `e` alone.
proof fn lemma_pending_others(w: WorldView, a: WorldView, e: int, extra: Seq<Command>, y: int)
    requires
        world_wf(w),
        a.tick == w.tick,
        a.variant_count == w.variant_count,
        w.entities.len() <= a.entities.len(),
        0 <= y < w.entities.len(),
        y != e,
        a.entities[y] == w.entities[y],
        a.commands == w.commands + extra,
        forall|k: int| 0 <= k < extra.len() ==> target(#[trigger] extra[k]) == e,
    ensures
        apply_commands(a, a.commands).entities[y] == apply_commands(w, w.commands).entities[y],
{
    lemma_apply_commands_concat(a, w.commands, extra);
    let p = apply_commands(a, w.commands);
    lemma_commands_local(a, w, w.commands, y);
    lemma_apply_commands_frame(a, w.commands);
    lemma_apply_commands_frame(w, w.commands);
    assert forall|k: int| 0 <= k < extra.len() implies target(#[trigger] extra[k]) != y by {}
    lemma_commands_untargeted(p, extra, y);
    lemma_apply_commands_frame(p, extra);
}

proof fn lemma_hook_step(w: WorldView, op: Op)
    requires
        hook_inv(w),
    ensures
        hook_inv(step(w, op)),
{
    lemma_step_wf(w, op);
    let a = step(w, op);
    let pa = apply_commands(a, a.commands);
    let pw = apply_commands(w, w.commands);
    lemma_apply_commands_frame(a, a.commands);
    lemma_apply_commands_frame(w, w.commands);
    match op {
        Op::Spawn => {
            assert(a.commands == w.commands + Seq::<Command>::empty());
            assert forall|y: int| 0 <= y < pa.entities.len() implies entity_synced(
                #[trigger] pa.entities[y],
            ) by {
                if y < w.entities.len() {
                    lemma_pending_others(w, a, w.entities.len() as int, Seq::empty(), y);
                    assert(entity_synced(pw.entities[y]));
                } else {
                    lemma_commands_untargeted(a, a.commands, y);
                }
            }
        },
        Op::Insert { entity, variant } => {
            let e = entity as int;
            if live(w, e) && variant < w.variant_count {
                let extra = insert_hook_commands_of(w, e, variant as int);
                assert(a.commands == w.commands + extra);
                assert forall|y: int| 0 <= y < pa.entities.len() implies entity_synced(
                    #[trigger] pa.entities[y],
                ) by {
                    if y != e {
                        lemma_pending_others(w, a, e, extra, y);
                        assert(entity_synced(pw.entities[y]));
                    } else {
                        lemma_last_command_sets(a, w.commands, extra, e, variant as int);
                    }
                }
            } else {
                assert(a == w);
            }
            assert(commands_in_range(a));
        },
        Op::Remove { entity } => {
            let e = entity as int;
            if live(w, e) && w.entities[e].component is Some {
                let extra = seq![Command::StripMarkers { entity: entity }];
                assert(a.commands == w.commands + extra);
                assert forall|y: int| 0 <= y < pa.entities.len() implies entity_synced(
                    #[trigger] pa.entities[y],
                ) by {
                    if y != e {
                        lemma_pending_others(w, a, e, extra, y);
                        assert(entity_synced(pw.entities[y]));
                    } else {
                        lemma_apply_commands_concat(a, w.commands, extra);
                        lemma_apply_commands_frame(a, w.commands);
                        assert(extra.drop_last() =~= Seq::<Command>::empty());
                    }
                }
            } else {
                assert(a == w);
            }
            assert(commands_in_range(a));
        },
        Op::Despawn { entity } => {
            let e = entity as int;
            if live(w, e) {
                let extra = if w.entities[e].component is Some {
                    seq![Command::StripMarkers { entity: entity }]
                } else {
                    Seq::<Command>::empty()
                };
                assert(a.commands =~= w.commands + extra);
                assert forall|y: int| 0 <= y < pa.entities.len() implies entity_synced(
                    #[trigger] pa.entities[y],
                ) by {
                    if y != e {
                        lemma_pending_others(w, a, e, extra, y);
                        assert(entity_synced(pw.entities[y]));
                    } else {
                        lemma_commands_dead(a, a.commands, y);
                    }
                }
            } else {
                assert(a == w);
            }
            assert(commands_in_range(a));
        },
        Op::Flush => {
            assert(a.commands.len() == 0);
            assert(pa == a);
            assert forall|y: int| 0 <= y < pa.entities.len() implies entity_synced(
                #[trigger] pa.entities[y],
            ) by {
                assert(entity_synced(pw.entities[y]));
            }
        },
    }
}

/// The commands the hooks queue on an insert of `v` on live entity `e`.
spec fn insert_hook_commands_of(w: WorldView, e: int, v: int) -> Seq<Command> {
    insert_hook_commands(w.entities[e].component is Some, e, v)
}

/// Commands that end with a set of variant `v` on live entity `e` leave it
/// carrying that marker alone.
proof fn lemma_last_command_sets(
    a: WorldView,
    cs: Seq<Command>,
    extra: Seq<Command>,
    e: int,
    v: int,
)
    requires
        world_wf(a),
        live(a, e),
        0 <= v < a.variant_count,
        e <= usize::MAX,
        v <= usize::MAX,
        a.entities[e].component matches Some(c) && c.variant == v,
        extra.len() > 0,
        extra.last() == (Command::SetMarker { entity: e as usize, variant: v as usize }),
    ensures
        entity_synced(apply_commands(a, cs + extra).entities[e]),
{
    let all = cs + extra;
    assert(all.last() == extra.last());
    let before = apply_commands(a, all.drop_last());
    lemma_apply_commands_frame(a, all.drop_last());
    lemma_apply_commands_frame(a, all);
    lemma_apply_commands_wf(a, all.drop_last());
    assert(before.entities[e].markers.len() == a.variant_count);
    let after = apply_commands(a, all);
    assert(after.entities[e].markers == marked(before.entities[e].markers, v, a.tick));
}

proof fn lemma_hook_run(w: WorldView, ops: Seq<Op>)
    requires
        hook_inv(w),
    ensures
        hook_inv(run_ops(w, ops)),
    decreases ops.len(),
{
    if ops.len() > 0 {
        lemma_hook_run(w, ops.drop_last());
        lemma_hook_step(run_ops(w, ops.drop_last()), ops.last());
    }
}

/// Hook strategy: from a settled world, whatever inserts, replacements,
/// removals, spawns, despawns and flushes follow, the next flush leaves every
/// entity with exactly the marker of the variant it holds: never two
/// markers, and none on an entity without the component.
pub proof fn lemma_hooks_settle(w: WorldView, ops: Seq<Op>)
    requires
        world_wf(w),
        w.hooks,
        w.commands.len() == 0,
        synced(w),
    ensures
        ({
            let s = flush_spec(run_ops(w, ops));
            &&& world_wf(s)
            &&& s.commands.len() == 0
            &&& synced(s)
            &&& exclusive(s)
            &&& absent_unmarked(s)
        }),
{
    assert(apply_commands(w, w.commands) == w);
    lemma_hook_run(w, ops);
    let a = run_ops(w, ops);
    lemma_hook_step(a, Op::Flush);
    let s = flush_spec(a);
    assert(s.commands.len() == 0);
    assert(apply_commands(s, s.commands) == s);
    lemma_synced_settled(s);
}

/// What the polling strategy maintains between cycles: every entity is
/// synced, or the change watcher will see its component, or it holds none
/// and the removal watcher will see its removal; and an entity whose removal
/// is still to be read holds no component or one written since `seen`.
pub open spec fn poll_inv(w: WorldView, cursor: int, seen: u64) -> bool {
    &&& world_wf(w)
    &&& !w.hooks
    &&& w.commands.len() == 0
    &&& 0 <= cursor <= w.removed.len()
    &&& seen <= w.tick
    &&& forall|k: int|
        cursor <= k < w.removed.len() ==> {
            &&& (#[trigger] w.removed[k]) < w.entities.len()
            &&& (w.entities[w.removed[k] as int].component matches Some(c) ==> c.changed >= seen)
        }
    &&& forall|x: int|
        0 <= x < w.entities.len() ==> {
            ||| entity_synced(#[trigger] w.entities[x])
            ||| watched(w, x, seen)
            ||| (w.entities[x].component is None && pending_removals(w, cursor).contains(x as usize))
        }
}

proof fn lemma_poll_step(w: WorldView, cursor: int, seen: u64, op: Op)
    requires
        poll_inv(w, cursor, seen),
    ensures
        poll_inv(step(w, op), cursor, seen),
{
    lemma_step_wf(w, op);
    let a = step(w, op);
    let pw = pending_removals(w, cursor);
    match op {
        Op::Spawn => {
            assert(pending_removals(a, cursor) == pw);
            assert forall|x: int| 0 <= x < a.entities.len() implies {
                ||| entity_synced(#[trigger] a.entities[x])
                ||| watched(a, x, seen)
                ||| (a.entities[x].component is None && pending_removals(a, cursor).contains(x as usize))
            } by {
                if x < w.entities.len() {
                    assert(a.entities[x] == w.entities[x]);
                    assert(entity_synced(w.entities[x]) || watched(w, x, seen) || (
                    w.entities[x].component is None && pw.contains(x as usize)));
                }
            }
        },
        Op::Insert { entity, variant } => {
            let e = entity as int;
            if live(w, e) && variant < w.variant_count {
                assert(pending_removals(a, cursor) == pw);
                assert(watched(a, e, seen));
                assert forall|x: int| 0 <= x < a.entities.len() implies {
                    ||| entity_synced(#[trigger] a.entities[x])
                    ||| watched(a, x, seen)
                    ||| (a.entities[x].component is None && pending_removals(a, cursor).contains(x as usize))
                } by {
                    if x != e {
                        assert(a.entities[x] == w.entities[x]);
                        assert(entity_synced(w.entities[x]) || watched(w, x, seen) || (
                        w.entities[x].component is None && pw.contains(x as usize)));
                    }
                }
                assert forall|k: int| cursor <= k < a.removed.len() implies {
                    &&& (#[trigger] a.removed[k]) < a.entities.len()
                    &&& (a.entities[a.removed[k] as int].component matches Some(c) ==> c.changed >= seen)
                } by {
                    assert(w.removed[k] < w.entities.len());
                }
            } else {
                assert(a == w);
            }
        },
        Op::Remove { entity } => {
            let e = entity as int;
            if live(w, e) && w.entities[e].component is Some {
                let pa = pending_removals(a, cursor);
                assert(pa =~= pw.push(entity));
                assert(pa.contains(entity)) by {
                    assert(pa[pa.len() - 1] == entity);
                }
                assert forall|x: int| 0 <= x < a.entities.len() implies {
                    ||| entity_synced(#[trigger] a.entities[x])
                    ||| watched(a, x, seen)
                    ||| (a.entities[x].component is None && pending_removals(a, cursor).contains(x as usize))
                } by {
                    if x != e {
                        assert(a.entities[x] == w.entities[x]);
                        assert(entity_synced(w.entities[x]) || watched(w, x, seen) || (
                        w.entities[x].component is None && pw.contains(x as usize)));
                        if w.entities[x].component is None && pw.contains(x as usize) {
                            let j = choose|j: int| 0 <= j < pw.len() && pw[j] == x as usize;
                            assert(pa[j] == x as usize);
                        }
                    }
                }
                assert forall|k: int| cursor <= k < a.removed.len() implies {
                    &&& (#[trigger] a.removed[k]) < a.entities.len()
                    &&& (a.entities[a.removed[k] as int].component matches Some(c) ==> c.changed >= seen)
                } by {
                    if k < w.removed.len() {
                        assert(w.removed[k] < w.entities.len());
                    }
                }
            } else {
                assert(a == w);
            }
        },
        Op::Despawn { entity } => {
            let e = entity as int;
            if live(w, e) {
                let pa = pending_removals(a, cursor);
                if w.entities[e].component is Some {
                    assert(pa =~= pw.push(entity));
                } else {
                    assert(pa == pw);
                }
                assert(entity_synced(a.entities[e]));
                assert forall|x: int| 0 <= x < a.entities.len() implies {
                    ||| entity_synced(#[trigger] a.entities[x])
                    ||| watched(a, x, seen)
                    ||| (a.entities[x].component is None && pending_removals(a, cursor).contains(x as usize))
                } by {
                    if x != e {
                        assert(a.entities[x] == w.entities[x]);
                        assert(entity_synced(w.entities[x]) || watched(w, x, seen) || (
                        w.entities[x].component is None && pw.contains(x as usize)));
                        if w.entities[x].component is None && pw.contains(x as usize) {
                            let j = choose|j: int| 0 <= j < pw.len() && pw[j] == x as usize;
                            assert(pa[j] == x as usize);
                        }
                    }
                }
                assert forall|k: int| cursor <= k < a.removed.len() implies {
                    &&& (#[trigger] a.removed[k]) < a.entities.len()
                    &&& (a.entities[a.removed[k] as int].component matches Some(c) ==> c.changed >= seen)
                } by {
                    if k < w.removed.len() {
                        assert(w.removed[k] < w.entities.len());
                    }
                }
            } else {
                assert(a == w);
            }
        },
        Op::Flush => {
            assert(apply_commands(w, w.commands) == w);
            assert(a.entities == w.entities);
            assert(pending_removals(a, cursor) == pw);
            assert forall|x: int| 0 <= x < a.entities.len() implies {
                ||| entity_synced(#[trigger] a.entities[x])
                ||| watched(a, x, seen)
                ||| (a.entities[x].component is None && pending_removals(a, cursor).contains(x as usize))
            } by {
                assert(entity_synced(w.entities[x]) || watched(w, x, seen) || (
                w.entities[x].component is None && pw.contains(x as usize)));
            }
        },
    }
}

/// Strips of the entities `es` leave each entity stripped if it is live and
/// among them, and as it was otherwise.
proof fn lemma_strips_effect(b: WorldView, es: Seq<usize>, x: int)
    requires
        world_wf(b),
        0 <= x < b.entities.len(),
    ensures
        apply_commands(b, strip_commands(es)).entities[x].markers == if live(b, x) && es.contains(
            x as usize,
        ) {
            no_markers(b.variant_count)
        } else {
            b.entities[x].markers
        },
    decreases es.len(),
{
    if es.len() > 0 {
        let init = es.drop_last();
        assert(strip_commands(es).drop_last() =~= strip_commands(init));
        lemma_strips_effect(b, init, x);
        lemma_apply_commands_frame(b, strip_commands(init));
        lemma_apply_commands_wf(b, strip_commands(init));
        assert(es.contains(x as usize) <==> (init.contains(x as usize) || es.last() == x as usize))
            by {
            if es.contains(x as usize) {
                let j = choose|j: int| 0 <= j < es.len() && es[j] == x as usize;
                if j < es.len() - 1 {
                    assert(init[j] == x as usize);
                }
            }
            if init.contains(x as usize) {
                let j = choose|j: int| 0 <= j < init.len() && init[j] == x as usize;
                assert(es[j] == x as usize);
            }
            if es.last() == x as usize {
                assert(es[es.len() - 1] == x as usize);
            }
        }
    }
}

/// The change watcher's sets, decided on `d` and applied from `b`, which
/// holds the same entities: each watched entity among the first `k` carries
/// the marker of its variant alone, and every other is as it was.
proof fn lemma_sets_effect(d: WorldView, b: WorldView, seen: u64, k: int, x: int)
    requires
        world_wf(d),
        b.entities == d.entities,
        b.variant_count == d.variant_count,
        0 <= k <= d.entities.len(),
        0 <= x < d.entities.len(),
    ensures
        apply_commands(b, set_commands(d, seen, k)).entities[x].markers == if x < k && watched(
            d,
            x,
            seen,
        ) {
            marked(d.entities[x].markers, d.entities[x].component->Some_0.variant as int, b.tick)
        } else {
            d.entities[x].markers
        },
    decreases k,
{
    lemma_apply_commands_frame(b, set_commands(d, seen, k));
    if k > 0 {
        let p = set_commands(d, seen, k - 1);
        let q = if watched(d, k - 1, seen) {
            seq![
                Command::SetMarker {
                    entity: (k - 1) as usize,
                    variant: d.entities[k - 1].component->Some_0.variant,
                },
            ]
        } else {
            Seq::<Command>::empty()
        };
        assert(set_commands(d, seen, k) == p + q);
        lemma_apply_commands_concat(b, p, q);
        lemma_sets_effect(d, b, seen, k - 1, x);
        let mid = apply_commands(b, p);
        lemma_apply_commands_frame(b, p);
        if x != k - 1 {
            assert forall|j: int| 0 <= j < q.len() implies target(#[trigger] q[j]) != x by {}
            lemma_commands_untargeted(mid, q, x);
        } else if watched(d, k - 1, seen) {
            assert(q.drop_last() =~= Seq::<Command>::empty());
            assert(apply_commands(mid, q.drop_last()) == mid);
            assert(d.entities[x].component->Some_0.variant < d.variant_count);
            assert(live(mid, x));
            assert(mid.entities[x].markers == d.entities[x].markers);
            assert(apply_commands(mid, q) == apply_command(mid, q.last()));
        } else {
            assert(apply_commands(mid, q) == mid);
        }
    } else {
        assert(set_commands(d, seen, k) =~= Seq::<Command>::empty());
    }
}

proof fn lemma_poll_cycle(w: WorldView, cursor: int, seen: u64)
    requires
        poll_inv(w, cursor, seen),
    ensures
        ({
            let s = change_pass(removal_pass(w, cursor), seen);
            &&& world_wf(s)
            &&& !s.hooks
            &&& s.commands.len() == 0
            &&& s.removed == w.removed
            &&& seen <= s.tick
            &&& synced(s)
        }),
{
    let pend = pending_removals(w, cursor);
    let strips = strip_commands(pend);
    let q1 = WorldView { commands: w.commands + strips, ..w };
    assert(q1.commands =~= strips);
    assert(world_wf(q1));
    let a1 = apply_commands(q1, strips);
    lemma_apply_commands_frame(q1, strips);
    lemma_apply_commands_wf(q1, strips);
    let w1 = removal_pass(w, cursor);
    assert(w1 == flush_spec(q1));
    assert(w1.entities == a1.entities);
    let sets = set_commands(w1, seen, w1.entities.len() as int);
    let q2 = WorldView { commands: w1.commands + sets, ..w1 };
    assert(q2.commands =~= sets);
    let a2 = apply_commands(q2, sets);
    lemma_apply_commands_frame(q2, sets);
    lemma_apply_commands_wf(q2, sets);
    let s = change_pass(w1, seen);
    assert(s == flush_spec(q2));
    assert(s.entities == a2.entities);
    assert forall|x: int| 0 <= x < s.entities.len() implies entity_synced(#[trigger] s.entities[x])
        by {
        lemma_strips_effect(q1, pend, x);
        lemma_sets_effect(w1, q2, seen, w1.entities.len() as int, x);
        assert(w1.entities[x].alive == w.entities[x].alive);
        assert(w1.entities[x].component == w.entities[x].component);
        assert(watched(w1, x, seen) == watched(w, x, seen));
        assert(w.entities[x].markers.len() == w.variant_count);
        assert(w1.entities[x].markers.len() == w.variant_count);
        if pend.contains(x as usize) {
            let j = choose|j: int| 0 <= j < pend.len() && pend[j] == x as usize;
            assert(w.removed[cursor + j] == pend[j]);
        }
        assert(entity_synced(w.entities[x]) || watched(w, x, seen) || (
        w.entities[x].component is None && pend.contains(x as usize)));
    }
}

proof fn lemma_poll_run(w: WorldView, cursor: int, seen: u64, ops: Seq<Op>)
    requires
        poll_inv(w, cursor, seen),
    ensures
        poll_inv(run_ops(w, ops), cursor, seen),
    decreases ops.len(),
{
    if ops.len() > 0 {
        lemma_poll_run(w, cursor, seen, ops.drop_last());
        lemma_poll_step(run_ops(w, ops.drop_last()), cursor, seen, ops.last());
    }
}

/// Polling strategy: from a settled world and watchers that have read all
/// of it, whatever inserts, replacements, removals, spawns, despawns and
/// flushes follow, one cycle that runs the removal watcher and then the
/// change watcher leaves every entity with exactly the marker of the variant
/// it holds: never two markers, and none on an entity without the component.
/// The world is then settled again, for the watchers as they stand after the
/// cycle.
pub proof fn lemma_polling_settles(w: WorldView, watchers: WatcherView, ops: Seq<Op>)
    requires
        world_wf(w),
        !w.hooks,
        w.commands.len() == 0,
        synced(w),
        watchers.cursor == w.removed.len(),
        watchers.seen <= w.tick,
    ensures
        ({
            let a = run_ops(w, ops);
            let s = change_pass(removal_pass(a, watchers.cursor as int), watchers.seen);
            &&& world_wf(s)
            &&& !s.hooks
            &&& s.commands.len() == 0
            &&& s.removed.len() == a.removed.len()
            &&& synced(s)
            &&& exclusive(s)
            &&& absent_unmarked(s)
        }),
{
    assert forall|x: int| 0 <= x < w.entities.len() implies {
        ||| entity_synced(#[trigger] w.entities[x])
        ||| watched(w, x, watchers.seen)
        ||| (w.entities[x].component is None && pending_removals(
            w,
            watchers.cursor as int,
        ).contains(x as usize))
    } by {}
    assert(poll_inv(w, watchers.cursor as int, watchers.seen));
    lemma_poll_run(w, watchers.cursor as int, watchers.seen, ops);
    let a = run_ops(w, ops);
    lemma_poll_cycle(a, watchers.cursor as int, watchers.seen);
    lemma_synced_settled(change_pass(removal_pass(a, watchers.cursor as int), watchers.seen));
}

/// The initializer, run on a world with nothing queued, leaves every entity
/// that holds the component with exactly the marker of its variant, and every
/// other entity as it was.
pub proof fn lemma_initializer_marks_holders(w: WorldView)
    requires
        world_wf(w),
        w.commands.len() == 0,
    ensures
        ({
            let s = change_pass(w, 0);
            &&& s.entities.len() == w.entities.len()
            &&& forall|x: int|
                0 <= x < w.entities.len() ==> {
                    &&& (w.entities[x].component is Some ==> entity_synced(
                        #[trigger] s.entities[x],
                    ))
                    &&& (w.entities[x].component is None ==> s.entities[x] == w.entities[x])
                }
        }),
{
    let sets = set_commands(w, 0, w.entities.len() as int);
    let q = WorldView { commands: w.commands + sets, ..w };
    assert(q.commands =~= sets);
    let s = change_pass(w, 0);
    lemma_apply_commands_frame(q, sets);
    assert(s.entities == apply_commands(q, sets).entities);
    assert forall|x: int| 0 <= x < w.entities.len() implies {
        &&& (w.entities[x].component is Some ==> entity_synced(#[trigger] s.entities[x]))
        &&& (w.entities[x].component is None ==> s.entities[x] == w.entities[x])
    } by {
        lemma_sets_effect(w, q, 0, w.entities.len() as int, x);
        assert(w.entities[x].markers.len() == w.variant_count);
    }
}

/// Hook strategy round trip: on a settled world, inserting variant `v` on a
/// live entity, whether it held nothing or another value, leaves it after the
/// next flush with the marker of `v` alone, attached at the tick of the
/// insert, so that it reports as newly added and as written no earlier.
pub proof fn lemma_hooks_round_trip(w: WorldView, e: usize, v: usize)
    requires
        world_wf(w),
        w.hooks,
        w.commands.len() == 0,
        synced(w),
        live(w, e as int),
        v < w.variant_count,
    ensures
        ({
            let s = flush_spec(insert_spec(w, e as int, v as int));
            &&& marker_spec(s, e as int, v as int) == Some(
                MarkerCell { added: w.tick, changed: w.tick },
            )
            &&& forall|i: int| i != v ==> marker_spec(s, e as int, i) is None
            &&& variant_spec(s, e as int) == Some(v)
        }),
{
    let a = insert_spec(w, e as int, v as int);
    let replacing = w.entities[e as int].component is Some;
    let extra = insert_hook_commands(replacing, e as int, v as int);
    assert(a.commands =~= extra);
    reveal_with_fuel(apply_commands, 3);
    assert(w.entities[e as int].markers.len() == w.variant_count);
    if !replacing {
        assert(entity_synced(w.entities[e as int]));
        assert forall|i: int| 0 <= i < w.variant_count implies w.entities[e as int].markers[i] is None by {}
        assert(extra.drop_last() =~= Seq::<Command>::empty());
    } else {
        assert(extra.drop_last().drop_last() =~= Seq::<Command>::empty());
    }
}

/// What a removal followed by an insert of `v` on live entity `e` leaves for
/// the watchers: `e` holds `v`, written since `seen`, and its removal is yet
/// to be read.
proof fn lemma_remove_insert_pending(w: WorldView, cursor: int, seen: u64, e: usize, v: usize)
    requires
        poll_inv(w, cursor, seen),
        live(w, e as int),
        w.entities[e as int].component is Some,
        v < w.variant_count,
    ensures
        ({
            let a = insert_spec(remove_spec(w, e as int), e as int, v as int);
            &&& poll_inv(a, cursor, seen)
            &&& a.tick == w.tick
            &&& live(a, e as int)
            &&& variant_spec(a, e as int) == Some(v)
            &&& watched(a, e as int, seen)
            &&& pending_removals(a, cursor).contains(e)
            &&& a.entities[e as int].markers == w.entities[e as int].markers
        }),
{
    let r = remove_spec(w, e as int);
    lemma_poll_step(w, cursor, seen, Op::Remove { entity: e });
    lemma_poll_step(r, cursor, seen, Op::Insert { entity: e, variant: v });
    let a = insert_spec(r, e as int, v as int);
    let pa = pending_removals(a, cursor);
    assert(pa[pa.len() - 1] == e);
}

/// Polling strategy, required order: on a settled world whose watchers have
/// read all of it, an entity whose component is removed and inserted again as
/// `v` before the next cycle carries, after a cycle that runs the removal
/// watcher and then the change watcher, the marker of `v` alone, attached
/// during that cycle.
pub proof fn lemma_polling_remove_insert(w: WorldView, watchers: WatcherView, e: usize, v: usize)
    requires
        world_wf(w),
        !w.hooks,
        w.commands.len() == 0,
        synced(w),
        watchers.cursor == w.removed.len(),
        watchers.seen <= w.tick,
        live(w, e as int),
        w.entities[e as int].component is Some,
        v < w.variant_count,
    ensures
        ({
            let a = insert_spec(remove_spec(w, e as int), e as int, v as int);
            let s = change_pass(removal_pass(a, watchers.cursor as int), watchers.seen);
            &&& marker_spec(s, e as int, v as int) matches Some(m) && m.added >= a.tick
            &&& forall|i: int| i != v ==> marker_spec(s, e as int, i) is None
        }),
{
    let cursor = watchers.cursor as int;
    let seen = watchers.seen;
    assert(poll_inv(w, cursor, seen));
    lemma_remove_insert_pending(w, cursor, seen, e, v);
    let a = insert_spec(remove_spec(w, e as int), e as int, v as int);
    lemma_poll_cycle(a, cursor, seen);
    let x = e as int;
    let pend = pending_removals(a, cursor);
    let strips = strip_commands(pend);
    let q1 = WorldView { commands: a.commands + strips, ..a };
    assert(q1.commands =~= strips);
    lemma_strips_effect(q1, pend, x);
    lemma_apply_commands_frame(q1, strips);
    let w1 = removal_pass(a, cursor);
    assert(world_wf(q1));
    lemma_step_wf(q1, Op::Flush);
    assert(w1 == flush_spec(q1));
    let sets = set_commands(w1, seen, w1.entities.len() as int);
    let q2 = WorldView { commands: w1.commands + sets, ..w1 };
    assert(q2.commands =~= sets);
    lemma_apply_commands_frame(q2, sets);
    assert(watched(w1, x, seen));
    lemma_sets_effect(w1, q2, seen, w1.entities.len() as int, x);
    let s = change_pass(w1, seen);
    assert(s.entities == apply_commands(q2, sets).entities);
    assert(w1.entities[x].markers == no_markers(a.variant_count));
    assert(w1.tick >= a.tick);
    assert(entity_synced(s.entities[x]));
    assert(s.entities[x].markers.len() == a.variant_count);
}

/// Polling strategy, reversed order: in the same situation, a cycle that runs
/// the change watcher before the removal watcher leaves the entity with no
/// marker at all, though it holds `v`: the removal, read second, strips the
/// marker that the change watcher has just set.
pub proof fn lemma_polling_reversed_order_unmarks(
    w: WorldView,
    watchers: WatcherView,
    e: usize,
    v: usize,
)
    requires
        world_wf(w),
        !w.hooks,
        w.commands.len() == 0,
        synced(w),
        watchers.cursor == w.removed.len(),
        watchers.seen <= w.tick,
        live(w, e as int),
        w.entities[e as int].component is Some,
        v < w.variant_count,
    ensures
        ({
            let a = insert_spec(remove_spec(w, e as int), e as int, v as int);
            let s = removal_pass(change_pass(a, watchers.seen), watchers.cursor as int);
            &&& forall|i: int| marker_spec(s, e as int, i) is None
            &&& variant_spec(s, e as int) == Some(v)
        }),
{
    let cursor = watchers.cursor as int;
    let seen = watchers.seen;
    assert(poll_inv(w, cursor, seen));
    lemma_remove_insert_pending(w, cursor, seen, e, v);
    let a = insert_spec(remove_spec(w, e as int), e as int, v as int);
    let x = e as int;
    let sets = set_commands(a, seen, a.entities.len() as int);
    let q1 = WorldView { commands: a.commands + sets, ..a };
    assert(q1.commands =~= sets);
    lemma_apply_commands_frame(q1, sets);
    lemma_apply_commands_wf(q1, sets);
    let w1 = change_pass(a, seen);
    assert(w1.entities == apply_commands(q1, sets).entities);
    assert(w1.removed == a.removed);
    assert(pending_removals(w1, cursor) == pending_removals(a, cursor));
    let pend = pending_removals(w1, cursor);
    let strips = strip_commands(pend);
    let q2 = WorldView { commands: w1.commands + strips, ..w1 };
    assert(q2.commands =~= strips);
    assert(world_wf(q2));
    lemma_strips_effect(q2, pend, x);
    lemma_apply_commands_frame(q2, strips);
    let s = removal_pass(w1, cursor);
    assert(s.entities == apply_commands(q2, strips).entities);
    assert(s.entities[x].markers == no_markers(a.variant_count));
}

/// Hook strategy, from a new world: whatever events follow, the next flush
/// leaves every entity with exactly the marker of the variant it holds.
pub proof fn lemma_hooks_settle_from_new(n: nat, ops: Seq<Op>)
    ensures
        ({
            let s = flush_spec(run_ops(new_world(n, true), ops));
            &&& synced(s)
            &&& exclusive(s)
            &&& absent_unmarked(s)
        }),
{
    lemma_hooks_settle(new_world(n, true), ops);
}

/// Polling strategy, from a new world and watchers made on it: whatever
/// events follow, one cycle in the required order leaves every entity with
/// exactly the marker of the variant it holds.
pub proof fn lemma_polling_settles_from_new(n: nat, ops: Seq<Op>)
    ensures
        ({
            let a = run_ops(new_world(n, false), ops);
            let s = change_pass(removal_pass(a, 0), 0);
            &&& synced(s)
            &&& exclusive(s)
            &&& absent_unmarked(s)
        }),
{
    lemma_polling_settles(new_world(n, false), WatcherView { cursor: 0, seen: 0 }, ops);
}

} // verus!
