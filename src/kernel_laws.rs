//! Properties of the tick resolver and of whole evaluations, proved from
//! the specifications that the kernel's functions meet.
use vstd::prelude::*;
use crate::contract::{DeathState, Level, Move, ObjectKind, Program};
use crate::evaluator::{
    alive_only,
    chosen,
    commit,
    killed_at_end,
    killed_in_middle,
    meets_at_end,
    no_berry,
    passable,
    passes_through,
    placements,
    run,
    selected,
    snapshot,
    start,
    target,
    tick,
    victory,
    defeat,
    world_of,
    ObjectInfo,
    World,
};

verus! {

/// Every object stands on an empty cell of the grid.
pub open spec fn on_empty_cells(w: World, objs: Seq<ObjectInfo>) -> bool {
    forall|k: int|
        0 <= k < objs.len() ==> passable(w.cells, objs[k].obj.row as int, objs[k].obj.col as int)
}

/// The grid's dimensions fit in `u64`, as those of any grid held in memory do.
pub open spec fn grid_fits(w: World) -> bool {
    &&& w.cells.len() <= u64::MAX
    &&& forall|r: int| 0 <= r < w.cells.len() ==> w.cells[r]@.len() <= u64::MAX
}

/// Number of objects of kind `kind`.
pub open spec fn count_kind(objs: Seq<ObjectInfo>, kind: ObjectKind) -> nat
    decreases objs.len(),
{
    if objs.len() == 0 {
        0
    } else {
        count_kind(objs.drop_last(), kind) + if objs.last().obj.kind == kind {
            1nat
        } else {
            0nat
        }
    }
}

proof fn lemma_alive_only_keeps(objs: Seq<ObjectInfo>, w: World)
    requires
        on_empty_cells(w, objs),
    ensures
        on_empty_cells(w, alive_only(objs)),
    decreases objs.len(),
{
    if objs.len() > 0 {
        lemma_alive_only_keeps(objs.drop_last(), w);
    }
}

proof fn lemma_tick_on_empty(w: World, objs: Seq<ObjectInfo>)
    requires
        grid_fits(w),
        on_empty_cells(w, objs),
    ensures
        on_empty_cells(w, tick(w, objs)),
        on_empty_cells(w, commit(tick(w, objs))),
{
    lemma_alive_only_keeps(objs, w);
    let a = alive_only(objs);
    let ms = selected(w, a);
    let t = tick(w, objs);
    assert forall|k: int| 0 <= k < t.len() implies passable(
        w.cells,
        t[k].next_row as int,
        t[k].next_col as int,
    ) by {
        assert(t[k].next_row == ms[k].next_row && t[k].next_col == ms[k].next_col);
    }
}

proof fn lemma_run_on_empty(w: World, objs: Seq<ObjectInfo>, budget: nat)
    requires
        grid_fits(w),
        on_empty_cells(w, objs),
    ensures
        forall|s: int, k: int|
            0 <= s < run(w, objs, budget).0.len() && 0 <= k < run(w, objs, budget).0[s].len()
                ==> passable(
                w.cells,
                run(w, objs, budget).0[s][k].row as int,
                run(w, objs, budget).0[s][k].col as int,
            ),
    decreases budget,
{
    if budget > 0 {
        let t = tick(w, objs);
        lemma_tick_on_empty(w, objs);
        lemma_run_on_empty(w, commit(t), (budget - 1) as nat);
        let r = run(w, objs, budget).0;
        let rest = run(w, commit(t), (budget - 1) as nat).0;
        assert forall|s: int, k: int| 0 <= s < r.len() && 0 <= k < r[s].len() implies passable(
            w.cells,
            r[s][k].row as int,
            r[s][k].col as int,
        ) by {
            if !(budget == 0 || victory(objs) || defeat(objs)) {
                if s == 0 {
                    assert(r[s] == snapshot(t));
                } else {
                    assert(r[s] == rest[s - 1]);
                }
            }
        }
    }
}

/// If every object of a level starts on an empty cell, then every object
/// of every step of an evaluation stands on an empty cell inside the grid.
pub proof fn lemma_objects_stay_on_empty_cells(level: Level, program: Program, move_limit: u64)
    requires
        grid_fits(world_of(level, program)),
        forall|k: int|
            0 <= k < level.state.objects@.len() ==> passable(
                level.state.cells@,
                level.state.objects@[k].row as int,
                level.state.objects@[k].col as int,
            ),
    ensures
        ({
            let steps = run(world_of(level, program), start(level.state.objects@), move_limit as nat).0;
            forall|s: int, k: int|
                0 <= s < steps.len() && 0 <= k < steps[s].len() ==> passable(
                    level.state.cells@,
                    steps[s][k].row as int,
                    steps[s][k].col as int,
                )
        }),
{
    let w = world_of(level, program);
    assert(on_empty_cells(w, start(level.state.objects@)));
    lemma_run_on_empty(w, start(level.state.objects@), move_limit as nat);
}

/// In a tick, every agent's intended move is what the rule matcher returns
/// on the state before the tick; its executed move is the same, or `Wait`
/// when the intended move leads into a wall or off the grid.
pub proof fn lemma_moves_follow_rules(w: World, objs: Seq<ObjectInfo>)
    ensures
        ({
            let a = alive_only(objs);
            let t = tick(w, objs);
            &&& t.len() == a.len()
            &&& forall|k: int|
                0 <= k < t.len() && a[k].obj.kind != ObjectKind::Berry ==> {
                    let intended = chosen(w, a, k).1;
                    let dest = target(a[k].obj.row as int, a[k].obj.col as int, intended);
                    &&& t[k].obj.intended_move == intended
                    &&& t[k].state == chosen(w, a, k).0
                    &&& (t[k].obj.current_move == intended || (t[k].obj.current_move == Move::Wait
                        && !passable(w.cells, dest.0, dest.1)))
                }
        }),
{
}

proof fn lemma_count_alive_only(objs: Seq<ObjectInfo>, kind: ObjectKind)
    ensures
        count_kind(alive_only(objs), kind) <= count_kind(objs, kind),
    decreases objs.len(),
{
    if objs.len() > 0 {
        lemma_count_alive_only(objs.drop_last(), kind);
        let rest = alive_only(objs.drop_last());
        if objs.last().obj.state == DeathState::Alive {
            assert(rest.push(objs.last()).drop_last() =~= rest);
        }
    }
}

proof fn lemma_count_same_kinds(a: Seq<ObjectInfo>, b: Seq<ObjectInfo>, kind: ObjectKind)
    requires
        a.len() == b.len(),
        forall|k: int| 0 <= k < a.len() ==> a[k].obj.kind == b[k].obj.kind,
    ensures
        count_kind(a, kind) == count_kind(b, kind),
    decreases a.len(),
{
    if a.len() > 0 {
        lemma_count_same_kinds(a.drop_last(), b.drop_last(), kind);
    }
}

/// Over a tick, the number of ghosts, of berries and of Pac-Men never grows.
pub proof fn lemma_counts_never_grow(w: World, objs: Seq<ObjectInfo>, kind: ObjectKind)
    ensures
        count_kind(commit(tick(w, objs)), kind) <= count_kind(objs, kind),
        count_kind(tick(w, objs), kind) <= count_kind(objs, kind),
{
    let a = alive_only(objs);
    lemma_count_alive_only(objs, kind);
    lemma_count_same_kinds(tick(w, objs), a, kind);
    lemma_count_same_kinds(commit(tick(w, objs)), a, kind);
}

/// When no berry is left at the start of a tick, Pac-Man survives the tick,
/// and every ghost it meets or passes through dies.
pub proof fn lemma_empowered_pacman_survives(w: World, objs: Seq<ObjectInfo>)
    requires
        no_berry(placements(alive_only(objs))),
    ensures
        ({
            let t = tick(w, objs);
            let ms = selected(w, alive_only(objs));
            &&& forall|k: int|
                0 <= k < t.len() && t[k].obj.kind == ObjectKind::Pacman ==> t[k].obj.state
                    == DeathState::Alive
            &&& forall|p: int, g: int|
                0 <= p < t.len() && 0 <= g < t.len() && (meets_at_end(ms, p, g) || passes_through(
                    ms,
                    p,
                    g,
                )) ==> t[g].obj.state != DeathState::Alive
        }),
{
    let a = alive_only(objs);
    let ms = selected(w, a);
    let t = tick(w, objs);
    assert forall|p: int, g: int|
        0 <= p < t.len() && 0 <= g < t.len() && (meets_at_end(ms, p, g) || passes_through(
            ms,
            p,
            g,
        )) implies t[g].obj.state != DeathState::Alive by {
        if meets_at_end(ms, p, g) {
            assert(killed_at_end(ms, true, g));
        } else {
            assert(killed_in_middle(ms, true, g));
        }
    }
}

/// When a berry is still on the grid at the start of a tick, a Pac-Man that
/// meets or passes through a ghost in that tick dies, even if it also
/// reaches the berry in that tick.
pub proof fn lemma_berry_does_not_save_same_tick(w: World, objs: Seq<ObjectInfo>)
    requires
        !no_berry(placements(alive_only(objs))),
    ensures
        ({
            let t = tick(w, objs);
            let ms = selected(w, alive_only(objs));
            forall|p: int, g: int|
                0 <= p < t.len() && 0 <= g < t.len() && (meets_at_end(ms, p, g) || passes_through(
                    ms,
                    p,
                    g,
                )) ==> t[p].obj.state != DeathState::Alive
        }),
{
    let a = alive_only(objs);
    let ms = selected(w, a);
    let t = tick(w, objs);
    assert forall|p: int, g: int|
        0 <= p < t.len() && 0 <= g < t.len() && (meets_at_end(ms, p, g) || passes_through(
            ms,
            p,
            g,
        )) implies t[p].obj.state != DeathState::Alive by {
        if meets_at_end(ms, p, g) {
            assert(killed_at_end(ms, false, p));
        } else {
            assert(killed_in_middle(ms, false, p));
        }
    }
}

} // verus!
