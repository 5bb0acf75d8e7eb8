//! Breadth-first distances over the open passages of a maze.
//!
//! [`calculate_distances`] flood-fills the grid from a source cell, walking
//! only through open walls, and returns one hop count per cell (`i32::MAX`
//! for cells no open path reaches, which cannot happen in a perfect maze)
//! together with the largest entry. Turning the raw counts into a normalized
//! scalar field for display is left to the caller, since it is a matter of
//! presentation, not of the traversal.

use vstd::prelude::*;

use crate::grid::{lemma_flat_index_bounds, lemma_flat_index_injective, BoundaryState, Grid};

verus! {

/// Whether the wall between the cell at `(x1, y1)` and the adjacent cell at
/// `(x2, y2)` stands open, read from the first cell's side.
pub open spec fn open_between(g: Grid, x1: int, y1: int, x2: int, y2: int) -> bool {
    ||| (x2 == x1 && y2 == y1 - 1 && g.cell(x1, y1).up == BoundaryState::Open)
    ||| (x2 == x1 + 1 && y2 == y1 && g.cell(x1, y1).right == BoundaryState::Open)
    ||| (x2 == x1 && y2 == y1 + 1 && g.cell(x1, y1).down == BoundaryState::Open)
    ||| (x2 == x1 - 1 && y2 == y1 && g.cell(x1, y1).left == BoundaryState::Open)
}

/// There is a path of at most `d` open walls from `(sx, sy)` to `(x, y)`.
pub open spec fn reachable_within(g: Grid, sx: int, sy: int, x: int, y: int, d: nat) -> bool
    decreases d,
{
    (x == sx && y == sy) || (d > 0 && exists|px: int, py: int|
        #![auto]
        g.in_bounds(px, py) && open_between(g, px, py, x, y) && reachable_within(
            g,
            sx,
            sy,
            px,
            py,
            (d - 1) as nat,
        ))
}

/// Some path of open walls leads from `(sx, sy)` to `(x, y)`.
pub open spec fn reachable(g: Grid, sx: int, sy: int, x: int, y: int) -> bool {
    exists|d: nat| reachable_within(g, sx, sy, x, y, d)
}

/// The largest entry of a non-empty sequence.
pub open spec fn seq_max_i32(s: Seq<i32>) -> int
    decreases s.len(),
{
    if s.len() <= 1 {
        s[0] as int
    } else if s.last() as int > seq_max_i32(s.drop_last()) {
        s.last() as int
    } else {
        seq_max_i32(s.drop_last())
    }
}

/// The smaller of two integers.
pub open spec fn min2(a: int, b: int) -> int {
    if a < b {
        a
    } else {
        b
    }
}

/// How many entries of the sequence are true.
pub open spec fn count_true(s: Seq<bool>) -> int
    decreases s.len(),
{
    if s.len() == 0 {
        0
    } else {
        count_true(s.drop_last()) + if s.last() {
            1int
        } else {
            0int
        }
    }
}

proof fn lemma_count_true_bounds(s: Seq<bool>)
    ensures
        0 <= count_true(s) <= s.len(),
    decreases s.len(),
{
    if s.len() > 0 {
        lemma_count_true_bounds(s.drop_last());
    }
}

proof fn lemma_count_true_update(s: Seq<bool>, i: int)
    requires
        0 <= i < s.len(),
        !s[i],
    ensures
        count_true(s.update(i, true)) == count_true(s) + 1,
    decreases s.len(),
{
    let t = s.update(i, true);
    if i == s.len() - 1 {
        assert(t.drop_last() =~= s.drop_last());
    } else {
        assert(t.drop_last() =~= s.drop_last().update(i, true));
        lemma_count_true_update(s.drop_last(), i);
    }
}

proof fn lemma_count_true_zero(s: Seq<bool>)
    requires
        forall|k: int| 0 <= k < s.len() ==> !s[k],
    ensures
        count_true(s) == 0,
    decreases s.len(),
{
    if s.len() > 0 {
        lemma_count_true_zero(s.drop_last());
    }
}

/// A cell waiting in the unread part of the queue.
pub open spec fn queued(queue: Seq<(usize, usize)>, head: int, x: int, y: int) -> bool {
    exists|qi: int|
        #![auto]
        head <= qi < queue.len() && queue[qi].0 as int == x && queue[qi].1 as int == y
}

/// A queued cell other than the one at the read position stays queued after
/// the read position moves past it, also when the queue has grown since.
proof fn lemma_queued_step(
    q0: Seq<(usize, usize)>,
    q1: Seq<(usize, usize)>,
    h0: int,
    x: int,
    y: int,
)
    requires
        0 <= h0 < q0.len(),
        q0.len() <= q1.len(),
        forall|j: int| 0 <= j < q0.len() ==> q1[j] == q0[j],
        queued(q0, h0, x, y),
        !(q0[h0].0 as int == x && q0[h0].1 as int == y),
    ensures
        queued(q1, h0 + 1, x, y),
{
    let qi = choose|qi: int|
        #![auto]
        h0 <= qi < q0.len() && q0[qi].0 as int == x && q0[qi].1 as int == y;
    assert(q1[qi].0 as int == x && q1[qi].1 as int == y);
}

/// The closure bookkeeping of one traversal round: the cell read from the
/// queue is marked visited and each of its open neighbours is appended, so
/// every visited cell still has each open neighbour visited or waiting in
/// the unread part of the queue.
proof fn lemma_closure_after_visit(
    g: Grid,
    q0: Seq<(usize, usize)>,
    q1: Seq<(usize, usize)>,
    h0: int,
    vis0: Seq<bool>,
    vis1: Seq<bool>,
    cx: int,
    cy: int,
    iu: int,
    ir: int,
    idn: int,
    il: int,
)
    requires
        g.wf(),
        g.borders_closed(),
        vis0.len() == g.width() * g.height(),
        g.in_bounds(cx, cy),
        vis1 == vis0.update(cy * g.width() + cx, true) || (vis1 == vis0 && vis0[cy * g.width()
            + cx]),
        0 <= h0 < q0.len(),
        q0[h0].0 as int == cx,
        q0[h0].1 as int == cy,
        q0.len() <= q1.len(),
        forall|j: int| 0 <= j < q0.len() ==> q1[j] == q0[j],
        forall|a: int, b: int|
            #![trigger g.cell(a, b)]
            g.in_bounds(a, b) && vis0[b * g.width() + a] ==> {
                &&& (g.cell(a, b).up == BoundaryState::Open ==> vis0[(b - 1) * g.width() + a]
                    || queued(q0, h0, a, b - 1))
                &&& (g.cell(a, b).right == BoundaryState::Open ==> vis0[b * g.width() + a + 1]
                    || queued(q0, h0, a + 1, b))
                &&& (g.cell(a, b).down == BoundaryState::Open ==> vis0[(b + 1) * g.width() + a]
                    || queued(q0, h0, a, b + 1))
                &&& (g.cell(a, b).left == BoundaryState::Open ==> vis0[b * g.width() + a - 1]
                    || queued(q0, h0, a - 1, b))
            },
        vis1[cy * g.width() + cx],
        !vis0[cy * g.width() + cx] && g.cell(cx, cy).up == BoundaryState::Open ==> h0 + 1 <= iu
            < q1.len() && q1[iu].0 as int == cx && q1[iu].1 as int == cy - 1,
        !vis0[cy * g.width() + cx] && g.cell(cx, cy).right == BoundaryState::Open ==> h0 + 1 <= ir
            < q1.len() && q1[ir].0 as int == cx + 1 && q1[ir].1 as int == cy,
        !vis0[cy * g.width() + cx] && g.cell(cx, cy).down == BoundaryState::Open ==> h0 + 1 <= idn
            < q1.len() && q1[idn].0 as int == cx && q1[idn].1 as int == cy + 1,
        !vis0[cy * g.width() + cx] && g.cell(cx, cy).left == BoundaryState::Open ==> h0 + 1 <= il
            < q1.len() && q1[il].0 as int == cx - 1 && q1[il].1 as int == cy,
    ensures
        forall|a: int, b: int|
            #![trigger g.cell(a, b)]
            g.in_bounds(a, b) && vis1[b * g.width() + a] ==> {
                &&& (g.cell(a, b).up == BoundaryState::Open ==> vis1[(b - 1) * g.width() + a]
                    || queued(q1, h0 + 1, a, b - 1))
                &&& (g.cell(a, b).right == BoundaryState::Open ==> vis1[b * g.width() + a + 1]
                    || queued(q1, h0 + 1, a + 1, b))
                &&& (g.cell(a, b).down == BoundaryState::Open ==> vis1[(b + 1) * g.width() + a]
                    || queued(q1, h0 + 1, a, b + 1))
                &&& (g.cell(a, b).left == BoundaryState::Open ==> vis1[b * g.width() + a - 1]
                    || queued(q1, h0 + 1, a - 1, b))
            },
{
    let w = g.width();
    let h = g.height();
    lemma_flat_index_bounds(w, h, cx, cy);
    assert forall|a: int, b: int|
        #![trigger g.cell(a, b)]
        g.in_bounds(a, b) && vis1[b * w + a] implies {
        &&& (g.cell(a, b).up == BoundaryState::Open ==> vis1[(b - 1) * w + a]
            || queued(q1, h0 + 1, a, b - 1))
        &&& (g.cell(a, b).right == BoundaryState::Open ==> vis1[b * w + a + 1]
            || queued(q1, h0 + 1, a + 1, b))
        &&& (g.cell(a, b).down == BoundaryState::Open ==> vis1[(b + 1) * w + a]
            || queued(q1, h0 + 1, a, b + 1))
        &&& (g.cell(a, b).left == BoundaryState::Open ==> vis1[b * w + a - 1]
            || queued(q1, h0 + 1, a - 1, b))
    } by {
        lemma_flat_index_bounds(w, h, a, b);
        lemma_flat_index_injective(w, a, b, cx, cy);
        if a == cx && b == cy && !vis0[cy * w + cx] {
            if g.cell(a, b).up == BoundaryState::Open {
                assert(h0 + 1 <= iu < q1.len() && q1[iu].0 as int == cx && q1[iu].1 as int
                    == cy - 1);
                assert(queued(q1, h0 + 1, a, b - 1));
            }
            if g.cell(a, b).right == BoundaryState::Open {
                assert(h0 + 1 <= ir < q1.len() && q1[ir].0 as int == cx + 1 && q1[ir].1 as int
                    == cy);
                assert(queued(q1, h0 + 1, a + 1, b));
            }
            if g.cell(a, b).down == BoundaryState::Open {
                assert(h0 + 1 <= idn < q1.len() && q1[idn].0 as int == cx && q1[idn].1 as int
                    == cy + 1);
                assert(queued(q1, h0 + 1, a, b + 1));
            }
            if g.cell(a, b).left == BoundaryState::Open {
                assert(h0 + 1 <= il < q1.len() && q1[il].0 as int == cx - 1 && q1[il].1 as int
                    == cy);
                assert(queued(q1, h0 + 1, a - 1, b));
            }
        } else {
            assert(vis0[b * w + a]);
            if g.cell(a, b).up == BoundaryState::Open {
                lemma_flat_index_bounds(w, h, a, b - 1);
                lemma_flat_index_injective(w, a, b - 1, cx, cy);
                if !vis0[(b - 1) * w + a] {
                    assert(queued(q0, h0, a, b - 1));
                    if !(q0[h0].0 as int == a && q0[h0].1 as int == b - 1) {
                        lemma_queued_step(q0, q1, h0, a, b - 1);
                    }
                }
            }
            if g.cell(a, b).right == BoundaryState::Open {
                lemma_flat_index_bounds(w, h, a + 1, b);
                lemma_flat_index_injective(w, a + 1, b, cx, cy);
                if !vis0[b * w + a + 1] {
                    assert(queued(q0, h0, a + 1, b));
                    if !(q0[h0].0 as int == a + 1 && q0[h0].1 as int == b) {
                        lemma_queued_step(q0, q1, h0, a + 1, b);
                    }
                }
            }
            if g.cell(a, b).down == BoundaryState::Open {
                lemma_flat_index_bounds(w, h, a, b + 1);
                lemma_flat_index_injective(w, a, b + 1, cx, cy);
                if !vis0[(b + 1) * w + a] {
                    assert(queued(q0, h0, a, b + 1));
                    if !(q0[h0].0 as int == a && q0[h0].1 as int == b + 1) {
                        lemma_queued_step(q0, q1, h0, a, b + 1);
                    }
                }
            }
            if g.cell(a, b).left == BoundaryState::Open {
                lemma_flat_index_bounds(w, h, a - 1, b);
                lemma_flat_index_injective(w, a - 1, b, cx, cy);
                if !vis0[b * w + a - 1] {
                    assert(queued(q0, h0, a - 1, b));
                    if !(q0[h0].0 as int == a - 1 && q0[h0].1 as int == b) {
                        lemma_queued_step(q0, q1, h0, a - 1, b);
                    }
                }
            }
        }
    }
}

/// If the set of visited cells contains the source and is closed under
/// stepping through an open wall, it contains every cell a path of open
/// walls reaches.
proof fn lemma_closed_set_covers(
    g: Grid,
    sx: int,
    sy: int,
    visited: Seq<bool>,
    x: int,
    y: int,
    d: nat,
)
    requires
        g.wf(),
        g.borders_closed(),
        visited.len() == g.width() * g.height(),
        g.in_bounds(sx, sy),
        visited[sy * g.width() + sx],
        forall|a: int, b: int|
            #![trigger g.cell(a, b)]
            g.in_bounds(a, b) && visited[b * g.width() + a] ==> {
                &&& (g.cell(a, b).up == BoundaryState::Open ==> visited[(b - 1) * g.width() + a])
                &&& (g.cell(a, b).right == BoundaryState::Open ==> visited[b * g.width() + a + 1])
                &&& (g.cell(a, b).down == BoundaryState::Open ==> visited[(b + 1) * g.width() + a])
                &&& (g.cell(a, b).left == BoundaryState::Open ==> visited[b * g.width() + a - 1])
            },
        g.in_bounds(x, y),
        reachable_within(g, sx, sy, x, y, d),
    ensures
        visited[y * g.width() + x],
    decreases d,
{
    if !(x == sx && y == sy) {
        let (px, py) = choose|px: int, py: int|
            #![auto]
            g.in_bounds(px, py) && open_between(g, px, py, x, y) && reachable_within(
                g,
                sx,
                sy,
                px,
                py,
                (d - 1) as nat,
            );
        lemma_closed_set_covers(g, sx, sy, visited, px, py, (d - 1) as nat);
    }
}

/// An unread queue entry for the cell at `(x, y)` whose recorded push value
/// equals `v`.
pub open spec fn pv_witness(
    queue: Seq<(usize, usize)>,
    pv: Seq<int>,
    head: int,
    x: int,
    y: int,
    v: int,
) -> bool {
    exists|qi: int|
        #![auto]
        head <= qi < queue.len() && qi < pv.len() && queue[qi].0 as int == x && queue[qi].1
            as int == y && pv[qi] == v
}

/// A push-value witness for a cell other than the one at the read position
/// survives the read position moving past it and the queue growing, as long
/// as the grown queue and push values keep the old entries.
proof fn lemma_pv_witness_step(
    q0: Seq<(usize, usize)>,
    q1: Seq<(usize, usize)>,
    pv0: Seq<int>,
    pv1: Seq<int>,
    h0: int,
    x: int,
    y: int,
    v: int,
)
    requires
        0 <= h0 < q0.len(),
        q0.len() <= q1.len(),
        pv0.len() == q0.len(),
        pv1.len() == q1.len(),
        forall|j: int| 0 <= j < q0.len() ==> q1[j] == q0[j],
        forall|j: int| 0 <= j < q0.len() ==> pv1[j] == pv0[j],
        pv_witness(q0, pv0, h0, x, y, v),
        !(q0[h0].0 as int == x && q0[h0].1 as int == y),
    ensures
        pv_witness(q1, pv1, h0 + 1, x, y, v),
{
    let qi = choose|qi: int|
        #![auto]
        h0 <= qi < q0.len() && qi < pv0.len() && q0[qi].0 as int == x && q0[qi].1 as int == y
            && pv0[qi] == v;
    assert(q1[qi].0 as int == x && q1[qi].1 as int == y && pv1[qi] == v);
}

/// If the distances are zero at the source, at most one more hop across
/// every open wall out of a visited cell, and the visited set contains the
/// source and is closed under stepping through an open wall, then no cell's
/// entry exceeds its hop distance from the source.
proof fn lemma_distances_minimal(
    g: Grid,
    sx: int,
    sy: int,
    visited: Seq<bool>,
    dist: Seq<i32>,
    x: int,
    y: int,
    d: nat,
)
    requires
        g.wf(),
        g.borders_closed(),
        visited.len() == g.width() * g.height(),
        dist.len() == g.width() * g.height(),
        g.in_bounds(sx, sy),
        dist[sy * g.width() + sx] == 0,
        visited[sy * g.width() + sx],
        forall|a: int, b: int|
            #![trigger g.cell(a, b)]
            g.in_bounds(a, b) && visited[b * g.width() + a] ==> {
                &&& (g.cell(a, b).up == BoundaryState::Open ==> visited[(b - 1) * g.width() + a])
                &&& (g.cell(a, b).right == BoundaryState::Open ==> visited[b * g.width() + a + 1])
                &&& (g.cell(a, b).down == BoundaryState::Open ==> visited[(b + 1) * g.width() + a])
                &&& (g.cell(a, b).left == BoundaryState::Open ==> visited[b * g.width() + a - 1])
            },
        forall|a: int, b: int|
            #![trigger g.cell(a, b)]
            g.in_bounds(a, b) && visited[b * g.width() + a] ==> {
                &&& (g.cell(a, b).up == BoundaryState::Open ==> dist[(b - 1) * g.width() + a]
                    <= dist[b * g.width() + a] + 1)
                &&& (g.cell(a, b).right == BoundaryState::Open ==> dist[b * g.width() + a + 1]
                    <= dist[b * g.width() + a] + 1)
                &&& (g.cell(a, b).down == BoundaryState::Open ==> dist[(b + 1) * g.width() + a]
                    <= dist[b * g.width() + a] + 1)
                &&& (g.cell(a, b).left == BoundaryState::Open ==> dist[b * g.width() + a - 1]
                    <= dist[b * g.width() + a] + 1)
            },
        g.in_bounds(x, y),
        reachable_within(g, sx, sy, x, y, d),
    ensures
        dist[y * g.width() + x] <= d,
    decreases d,
{
    if !(x == sx && y == sy) {
        let (px, py) = choose|px: int, py: int|
            #![auto]
            g.in_bounds(px, py) && open_between(g, px, py, x, y) && reachable_within(
                g,
                sx,
                sy,
                px,
                py,
                (d - 1) as nat,
            );
        lemma_distances_minimal(g, sx, sy, visited, dist, px, py, (d - 1) as nat);
        lemma_closed_set_covers(g, sx, sy, visited, px, py, (d - 1) as nat);
        lemma_flat_index_bounds(g.width(), g.height(), px, py);
        lemma_flat_index_bounds(g.width(), g.height(), x, y);
    }
}

/// After one traversal round, every open wall out of a visited cell still
/// costs at most one extra hop: the newly visited cell's neighbours were
/// just relaxed to at most one more than its own entry, older visited cells
/// kept their entries, and entries only ever shrink.
proof fn lemma_lipschitz_after_visit(
    g: Grid,
    vis0: Seq<bool>,
    vis1: Seq<bool>,
    dist0: Seq<i32>,
    dist1: Seq<i32>,
    cx: int,
    cy: int,
)
    requires
        g.wf(),
        g.borders_closed(),
        vis0.len() == g.width() * g.height(),
        dist0.len() == g.width() * g.height(),
        dist1.len() == g.width() * g.height(),
        g.in_bounds(cx, cy),
        vis1 == vis0.update(cy * g.width() + cx, true),
        forall|k: int| #![auto] 0 <= k < dist0.len() ==> dist1[k] <= dist0[k],
        forall|k: int| #![auto] 0 <= k < dist0.len() && vis0[k] ==> dist1[k] == dist0[k],
        g.cell(cx, cy).up == BoundaryState::Open ==> dist1[(cy - 1) * g.width() + cx]
            <= dist1[cy * g.width() + cx] + 1,
        g.cell(cx, cy).right == BoundaryState::Open ==> dist1[cy * g.width() + cx + 1]
            <= dist1[cy * g.width() + cx] + 1,
        g.cell(cx, cy).down == BoundaryState::Open ==> dist1[(cy + 1) * g.width() + cx]
            <= dist1[cy * g.width() + cx] + 1,
        g.cell(cx, cy).left == BoundaryState::Open ==> dist1[cy * g.width() + cx - 1]
            <= dist1[cy * g.width() + cx] + 1,
        forall|a: int, b: int|
            #![trigger g.cell(a, b)]
            g.in_bounds(a, b) && vis0[b * g.width() + a] ==> {
                &&& (g.cell(a, b).up == BoundaryState::Open ==> dist0[(b - 1) * g.width() + a]
                    <= dist0[b * g.width() + a] + 1)
                &&& (g.cell(a, b).right == BoundaryState::Open ==> dist0[b * g.width() + a + 1]
                    <= dist0[b * g.width() + a] + 1)
                &&& (g.cell(a, b).down == BoundaryState::Open ==> dist0[(b + 1) * g.width() + a]
                    <= dist0[b * g.width() + a] + 1)
                &&& (g.cell(a, b).left == BoundaryState::Open ==> dist0[b * g.width() + a - 1]
                    <= dist0[b * g.width() + a] + 1)
            },
    ensures
        forall|a: int, b: int|
            #![trigger g.cell(a, b)]
            g.in_bounds(a, b) && vis1[b * g.width() + a] ==> {
                &&& (g.cell(a, b).up == BoundaryState::Open ==> dist1[(b - 1) * g.width() + a]
                    <= dist1[b * g.width() + a] + 1)
                &&& (g.cell(a, b).right == BoundaryState::Open ==> dist1[b * g.width() + a + 1]
                    <= dist1[b * g.width() + a] + 1)
                &&& (g.cell(a, b).down == BoundaryState::Open ==> dist1[(b + 1) * g.width() + a]
                    <= dist1[b * g.width() + a] + 1)
                &&& (g.cell(a, b).left == BoundaryState::Open ==> dist1[b * g.width() + a - 1]
                    <= dist1[b * g.width() + a] + 1)
            },
{
    let w = g.width();
    let h = g.height();
    lemma_flat_index_bounds(w, h, cx, cy);
    assert forall|a: int, b: int|
        #![trigger g.cell(a, b)]
        g.in_bounds(a, b) && vis1[b * w + a] implies {
        &&& (g.cell(a, b).up == BoundaryState::Open ==> dist1[(b - 1) * w + a] <= dist1[b * w
            + a] + 1)
        &&& (g.cell(a, b).right == BoundaryState::Open ==> dist1[b * w + a + 1] <= dist1[b * w
            + a] + 1)
        &&& (g.cell(a, b).down == BoundaryState::Open ==> dist1[(b + 1) * w + a] <= dist1[b * w
            + a] + 1)
        &&& (g.cell(a, b).left == BoundaryState::Open ==> dist1[b * w + a - 1] <= dist1[b * w
            + a] + 1)
    } by {
        lemma_flat_index_bounds(w, h, a, b);
        lemma_flat_index_injective(w, a, b, cx, cy);
        if g.cell(a, b).up == BoundaryState::Open {
            lemma_flat_index_bounds(w, h, a, b - 1);
        }
        if g.cell(a, b).right == BoundaryState::Open {
            lemma_flat_index_bounds(w, h, a + 1, b);
        }
        if g.cell(a, b).down == BoundaryState::Open {
            lemma_flat_index_bounds(w, h, a, b + 1);
        }
        if g.cell(a, b).left == BoundaryState::Open {
            lemma_flat_index_bounds(w, h, a - 1, b);
        }
        if !(a == cx && b == cy) {
            assert(vis0[b * w + a]);
            assert(dist1[b * w + a] == dist0[b * w + a]);
        }
    }
}

/// After one traversal round every unvisited cell with a finite entry still
/// has an unread queue entry recorded at exactly its own value, and no such
/// entry is below the new layer value.
proof fn lemma_witness_after_visit(
    g: Grid,
    q0: Seq<(usize, usize)>,
    q1: Seq<(usize, usize)>,
    pv0: Seq<int>,
    pv1: Seq<int>,
    h0: int,
    vis0: Seq<bool>,
    vis1: Seq<bool>,
    dist0: Seq<i32>,
    dist1: Seq<i32>,
    mv0: int,
    cx: int,
    cy: int,
    iu: int,
    ir: int,
    idn: int,
    il: int,
)
    requires
        g.wf(),
        g.borders_closed(),
        vis0.len() == g.width() * g.height(),
        dist0.len() == g.width() * g.height(),
        dist1.len() == g.width() * g.height(),
        g.in_bounds(cx, cy),
        0 <= h0 < q0.len(),
        q0[h0].0 as int == cx,
        q0[h0].1 as int == cy,
        pv0.len() == q0.len(),
        pv1.len() == q1.len(),
        q0.len() <= q1.len(),
        forall|j: int| 0 <= j < q0.len() ==> q1[j] == q0[j],
        forall|j: int| 0 <= j < q0.len() ==> pv1[j] == pv0[j],
        forall|j: int| q0.len() <= j < pv1.len() ==> pv1[j] == dist0[cy * g.width() + cx] + 1,
        forall|i: int, j: int| 0 <= i <= j < pv0.len() ==> pv0[i] <= pv0[j],
        vis1 == vis0.update(cy * g.width() + cx, true),
        !vis0[cy * g.width() + cx],
        dist1[cy * g.width() + cx] == dist0[cy * g.width() + cx],
        dist0[cy * g.width() + cx] <= pv0[h0],
        mv0 <= dist0[cy * g.width() + cx],
        forall|k: int|
            #![auto]
            0 <= k < dist0.len() && !(g.cell(cx, cy).up == BoundaryState::Open && k == (cy - 1)
                * g.width() + cx) && !(g.cell(cx, cy).right == BoundaryState::Open && k == cy
                * g.width() + cx + 1) && !(g.cell(cx, cy).down == BoundaryState::Open && k == (cy
                + 1) * g.width() + cx) && !(g.cell(cx, cy).left == BoundaryState::Open && k == cy
                * g.width() + cx - 1) ==> dist1[k] == dist0[k],
        g.cell(cx, cy).up == BoundaryState::Open ==> dist1[(cy - 1) * g.width() + cx] as int
            == min2(
            dist0[(cy - 1) * g.width() + cx] as int,
            dist0[cy * g.width() + cx] + 1,
        ),
        g.cell(cx, cy).right == BoundaryState::Open ==> dist1[cy * g.width() + cx + 1] as int
            == min2(dist0[cy * g.width() + cx + 1] as int, dist0[cy * g.width() + cx] + 1),
        g.cell(cx, cy).down == BoundaryState::Open ==> dist1[(cy + 1) * g.width() + cx] as int
            == min2(
            dist0[(cy + 1) * g.width() + cx] as int,
            dist0[cy * g.width() + cx] + 1,
        ),
        g.cell(cx, cy).left == BoundaryState::Open ==> dist1[cy * g.width() + cx - 1] as int
            == min2(dist0[cy * g.width() + cx - 1] as int, dist0[cy * g.width() + cx] + 1),
        g.cell(cx, cy).up == BoundaryState::Open ==> h0 + 1 <= iu < q1.len() && q1[iu].0 as int
            == cx && q1[iu].1 as int == cy - 1,
        g.cell(cx, cy).right == BoundaryState::Open ==> h0 + 1 <= ir < q1.len() && q1[ir].0
            as int == cx + 1 && q1[ir].1 as int == cy,
        g.cell(cx, cy).down == BoundaryState::Open ==> h0 + 1 <= idn < q1.len() && q1[idn].0
            as int == cx && q1[idn].1 as int == cy + 1,
        g.cell(cx, cy).left == BoundaryState::Open ==> h0 + 1 <= il < q1.len() && q1[il].0
            as int == cx - 1 && q1[il].1 as int == cy,
        iu >= q0.len(),
        ir >= q0.len(),
        idn >= q0.len(),
        il >= q0.len(),
        forall|x: int, y: int|
            #![trigger g.in_bounds(x, y)]
            g.in_bounds(x, y) && dist0[y * g.width() + x] != i32::MAX && !vis0[y * g.width()
                + x] ==> mv0 <= dist0[y * g.width() + x] && pv_witness(
                q0,
                pv0,
                h0,
                x,
                y,
                dist0[y * g.width() + x] as int,
            ),
    ensures
        forall|x: int, y: int|
            #![trigger g.in_bounds(x, y)]
            g.in_bounds(x, y) && dist1[y * g.width() + x] != i32::MAX && !vis1[y * g.width()
                + x] ==> dist0[cy * g.width() + cx] <= dist1[y * g.width() + x] && pv_witness(
                q1,
                pv1,
                h0 + 1,
                x,
                y,
                dist1[y * g.width() + x] as int,
            ),
{
    let w = g.width();
    let h = g.height();
    let dcv = dist0[cy * w + cx] as int;
    lemma_flat_index_bounds(w, h, cx, cy);
    assert forall|x: int, y: int|
        #![trigger g.in_bounds(x, y)]
        g.in_bounds(x, y) && dist1[y * w + x] != i32::MAX && !vis1[y * w + x] implies dcv
        <= dist1[y * w + x] && pv_witness(q1, pv1, h0 + 1, x, y, dist1[y * w + x] as int) by {
        lemma_flat_index_bounds(w, h, x, y);
        lemma_flat_index_injective(w, x, y, cx, cy);
        if g.cell(cx, cy).up == BoundaryState::Open {
            lemma_flat_index_injective(w, x, y, cx, cy - 1);
        }
        if g.cell(cx, cy).right == BoundaryState::Open {
            lemma_flat_index_injective(w, x, y, cx + 1, cy);
        }
        if g.cell(cx, cy).down == BoundaryState::Open {
            lemma_flat_index_injective(w, x, y, cx, cy + 1);
        }
        if g.cell(cx, cy).left == BoundaryState::Open {
            lemma_flat_index_injective(w, x, y, cx - 1, cy);
        }
        let v = dist1[y * w + x] as int;
        if dist1[y * w + x] == dist0[y * w + x] {
            assert(mv0 <= dist0[y * w + x]);
            let qi = choose|qi: int|
                #![auto]
                h0 <= qi < q0.len() && qi < pv0.len() && q0[qi].0 as int == x && q0[qi].1
                    as int == y && pv0[qi] == v;
            assert(pv0[h0] <= pv0[qi]);
            lemma_pv_witness_step(q0, q1, pv0, pv1, h0, x, y, v);
        } else {
            assert(v == dcv + 1);
            if g.cell(cx, cy).up == BoundaryState::Open && y * w + x == (cy - 1) * w + cx {
                assert(q1[iu].0 as int == x && q1[iu].1 as int == y && pv1[iu] == v);
            }
            if g.cell(cx, cy).right == BoundaryState::Open && y * w + x == cy * w + cx + 1 {
                assert(q1[ir].0 as int == x && q1[ir].1 as int == y && pv1[ir] == v);
            }
            if g.cell(cx, cy).down == BoundaryState::Open && y * w + x == (cy + 1) * w + cx {
                assert(q1[idn].0 as int == x && q1[idn].1 as int == y && pv1[idn] == v);
            }
            if g.cell(cx, cy).left == BoundaryState::Open && y * w + x == cy * w + cx - 1 {
                assert(q1[il].0 as int == x && q1[il].1 as int == y && pv1[il] == v);
            }
        }
    }
}

/// After one traversal round the recorded push values are still
/// nondecreasing, never exceed the new layer value plus one, and every
/// unread entry's cell is recorded at no less than the new layer value and
/// holds at most its recorded value.
proof fn lemma_queue_values_after_visit(
    g: Grid,
    q0: Seq<(usize, usize)>,
    q1: Seq<(usize, usize)>,
    pv0: Seq<int>,
    pv1: Seq<int>,
    h0: int,
    dist0: Seq<i32>,
    dist1: Seq<i32>,
    mv0: int,
    dcv: int,
)
    requires
        g.wf(),
        dist0.len() == g.width() * g.height(),
        dist1.len() == g.width() * g.height(),
        0 <= h0 < q0.len(),
        q0.len() <= q1.len(),
        pv0.len() == q0.len(),
        pv1.len() == q1.len(),
        forall|j: int| 0 <= j < q0.len() ==> q1[j] == q0[j],
        forall|j: int| 0 <= j < q0.len() ==> pv1[j] == pv0[j],
        forall|j: int| q0.len() <= j < pv1.len() ==> pv1[j] == dcv + 1,
        forall|i: int, j: int| 0 <= i <= j < pv0.len() ==> pv0[i] <= pv0[j],
        forall|i: int| #![auto] 0 <= i < pv0.len() ==> pv0[i] <= mv0 + 1,
        forall|i: int|
            #![auto]
            h0 <= i < q0.len() ==> mv0 <= pv0[i] && dist0[q0[i].1 * g.width() + q0[i].0]
                <= pv0[i],
        forall|qi: int|
            #![auto]
            h0 + 1 <= qi < q1.len() ==> g.in_bounds(q1[qi].0 as int, q1[qi].1 as int),
        forall|k: int| #![auto] 0 <= k < dist0.len() ==> dist1[k] <= dist0[k],
        forall|qi: int|
            #![auto]
            q0.len() <= qi < q1.len() ==> dist1[q1[qi].1 * g.width() + q1[qi].0] <= dcv + 1,
        mv0 <= dcv,
        dcv <= pv0[h0],
    ensures
        forall|i: int, j: int| 0 <= i <= j < pv1.len() ==> pv1[i] <= pv1[j],
        forall|i: int| #![auto] 0 <= i < pv1.len() ==> pv1[i] <= dcv + 1,
        forall|i: int|
            #![auto]
            h0 + 1 <= i < q1.len() ==> dcv <= pv1[i] && dist1[q1[i].1 * g.width() + q1[i].0]
                <= pv1[i],
{
    assert forall|i: int, j: int| 0 <= i <= j < pv1.len() implies pv1[i] <= pv1[j] by {
        if j >= q0.len() && i < q0.len() {
            assert(pv0[i] <= mv0 + 1);
        }
    }
    assert forall|i: int|
        #![auto]
        h0 + 1 <= i < q1.len() implies dcv <= pv1[i] && dist1[q1[i].1 * g.width() + q1[i].0]
        <= pv1[i] by {
        if i < q0.len() {
            assert(pv0[h0] <= pv0[i]);
            assert(q0[i] == q1[i]);
            assert(dist0[q0[i].1 * g.width() + q0[i].0] <= pv0[i]);
            lemma_flat_index_bounds(g.width(), g.height(), q1[i].0 as int, q1[i].1 as int);
        } else {
            assert(pv1[i] == dcv + 1);
        }
    }
}

/// The raw result of a breadth-first traversal: one hop count per cell in
/// the grid's row-major order, and the largest entry of that sequence.
pub struct DistanceField {
    pub distances: Vec<i32>,
    pub max_distance: i32,
}

/// One when the up wall of the cell at `(cx, cy)` stands open, else zero:
/// the offset of the right-neighbour entry among the cells a traversal
/// round appends.
pub open spec fn push_count_up(g: Grid, cx: int, cy: int) -> int {
    if g.cell(cx, cy).up == BoundaryState::Open {
        1int
    } else {
        0int
    }
}

/// The offset of the down-neighbour entry: one for each of the up and right
/// walls of the cell at `(cx, cy)` that stands open.
pub open spec fn push_count_up_right(g: Grid, cx: int, cy: int) -> int {
    push_count_up(g, cx, cy) + if g.cell(cx, cy).right == BoundaryState::Open {
        1int
    } else {
        0int
    }
}

/// The offset of the left-neighbour entry: one for each of the up, right
/// and down walls of the cell at `(cx, cy)` that stands open.
pub open spec fn push_count_up_right_down(g: Grid, cx: int, cy: int) -> int {
    push_count_up_right(g, cx, cy) + if g.cell(cx, cy).down == BoundaryState::Open {
        1int
    } else {
        0int
    }
}

/// One traversal round on a cell not yet visited: marks it, relaxes each of
/// its open neighbours to at most one more hop than the cell itself, and
/// appends them to the queue, keeping every invariant of the traversal.
#[verifier::rlimit(100)]
fn visit_cell(
    grid: &Grid,
    distances: &mut Vec<i32>,
    queue: &mut Vec<(usize, usize)>,
    visited: &mut Vec<bool>,
    visited_count: &mut usize,
    head: usize,
    cx: usize,
    cy: usize,
    sx: usize,
    sy: usize,
)
    requires
        grid.wf(),
        grid.borders_closed(),
        grid.width() * grid.height() < i32::MAX,
        grid.in_bounds(sx as int, sy as int),
        grid.in_bounds(cx as int, cy as int),
        old(visited)@.len() == grid.width() * grid.height(),
        old(distances)@.len() == grid.width() * grid.height(),
        *old(visited_count) as int == count_true(old(visited)@),
        !old(visited)@[cy * grid.width() + cx],
        old(distances)@[cy * grid.width() + cx] != i32::MAX,
        old(distances)@[sy * grid.width() + sx] == 0,
        1 <= head <= old(queue)@.len(),
        old(queue)@[head - 1].0 == cx,
        old(queue)@[head - 1].1 == cy,
        forall|qi: int|
            #![auto]
            head <= qi < old(queue)@.len() ==> {
                &&& grid.in_bounds(old(queue)@[qi].0 as int, old(queue)@[qi].1 as int)
                &&& old(distances)@[old(queue)@[qi].1 * grid.width() + old(queue)@[qi].0]
                    != i32::MAX
            },
        forall|k: int|
            #![auto]
            0 <= k < old(visited)@.len() && old(visited)@[k] ==> old(distances)@[k] != i32::MAX,
        forall|x: int, y: int|
            #![trigger grid.in_bounds(x, y)]
            grid.in_bounds(x, y) && old(distances)@[y * grid.width() + x] != i32::MAX ==> {
                &&& 0 <= old(distances)@[y * grid.width() + x] <= *old(visited_count)
                &&& reachable_within(*grid, sx as int, sy as int, x, y,
                    old(distances)@[y * grid.width() + x] as nat)
            },
    ensures
        final(visited)@.len() == old(visited)@.len(),
        final(distances)@.len() == old(distances)@.len(),
        *final(visited_count) == *old(visited_count) + 1,
        *final(visited_count) as int == count_true(final(visited)@),
        old(queue)@.len() <= final(queue)@.len() <= old(queue)@.len() + 4,
        final(queue)@.len() == old(queue)@.len() + push_count_up_right_down(
            *grid,
            cx as int,
            cy as int,
        ) + (if grid.cell(cx as int, cy as int).left == BoundaryState::Open {
            1int
        } else {
            0int
        }),
        final(distances)@[sy * grid.width() + sx] == 0,
        forall|qi: int|
            #![auto]
            head <= qi < final(queue)@.len() ==> {
                &&& grid.in_bounds(final(queue)@[qi].0 as int, final(queue)@[qi].1 as int)
                &&& final(distances)@[final(queue)@[qi].1 * grid.width() + final(queue)@[qi].0]
                    != i32::MAX
            },
        forall|qi: int|
            #![auto]
            old(queue)@.len() <= qi < final(queue)@.len()
                ==> final(distances)@[final(queue)@[qi].1 * grid.width() + final(queue)@[qi].0]
                    <= old(distances)@[cy * grid.width() + cx] + 1,
        forall|k: int|
            #![auto]
            0 <= k < final(visited)@.len() && final(visited)@[k] ==> final(distances)@[k]
                != i32::MAX,
        forall|x: int, y: int|
            #![trigger grid.in_bounds(x, y)]
            grid.in_bounds(x, y) && final(distances)@[y * grid.width() + x] != i32::MAX ==> {
                &&& 0 <= final(distances)@[y * grid.width() + x] <= *final(visited_count)
                &&& reachable_within(*grid, sx as int, sy as int, x, y,
                    final(distances)@[y * grid.width() + x] as nat)
            },
        final(visited)@ == old(visited)@.update(cy * grid.width() + cx, true),
        forall|k: int|
            #![auto]
            0 <= k < old(distances)@.len() && !(grid.cell(cx as int, cy as int).up
                == BoundaryState::Open && k == (cy - 1) * grid.width() + cx) && !(grid.cell(
                cx as int,
                cy as int,
            ).right == BoundaryState::Open && k == cy * grid.width() + cx + 1) && !(grid.cell(
                cx as int,
                cy as int,
            ).down == BoundaryState::Open && k == (cy + 1) * grid.width() + cx) && !(grid.cell(
                cx as int,
                cy as int,
            ).left == BoundaryState::Open && k == cy * grid.width() + cx - 1)
                ==> final(distances)@[k] == old(distances)@[k],
        grid.cell(cx as int, cy as int).up == BoundaryState::Open ==> final(distances)@[(cy - 1)
            * grid.width() + cx] as int == min2(
            old(distances)@[(cy - 1) * grid.width() + cx] as int,
            old(distances)@[cy * grid.width() + cx] + 1,
        ),
        grid.cell(cx as int, cy as int).right == BoundaryState::Open ==> final(distances)@[cy
            * grid.width() + cx + 1] as int == min2(
            old(distances)@[cy * grid.width() + cx + 1] as int,
            old(distances)@[cy * grid.width() + cx] + 1,
        ),
        grid.cell(cx as int, cy as int).down == BoundaryState::Open ==> final(distances)@[(cy
            + 1) * grid.width() + cx] as int == min2(
            old(distances)@[(cy + 1) * grid.width() + cx] as int,
            old(distances)@[cy * grid.width() + cx] + 1,
        ),
        grid.cell(cx as int, cy as int).left == BoundaryState::Open ==> final(distances)@[cy
            * grid.width() + cx - 1] as int == min2(
            old(distances)@[cy * grid.width() + cx - 1] as int,
            old(distances)@[cy * grid.width() + cx] + 1,
        ),
        forall|j: int| 0 <= j < old(queue)@.len() ==> final(queue)@[j] == old(queue)@[j],
        grid.cell(cx as int, cy as int).up == BoundaryState::Open ==> {
            &&& final(queue)@[old(queue)@.len() as int].0 == cx
            &&& final(queue)@[old(queue)@.len() as int].1 as int == cy - 1
        },
        grid.cell(cx as int, cy as int).right == BoundaryState::Open ==> {
            &&& final(queue)@[old(queue)@.len() + push_count_up(*grid, cx as int, cy as int)].0
                == cx + 1
            &&& final(queue)@[old(queue)@.len() + push_count_up(*grid, cx as int, cy as int)].1
                == cy
        },
        grid.cell(cx as int, cy as int).down == BoundaryState::Open ==> {
            &&& final(queue)@[old(queue)@.len() + push_count_up_right(*grid, cx as int, cy as int)].0
                == cx
            &&& final(queue)@[old(queue)@.len() + push_count_up_right(*grid, cx as int, cy as int)].1
                == cy + 1
        },
        grid.cell(cx as int, cy as int).left == BoundaryState::Open ==> {
            &&& final(queue)@[old(queue)@.len() + push_count_up_right_down(*grid, cx as int, cy as int)].0
                as int == cx - 1
            &&& final(queue)@[old(queue)@.len() + push_count_up_right_down(*grid, cx as int, cy as int)].1
                == cy
        },
{
    let ghost q0 = queue@;
    let ghost h0 = head - 1 as int;
    let ghost vc0 = *visited_count as int;
    let ghost cxi = cx as int;
    let ghost cyi = cy as int;
    let ghost wi = grid.width();
    let ghost hi = grid.height();
    let ghost sxi = sx as int;
    let ghost syi = sy as int;
    let ci = grid.index_of(cx, cy);
    let ghost vis0 = visited@;
    let ghost dist0 = distances@;
    visited[ci] = true;
    proof {
        lemma_count_true_update(vis0, ci as int);
        lemma_count_true_bounds(visited@);
    }
    *visited_count = *visited_count + 1;
    proof {
        assert(0 <= distances@[cyi * wi + cxi] <= vc0);
    }
    let dc = distances[ci];
    let dn = dc + 1;
    let cell = grid.cell_at(cx, cy);
    proof {
        lemma_flat_index_bounds(wi, hi, sxi, syi);
        assert(dc >= 0);
        assert(reachable_within(*grid, sxi, syi, cxi, cyi, dc as nat));
        if cell.up == BoundaryState::Open {
            assert(cyi >= 1);
            lemma_flat_index_bounds(wi, hi, cxi, cyi - 1);
            lemma_flat_index_injective(wi, cxi, cyi - 1, cxi, cyi);
            assert(open_between(*grid, cxi, cyi, cxi, cyi - 1));
            assert(reachable_within(*grid, sxi, syi, cxi, cyi - 1, (dc + 1) as nat));
        }
        if cell.right == BoundaryState::Open {
            assert(cxi + 1 < wi);
            lemma_flat_index_bounds(wi, hi, cxi + 1, cyi);
            lemma_flat_index_injective(wi, cxi + 1, cyi, cxi, cyi);
            assert(open_between(*grid, cxi, cyi, cxi + 1, cyi));
            assert(reachable_within(*grid, sxi, syi, cxi + 1, cyi, (dc + 1) as nat));
        }
        if cell.down == BoundaryState::Open {
            assert(cyi + 1 < hi);
            lemma_flat_index_bounds(wi, hi, cxi, cyi + 1);
            lemma_flat_index_injective(wi, cxi, cyi + 1, cxi, cyi);
            assert(open_between(*grid, cxi, cyi, cxi, cyi + 1));
            assert(reachable_within(*grid, sxi, syi, cxi, cyi + 1, (dc + 1) as nat));
        }
        if cell.left == BoundaryState::Open {
            assert(cxi >= 1);
            lemma_flat_index_bounds(wi, hi, cxi - 1, cyi);
            lemma_flat_index_injective(wi, cxi - 1, cyi, cxi, cyi);
            assert(open_between(*grid, cxi, cyi, cxi - 1, cyi));
            assert(reachable_within(*grid, sxi, syi, cxi - 1, cyi, (dc + 1) as nat));
        }
        if cell.up == BoundaryState::Open && cell.right == BoundaryState::Open {
            lemma_flat_index_injective(wi, cxi, cyi - 1, cxi + 1, cyi);
        }
        if cell.up == BoundaryState::Open && cell.down == BoundaryState::Open {
            lemma_flat_index_injective(wi, cxi, cyi - 1, cxi, cyi + 1);
        }
        if cell.up == BoundaryState::Open && cell.left == BoundaryState::Open {
            lemma_flat_index_injective(wi, cxi, cyi - 1, cxi - 1, cyi);
        }
        if cell.right == BoundaryState::Open && cell.down == BoundaryState::Open {
            lemma_flat_index_injective(wi, cxi + 1, cyi, cxi, cyi + 1);
        }
        if cell.right == BoundaryState::Open && cell.left == BoundaryState::Open {
            lemma_flat_index_injective(wi, cxi + 1, cyi, cxi - 1, cyi);
        }
        if cell.down == BoundaryState::Open && cell.left == BoundaryState::Open {
            lemma_flat_index_injective(wi, cxi, cyi + 1, cxi - 1, cyi);
        }
    }

    if matches!(cell.up, BoundaryState::Open) {
        let ni = grid.index_of(cx, cy - 1);
        if dn < distances[ni] {
            distances[ni] = dn;
        }
        queue.push((cx, cy - 1));
        proof {
            assert(distances@[syi * wi + sxi] == 0);
        }
    }
    if matches!(cell.right, BoundaryState::Open) {
        let ni = grid.index_of(cx + 1, cy);
        if dn < distances[ni] {
            distances[ni] = dn;
        }
        queue.push((cx + 1, cy));
        proof {
            assert(distances@[syi * wi + sxi] == 0);
        }
    }
    if matches!(cell.down, BoundaryState::Open) {
        let ni = grid.index_of(cx, cy + 1);
        if dn < distances[ni] {
            distances[ni] = dn;
        }
        queue.push((cx, cy + 1));
        proof {
            assert(distances@[syi * wi + sxi] == 0);
        }
    }
    if matches!(cell.left, BoundaryState::Open) {
        let ni = grid.index_of(cx - 1, cy);
        if dn < distances[ni] {
            distances[ni] = dn;
        }
        queue.push((cx - 1, cy));
        proof {
            assert(distances@[syi * wi + sxi] == 0);
        }
    }

    proof {
        let iu = q0.len() as int;
        let ir = iu + if cell.up == BoundaryState::Open { 1int } else { 0int };
        let idn = ir + if cell.right == BoundaryState::Open { 1int } else { 0int };
        let il = idn + if cell.down == BoundaryState::Open { 1int } else { 0int };
        assert(forall|j: int| 0 <= j < q0.len() ==> queue@[j] == q0[j]);
        if cell.up == BoundaryState::Open {
            assert(queue@[iu].0 as int == cxi && queue@[iu].1 as int == cyi - 1);
            assert(grid.in_bounds(cxi, cyi - 1));
            assert(distances@[(cyi - 1) * wi + cxi] != i32::MAX);
            if distances@[(cyi - 1) * wi + cxi] != dn as int {
                assert(distances@[(cyi - 1) * wi + cxi] == dist0[(cyi - 1) * wi + cxi]);
            }
            assert(reachable_within(*grid, sxi, syi, cxi, cyi - 1,
                distances@[(cyi - 1) * wi + cxi] as nat));
        }
        if cell.right == BoundaryState::Open {
            assert(queue@[ir].0 as int == cxi + 1 && queue@[ir].1 as int == cyi);
            assert(grid.in_bounds(cxi + 1, cyi));
            assert(distances@[cyi * wi + cxi + 1] != i32::MAX);
            if distances@[cyi * wi + cxi + 1] != dn as int {
                assert(distances@[cyi * wi + cxi + 1] == dist0[cyi * wi + cxi + 1]);
            }
            assert(reachable_within(*grid, sxi, syi, cxi + 1, cyi,
                distances@[cyi * wi + cxi + 1] as nat));
        }
        if cell.down == BoundaryState::Open {
            assert(queue@[idn].0 as int == cxi && queue@[idn].1 as int == cyi + 1);
            assert(grid.in_bounds(cxi, cyi + 1));
            assert(distances@[(cyi + 1) * wi + cxi] != i32::MAX);
            if distances@[(cyi + 1) * wi + cxi] != dn as int {
                assert(distances@[(cyi + 1) * wi + cxi] == dist0[(cyi + 1) * wi + cxi]);
            }
            assert(reachable_within(*grid, sxi, syi, cxi, cyi + 1,
                distances@[(cyi + 1) * wi + cxi] as nat));
        }
        if cell.left == BoundaryState::Open {
            assert(queue@[il].0 as int == cxi - 1 && queue@[il].1 as int == cyi);
            assert(grid.in_bounds(cxi - 1, cyi));
            assert(distances@[cyi * wi + cxi - 1] != i32::MAX);
            if distances@[cyi * wi + cxi - 1] != dn as int {
                assert(distances@[cyi * wi + cxi - 1] == dist0[cyi * wi + cxi - 1]);
            }
            assert(reachable_within(*grid, sxi, syi, cxi - 1, cyi,
                distances@[cyi * wi + cxi - 1] as nat));
        }
        assert(forall|k: int|
            0 <= k < dist0.len() && dist0[k] != i32::MAX ==> distances@[k] != i32::MAX);
        assert forall|x: int, y: int|
            #![trigger grid.in_bounds(x, y)]
            grid.in_bounds(x, y) && distances@[y * wi + x] != i32::MAX implies {
            &&& 0 <= distances@[y * wi + x] <= *visited_count
            &&& reachable_within(*grid, sxi, syi, x, y, distances@[y * wi + x] as nat)
        } by {
            lemma_flat_index_bounds(wi, hi, x, y);
            if cell.up == BoundaryState::Open {
                lemma_flat_index_injective(wi, x, y, cxi, cyi - 1);
            }
            if cell.right == BoundaryState::Open {
                lemma_flat_index_injective(wi, x, y, cxi + 1, cyi);
            }
            if cell.down == BoundaryState::Open {
                lemma_flat_index_injective(wi, x, y, cxi, cyi + 1);
            }
            if cell.left == BoundaryState::Open {
                lemma_flat_index_injective(wi, x, y, cxi - 1, cyi);
            }
        }
        assert forall|qi: int|
            #![auto]
            head <= qi < queue@.len() implies {
            &&& grid.in_bounds(queue@[qi].0 as int, queue@[qi].1 as int)
            &&& distances@[queue@[qi].1 * wi + queue@[qi].0] != i32::MAX
        } by {
            if qi < q0.len() {
                lemma_flat_index_bounds(wi, hi, q0[qi].0 as int, q0[qi].1 as int);
            }
        }
    }
}

/// Flood-fills the grid from `starting_point`, walking only through open
/// walls, and returns each cell's hop distance from the source; a cell no
/// open path reaches keeps `i32::MAX`, and in a perfect maze there is none.
#[verifier::rlimit(100)]
pub fn calculate_distances(grid: &Grid, starting_point: (usize, usize)) -> (r: DistanceField)
    requires
        grid.wf(),
        grid.borders_closed(),
        starting_point.0 < grid.size.x,
        starting_point.1 < grid.size.y,
        grid.width() * grid.height() < i32::MAX,
    ensures
        r.distances@.len() == grid.width() * grid.height(),
        r.distances@[starting_point.1 * grid.width() + starting_point.0] == 0,

        forall|x: int, y: int|
            #![trigger grid.in_bounds(x, y)]
            grid.in_bounds(x, y) && r.distances@[y * grid.width() + x] != i32::MAX ==> {
                &&& 0 <= r.distances@[y * grid.width() + x] <= grid.width() * grid.height()
                &&& reachable_within(*grid, starting_point.0 as int, starting_point.1 as int, x,
                    y, r.distances@[y * grid.width() + x] as nat)
                &&& reachable(*grid, starting_point.0 as int, starting_point.1 as int, x, y)
            },
        forall|x: int, y: int|
            #![trigger grid.in_bounds(x, y)]
            grid.in_bounds(x, y) && reachable(
                *grid,
                starting_point.0 as int,
                starting_point.1 as int,
                x,
                y,
            ) ==> r.distances@[y * grid.width() + x] != i32::MAX,
        forall|x: int, y: int|
            #![trigger grid.in_bounds(x, y)]
            grid.in_bounds(x, y) && r.distances@[y * grid.width() + x] != i32::MAX
                && r.distances@[y * grid.width() + x] >= 1 ==> !reachable_within(
                *grid,
                starting_point.0 as int,
                starting_point.1 as int,
                x,
                y,
                (r.distances@[y * grid.width() + x] - 1) as nat,
            ),
        r.max_distance as int == seq_max_i32(r.distances@),
{
    let (sx, sy) = starting_point;
    let w = grid.size.x;
    let h = grid.size.y;
    let n = grid.grid.len();
    let ghost wi = grid.width();
    let ghost sxi = sx as int;
    let ghost syi = sy as int;

    let mut visited: Vec<bool> = Vec::new();
    let mut distances: Vec<i32> = Vec::new();
    let mut i: usize = 0;
    while i < n
        invariant
            i <= n,
            n == grid.grid@.len(),
            visited@.len() == i,
            distances@.len() == i,
            forall|k: int| 0 <= k < i ==> !visited@[k],
            forall|k: int| 0 <= k < i ==> distances@[k] == i32::MAX,
        decreases n - i,
    {
        visited.push(false);
        distances.push(i32::MAX);
        i = i + 1;
    }

    let src = grid.index_of(sx, sy);
    distances[src] = 0;

    let mut queue: Vec<(usize, usize)> = Vec::new();
    queue.push((sx, sy));
    let mut head: usize = 0;
    let mut visited_count: usize = 0;

    let ghost hi = grid.height();
    let ghost mut maxv: int = 0;
    let ghost mut pv: Seq<int> = seq![0int];
    proof {
        lemma_count_true_zero(visited@);
        assert(queue@[0] == (sx, sy));
        assert(reachable_within(*grid, sxi, syi, sxi, syi, 0nat));
        assert(queued(queue@, 0, sxi, syi));
        assert(pv[0] == 0);
        assert forall|a: int, b: int|
            #![trigger grid.cell(a, b)]
            grid.in_bounds(a, b) implies !visited@[b * wi + a] by {
            lemma_flat_index_bounds(wi, hi, a, b);
        }
        assert forall|x: int, y: int|
            #![trigger grid.in_bounds(x, y)]
            grid.in_bounds(x, y) && distances@[y * wi + x] != i32::MAX implies {
            &&& 0 <= distances@[y * wi + x] <= visited_count
            &&& reachable_within(*grid, sxi, syi, x, y, distances@[y * wi + x] as nat)
        } by {
            lemma_flat_index_bounds(wi, hi, x, y);
            lemma_flat_index_injective(wi, x, y, sxi, syi);
        }
        assert forall|x: int, y: int|
            #![trigger grid.in_bounds(x, y)]
            grid.in_bounds(x, y) && distances@[y * wi + x] != i32::MAX && !visited@[y * wi + x]
            implies maxv <= distances@[y * wi + x] && pv_witness(
            queue@,
            pv,
            0,
            x,
            y,
            distances@[y * wi + x] as int,
        ) by {
            lemma_flat_index_bounds(wi, hi, x, y);
            lemma_flat_index_injective(wi, x, y, sxi, syi);
            assert(queue@[0].0 as int == sxi && queue@[0].1 as int == syi && pv[0] == 0);
        }
    }

    while head < queue.len()
        invariant
            grid.wf(),
            grid.borders_closed(),
            wi == grid.width(),
            hi == grid.height(),
            n == grid.grid@.len(),
            n as int == wi * hi,
            wi * hi < i32::MAX,
            sxi == sx as int,
            syi == sy as int,
            grid.in_bounds(sxi, syi),
            visited@.len() == n,
            distances@.len() == n,
            head <= queue@.len(),
            visited_count as int == count_true(visited@),
            visited_count <= n,
            distances@[syi * wi + sxi] == 0,
            forall|qi: int|
                #![auto]
                head <= qi < queue@.len() ==> {
                    &&& grid.in_bounds(queue@[qi].0 as int, queue@[qi].1 as int)
                    &&& distances@[queue@[qi].1 * wi + queue@[qi].0] != i32::MAX
                },
            forall|k: int| #![auto] 0 <= k < n && visited@[k] ==> distances@[k] != i32::MAX,
            forall|x: int, y: int|
                #![trigger grid.in_bounds(x, y)]
                grid.in_bounds(x, y) && distances@[y * wi + x] != i32::MAX ==> {
                    &&& 0 <= distances@[y * wi + x] <= visited_count
                    &&& reachable_within(*grid, sxi, syi, x, y, distances@[y * wi + x] as nat)
                },
            visited@[syi * wi + sxi] || queued(queue@, head as int, sxi, syi),
            forall|a: int, b: int|
                #![trigger grid.cell(a, b)]
                grid.in_bounds(a, b) && visited@[b * wi + a] ==> {
                    &&& (grid.cell(a, b).up == BoundaryState::Open ==> visited@[(b - 1) * wi + a]
                        || queued(queue@, head as int, a, b - 1))
                    &&& (grid.cell(a, b).right == BoundaryState::Open ==> visited@[b * wi + a + 1]
                        || queued(queue@, head as int, a + 1, b))
                    &&& (grid.cell(a, b).down == BoundaryState::Open ==> visited@[(b + 1) * wi + a]
                        || queued(queue@, head as int, a, b + 1))
                    &&& (grid.cell(a, b).left == BoundaryState::Open ==> visited@[b * wi + a - 1]
                        || queued(queue@, head as int, a - 1, b))
                },
            pv.len() == queue@.len(),
            forall|i: int, j: int| 0 <= i <= j < pv.len() ==> pv[i] <= pv[j],
            0 <= maxv <= visited_count,
            forall|k: int| #![auto] 0 <= k < n && visited@[k] ==> distances@[k] <= maxv,
            forall|i: int| #![auto] 0 <= i < pv.len() ==> pv[i] <= maxv + 1,
            forall|i: int|
                #![auto]
                head <= i < queue@.len() ==> maxv <= pv[i] && distances@[queue@[i].1 * wi
                    + queue@[i].0] <= pv[i],
            forall|x: int, y: int|
                #![trigger grid.in_bounds(x, y)]
                grid.in_bounds(x, y) && distances@[y * wi + x] != i32::MAX && !visited@[y * wi
                    + x] ==> maxv <= distances@[y * wi + x] && pv_witness(
                    queue@,
                    pv,
                    head as int,
                    x,
                    y,
                    distances@[y * wi + x] as int,
                ),
            forall|a: int, b: int|
                #![trigger grid.cell(a, b)]
                grid.in_bounds(a, b) && visited@[b * wi + a] ==> {
                    &&& (grid.cell(a, b).up == BoundaryState::Open ==> distances@[(b - 1) * wi
                        + a] <= distances@[b * wi + a] + 1)
                    &&& (grid.cell(a, b).right == BoundaryState::Open ==> distances@[b * wi + a
                        + 1] <= distances@[b * wi + a] + 1)
                    &&& (grid.cell(a, b).down == BoundaryState::Open ==> distances@[(b + 1) * wi
                        + a] <= distances@[b * wi + a] + 1)
                    &&& (grid.cell(a, b).left == BoundaryState::Open ==> distances@[b * wi + a
                        - 1] <= distances@[b * wi + a] + 1)
                },
        decreases 5 * (n - visited_count) + queue@.len() - head,
    {
        let ghost q0 = queue@;
        let ghost h0 = head as int;
        let ghost vis0 = visited@;
        let ghost dist0 = distances@;
        let ghost pv0 = pv;
        let ghost maxv0 = maxv;
        let (cx, cy) = queue[head];
        head = head + 1;
        let ghost cxi = cx as int;
        let ghost cyi = cy as int;
        proof {
            assert(grid.in_bounds(cxi, cyi));
            assert(distances@[cyi * wi + cxi] != i32::MAX);
        }
        let ci = grid.index_of(cx, cy);
        if !visited[ci] {
            visit_cell(
                grid,
                &mut distances,
                &mut queue,
                &mut visited,
                &mut visited_count,
                head,
                cx,
                cy,
                sx,
                sy,
            );
            proof {
                lemma_count_true_bounds(visited@);
                lemma_flat_index_bounds(wi, hi, cxi, cyi);
                lemma_flat_index_bounds(wi, hi, sxi, syi);
                if !vis0[syi * wi + sxi] {
                    if q0[h0].0 as int == sxi && q0[h0].1 as int == syi {
                        assert(visited@[syi * wi + sxi]);
                    } else {
                        lemma_queued_step(q0, queue@, h0, sxi, syi);
                    }
                }
                lemma_closure_after_visit(
                    *grid,
                    q0,
                    queue@,
                    h0,
                    vis0,
                    visited@,
                    cxi,
                    cyi,
                    q0.len() as int,
                    q0.len() + push_count_up(*grid, cxi, cyi),
                    q0.len() + push_count_up_right(*grid, cxi, cyi),
                    q0.len() + push_count_up_right_down(*grid, cxi, cyi),
                );
                let dcv = dist0[cyi * wi + cxi] as int;
                let cell = grid.cell(cxi, cyi);
                assert((cyi - 1) * wi == cyi * wi - wi) by (nonlinear_arith);
                assert((cyi + 1) * wi == cyi * wi + wi) by (nonlinear_arith);
                assert(q0[h0].0 as int == cxi && q0[h0].1 as int == cyi);
                assert(maxv0 <= dcv);
                assert(dcv <= pv0[h0]);
                maxv = dcv;
                pv = pv0 + Seq::new((queue@.len() - q0.len()) as nat, |j: int| dcv + 1);
                assert(pv.len() == queue@.len());
                assert(forall|i: int| 0 <= i < q0.len() ==> pv[i] == pv0[i]);
                assert(forall|i: int| q0.len() <= i < pv.len() ==> pv[i] == dcv + 1);
                assert forall|k: int| #![auto] 0 <= k < n implies distances@[k]
                    <= dist0[k] by {}
                assert forall|k: int| 0 <= k < n && vis0[k] implies #[trigger] distances@[k]
                    == dist0[k] by {
                    assert(dist0[k] <= maxv0);
                }
                assert(distances@[cyi * wi + cxi] == dcv);
                // layering of the grown queue
                lemma_queue_values_after_visit(
                    *grid,
                    q0,
                    queue@,
                    pv0,
                    pv,
                    h0,
                    dist0,
                    distances@,
                    maxv0,
                    dcv,
                );
                // every unvisited finite cell keeps a push-value witness
                lemma_witness_after_visit(
                    *grid,
                    q0,
                    queue@,
                    pv0,
                    pv,
                    h0,
                    vis0,
                    visited@,
                    dist0,
                    distances@,
                    maxv0,
                    cxi,
                    cyi,
                    q0.len() as int,
                    q0.len() + push_count_up(*grid, cxi, cyi),
                    q0.len() + push_count_up_right(*grid, cxi, cyi),
                    q0.len() + push_count_up_right_down(*grid, cxi, cyi),
                );
                // one more hop at most across every open wall out of a visited cell
                if cell.up == BoundaryState::Open {
                    assert(distances@[(cyi - 1) * wi + cxi] <= dcv + 1);
                }
                if cell.right == BoundaryState::Open {
                    assert(distances@[cyi * wi + cxi + 1] <= dcv + 1);
                }
                if cell.down == BoundaryState::Open {
                    assert(distances@[(cyi + 1) * wi + cxi] <= dcv + 1);
                }
                if cell.left == BoundaryState::Open {
                    assert(distances@[cyi * wi + cxi - 1] <= dcv + 1);
                }
                lemma_lipschitz_after_visit(
                    *grid,
                    vis0,
                    visited@,
                    dist0,
                    distances@,
                    cxi,
                    cyi,
                );
            }
        } else {
            proof {
                lemma_flat_index_bounds(wi, hi, cxi, cyi);
                lemma_flat_index_bounds(wi, hi, sxi, syi);
                if !visited@[syi * wi + sxi] {
                    if q0[h0].0 as int == sxi && q0[h0].1 as int == syi {
                        assert(visited@[cyi * wi + cxi]);
                    } else {
                        lemma_queued_step(q0, queue@, h0, sxi, syi);
                    }
                }
                lemma_closure_after_visit(
                    *grid,
                    q0,
                    queue@,
                    h0,
                    visited@,
                    visited@,
                    cxi,
                    cyi,
                    0,
                    0,
                    0,
                    0,
                );
                assert forall|x: int, y: int|
                    #![trigger grid.in_bounds(x, y)]
                    grid.in_bounds(x, y) && distances@[y * wi + x] != i32::MAX && !visited@[y
                        * wi + x] implies maxv <= distances@[y * wi + x] && pv_witness(
                    queue@,
                    pv,
                    head as int,
                    x,
                    y,
                    distances@[y * wi + x] as int,
                ) by {
                    lemma_flat_index_bounds(wi, hi, x, y);
                    lemma_flat_index_injective(wi, x, y, cxi, cyi);
                    lemma_pv_witness_step(q0, queue@, pv, pv, h0, x, y, distances@[y * wi
                        + x] as int);
                }
            }
        }
    }

    proof {
        lemma_count_true_bounds(visited@);
        assert forall|a: int, b: int|
            #![trigger grid.cell(a, b)]
            grid.in_bounds(a, b) && visited@[b * wi + a] implies {
            &&& (grid.cell(a, b).up == BoundaryState::Open ==> visited@[(b - 1) * wi + a])
            &&& (grid.cell(a, b).right == BoundaryState::Open ==> visited@[b * wi + a + 1])
            &&& (grid.cell(a, b).down == BoundaryState::Open ==> visited@[(b + 1) * wi + a])
            &&& (grid.cell(a, b).left == BoundaryState::Open ==> visited@[b * wi + a - 1])
        } by {
            assert(!queued(queue@, head as int, a, b - 1));
            assert(!queued(queue@, head as int, a + 1, b));
            assert(!queued(queue@, head as int, a, b + 1));
            assert(!queued(queue@, head as int, a - 1, b));
        }
        assert(visited@[syi * wi + sxi]);
        assert forall|x: int, y: int|
            #![trigger grid.in_bounds(x, y)]
            grid.in_bounds(x, y) && reachable(*grid, sxi, syi, x, y) implies distances@[y * wi
            + x] != i32::MAX by {
            let d = choose|d: nat| reachable_within(*grid, sxi, syi, x, y, d);
            lemma_closed_set_covers(*grid, sxi, syi, visited@, x, y, d);
            lemma_flat_index_bounds(wi, hi, x, y);
        }
        assert forall|x: int, y: int|
            #![trigger grid.in_bounds(x, y)]
            grid.in_bounds(x, y) && distances@[y * wi + x] != i32::MAX && distances@[y * wi
                + x] >= 1 implies !reachable_within(
            *grid,
            sxi,
            syi,
            x,
            y,
            (distances@[y * wi + x] - 1) as nat,
        ) by {
            if reachable_within(*grid, sxi, syi, x, y, (distances@[y * wi + x] - 1) as nat) {
                lemma_distances_minimal(
                    *grid,
                    sxi,
                    syi,
                    visited@,
                    distances@,
                    x,
                    y,
                    (distances@[y * wi + x] - 1) as nat,
                );
            }
        }
    }

    let mut max_distance = distances[0];
    let mut mi: usize = 1;
    while mi < n
        invariant
            1 <= mi <= n,
            n == distances@.len(),
            max_distance as int == seq_max_i32(distances@.take(mi as int)),
        decreases n - mi,
    {
        proof {
            assert(distances@.take(mi as int + 1).drop_last() =~= distances@.take(mi as int));
        }
        if distances[mi] > max_distance {
            max_distance = distances[mi];
        }
        mi = mi + 1;
    }
    proof {
        assert(distances@.take(n as int) =~= distances@);
    }

    DistanceField { distances, max_distance }
}

} // verus!
