//! One generation of the automaton under birth and survival rules.

use std::collections::HashSet;
use vstd::prelude::*;
use crate::cells::{
    as_point, count_neighbors, neighbor_count, points_of, within_one, CellSet,
};

verus! {

broadcast use vstd::std_specs::hash::group_hash_axioms;

/// Whether `(x, y)` is live in the generation after `s`: a live cell stays
/// when its count is a survival count; a dead cell next to at least one live
/// cell is born when its count is a birth count.
pub open spec fn next_alive(s: Set<(int, int)>, survive: Set<u32>, birth: Set<u32>, x: int, y: int) -> bool {
    let n = neighbor_count(s, x, y);
    if s.contains((x, y)) {
        survive.contains(n as u32)
    } else {
        n > 0 && birth.contains(n as u32)
    }
}

/// The generation after `s`.
pub open spec fn next_generation(s: Set<(int, int)>, survive: Set<u32>, birth: Set<u32>) -> Set<(int, int)> {
    Set::new(|p: (int, int)| next_alive(s, survive, birth, p.0, p.1))
}

/// Every live cell lies two or more away from the edge of `i64`, so that its
/// neighbours and theirs can be stored.
pub open spec fn steppable(s: Set<(int, int)>) -> bool {
    forall|p: (int, int)| #[trigger] s.contains(p) ==> in_step_range(p)
}

/// `p` lies two or more away from the edge of `i64`.
pub open spec fn in_step_range(p: (int, int)) -> bool {
    i64::MIN + 2 <= p.0 <= i64::MAX - 2 && i64::MIN + 2 <= p.1 <= i64::MAX - 2
}

/// Whether every live cell lies far enough inside `i64` for `step`.
pub fn can_step(cells: &CellSet) -> (r: bool)
    requires
        cells.wf(),
    ensures
        r == steppable(cells@),
{
    let n = cells.len();
    let mut i: usize = 0;
    while i < n
        invariant
            cells.wf(),
            n == cells.elems().len(),
            i <= n,
            forall|j: int| 0 <= j < i ==> #[trigger] in_step_range(as_point(cells.elems()[j])),
        decreases n - i,
    {
        let (x, y) = cells.get(i);
        if !(i64::MIN + 2 <= x && x <= i64::MAX - 2 && i64::MIN + 2 <= y && y <= i64::MAX - 2) {
            return false;
        }
        i = i + 1;
    }
    proof {
        assert forall|p: (int, int)| #[trigger] cells@.contains(p) implies in_step_range(p) by {
            let j = choose|j: int| 0 <= j < n && as_point(cells.elems()[j]) == p;
        }
    }
    true
}

/// `p` is next to, or is, one of the first `i` stored cells.
spec fn covered(s: Seq<(i64, i64)>, i: int, p: (int, int)) -> bool {
    exists|j: int| 0 <= j < i && within_one(as_point(#[trigger] s[j]), p)
}

/// `p` is one of the points of the 3x3 block around `c` that come before
/// row `dy`, column `dx` (both relative to `c`).
spec fn before_in_block(c: (int, int), dy: int, dx: int, p: (int, int)) -> bool {
    within_one(c, p) && (p.1 - c.1 < dy || (p.1 - c.1 == dy && p.0 - c.0 < dx))
}

/// A cell that is live in the next generation is next to, or is, a live cell.
proof fn lemma_next_is_near_live(s: Seq<(i64, i64)>, survive: Set<u32>, birth: Set<u32>, p: (int, int))
    requires
        next_alive(points_of(s), survive, birth, p.0, p.1),
    ensures
        covered(s, s.len() as int, p),
{
    let live = points_of(s);
    let (x, y) = p;
    let q = if live.contains((x, y)) {
        (x, y)
    } else if live.contains((x - 1, y - 1)) {
        (x - 1, y - 1)
    } else if live.contains((x, y - 1)) {
        (x, y - 1)
    } else if live.contains((x + 1, y - 1)) {
        (x + 1, y - 1)
    } else if live.contains((x - 1, y)) {
        (x - 1, y)
    } else if live.contains((x + 1, y)) {
        (x + 1, y)
    } else if live.contains((x - 1, y + 1)) {
        (x - 1, y + 1)
    } else if live.contains((x, y + 1)) {
        (x, y + 1)
    } else {
        (x + 1, y + 1)
    };
    assert(live.contains(q));
    let j = choose|j: int| 0 <= j < s.len() && as_point(s[j]) == q;
    assert(within_one(as_point(s[j]), p));
}

/// Replaces `cells` by the next generation: `cell_lives` are the neighbour
/// counts at which a live cell survives, `new_cell` those at which a dead
/// cell is born. Every count is taken against the generation before.
pub fn step(cells: &mut CellSet, cell_lives: &HashSet<u32>, new_cell: &HashSet<u32>)
    requires
        old(cells).wf(),
        steppable(old(cells)@),
    ensures
        final(cells).wf(),
        final(cells)@ == next_generation(old(cells)@, cell_lives@, new_cell@),
{
    let ghost s = cells.elems();
    let ghost live = cells@;
    let ghost survive = cell_lives@;
    let ghost birth = new_cell@;
    let mut next = CellSet::new();
    let n = cells.len();
    let mut i: usize = 0;
    while i < n
        invariant
            cells.elems() == s,
            survive == cell_lives@,
            birth == new_cell@,
            cells@ == live,
            cells.wf(),
            steppable(live),
            n == s.len(),
            i <= n,
            next.wf(),
            forall|p: (int, int)| #[trigger] next@.contains(p) == (covered(s, i as int, p)
                && next_alive(live, survive, birth, p.0, p.1)),
        decreases n - i,
    {
        let (cx, cy) = cells.get(i);
        let ghost c = as_point((cx, cy));
        let mut dy: i64 = -1;
        while dy <= 1
            invariant
                cells.elems() == s,
                survive == cell_lives@,
                birth == new_cell@,
                cells@ == live,
                cells.wf(),
                live.contains(c),
                steppable(live),
                c == as_point((cx, cy)),
                i < n,
                n == s.len(),
                s[i as int] == (cx, cy),
                -1 <= dy <= 2,
                next.wf(),
                forall|p: (int, int)| #[trigger] next@.contains(p) == ((covered(s, i as int, p)
                    || before_in_block(c, dy as int, -1, p)) && next_alive(live, survive, birth, p.0, p.1)),
            decreases 2 - dy,
        {
            let mut dx: i64 = -1;
            while dx <= 1
                invariant
                    cells.elems() == s,
                    survive == cell_lives@,
                    birth == new_cell@,
                    cells@ == live,
                    cells.wf(),
                    live.contains(c),
                    steppable(live),
                    c == as_point((cx, cy)),
                    -1 <= dy <= 1,
                    -1 <= dx <= 2,
                    next.wf(),
                    forall|p: (int, int)| #[trigger] next@.contains(p) == ((covered(s, i as int, p)
                        || before_in_block(c, dy as int, dx as int, p)) && next_alive(
                        live,
                        survive,
                        birth,
                        p.0,
                        p.1,
                    )),
                decreases 2 - dx,
            {
                let px = cx + dx;
                let py = cy + dy;
                let count = count_neighbors(px, py, cells);
                let keep = if cells.contains(px, py) {
                    cell_lives.contains(&count)
                } else {
                    count > 0 && new_cell.contains(&count)
                };
                if keep {
                    next.insert(px, py);
                }
                proof {
                    let q = (px as int, py as int);
                    assert(keep == next_alive(live, survive, birth, q.0, q.1));
                    assert forall|p: (int, int)| #[trigger] next@.contains(p) == ((covered(
                        s,
                        i as int,
                        p,
                    ) || before_in_block(c, dy as int, dx + 1, p)) && next_alive(
                        live,
                        survive,
                        birth,
                        p.0,
                        p.1,
                    )) by {
                        if p != q {
                            assert(before_in_block(c, dy as int, dx + 1, p) == before_in_block(
                                c,
                                dy as int,
                                dx as int,
                                p,
                            ));
                        }
                    }
                }
                dx = dx + 1;
            }
            proof {
                assert forall|p: (int, int)| #[trigger] next@.contains(p) == ((covered(
                    s,
                    i as int,
                    p,
                ) || before_in_block(c, dy + 1, -1, p)) && next_alive(live, survive, birth, p.0, p.1)) by {
                    assert(before_in_block(c, dy + 1, -1, p) == before_in_block(c, dy as int, 2, p));
                }
            }
            dy = dy + 1;
        }
        proof {
            assert forall|p: (int, int)| #[trigger] next@.contains(p) == (covered(s, i + 1, p)
                && next_alive(live, survive, birth, p.0, p.1)) by {
                if covered(s, i + 1, p) && !covered(s, i as int, p) {
                    let j = choose|j: int| 0 <= j < i + 1 && within_one(as_point(s[j]), p);
                    assert(j == i);
                    assert(before_in_block(c, 2, -1, p));
                }
                if before_in_block(c, 2, -1, p) {
                    assert(within_one(as_point(s[i as int]), p));
                }
                if covered(s, i as int, p) {
                    let j = choose|j: int| 0 <= j < i && within_one(as_point(s[j]), p);
                    assert(covered(s, i + 1, p));
                }
            }
        }
        i = i + 1;
    }
    proof {
        assert forall|p: (int, int)| #[trigger] next@.contains(p) == next_generation(live, survive, birth).contains(p) by {
            if next_alive(live, survive, birth, p.0, p.1) {
                lemma_next_is_near_live(s, survive, birth, p);
            }
        }
        assert(next@ =~= next_generation(live, survive, birth));
    }
    *cells = next;
}

/// The default survival counts: two or three live neighbours.
pub open spec fn default_survive() -> Set<u32> {
    set![2u32, 3u32]
}

/// The default birth counts: exactly three live neighbours.
pub open spec fn default_birth() -> Set<u32> {
    set![3u32]
}

/// With no live cell there is none in the next generation, whatever the rules.
pub proof fn lemma_empty_stays_empty(survive: Set<u32>, birth: Set<u32>)
    ensures
        next_generation(Set::empty(), survive, birth) == Set::<(int, int)>::empty(),
{
    assert(next_generation(Set::empty(), survive, birth) =~= Set::<(int, int)>::empty());
}

/// Under the default rules a live cell with no live neighbour dies.
pub proof fn lemma_isolated_cell_dies(s: Set<(int, int)>, x: int, y: int)
    requires
        s.contains((x, y)),
        forall|q: (int, int)| #[trigger] s.contains(q) ==> !(within_one((x, y), q) && q != (x, y)),
    ensures
        !next_generation(s, default_survive(), default_birth()).contains((x, y)),
{
    crate::cells::lemma_isolated_point_counts_zero(s, x, y);
}

/// The 2x2 block whose lowest corner is `(x, y)`.
pub open spec fn block(x: int, y: int) -> Set<(int, int)> {
    set![(x, y), (x + 1, y), (x, y + 1), (x + 1, y + 1)]
}

/// Three cells in a row centred on `(x, y)`.
pub open spec fn blinker_row(x: int, y: int) -> Set<(int, int)> {
    set![(x - 1, y), (x, y), (x + 1, y)]
}

/// Three cells in a column centred on `(x, y)`.
pub open spec fn blinker_column(x: int, y: int) -> Set<(int, int)> {
    set![(x, y - 1), (x, y), (x, y + 1)]
}

/// The 2x2 block is a still life under the default rules.
pub proof fn lemma_block_is_still(x: int, y: int)
    ensures
        next_generation(block(x, y), default_survive(), default_birth()) == block(x, y),
        next_generation(
            next_generation(block(x, y), default_survive(), default_birth()),
            default_survive(),
            default_birth(),
        ) == block(x, y),
{
    let b = block(x, y);
    let n = next_generation(b, default_survive(), default_birth());
    assert forall|p: (int, int)| #[trigger] n.contains(p) == b.contains(p) by {
        let c = neighbor_count(b, p.0, p.1);
        if b.contains(p) {
            assert(c == 3);
        } else {
            assert(c != 3);
        }
    }
    assert(n =~= b);
}

/// The row of three turns into the column of three and back under the
/// default rules: a period-two oscillator.
pub proof fn lemma_blinker_oscillates(x: int, y: int)
    ensures
        next_generation(blinker_row(x, y), default_survive(), default_birth()) == blinker_column(x, y),
        next_generation(blinker_column(x, y), default_survive(), default_birth()) == blinker_row(x, y),
        next_generation(blinker_row(x, y), default_survive(), default_birth()) != blinker_row(x, y),
        next_generation(blinker_column(x, y), default_survive(), default_birth()) != blinker_column(x, y),
{
    let h = blinker_row(x, y);
    let v = blinker_column(x, y);
    let nh = next_generation(h, default_survive(), default_birth());
    let nv = next_generation(v, default_survive(), default_birth());
    assert forall|p: (int, int)| #[trigger] nh.contains(p) == v.contains(p) by {
        let c = neighbor_count(h, p.0, p.1);
        if v.contains(p) {
            assert(c == 2 || c == 3);
        } else if h.contains(p) {
            assert(c == 1);
        } else {
            assert(c != 3);
        }
    }
    assert forall|p: (int, int)| #[trigger] nv.contains(p) == h.contains(p) by {
        let c = neighbor_count(v, p.0, p.1);
        if h.contains(p) {
            assert(c == 2 || c == 3);
        } else if v.contains(p) {
            assert(c == 1);
        } else {
            assert(c != 3);
        }
    }
    assert(nh =~= v);
    assert(nv =~= h);
    assert(!v.contains((x - 1, y)));
    assert(!h.contains((x, y - 1)));
}

} // verus!
