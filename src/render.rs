//! What a frame must redraw: live cells that fall in the view, and cells
//! drawn in the frame before that are no longer there.

use vstd::prelude::*;
use crate::cells::{as_point, CellSet};
use crate::input::screen_to_world;

verus! {

/// `q` is a 1-based position of a `w` by `h` screen.
pub open spec fn on_screen(q: (int, int), w: int, h: int) -> bool {
    1 <= q.0 <= w && 1 <= q.1 <= h
}

/// The screen positions whose world point is live in `s` when the view's
/// top-left cell shows `off`.
pub open spec fn drawn(s: Set<(int, int)>, off: (int, int), w: int, h: int) -> Set<(int, int)> {
    Set::new(|q: (int, int)| on_screen(q, w, h) && s.contains(screen_to_world(q.0, q.1, off)))
}

/// The screen positions of `prev` that are not drawn again.
pub open spec fn stale(
    prev: Set<(int, int)>,
    s: Set<(int, int)>,
    off: (int, int),
    w: int,
    h: int,
) -> Set<(int, int)> {
    Set::new(
        |q: (int, int)| prev.contains(q) && on_screen(q, w, h) && !drawn(s, off, w, h).contains(q),
    )
}

/// The screen positions of every live cell of `s`, in view or not.
pub open spec fn projected(s: Set<(int, int)>, off: (int, int)) -> Set<(int, int)> {
    Set::new(|q: (int, int)| s.contains(screen_to_world(q.0, q.1, off)))
}

/// Every live cell has a screen position that `i64` holds, and the view's
/// far edge does too.
pub open spec fn projectable(s: Set<(int, int)>, off: (i64, i64)) -> bool {
    &&& off.0 + 65535 <= i64::MAX
    &&& off.1 + 65535 <= i64::MAX
    &&& forall|p: (int, int)| #[trigger] s.contains(p) ==> fits_screen(p, off)
}

/// Whether `render_diff` can place every live cell of `cells` on a screen
/// whose top-left shows `offset`.
pub fn can_project(cells: &CellSet, offset: (i64, i64)) -> (r: bool)
    requires
        cells.wf(),
    ensures
        r == projectable(cells@, offset),
{
    if offset.0 > i64::MAX - 65535 || offset.1 > i64::MAX - 65535 {
        return false;
    }
    let n = cells.len();
    let mut i: usize = 0;
    while i < n
        invariant
            cells.wf(),
            n == cells.elems().len(),
            i <= n,
            forall|j: int| 0 <= j < i ==> #[trigger] fits_screen(as_point(cells.elems()[j]), offset),
        decreases n - i,
    {
        let (x, y) = cells.get(i);
        let sx = 1 - offset.0 as i128 + x as i128;
        let sy = 1 - offset.1 as i128 + y as i128;
        if sx < i64::MIN as i128 || sx > i64::MAX as i128 || sy < i64::MIN as i128 || sy > i64::MAX as i128 {
            return false;
        }
        i = i + 1;
    }
    proof {
        assert forall|p: (int, int)| #[trigger] cells@.contains(p) implies fits_screen(p, offset) by {
            let j = choose|j: int| 0 <= j < n && as_point(cells.elems()[j]) == p;
        }
    }
    true
}

/// The screen position of `p` fits `i64`.
pub open spec fn fits_screen(p: (int, int), off: (i64, i64)) -> bool {
    i64::MIN <= 1 - off.0 + p.0 <= i64::MAX && i64::MIN <= 1 - off.1 + p.1 <= i64::MAX
}

/// The screen positions to paint in a frame.
pub struct RenderDiff {
    /// Screen positions drawn before that now show background.
    pub erase: CellSet,
    /// Positions of live cells in view.
    pub draw: CellSet,
}

/// Whether the whole background must be painted again: the terminal's size
/// is not the one last painted.
pub fn needs_full_redraw(bw: u16, bh: u16, w: u16, h: u16) -> (r: bool)
    ensures
        r == (bw != w || bh != h),
{
    bw != w || bh != h
}

/// Works out a frame for a view of `w` by `h` cells whose top-left shows
/// `offset`: `draw` holds the screen position of each live cell in view,
/// `erase` each screen position of `cells_old` that is not drawn again. Then
/// `cells_old` becomes the screen positions of all live cells, those out of
/// view included, so that scrolling back erases them too.
pub fn render_diff(cells: &CellSet, cells_old: &mut CellSet, offset: (i64, i64), w: u16, h: u16) -> (r:
    RenderDiff)
    requires
        cells.wf(),
        old(cells_old).wf(),
        projectable(cells@, offset),
    ensures
        r.draw.wf(),
        r.erase.wf(),
        r.draw@ == drawn(cells@, as_point(offset), w as int, h as int),
        r.erase@ == stale(old(cells_old)@, cells@, as_point(offset), w as int, h as int),
        final(cells_old).wf(),
        final(cells_old)@ == projected(cells@, as_point(offset)),
{
    let ghost s = cells.elems();
    let ghost off = as_point(offset);
    let (ox, oy) = offset;
    let mut draw = CellSet::new();
    let mut all = CellSet::new();
    let n = cells.len();
    let mut i: usize = 0;
    while i < n
        invariant
            cells.wf(),
            s == cells.elems(),
            n == s.len(),
            i <= n,
            off == as_point(offset),
            (ox, oy) == offset,
            projectable(cells@, offset),
            draw.wf(),
            all.wf(),
            forall|q: (int, int)| #[trigger] all@.contains(q) == (exists|j: int|
                0 <= j < i && as_point(#[trigger] s[j]) == screen_to_world(q.0, q.1, off)),
            forall|q: (int, int)| #[trigger] draw@.contains(q) == (1 <= q.0 <= w && 1 <= q.1 <= h
                && exists|j: int| 0 <= j < i && as_point(#[trigger] s[j]) == screen_to_world(q.0, q.1, off)),
        decreases n - i,
    {
        let (x, y) = cells.get(i);
        let sx = (1 - ox as i128 + x as i128) as i64;
        let sy = (1 - oy as i128 + y as i128) as i64;
        all.insert(sx, sy);
        if x < ox + w as i64 && x >= ox && y < oy + h as i64 && y >= oy {
            draw.insert(sx, sy);
        }
        proof {
            let p = (sx as int, sy as int);
            assert(screen_to_world(p.0, p.1, off) == as_point(s[i as int]));
            assert forall|q: (int, int)| #[trigger] all@.contains(q) == (exists|j: int|
                0 <= j < i + 1 && as_point(#[trigger] s[j]) == screen_to_world(q.0, q.1, off)) by {
                if exists|j: int| 0 <= j < i + 1 && as_point(#[trigger] s[j]) == screen_to_world(q.0, q.1, off) {
                    let j = choose|j: int| 0 <= j < i + 1 && as_point(#[trigger] s[j]) == screen_to_world(q.0, q.1, off);
                    if j == i {
                        assert(q == p);
                    }
                }
            }
            assert forall|q: (int, int)| #[trigger] draw@.contains(q) == (1 <= q.0 <= w && 1 <= q.1 <= h
                && exists|j: int| 0 <= j < i + 1 && as_point(#[trigger] s[j]) == screen_to_world(q.0, q.1, off)) by {
                if exists|j: int| 0 <= j < i + 1 && as_point(#[trigger] s[j]) == screen_to_world(q.0, q.1, off) {
                    let j = choose|j: int| 0 <= j < i + 1 && as_point(#[trigger] s[j]) == screen_to_world(q.0, q.1, off);
                    if j == i {
                        assert(q == p);
                    }
                }
            }
        }
        i = i + 1;
    }
    proof {
        assert forall|q: (int, int)| #[trigger] all@.contains(q) == projected(cells@, off).contains(q) by {
            if cells@.contains(screen_to_world(q.0, q.1, off)) {
                let j = choose|j: int| 0 <= j < s.len() && as_point(#[trigger] s[j]) == screen_to_world(q.0, q.1, off);
            }
        }
        assert(all@ =~= projected(cells@, off));
        assert forall|q: (int, int)| #[trigger] draw@.contains(q) == drawn(cells@, off, w as int, h as int).contains(q) by {
            if cells@.contains(screen_to_world(q.0, q.1, off)) {
                let j = choose|j: int| 0 <= j < s.len() && as_point(#[trigger] s[j]) == screen_to_world(q.0, q.1, off);
            }
        }
        assert(draw@ =~= drawn(cells@, off, w as int, h as int));
    }
    let ghost t = cells_old.elems();
    let mut erase = CellSet::new();
    let m = cells_old.len();
    let mut k: usize = 0;
    while k < m
        invariant
            cells_old.wf(),
            t == cells_old.elems(),
            m == t.len(),
            k <= m,
            erase.wf(),
            draw.wf(),
            forall|q: (int, int)| #[trigger] erase@.contains(q) == (!draw@.contains(q) && on_screen(
                q,
                w as int,
                h as int,
            ) && exists|j: int| 0 <= j < k && as_point(#[trigger] t[j]) == q),
        decreases m - k,
    {
        let (qx, qy) = cells_old.get(k);
        if 1 <= qx && qx <= w as i64 && 1 <= qy && qy <= h as i64 && !draw.contains(qx, qy) {
            erase.insert(qx, qy);
        }
        proof {
            let p = as_point((qx, qy));
            assert(as_point(t[k as int]) == p);
            assert forall|q: (int, int)| #[trigger] erase@.contains(q) == (!draw@.contains(q)
                && on_screen(q, w as int, h as int) && exists|j: int|
                0 <= j < k + 1 && as_point(#[trigger] t[j]) == q) by {
                if exists|j: int| 0 <= j < k + 1 && as_point(#[trigger] t[j]) == q {
                    let j = choose|j: int| 0 <= j < k + 1 && as_point(#[trigger] t[j]) == q;
                    if j == k {
                        assert(q == p);
                    }
                }
            }
        }
        k = k + 1;
    }
    proof {
        assert(erase@ =~= stale(old(cells_old)@, cells@, off, w as int, h as int));
    }
    *cells_old = all;
    RenderDiff { erase, draw }
}

/// After a frame every live cell in view is drawn, every screen position
/// drawn in the frame before that is not drawn again is erased, and nothing
/// is both drawn and erased.
pub proof fn lemma_diff_complete(
    s: Set<(int, int)>,
    prev: Set<(int, int)>,
    off: (int, int),
    w: int,
    h: int,
)
    ensures
        forall|p: (int, int)|
            #![trigger s.contains(p)]
            s.contains(p) && off.0 <= p.0 < off.0 + w && off.1 <= p.1 < off.1 + h
                ==> drawn(s, off, w, h).contains((1 - off.0 + p.0, 1 - off.1 + p.1)),
        forall|q: (int, int)|
            #![trigger prev.contains(q)]
            prev.contains(q) && on_screen(q, w, h) && !drawn(s, off, w, h).contains(q)
                ==> stale(prev, s, off, w, h).contains(q),
        drawn(s, off, w, h).disjoint(stale(prev, s, off, w, h)),
{
    assert forall|p: (int, int)|
        s.contains(p) && off.0 <= p.0 < off.0 + w && off.1 <= p.1 < off.1 + h implies drawn(
        s,
        off,
        w,
        h,
    ).contains((1 - off.0 + p.0, 1 - off.1 + p.1)) by {
        assert(screen_to_world(1 - off.0 + p.0, 1 - off.1 + p.1, off) == p);
    }
}

} // verus!
