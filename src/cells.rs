//! The sparse set of live cells and the neighbour count.

use std::collections::{HashMap, HashSet};
use vstd::prelude::*;

verus! {

broadcast use vstd::std_specs::hash::group_hash_axioms;

/// A stored coordinate seen as a point of the integer plane.
pub open spec fn as_point(c: (i64, i64)) -> (int, int) {
    (c.0 as int, c.1 as int)
}

/// The points that a sequence of stored coordinates holds.
pub open spec fn points_of(s: Seq<(i64, i64)>) -> Set<(int, int)> {
    Set::new(|p: (int, int)| exists|i: int| 0 <= i < s.len() && as_point(#[trigger] s[i]) == p)
}

/// `p` lies in the 3x3 block centred on `c`.
pub open spec fn within_one(c: (int, int), p: (int, int)) -> bool {
    -1 <= p.0 - c.0 <= 1 && -1 <= p.1 - c.1 <= 1
}

/// 1 when `(x, y)` is live in `s`, else 0.
pub open spec fn live_at(s: Set<(int, int)>, x: int, y: int) -> int {
    if s.contains((x, y)) {
        1
    } else {
        0
    }
}

/// How many of the eight points around `(x, y)` are live in `s`.
pub open spec fn neighbor_count(s: Set<(int, int)>, x: int, y: int) -> int {
    live_at(s, x - 1, y - 1) + live_at(s, x, y - 1) + live_at(s, x + 1, y - 1)
        + live_at(s, x - 1, y) + live_at(s, x + 1, y)
        + live_at(s, x - 1, y + 1) + live_at(s, x, y + 1) + live_at(s, x + 1, y + 1)
}

/// `y` is listed under row `x` of `rows`.
spec fn in_rows(rows: Map<i64, HashSet<i64>>, x: i64, y: i64) -> bool {
    rows.contains_key(x) && rows[x]@.contains(y)
}

/// The set of live cells, each coordinate held once. The cells are kept in
/// a list, for walking them, and indexed by row, for looking one up.
pub struct CellSet {
    cells: Vec<(i64, i64)>,
    rows: HashMap<i64, HashSet<i64>>,
}

impl View for CellSet {
    type V = Set<(int, int)>;

    open spec fn view(&self) -> Set<(int, int)> {
        points_of(self.elems())
    }
}

impl CellSet {
    /// The stored coordinates, in storage order.
    pub closed spec fn elems(&self) -> Seq<(i64, i64)> {
        self.cells@
    }

    /// No coordinate is stored twice, and the row index lists exactly the
    /// stored coordinates.
    pub closed spec fn wf(&self) -> bool {
        &&& self.cells@.no_duplicates()
        &&& forall|x: i64, y: i64| #[trigger] in_rows(self.rows@, x, y) == points_of(
            self.cells@,
        ).contains((x as int, y as int))
    }

    pub fn new() -> (r: CellSet)
        ensures
            r.wf(),
            r@ == Set::<(int, int)>::empty(),
    {
        let r = CellSet { cells: Vec::new(), rows: HashMap::new() };
        assert(r@ =~= Set::<(int, int)>::empty());
        r
    }

    /// Number of live cells.
    pub fn len(&self) -> (r: usize)
        requires
            self.wf(),
        ensures
            r == self.elems().len(),
            r == self@.len(),
            self.elems().no_duplicates(),
    {
        proof {
            lemma_points_len(self.elems());
        }
        self.cells.len()
    }

    /// The `i`-th stored coordinate.
    pub fn get(&self, i: usize) -> (r: (i64, i64))
        requires
            i < self.elems().len(),
        ensures
            r == self.elems()[i as int],
            self@.contains(as_point(r)),
    {
        self.cells[i]
    }

    /// Index of `(x, y)` in storage, if it is live.
    fn find(&self, x: i64, y: i64) -> (r: Option<usize>)
        ensures
            match r {
                Some(i) => i < self.elems().len() && self.elems()[i as int] == (x, y),
                None => !self@.contains((x as int, y as int)),
            },
    {
        let mut i: usize = 0;
        while i < self.cells.len()
            invariant
                i <= self.cells@.len(),
                forall|j: int| 0 <= j < i ==> #[trigger] self.cells@[j] != (x, y),
            decreases self.cells@.len() - i,
        {
            if self.cells[i].0 == x && self.cells[i].1 == y {
                return Some(i);
            }
            i = i + 1;
        }
        None
    }

    /// Whether `(x, y)` is live.
    pub fn contains(&self, x: i64, y: i64) -> (r: bool)
        requires
            self.wf(),
        ensures
            r == self@.contains((x as int, y as int)),
    {
        assert(in_rows(self.rows@, x, y) == self@.contains((x as int, y as int)));
        match self.rows.get(&x) {
            Some(row) => row.contains(&y),
            None => false,
        }
    }

    /// Makes `(x, y)` live; true when it was not live before.
    pub fn insert(&mut self, x: i64, y: i64) -> (r: bool)
        requires
            old(self).wf(),
        ensures
            final(self).wf(),
            final(self)@ == old(self)@.insert((x as int, y as int)),
            r == !old(self)@.contains((x as int, y as int)),
    {
        if self.contains(x, y) {
            proof {
                assert(old(self)@.insert((x as int, y as int)) =~= old(self)@);
            }
            false
        } else {
            let ghost s0 = self.cells@;
            let ghost r0 = self.rows@;
            self.cells.push((x, y));
            let mut row = match self.rows.remove(&x) {
                Some(row) => row,
                None => HashSet::new(),
            };
            let ghost row0 = row@;
            assert(r0.contains_key(x) ==> row0 == r0[x]@);
            assert(!r0.contains_key(x) ==> row0 == Set::<i64>::empty());
            row.insert(y);
            self.rows.insert(x, row);
            proof {
                let s1 = self.cells@;
                assert(s1[s0.len() as int] == (x, y));
                assert forall|i: int, j: int|
                    0 <= i < s1.len() && 0 <= j < s1.len() && i != j implies s1[i] != s1[j] by {
                    if i < s0.len() && j < s0.len() {
                        assert(s0[i] == s1[i] && s0[j] == s1[j]);
                    } else if i < s0.len() {
                        assert(s0[i] == s1[i]);
                        assert(s0[i] != (x, y));
                    } else if j < s0.len() {
                        assert(s0[j] == s1[j]);
                        assert(s0[j] != (x, y));
                    }
                }
                assert forall|p: (int, int)| #[trigger] points_of(s1).contains(p)
                    == points_of(s0).insert((x as int, y as int)).contains(p) by {
                    if points_of(s0).contains(p) {
                        let i = choose|i: int| 0 <= i < s0.len() && as_point(s0[i]) == p;
                        assert(s1[i] == s0[i]);
                    }
                    if points_of(s1).contains(p) && p != (x as int, y as int) {
                        let i = choose|i: int| 0 <= i < s1.len() && as_point(s1[i]) == p;
                        assert(s0[i] == s1[i]);
                    }
                }
                assert(points_of(s1) =~= points_of(s0).insert((x as int, y as int)));
                assert forall|a: i64, b: i64| #[trigger] in_rows(self.rows@, a, b) == points_of(
                    s1,
                ).contains((a as int, b as int)) by {
                    assert(in_rows(r0, a, b) == points_of(s0).contains((a as int, b as int)));
                    if a == x {
                        assert(self.rows@[a]@ == row0.insert(y));
                    } else {
                        assert(self.rows@.contains_key(a) == r0.contains_key(a));
                        if r0.contains_key(a) {
                            assert(self.rows@[a] == r0[a]);
                        }
                    }
                }
            }
            true
        }
    }

    /// Makes `(x, y)` dead; true when it was live before.
    pub fn remove(&mut self, x: i64, y: i64) -> (r: bool)
        requires
            old(self).wf(),
        ensures
            final(self).wf(),
            final(self)@ == old(self)@.remove((x as int, y as int)),
            r == old(self)@.contains((x as int, y as int)),
    {
        match self.find(x, y) {
            Some(k) => {
                let ghost s0 = self.cells@;
                let ghost r0 = self.rows@;
                self.cells.remove(k);
                proof {
                    assert(as_point(s0[k as int]) == (x as int, y as int));
                    assert(in_rows(r0, x, y));
                }
                let mut row = match self.rows.remove(&x) {
                    Some(row) => row,
                    None => HashSet::new(),
                };
                let ghost row0 = row@;
                assert(row0 == r0[x]@);
                row.remove(&y);
                self.rows.insert(x, row);
                proof {
                    let s1 = self.cells@;
                    assert(old(self)@.contains((x as int, y as int))) by {
                        assert(as_point(s0[k as int]) == (x as int, y as int));
                    }
                    assert forall|i: int| 0 <= i < s1.len() implies #[trigger] s1[i] == s0[if i < k {
                        i
                    } else {
                        i + 1
                    }] by {}
                    assert forall|i: int, j: int|
                        0 <= i < s1.len() && 0 <= j < s1.len() && i != j implies s1[i] != s1[j] by {
                        let a = if i < k { i } else { i + 1 };
                        let b = if j < k { j } else { j + 1 };
                        assert(s1[i] == s0[a] && s1[j] == s0[b]);
                    }
                    assert forall|p: (int, int)| #[trigger] points_of(s1).contains(p)
                        == points_of(s0).remove((x as int, y as int)).contains(p) by {
                        if points_of(s1).contains(p) {
                            let i = choose|i: int| 0 <= i < s1.len() && as_point(s1[i]) == p;
                            let a = if i < k { i } else { i + 1 };
                            assert(s1[i] == s0[a]);
                            assert(a != k);
                            assert(as_point(s0[a]) == p);
                        }
                        if points_of(s0).contains(p) && p != (x as int, y as int) {
                            let a = choose|a: int| 0 <= a < s0.len() && as_point(s0[a]) == p;
                            assert(a != k);
                            let i = if a < k { a } else { a - 1 };
                            assert(s1[i] == s0[a]);
                        }
                    }
                    assert(points_of(s1) =~= points_of(s0).remove((x as int, y as int)));
                    assert forall|a: i64, b: i64| #[trigger] in_rows(self.rows@, a, b) == points_of(
                        s1,
                    ).contains((a as int, b as int)) by {
                        assert(in_rows(r0, a, b) == points_of(s0).contains((a as int, b as int)));
                        if a == x {
                            assert(self.rows@[a]@ == row0.remove(y));
                        } else {
                            assert(self.rows@.contains_key(a) == r0.contains_key(a));
                            if r0.contains_key(a) {
                                assert(self.rows@[a] == r0[a]);
                            }
                        }
                    }
                }
                true
            },
            None => {
                proof {
                    assert(old(self)@.remove((x as int, y as int)) =~= old(self)@);
                }
                false
            },
        }
    }
}

/// Distinct stored coordinates are distinct points, so the set has as many
/// points as the sequence has entries.
proof fn lemma_points_len(s: Seq<(i64, i64)>)
    requires
        s.no_duplicates(),
    ensures
        points_of(s).finite(),
        points_of(s).len() == s.len(),
    decreases s.len(),
{
    if s.len() == 0 {
        assert(points_of(s) =~= Set::<(int, int)>::empty());
    } else {
        let t = s.drop_last();
        let c = s.last();
        assert forall|i: int, j: int| 0 <= i < t.len() && 0 <= j < t.len() && i != j implies t[i]
            != t[j] by {
            assert(t[i] == s[i] && t[j] == s[j]);
        }
        lemma_points_len(t);
        assert forall|p: (int, int)| #[trigger] points_of(s).contains(p) == points_of(t).insert(
            as_point(c),
        ).contains(p) by {
            if points_of(t).contains(p) {
                let i = choose|i: int| 0 <= i < t.len() && as_point(t[i]) == p;
                assert(s[i] == t[i]);
            }
            if points_of(s).contains(p) && p != as_point(c) {
                let i = choose|i: int| 0 <= i < s.len() && as_point(s[i]) == p;
                assert(i != s.len() - 1);
                assert(t[i] == s[i]);
            }
        }
        assert(points_of(s) =~= points_of(t).insert(as_point(c)));
        assert(!points_of(t).contains(as_point(c))) by {
            if points_of(t).contains(as_point(c)) {
                let i = choose|i: int| 0 <= i < t.len() && as_point(t[i]) == as_point(c);
                assert(t[i] == s[i]);
                assert(s[i] == s[s.len() - 1]);
            }
        }
    }
}

/// The number of live neighbours of `(x, y)`: the eight points around it,
/// the point itself not counted.
pub fn count_neighbors(x: i64, y: i64, cells: &CellSet) -> (r: u32)
    requires
        cells.wf(),
        i64::MIN < x < i64::MAX,
        i64::MIN < y < i64::MAX,
    ensures
        r == neighbor_count(cells@, x as int, y as int),
        r <= 8,
{
    let mut n: u32 = 0;
    if cells.contains(x - 1, y - 1) {
        n = n + 1;
    }
    if cells.contains(x, y - 1) {
        n = n + 1;
    }
    if cells.contains(x + 1, y - 1) {
        n = n + 1;
    }
    if cells.contains(x - 1, y) {
        n = n + 1;
    }
    if cells.contains(x + 1, y) {
        n = n + 1;
    }
    if cells.contains(x - 1, y + 1) {
        n = n + 1;
    }
    if cells.contains(x, y + 1) {
        n = n + 1;
    }
    if cells.contains(x + 1, y + 1) {
        n = n + 1;
    }
    n
}

/// The set `s` moved by the vector `(a, b)`.
pub open spec fn translated(s: Set<(int, int)>, a: int, b: int) -> Set<(int, int)> {
    Set::new(|p: (int, int)| s.contains((p.0 - a, p.1 - b)))
}

/// A point none of whose eight neighbours is live has a count of zero.
pub proof fn lemma_isolated_point_counts_zero(s: Set<(int, int)>, x: int, y: int)
    requires
        forall|q: (int, int)| #[trigger] s.contains(q) ==> !(within_one((x, y), q) && q != (x, y)),
    ensures
        neighbor_count(s, x, y) == 0,
{
    assert(!s.contains((x - 1, y - 1)));
    assert(!s.contains((x, y - 1)));
    assert(!s.contains((x + 1, y - 1)));
    assert(!s.contains((x - 1, y)));
    assert(!s.contains((x + 1, y)));
    assert(!s.contains((x - 1, y + 1)));
    assert(!s.contains((x, y + 1)));
    assert(!s.contains((x + 1, y + 1)));
}

/// Moving every live cell and the query point by the same vector leaves the
/// neighbour count unchanged.
pub proof fn lemma_count_translation_invariant(s: Set<(int, int)>, x: int, y: int, a: int, b: int)
    ensures
        neighbor_count(translated(s, a, b), x + a, y + b) == neighbor_count(s, x, y),
{
    let t = translated(s, a, b);
    assert(t.contains((x + a - 1, y + b - 1)) == s.contains((x - 1, y - 1)));
    assert(t.contains((x + a, y + b - 1)) == s.contains((x, y - 1)));
    assert(t.contains((x + a + 1, y + b - 1)) == s.contains((x + 1, y - 1)));
    assert(t.contains((x + a - 1, y + b)) == s.contains((x - 1, y)));
    assert(t.contains((x + a + 1, y + b)) == s.contains((x + 1, y)));
    assert(t.contains((x + a - 1, y + b + 1)) == s.contains((x - 1, y + 1)));
    assert(t.contains((x + a, y + b + 1)) == s.contains((x, y + 1)));
    assert(t.contains((x + a + 1, y + b + 1)) == s.contains((x + 1, y + 1)));
}

} // verus!
