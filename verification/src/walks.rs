//! Walks over the open tiles of a map, and the reachability they give: the
//! vocabulary for saying that one place of a level can be walked to from
//! another.

use vstd::prelude::*;
use crate::map::Tile;
use crate::visibility::is_step;

verus! {

/// Is `(x, y)` on the `w` x `h` map `t` (row-major) and not solid rock?
pub open spec fn open_at(t: Seq<Tile>, w: int, h: int, x: int, y: int) -> bool {
    0 <= x < w && 0 <= y < h && t[y * w + x] != Tile::Wall
}

/// A walk: open tiles, one orthogonal step at a time.
pub open spec fn is_walk(t: Seq<Tile>, w: int, h: int, p: Seq<(int, int)>) -> bool {
    &&& p.len() > 0
    &&& forall|i: int| 0 <= i < p.len() ==> open_at(t, w, h, (#[trigger] p[i]).0, p[i].1)
    &&& forall|i: int| 0 <= i < p.len() - 1 ==> is_step(#[trigger] p[i], p[i + 1])
}

/// There is a walk from `a` to `b`.
pub open spec fn reaches(t: Seq<Tile>, w: int, h: int, a: (int, int), b: (int, int)) -> bool {
    exists|p: Seq<(int, int)>| #[trigger] is_walk(t, w, h, p) && p[0] == a && p.last() == b
}

/// Every tile open in `t` is open in `t2`.
pub open spec fn more_open(t: Seq<Tile>, t2: Seq<Tile>, w: int, h: int) -> bool {
    forall|x: int, y: int| #[trigger] open_at(t, w, h, x, y) ==> open_at(t2, w, h, x, y)
}

/// An open tile reaches itself.
pub proof fn lemma_reach_here(t: Seq<Tile>, w: int, h: int, a: (int, int))
    requires
        open_at(t, w, h, a.0, a.1),
    ensures
        reaches(t, w, h, a, a),
{
    let p = seq![a];
    assert(is_walk(t, w, h, p));
}

/// A walk can be extended by one step onto an open tile.
pub proof fn lemma_reach_step(t: Seq<Tile>, w: int, h: int, a: (int, int), b: (int, int), c: (int, int))
    requires
        reaches(t, w, h, a, b),
        open_at(t, w, h, c.0, c.1),
        is_step(b, c),
    ensures
        reaches(t, w, h, a, c),
{
    let p = choose|p: Seq<(int, int)>| #[trigger] is_walk(t, w, h, p) && p[0] == a && p.last() == b;
    let q = p.push(c);
    assert forall|i: int| 0 <= i < q.len() implies open_at(t, w, h, (#[trigger] q[i]).0, q[i].1) by {
        if i < p.len() {
            assert(q[i] == p[i]);
        }
    }
    assert forall|i: int| 0 <= i < q.len() - 1 implies is_step(#[trigger] q[i], q[i + 1]) by {
        assert(q[i] == p[i]);
        if i + 1 < p.len() {
            assert(q[i + 1] == p[i + 1]);
        }
    }
    assert(is_walk(t, w, h, q));
}

/// Reachability is transitive: walks join end to end.
pub proof fn lemma_reach_trans(t: Seq<Tile>, w: int, h: int, a: (int, int), b: (int, int), c: (int, int))
    requires
        reaches(t, w, h, a, b),
        reaches(t, w, h, b, c),
    ensures
        reaches(t, w, h, a, c),
{
    let p = choose|p: Seq<(int, int)>| #[trigger] is_walk(t, w, h, p) && p[0] == a && p.last() == b;
    let q = choose|q: Seq<(int, int)>| #[trigger] is_walk(t, w, h, q) && q[0] == b && q.last() == c;
    let r = p + q.drop_first();
    assert forall|i: int| 0 <= i < r.len() implies open_at(t, w, h, (#[trigger] r[i]).0, r[i].1) by {
        if i < p.len() {
            assert(r[i] == p[i]);
        } else {
            assert(r[i] == q[i - p.len() + 1]);
        }
    }
    assert forall|i: int| 0 <= i < r.len() - 1 implies is_step(#[trigger] r[i], r[i + 1]) by {
        if i + 1 < p.len() {
            assert(r[i] == p[i]);
            assert(r[i + 1] == p[i + 1]);
        } else if i + 1 == p.len() {
            assert(r[i] == p[i]);
            assert(r[i] == q[0]);
            assert(r[i + 1] == q[1]);
        } else {
            assert(r[i] == q[i - p.len() + 1]);
            assert(r[i + 1] == q[i - p.len() + 2]);
        }
    }
    assert(is_walk(t, w, h, r));
    if q.len() == 1 {
        assert(r =~= p);
    } else {
        assert(r.last() == q.last());
    }
}

/// Reachability is symmetric: a walk can be taken backwards.
pub proof fn lemma_reach_back(t: Seq<Tile>, w: int, h: int, a: (int, int), b: (int, int))
    requires
        reaches(t, w, h, a, b),
    ensures
        reaches(t, w, h, b, a),
{
    let p = choose|p: Seq<(int, int)>| #[trigger] is_walk(t, w, h, p) && p[0] == a && p.last() == b;
    let n = p.len() as int;
    let r = Seq::new(p.len(), |i: int| p[n - 1 - i]);
    assert forall|i: int| 0 <= i < r.len() implies open_at(t, w, h, (#[trigger] r[i]).0, r[i].1) by {
        assert(r[i] == p[n - 1 - i]);
    }
    assert forall|i: int| 0 <= i < r.len() - 1 implies is_step(#[trigger] r[i], r[i + 1]) by {
        assert(is_step(p[n - 2 - i], p[n - 1 - i]));
    }
    assert(is_walk(t, w, h, r));
}

/// A run of open tiles along row `y` is walked end to end, both ways.
pub proof fn lemma_reach_row(t: Seq<Tile>, w: int, h: int, y: int, x1: int, x2: int)
    requires
        x1 <= x2,
        forall|x: int| x1 <= x <= x2 ==> #[trigger] open_at(t, w, h, x, y),
    ensures
        reaches(t, w, h, (x1, y), (x2, y)),
        reaches(t, w, h, (x2, y), (x1, y)),
    decreases x2 - x1,
{
    if x1 == x2 {
        assert(open_at(t, w, h, x1, y));
        lemma_reach_here(t, w, h, (x1, y));
    } else {
        lemma_reach_row(t, w, h, y, x1, x2 - 1);
        assert(open_at(t, w, h, x2, y));
        lemma_reach_step(t, w, h, (x1, y), (x2 - 1, y), (x2, y));
        lemma_reach_back(t, w, h, (x1, y), (x2, y));
    }
}

/// A run of open tiles along column `x` is walked end to end, both ways.
pub proof fn lemma_reach_col(t: Seq<Tile>, w: int, h: int, x: int, y1: int, y2: int)
    requires
        y1 <= y2,
        forall|y: int| y1 <= y <= y2 ==> #[trigger] open_at(t, w, h, x, y),
    ensures
        reaches(t, w, h, (x, y1), (x, y2)),
        reaches(t, w, h, (x, y2), (x, y1)),
    decreases y2 - y1,
{
    if y1 == y2 {
        assert(open_at(t, w, h, x, y1));
        lemma_reach_here(t, w, h, (x, y1));
    } else {
        lemma_reach_col(t, w, h, x, y1, y2 - 1);
        assert(open_at(t, w, h, x, y2));
        lemma_reach_step(t, w, h, (x, y1), (x, y2 - 1), (x, y2));
        lemma_reach_back(t, w, h, (x, y1), (x, y2));
    }
}

/// Inside an all-open rectangle every tile reaches every other.
pub proof fn lemma_reach_rect(
    t: Seq<Tile>,
    w: int,
    h: int,
    x0: int,
    y0: int,
    x1: int,
    y1: int,
    a: (int, int),
    b: (int, int),
)
    requires
        forall|x: int, y: int| x0 <= x <= x1 && y0 <= y <= y1 ==> #[trigger] open_at(t, w, h, x, y),
        x0 <= a.0 <= x1,
        y0 <= a.1 <= y1,
        x0 <= b.0 <= x1,
        y0 <= b.1 <= y1,
    ensures
        reaches(t, w, h, a, b),
{
    let (lo, hi) = if a.0 <= b.0 { (a.0, b.0) } else { (b.0, a.0) };
    assert forall|x: int| lo <= x <= hi implies #[trigger] open_at(t, w, h, x, a.1) by {
        assert(open_at(t, w, h, x, a.1));
    }
    lemma_reach_row(t, w, h, a.1, lo, hi);
    let (ylo, yhi) = if a.1 <= b.1 { (a.1, b.1) } else { (b.1, a.1) };
    assert forall|y: int| ylo <= y <= yhi implies #[trigger] open_at(t, w, h, b.0, y) by {
        assert(open_at(t, w, h, b.0, y));
    }
    lemma_reach_col(t, w, h, b.0, ylo, yhi);
    lemma_reach_trans(t, w, h, a, (b.0, a.1), b);
}

/// Opening more tiles keeps every walk.
pub proof fn lemma_reach_grows(t: Seq<Tile>, t2: Seq<Tile>, w: int, h: int, a: (int, int), b: (int, int))
    requires
        more_open(t, t2, w, h),
        reaches(t, w, h, a, b),
    ensures
        reaches(t2, w, h, a, b),
{
    let p = choose|p: Seq<(int, int)>| #[trigger] is_walk(t, w, h, p) && p[0] == a && p.last() == b;
    assert forall|i: int| 0 <= i < p.len() implies open_at(t2, w, h, (#[trigger] p[i]).0, p[i].1) by {
        assert(open_at(t, w, h, p[i].0, p[i].1));
    }
    assert(is_walk(t2, w, h, p));
}

} // verus!
