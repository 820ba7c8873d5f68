//! Points of a square board and counting of the points that satisfy a predicate.

use vstd::prelude::*;

verus! {

/// A point of the board as `(column, row)`, both counted from 0.
pub type Pt = (int, int);

/// `p` lies on a board of side `n`.
pub open spec fn in_bounds(n: int, p: Pt) -> bool {
    0 <= p.0 < n && 0 <= p.1 < n
}

/// `p` and `q` are orthogonal neighbours.
pub open spec fn adjacent(p: Pt, q: Pt) -> bool {
    ||| p.0 == q.0 && (p.1 == q.1 + 1 || q.1 == p.1 + 1)
    ||| p.1 == q.1 && (p.0 == q.0 + 1 || q.0 == p.0 + 1)
}

/// A grid of `n` rows of `n` cells each.
pub open spec fn grid_wf<T>(g: Seq<Seq<T>>, n: int) -> bool {
    g.len() == n && forall|y: int| 0 <= y < n ==> #[trigger] g[y].len() == n
}

/// The cell of a grid at point `p` (row `p.1`, column `p.0`).
pub open spec fn cell<T>(g: Seq<Seq<T>>, p: Pt) -> T {
    g[p.1][p.0]
}

/// The nested view of a grid held in vectors.
pub open spec fn grid_view<T>(g: Vec<Vec<T>>) -> Seq<Seq<T>> {
    g@.map_values(|r: Vec<T>| r@)
}

/// The points of a boolean grid that are set.
pub open spec fn marked(g: Seq<Seq<bool>>) -> spec_fn(Pt) -> bool {
    |p: Pt| g[p.1][p.0]
}

/// How many of the first `x` points of row `y` satisfy `pred`.
pub open spec fn count_row(pred: spec_fn(Pt) -> bool, y: int, x: int) -> nat
    decreases x,
{
    if x <= 0 {
        0
    } else {
        count_row(pred, y, x - 1) + if pred((x - 1, y)) {
            1nat
        } else {
            0nat
        }
    }
}

/// How many points of the first `y` rows (each of `n` points) satisfy `pred`.
pub open spec fn count_rows(n: int, pred: spec_fn(Pt) -> bool, y: int) -> nat
    decreases y,
{
    if y <= 0 {
        0
    } else {
        count_rows(n, pred, y - 1) + count_row(pred, y - 1, n)
    }
}

/// How many points of a board of side `n` satisfy `pred`.
pub open spec fn count_points(n: int, pred: spec_fn(Pt) -> bool) -> nat {
    count_rows(n, pred, n)
}

pub proof fn lemma_count_row_bound(pred: spec_fn(Pt) -> bool, y: int, x: int)
    requires
        x >= 0,
    ensures
        count_row(pred, y, x) <= x,
    decreases x,
{
    if x > 0 {
        lemma_count_row_bound(pred, y, x - 1);
    }
}

pub proof fn lemma_count_rows_bound(n: int, pred: spec_fn(Pt) -> bool, y: int)
    requires
        y >= 0,
        n >= 0,
    ensures
        count_rows(n, pred, y) <= y * n,
    decreases y,
{
    if y > 0 {
        lemma_count_rows_bound(n, pred, y - 1);
        lemma_count_row_bound(pred, y - 1, n);
        assert((y - 1) * n + n == y * n) by (nonlinear_arith);
    }
}

/// At most `n * n` points of the board satisfy any predicate.
pub proof fn lemma_count_bound(n: int, pred: spec_fn(Pt) -> bool)
    requires
        n >= 0,
    ensures
        count_points(n, pred) <= n * n,
{
    lemma_count_rows_bound(n, pred, n);
}

pub proof fn lemma_count_row_ext(p: spec_fn(Pt) -> bool, q: spec_fn(Pt) -> bool, y: int, x: int)
    requires
        forall|i: int| #![trigger p((i, y))] 0 <= i < x ==> p((i, y)) == q((i, y)),
    ensures
        count_row(p, y, x) == count_row(q, y, x),
    decreases x,
{
    if x > 0 {
        lemma_count_row_ext(p, q, y, x - 1);
        assert(p((x - 1, y)) == q((x - 1, y)));
    }
}

pub proof fn lemma_count_rows_ext(n: int, p: spec_fn(Pt) -> bool, q: spec_fn(Pt) -> bool, y: int)
    requires
        y <= n,
        forall|pt: Pt| #![trigger p(pt)] in_bounds(n, pt) ==> p(pt) == q(pt),
    ensures
        count_rows(n, p, y) == count_rows(n, q, y),
    decreases y,
{
    if y > 0 {
        lemma_count_rows_ext(n, p, q, y - 1);
        assert forall|i: int| #![trigger p((i, y - 1))] 0 <= i < n implies p((i, y - 1)) == q((i, y - 1)) by {
            assert(in_bounds(n, (i, y - 1)));
        }
        lemma_count_row_ext(p, q, y - 1, n);
    }
}

/// Predicates that agree on the board count the same.
pub proof fn lemma_count_ext(n: int, p: spec_fn(Pt) -> bool, q: spec_fn(Pt) -> bool)
    requires
        forall|pt: Pt| #![trigger p(pt)] in_bounds(n, pt) ==> p(pt) == q(pt),
    ensures
        count_points(n, p) == count_points(n, q),
{
    lemma_count_rows_ext(n, p, q, n);
}

pub proof fn lemma_count_row_zero(p: spec_fn(Pt) -> bool, y: int, x: int)
    ensures
        count_row(p, y, x) == 0 <==> forall|i: int| #![trigger p((i, y))] 0 <= i < x ==> !p((i, y)),
    decreases x,
{
    if x > 0 {
        lemma_count_row_zero(p, y, x - 1);
        if count_row(p, y, x) == 0 {
            assert forall|i: int| #![trigger p((i, y))] 0 <= i < x implies !p((i, y)) by {
                if i < x - 1 {
                } else {
                }
            }
        }
    }
}

pub proof fn lemma_count_rows_zero(n: int, p: spec_fn(Pt) -> bool, y: int)
    requires
        0 <= y <= n,
    ensures
        count_rows(n, p, y) == 0 <==> forall|pt: Pt| #![trigger p(pt)] 0 <= pt.0 < n && 0 <= pt.1 < y ==> !p(pt),
    decreases y,
{
    if y > 0 {
        lemma_count_rows_zero(n, p, y - 1);
        lemma_count_row_zero(p, y - 1, n);
        if count_rows(n, p, y) == 0 {
            assert forall|pt: Pt| #![trigger p(pt)] 0 <= pt.0 < n && 0 <= pt.1 < y implies !p(pt) by {
                if pt.1 < y - 1 {
                } else {
                    assert(pt == (pt.0, y - 1));
                }
            }
        } else {
            if forall|pt: Pt| #![trigger p(pt)] 0 <= pt.0 < n && 0 <= pt.1 < y ==> !p(pt) {
                assert forall|i: int| #![trigger p((i, y - 1))] 0 <= i < n implies !p((i, y - 1)) by {
                    assert(0 <= (i, y - 1).0 < n && 0 <= (i, y - 1).1 < y);
                }
                assert forall|pt: Pt| #![trigger p(pt)] 0 <= pt.0 < n && 0 <= pt.1 < y - 1 implies !p(pt) by {
                    assert(0 <= pt.1 < y);
                }
            }
        }
    }
}

/// No point is counted exactly when no point of the board satisfies the predicate.
pub proof fn lemma_count_zero(n: int, p: spec_fn(Pt) -> bool)
    requires
        n >= 0,
    ensures
        count_points(n, p) == 0 <==> forall|pt: Pt| #![trigger p(pt)] in_bounds(n, pt) ==> !p(pt),
{
    lemma_count_rows_zero(n, p, n);
}

pub proof fn lemma_count_row_split(p: spec_fn(Pt) -> bool, q: spec_fn(Pt) -> bool, y: int, x: int)
    ensures
        count_row(p, y, x) == count_row(|pt: Pt| p(pt) && q(pt), y, x) + count_row(
            |pt: Pt| p(pt) && !q(pt),
            y,
            x,
        ),
    decreases x,
{
    if x > 0 {
        lemma_count_row_split(p, q, y, x - 1);
    }
}

pub proof fn lemma_count_rows_split(n: int, p: spec_fn(Pt) -> bool, q: spec_fn(Pt) -> bool, y: int)
    ensures
        count_rows(n, p, y) == count_rows(n, |pt: Pt| p(pt) && q(pt), y) + count_rows(
            n,
            |pt: Pt| p(pt) && !q(pt),
            y,
        ),
    decreases y,
{
    if y > 0 {
        lemma_count_rows_split(n, p, q, y - 1);
        lemma_count_row_split(p, q, y - 1, n);
    }
}

/// Splitting a predicate by a second one splits its count.
pub proof fn lemma_count_split(n: int, p: spec_fn(Pt) -> bool, q: spec_fn(Pt) -> bool)
    ensures
        count_points(n, p) == count_points(n, |pt: Pt| p(pt) && q(pt)) + count_points(
            n,
            |pt: Pt| p(pt) && !q(pt),
        ),
{
    lemma_count_rows_split(n, p, q, n);
}

pub proof fn lemma_count_row_single(p: spec_fn(Pt) -> bool, q: spec_fn(Pt) -> bool, y: int, x: int, x0: int)
    requires
        0 <= x0,
        forall|i: int| #![trigger p((i, y))] 0 <= i < x && i != x0 ==> p((i, y)) == q((i, y)),
        !p((x0, y)),
        q((x0, y)),
    ensures
        count_row(q, y, x) == count_row(p, y, x) + if x0 < x {
            1nat
        } else {
            0nat
        },
    decreases x,
{
    if x > 0 {
        lemma_count_row_single(p, q, y, x - 1, x0);
    }
}

pub proof fn lemma_count_rows_single(n: int, p: spec_fn(Pt) -> bool, q: spec_fn(Pt) -> bool, y: int, pt0: Pt)
    requires
        0 <= y <= n,
        in_bounds(n, pt0),
        forall|pt: Pt| #![trigger p(pt)] in_bounds(n, pt) && pt != pt0 ==> p(pt) == q(pt),
        !p(pt0),
        q(pt0),
    ensures
        count_rows(n, q, y) == count_rows(n, p, y) + if pt0.1 < y {
            1nat
        } else {
            0nat
        },
    decreases y,
{
    if y > 0 {
        lemma_count_rows_single(n, p, q, y - 1, pt0);
        if pt0.1 == y - 1 {
            assert forall|i: int| #![trigger p((i, y - 1))] 0 <= i < n && i != pt0.0 implies p((i, y - 1)) == q((i, y - 1)) by {
                assert(in_bounds(n, (i, y - 1)) && (i, y - 1) != pt0);
            }
            assert(pt0 == (pt0.0, y - 1));
            lemma_count_row_single(p, q, y - 1, n, pt0.0);
        } else {
            assert forall|i: int| #![trigger p((i, y - 1))] 0 <= i < n implies p((i, y - 1)) == q((i, y - 1)) by {
                assert(in_bounds(n, (i, y - 1)) && (i, y - 1) != pt0);
            }
            lemma_count_row_ext(p, q, y - 1, n);
        }
    }
}

/// Making one more point satisfy the predicate adds one to the count.
pub proof fn lemma_count_single(n: int, p: spec_fn(Pt) -> bool, q: spec_fn(Pt) -> bool, pt0: Pt)
    requires
        in_bounds(n, pt0),
        forall|pt: Pt| #![trigger p(pt)] in_bounds(n, pt) && pt != pt0 ==> p(pt) == q(pt),
        !p(pt0),
        q(pt0),
    ensures
        count_points(n, q) == count_points(n, p) + 1,
{
    lemma_count_rows_single(n, p, q, n, pt0);
}

} // verus!
