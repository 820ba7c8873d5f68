//! Executable boards: the grid of stones that each node of the game tree keeps, and the
//! computation of groups, liberties and captures on it.

use vstd::prelude::*;
use crate::board::{Board, at, connected, is_liberty, has_liberty, liberty_count, lemma_connected_refl,
    is_captured, without_captured, resolve_move, lemma_liberty_count_zero, lemma_same_group_liberties,
    lemma_connected_extend, lemma_connected_ends, lemma_closed_set_holds_group};
use crate::color::{Color, opposite};
use crate::grid::{Pt, in_bounds, adjacent, grid_wf, grid_view, marked, count_points, count_rows, count_row,
    lemma_count_bound, lemma_count_rows_bound, lemma_count_row_bound, lemma_count_zero, lemma_count_single, lemma_count_ext};

verus! {

/// The stones of a board, row by row (`stones[y][x]`).
pub type Stones = Vec<Vec<Option<Color>>>;

/// The board that `s` holds.
pub open spec fn board_of(s: Stones) -> Board {
    grid_view(s)
}

/// A point given as executable coordinates, seen as a point of the board.
pub open spec fn upt(u: (usize, usize)) -> Pt {
    (u.0 as int, u.1 as int)
}

/// The board of side `n` with no stone on it.
pub open spec fn empty_board_spec(n: int) -> Board {
    Seq::new(n as nat, |y: int| Seq::new(n as nat, |x: int| None::<Color>))
}

/// The orthogonal neighbours of `(x, y)` that lie on a board of side `n`, in the order left,
/// right, up, down.
pub open spec fn neighbor_list(x: usize, y: usize, n: usize) -> Seq<(usize, usize)> {
    let left = if x > 0 { seq![((x - 1) as usize, y)] } else { Seq::empty() };
    let right = if x + 1 < n { seq![((x + 1) as usize, y)] } else { Seq::empty() };
    let up = if y > 0 { seq![(x, (y - 1) as usize)] } else { Seq::empty() };
    let down = if y + 1 < n { seq![(x, (y + 1) as usize)] } else { Seq::empty() };
    left + right + up + down
}

/// `s` holds no point twice.
pub open spec fn no_dup(s: Seq<(usize, usize)>) -> bool {
    forall|i: int, j: int| 0 <= i < j < s.len() ==> s[i] != s[j]
}

/// `s` holds the point `q`.
pub open spec fn holds(s: Seq<(usize, usize)>, q: Pt) -> bool {
    exists|i: int| 0 <= i < s.len() && upt(#[trigger] s[i]) == q
}

/// A board of side `size` with no stone on it.
pub fn empty_board(size: usize) -> (r: Stones)
    ensures
        board_of(r) == empty_board_spec(size as int),
{
    let mut rows: Stones = Vec::new();
    let mut y: usize = 0;
    while y < size
        invariant
            y <= size,
            rows@.len() == y,
            forall|i: int| 0 <= i < y ==> #[trigger] rows@[i]@ == Seq::new(size as nat, |x: int| None::<Color>),
        decreases size - y,
    {
        let mut row: Vec<Option<Color>> = Vec::new();
        let mut x: usize = 0;
        while x < size
            invariant
                x <= size,
                row@ == Seq::new(x as nat, |i: int| None::<Color>),
            decreases size - x,
        {
            row.push(None);
            x += 1;
            assert(row@ =~= Seq::new(x as nat, |i: int| None::<Color>));
        }
        rows.push(row);
        y += 1;
    }
    assert(board_of(rows) =~= empty_board_spec(size as int));
    rows
}

/// An exact copy of a board.
pub fn copy_stones(s: &Stones) -> (r: Stones)
    ensures
        board_of(r) == board_of(*s),
{
    let mut rows: Stones = Vec::new();
    let mut y: usize = 0;
    while y < s.len()
        invariant
            y <= s@.len(),
            rows@.len() == y,
            forall|i: int| 0 <= i < y ==> #[trigger] rows@[i]@ == s@[i]@,
        decreases s@.len() - y,
    {
        let mut row: Vec<Option<Color>> = Vec::new();
        let mut x: usize = 0;
        while x < s[y].len()
            invariant
                y < s@.len(),
                x <= s@[y as int]@.len(),
                row@ == s@[y as int]@.subrange(0, x as int),
            decreases s@[y as int]@.len() - x,
        {
            row.push(s[y][x]);
            x += 1;
            assert(row@ =~= s@[y as int]@.subrange(0, x as int));
        }
        assert(row@ =~= s@[y as int]@);
        rows.push(row);
        y += 1;
    }
    assert(board_of(rows) =~= board_of(*s));
    rows
}

/// The sizes of a grid held in vectors.
proof fn lemma_grid_dims<T>(g: Vec<Vec<T>>, n: int)
    requires
        grid_wf(grid_view(g), n),
    ensures
        g@.len() == n,
        forall|y: int| 0 <= y < n ==> (#[trigger] g@[y])@.len() == n,
        forall|y: int| 0 <= y < n ==> #[trigger] grid_view(g)[y] == g@[y]@,
{
    assert forall|y: int| 0 <= y < n implies (#[trigger] g@[y])@.len() == n by {
        assert(grid_view(g)[y] == g@[y]@);
    }
}

/// The sizes of a board held in vectors.
pub proof fn lemma_stones_dims(g: Stones, n: int)
    requires
        grid_wf(board_of(g), n),
    ensures
        g@.len() == n,
        forall|y: int| 0 <= y < n ==> (#[trigger] g@[y])@.len() == n,
        forall|y: int| 0 <= y < n ==> #[trigger] board_of(g)[y] == g@[y]@,
{
    lemma_grid_dims(g, n);
}

/// A square grid of side `n` with every cell set to `v`.
fn new_grid(n: usize, v: bool) -> (r: Vec<Vec<bool>>)
    ensures
        grid_wf(grid_view(r), n as int),
        forall|q: Pt| in_bounds(n as int, q) ==> marked(grid_view(r))(q) == v,
{
    let mut rows: Vec<Vec<bool>> = Vec::new();
    let mut y: usize = 0;
    while y < n
        invariant
            y <= n,
            rows@.len() == y,
            forall|i: int| 0 <= i < y ==> #[trigger] rows@[i]@ == Seq::new(n as nat, |x: int| v),
        decreases n - y,
    {
        let mut row: Vec<bool> = Vec::new();
        let mut x: usize = 0;
        while x < n
            invariant
                x <= n,
                row@ == Seq::new(x as nat, |i: int| v),
            decreases n - x,
        {
            row.push(v);
            x += 1;
            assert(row@ =~= Seq::new(x as nat, |i: int| v));
        }
        rows.push(row);
        y += 1;
    }
    rows
}

/// How many cells of a square grid of side `n` are set.
fn count_marked(g: &Vec<Vec<bool>>, n: usize) -> (r: usize)
    requires
        grid_wf(grid_view(*g), n as int),
        n * n <= usize::MAX,
    ensures
        r == count_points(n as int, marked(grid_view(*g))),
{
    let ghost pred = marked(grid_view(*g));
    let mut total: usize = 0;
    let mut y: usize = 0;
    while y < n
        invariant
            y <= n,
            n * n <= usize::MAX,
            grid_wf(grid_view(*g), n as int),
            pred == marked(grid_view(*g)),
            total == count_rows(n as int, pred, y as int),
        decreases n - y,
    {
        let mut x: usize = 0;
        let mut in_row: usize = 0;
        proof {
            lemma_count_rows_bound(n as int, pred, y as int);
            assert((y + 1) * n <= n * n) by (nonlinear_arith) requires y < n;
            assert(y * n + n == (y + 1) * n) by (nonlinear_arith);
        }
        while x < n
            invariant
                x <= n,
                y < n,
                n * n <= usize::MAX,
                grid_wf(grid_view(*g), n as int),
                pred == marked(grid_view(*g)),
                total == count_rows(n as int, pred, y as int),
                total <= y * n,
                y * n + n <= n * n,
                in_row == count_row(pred, y as int, x as int),
                in_row <= x,
            decreases n - x,
        {
            proof {
                lemma_count_row_bound(pred, y as int, x as int);
            }
            if g[y][x] {
                in_row += 1;
            }
            x += 1;
        }
        total += in_row;
        y += 1;
    }
    total
}

/// The orthogonal neighbours of `(x, y)` on a board of side `size`.
pub fn neighbors(x: usize, y: usize, size: usize) -> (r: Vec<(usize, usize)>)
    requires
        x < size,
        y < size,
    ensures
        r@ == neighbor_list(x, y, size),
        r@.len() <= 4,
        no_dup(r@),
        forall|i: int| 0 <= i < r@.len() ==> in_bounds(size as int, upt(#[trigger] r@[i])) && adjacent(
            (x as int, y as int),
            upt(r@[i]),
        ),
        forall|q: Pt| in_bounds(size as int, q) && adjacent((x as int, y as int), q) ==> holds(r@, q),
{
    let mut result: Vec<(usize, usize)> = Vec::with_capacity(4);
    if x > 0 {
        result.push((x - 1, y));
    }
    if x + 1 < size {
        result.push((x + 1, y));
    }
    if y > 0 {
        result.push((x, y - 1));
    }
    if y + 1 < size {
        result.push((x, y + 1));
    }
    let ghost l = neighbor_list(x, y, size);
    assert(result@ =~= l);
    assert forall|q: Pt| in_bounds(size as int, q) && adjacent((x as int, y as int), q) implies holds(result@, q) by {
        let mut k: int = 0;
        if q.1 == y && q.0 + 1 == x {
            assert(upt(result@[0]) == q);
        } else if q.1 == y && q.0 == x + 1 {
            let i: int = if x > 0 { 1 } else { 0 };
            assert(upt(result@[i]) == q);
        } else if q.0 == x && q.1 + 1 == y {
            let i: int = (if x > 0 { 1int } else { 0int }) + (if x + 1 < size { 1int } else { 0int });
            assert(upt(result@[i]) == q);
        } else {
            let i: int = (if x > 0 { 1int } else { 0int }) + (if x + 1 < size { 1int } else { 0int }) + (if y > 0 { 1int } else { 0int });
            assert(upt(result@[i]) == q);
        }
    }
    result
}


/// Every neighbour of `g` of colour `c` is visited, and every empty neighbour is recorded as a
/// liberty.
spec fn closed_at(b: Board, n: int, c: Option<Color>, v: Seq<Seq<bool>>, l: Seq<Seq<bool>>, g: Pt) -> bool {
    forall|nb: Pt|
        #![trigger adjacent(g, nb)]
        in_bounds(n, nb) && adjacent(g, nb) ==> (at(b, nb) == c ==> marked(v)(nb)) && (at(b, nb) is None
            ==> marked(l)(nb))
}

/// The group of the stone at `(x, y)`: its stones (each once) and the number of its liberties.
fn collect_group(stones: &Stones, x: usize, y: usize, size: usize) -> (res: (Vec<(usize, usize)>, usize))
    requires
        grid_wf(board_of(*stones), size as int),
        x < size,
        y < size,
        at(board_of(*stones), (x as int, y as int)) is Some,
        size * size <= usize::MAX,
    ensures
        forall|i: int| 0 <= i < res.0@.len() ==> in_bounds(size as int, upt(#[trigger] res.0@[i])),
        no_dup(res.0@),
        forall|q: Pt|
            in_bounds(size as int, q) ==> (#[trigger] connected(board_of(*stones), size as int, (x as int, y as int), q)
                <==> holds(res.0@, q)),
        res.1 == liberty_count(board_of(*stones), size as int, (x as int, y as int)),
{
    let ghost b = board_of(*stones);
    let ghost n = size as int;
    let ghost p: Pt = (x as int, y as int);
    let color = stones[y][x];
    let mut visited = new_grid(size, false);
    let mut libs = new_grid(size, false);
    proof {
        lemma_count_zero(n, marked(grid_view(visited)));
    }
    let ghost v0 = grid_view(visited);
    proof {
        lemma_grid_dims(visited, n);
    }
    visited[y][x] = true;
    proof {
        assert(grid_view(visited) =~= v0.update(y as int, v0[y as int].update(x as int, true)));
        lemma_count_single(n, marked(v0), marked(grid_view(visited)), p);
        lemma_connected_refl(b, n, p);
    }
    let mut group: Vec<(usize, usize)> = Vec::new();
    let mut stack: Vec<(usize, usize)> = Vec::new();
    stack.push((x, y));
    proof {
        assert(holds(group@ + stack@, p)) by {
            assert(upt((group@ + stack@)[0]) == p);
        }
    }
    while stack.len() > 0
        invariant
            b == board_of(*stones),
            grid_wf(b, n),
            n == size,
            p == (x as int, y as int),
            in_bounds(n, p),
            size * size <= usize::MAX,
            color == at(b, p),
            color is Some,
            grid_wf(grid_view(visited), n),
            grid_wf(grid_view(libs), n),
            marked(grid_view(visited))(p),
            forall|q: Pt| in_bounds(n, q) && #[trigger] marked(grid_view(visited))(q) ==> connected(b, n, p, q),
            forall|i: int|
                0 <= i < stack@.len() ==> in_bounds(n, upt(#[trigger] stack@[i])) && marked(grid_view(visited))(
                    upt(stack@[i]),
                ),
            forall|i: int|
                0 <= i < group@.len() ==> in_bounds(n, upt(#[trigger] group@[i])) && marked(grid_view(visited))(
                    upt(group@[i]),
                ) && closed_at(b, n, color, grid_view(visited), grid_view(libs), upt(group@[i])),
            forall|q: Pt| in_bounds(n, q) && #[trigger] marked(grid_view(visited))(q) ==> holds(group@ + stack@, q),
            no_dup(group@ + stack@),
            group@.len() + stack@.len() == count_points(n, marked(grid_view(visited))),
            forall|r: Pt| in_bounds(n, r) && #[trigger] marked(grid_view(libs))(r) ==> is_liberty(b, n, p, r),
        decreases size * size - group@.len(),
    {
        proof {
            lemma_count_bound(n, marked(grid_view(visited)));
        }
        let ghost before = group@ + stack@;
        let ghost old_group = group@;
        let ghost old_stack = stack@;
        let c = stack.pop().unwrap();
        assert(c == old_stack.last());
        assert(stack@ == old_stack.drop_last());
        group.push(c);
        assert(group@ == old_group.push(c));
        proof {
            let gl = old_group.len() as int;
            let sl = old_stack.len() as int;
            let now = group@ + stack@;
            assert(now.len() == before.len());
            assert forall|i: int| 0 <= i < now.len() implies #[trigger] now[i] == before[if i < gl { i } else if i == gl { gl + sl - 1 } else { i - 1 }] by {
                if i < gl {
                } else if i == gl {
                } else {
                    assert(now[i] == stack@[i - gl - 1]);
                }
            }
            assert forall|i: int, j: int| 0 <= i < j < now.len() implies now[i] != now[j] by {
                let fi = if i < gl { i } else if i == gl { gl + sl - 1 } else { i - 1 };
                let fj = if j < gl { j } else if j == gl { gl + sl - 1 } else { j - 1 };
                assert(now[i] == before[fi]);
                assert(now[j] == before[fj]);
                assert(fi != fj);
                if fi < fj {
                    assert(before[fi] != before[fj]);
                } else {
                    assert(before[fj] != before[fi]);
                }
            }
            assert forall|q: Pt| #[trigger] holds(before, q) implies holds(now, q) by {
                let k = choose|k: int| 0 <= k < before.len() && upt(#[trigger] before[k]) == q;
                let i = if k < gl { k } else if k == gl + sl - 1 { gl } else { k + 1 };
                assert(now[i] == before[k]);
            }
        }
        let ghost gi = group@.len() - 1;
        let nbs = neighbors(c.0, c.1, size);
        let mut k: usize = 0;
        while k < nbs.len()
            invariant
                b == board_of(*stones),
                grid_wf(b, n),
                n == size,
                p == (x as int, y as int),
                in_bounds(n, p),
                size * size <= usize::MAX,
                color == at(b, p),
                color is Some,
                0 <= gi < group@.len(),
                group@[gi] == c,
                in_bounds(n, upt(c)),
                nbs@ == neighbor_list(c.0, c.1, size),
                no_dup(nbs@),
                forall|i: int| 0 <= i < nbs@.len() ==> in_bounds(size as int, upt(#[trigger] nbs@[i])) && adjacent(upt(c), upt(nbs@[i])),
                k <= nbs@.len(),
                grid_wf(grid_view(visited), n),
                grid_wf(grid_view(libs), n),
                marked(grid_view(visited))(p),
                forall|q: Pt| in_bounds(n, q) && #[trigger] marked(grid_view(visited))(q) ==> connected(b, n, p, q),
                forall|i: int|
                    0 <= i < stack@.len() ==> in_bounds(n, upt(#[trigger] stack@[i])) && marked(grid_view(visited))(
                        upt(stack@[i]),
                    ),
                forall|i: int|
                    0 <= i < group@.len() ==> in_bounds(n, upt(#[trigger] group@[i])) && marked(grid_view(visited))(
                        upt(group@[i]),
                    ),
                forall|i: int|
                    0 <= i < gi ==> closed_at(b, n, color, grid_view(visited), grid_view(libs), upt(#[trigger] group@[i])),
                forall|j: int|
                    0 <= j < k ==> {
                        let nb = upt(#[trigger] nbs@[j]);
                        &&& (at(b, nb) == color ==> marked(grid_view(visited))(nb))
                        &&& (at(b, nb) is None ==> marked(grid_view(libs))(nb))
                    },
                forall|q: Pt| in_bounds(n, q) && #[trigger] marked(grid_view(visited))(q) ==> holds(group@ + stack@, q),
                no_dup(group@ + stack@),
                group@.len() + stack@.len() == count_points(n, marked(grid_view(visited))),
                forall|r: Pt| in_bounds(n, r) && #[trigger] marked(grid_view(libs))(r) ==> is_liberty(b, n, p, r),
            decreases nbs@.len() - k,
        {
            let (nx, ny) = nbs[k];
            let ghost nb: Pt = (nx as int, ny as int);
            assert(upt(nbs@[k as int]) == nb);
            let ghost vv = grid_view(visited);
            let ghost ll = grid_view(libs);
            proof {
                lemma_grid_dims(visited, n);
                lemma_grid_dims(libs, n);
                lemma_grid_dims(*stones, n);
            }
            match stones[ny][nx] {
                None => {
                    libs[ny][nx] = true;
                    proof {
                        assert(grid_view(libs) =~= ll.update(ny as int, ll[ny as int].update(nx as int, true)));
                        assert(is_liberty(b, n, p, nb)) by {
                            assert(connected(b, n, p, upt(c)) && adjacent(upt(c), nb));
                        }
                        assert forall|r: Pt| in_bounds(n, r) && #[trigger] marked(grid_view(libs))(r) implies is_liberty(b, n, p, r) by {
                            if r != nb {
                                assert(marked(ll)(r));
                            }
                        }
                        assert forall|i: int| 0 <= i < gi implies closed_at(b, n, color, grid_view(visited), grid_view(libs), upt(#[trigger] group@[i])) by {
                            assert(closed_at(b, n, color, vv, ll, upt(group@[i])));
                        }
                    }
                },
                Some(col) => {
                    let same = match color {
                        Some(c0) => match (c0, col) {
                            (Color::Black, Color::Black) => true,
                            (Color::White, Color::White) => true,
                            _ => false,
                        },
                        None => false,
                    };
                    if same && !visited[ny][nx] {
                        visited[ny][nx] = true;
                        let ghost before2 = group@ + stack@;
                        stack.push((nx, ny));
                        proof {
                            assert(grid_view(visited) =~= vv.update(ny as int, vv[ny as int].update(nx as int, true)));
                            lemma_count_single(n, marked(vv), marked(grid_view(visited)), nb);
                            lemma_connected_extend(b, n, p, upt(c), nb);
                            assert(group@ + stack@ =~= before2.push((nx, ny)));
                            assert(!holds(before2, nb));
                            assert forall|i: int, j: int| 0 <= i < j < (group@ + stack@).len() implies (group@ + stack@)[i] != (group@ + stack@)[j] by {
                                if j == before2.len() {
                                    if (group@ + stack@)[i] == (group@ + stack@)[j] {
                                        assert(upt(before2[i]) == nb);
                                    }
                                }
                            }
                            assert forall|q: Pt| in_bounds(n, q) && #[trigger] marked(grid_view(visited))(q) implies holds(group@ + stack@, q) by {
                                if q == nb {
                                    assert(upt((group@ + stack@)[before2.len() as int]) == q);
                                } else {
                                    assert(marked(vv)(q));
                                    let i = choose|i: int| 0 <= i < before2.len() && upt(#[trigger] before2[i]) == q;
                                    assert(upt((group@ + stack@)[i]) == q);
                                }
                            }
                            assert forall|i: int| 0 <= i < gi implies closed_at(b, n, color, grid_view(visited), grid_view(libs), upt(#[trigger] group@[i])) by {
                                assert(closed_at(b, n, color, vv, ll, upt(group@[i])));
                            }
                        }
                    } else {
                        proof {
                            if same {
                                assert(marked(grid_view(visited))(nb));
                            }
                        }
                    }
                },
            }
            k += 1;
        }
        proof {
            assert(closed_at(b, n, color, grid_view(visited), grid_view(libs), upt(c))) by {
                assert forall|nb: Pt| in_bounds(n, nb) && adjacent(upt(c), nb) implies (at(b, nb) == color ==> marked(grid_view(visited))(nb)) && (at(b, nb) is None ==> marked(grid_view(libs))(nb)) by {
                    assert(holds(nbs@, nb)) by {
                        if nb.1 == c.1 && nb.0 + 1 == c.0 {
                            assert(upt(nbs@[0]) == nb);
                        } else if nb.1 == c.1 && nb.0 == c.0 + 1 {
                            let i: int = if c.0 > 0 { 1 } else { 0 };
                            assert(upt(nbs@[i]) == nb);
                        } else if nb.0 == c.0 && nb.1 + 1 == c.1 {
                            let i: int = (if c.0 > 0 { 1int } else { 0int }) + (if c.0 + 1 < size { 1int } else { 0int });
                            assert(upt(nbs@[i]) == nb);
                        } else {
                            let i: int = (if c.0 > 0 { 1int } else { 0int }) + (if c.0 + 1 < size { 1int } else { 0int }) + (if c.1 > 0 { 1int } else { 0int });
                            assert(upt(nbs@[i]) == nb);
                        }
                    }
                    let j = choose|j: int| 0 <= j < nbs@.len() && upt(#[trigger] nbs@[j]) == nb;
                    assert(upt(nbs@[j]) == nb);
                }
            }
        }
    }
    proof {
        let vis = |q: Pt| in_bounds(n, q) && marked(grid_view(visited))(q);
        assert(stack@.len() == 0);
        assert(group@ + stack@ =~= group@);
        assert forall|u: Pt, w: Pt| #![trigger vis(u), vis(w)] vis(u) && in_bounds(n, w) && adjacent(u, w) && at(b, w) == at(b, p) implies vis(w) by {
            if vis(u) && in_bounds(n, w) && adjacent(u, w) && at(b, w) == at(b, p) {
                lemma_connected_ends(b, n, p, u);
                assert(holds(group@, u));
                let i = choose|i: int| 0 <= i < group@.len() && upt(#[trigger] group@[i]) == u;
                assert(closed_at(b, n, color, grid_view(visited), grid_view(libs), upt(group@[i])));
                assert(adjacent(upt(group@[i]), w));
            }
        }
        assert forall|q: Pt| in_bounds(n, q) implies (#[trigger] connected(b, n, p, q) <==> holds(group@, q)) by {
            if connected(b, n, p, q) {
                lemma_closed_set_holds_group(b, n, p, vis, q);
            }
            if holds(group@, q) {
                let i = choose|i: int| 0 <= i < group@.len() && upt(#[trigger] group@[i]) == q;
            }
        }
        assert forall|r: Pt| in_bounds(n, r) implies marked(grid_view(libs))(r) == is_liberty(b, n, p, r) by {
            if is_liberty(b, n, p, r) {
                let q = choose|q: Pt| #[trigger] connected(b, n, p, q) && adjacent(q, r);
                lemma_connected_ends(b, n, p, q);
                assert(holds(group@, q));
                let i = choose|i: int| 0 <= i < group@.len() && upt(#[trigger] group@[i]) == q;
                assert(closed_at(b, n, color, grid_view(visited), grid_view(libs), upt(group@[i])));
                assert(adjacent(upt(group@[i]), r));
            }
        }
        lemma_count_ext(n, marked(grid_view(libs)), |r: Pt| is_liberty(b, n, p, r));
    }
    let liberties = count_marked(&libs, size);
    (group, liberties)
}


/// Sets every cell of `g` at a point of `pts`.
fn mark_points(g: &mut Vec<Vec<bool>>, pts: &Vec<(usize, usize)>, n: usize)
    requires
        grid_wf(grid_view(*old(g)), n as int),
        forall|i: int| 0 <= i < pts@.len() ==> in_bounds(n as int, upt(#[trigger] pts@[i])),
    ensures
        grid_wf(grid_view(*final(g)), n as int),
        forall|q: Pt|
            in_bounds(n as int, q) ==> #[trigger] marked(grid_view(*final(g)))(q) == (marked(grid_view(*old(g)))(q)
                || holds(pts@, q)),
{
    let ghost g0 = grid_view(*g);
    let mut i: usize = 0;
    while i < pts.len()
        invariant
            i <= pts@.len(),
            grid_wf(grid_view(*g), n as int),
            forall|j: int| 0 <= j < pts@.len() ==> in_bounds(n as int, upt(#[trigger] pts@[j])),
            forall|q: Pt|
                in_bounds(n as int, q) ==> #[trigger] marked(grid_view(*g))(q) == (marked(g0)(q) || holds(
                    pts@.subrange(0, i as int),
                    q,
                )),
        decreases pts@.len() - i,
    {
        let (px, py) = pts[i];
        let ghost gg = grid_view(*g);
        proof {
            lemma_grid_dims(*g, n as int);
            assert(in_bounds(n as int, upt(pts@[i as int])));
        }
        g[py][px] = true;
        proof {
            assert(grid_view(*g) =~= gg.update(py as int, gg[py as int].update(px as int, true)));
            let pre = pts@.subrange(0, i as int);
            let post = pts@.subrange(0, i + 1);
            assert forall|q: Pt| in_bounds(n as int, q) implies #[trigger] marked(grid_view(*g))(q) == (marked(g0)(q) || holds(post, q)) by {
                assert(marked(gg)(q) == (marked(g0)(q) || holds(pre, q)));
                if holds(pre, q) {
                    let k = choose|k: int| 0 <= k < pre.len() && upt(#[trigger] pre[k]) == q;
                    assert(post[k] == pre[k]);
                }
                if holds(post, q) {
                    let k = choose|k: int| 0 <= k < post.len() && upt(#[trigger] post[k]) == q;
                    if k < i {
                        assert(post[k] == pre[k]);
                    }
                }
                assert(upt(post[i as int]) == (px as int, py as int));
            }
        }
        i += 1;
    }
    assert(pts@.subrange(0, pts@.len() as int) =~= pts@);
}

/// Takes the stones at the points of `pts` off the board.
fn clear_points(stones: &mut Stones, pts: &Vec<(usize, usize)>, n: usize)
    requires
        grid_wf(board_of(*old(stones)), n as int),
        forall|i: int| 0 <= i < pts@.len() ==> in_bounds(n as int, upt(#[trigger] pts@[i])),
    ensures
        grid_wf(board_of(*final(stones)), n as int),
        forall|q: Pt|
            in_bounds(n as int, q) ==> #[trigger] at(board_of(*final(stones)), q) == (if holds(pts@, q) {
                None
            } else {
                at(board_of(*old(stones)), q)
            }),
{
    let ghost s0 = board_of(*stones);
    let mut i: usize = 0;
    while i < pts.len()
        invariant
            i <= pts@.len(),
            grid_wf(board_of(*stones), n as int),
            forall|j: int| 0 <= j < pts@.len() ==> in_bounds(n as int, upt(#[trigger] pts@[j])),
            forall|q: Pt|
                in_bounds(n as int, q) ==> #[trigger] at(board_of(*stones), q) == (if holds(pts@.subrange(0, i as int), q) {
                    None
                } else {
                    at(s0, q)
                }),
        decreases pts@.len() - i,
    {
        let (px, py) = pts[i];
        let ghost ss = board_of(*stones);
        proof {
            lemma_grid_dims(*stones, n as int);
            assert(in_bounds(n as int, upt(pts@[i as int])));
        }
        stones[py][px] = None;
        proof {
            assert(board_of(*stones) =~= ss.update(py as int, ss[py as int].update(px as int, None)));
            let pre = pts@.subrange(0, i as int);
            let post = pts@.subrange(0, i + 1);
            assert forall|q: Pt| in_bounds(n as int, q) implies #[trigger] at(board_of(*stones), q) == (if holds(post, q) { None } else { at(s0, q) }) by {
                assert(at(ss, q) == (if holds(pre, q) { None } else { at(s0, q) }));
                if holds(pre, q) {
                    let k = choose|k: int| 0 <= k < pre.len() && upt(#[trigger] pre[k]) == q;
                    assert(post[k] == pre[k]);
                }
                if holds(post, q) {
                    let k = choose|k: int| 0 <= k < post.len() && upt(#[trigger] post[k]) == q;
                    if k < i {
                        assert(post[k] == pre[k]);
                    }
                }
                assert(upt(post[i as int]) == (px as int, py as int));
            }
        }
        i += 1;
    }
    assert(pts@.subrange(0, pts@.len() as int) =~= pts@);
}


/// Some neighbour among the first `k` of `nbs` holds a stone of colour `opp` whose group holds `q`.
spec fn touched(pl: Board, n: int, nbs: Seq<(usize, usize)>, k: int, opp: Color, q: Pt) -> bool {
    exists|j: int|
        #![trigger nbs[j]]
        0 <= j < k && at(pl, upt(nbs[j])) == Some(opp) && connected(pl, n, upt(nbs[j]), q)
}

/// As `touched`, for a group without liberty.
spec fn doomed(pl: Board, n: int, nbs: Seq<(usize, usize)>, k: int, opp: Color, q: Pt) -> bool {
    exists|j: int|
        #![trigger nbs[j]]
        0 <= j < k && at(pl, upt(nbs[j])) == Some(opp) && connected(pl, n, upt(nbs[j]), q) && !has_liberty(
            pl,
            n,
            upt(nbs[j]),
        )
}

/// Resolves the stone of `color` just put at `(x, y)`: the opponent groups next to it that have
/// no liberty are captured, then its own group is removed if it has no liberty (suicide).
/// Returns how many opponent stones were captured.
pub fn apply_captures(stones: &mut Stones, x: usize, y: usize, color: Color, size: usize) -> (captured: usize)
    requires
        grid_wf(board_of(*old(stones)), size as int),
        x < size,
        y < size,
        at(board_of(*old(stones)), (x as int, y as int)) == Some(color),
        size * size <= usize::MAX,
    ensures
        grid_wf(board_of(*final(stones)), size as int),
        board_of(*final(stones)) == resolve_move(board_of(*old(stones)), size as int, (x as int, y as int)),
        captured == count_points(
            size as int,
            |q: Pt| is_captured(board_of(*old(stones)), size as int, (x as int, y as int), q),
        ),
{
    let ghost pl = board_of(*stones);
    let ghost n = size as int;
    let ghost m: Pt = (x as int, y as int);
    let opponent = color.opponent();
    let mut checked = new_grid(size, false);
    let mut dead = new_grid(size, false);
    let nbs = neighbors(x, y, size);
    let mut k: usize = 0;
    while k < nbs.len()
        invariant
            pl == board_of(*stones),
            grid_wf(pl, n),
            n == size,
            size * size <= usize::MAX,
            opponent == opposite(color),
            nbs@ == neighbor_list(x, y, size),
            forall|i: int| 0 <= i < nbs@.len() ==> in_bounds(n, upt(#[trigger] nbs@[i])),
            k <= nbs@.len(),
            grid_wf(grid_view(checked), n),
            grid_wf(grid_view(dead), n),
            forall|q: Pt| in_bounds(n, q) ==> #[trigger] marked(grid_view(checked))(q) == touched(pl, n, nbs@, k as int, opponent, q),
            forall|q: Pt| in_bounds(n, q) ==> #[trigger] marked(grid_view(dead))(q) == doomed(pl, n, nbs@, k as int, opponent, q),
        decreases nbs@.len() - k,
    {
        let (nx, ny) = nbs[k];
        let ghost nb: Pt = (nx as int, ny as int);
        assert(upt(nbs@[k as int]) == nb);
        proof {
            lemma_grid_dims(*stones, n);
            lemma_grid_dims(checked, n);
        }
        let is_opponent = match stones[ny][nx] {
            Some(Color::Black) => match opponent { Color::Black => true, Color::White => false },
            Some(Color::White) => match opponent { Color::White => true, Color::Black => false },
            None => false,
        };
        let ghost c0 = grid_view(checked);
        let ghost d0 = grid_view(dead);
        if is_opponent && !checked[ny][nx] {
            let (group, libs) = collect_group(stones, nx, ny, size);
            mark_points(&mut checked, &group, size);
            proof {
                lemma_liberty_count_zero(pl, n, nb);
            }
            if libs == 0 {
                mark_points(&mut dead, &group, size);
            }
            proof {
                assert forall|q: Pt| in_bounds(n, q) implies #[trigger] marked(grid_view(checked))(q) == touched(pl, n, nbs@, k + 1, opponent, q) by {
                    assert(marked(c0)(q) == touched(pl, n, nbs@, k as int, opponent, q));
                    if touched(pl, n, nbs@, k + 1, opponent, q) && !touched(pl, n, nbs@, k as int, opponent, q) {
                        let j = choose|j: int| #![trigger nbs@[j]] 0 <= j < k + 1 && at(pl, upt(nbs@[j])) == Some(opponent) && connected(pl, n, upt(nbs@[j]), q);
                        assert(j == k);
                    }
                }
                assert forall|q: Pt| in_bounds(n, q) implies #[trigger] marked(grid_view(dead))(q) == doomed(pl, n, nbs@, k + 1, opponent, q) by {
                    assert(marked(d0)(q) == doomed(pl, n, nbs@, k as int, opponent, q));
                    if doomed(pl, n, nbs@, k + 1, opponent, q) && !doomed(pl, n, nbs@, k as int, opponent, q) {
                        let j = choose|j: int| #![trigger nbs@[j]] 0 <= j < k + 1 && at(pl, upt(nbs@[j])) == Some(opponent) && connected(pl, n, upt(nbs@[j]), q) && !has_liberty(pl, n, upt(nbs@[j]));
                        assert(j == k);
                    }
                }
            }
        } else {
            proof {
                if is_opponent {
                    assert(marked(c0)(nb));
                    let j0 = choose|j: int| #![trigger nbs@[j]] 0 <= j < k && at(pl, upt(nbs@[j])) == Some(opponent) && connected(pl, n, upt(nbs@[j]), nb);
                    lemma_same_group_liberties(pl, n, upt(nbs@[j0]), nb);
                }
                assert forall|q: Pt| in_bounds(n, q) implies #[trigger] marked(grid_view(checked))(q) == touched(pl, n, nbs@, k + 1, opponent, q) by {
                    assert(marked(c0)(q) == touched(pl, n, nbs@, k as int, opponent, q));
                    if touched(pl, n, nbs@, k + 1, opponent, q) && !touched(pl, n, nbs@, k as int, opponent, q) {
                        let j = choose|j: int| #![trigger nbs@[j]] 0 <= j < k + 1 && at(pl, upt(nbs@[j])) == Some(opponent) && connected(pl, n, upt(nbs@[j]), q);
                        assert(j == k);
                    }
                }
                assert forall|q: Pt| in_bounds(n, q) implies #[trigger] marked(grid_view(dead))(q) == doomed(pl, n, nbs@, k + 1, opponent, q) by {
                    assert(marked(d0)(q) == doomed(pl, n, nbs@, k as int, opponent, q));
                    if doomed(pl, n, nbs@, k + 1, opponent, q) && !doomed(pl, n, nbs@, k as int, opponent, q) {
                        let j = choose|j: int| #![trigger nbs@[j]] 0 <= j < k + 1 && at(pl, upt(nbs@[j])) == Some(opponent) && connected(pl, n, upt(nbs@[j]), q) && !has_liberty(pl, n, upt(nbs@[j]));
                        assert(j == k);
                    }
                }
            }
        }
        k += 1;
    }
    proof {
        assert forall|q: Pt| in_bounds(n, q) implies #[trigger] marked(grid_view(dead))(q) == is_captured(pl, n, m, q) by {
            assert(marked(grid_view(dead))(q) == doomed(pl, n, nbs@, nbs@.len() as int, opponent, q));
            if is_captured(pl, n, m, q) {
                let nb = choose|nb: Pt| #![trigger connected(pl, n, nb, q)] in_bounds(n, nb) && adjacent(m, nb) && at(pl, nb) == Some(opposite(at(pl, m)->0)) && connected(pl, n, nb, q) && !has_liberty(pl, n, nb);
                assert(holds(nbs@, nb)) by {
                    if nb.1 == y && nb.0 + 1 == x {
                        assert(upt(nbs@[0]) == nb);
                    } else if nb.1 == y && nb.0 == x + 1 {
                        let i: int = if x > 0 { 1 } else { 0 };
                        assert(upt(nbs@[i]) == nb);
                    } else if nb.0 == x && nb.1 + 1 == y {
                        let i: int = (if x > 0 { 1int } else { 0int }) + (if x + 1 < size { 1int } else { 0int });
                        assert(upt(nbs@[i]) == nb);
                    } else {
                        let i: int = (if x > 0 { 1int } else { 0int }) + (if x + 1 < size { 1int } else { 0int }) + (if y > 0 { 1int } else { 0int });
                        assert(upt(nbs@[i]) == nb);
                    }
                }
                let j = choose|j: int| 0 <= j < nbs@.len() && upt(#[trigger] nbs@[j]) == nb;
                assert(nbs@[j] == nbs@[j]);
            }
            if doomed(pl, n, nbs@, nbs@.len() as int, opponent, q) {
                let j = choose|j: int| #![trigger nbs@[j]] 0 <= j < nbs@.len() && at(pl, upt(nbs@[j])) == Some(opponent) && connected(pl, n, upt(nbs@[j]), q) && !has_liberty(pl, n, upt(nbs@[j]));
                let nb = upt(nbs@[j]);
                assert(adjacent(m, nb));
                assert(connected(pl, n, nb, q));
            }
        }
    }
    let captured = count_marked(&dead, size);
    proof {
        lemma_count_ext(n, marked(grid_view(dead)), |q: Pt| is_captured(pl, n, m, q));
    }
    // Take the captured stones off the board.
    let mut yy: usize = 0;
    while yy < size
        invariant
            yy <= size,
            n == size,
            grid_wf(pl, n),
            grid_wf(board_of(*stones), n),
            grid_wf(grid_view(dead), n),
            forall|q: Pt| in_bounds(n, q) ==> #[trigger] marked(grid_view(dead))(q) == is_captured(pl, n, m, q),
            forall|q: Pt|
                in_bounds(n, q) ==> #[trigger] at(board_of(*stones), q) == (if q.1 < yy && is_captured(pl, n, m, q) {
                    None
                } else {
                    at(pl, q)
                }),
        decreases size - yy,
    {
        let mut xx: usize = 0;
        while xx < size
            invariant
                xx <= size,
                yy < size,
                n == size,
                grid_wf(pl, n),
                grid_wf(board_of(*stones), n),
                grid_wf(grid_view(dead), n),
                forall|q: Pt| in_bounds(n, q) ==> #[trigger] marked(grid_view(dead))(q) == is_captured(pl, n, m, q),
                forall|q: Pt|
                    in_bounds(n, q) ==> #[trigger] at(board_of(*stones), q) == (if (q.1 < yy || (q.1 == yy && q.0 < xx))
                        && is_captured(pl, n, m, q) {
                        None
                    } else {
                        at(pl, q)
                    }),
            decreases size - xx,
        {
            proof {
                lemma_grid_dims(*stones, n);
                lemma_grid_dims(dead, n);
            }
            let ghost ss = board_of(*stones);
            if dead[yy][xx] {
                stones[yy][xx] = None;
                proof {
                    assert(board_of(*stones) =~= ss.update(yy as int, ss[yy as int].update(xx as int, None)));
                }
            }
            proof {
                let here: Pt = (xx as int, yy as int);
                assert(marked(grid_view(dead))(here) == is_captured(pl, n, m, here));
                assert forall|q: Pt| in_bounds(n, q) implies #[trigger] at(board_of(*stones), q) == (if (q.1 < yy || (q.1 == yy && q.0 < xx + 1)) && is_captured(pl, n, m, q) { None } else { at(pl, q) }) by {
                    assert(at(ss, q) == (if (q.1 < yy || (q.1 == yy && q.0 < xx)) && is_captured(pl, n, m, q) { None } else { at(pl, q) }));
                }
            }
            xx += 1;
        }
        yy += 1;
    }
    let ghost a = without_captured(pl, n, m);
    proof {
        assert(board_of(*stones) =~= a) by {
            assert forall|yv: int| 0 <= yv < n implies #[trigger] board_of(*stones)[yv] =~= a[yv] by {
                assert forall|xv: int| 0 <= xv < n implies board_of(*stones)[yv][xv] == #[trigger] a[yv][xv] by {
                    assert(at(board_of(*stones), (xv, yv)) == at(board_of(*stones), (xv, yv)));
                }
            }
        }
        // The stone just played is not captured: it is not of the opponent's colour.
        if is_captured(pl, n, m, m) {
            let nb = choose|nb: Pt| #![trigger connected(pl, n, nb, m)] in_bounds(n, nb) && adjacent(m, nb) && at(pl, nb) == Some(opposite(at(pl, m)->0)) && connected(pl, n, nb, m) && !has_liberty(pl, n, nb);
            lemma_connected_ends(pl, n, nb, m);
        }
        assert(at(a, m) == Some(color));
    }
    let (own, own_libs) = collect_group(stones, x, y, size);
    proof {
        lemma_liberty_count_zero(a, n, m);
    }
    if own_libs == 0 {
        clear_points(stones, &own, size);
    }
    proof {
        let r = resolve_move(pl, n, m);
        assert(board_of(*stones) =~= r) by {
            assert forall|yv: int| 0 <= yv < n implies #[trigger] board_of(*stones)[yv] =~= r[yv] by {
                assert forall|xv: int| 0 <= xv < n implies board_of(*stones)[yv][xv] == #[trigger] r[yv][xv] by {
                    let q: Pt = (xv, yv);
                    assert(connected(a, n, m, q) == holds(own@, q));
                    assert(at(board_of(*stones), q) == at(board_of(*stones), q));
                }
            }
        }
    }
    captured
}

} // verus!
