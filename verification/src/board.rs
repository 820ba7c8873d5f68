//! The rules of stones on the board: chains of connected stones, their liberties, and what a
//! move leaves on the board once captures (and suicide) are resolved.

use vstd::prelude::*;
use crate::color::{Color, opposite};
use crate::grid::{Pt, in_bounds, adjacent, cell, grid_wf, count_points, lemma_count_zero, lemma_count_single,
    lemma_count_split, lemma_count_ext};

verus! {

/// A board as rows of points; each point is empty or holds a stone.
pub type Board = Seq<Seq<Option<Color>>>;

/// The stone (or emptiness) of `b` at `p`.
pub open spec fn at(b: Board, p: Pt) -> Option<Color> {
    cell(b, p)
}

/// Step `i` of a path joins two orthogonal neighbours.
pub open spec fn link(path: Seq<Pt>, i: int) -> bool {
    adjacent(path[i], path[i + 1])
}

/// A non-empty path of neighbouring points on the board that all hold what its first point
/// holds.
pub open spec fn is_chain(b: Board, n: int, path: Seq<Pt>) -> bool {
    &&& path.len() > 0
    &&& forall|i: int|
        0 <= i < path.len() ==> in_bounds(n, #[trigger] path[i]) && at(b, path[i]) == at(b, path[0])
    &&& forall|i: int| 0 <= i < path.len() - 1 ==> #[trigger] link(path, i)
}

/// `q` is reached from `p` through neighbouring points of the colour of `p`: for a stone at `p`,
/// `q` belongs to the same group (chain) of stones.
pub open spec fn connected(b: Board, n: int, p: Pt, q: Pt) -> bool {
    exists|path: Seq<Pt>| #[trigger] is_chain(b, n, path) && path[0] == p && path.last() == q
}

/// `r` is a liberty of the group of `p`: an empty point of the board next to a stone of that
/// group.
pub open spec fn is_liberty(b: Board, n: int, p: Pt, r: Pt) -> bool {
    &&& in_bounds(n, r)
    &&& at(b, r) is None
    &&& exists|q: Pt| #[trigger] connected(b, n, p, q) && adjacent(q, r)
}

/// The group of `p` has at least one liberty.
pub open spec fn has_liberty(b: Board, n: int, p: Pt) -> bool {
    exists|r: Pt| #[trigger] is_liberty(b, n, p, r)
}

/// How many distinct liberties the group of `p` has.
pub open spec fn liberty_count(b: Board, n: int, p: Pt) -> nat {
    count_points(n, |r: Pt| is_liberty(b, n, p, r))
}

/// How many stones stand on the board.
pub open spec fn stone_count(b: Board, n: int) -> nat {
    count_points(n, |q: Pt| at(b, q) is Some)
}

/// The board with a stone of colour `c` put at `m`.
pub open spec fn with_stone(b: Board, m: Pt, c: Color) -> Board {
    b.update(m.1, b[m.1].update(m.0, Some(c)))
}

/// On the board `pl`, where a stone has just been put at `m`, the point `q` holds a stone of the
/// other colour whose group touches `m` and has no liberty left: it is captured.
pub open spec fn is_captured(pl: Board, n: int, m: Pt, q: Pt) -> bool {
    exists|nb: Pt|
        #![trigger connected(pl, n, nb, q)]
        in_bounds(n, nb) && adjacent(m, nb) && at(pl, nb) == Some(opposite(at(pl, m)->0))
            && connected(pl, n, nb, q) && !has_liberty(pl, n, nb)
}

/// The board `pl` with every captured stone (see `is_captured`) taken off.
pub open spec fn without_captured(pl: Board, n: int, m: Pt) -> Board {
    Seq::new(
        n as nat,
        |y: int| Seq::new(n as nat, |x: int| if is_captured(pl, n, m, (x, y)) { None } else { pl[y][x] }),
    )
}

/// After captures, the point `q` belongs to the group of the stone just put at `m` and that group
/// has no liberty: the move was suicide and the group leaves the board.
pub open spec fn is_suicide(a: Board, n: int, m: Pt, q: Pt) -> bool {
    connected(a, n, m, q) && !has_liberty(a, n, m)
}

/// What the board `pl` (a stone just put at `m`) becomes: the opponent groups that touch `m` and
/// have no liberty are captured first; then, if the group of `m` has no liberty, it is removed.
pub open spec fn resolve_move(pl: Board, n: int, m: Pt) -> Board {
    let a = without_captured(pl, n, m);
    Seq::new(
        n as nat,
        |y: int| Seq::new(n as nat, |x: int| if is_suicide(a, n, m, (x, y)) { None } else { a[y][x] }),
    )
}

/// The board after colour `c` plays at `m` on `b`.
pub open spec fn after_move(b: Board, n: int, m: Pt, c: Color) -> Board {
    resolve_move(with_stone(b, m, c), n, m)
}

/// How many opponent stones the move of `c` at `m` on `b` captures.
pub open spec fn captured_count(b: Board, n: int, m: Pt, c: Color) -> nat {
    count_points(n, |q: Pt| is_captured(with_stone(b, m, c), n, m, q))
}

// ---------------------------------------------------------------------------------------------
// Facts about chains.

pub proof fn lemma_connected_refl(b: Board, n: int, p: Pt)
    requires
        in_bounds(n, p),
    ensures
        connected(b, n, p, p),
{
    let path = seq![p];
    assert(is_chain(b, n, path));
}

pub proof fn lemma_connected_ends(b: Board, n: int, p: Pt, q: Pt)
    requires
        connected(b, n, p, q),
    ensures
        in_bounds(n, p),
        in_bounds(n, q),
        at(b, q) == at(b, p),
{
    let path = choose|path: Seq<Pt>| #[trigger] is_chain(b, n, path) && path[0] == p && path.last() == q;
    assert(in_bounds(n, path[path.len() - 1]));
}

pub proof fn lemma_connected_extend(b: Board, n: int, p: Pt, q: Pt, r: Pt)
    requires
        connected(b, n, p, q),
        adjacent(q, r),
        in_bounds(n, r),
        at(b, r) == at(b, p),
    ensures
        connected(b, n, p, r),
{
    let path = choose|path: Seq<Pt>| #[trigger] is_chain(b, n, path) && path[0] == p && path.last() == q;
    let path2 = path.push(r);
    assert forall|i: int| 0 <= i < path2.len() - 1 implies #[trigger] link(path2, i) by {
        if i < path.len() - 1 {
            assert(link(path, i));
        }
    }
    assert forall|i: int| 0 <= i < path2.len() implies in_bounds(n, #[trigger] path2[i]) && at(b, path2[i]) == at(b, path2[0]) by {
        if i < path.len() {
            assert(path2[i] == path[i]);
        }
    }
    assert(is_chain(b, n, path2));
}

pub proof fn lemma_connected_sym(b: Board, n: int, p: Pt, q: Pt)
    requires
        connected(b, n, p, q),
    ensures
        connected(b, n, q, p),
{
    let path = choose|path: Seq<Pt>| #[trigger] is_chain(b, n, path) && path[0] == p && path.last() == q;
    let len = path.len();
    let rev = Seq::new(len, |i: int| path[len - 1 - i]);
    assert forall|i: int| 0 <= i < rev.len() - 1 implies #[trigger] link(rev, i) by {
        assert(link(path, len - 2 - i));
    }
    assert forall|i: int| 0 <= i < rev.len() implies in_bounds(n, #[trigger] rev[i]) && at(b, rev[i]) == at(b, rev[0]) by {
        assert(in_bounds(n, path[len - 1 - i]));
        assert(in_bounds(n, path[len - 1]));
    }
    assert(is_chain(b, n, rev));
}

pub proof fn lemma_connected_trans(b: Board, n: int, p: Pt, q: Pt, r: Pt)
    requires
        connected(b, n, p, q),
        connected(b, n, q, r),
    ensures
        connected(b, n, p, r),
{
    let path1 = choose|path: Seq<Pt>| #[trigger] is_chain(b, n, path) && path[0] == p && path.last() == q;
    let path2 = choose|path: Seq<Pt>| #[trigger] is_chain(b, n, path) && path[0] == q && path.last() == r;
    let joined = path1 + path2.drop_first();
    let l1 = path1.len();
    assert(in_bounds(n, path1[l1 - 1]));
    assert forall|i: int| 0 <= i < joined.len() - 1 implies #[trigger] link(joined, i) by {
        if i < l1 - 1 {
            assert(link(path1, i));
        } else if i == l1 - 1 {
            assert(link(path2, 0));
        } else {
            assert(link(path2, i - l1 + 1));
        }
    }
    assert forall|i: int| 0 <= i < joined.len() implies in_bounds(n, #[trigger] joined[i]) && at(b, joined[i]) == at(b, joined[0]) by {
        if i < l1 {
            assert(in_bounds(n, path1[i]));
        } else {
            assert(in_bounds(n, path2[i - l1 + 1]));
            assert(in_bounds(n, path2[0]));
        }
    }
    assert(is_chain(b, n, joined));
    if path2.len() == 1 {
        assert(joined.last() == path1.last());
    } else {
        assert(joined.last() == path2.last());
    }
}

/// Two stones of one group have the same liberties.
pub proof fn lemma_same_group_liberties(b: Board, n: int, p: Pt, q: Pt)
    requires
        connected(b, n, p, q),
    ensures
        forall|r: Pt| #[trigger] is_liberty(b, n, p, r) == is_liberty(b, n, q, r),
        has_liberty(b, n, p) == has_liberty(b, n, q),
        forall|s: Pt| #[trigger] connected(b, n, p, s) == connected(b, n, q, s),
{
    lemma_connected_sym(b, n, p, q);
    assert forall|s: Pt| #[trigger] connected(b, n, p, s) == connected(b, n, q, s) by {
        if connected(b, n, p, s) {
            lemma_connected_trans(b, n, q, p, s);
        }
        if connected(b, n, q, s) {
            lemma_connected_trans(b, n, p, q, s);
        }
    }
    assert forall|r: Pt| #[trigger] is_liberty(b, n, p, r) == is_liberty(b, n, q, r) by {
        if is_liberty(b, n, p, r) {
            let s = choose|s: Pt| #[trigger] connected(b, n, p, s) && adjacent(s, r);
            assert(connected(b, n, q, s));
        }
        if is_liberty(b, n, q, r) {
            let s = choose|s: Pt| #[trigger] connected(b, n, q, s) && adjacent(s, r);
            assert(connected(b, n, p, s));
        }
    }
    if has_liberty(b, n, p) {
        let r = choose|r: Pt| #[trigger] is_liberty(b, n, p, r);
        assert(is_liberty(b, n, q, r));
    }
    if has_liberty(b, n, q) {
        let r = choose|r: Pt| #[trigger] is_liberty(b, n, q, r);
        assert(is_liberty(b, n, p, r));
    }
}

proof fn lemma_closed_set_path(b: Board, n: int, p: Pt, s: spec_fn(Pt) -> bool, path: Seq<Pt>, k: int)
    requires
        is_chain(b, n, path),
        path[0] == p,
        s(p),
        forall|u: Pt, v: Pt|
            #![trigger s(u), s(v)]
            s(u) && in_bounds(n, v) && adjacent(u, v) && at(b, v) == at(b, p) ==> s(v),
        0 <= k < path.len(),
    ensures
        s(path[k]),
    decreases k,
{
    if k > 0 {
        lemma_closed_set_path(b, n, p, s, path, k - 1);
        assert(link(path, k - 1));
        assert(in_bounds(n, path[k]));
        assert(s(path[k - 1]) && s(path[k]));
    }
}

/// A set of points that holds `p` and every point of the colour of `p` next to one of its
/// points holds the whole group of `p`.
pub proof fn lemma_closed_set_holds_group(b: Board, n: int, p: Pt, s: spec_fn(Pt) -> bool, q: Pt)
    requires
        s(p),
        forall|u: Pt, v: Pt|
            #![trigger s(u), s(v)]
            s(u) && in_bounds(n, v) && adjacent(u, v) && at(b, v) == at(b, p) ==> s(v),
        connected(b, n, p, q),
    ensures
        s(q),
{
    let path = choose|path: Seq<Pt>| #[trigger] is_chain(b, n, path) && path[0] == p && path.last() == q;
    lemma_closed_set_path(b, n, p, s, path, path.len() - 1);
}

/// A group has no liberty exactly when its liberty count is zero.
pub proof fn lemma_liberty_count_zero(b: Board, n: int, p: Pt)
    requires
        n >= 0,
    ensures
        liberty_count(b, n, p) == 0 <==> !has_liberty(b, n, p),
{
    let pred = |r: Pt| is_liberty(b, n, p, r);
    lemma_count_zero(n, pred);
    if has_liberty(b, n, p) {
        let r = choose|r: Pt| #[trigger] is_liberty(b, n, p, r);
        assert(pred(r));
    }
}

/// A move puts one stone on the board and takes some off: the stones on the board after the
/// move, plus the stones it captured, are at most the stones before it plus one.
pub proof fn lemma_move_stone_balance(b: Board, n: int, m: Pt, c: Color)
    requires
        grid_wf(b, n),
        in_bounds(n, m),
        at(b, m) is None,
    ensures
        stone_count(after_move(b, n, m, c), n) + captured_count(b, n, m, c) <= stone_count(b, n) + 1,
{
    let pl = with_stone(b, m, c);
    let a = without_captured(pl, n, m);
    let f = after_move(b, n, m, c);
    let some_b = |q: Pt| at(b, q) is Some;
    let some_pl = |q: Pt| at(pl, q) is Some;
    let cap = |q: Pt| is_captured(pl, n, m, q);
    let some_a = |q: Pt| at(a, q) is Some;
    let sui = |q: Pt| is_suicide(a, n, m, q);
    let some_f = |q: Pt| at(f, q) is Some;
    // Putting the stone adds exactly one.
    assert forall|q: Pt| #![trigger some_b(q)] in_bounds(n, q) && q != m implies some_b(q) == some_pl(q) by {
    }
    lemma_count_single(n, some_b, some_pl, m);
    // The board before captures splits into captured stones and the rest.
    lemma_count_split(n, some_pl, cap);
    assert forall|q: Pt| #![trigger cap(q)] in_bounds(n, q) implies (some_pl(q) && cap(q)) == cap(q) by {
        if cap(q) {
            let nb = choose|nb: Pt| #![trigger connected(pl, n, nb, q)] in_bounds(n, nb) && adjacent(m, nb)
                && at(pl, nb) == Some(opposite(at(pl, m)->0)) && connected(pl, n, nb, q) && !has_liberty(pl, n, nb);
            lemma_connected_ends(pl, n, nb, q);
        }
    }
    lemma_count_ext(n, |q: Pt| some_pl(q) && cap(q), cap);
    assert forall|q: Pt| #![trigger some_a(q)] in_bounds(n, q) implies (some_pl(q) && !cap(q)) == some_a(q) by {
    }
    lemma_count_ext(n, |q: Pt| some_pl(q) && !cap(q), some_a);
    // Suicide only removes stones.
    lemma_count_split(n, some_a, sui);
    assert forall|q: Pt| #![trigger some_f(q)] in_bounds(n, q) implies (some_a(q) && !sui(q)) == some_f(q) by {
    }
    lemma_count_ext(n, |q: Pt| some_a(q) && !sui(q), some_f);
}

/// The board after a move has the shape of the board before it.
pub proof fn lemma_after_move_wf(b: Board, n: int, m: Pt, c: Color)
    requires
        grid_wf(b, n),
        in_bounds(n, m),
    ensures
        grid_wf(after_move(b, n, m, c), n),
{
}

} // verus!
