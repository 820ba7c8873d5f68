//! No group without liberties stays on the board: a move captures the opponent groups it
//! takes the last liberty of, then removes its own group if that group has none left, so
//! every group on the board after the move has a liberty when every group had one before.

use vstd::prelude::*;
use crate::board::{
    Board, at, is_chain, link, connected, is_liberty, has_liberty, with_stone, is_captured,
    without_captured, is_suicide, resolve_move, after_move, lemma_connected_refl, lemma_connected_ends,
    lemma_connected_extend, lemma_connected_sym, lemma_connected_trans, lemma_same_group_liberties,
};
use crate::color::{Color, opposite};
use crate::grid::{Pt, in_bounds, adjacent, grid_wf};

verus! {

/// Every group of stones on `b` has at least one liberty.
pub open spec fn every_group_breathes(b: Board, n: int) -> bool {
    forall|p: Pt| in_bounds(n, p) && at(b, p) is Some ==> #[trigger] has_liberty(b, n, p)
}

proof fn lemma_chain_prefix(b: Board, n: int, path: Seq<Pt>, i: int)
    requires
        is_chain(b, n, path),
        0 <= i < path.len(),
    ensures
        connected(b, n, path[0], path[i]),
{
    let pre = path.subrange(0, i + 1);
    assert forall|k: int| 0 <= k < pre.len() - 1 implies #[trigger] link(pre, k) by {
        assert(link(path, k));
    }
    assert forall|k: int| 0 <= k < pre.len() implies in_bounds(n, #[trigger] pre[k]) && at(b, pre[k]) == at(b, pre[0]) by {
        assert(pre[k] == path[k]);
    }
    assert(is_chain(b, n, pre));
    assert(pre.last() == path[i]);
}

/// A group keeps its connections on a board where each of its stones is unchanged.
proof fn lemma_connected_transfer(b1: Board, b2: Board, n: int, p: Pt, q: Pt)
    requires
        connected(b1, n, p, q),
        forall|s: Pt| #[trigger] connected(b1, n, p, s) ==> at(b2, s) == at(b1, s),
    ensures
        connected(b2, n, p, q),
{
    let path = choose|path: Seq<Pt>| #[trigger] is_chain(b1, n, path) && path[0] == p && path.last() == q;
    assert forall|i: int| 0 <= i < path.len() implies in_bounds(n, #[trigger] path[i]) && at(b2, path[i]) == at(b2, path[0]) by {
        lemma_chain_prefix(b1, n, path, i);
        lemma_chain_prefix(b1, n, path, 0);
        assert(in_bounds(n, path[i]));
    }
    assert forall|i: int| 0 <= i < path.len() - 1 implies #[trigger] link(path, i) by {
        assert(link(path, i));
    }
    assert(is_chain(b2, n, path));
}

/// The points of the board after the stone is put.
proof fn lemma_put_cells(b: Board, n: int, m: Pt, c: Color, q: Pt)
    requires
        grid_wf(b, n),
        in_bounds(n, m),
        in_bounds(n, q),
    ensures
        at(with_stone(b, m, c), q) == if q == m {
            Some(c)
        } else {
            at(b, q)
        },
{
}

/// A captured stone is a stone of the opponent of the mover.
proof fn lemma_captured_is_opponent(pl: Board, n: int, m: Pt, q: Pt)
    requires
        is_captured(pl, n, m, q),
    ensures
        in_bounds(n, q),
        at(pl, q) == Some(opposite(at(pl, m)->0)),
{
    let nb = choose|nb: Pt|
        #![trigger connected(pl, n, nb, q)]
        in_bounds(n, nb) && adjacent(m, nb) && at(pl, nb) == Some(opposite(at(pl, m)->0))
            && connected(pl, n, nb, q) && !has_liberty(pl, n, nb);
    lemma_connected_ends(pl, n, nb, q);
}

/// Capture takes whole groups: a stone of the group of a captured stone is captured.
proof fn lemma_captured_group(pl: Board, n: int, m: Pt, q: Pt, s: Pt)
    requires
        is_captured(pl, n, m, q),
        connected(pl, n, q, s),
    ensures
        is_captured(pl, n, m, s),
{
    let nb = choose|nb: Pt|
        #![trigger connected(pl, n, nb, q)]
        in_bounds(n, nb) && adjacent(m, nb) && at(pl, nb) == Some(opposite(at(pl, m)->0))
            && connected(pl, n, nb, q) && !has_liberty(pl, n, nb);
    lemma_connected_trans(pl, n, nb, q, s);
}

/// After captures, every stone that is not in the group of the new stone has a liberty.
proof fn lemma_others_breathe(b: Board, n: int, m: Pt, c: Color, p: Pt)
    requires
        grid_wf(b, n),
        in_bounds(n, m),
        at(b, m) is None,
        every_group_breathes(b, n),
        in_bounds(n, p),
        at(without_captured(with_stone(b, m, c), n, m), p) is Some,
        !connected(without_captured(with_stone(b, m, c), n, m), n, m, p),
    ensures
        has_liberty(without_captured(with_stone(b, m, c), n, m), n, p),
{
    let pl = with_stone(b, m, c);
    let a = without_captured(pl, n, m);
    lemma_put_cells(b, n, m, c, p);
    lemma_put_cells(b, n, m, c, m);
    assert(!is_captured(pl, n, m, p));
    assert(at(a, p) == at(pl, p));
    if p == m {
        lemma_connected_refl(a, n, m);
    }
    assert(p != m);
    assert(at(b, p) is Some);
    assert(has_liberty(b, n, p));
    let r = choose|r: Pt| #[trigger] is_liberty(b, n, p, r);
    let q = choose|q: Pt| #[trigger] connected(b, n, p, q) && adjacent(q, r);
    lemma_connected_ends(b, n, p, q);
    let col = at(b, p)->0;
    // The group of `p` on `b` is the same on `pl` unless it touches `m`.
    if col == c {
        // Own group: its stones stay, and it cannot reach `m` (else `p` would be connected to `m`).
        assert forall|s: Pt| #[trigger] connected(b, n, p, s) implies at(pl, s) == at(b, s) by {
            lemma_connected_ends(b, n, p, s);
            lemma_put_cells(b, n, m, c, s);
        }
        lemma_connected_transfer(b, pl, n, p, q);
        assert forall|s: Pt| #[trigger] connected(pl, n, p, s) implies at(a, s) == at(pl, s) by {
            lemma_connected_ends(pl, n, p, s);
            if is_captured(pl, n, m, s) {
                lemma_captured_is_opponent(pl, n, m, s);
            }
        }
        lemma_connected_transfer(pl, a, n, p, q);
        if r == m {
            lemma_connected_ends(a, n, p, q);
            lemma_connected_extend(a, n, p, q, m);
            assert(at(a, m) == at(pl, m)) by {
                if is_captured(pl, n, m, m) {
                    lemma_captured_is_opponent(pl, n, m, m);
                }
            }
            lemma_connected_sym(a, n, p, m);
        }
        lemma_put_cells(b, n, m, c, r);
        assert(is_liberty(a, n, p, r));
    } else {
        assert(col == opposite(c));
        // Opponent group: it was not captured, so it touches `m` with a liberty left, or it
        // does not touch `m` at all and keeps the liberty it had.
        assert forall|s: Pt| #[trigger] connected(b, n, p, s) implies at(pl, s) == at(b, s) by {
            lemma_connected_ends(b, n, p, s);
            lemma_put_cells(b, n, m, c, s);
        }
        lemma_connected_transfer(b, pl, n, p, q);
        assert forall|s: Pt| #[trigger] connected(pl, n, p, s) implies at(a, s) == at(pl, s) by {
            lemma_connected_ends(pl, n, p, s);
            if is_captured(pl, n, m, s) {
                lemma_connected_sym(pl, n, p, s);
                lemma_captured_group(pl, n, m, s, p);
            }
        }
        if r == m {
            // The group touches `m`: it is not captured, so it has a liberty on `pl`.
            lemma_connected_ends(pl, n, p, q);
            lemma_connected_sym(pl, n, p, q);
            lemma_same_group_liberties(pl, n, q, p);
            if !has_liberty(pl, n, q) {
                assert(is_captured(pl, n, m, p));
            }
            let r2 = choose|r2: Pt| #[trigger] is_liberty(pl, n, q, r2);
            assert(is_liberty(pl, n, p, r2));
            let q2 = choose|q2: Pt| #[trigger] connected(pl, n, p, q2) && adjacent(q2, r2);
            lemma_connected_transfer(pl, a, n, p, q2);
            assert(!is_captured(pl, n, m, r2)) by {
                if is_captured(pl, n, m, r2) {
                    lemma_captured_is_opponent(pl, n, m, r2);
                }
            }
            assert(is_liberty(a, n, p, r2));
        } else {
            lemma_connected_transfer(pl, a, n, p, q);
            lemma_put_cells(b, n, m, c, r);
            assert(!is_captured(pl, n, m, r)) by {
                if is_captured(pl, n, m, r) {
                    lemma_captured_is_opponent(pl, n, m, r);
                }
            }
            assert(is_liberty(a, n, p, r));
        }
    }
}

/// A move keeps every group on the board breathing: when every group on `b` has a liberty,
/// every group on the board after any move at an empty point has one too.
pub proof fn law_move_keeps_every_group_breathing(b: Board, n: int, m: Pt, c: Color)
    requires
        grid_wf(b, n),
        in_bounds(n, m),
        at(b, m) is None,
        every_group_breathes(b, n),
    ensures
        every_group_breathes(after_move(b, n, m, c), n),
{
    let pl = with_stone(b, m, c);
    let a = without_captured(pl, n, m);
    let f = after_move(b, n, m, c);
    assert forall|p: Pt| in_bounds(n, p) && at(f, p) is Some implies #[trigger] has_liberty(f, n, p) by {
        assert(!is_suicide(a, n, m, p));
        assert(at(f, p) == at(a, p));
        if has_liberty(a, n, m) {
            // Nothing is removed as suicide: the board is the board after captures.
            assert forall|s: Pt| in_bounds(n, s) implies #[trigger] at(f, s) == at(a, s) by {
                assert(!is_suicide(a, n, m, s));
            }
            assert(f =~= a) by {
                assert forall|y: int| 0 <= y < n implies #[trigger] f[y] =~= a[y] by {
                    assert forall|x: int| 0 <= x < n implies f[y][x] == a[y][x] by {
                        assert(at(f, (x, y)) == at(a, (x, y)));
                    }
                }
            }
            if connected(a, n, m, p) {
                lemma_same_group_liberties(a, n, m, p);
            } else {
                lemma_others_breathe(b, n, m, c, p);
            }
        } else {
            // The group of the new stone is removed; every other group keeps its liberty.
            assert(!connected(a, n, m, p));
            lemma_others_breathe(b, n, m, c, p);
            let r = choose|r: Pt| #[trigger] is_liberty(a, n, p, r);
            let q = choose|q: Pt| #[trigger] connected(a, n, p, q) && adjacent(q, r);
            assert forall|s: Pt| #[trigger] connected(a, n, p, s) implies at(f, s) == at(a, s) by {
                lemma_connected_ends(a, n, p, s);
                if is_suicide(a, n, m, s) {
                    lemma_connected_sym(a, n, p, s);
                    lemma_connected_trans(a, n, m, s, p);
                }
            }
            lemma_connected_transfer(a, f, n, p, q);
            assert(!is_suicide(a, n, m, r)) by {
                if is_suicide(a, n, m, r) {
                    lemma_connected_ends(a, n, m, r);
                }
            }
            assert(is_liberty(f, n, p, r));
        }
    }
}

} // verus!
