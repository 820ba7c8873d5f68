//! The game tree: every move (or pass) is a node that keeps the board as it stands after the
//! move, with captures already resolved. Going back restores a node's board as it was; going
//! forward follows the branch that was visited last.

use vstd::prelude::*;
use crate::board::{Board, at, after_move, captured_count, stone_count, with_stone, lemma_move_stone_balance};
use crate::color::{Color, opposite};
use crate::grid::{in_bounds, grid_wf};
use crate::liberties::{every_group_breathes, law_move_keeps_every_group_breathing};
use crate::stones::{Stones, board_of, empty_board, empty_board_spec, copy_stones, apply_captures};

verus! {

/// A point of the board (`x` = column from the left, `y` = row from the top, both from 0).
#[derive(Debug, Clone, Copy, PartialEq, Eq, Structural)]
pub struct Point {
    pub x: usize,
    pub y: usize,
}

/// The move that led to a node. For a pass, `x` and `y` are 0 and carry no meaning.
#[derive(Debug, Clone, Copy, PartialEq, Eq, Structural)]
pub struct MoveInfo {
    pub x: usize,
    pub y: usize,
    pub color: Color,
    pub is_pass: bool,
}

/// How many opponent stones each side has captured up to a node (that node included).
#[derive(Debug, Clone, Copy, PartialEq, Eq, Structural)]
pub struct Captures {
    pub black: u32,
    pub white: u32,
}

/// What the board shows after each action: every field the display needs, with captured stones
/// already taken off `stones`.
pub struct BoardSnapshot {
    pub size: usize,
    pub stones: Stones,
    pub current_turn: Color,
    /// The point of the move that led to the current node; none at the root or after a pass.
    pub last_move: Option<Point>,
    /// The move that led to the current node was a pass.
    pub last_move_is_pass: bool,
    /// The moves (passes left out) of the children of the current node, in branch order.
    pub current_children: Vec<MoveInfo>,
    pub can_go_back: bool,
    /// The current node has at least one child.
    pub can_go_forward: bool,
    /// The index of the current node in the tree; a node's index never changes.
    pub node_id: usize,
    /// The current node and its ancestors, the current node first and the root last.
    pub ancestor_chain: Vec<usize>,
    pub captures: Captures,
}

struct Node {
    parent: Option<usize>,
    children: Vec<usize>,
    /// The child most recently entered from this node; `go_forward` follows it.
    last_child: Option<usize>,
    mv: Option<MoveInfo>,
    stones: Stones,
    next_turn: Color,
    captures: Captures,
}

/// The game tree: nodes in an arena, linked by their indices.
pub struct GameTree {
    size: usize,
    nodes: Vec<Node>,
    current: usize,
}

/// A node of the game tree as a mathematical value.
pub struct NodeModel {
    pub parent: Option<usize>,
    pub children: Seq<usize>,
    pub last_child: Option<usize>,
    pub mv: Option<MoveInfo>,
    pub stones: Board,
    pub next_turn: Color,
    pub captures: Captures,
}

/// The game tree as a mathematical value.
pub struct TreeModel {
    pub size: usize,
    pub nodes: Seq<NodeModel>,
    pub current: usize,
}

spec fn node_model(nd: Node) -> NodeModel {
    NodeModel {
        parent: nd.parent,
        children: nd.children@,
        last_child: nd.last_child,
        mv: nd.mv,
        stones: board_of(nd.stones),
        next_turn: nd.next_turn,
        captures: nd.captures,
    }
}

impl View for GameTree {
    type V = TreeModel;

    closed spec fn view(&self) -> TreeModel {
        TreeModel {
            size: self.size,
            nodes: self.nodes@.map_values(|nd: Node| node_model(nd)),
            current: self.current,
        }
    }
}

/// The root of a tree on a board of side `size`: an empty board, Black to play.
pub open spec fn root_node(size: usize) -> NodeModel {
    NodeModel {
        parent: None,
        children: Seq::empty(),
        last_child: None,
        mv: None,
        stones: empty_board_spec(size as int),
        next_turn: Color::Black,
        captures: Captures { black: 0, white: 0 },
    }
}

/// The move `mv` is the move `want` (for passes, only the colour counts).
pub open spec fn move_matches(mv: Option<MoveInfo>, want: MoveInfo) -> bool {
    match mv {
        Some(m) => m.is_pass == want.is_pass && m.color == want.color && (want.is_pass || (m.x == want.x
            && m.y == want.y)),
        None => false,
    }
}

/// The first of `kids` whose move is `want`.
pub open spec fn find_branch(nodes: Seq<NodeModel>, kids: Seq<usize>, want: MoveInfo) -> Option<usize>
    decreases kids.len(),
{
    if kids.len() == 0 {
        None
    } else if move_matches(nodes[kids[0] as int].mv, want) {
        Some(kids[0])
    } else {
        find_branch(nodes, kids.drop_first(), want)
    }
}

/// The prisoners after `c` captured `k` more stones.
pub open spec fn add_captures(caps: Captures, c: Color, k: nat) -> Captures {
    match c {
        Color::Black => Captures { black: (caps.black + k) as u32, white: caps.white },
        Color::White => Captures { black: caps.black, white: (caps.white + k) as u32 },
    }
}

/// `s` without the value `v`, the others in their order.
pub open spec fn without(s: Seq<usize>, v: usize) -> Seq<usize>
    decreases s.len(),
{
    if s.len() == 0 {
        s
    } else {
        without(s.drop_last(), v) + if s.last() != v {
            seq![s.last()]
        } else {
            Seq::empty()
        }
    }
}

/// The node `i` and its ancestors, `i` first and the root last.
pub open spec fn chain_from(nodes: Seq<NodeModel>, i: usize) -> Seq<usize>
    decreases i,
{
    match nodes[i as int].parent {
        Some(p) => if p < i {
            seq![i] + chain_from(nodes, p)
        } else {
            seq![i]
        },
        None => seq![i],
    }
}

/// Every node on the chain from `i` up to the root is the child last entered from its
/// parent: going back along the chain and forward again retraces it.
pub open spec fn last_visited_chain(nodes: Seq<NodeModel>, i: usize) -> bool
    decreases i,
{
    match nodes[i as int].parent {
        Some(p) => p < i && nodes[p as int].last_child == Some(i) && last_visited_chain(nodes, p),
        None => true,
    }
}

/// The chain condition depends only on the parents along the chain and the last visited
/// children above its start.
pub proof fn lemma_last_visited_chain_frame(a: Seq<NodeModel>, b: Seq<NodeModel>, i: usize)
    requires
        last_visited_chain(a, i),
        i < a.len() <= b.len(),
        forall|j: int| 0 <= j <= i ==> #[trigger] b[j].parent == a[j].parent,
        forall|j: int| 0 <= j < i ==> #[trigger] b[j].last_child == a[j].last_child,
    ensures
        last_visited_chain(b, i),
    decreases i,
{
    assert(b[i as int].parent == a[i as int].parent);
    if let Some(p) = a[i as int].parent {
        assert(b[p as int].last_child == a[p as int].last_child);
        lemma_last_visited_chain_frame(a, b, p);
    }
}

/// The chain from `i` to the root depends only on the parents of the nodes up to `i`.
pub proof fn lemma_chain_from_frame(a: Seq<NodeModel>, b: Seq<NodeModel>, i: usize)
    requires
        forall|j: int| 0 <= j <= i ==> #[trigger] b[j].parent == a[j].parent,
    ensures
        chain_from(b, i) == chain_from(a, i),
    decreases i,
{
    assert(b[i as int].parent == a[i as int].parent);
    if let Some(p) = a[i as int].parent {
        if p < i {
            lemma_chain_from_frame(a, b, p);
        }
    }
}

/// The moves of `kids`, passes left out.
pub open spec fn child_moves(nodes: Seq<NodeModel>, kids: Seq<usize>) -> Seq<MoveInfo>
    decreases kids.len(),
{
    if kids.len() == 0 {
        Seq::empty()
    } else {
        child_moves(nodes, kids.drop_last()) + match nodes[kids.last() as int].mv {
            Some(m) => if !m.is_pass {
                seq![m]
            } else {
                Seq::empty()
            },
            None => Seq::empty(),
        }
    }
}

impl TreeModel {
    /// The node currently shown.
    pub open spec fn cur(self) -> NodeModel {
        self.nodes[self.current as int]
    }

    /// The shape every reachable tree has.
    pub open spec fn wf(self) -> bool {
        &&& 1 <= self.nodes.len() <= usize::MAX
        &&& self.current < self.nodes.len()
        &&& self.size * self.size <= usize::MAX
        &&& self.nodes[0].parent is None
        &&& self.nodes[0].mv is None
        &&& forall|i: int| 0 <= i < self.nodes.len() ==> #[trigger] self.node_ok(i)
        &&& last_visited_chain(self.nodes, self.current)
    }

    /// Node `i` is linked to its parent and children, its board has the size of the tree and
    /// every group on it has a liberty, it holds what its move makes of its parent's board, and
    /// its prisoners plus its stones are at most its index.
    pub open spec fn node_ok(self, i: int) -> bool {
        let nd = self.nodes[i];
        &&& (i > 0 ==> nd.parent is Some && nd.parent->0 < i && nd.mv is Some)
        &&& (forall|k: int|
            0 <= k < nd.children.len() ==> #[trigger] nd.children[k] < self.nodes.len() && self.nodes[nd.children[k] as int].parent
                == Some(i as usize))
        &&& (nd.last_child matches Some(c) ==> nd.children.contains(c))
        &&& grid_wf(nd.stones, self.size as int)
        &&& nd.captures.black + nd.captures.white + stone_count(nd.stones, self.size as int) <= i
        &&& every_group_breathes(nd.stones, self.size as int)
        &&& (i > 0 ==> self.follows_move(nd, self.nodes[nd.parent->0 as int]))
    }

    /// The node `nd` holds what its move makes of its parent `pn`: for a pass the same board and
    /// prisoners; for a stone (put on an empty point of the board) the board after the move and
    /// the prisoners increased by the stones it captured.
    pub open spec fn follows_move(self, nd: NodeModel, pn: NodeModel) -> bool {
        let mv = nd.mv->0;
        let m = (mv.x as int, mv.y as int);
        if mv.is_pass {
            nd.stones == pn.stones && nd.captures == pn.captures
        } else {
            &&& in_bounds(self.size as int, m)
            &&& at(pn.stones, m) is None
            &&& nd.stones == after_move(pn.stones, self.size as int, m, mv.color)
            &&& nd.captures == add_captures(pn.captures, mv.color, captured_count(pn.stones, self.size as int, m, mv.color))
        }
    }

    /// The tree after the side to move plays `want` (a stone or a pass): an existing branch with
    /// that move is entered; otherwise a new node is added as the last child of the current one.
    pub open spec fn play(self, want: MoveInfo) -> TreeModel {
        let cur = self.cur();
        match find_branch(self.nodes, cur.children, want) {
            Some(id) => TreeModel {
                current: id,
                nodes: self.nodes.update(self.current as int, NodeModel { last_child: Some(id), ..cur }),
                ..self
            },
            None => {
                let id = self.nodes.len() as usize;
                let m = (want.x as int, want.y as int);
                let child = NodeModel {
                    parent: Some(self.current),
                    children: Seq::empty(),
                    last_child: None,
                    mv: Some(want),
                    stones: if want.is_pass {
                        cur.stones
                    } else {
                        after_move(cur.stones, self.size as int, m, want.color)
                    },
                    next_turn: opposite(want.color),
                    captures: if want.is_pass {
                        cur.captures
                    } else {
                        add_captures(
                            cur.captures,
                            want.color,
                            captured_count(cur.stones, self.size as int, m, want.color),
                        )
                    },
                };
                TreeModel {
                    nodes: self.nodes.update(
                        self.current as int,
                        NodeModel { children: cur.children.push(id), last_child: Some(id), ..cur },
                    ).push(child),
                    current: id,
                    ..self
                }
            },
        }
    }

    /// The stone move `(x, y)` of the side to move can be played: the point is on the board
    /// and empty.
    pub open spec fn can_play(self, x: usize, y: usize) -> bool {
        x < self.size && y < self.size && at(self.cur().stones, (x as int, y as int)) is None
    }

    /// The tree after going back to the parent (unchanged at the root).
    pub open spec fn back(self) -> TreeModel {
        match self.cur().parent {
            Some(p) => TreeModel { current: p, ..self },
            None => self,
        }
    }

    /// The child `go_forward` enters: the last visited one if it is still a child, else the
    /// newest child; none at a leaf.
    pub open spec fn forward_target(self) -> Option<usize> {
        let cur = self.cur();
        match cur.last_child {
            Some(id) if cur.children.contains(id) => Some(id),
            _ => if cur.children.len() > 0 {
                Some(cur.children.last())
            } else {
                None
            },
        }
    }

    /// The tree after going forward (unchanged at a leaf).
    pub open spec fn forward(self) -> TreeModel {
        match self.forward_target() {
            Some(id) => TreeModel {
                current: id,
                nodes: self.nodes.update(self.current as int, NodeModel { last_child: Some(id), ..self.cur() }),
                ..self
            },
            None => self,
        }
    }

    /// The tree after the current node is cut off from its parent, which becomes current
    /// (unchanged at the root).
    pub open spec fn remove_last(self) -> TreeModel {
        match self.cur().parent {
            Some(p) => {
                let pn = self.nodes[p as int];
                TreeModel {
                    current: p,
                    nodes: self.nodes.update(
                        p as int,
                        NodeModel {
                            children: without(pn.children, self.current),
                            last_child: if pn.last_child == Some(self.current) {
                                None
                            } else {
                                pn.last_child
                            },
                            ..pn
                        },
                    ),
                    ..self
                }
            },
            None => self,
        }
    }

    /// The tree with the side to move switched at the current node.
    pub open spec fn toggled(self) -> TreeModel {
        TreeModel {
            nodes: self.nodes.update(
                self.current as int,
                NodeModel { next_turn: opposite(self.cur().next_turn), ..self.cur() },
            ),
            ..self
        }
    }

    /// No node of `self` was lost or changed its place, parent, move or board in `next`.
    pub open spec fn grows_into(self, next: TreeModel) -> bool {
        &&& next.size == self.size
        &&& next.nodes.len() >= self.nodes.len()
        &&& forall|i: int|
            #![trigger next.nodes[i]]
            0 <= i < self.nodes.len() ==> next.nodes[i].parent == self.nodes[i].parent && next.nodes[i].mv
                == self.nodes[i].mv && next.nodes[i].stones == self.nodes[i].stones
    }
}


impl GameTree {
    /// The tree is well formed (see `TreeModel::wf`).
    pub open spec fn wf(&self) -> bool {
        self@.wf()
    }

    proof fn lemma_view_nodes(&self)
        ensures
            self@.nodes.len() == self.nodes@.len(),
            forall|i: int| 0 <= i < self.nodes@.len() ==> #[trigger] self@.nodes[i] == node_model(self.nodes@[i]),
            self@.size == self.size,
            self@.current == self.current,
    {
    }

    /// A tree on a board of side `size` holding only the root: an empty board with Black to play.
    pub fn new(size: usize) -> (t: GameTree)
        requires
            size * size <= usize::MAX,
        ensures
            t.wf(),
            t@ == (TreeModel { size, nodes: seq![root_node(size)], current: 0 }),
    {
        let root = Node {
            parent: None,
            children: Vec::new(),
            last_child: None,
            mv: None,
            stones: empty_board(size),
            next_turn: Color::Black,
            captures: Captures { black: 0, white: 0 },
        };
        let mut nodes: Vec<Node> = Vec::new();
        nodes.push(root);
        let t = GameTree { size, nodes, current: 0 };
        proof {
            t.lemma_view_nodes();
            assert(t@.nodes =~= seq![root_node(size)]);
            lemma_empty_board_wf(size as int);
        }
        t
    }

    /// The side of the board (19, 13, 9, ...).
    pub fn size(&self) -> (r: usize)
        ensures
            r == self@.size,
    {
        self.size
    }

    /// How many nodes the tree has ever held (removed branches included: their indices are
    /// never reused).
    pub fn node_count(&self) -> (r: usize)
        ensures
            r == self@.nodes.len(),
    {
        proof {
            self.lemma_view_nodes();
        }
        self.nodes.len()
    }

    /// Switches the side to move at the current node without playing a stone.
    pub fn toggle_turn(&mut self)
        requires
            old(self).wf(),
        ensures
            final(self).wf(),
            final(self)@ == old(self)@.toggled(),
            old(self)@.grows_into(final(self)@),
    {
        proof {
            self.lemma_view_nodes();
        }
        let cur = self.current;
        let next = self.nodes[cur].next_turn.opponent();
        self.nodes[cur].next_turn = next;
        proof {
            self.lemma_view_nodes();
            assert(self@.nodes =~= old(self)@.toggled().nodes);
            old(self)@.lemma_toggled_wf();
        }
    }

    /// Goes back to the parent node; does nothing at the root. Nodes are kept, so playing the
    /// same move again enters the same branch.
    pub fn go_back(&mut self)
        requires
            old(self).wf(),
        ensures
            final(self).wf(),
            final(self)@ == old(self)@.back(),
            old(self)@.grows_into(final(self)@),
    {
        proof {
            self.lemma_view_nodes();
        }
        if let Some(parent) = self.nodes[self.current].parent {
            self.current = parent;
        }
        proof {
            self.lemma_view_nodes();
            assert(self@.nodes =~= old(self)@.back().nodes);
            old(self)@.lemma_back_wf();
        }
    }
}

impl GameTree {
    /// Goes forward to a child: the child last entered from here if there is one, else the newest
    /// child. Returns the move of that child; `None` (and nothing changes) at a leaf.
    pub fn go_forward(&mut self) -> (r: Option<MoveInfo>)
        requires
            old(self).wf(),
        ensures
            final(self).wf(),
            final(self)@ == old(self)@.forward(),
            r == (match old(self)@.forward_target() {
                Some(id) => old(self)@.nodes[id as int].mv,
                None => None,
            }),
            old(self)@.grows_into(final(self)@),
    {
        proof {
            self.lemma_view_nodes();
        }
        let cur = self.current;
        let mut target: Option<usize> = None;
        if let Some(id) = self.nodes[cur].last_child {
            let mut k: usize = 0;
            while k < self.nodes[cur].children.len()
                invariant
                    cur == self.current,
                    cur < self.nodes@.len(),
                    k <= self.nodes@[cur as int].children@.len(),
                    target is None ==> forall|j: int| 0 <= j < k ==> self.nodes@[cur as int].children@[j] != id,
                    target is Some ==> target == Some(id) && self.nodes@[cur as int].children@.contains(id),
                decreases self.nodes@[cur as int].children@.len() - k,
            {
                if self.nodes[cur].children[k] == id {
                    target = Some(id);
                }
                k += 1;
            }
        }
        if target.is_none() {
            let len = self.nodes[cur].children.len();
            if len > 0 {
                target = Some(self.nodes[cur].children[len - 1]);
            }
        }
        proof {
            assert(target == old(self)@.forward_target());
            old(self)@.lemma_forward_wf();
        }
        match target {
            Some(t) => {
                self.nodes[cur].last_child = Some(t);
                self.current = t;
                proof {
                    self.lemma_view_nodes();
                    assert(self@.nodes =~= old(self)@.forward().nodes);
                }
                self.nodes[t].mv
            },
            None => None,
        }
    }

    /// Cuts the current node (and the branches below it) off from its parent and goes to the
    /// parent; does nothing at the root. The node keeps its index, which is never reused.
    pub fn remove_last_move(&mut self)
        requires
            old(self).wf(),
        ensures
            final(self).wf(),
            final(self)@ == old(self)@.remove_last(),
            old(self)@.grows_into(final(self)@),
    {
        proof {
            self.lemma_view_nodes();
        }
        let removed = self.current;
        let parent = match self.nodes[removed].parent {
            Some(p) => p,
            None => { return; },
        };
        proof {
            assert(old(self)@.nodes[removed as int].parent == Some(parent));
            assert(old(self)@.node_ok(removed as int));
        }
        let mut kept: Vec<usize> = Vec::new();
        let mut k: usize = 0;
        while k < self.nodes[parent].children.len()
            invariant
                parent < self.nodes@.len(),
                self.nodes@ == old(self).nodes@,
                k <= self.nodes@[parent as int].children@.len(),
                kept@ == without(self.nodes@[parent as int].children@.subrange(0, k as int), removed),
            decreases self.nodes@[parent as int].children@.len() - k,
        {
            let id = self.nodes[parent].children[k];
            proof {
                let kids = self.nodes@[parent as int].children@;
                assert(kids.subrange(0, k + 1).drop_last() =~= kids.subrange(0, k as int));
            }
            if id != removed {
                kept.push(id);
            }
            k += 1;
        }
        proof {
            let kids = self.nodes@[parent as int].children@;
            assert(kids.subrange(0, kids.len() as int) =~= kids);
        }
        self.nodes[parent].children = kept;
        if self.nodes[parent].last_child == Some(removed) {
            self.nodes[parent].last_child = None;
        }
        self.current = parent;
        proof {
            self.lemma_view_nodes();
            assert(self@.nodes =~= old(self)@.remove_last().nodes);
            old(self)@.lemma_remove_last_wf();
            lemma_without_subset(old(self)@.nodes[parent as int].children, removed);
        }
    }
}

impl GameTree {
    /// The first child of `cur` whose move is `want`.
    fn find_branch_exec(&self, cur: usize, want: MoveInfo) -> (r: Option<usize>)
        requires
            self.wf(),
            cur < self@.nodes.len(),
        ensures
            r == find_branch(self@.nodes, self@.nodes[cur as int].children, want),
    {
        proof {
            self.lemma_view_nodes();
        }
        let ghost kids = self@.nodes[cur as int].children;
        assert(kids.subrange(0, kids.len() as int) =~= kids);
        let mut k: usize = 0;
        while k < self.nodes[cur].children.len()
            invariant
                self.wf(),
                cur < self@.nodes.len(),
                kids == self@.nodes[cur as int].children,
                kids == self.nodes@[cur as int].children@,
                k <= kids.len(),
                find_branch(self@.nodes, kids, want) == find_branch(self@.nodes, kids.subrange(k as int, kids.len() as int), want),
            decreases kids.len() - k,
        {
            let id = self.nodes[cur].children[k];
            proof {
                self.lemma_view_nodes();
                assert(kids.subrange(k as int, kids.len() as int)[0] == id);
                assert(kids.subrange(k as int, kids.len() as int).drop_first() =~= kids.subrange(k + 1, kids.len() as int));
                assert(id < self@.nodes.len()) by {
                    assert(self@.node_ok(cur as int));
                    assert(self@.nodes[cur as int].children[k as int] == id);
                }
            }
            let found = match self.nodes[id].mv {
                Some(m) => m.is_pass == want.is_pass && same_color(m.color, want.color) && (want.is_pass || (m.x == want.x && m.y == want.y)),
                None => false,
            };
            if found {
                return Some(id);
            }
            k += 1;
        }
        None
    }

    /// Passes: the side to move hands the turn over. Enters the existing pass branch of that side
    /// if there is one; otherwise adds a node with the same board and prisoners and the other side
    /// to move.
    pub fn pass_turn(&mut self)
        requires
            old(self).wf(),
            old(self)@.nodes.len() < usize::MAX,
        ensures
            final(self).wf(),
            final(self)@ == old(self)@.play(MoveInfo { x: 0, y: 0, color: old(self)@.cur().next_turn, is_pass: true }),
            old(self)@.grows_into(final(self)@),
    {
        proof {
            self.lemma_view_nodes();
        }
        let cur = self.current;
        let color = self.nodes[cur].next_turn;
        let want = MoveInfo { x: 0, y: 0, color, is_pass: true };
        if let Some(id) = self.find_branch_exec(cur, want) {
            self.nodes[cur].last_child = Some(id);
            self.current = id;
            proof {
                self.lemma_view_nodes();
                lemma_find_branch_in(old(self)@.nodes, old(self)@.cur().children, want);
                assert(self@.nodes =~= old(self)@.play(want).nodes);
                old(self)@.lemma_play_wf(want);
            }
            return;
        }
        let stones = copy_stones(&self.nodes[cur].stones);
        let captures = self.nodes[cur].captures;
        let next_turn = color.opponent();
        let child = Node {
            parent: Some(cur),
            children: Vec::new(),
            last_child: None,
            mv: Some(want),
            stones,
            next_turn,
            captures,
        };
        let child_id = self.nodes.len();
        self.nodes.push(child);
        self.nodes[cur].children.push(child_id);
        self.nodes[cur].last_child = Some(child_id);
        self.current = child_id;
        proof {
            self.lemma_view_nodes();
            assert(self@.nodes =~= old(self)@.play(want).nodes);
            old(self)@.lemma_play_wf(want);
        }
    }

    /// Plays a stone of the side to move at `(x, y)`. Returns `false`, and changes nothing, when
    /// the point is off the board or already holds a stone. Otherwise enters the existing branch
    /// with that move if there is one, or adds a node whose board is the board after the move
    /// (captures, then suicide, resolved) and whose prisoners count the stones it captured.
    pub fn confirm_move(&mut self, x: usize, y: usize) -> (r: bool)
        requires
            old(self).wf(),
            old(self)@.nodes.len() < u32::MAX,
        ensures
            final(self).wf(),
            r == old(self)@.can_play(x, y),
            r ==> final(self)@ == old(self)@.play(MoveInfo { x, y, color: old(self)@.cur().next_turn, is_pass: false }),
            !r ==> final(self)@ == old(self)@,
            old(self)@.grows_into(final(self)@),
    {
        proof {
            self.lemma_view_nodes();
        }
        if x >= self.size || y >= self.size {
            return false;
        }
        let cur = self.current;
        proof {
            assert(old(self)@.node_ok(cur as int));
            assert(grid_wf(old(self)@.cur().stones, self.size as int));
            crate::stones::lemma_stones_dims(self.nodes@[cur as int].stones, self.size as int);
        }
        if self.nodes[cur].stones[y][x].is_some() {
            return false;
        }
        let color = self.nodes[cur].next_turn;
        let want = MoveInfo { x, y, color, is_pass: false };
        if let Some(id) = self.find_branch_exec(cur, want) {
            self.nodes[cur].last_child = Some(id);
            self.current = id;
            proof {
                self.lemma_view_nodes();
                lemma_find_branch_in(old(self)@.nodes, old(self)@.cur().children, want);
                assert(self@.nodes =~= old(self)@.play(want).nodes);
                old(self)@.lemma_play_wf(want);
            }
            return true;
        }
        let ghost before = old(self)@.cur().stones;
        let mut next_stones = copy_stones(&self.nodes[cur].stones);
        next_stones[y][x] = Some(color);
        proof {
            assert(board_of(next_stones) =~= with_stone(before, (x as int, y as int), color));
        }
        let captured = apply_captures(&mut next_stones, x, y, color, self.size);
        proof {
            lemma_move_stone_balance(before, self.size as int, (x as int, y as int), color);
            assert(old(self)@.cur().captures.black + old(self)@.cur().captures.white + stone_count(before, self.size as int) <= cur);
        }
        let next_turn = color.opponent();
        let mut captures = self.nodes[cur].captures;
        match color {
            Color::Black => captures.black = captures.black + captured as u32,
            Color::White => captures.white = captures.white + captured as u32,
        }
        let child = Node {
            parent: Some(cur),
            children: Vec::new(),
            last_child: None,
            mv: Some(want),
            stones: next_stones,
            next_turn,
            captures,
        };
        let child_id = self.nodes.len();
        self.nodes.push(child);
        self.nodes[cur].children.push(child_id);
        self.nodes[cur].last_child = Some(child_id);
        self.current = child_id;
        proof {
            self.lemma_view_nodes();
            assert(self@.nodes =~= old(self)@.play(want).nodes);
            old(self)@.lemma_play_wf(want);
        }
        true
    }
}

fn same_color(a: Color, b: Color) -> (r: bool)
    ensures
        r == (a == b),
{
    match (a, b) {
        (Color::Black, Color::Black) => true,
        (Color::White, Color::White) => true,
        _ => false,
    }
}

/// The moves from the root to node `i`, in the order they were played.
pub open spec fn history(nodes: Seq<NodeModel>, i: usize) -> Seq<MoveInfo>
    decreases i,
{
    match nodes[i as int].parent {
        Some(p) => if p < i {
            history(nodes, p).push(nodes[i as int].mv->0)
        } else {
            Seq::empty()
        },
        None => Seq::empty(),
    }
}

/// `r` shows the current node of `t`.
pub open spec fn shows(t: TreeModel, r: BoardSnapshot) -> bool {
    let cur = t.cur();
    &&& r.size == t.size
    &&& board_of(r.stones) == cur.stones
    &&& r.current_turn == cur.next_turn
    &&& r.last_move == (match cur.mv {
        Some(m) => if !m.is_pass {
            Some(Point { x: m.x, y: m.y })
        } else {
            None
        },
        None => None,
    })
    &&& r.last_move_is_pass == (match cur.mv {
        Some(m) => m.is_pass,
        None => false,
    })
    &&& r.current_children@ == child_moves(t.nodes, cur.children)
    &&& r.can_go_back == cur.parent is Some
    &&& r.can_go_forward == (cur.children.len() > 0)
    &&& r.node_id == t.current
    &&& r.ancestor_chain@ == chain_from(t.nodes, t.current)
    &&& r.captures == cur.captures
}

impl GameTree {
    /// The current node and its ancestors, the current node first and the root last.
    fn ancestor_chain(&self) -> (r: Vec<usize>)
        requires
            self.wf(),
        ensures
            r@ == chain_from(self@.nodes, self@.current),
    {
        proof {
            self.lemma_view_nodes();
        }
        let mut chain: Vec<usize> = Vec::new();
        let mut cur = self.current;
        let mut done = false;
        while !done
            invariant
                self.wf(),
                cur < self@.nodes.len(),
                !done ==> chain@ + chain_from(self@.nodes, cur) == chain_from(self@.nodes, self@.current),
                done ==> chain@ == chain_from(self@.nodes, self@.current),
            decreases (if done { 0 } else { cur + 1 }),
        {
            proof {
                self.lemma_view_nodes();
                assert(self@.node_ok(cur as int));
            }
            let ghost before = chain@;
            chain.push(cur);
            match self.nodes[cur].parent {
                Some(p) => {
                    proof {
                        assert(chain_from(self@.nodes, cur) == seq![cur] + chain_from(self@.nodes, p));
                        assert(before + (seq![cur] + chain_from(self@.nodes, p)) =~= chain@ + chain_from(self@.nodes, p));
                    }
                    cur = p;
                },
                None => {
                    proof {
                        assert(chain_from(self@.nodes, cur) == seq![cur]);
                        assert(before + seq![cur] =~= chain@);
                    }
                    done = true;
                },
            }
        }
        chain
    }

    /// The moves from the root to the current node, in the order they were played.
    pub fn move_history(&self) -> (r: Vec<MoveInfo>)
        requires
            self.wf(),
        ensures
            r@ == history(self@.nodes, self@.current),
    {
        self.history_of(self.current)
    }

    fn history_of(&self, i: usize) -> (r: Vec<MoveInfo>)
        requires
            self.wf(),
            i < self@.nodes.len(),
        ensures
            r@ == history(self@.nodes, i),
        decreases i,
    {
        proof {
            self.lemma_view_nodes();
            assert(self@.node_ok(i as int));
        }
        match self.nodes[i].parent {
            Some(p) => {
                let mut h = self.history_of(p);
                match self.nodes[i].mv {
                    Some(m) => h.push(m),
                    None => {},
                }
                h
            },
            None => Vec::new(),
        }
    }

    /// What the board shows at the current node.
    pub fn snapshot(&self) -> (r: BoardSnapshot)
        requires
            self.wf(),
        ensures
            shows(self@, r),
    {
        proof {
            self.lemma_view_nodes();
            assert(self@.node_ok(self.current as int));
        }
        let cur = self.current;
        let ghost kids = self@.cur().children;
        let mut current_children: Vec<MoveInfo> = Vec::new();
        let mut k: usize = 0;
        while k < self.nodes[cur].children.len()
            invariant
                self.wf(),
                cur == self@.current,
                kids == self@.cur().children,
                kids == self.nodes@[cur as int].children@,
                self@.node_ok(cur as int),
                k <= kids.len(),
                current_children@ == child_moves(self@.nodes, kids.subrange(0, k as int)),
            decreases kids.len() - k,
        {
            let id = self.nodes[cur].children[k];
            proof {
                self.lemma_view_nodes();
                assert(kids[k as int] == id);
                assert(id < self@.nodes.len());
                assert(kids.subrange(0, k + 1).drop_last() =~= kids.subrange(0, k as int));
            }
            match self.nodes[id].mv {
                Some(m) => {
                    if !m.is_pass {
                        current_children.push(m);
                    }
                },
                None => {},
            }
            k += 1;
        }
        proof {
            assert(kids.subrange(0, kids.len() as int) =~= kids);
        }
        let node = &self.nodes[cur];
        let last_move = match node.mv {
            Some(m) => if !m.is_pass { Some(Point { x: m.x, y: m.y }) } else { None },
            None => None,
        };
        let last_move_is_pass = match node.mv {
            Some(m) => m.is_pass,
            None => false,
        };
        BoardSnapshot {
            size: self.size,
            stones: copy_stones(&node.stones),
            current_turn: node.next_turn,
            last_move,
            last_move_is_pass,
            current_children,
            can_go_back: node.parent.is_some(),
            can_go_forward: node.children.len() > 0,
            node_id: cur,
            ancestor_chain: self.ancestor_chain(),
            captures: node.captures,
        }
    }
}

impl Default for GameTree {
    /// A tree on the usual 19x19 board.
    fn default() -> (t: Self)
        ensures
            t.wf(),
            t@ == (TreeModel { size: 19, nodes: seq![root_node(19)], current: 0 }),
    {
        GameTree::new(19)
    }
}

/// The parts of a node that never change once it is in the tree.
pub open spec fn same_core(a: NodeModel, b: NodeModel) -> bool {
    a.parent == b.parent && a.mv == b.mv && a.stones == b.stones && a.captures == b.captures
}

impl TreeModel {
    /// Node `i` stays well formed in `u` when its lasting parts and its parent's are those of
    /// `self`, and its children and last child are linked in `u`.
    pub proof fn lemma_node_ok_frame(self, u: TreeModel, i: int)
        requires
            self.node_ok(i),
            0 <= i < self.nodes.len() <= u.nodes.len(),
            u.size == self.size,
            same_core(self.nodes[i], u.nodes[i]),
            i > 0 ==> same_core(self.nodes[self.nodes[i].parent->0 as int], u.nodes[self.nodes[i].parent->0 as int]),
            u.nodes[i].last_child matches Some(c) ==> u.nodes[i].children.contains(c),
            forall|k: int|
                0 <= k < u.nodes[i].children.len() ==> #[trigger] u.nodes[i].children[k] < u.nodes.len()
                    && u.nodes[u.nodes[i].children[k] as int].parent == Some(i as usize),
        ensures
            u.node_ok(i),
    {
    }

    /// Switching the side to move keeps the tree well formed.
    pub proof fn lemma_toggled_wf(self)
        requires
            self.wf(),
        ensures
            self.toggled().wf(),
            self.grows_into(self.toggled()),
    {
        let t = self.toggled();
        assert forall|i: int| 0 <= i < t.nodes.len() implies #[trigger] t.node_ok(i) by {
            assert(self.node_ok(i));
            if i > 0 {
                let p = self.nodes[i].parent->0 as int;
                assert(same_core(self.nodes[p], t.nodes[p]));
            }
            assert forall|k: int| 0 <= k < t.nodes[i].children.len() implies #[trigger] t.nodes[i].children[k] < t.nodes.len()
                    && t.nodes[t.nodes[i].children[k] as int].parent == Some(i as usize) by {
                assert(self.nodes[i].children[k] == t.nodes[i].children[k]);
            }
            self.lemma_node_ok_frame(t, i);
        }
        lemma_last_visited_chain_frame(self.nodes, t.nodes, self.current);
    }

    /// Going back keeps the tree well formed.
    pub proof fn lemma_back_wf(self)
        requires
            self.wf(),
        ensures
            self.back().wf(),
            self.grows_into(self.back()),
    {
        assert(self.node_ok(self.current as int));
        assert(self.back().nodes == self.nodes);
        assert forall|i: int| 0 <= i < self.back().nodes.len() implies #[trigger] self.back().node_ok(i) by {
            assert(self.node_ok(i));
        }
    }

    /// Going forward keeps the tree well formed.
    pub proof fn lemma_forward_wf(self)
        requires
            self.wf(),
        ensures
            self.forward().wf(),
            self.grows_into(self.forward()),
            self.forward_target() matches Some(id) ==> id < self.nodes.len() && self.cur().children.contains(id),
    {
        let t = self.forward();
        let ci = self.current as int;
        assert(self.node_ok(ci));
        if let Some(id) = self.forward_target() {
            if !(self.cur().last_child matches Some(c) && self.cur().children.contains(c)) {
                assert(self.cur().children[self.cur().children.len() - 1] == id);
            }
            let k = choose|k: int| 0 <= k < self.cur().children.len() && self.cur().children[k] == id;
            assert(self.cur().children[k] < self.nodes.len());
            assert forall|i: int| 0 <= i < t.nodes.len() implies #[trigger] t.node_ok(i) by {
                assert(self.node_ok(i));
                if i > 0 {
                    let p = self.nodes[i].parent->0 as int;
                    assert(same_core(self.nodes[p], t.nodes[p]));
                }
                assert forall|k: int| 0 <= k < t.nodes[i].children.len() implies #[trigger] t.nodes[i].children[k] < t.nodes.len()
                        && t.nodes[t.nodes[i].children[k] as int].parent == Some(i as usize) by {
                    assert(self.nodes[i].children[k] == t.nodes[i].children[k]);
                }
                self.lemma_node_ok_frame(t, i);
            }
            assert(self.nodes[id as int].parent == Some(self.current));
            assert(self.node_ok(id as int));
            lemma_last_visited_chain_frame(self.nodes, t.nodes, self.current);
            assert(t.nodes[id as int].parent == Some(self.current));
        }
    }

    /// Cutting off the current node keeps the tree well formed.
    pub proof fn lemma_remove_last_wf(self)
        requires
            self.wf(),
        ensures
            self.remove_last().wf(),
            self.grows_into(self.remove_last()),
    {
        let t = self.remove_last();
        let ci = self.current as int;
        assert(self.node_ok(ci));
        if let Some(p) = self.cur().parent {
            let pi = p as int;
            assert(self.node_ok(pi));
            lemma_without_subset(self.nodes[pi].children, self.current);
            assert forall|i: int| 0 <= i < t.nodes.len() implies #[trigger] t.node_ok(i) by {
                assert(self.node_ok(i));
                if i > 0 {
                    let q = self.nodes[i].parent->0 as int;
                    assert(same_core(self.nodes[q], t.nodes[q]));
                }
                assert forall|k: int| 0 <= k < t.nodes[i].children.len() implies #[trigger] t.nodes[i].children[k] < t.nodes.len()
                        && t.nodes[t.nodes[i].children[k] as int].parent == Some(i as usize) by {
                    let c = t.nodes[i].children[k];
                    if i == pi {
                        assert(self.nodes[pi].children.contains(c));
                        let j = choose|j: int| 0 <= j < self.nodes[pi].children.len() && self.nodes[pi].children[j] == c;
                        assert(self.nodes[pi].children[j] < self.nodes.len());
                    } else {
                        assert(self.nodes[i].children[k] == c);
                    }
                }
                if i == pi {
                    if let Some(c) = t.nodes[i].last_child {
                        assert(self.nodes[pi].children.contains(c) && c != self.current);
                    }
                }
                self.lemma_node_ok_frame(t, i);
            }
            lemma_last_visited_chain_frame(self.nodes, t.nodes, p);
        }
    }

    /// Playing a legal move (or a pass) by the side to move keeps the tree well formed.
    pub proof fn lemma_play_wf(self, want: MoveInfo)
        requires
            self.wf(),
            self.nodes.len() < usize::MAX,
            want.color == self.cur().next_turn,
            want.is_pass || (self.can_play(want.x, want.y) && self.nodes.len() < u32::MAX),
        ensures
            self.play(want).wf(),
            self.grows_into(self.play(want)),
    {
        let cur = self.cur();
        let t = self.play(want);
        let n = self.size as int;
        let ci = self.current as int;
        lemma_find_branch_in(self.nodes, cur.children, want);
        assert(self.node_ok(ci));
        match find_branch(self.nodes, cur.children, want) {
            Some(id) => {
                assert forall|i: int| 0 <= i < t.nodes.len() implies #[trigger] t.node_ok(i) by {
                    assert(self.node_ok(i));
                    if i > 0 {
                        let p = self.nodes[i].parent->0 as int;
                        assert(same_core(self.nodes[p], t.nodes[p]));
                    }
                    assert forall|k: int| 0 <= k < t.nodes[i].children.len() implies #[trigger] t.nodes[i].children[k] < t.nodes.len()
                            && t.nodes[t.nodes[i].children[k] as int].parent == Some(i as usize) by {
                        let c = t.nodes[i].children[k];
                        assert(self.nodes[i].children[k] == c);
                    }
                    self.lemma_node_ok_frame(t, i);
                }
                let k = choose|k: int| 0 <= k < cur.children.len() && cur.children[k] == id;
                assert(self.nodes[cur.children[k] as int].parent == Some(self.current));
                assert(self.node_ok(id as int));
                lemma_last_visited_chain_frame(self.nodes, t.nodes, self.current);
                assert(t.nodes[id as int].parent == Some(self.current));
            },
            None => {
                let id = self.nodes.len() as usize;
                let m = (want.x as int, want.y as int);
                if !want.is_pass {
                    lemma_move_stone_balance(cur.stones, n, m, want.color);
                    crate::board::lemma_after_move_wf(cur.stones, n, m, want.color);
                    law_move_keeps_every_group_breathing(cur.stones, n, m, want.color);
                }
                assert forall|i: int| 0 <= i < t.nodes.len() implies #[trigger] t.node_ok(i) by {
                    if i < self.nodes.len() {
                        assert(self.node_ok(i));
                        if i > 0 {
                            let p = self.nodes[i].parent->0 as int;
                            assert(same_core(self.nodes[p], t.nodes[p]));
                        }
                        assert forall|k: int| 0 <= k < t.nodes[i].children.len() implies #[trigger] t.nodes[i].children[k] < t.nodes.len()
                                && t.nodes[t.nodes[i].children[k] as int].parent == Some(i as usize) by {
                            let c = t.nodes[i].children[k];
                            if i == ci && k == t.nodes[i].children.len() - 1 {
                                assert(c == id);
                            } else {
                                assert(self.nodes[i].children[k] == c);
                            }
                        }
                        if i == ci {
                            assert(t.nodes[i].children[t.nodes[i].children.len() - 1] == id);
                        }
                        self.lemma_node_ok_frame(t, i);
                    } else {
                        assert(i == id);
                        assert(same_core(t.nodes[ci], cur));
                    }
                }
                lemma_last_visited_chain_frame(self.nodes, t.nodes, self.current);
                assert(t.nodes[id as int].parent == Some(self.current));
            },
        }
    }
}

/// The branch `find_branch` finds is one of `kids`.
pub proof fn lemma_find_branch_in(nodes: Seq<NodeModel>, kids: Seq<usize>, want: MoveInfo)
    ensures
        find_branch(nodes, kids, want) matches Some(id) ==> kids.contains(id) && move_matches(nodes[id as int].mv, want),
    decreases kids.len(),
{
    if kids.len() > 0 {
        lemma_find_branch_in(nodes, kids.drop_first(), want);
        if !move_matches(nodes[kids[0] as int].mv, want) {
            if let Some(id) = find_branch(nodes, kids.drop_first(), want) {
                let j = choose|j: int| 0 <= j < kids.drop_first().len() && kids.drop_first()[j] == id;
                assert(kids[j + 1] == id);
            }
        } else {
            assert(kids[0] == kids[0]);
        }
    }
}

/// Every element of `without(s, v)` is an element of `s` other than `v`, and every element of `s`
/// other than `v` is kept.
pub proof fn lemma_without_subset(s: Seq<usize>, v: usize)
    ensures
        forall|k: int| 0 <= k < without(s, v).len() ==> s.contains(#[trigger] without(s, v)[k]) && without(s, v)[k] != v,
        forall|x: usize| #[trigger] s.contains(x) && x != v ==> without(s, v).contains(x),
        !without(s, v).contains(v),
    decreases s.len(),
{
    if s.len() > 0 {
        let t = s.drop_last();
        lemma_without_subset(t, v);
        let w = without(s, v);
        assert forall|k: int| 0 <= k < w.len() implies s.contains(#[trigger] w[k]) && w[k] != v by {
            if k < without(t, v).len() {
                let e = w[k];
                assert(t.contains(e));
                let j = choose|j: int| 0 <= j < t.len() && t[j] == e;
                assert(s[j] == e);
            } else {
                assert(s[s.len() - 1] == w[k]);
            }
        }
        assert forall|x: usize| #[trigger] s.contains(x) && x != v implies w.contains(x) by {
            let j = choose|j: int| 0 <= j < s.len() && s[j] == x;
            if j < s.len() - 1 {
                assert(t[j] == x);
                assert(t.contains(x));
                let i = choose|i: int| 0 <= i < without(t, v).len() && without(t, v)[i] == x;
                assert(w[i] == x);
            } else {
                assert(w[w.len() - 1] == x);
            }
        }
        if w.contains(v) {
            let i = choose|i: int| 0 <= i < w.len() && w[i] == v;
        }
    }
}

proof fn lemma_empty_board_wf(n: int)
    requires
        n >= 0,
    ensures
        grid_wf(empty_board_spec(n), n),
        stone_count(empty_board_spec(n), n) == 0,
        every_group_breathes(empty_board_spec(n), n),
{
    crate::grid::lemma_count_zero(n, |q: crate::grid::Pt| at(empty_board_spec(n), q) is Some);
    assert(every_group_breathes(empty_board_spec(n), n));
}

} // verus!

verus! {

/// Going back to the parent and then forward again returns to the node one came from: the
/// tree is exactly as before (away from the root, where going back does nothing).
pub proof fn law_back_then_forward(t: TreeModel)
    requires
        t.wf(),
        t.cur().parent is Some,
    ensures
        t.back().forward() == t,
{
    let p = t.cur().parent->0;
    assert(last_visited_chain(t.nodes, t.current));
    assert(t.node_ok(t.current as int));
    assert(t.node_ok(p as int));
    let u = t.back();
    assert(u.forward_target() == Some(t.current));
    assert(u.forward().nodes =~= t.nodes);
}

/// After a move (or a pass), going back and forward again returns to the position the move
/// reached.
pub proof fn law_play_then_back_forward(t: TreeModel, want: MoveInfo)
    requires
        t.wf(),
        t.nodes.len() < usize::MAX,
        want.color == t.cur().next_turn,
        want.is_pass || (t.can_play(want.x, want.y) && t.nodes.len() < u32::MAX),
    ensures
        t.play(want).back().forward() == t.play(want),
{
    t.lemma_play_wf(want);
    lemma_find_branch_in(t.nodes, t.cur().children, want);
    assert(t.node_ok(t.current as int));
    let u = t.play(want);
    if let Some(id) = find_branch(t.nodes, t.cur().children, want) {
        let k = choose|k: int| 0 <= k < t.cur().children.len() && t.cur().children[k] == id;
        assert(t.nodes[t.cur().children[k] as int].parent == Some(t.current));
    }
    law_back_then_forward(u);
}

/// Going back after a move (or a pass) restores the earlier position: the same node, with
/// its board, prisoners, side to move, move and ancestor chain, and the move's node kept as a
/// child to go forward to.
pub proof fn law_play_then_back(t: TreeModel, want: MoveInfo)
    requires
        t.wf(),
        t.nodes.len() < usize::MAX,
        want.color == t.cur().next_turn,
        want.is_pass || (t.can_play(want.x, want.y) && t.nodes.len() < u32::MAX),
    ensures
        t.play(want).back().current == t.current,
        same_core(t.play(want).back().cur(), t.cur()),
        t.play(want).back().cur().next_turn == t.cur().next_turn,
        chain_from(t.play(want).back().nodes, t.current) == chain_from(t.nodes, t.current),
        t.play(want).back().cur().children.contains(t.play(want).current),
{
    t.lemma_play_wf(want);
    lemma_find_branch_in(t.nodes, t.cur().children, want);
    assert(t.node_ok(t.current as int));
    let u = t.play(want);
    assert(u.node_ok(u.current as int));
    if let Some(id) = find_branch(t.nodes, t.cur().children, want) {
        let k = choose|k: int| 0 <= k < t.cur().children.len() && t.cur().children[k] == id;
        assert(t.nodes[t.cur().children[k] as int].parent == Some(t.current));
        assert(u.nodes[t.current as int].children == t.cur().children);
    } else {
        assert(u.nodes[t.current as int].children.last() == u.current);
    }
    assert(u.cur().parent == Some(t.current));
    lemma_chain_from_frame(t.nodes, u.nodes, t.current);
}

/// Switching the side to move twice changes nothing.
pub proof fn law_toggle_twice(t: TreeModel)
    requires
        t.wf(),
    ensures
        t.toggled().toggled() == t,
{
    assert(t.toggled().toggled().nodes =~= t.nodes);
}

/// Playing a move reaches the board that move makes of the current board, with the prisoners
/// it takes, whether it creates a new branch or enters one played before.
pub proof fn law_move_result(t: TreeModel, x: usize, y: usize)
    requires
        t.wf(),
        t.can_play(x, y),
        t.nodes.len() < u32::MAX,
    ensures
        ({
            let want = MoveInfo { x, y, color: t.cur().next_turn, is_pass: false };
            let m = (x as int, y as int);
            let c = t.cur().next_turn;
            &&& t.play(want).cur().stones == after_move(t.cur().stones, t.size as int, m, c)
            &&& t.play(want).cur().captures == add_captures(
                t.cur().captures,
                c,
                captured_count(t.cur().stones, t.size as int, m, c),
            )
            &&& t.play(want).cur().mv == Some(want)
            &&& t.play(want).cur().parent == Some(t.current)
        }),
{
    let want = MoveInfo { x, y, color: t.cur().next_turn, is_pass: false };
    t.lemma_play_wf(want);
    lemma_find_branch_in(t.nodes, t.cur().children, want);
    assert(t.node_ok(t.current as int));
    if let Some(id) = find_branch(t.nodes, t.cur().children, want) {
        let k = choose|k: int| 0 <= k < t.cur().children.len() && t.cur().children[k] == id;
        assert(t.nodes[t.cur().children[k] as int].parent == Some(t.current));
        assert(t.node_ok(id as int));
        assert(id != 0);
    }
}

/// A pass keeps the board and the prisoners, whether it creates a new branch or enters one
/// played before.
pub proof fn law_pass_keeps_position(t: TreeModel)
    requires
        t.wf(),
        t.nodes.len() < usize::MAX,
    ensures
        ({
            let want = MoveInfo { x: 0, y: 0, color: t.cur().next_turn, is_pass: true };
            &&& t.play(want).cur().stones == t.cur().stones
            &&& t.play(want).cur().captures == t.cur().captures
            &&& t.play(want).cur().parent == Some(t.current)
        }),
{
    let want = MoveInfo { x: 0, y: 0, color: t.cur().next_turn, is_pass: true };
    t.lemma_play_wf(want);
    lemma_find_branch_in(t.nodes, t.cur().children, want);
    assert(t.node_ok(t.current as int));
    if let Some(id) = find_branch(t.nodes, t.cur().children, want) {
        let k = choose|k: int| 0 <= k < t.cur().children.len() && t.cur().children[k] == id;
        assert(t.nodes[t.cur().children[k] as int].parent == Some(t.current));
        assert(t.node_ok(id as int));
        assert(id != 0);
    }
}

/// A node cut off by `remove_last_move` is no longer a child of its parent, so going forward
/// from there never enters it again.
pub proof fn law_removed_node_unreachable(t: TreeModel)
    requires
        t.wf(),
        t.cur().parent is Some,
    ensures
        !t.remove_last().cur().children.contains(t.current),
        t.remove_last().forward_target() != Some(t.current),
{
    t.lemma_remove_last_wf();
    assert(t.node_ok(t.current as int));
    let p = t.cur().parent->0;
    lemma_without_subset(t.nodes[p as int].children, t.current);
    let u = t.remove_last();
    assert(u.node_ok(p as int));
    if u.cur().children.len() > 0 {
        assert(u.cur().children.contains(u.cur().children.last()));
    }
}

/// No group without liberties is ever shown: on every node of a tree this library builds,
/// every group of stones has at least one liberty (captures and suicide leave none behind).
pub proof fn law_every_group_breathes(t: TreeModel, i: int)
    requires
        t.wf(),
        0 <= i < t.nodes.len(),
    ensures
        every_group_breathes(t.nodes[i].stones, t.size as int),
{
    assert(t.node_ok(i));
}

/// The ancestor chain starts at the given node, ends at the root, and each entry after the
/// first is the parent of the one before it.
pub proof fn law_ancestor_chain(t: TreeModel, i: usize)
    requires
        t.wf(),
        i < t.nodes.len(),
    ensures
        chain_from(t.nodes, i)[0] == i,
        chain_from(t.nodes, i).last() == 0,
        forall|k: int|
            0 <= k < chain_from(t.nodes, i).len() - 1 ==> t.nodes[#[trigger] chain_from(t.nodes, i)[k] as int].parent
                == Some(chain_from(t.nodes, i)[k + 1]),
    decreases i,
{
    assert(t.node_ok(i as int));
    let c = chain_from(t.nodes, i);
    match t.nodes[i as int].parent {
        Some(p) => {
            law_ancestor_chain(t, p);
            let rest = chain_from(t.nodes, p);
            assert(c == seq![i] + rest);
            assert forall|k: int| 0 <= k < c.len() - 1 implies t.nodes[#[trigger] c[k] as int].parent == Some(c[k + 1]) by {
                if k > 0 {
                    assert(c[k] == rest[k - 1]);
                    assert(c[k + 1] == rest[k]);
                    assert(t.nodes[rest[k - 1] as int].parent == Some(rest[k]));
                }
            }
        },
        None => {
            assert(i == 0);
        },
    }
}

} // verus!

verus! {

/// Going forward does nothing exactly at a leaf: there is a child to enter if and only if the
/// current node has children, and with none the tree is left unchanged.
pub proof fn law_forward_only_at_children(t: TreeModel)
    requires
        t.wf(),
    ensures
        t.forward_target() is None <==> t.cur().children.len() == 0,
        t.forward_target() is None ==> t.forward() == t,
{
    if let Some(c) = t.cur().last_child {
        if t.cur().children.contains(c) {
            assert(t.cur().children.len() > 0);
        }
    }
}

} // verus!

verus! {

/// After a stone is played at `(x, y)`, the board shown marks exactly that point as the last
/// move, is no pass, and can go back; the stone stands at `(x, y)` unless the move was
/// suicide.
pub proof fn law_snapshot_after_move(t: TreeModel, x: usize, y: usize, r: BoardSnapshot)
    requires
        t.wf(),
        t.can_play(x, y),
        t.nodes.len() < u32::MAX,
        shows(t.play(MoveInfo { x, y, color: t.cur().next_turn, is_pass: false }), r),
    ensures
        r.last_move == Some(Point { x, y }),
        !r.last_move_is_pass,
        r.can_go_back,
        r.node_id == t.play(MoveInfo { x, y, color: t.cur().next_turn, is_pass: false }).current,
{
    let want = MoveInfo { x, y, color: t.cur().next_turn, is_pass: false };
    t.lemma_play_wf(want);
    lemma_find_branch_in(t.nodes, t.cur().children, want);
    let u = t.play(want);
    assert(u.node_ok(u.current as int));
    assert(t.node_ok(t.current as int));
    if let Some(id) = find_branch(t.nodes, t.cur().children, want) {
        let k = choose|k: int| 0 <= k < t.cur().children.len() && t.cur().children[k] == id;
        assert(t.nodes[t.cur().children[k] as int].parent == Some(t.current));
        assert(u.cur().mv == t.nodes[id as int].mv);
    } else {
        assert(u.cur().mv == Some(want));
    }
}

/// After a pass the board shown has no last-move marker, says the last move was a pass,
/// and shows the same stones and prisoners as before.
pub proof fn law_snapshot_after_pass(t: TreeModel, r: BoardSnapshot)
    requires
        t.wf(),
        t.nodes.len() < usize::MAX,
        shows(t.play(MoveInfo { x: 0, y: 0, color: t.cur().next_turn, is_pass: true }), r),
    ensures
        r.last_move is None,
        r.last_move_is_pass,
        board_of(r.stones) == t.cur().stones,
        r.captures == t.cur().captures,
{
    let want = MoveInfo { x: 0, y: 0, color: t.cur().next_turn, is_pass: true };
    t.lemma_play_wf(want);
    lemma_find_branch_in(t.nodes, t.cur().children, want);
    let u = t.play(want);
    assert(u.node_ok(u.current as int));
    assert(t.node_ok(t.current as int));
    if let Some(id) = find_branch(t.nodes, t.cur().children, want) {
        let k = choose|k: int| 0 <= k < t.cur().children.len() && t.cur().children[k] == id;
        assert(t.nodes[t.cur().children[k] as int].parent == Some(t.current));
        assert(u.cur().mv == t.nodes[id as int].mv);
    }
}

/// Going forward from a node whose last visited child is gone (or was never set) enters its
/// newest child, the last one in branch order, and returns that child's move.
pub proof fn law_forward_enters_newest_child(t: TreeModel)
    requires
        t.wf(),
        t.cur().children.len() > 0,
        !(t.cur().last_child matches Some(c) && t.cur().children.contains(c)),
    ensures
        t.forward().current == t.cur().children[t.cur().children.len() - 1],
        t.forward_target() == Some(t.cur().children[t.cur().children.len() - 1]),
{
}

/// Going forward from a node whose last visited child is still one of its children enters
/// that child.
pub proof fn law_forward_enters_last_visited_child(t: TreeModel, c: usize)
    requires
        t.wf(),
        t.cur().last_child == Some(c),
        t.cur().children.contains(c),
    ensures
        t.forward().current == c,
{
}

} // verus!
