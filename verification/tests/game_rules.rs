use go_webui::color::Color;
use go_webui::game::{GameTree, MoveInfo};

#[test]
fn captures_single_surrounded_stone() {
    let mut tree = GameTree::new(5);
    assert!(tree.confirm_move(2, 2));
    assert!(tree.confirm_move(1, 2));
    assert!(tree.confirm_move(0, 0));
    assert!(tree.confirm_move(3, 2));
    assert!(tree.confirm_move(0, 1));
    assert!(tree.confirm_move(2, 1));
    assert!(tree.confirm_move(0, 2));
    assert!(tree.confirm_move(2, 3));

    let snap = tree.snapshot();
    assert_eq!(snap.stones[2][2], None);
    assert_eq!(snap.captures.white, 1);
    assert_eq!(snap.captures.black, 0);
}

#[test]
fn captures_whole_connected_group() {
    let mut tree = GameTree::new(5);
    assert!(tree.confirm_move(0, 0));
    assert!(tree.confirm_move(4, 4));
    assert!(tree.confirm_move(1, 0));
    assert!(tree.confirm_move(0, 1));
    assert!(tree.confirm_move(4, 3));
    assert!(tree.confirm_move(2, 0));
    assert!(tree.confirm_move(4, 2));
    assert!(tree.confirm_move(1, 1));

    let snap = tree.snapshot();
    assert_eq!(snap.stones[0][0], None);
    assert_eq!(snap.stones[0][1], None);
    assert_eq!(snap.captures.white, 2);
}

#[test]
fn suicide_removes_own_stone_without_crediting_a_capture() {
    let mut tree = GameTree::new(5);
    assert!(tree.confirm_move(4, 4));
    assert!(tree.confirm_move(1, 0));
    assert!(tree.confirm_move(4, 3));
    assert!(tree.confirm_move(0, 1));
    assert!(tree.confirm_move(0, 0));

    let snap = tree.snapshot();
    assert_eq!(snap.stones[0][0], None);
    assert_eq!(snap.stones[0][1], Some(Color::White));
    assert_eq!(snap.stones[1][0], Some(Color::White));
    assert_eq!(snap.captures.black, 0);
    assert_eq!(snap.captures.white, 0);
}

#[test]
fn capture_takes_priority_over_suicide() {
    let mut tree = GameTree::new(5);
    assert!(tree.confirm_move(2, 0));
    assert!(tree.confirm_move(1, 0));
    assert!(tree.confirm_move(1, 1));
    assert!(tree.confirm_move(0, 1));
    assert!(tree.confirm_move(0, 2));
    assert!(tree.confirm_move(4, 4));
    assert!(tree.confirm_move(0, 0));

    let snap = tree.snapshot();
    assert_eq!(snap.stones[0][0], Some(Color::Black));
    assert_eq!(snap.stones[0][1], None);
    assert_eq!(snap.stones[1][0], None);
    assert_eq!(snap.captures.black, 2);
}

#[test]
fn confirm_move_rejects_occupied_point() {
    let mut tree = GameTree::new(5);
    assert!(tree.confirm_move(0, 0));
    let node_count_before = tree.node_count();
    assert!(!tree.confirm_move(0, 0));
    assert_eq!(tree.node_count(), node_count_before);
    assert_eq!(tree.snapshot().node_id, 1);
}

#[test]
fn confirm_move_reuses_existing_branch() {
    let mut tree = GameTree::new(5);
    assert!(tree.confirm_move(2, 2));
    let first_id = tree.snapshot().node_id;
    tree.go_back();
    assert!(tree.confirm_move(2, 2));
    assert_eq!(tree.snapshot().node_id, first_id);
    assert_eq!(tree.node_count(), 2);
}

#[test]
fn pass_turn_reuses_existing_branch() {
    let mut tree = GameTree::new(5);
    tree.pass_turn();
    let first_id = tree.snapshot().node_id;
    tree.go_back();
    tree.pass_turn();
    assert_eq!(tree.snapshot().node_id, first_id);
    assert_eq!(tree.node_count(), 2);
}

#[test]
fn go_back_from_root_is_noop() {
    let mut tree = GameTree::new(5);
    tree.go_back();
    assert_eq!(tree.snapshot().node_id, 0);
    assert!(!tree.snapshot().can_go_back);
}

#[test]
fn go_forward_from_leaf_returns_none() {
    let mut tree = GameTree::new(5);
    assert!(tree.confirm_move(0, 0));
    assert_eq!(tree.go_forward(), None);
    assert_eq!(tree.snapshot().node_id, 1);
}

#[test]
fn go_forward_prefers_last_visited_child() {
    let mut tree = GameTree::new(5);
    assert!(tree.confirm_move(0, 0));
    tree.go_back();
    assert!(tree.confirm_move(4, 4));
    tree.go_back();

    let mv = tree.go_forward();
    assert_eq!(
        mv,
        Some(MoveInfo { x: 4, y: 4, color: Color::Black, is_pass: false })
    );
    assert_eq!(tree.snapshot().node_id, 2);
}

#[test]
fn remove_last_move_clears_dangling_last_child() {
    let mut tree = GameTree::new(5);
    assert!(tree.confirm_move(0, 0));
    tree.go_back();
    assert!(tree.confirm_move(4, 4));
    tree.remove_last_move();

    let mv = tree.go_forward();
    assert_eq!(
        mv,
        Some(MoveInfo { x: 0, y: 0, color: Color::Black, is_pass: false })
    );
    assert_eq!(tree.snapshot().node_id, 1);
}

#[test]
fn remove_last_move_from_root_is_noop() {
    let mut tree = GameTree::new(5);
    tree.remove_last_move();
    assert_eq!(tree.snapshot().node_id, 0);
    assert!(!tree.snapshot().can_go_back);
}

#[test]
fn ancestor_chain_is_self_first_root_last() {
    let mut tree = GameTree::new(5);
    assert!(tree.confirm_move(0, 0));
    assert!(tree.confirm_move(1, 1));
    assert!(tree.confirm_move(2, 2));
    assert_eq!(tree.snapshot().ancestor_chain, vec![3, 2, 1, 0]);
}

#[test]
fn allows_immediate_recapture_no_ko_rule_yet() {
    let mut tree = GameTree::new(5);
    assert!(tree.confirm_move(2, 2));
    assert!(tree.confirm_move(3, 2));
    assert!(tree.confirm_move(0, 2));
    assert!(tree.confirm_move(2, 1));
    assert!(tree.confirm_move(1, 1));
    assert!(tree.confirm_move(2, 3));
    assert!(tree.confirm_move(1, 3));

    let before = tree.snapshot();

    assert!(tree.confirm_move(1, 2));
    assert_eq!(tree.snapshot().stones[2][2], None);

    assert!(tree.confirm_move(2, 2));
    let after = tree.snapshot();

    assert_eq!(after.stones, before.stones);
}

// Tests of this library's own.

#[test]
fn toggle_turn_twice_restores_the_side_to_move() {
    let mut tree = GameTree::new(9);
    assert_eq!(tree.snapshot().current_turn, Color::Black);
    tree.toggle_turn();
    assert_eq!(tree.snapshot().current_turn, Color::White);
    tree.toggle_turn();
    assert_eq!(tree.snapshot().current_turn, Color::Black);
}

#[test]
fn back_then_forward_returns_to_the_same_node() {
    let mut tree = GameTree::new(9);
    assert!(tree.confirm_move(3, 3));
    assert!(tree.confirm_move(4, 4));
    let here = tree.snapshot();
    tree.go_back();
    let mv = tree.go_forward();
    assert_eq!(mv, Some(MoveInfo { x: 4, y: 4, color: Color::White, is_pass: false }));
    let again = tree.snapshot();
    assert_eq!(again.node_id, here.node_id);
    assert_eq!(again.stones, here.stones);
}

#[test]
fn pass_keeps_the_board_and_hands_over_the_turn() {
    let mut tree = GameTree::new(9);
    assert!(tree.confirm_move(0, 0));
    let before = tree.snapshot();
    tree.pass_turn();
    let after = tree.snapshot();
    assert_eq!(after.stones, before.stones);
    assert_eq!(after.current_turn, Color::Black);
    assert!(after.last_move_is_pass);
    assert_eq!(after.last_move, None);
}

#[test]
fn move_off_the_board_is_refused() {
    let mut tree = GameTree::new(5);
    assert!(!tree.confirm_move(5, 0));
    assert!(!tree.confirm_move(0, 7));
    assert_eq!(tree.node_count(), 1);
}

#[test]
fn move_history_lists_moves_from_the_root() {
    let mut tree = GameTree::new(9);
    assert!(tree.confirm_move(2, 3));
    tree.pass_turn();
    assert!(tree.confirm_move(4, 5));
    let h = tree.move_history();
    assert_eq!(h.len(), 3);
    assert_eq!(h[0], MoveInfo { x: 2, y: 3, color: Color::Black, is_pass: false });
    assert!(h[1].is_pass);
    assert_eq!(h[1].color, Color::White);
    assert_eq!(h[2], MoveInfo { x: 4, y: 5, color: Color::Black, is_pass: false });
}

#[test]
fn snapshot_lists_children_in_branch_order() {
    let mut tree = GameTree::new(9);
    assert!(tree.confirm_move(1, 1));
    tree.go_back();
    assert!(tree.confirm_move(2, 2));
    tree.go_back();
    let snap = tree.snapshot();
    assert_eq!(snap.current_children.len(), 2);
    assert_eq!(snap.current_children[0], MoveInfo { x: 1, y: 1, color: Color::Black, is_pass: false });
    assert_eq!(snap.current_children[1], MoveInfo { x: 2, y: 2, color: Color::Black, is_pass: false });
    assert!(snap.can_go_forward);
    assert!(!snap.can_go_back);
}

#[test]
fn default_tree_is_nineteen_lines() {
    let tree = GameTree::default();
    assert_eq!(tree.size(), 19);
    assert_eq!(tree.snapshot().stones.len(), 19);
}

/// Every group of stones on `stones` has an empty neighbouring point.
fn every_group_has_a_liberty(stones: &[Vec<Option<Color>>]) -> bool {
    let n = stones.len();
    for y in 0..n {
        for x in 0..n {
            let Some(c) = stones[y][x] else { continue };
            let mut seen = vec![vec![false; n]; n];
            let mut stack = vec![(x, y)];
            seen[y][x] = true;
            let mut breathes = false;
            while let Some((px, py)) = stack.pop() {
                let mut nbs = Vec::new();
                if px > 0 { nbs.push((px - 1, py)); }
                if px + 1 < n { nbs.push((px + 1, py)); }
                if py > 0 { nbs.push((px, py - 1)); }
                if py + 1 < n { nbs.push((px, py + 1)); }
                for (qx, qy) in nbs {
                    match stones[qy][qx] {
                        None => breathes = true,
                        Some(d) if d == c && !seen[qy][qx] => {
                            seen[qy][qx] = true;
                            stack.push((qx, qy));
                        }
                        _ => {}
                    }
                }
            }
            if !breathes {
                return false;
            }
        }
    }
    true
}

#[test]
fn no_group_without_liberties_stays_on_the_board() {
    let mut tree = GameTree::new(5);
    let mut seed: u64 = 12345;
    for _ in 0..200 {
        seed = seed.wrapping_mul(6364136223846793005).wrapping_add(1442695040888963407);
        let x = ((seed >> 33) % 5) as usize;
        let y = ((seed >> 41) % 5) as usize;
        tree.confirm_move(x, y);
        assert!(every_group_has_a_liberty(&tree.snapshot().stones));
    }
}

#[test]
fn back_then_forward_follows_the_branch_last_entered() {
    let mut tree = GameTree::new(9);
    assert!(tree.confirm_move(1, 1));
    assert!(tree.confirm_move(2, 2));
    tree.go_back();
    tree.go_back();
    assert!(tree.confirm_move(5, 5));
    assert!(tree.confirm_move(6, 6));
    let here = tree.snapshot().node_id;
    tree.go_back();
    tree.go_forward();
    assert_eq!(tree.snapshot().node_id, here);
    tree.go_back();
    tree.go_back();
    assert_eq!(tree.go_forward(), Some(MoveInfo { x: 5, y: 5, color: Color::Black, is_pass: false }));
    assert_eq!(tree.go_forward(), Some(MoveInfo { x: 6, y: 6, color: Color::White, is_pass: false }));
    assert_eq!(tree.snapshot().node_id, here);
}

#[test]
fn going_back_after_a_move_restores_the_position() {
    let mut tree = GameTree::new(9);
    assert!(tree.confirm_move(3, 3));
    let before = tree.snapshot();
    assert!(tree.confirm_move(4, 4));
    tree.go_back();
    let after = tree.snapshot();
    assert_eq!(after.node_id, before.node_id);
    assert_eq!(after.stones, before.stones);
    assert_eq!(after.current_turn, before.current_turn);
    assert_eq!(after.ancestor_chain, before.ancestor_chain);
    assert!(after.can_go_forward);
}
