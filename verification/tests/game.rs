//! Scenario tests for the game model: the opening trace, captures, turn
//! passing, conservation, legality, terminal detection, and determinism.

use kalah::{Node, Player};

fn board_total(node: &Node) -> i32 {
    let mut total: i32 = 0;
    for &seeds in node.board.iter() {
        total += seeds as i32;
    }
    total
}

#[test]
fn game_logic() {
    let mut node = Node::new();
    assert_eq!(node.board, [4, 4, 4, 4, 4, 4, 0, 4, 4, 4, 4, 4, 4, 0]);
    assert_eq!(node.player, Player::HUMAN);
    node.move_piece(2);
    assert_eq!(node.board, [4, 4, 0, 5, 5, 5, 1, 4, 4, 4, 4, 4, 4, 0]);
    assert_eq!(node.player, Player::HUMAN);
    node.move_piece(5);
    assert_eq!(node.board, [4, 4, 0, 5, 5, 0, 2, 5, 5, 5, 5, 4, 4, 0]);
    assert_eq!(node.player, Player::COMPUTER);
    node.move_piece(12);
    assert_eq!(node.board, [5, 5, 0, 5, 5, 0, 2, 5, 5, 5, 0, 4, 0, 7]);
}

#[test]
fn available_moves() {
    let node = Node::new();
    assert_eq!(node.available_moves(), vec![0, 1, 2, 3, 4, 5]);
}

#[test]
fn conservation_across_moves() {
    let mut node = Node::new();
    assert_eq!(board_total(&node), 48);
    node.move_piece(2);
    assert_eq!(board_total(&node), 48);
    node.move_piece(5);
    assert_eq!(board_total(&node), 48);
    node.move_piece(12);
    assert_eq!(board_total(&node), 48);
}

#[test]
fn legality_closure() {
    let node = Node {
        move_count: 3,
        board: [0, 2, 0, 7, 0, 1, 9, 4, 4, 4, 4, 4, 4, 5],
        player: Player::HUMAN,
    };
    assert_eq!(node.available_moves(), vec![1, 3, 5]);
    let flipped = Node {
        move_count: 4,
        board: [4, 4, 4, 4, 4, 4, 0, 0, 0, 3, 0, 0, 6, 2],
        player: Player::COMPUTER,
    };
    assert_eq!(flipped.available_moves(), vec![9, 12]);
}

#[test]
fn legality_is_a_pure_query() {
    let node = Node::new();
    let before_board = node.board;
    let before_player = node.player;
    let before_count = node.move_count;
    let _ = node.available_moves();
    let _ = node.available_moves();
    assert_eq!(node.board, before_board);
    assert_eq!(node.player, before_player);
    assert_eq!(node.move_count, before_count);
}

#[test]
fn turn_passes_unless_landing_in_own_store() {
    let mut stays = Node::new();
    // pit 2 holds 4 seeds: the last lands in store 6, so HUMAN moves again
    stays.move_piece(2);
    assert_eq!(stays.player, Player::HUMAN);
    assert_eq!(stays.move_count, 1);

    let mut passes = Node::new();
    // pit 0 holds 4 seeds: the last lands in pit 4, so the turn passes
    passes.move_piece(0);
    assert_eq!(passes.board, [0, 5, 5, 5, 5, 4, 0, 4, 4, 4, 4, 4, 4, 0]);
    assert_eq!(passes.player, Player::COMPUTER);
    assert_eq!(passes.move_count, 1);
}

#[test]
fn capture_takes_landing_seed_and_opposite_pit() {
    let mut node = Node {
        move_count: 0,
        board: [1, 0, 3, 0, 0, 0, 0, 4, 4, 4, 5, 4, 4, 0],
        player: Player::HUMAN,
    };
    // the single seed of pit 0 lands in empty pit 1; opposite pit 11 holds 4:
    // all five seeds go to store 6
    node.move_piece(0);
    assert_eq!(node.board, [0, 0, 3, 0, 0, 0, 5, 4, 4, 4, 5, 0, 4, 0]);
    assert_eq!(node.player, Player::COMPUTER);
}

#[test]
fn no_capture_when_opposite_pit_is_empty() {
    let mut node = Node {
        move_count: 0,
        board: [1, 0, 3, 0, 0, 0, 0, 4, 4, 4, 4, 0, 4, 0],
        player: Player::HUMAN,
    };
    // the seed lands in empty pit 1, but opposite pit 11 is empty: no capture
    node.move_piece(0);
    assert_eq!(node.board, [0, 1, 3, 0, 0, 0, 0, 4, 4, 4, 4, 0, 4, 0]);
    assert_eq!(node.player, Player::COMPUTER);
}

#[test]
fn sowing_skips_the_opponents_store() {
    let mut node = Node {
        move_count: 0,
        board: [0, 0, 1, 0, 0, 10, 0, 1, 1, 1, 1, 1, 1, 0],
        player: Player::HUMAN,
    };
    // ten seeds from pit 5: store 6, pits 7..=12, then skipping store 13,
    // pits 0, 1, 2; the opponent's store stays empty
    node.move_piece(5);
    assert_eq!(node.board, [1, 1, 2, 0, 0, 0, 1, 2, 2, 2, 2, 2, 2, 0]);
    assert_eq!(node.player, Player::COMPUTER);
}

#[test]
fn terminal_iff_own_pits_empty() {
    let done = Node {
        move_count: 20,
        board: [0, 0, 0, 0, 0, 0, 30, 0, 2, 0, 0, 0, 0, 16],
        player: Player::HUMAN,
    };
    assert!(done.is_terminal());
    assert!(done.available_moves().is_empty());
    assert!(done.get_children().is_empty());

    let open_position = Node {
        move_count: 20,
        board: [0, 0, 0, 0, 0, 1, 30, 0, 2, 0, 0, 0, 0, 15],
        player: Player::HUMAN,
    };
    assert!(!open_position.is_terminal());

    let other_side = Node {
        move_count: 20,
        board: [0, 0, 0, 0, 0, 0, 30, 0, 2, 0, 0, 0, 0, 16],
        player: Player::COMPUTER,
    };
    assert!(!other_side.is_terminal());
}

#[test]
fn value_is_store_difference() {
    assert_eq!(Node::new().value(), 0);
    let node = Node {
        move_count: 9,
        board: [1, 0, 0, 2, 0, 0, 10, 0, 0, 4, 0, 0, 1, 3],
        player: Player::COMPUTER,
    };
    assert_eq!(node.value(), 7);
    let behind = Node {
        move_count: 9,
        board: [1, 0, 0, 2, 0, 0, 3, 0, 0, 4, 0, 0, 1, 10],
        player: Player::HUMAN,
    };
    assert_eq!(behind.value(), -7);
}

#[test]
fn successors_are_deterministic() {
    let mut node = Node::new();
    node.move_piece(2);
    let first = node.get_children();
    let second = node.get_children();
    assert_eq!(first, second);
    assert_eq!(first.len(), node.available_moves().len());
}

#[test]
fn children_follow_legal_moves_in_order() {
    let node = Node::new();
    let moves = node.available_moves();
    let children = node.get_children();
    assert_eq!(children.len(), moves.len());
    for (child, &m) in children.iter().zip(moves.iter()) {
        let mut expected = Node::new();
        expected.move_piece(m);
        assert_eq!(*child, expected);
        assert_eq!(child.move_count, 1);
    }
}
