use torus_game::board::Board;
use torus_game::deals::unique_permutations;
use torus_game::point::Point;
use torus_game::search::{traverse_game_tree, SimStep};

fn snapshot(b: &Board) -> (Vec<u8>, Point, Point, usize, usize) {
    (b.cards().clone(), b.pawn(0), b.pawn(1), b.turn(), b.moves_played())
}

/// Plays the given destinations from the canonical start, checking each is legal.
fn play(moves: &[Point]) -> Board {
    let mut b = Board::new();
    for m in moves {
        assert!(b.legal_moves().contains(m));
        b.make_move(*m);
    }
    b
}

/// Plays, from the canonical start, the legal move at each given position in the list
/// of legal moves (taken modulo its length).
fn play_by_index(choices: &[usize]) -> Board {
    let mut b = Board::new();
    for c in choices {
        let moves = b.legal_moves();
        b.make_move(moves[c % moves.len()]);
    }
    b
}

fn naive_minimax(b: &mut Board) -> i8 {
    let moves = b.legal_moves();
    if moves.is_empty() {
        let rem = 16 - b.moves_played() as i8;
        return if rem % 2 == 1 { rem } else { -rem };
    }
    let maximise = b.turn() == 0;
    let mut best: i8 = if maximise { -16 } else { 16 };
    for m in moves {
        b.make_move(m);
        let v = naive_minimax(b);
        b.undo_move();
        if (maximise && v > best) || (!maximise && v < best) {
            best = v;
        }
    }
    best
}

#[test]
fn add_wraps_around() {
    assert_eq!(Point(3, 3).add(Point(1, 1)), Point(0, 0));
    assert_eq!(Point(2, 0).add(Point(3, 1)), Point(1, 1));
    assert_eq!(Point(1, 2).index(), 6);
}

#[test]
fn neighbors_wrap_around() {
    assert_eq!(
        Point(0, 0).neighbors(),
        [Point(1, 0), Point(3, 0), Point(0, 1), Point(0, 3)]
    );
    assert_eq!(
        Point(3, 2).neighbors(),
        [Point(0, 2), Point(2, 2), Point(3, 3), Point(3, 1)]
    );
}

#[test]
fn opening_moves_reach_every_live_cell() {
    let b = Board::new();
    let moves = b.legal_moves();
    assert_eq!(moves.len(), 14);
    assert!(!moves.contains(&Point(1, 3)));
    assert!(!moves.contains(&Point(3, 0)));
    for m in &moves {
        assert_ne!(b.card(*m), 0);
    }
}

#[test]
fn one_step_walk_is_blocked_by_spent_cells() {
    let b = play(&[Point(0, 0), Point(2, 2)]);
    assert_eq!(b.legal_moves(), vec![Point(0, 1), Point(0, 3), Point(1, 0)]);
}

#[test]
fn two_step_walk_avoids_revisits_and_spent_cells() {
    let b = play(&[Point(0, 0), Point(2, 2), Point(1, 0)]);
    assert_eq!(
        b.legal_moves(),
        vec![Point(0, 2), Point(1, 1), Point(2, 0), Point(3, 1), Point(3, 3)]
    );
}

#[test]
fn legal_moves_never_land_on_pawns_or_spent_cards() {
    let mut b = play(&[Point(0, 0), Point(2, 2), Point(1, 0), Point(1, 1)]);
    for _ in 0..4 {
        let moves = b.legal_moves();
        for m in &moves {
            assert_ne!(*m, b.pawn(0));
            assert_ne!(*m, b.pawn(1));
            assert_ne!(b.card(*m), 0);
        }
        match moves.first() {
            Some(m) => b.make_move(*m),
            None => break,
        }
    }
}

#[test]
fn make_then_undo_restores_the_board() {
    let mut b = play(&[Point(0, 0), Point(2, 2)]);
    let before = snapshot(&b);
    b.make_move(Point(1, 0));
    assert_eq!(b.card(Point(0, 0)), 0);
    assert_eq!(b.pawn(0), Point(1, 0));
    assert_eq!(b.turn(), 1);
    assert_eq!(b.moves_played(), 3);
    b.undo_move();
    assert_eq!(snapshot(&b), before);
    assert_eq!(b.card(Point(0, 0)), 1);
}

#[test]
fn searches_leave_the_board_unchanged() {
    let mut b = play(&[Point(0, 0), Point(2, 2), Point(1, 0), Point(1, 1)]);
    let before = snapshot(&b);
    b.winning_move();
    assert_eq!(snapshot(&b), before);
    b.best_move_by_cards_remaining();
    assert_eq!(snapshot(&b), before);
    b.count_terminal_lines();
    assert_eq!(snapshot(&b), before);
}

#[test]
fn win_search_and_score_agree_on_outcome() {
    let lines: [&[usize]; 4] = [&[0, 7, 1, 2], &[0, 7, 1, 2, 1], &[3, 11, 0, 1], &[13, 2, 2, 0, 1]];
    for line in lines {
        let mut b = play_by_index(line);
        let win = b.winning_move();
        let (_, score) = b.best_move_by_cards_remaining();
        assert_ne!(score, 0);
        let favoured = if b.turn() == 0 { score > 0 } else { score < 0 };
        assert_eq!(win.is_some(), favoured);
        if let Some(m) = win {
            b.make_move(m);
            assert!(b.winning_move().is_none());
        }
    }
}

#[test]
fn alpha_beta_matches_full_width_minimax() {
    let lines: [&[usize]; 4] = [&[0, 7, 1, 2], &[0, 7, 1, 2, 1], &[3, 11, 0, 1], &[13, 2, 2, 0, 1]];
    for line in lines {
        let mut b = play_by_index(line);
        let expected = naive_minimax(&mut b);
        let (m, score) = b.best_move_by_cards_remaining();
        assert_eq!(score, expected);
        let m = m.unwrap();
        b.make_move(m);
        assert_eq!(naive_minimax(&mut b), expected);
    }
}

#[test]
fn terminal_lines_sum_over_first_moves() {
    let mut b = play(&[Point(0, 0), Point(2, 2), Point(1, 0)]);
    let total = b.count_terminal_lines();
    let mut sum: u64 = 0;
    for m in b.legal_moves() {
        b.make_move(m);
        sum += b.count_terminal_lines();
        b.undo_move();
    }
    assert_eq!(total, sum);
    let mut counter: u64 = 5;
    traverse_game_tree(&mut b, &mut counter);
    assert_eq!(counter, total + 5);
}

/// Finds, depth first, a position whose side to move has exactly one legal move, after
/// which the opponent is stuck.
fn find_forced_last_move(b: &mut Board) -> bool {
    let moves = b.legal_moves();
    if moves.len() == 1 {
        b.make_move(moves[0]);
        let stuck = b.legal_moves().is_empty();
        b.undo_move();
        if stuck {
            return true;
        }
    }
    for m in moves {
        b.make_move(m);
        if find_forced_last_move(b) {
            return true;
        }
        b.undo_move();
    }
    false
}

#[test]
fn single_forced_move_scores_the_cards_left() {
    let mut b = play(&[Point(0, 0), Point(2, 2), Point(1, 0)]);
    assert!(find_forced_last_move(&mut b));
    let only = b.legal_moves()[0];
    let (m, score) = b.best_move_by_cards_remaining();
    assert_eq!(m, Some(only));
    let left = 16 - (b.moves_played() as i8 + 1);
    assert_eq!(score.abs(), left);
    let expected_sign = if left % 2 == 1 { 1 } else { -1 };
    assert_eq!(score.signum(), expected_sign);
}

#[test]
fn terminal_position_scores_without_a_move() {
    let mut b = play(&[Point(0, 0), Point(2, 2), Point(1, 0)]);
    assert!(find_forced_last_move(&mut b));
    let only = b.legal_moves()[0];
    b.make_move(only);
    assert!(b.winning_move().is_none());
    let (m, score) = b.best_move_by_cards_remaining();
    assert_eq!(m, None);
    assert_eq!(score.unsigned_abs() as usize, 16 - b.moves_played());
    assert_eq!(b.count_terminal_lines(), 1);
}

#[test]
fn simulated_game_runs_to_a_loss() {
    let mut b = play(&[Point(0, 0), Point(2, 2), Point(1, 0), Point(1, 1)]);
    let mut steps = 0;
    loop {
        let could_win = b.winning_move().is_some();
        match b.simulate_step() {
            SimStep::Confident(_) => assert!(could_win),
            SimStep::Hopeless(_) => assert!(!could_win),
            SimStep::Lost => break,
        }
        steps += 1;
        assert!(steps <= 12);
    }
    assert!(b.legal_moves().is_empty());
}

#[test]
fn permutations_of_small_multisets() {
    let perms = unique_permutations(vec![], &[0, 2, 1, 0, 0]);
    assert_eq!(perms, vec![vec![1, 1, 2], vec![1, 2, 1], vec![2, 1, 1]]);
    let perms = unique_permutations(vec![7], &[0, 1, 1, 1, 0]);
    assert_eq!(perms.len(), 6);
    for p in &perms {
        assert_eq!(p[0], 7);
    }
    let mut sorted = perms.clone();
    sorted.sort();
    sorted.dedup();
    assert_eq!(sorted.len(), 6);
    assert_eq!(unique_permutations(vec![3], &[0, 0, 0, 0, 0]), vec![vec![3]]);
}

#[test]
fn permutation_count_is_multinomial() {
    // 7! / (2! 2! 2! 1!) = 630
    let perms = unique_permutations(vec![], &[0, 2, 2, 2, 1]);
    assert_eq!(perms.len(), 630);
    for p in &perms {
        assert_eq!(p.iter().filter(|v| **v == 4).count(), 1);
        assert_eq!(p.iter().filter(|v| **v == 2).count(), 2);
    }
}

#[test]
fn fresh_deal_from_parts() {
    let mut cards = vec![1u8; 16];
    cards[0] = 0;
    cards[5] = 0;
    let b = Board::from_parts(cards, Point(0, 0), Point(1, 1));
    assert_eq!(b.legal_moves().len(), 14);
    assert_eq!(b.turn(), 0);
}

#[test]
fn deck_arrangements_and_deal_weights() {
    let perms = unique_permutations(vec![], &[0, 4, 4, 4, 2]);
    assert_eq!(perms.len(), 3153150);
    let weights: [u64; 5] = [4, 2, 4, 4, 1];
    let total: u64 = weights.iter().sum::<u64>() * perms.len() as u64;
    assert_eq!(total, 47297250);
}

#[test]
fn canonical_layout() {
    let b = Board::new();
    assert_eq!(
        *b.cards(),
        vec![1, 2, 2, 3, 4, 1, 2, 0, 3, 1, 2, 3, 0, 3, 1, 4]
    );
    assert_eq!(b.pawn(0), Point(1, 3));
    assert_eq!(b.pawn(1), Point(3, 0));
    assert_eq!(b.turn(), 0);
    assert_eq!(b.moves_played(), 0);
}

#[test]
fn two_step_walk_from_a_two_card() {
    let b = play(&[Point(0, 1), Point(2, 2)]);
    assert_eq!(
        b.legal_moves(),
        vec![Point(0, 3), Point(1, 0), Point(1, 2), Point(2, 1), Point(3, 2)]
    );
}

#[test]
fn one_step_walk_cannot_land_on_the_opponent() {
    let b = play(&[Point(0, 0), Point(1, 0)]);
    assert_eq!(b.legal_moves(), vec![Point(0, 1), Point(0, 3)]);
}

#[test]
fn several_moves_undone_last_first() {
    let mut b = play(&[Point(0, 0)]);
    let before = snapshot(&b);
    let mut seen = vec![snapshot(&b)];
    for c in [3usize, 1, 0] {
        let moves = b.legal_moves();
        b.make_move(moves[c % moves.len()]);
        seen.push(snapshot(&b));
    }
    seen.pop();
    while let Some(s) = seen.pop() {
        b.undo_move();
        assert_eq!(snapshot(&b), s);
    }
    assert_eq!(snapshot(&b), before);
}

#[test]
fn window_search_scores_a_finished_game() {
    for line in [&[0usize, 7, 1, 2][..], &[3, 11, 0, 1], &[13, 2, 2, 0, 1]] {
        let mut b = play_by_index(line);
        for (lo, hi) in [(-16i8, 16i8), (-1, 1), (0, 1), (5, 6), (-6, -5)] {
            let (_, score) = b.best_move_by_cards_remaining_bounded(lo, hi);
            assert!(score.abs() >= 2 && score.abs() <= 14);
            assert!(score.abs() as usize <= 16 - b.moves_played());
        }
    }
}
