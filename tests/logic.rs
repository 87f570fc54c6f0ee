use rust_ai_minesweeper::game_logic::{Cell, Contradiction, Minesweeper, MinesweeperAI, Sentence};

fn sorted(v: &[Cell]) -> Vec<Cell> {
    let mut v = v.to_vec();
    v.sort();
    v
}

#[test]
fn full_count_makes_all_cells_mines() {
    let s = Sentence::new(vec![(0, 0), (0, 1)], 2);
    assert_eq!(sorted(&s.known_mines()), vec![(0, 0), (0, 1)]);
    assert!(s.known_safes().is_empty());
}

#[test]
fn zero_count_makes_all_cells_safe() {
    let s = Sentence::new(vec![(0, 0), (0, 1)], 0);
    assert_eq!(sorted(&s.known_safes()), vec![(0, 0), (0, 1)]);
    assert!(s.known_mines().is_empty());
}

#[test]
fn partial_count_gives_nothing_away() {
    let s = Sentence::new(vec![(0, 0), (0, 1)], 1);
    assert!(s.known_mines().is_empty());
    assert!(s.known_safes().is_empty());
}

#[test]
fn subset_difference_derives_rest() {
    let a = Sentence::new(vec![(0, 0), (0, 1), (0, 2)], 2);
    let b = Sentence::new(vec![(0, 0)], 1);
    assert!(b.is_subset_of(&a));
    assert!(!a.is_subset_of(&b));
    let d = a.difference(&b);
    assert!(d == Sentence::new(vec![(0, 2), (0, 1)], 1));
    assert_eq!(sorted(d.cells()), vec![(0, 1), (0, 2)]);
    assert_eq!(d.count(), 1);
}

#[test]
fn sentence_equality_ignores_order() {
    let a = Sentence::new(vec![(0, 0), (1, 1)], 1);
    assert!(a == Sentence::new(vec![(1, 1), (0, 0)], 1));
    assert!(a != Sentence::new(vec![(1, 1), (0, 0)], 2));
    assert!(a != Sentence::new(vec![(1, 1)], 1));
}

#[test]
fn sentence_mark_mine_and_safe() {
    let mut s = Sentence::new(vec![(0, 0), (0, 1), (0, 2)], 2);
    s.mark_mine((0, 1));
    assert_eq!(sorted(s.cells()), vec![(0, 0), (0, 2)]);
    assert_eq!(s.count(), 1);
    s.mark_mine((5, 5));
    assert_eq!(s.count(), 1);
    s.mark_safe((0, 0));
    assert_eq!(s.cells(), &vec![(0, 2)]);
    assert_eq!(s.count(), 1);
    assert_eq!(s.known_mines(), vec![(0, 2)]);
}

#[test]
fn zero_clue_marks_neighbours_safe() {
    let mut ai = MinesweeperAI::new(3, 3);
    assert_eq!(ai.add_knowledge((0, 0), 0), Ok(()));
    assert_eq!(sorted(ai.known_safes()), vec![(0, 0), (0, 1), (1, 0), (1, 1)]);
    assert!(ai.known_mines().is_empty());
    assert_eq!(ai.moves_made(), &vec![(0, 0)]);
}

fn clue_with_mine_at_2_2(c: Cell) -> usize {
    let (i, j) = c;
    if (i, j) != (2, 2) && i + 1 >= 2 && i <= 3 && j + 1 >= 2 && j <= 3 {
        1
    } else {
        0
    }
}

#[test]
fn mine_deduced_without_reveal() {
    // 3x3 board, one mine at (2, 2)
    let mut ai = MinesweeperAI::new(3, 3);
    assert_eq!(ai.add_knowledge((0, 0), 0), Ok(()));
    assert_eq!(sorted(ai.known_safes()), vec![(0, 0), (0, 1), (1, 0), (1, 1)]);
    let mut revealed = 1;
    while let Some(c) = ai.make_safe_move() {
        assert_ne!(c, (2, 2));
        assert_eq!(ai.add_knowledge(c, clue_with_mine_at_2_2(c)), Ok(()));
        revealed += 1;
    }
    assert_eq!(revealed, 8);
    assert_eq!(ai.known_mines(), &vec![(2, 2)]);
    assert!(!ai.moves_made().contains(&(2, 2)));
    assert_eq!(Sentence::new(vec![(2, 2)], 1).known_mines(), vec![(2, 2)]);
    assert_eq!(ai.make_random_move(), None);
}

#[test]
fn last_clue_leaves_single_mine_sentence() {
    // the clue of (1,1) alone, with its other neighbours known safe
    let mut ai = MinesweeperAI::new(3, 3);
    for c in [(0, 0), (0, 1), (0, 2), (1, 0), (1, 2), (2, 0), (2, 1)] {
        ai.mark_safe(c);
    }
    assert!(ai.knowledge().is_empty());
    assert_eq!(ai.add_knowledge((1, 1), 1), Ok(()));
    assert_eq!(ai.known_mines(), &vec![(2, 2)]);
    assert!(ai.knowledge().is_empty());
}

#[test]
fn marks_are_never_taken_back() {
    let mut ai = MinesweeperAI::new(3, 3);
    ai.add_knowledge((0, 0), 0).unwrap();
    let safes = ai.known_safes().clone();
    ai.add_knowledge((1, 1), 1).unwrap();
    ai.add_knowledge((0, 1), 0).unwrap();
    for c in &safes {
        assert!(ai.known_safes().contains(c));
    }
    let mines = ai.known_mines().clone();
    ai.add_knowledge((1, 0), 0).unwrap();
    for c in &mines {
        assert!(ai.known_mines().contains(c));
    }
}

#[test]
fn second_inference_changes_nothing() {
    let mut ai = MinesweeperAI::new(4, 4);
    ai.add_knowledge((0, 0), 1).unwrap();
    ai.add_knowledge((3, 3), 1).unwrap();
    let safes = ai.known_safes().clone();
    let mines = ai.known_mines().clone();
    let n = ai.knowledge().len();
    assert_eq!(ai.infer(), Ok(()));
    assert_eq!(ai.known_safes(), &safes);
    assert_eq!(ai.known_mines(), &mines);
    assert_eq!(ai.knowledge().len(), n);
}

#[test]
fn subset_rule_resolves_cells() {
    // 2x3 board, one mine at (1,0)
    let mut ai = MinesweeperAI::new(2, 3);
    ai.add_knowledge((0, 1), 1).unwrap();
    assert_eq!(ai.knowledge().len(), 1);
    assert_eq!(ai.knowledge()[0].cells().len(), 5);
    ai.add_knowledge((0, 0), 1).unwrap();
    // {(0,2),(1,0),(1,1),(1,2)} = 1 less {(1,0),(1,1)} = 1 leaves {(0,2),(1,2)} = 0
    assert!(ai.known_safes().contains(&(0, 2)));
    assert!(ai.known_safes().contains(&(1, 2)));
    assert!(ai.known_mines().is_empty());
    assert_eq!(ai.make_safe_move(), Some((0, 2)));
}

#[test]
fn repeated_sentences_are_pruned() {
    // as above: once (0,2) and (1,2) are safe, the clue of (0,1) shrinks to
    // {(1,0),(1,1)} = 1, which the clue of (0,0) already states
    let mut ai = MinesweeperAI::new(2, 3);
    ai.add_knowledge((0, 1), 1).unwrap();
    ai.add_knowledge((0, 0), 1).unwrap();
    assert_eq!(ai.knowledge().len(), 1);
    assert_eq!(sorted(ai.knowledge()[0].cells()), vec![(1, 0), (1, 1)]);
    assert_eq!(ai.knowledge()[0].count(), 1);
}

#[test]
fn cloned_sentence_keeps_its_statement() {
    let s = Sentence::new(vec![(0, 0), (0, 1)], 1);
    let t = s.clone();
    assert!(s == t);
    assert_eq!(t.cells(), &vec![(0, 0), (0, 1)]);
    assert_eq!(t.count(), 1);
}

#[test]
fn safe_move_is_first_in_row_major_order() {
    let mut ai = MinesweeperAI::new(3, 3);
    assert_eq!(ai.make_safe_move(), None);
    ai.add_knowledge((1, 1), 0).unwrap();
    assert_eq!(ai.make_safe_move(), Some((0, 0)));
    ai.add_knowledge((0, 0), 0).unwrap();
    assert_eq!(ai.make_safe_move(), Some((0, 1)));
}

#[test]
fn random_move_avoids_moves_and_mines() {
    let mut ai = MinesweeperAI::new(1, 3);
    ai.add_knowledge((0, 0), 1).unwrap();
    // (0,1) is now a known mine, so only (0,2) is open
    assert_eq!(ai.known_mines(), &vec![(0, 1)]);
    for _ in 0..20 {
        assert_eq!(ai.make_random_move(), Some((0, 2)));
    }
    assert_eq!(sorted(&ai.open_moves()), vec![(0, 2)]);
    ai.add_knowledge((0, 2), 1).unwrap();
    assert_eq!(ai.make_random_move(), None);
}

#[test]
fn random_move_stays_on_open_cells() {
    let mut ai = MinesweeperAI::new(4, 4);
    ai.mark_mine((3, 3));
    ai.add_knowledge((0, 0), 1).unwrap();
    for _ in 0..50 {
        let c = ai.make_random_move().unwrap();
        assert!(c.0 < 4 && c.1 < 4);
        assert!(!ai.moves_made().contains(&c));
        assert!(!ai.known_mines().contains(&c));
    }
}

#[test]
fn agent_mark_operations_update_sentences() {
    let mut ai = MinesweeperAI::new(3, 3);
    ai.add_knowledge((0, 0), 1).unwrap();
    assert_eq!(ai.knowledge().len(), 1);
    ai.mark_safe((0, 1));
    assert!(ai.known_safes().contains(&(0, 1)));
    assert_eq!(sorted(ai.knowledge()[0].cells()), vec![(1, 0), (1, 1)]);
    ai.mark_mine((1, 0));
    assert_eq!(ai.known_mines(), &vec![(1, 0)]);
    assert_eq!(ai.knowledge()[0].cells(), &vec![(1, 1)]);
    assert_eq!(ai.knowledge()[0].count(), 0);
}

#[test]
fn revealing_a_known_mine_is_refused() {
    let mut ai = MinesweeperAI::new(3, 3);
    ai.mark_mine((0, 0));
    assert_eq!(ai.add_knowledge((0, 0), 0), Err(Contradiction::RevealedMine));
}

#[test]
fn clue_below_known_mines_is_refused() {
    let mut ai = MinesweeperAI::new(3, 3);
    ai.mark_mine((0, 1));
    assert_eq!(ai.add_knowledge((0, 0), 0), Err(Contradiction::CountTooLow));
}

#[test]
fn clue_above_open_neighbours_is_refused() {
    let mut ai = MinesweeperAI::new(1, 2);
    assert_eq!(ai.add_knowledge((0, 0), 2), Err(Contradiction::CountTooHigh));
}

#[test]
fn contradictory_clues_are_refused() {
    let mut ai = MinesweeperAI::new(2, 3);
    assert_eq!(ai.add_knowledge((0, 0), 2), Ok(()));
    assert_eq!(ai.add_knowledge((0, 1), 1), Err(Contradiction::Conflict));
    for c in ai.known_safes() {
        assert!(!ai.known_mines().contains(c));
    }
}

#[test]
fn board_places_distinct_mines() {
    let game = Minesweeper::new(4, 5, 7);
    assert_eq!(game.height(), 4);
    assert_eq!(game.width(), 5);
    let mut mines = sorted(game.mines());
    mines.dedup();
    assert_eq!(mines.len(), 7);
    for i in 0..4 {
        for j in 0..5 {
            assert_eq!(game.is_mine((i, j)), mines.contains(&(i, j)));
        }
    }
    let full = Minesweeper::new(2, 2, 4);
    assert_eq!(sorted(full.mines()), vec![(0, 0), (0, 1), (1, 0), (1, 1)]);
    let none = Minesweeper::new(2, 2, 0);
    assert!(none.mines().is_empty());
}

#[test]
fn nearby_mines_counts_neighbours() {
    let game = Minesweeper::new(4, 4, 6);
    for i in 0..4usize {
        for j in 0..4usize {
            let mut expected = 0;
            for &(a, b) in game.mines() {
                if (a, b) != (i, j) && a + 1 >= i && a <= i + 1 && b + 1 >= j && b <= j + 1 {
                    expected += 1;
                }
            }
            assert_eq!(game.nearby_mines((i, j)), expected);
        }
    }
    let full = Minesweeper::new(3, 3, 9);
    assert_eq!(full.nearby_mines((1, 1)), 8);
    assert_eq!(full.nearby_mines((0, 0)), 3);
    assert_eq!(full.nearby_mines((2, 1)), 5);
}

#[test]
fn won_when_flags_match_mines() {
    let mut game = Minesweeper::new(3, 3, 2);
    assert!(!game.won());
    let mines = game.mines().clone();
    game.flag_mine(mines[1]);
    assert!(!game.won());
    game.flag_mine(mines[0]);
    game.flag_mine(mines[0]);
    assert!(game.won());
    assert_eq!(game.mines_found().len(), 2);
    assert!(Minesweeper::new(2, 2, 0).won());
}
