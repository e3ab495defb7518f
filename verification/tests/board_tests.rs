use minesweeper::{Board, BoardError};

fn build(width: usize, height: usize, mines: usize, seed: &str) -> Board {
    Board::new()
        .with_width(width)
        .with_height(height)
        .with_difficulty(mines)
        .with_seed(seed.to_string())
        .build()
        .unwrap()
}

/// Index of every `M` in a board view, counting cells only (newlines skipped).
fn mine_indices(view: &str) -> Vec<usize> {
    view.chars()
        .filter(|c| *c != '\n')
        .enumerate()
        .filter(|(_, c)| *c == 'M')
        .map(|(i, _)| i)
        .collect()
}

#[test]
fn build_is_deterministic_for_a_seed() {
    let mut a = build(3, 3, 1, "abc");
    let mut b = build(3, 3, 1, "abc");
    assert_eq!(a.export_state(), b.export_state());
    a.reveal_all();
    b.reveal_all();
    assert_eq!(a.export_board(), b.export_board());
    assert_eq!(mine_indices(&a.export_board()).len(), 1);
    assert_eq!(mine_indices(&a.export_board()), mine_indices(&b.export_board()));
}

#[test]
fn lost_only_after_the_mine_is_revealed() {
    let mut probe = build(3, 3, 1, "abc");
    probe.reveal_all();
    let mine = mine_indices(&probe.export_board())[0];

    let mut game = build(3, 3, 1, "abc");
    assert!(!game.lost());
    for i in 0..9 {
        if i != mine {
            game.reveal_by_index(i).unwrap();
            assert!(!game.lost());
        }
    }
    game.reveal_by_index(mine).unwrap();
    assert!(game.lost());
}

#[test]
fn neighbor_counts_on_a_full_minefield() {
    // With a mine in every cell, each neighbor count equals the cell's
    // number of neighbors: 3 in the corners, 5 on the edges, 8 inside.
    let mut b = build(3, 3, 9, "any");
    b.reveal_all();
    // All cells are mines, so the view shows `M` everywhere; read the
    // counts from the exported state rebuilt without mines instead.
    let cells: Vec<char> = b.export_board().chars().filter(|c| *c != '\n').collect();
    assert_eq!(cells, vec!['M'; 9]);
    let counts: Vec<u8> = b.cells.iter().map(|c| c.neighbors).collect();
    assert_eq!(counts, vec![3, 5, 3, 5, 8, 5, 3, 5, 3]);
}

#[test]
fn neighbor_count_sum_is_twice_the_adjacent_mine_pairs() {
    // On a full 2x2 minefield every pair of cells is adjacent: 6 pairs,
    // and each cell has 3 mine neighbors.
    let b = build(2, 2, 4, "xyz");
    let sum: u32 = b.cells.iter().map(|c| c.neighbors as u32).sum();
    assert_eq!(sum, 12);
    assert_eq!(sum, 2 * 6);
}

#[test]
fn state_round_trip_preserves_everything() {
    let mut b = build(4, 3, 3, "round-trip");
    b.flag(1, 1).unwrap();
    b.reveal_at(0, 0).unwrap();
    let state = b.export_state();
    let b2 = Board::from(state.clone()).unwrap();
    assert_eq!(b2.export_state(), state);
    assert_eq!(b2.width, b.width);
    assert_eq!(b2.height, b.height);
    assert_eq!(b2.mine_count, b.mine_count);
    assert_eq!(b2.seed, b.seed);
    assert_eq!(b2.export_board(), b.export_board());
}

#[test]
fn round_trip_with_a_generated_seed() {
    let mut b = Board::new().with_width(3).with_height(2).with_difficulty(2);
    let b = b.build().unwrap();
    assert!(!b.seed.is_empty());
    assert!(b.seed.chars().all(|c| !c.is_whitespace()));
    let state = b.export_state();
    let b2 = Board::from(state.clone()).unwrap();
    assert_eq!(b2.export_state(), state);
}

#[test]
fn exported_state_has_the_documented_shape() {
    let b = build(2, 1, 0, "s");
    assert_eq!(b.export_state(), "2 1 0\ns\n00 00\n");
}

#[test]
fn import_accepts_extra_whitespace() {
    let b = Board::from("  2   1  0\n\n s \n 00\t00 \n".to_string()).unwrap();
    assert_eq!(b.width, 2);
    assert_eq!(b.height, 1);
    assert_eq!(b.seed, "s");
}

#[test]
fn import_overlays_reveal_and_flag_bits() {
    let b = Board::from("2 2 0\nseed\n10 01 00 11 \n".to_string()).unwrap();
    assert!(b.cells[0].revealed && !b.cells[0].flag);
    assert!(!b.cells[1].revealed && b.cells[1].flag);
    assert!(!b.cells[2].revealed && !b.cells[2].flag);
    assert!(b.cells[3].revealed && b.cells[3].flag);
}

#[test]
fn import_defaults_unrecognized_tokens_to_hidden() {
    let b = Board::from("2 1 0\nseed\n7x 10 \n".to_string()).unwrap();
    assert!(!b.cells[0].revealed && !b.cells[0].flag);
    assert!(b.cells[1].revealed);
}

#[test]
fn reveal_of_a_nonzero_cell_is_idempotent() {
    // On a full minefield every cell has a nonzero neighbor count.
    let mut b = build(3, 3, 9, "idem");
    b.reveal_by_index(4).unwrap();
    let once = b.export_state();
    b.reveal_by_index(4).unwrap();
    assert_eq!(b.export_state(), once);
}

#[test]
fn flagging_twice_restores_the_original_state() {
    let mut b = build(3, 3, 2, "flags");
    let before = b.export_state();
    assert_eq!(b.flag(1, 2), Ok(true));
    assert_ne!(b.export_state(), before);
    assert_eq!(b.flag(1, 2), Ok(true));
    assert_eq!(b.export_state(), before);
}

#[test]
fn flagging_a_revealed_cell_is_rejected() {
    let mut b = build(3, 3, 9, "rej");
    b.reveal_by_index(0).unwrap();
    assert_eq!(b.flag_by_index(0), Ok(false));
}

#[test]
fn revealing_a_flagged_cell_is_rejected() {
    let mut b = build(3, 3, 9, "rej2");
    b.flag_by_index(0).unwrap();
    let before = b.export_state();
    assert_eq!(b.reveal_by_index(0), Ok(false));
    assert_eq!(b.export_state(), before);
}

#[test]
fn one_row_board_cascades_fully_and_is_won_at_once() {
    for start in 0..5 {
        let mut b = build(5, 1, 0, "row");
        assert!(b.won(), "no mines to flag, so the board is won from the start");
        b.reveal_at(start, 0).unwrap();
        assert_eq!(b.export_board(), "00000\n");
        assert!(!b.lost());
    }
}

fn adjacent(i: usize, j: usize, w: usize, h: usize) -> bool {
    i != j && i < w * h && j < w * h && (i / w).abs_diff(j / w) <= 1
        && (i % w).abs_diff(j % w) <= 1
}

#[test]
fn cascade_reveals_exactly_the_zero_closure_and_its_border() {
    // An 8x8 board with a few mines: revealing a zero-count cell must
    // uncover exactly the connected zero region around it plus the
    // numbered cells on its border, and nothing else.
    let (w, h) = (8, 8);
    let mut probe = build(w, h, 4, "closure");
    probe.reveal_all();
    let mines = mine_indices(&probe.export_board());
    let zero = (0..w * h)
        .find(|&i| !mines.contains(&i) && mines.iter().all(|&m| !adjacent(i, m, w, h)))
        .expect("a zero-count cell exists on a sparse board");

    // Reference closure: breadth-first search through zero-count cells.
    let mut expected = vec![false; w * h];
    let mut queue = vec![zero];
    expected[zero] = true;
    while let Some(c) = queue.pop() {
        for j in 0..w * h {
            if adjacent(c, j, w, h) && !expected[j] {
                expected[j] = true;
                if !mines.contains(&j) && mines.iter().all(|&m| !adjacent(j, m, w, h)) {
                    queue.push(j);
                }
            }
        }
    }

    let mut game = build(w, h, 4, "closure");
    game.reveal_by_index(zero).unwrap();
    let revealed: Vec<bool> = game
        .export_board()
        .chars()
        .filter(|c| *c != '\n')
        .map(|c| c != '.')
        .collect();
    assert_eq!(revealed, expected);
    assert!(!game.lost());
}

#[test]
fn revealing_a_mine_triggers_no_cascade() {
    // A lone mine has no adjacent mines, yet revealing it must not cascade:
    // only the mine itself becomes visible.
    let mut probe = build(3, 3, 1, "abc");
    probe.reveal_all();
    let mine = mine_indices(&probe.export_board())[0];
    let mut game = build(3, 3, 1, "abc");
    game.reveal_by_index(mine).unwrap();
    let visible: Vec<char> = game.export_board().chars().filter(|c| *c != '\n').collect();
    for (i, c) in visible.iter().enumerate() {
        if i == mine {
            assert_eq!(*c, 'M');
        } else {
            assert_eq!(*c, '.');
        }
    }
    assert!(game.lost());
}

#[test]
fn flood_fill_terminates_on_a_large_empty_board() {
    let mut b = build(40, 40, 0, "big");
    b.reveal_at(20, 20).unwrap();
    assert!(b.export_board().chars().all(|c| c == '0' || c == '\n'));
}

#[test]
fn won_requires_every_mine_flagged() {
    let mut probe = build(3, 3, 2, "win");
    probe.reveal_all();
    let mines = mine_indices(&probe.export_board());
    let mut game = build(3, 3, 2, "win");
    assert!(!game.won());
    game.flag_by_index(mines[0]).unwrap();
    assert!(!game.won());
    game.flag_by_index(mines[1]).unwrap();
    assert!(game.won());
}

#[test]
fn zero_dimension_is_rejected() {
    let mut b = Board::new().with_width(0).with_height(3).with_difficulty(0);
    assert_eq!(b.build().unwrap_err(), BoardError::BadDimensions);
    let mut b = Board::new().with_width(3).with_height(0).with_difficulty(0);
    assert_eq!(b.build().unwrap_err(), BoardError::BadDimensions);
}

#[test]
fn too_many_mines_are_rejected() {
    let mut b = Board::new().with_width(2).with_height(2).with_difficulty(5);
    assert_eq!(b.build().unwrap_err(), BoardError::TooManyMines);
}

#[test]
fn malformed_state_is_rejected() {
    assert_eq!(
        Board::from("".to_string()).unwrap_err(),
        BoardError::MalformedState
    );
    assert_eq!(
        Board::from("a b c\nseed\n".to_string()).unwrap_err(),
        BoardError::MalformedState
    );
    assert_eq!(
        Board::from("2 2 0\nseed\n00 00 \n".to_string()).unwrap_err(),
        BoardError::MalformedState,
        "wrong number of cell tokens"
    );
    assert_eq!(
        Board::from("2 2 0\nseed\n00 00 00 000 \n".to_string()).unwrap_err(),
        BoardError::MalformedState,
        "a cell token must be two characters"
    );
    assert_eq!(
        Board::from("0 2 1\nseed\n\n".to_string()).unwrap_err(),
        BoardError::BadDimensions
    );
    assert_eq!(
        Board::from("2 2 9\nseed\n00 00 00 00 \n".to_string()).unwrap_err(),
        BoardError::TooManyMines
    );
}

#[test]
fn out_of_range_coordinates_are_reported() {
    let mut b = build(3, 3, 1, "oob");
    assert_eq!(b.flag(3, 0), Err(BoardError::OutOfBounds));
    assert_eq!(b.reveal_at(0, 3), Err(BoardError::OutOfBounds));
    assert_eq!(b.flag_by_index(9), Err(BoardError::OutOfBounds));
    assert_eq!(b.reveal_by_index(100), Err(BoardError::OutOfBounds));
}

#[test]
fn sampled_mine_count_matches_the_budget() {
    for mines in 0..=6 {
        let mut b = build(3, 2, mines, "budget");
        b.reveal_all();
        assert_eq!(mine_indices(&b.export_board()).len(), mines);
    }
}

#[test]
fn different_seeds_change_the_layout() {
    // Not guaranteed for every pair of seeds, but these two differ; a
    // sampler that ignored its seed input entirely would fail here.
    let mut a = build(6, 6, 12, "left");
    let mut b = build(6, 6, 12, "right");
    a.reveal_all();
    b.reveal_all();
    assert_ne!(mine_indices(&a.export_board()), mine_indices(&b.export_board()));
}

#[test]
fn board_view_shows_flags_over_everything() {
    let mut b = build(2, 1, 0, "view");
    b.flag(0, 0).unwrap();
    b.reveal_at(1, 0).unwrap();
    assert_eq!(b.export_board(), "F0\n");
}
