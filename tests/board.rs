use minesweeper::{BoardError, Cell, Minesweeper, OpenResult, Position};
use rand::Rng;

fn all_cells(board: &Minesweeper) -> Vec<Position> {
    let mut cells = Vec::new();
    for y in 0..board.height() {
        for x in 0..board.width() {
            cells.push((x, y));
        }
    }
    cells
}

fn count_mines(board: &Minesweeper) -> usize {
    all_cells(board).into_iter().filter(|&p| board.is_mine(p)).count()
}

fn render(board: &Minesweeper) -> String {
    let mut out = String::new();
    for y in 0..board.height() {
        for x in 0..board.width() {
            let glyph = match board.cell((x, y)).unwrap() {
                Cell::Hidden => "#".to_string(),
                Cell::Flagged => "F".to_string(),
                Cell::Mine => "*".to_string(),
                Cell::Safe(n) => n.to_string(),
            };
            out.push_str(&glyph);
        }
        out.push('\n');
    }
    out
}

#[test]
fn lib_test_ms() {
    let mut rng = rand::thread_rng();
    let mut ms = Minesweeper::new(10, 10, 10).unwrap();
    for _ in 0..10 {
        let r = ms.open((rng.gen_range(0..10), rng.gen_range(0..10)));
        assert!(r.is_ok());
    }
    println!("{}", render(&ms));
}

#[test]
fn minesweeper_test_ms() {
    let mut rng = rand::thread_rng();
    let mut ms = Minesweeper::new(10, 10, 10).unwrap();
    for i in 0..10 {
        let r = ms.open((rng.gen_range(0..10), rng.gen_range(0..10)));
        assert!(r.is_ok());
        if i % 2 == 0 {
            assert!(ms.toggle_flag((rng.gen_range(0..10), rng.gen_range(0..10))).is_ok());
        }
    }
    println!("{}", render(&ms));
}

#[test]
fn new_places_requested_mines() {
    for &(w, h, n) in &[(10, 10, 10), (4, 4, 15), (1, 5, 4), (7, 3, 0)] {
        let board = Minesweeper::new(w, h, n).unwrap();
        assert_eq!(board.width(), w);
        assert_eq!(board.height(), h);
        assert_eq!(board.mine_count(), n);
        assert_eq!(count_mines(&board), n);
        for p in all_cells(&board) {
            assert!(!board.is_open(p));
            assert!(!board.is_flagged(p));
        }
        assert!(!board.is_mine((w, 0)));
        assert!(!board.is_mine((0, h)));
    }
}

#[test]
fn new_draws_mines_at_random() {
    let mut seen_elsewhere = false;
    for _ in 0..40 {
        let board = Minesweeper::new(10, 10, 1).unwrap();
        if !board.is_mine((0, 0)) {
            seen_elsewhere = true;
        }
    }
    assert!(seen_elsewhere);
}

#[test]
fn new_rejects_empty_dimensions() {
    assert_eq!(Minesweeper::new(0, 3, 0).err(), Some(BoardError::InvalidDimensions));
    assert_eq!(Minesweeper::new(3, 0, 1).err(), Some(BoardError::InvalidDimensions));
    assert_eq!(Minesweeper::new(0, 0, 0).err(), Some(BoardError::InvalidDimensions));
}

#[test]
fn new_rejects_as_many_mines_as_cells() {
    assert_eq!(Minesweeper::new(2, 2, 4).err(), Some(BoardError::MineCountInfeasible));
    assert_eq!(Minesweeper::new(2, 2, 9).err(), Some(BoardError::MineCountInfeasible));
    assert_eq!(Minesweeper::new(1, 1, 1).err(), Some(BoardError::MineCountInfeasible));
    let board = Minesweeper::new(2, 2, 3).unwrap();
    assert_eq!(count_mines(&board), 3);
}

#[test]
fn single_cell_board() {
    let mut board = Minesweeper::new(1, 1, 0).unwrap();
    assert_eq!(board.open((0, 0)), Ok(Some(OpenResult::NoMine(0))));
    assert_eq!(board.neighbours((0, 0)), Ok(vec![]));
    assert!(board.is_open((0, 0)));
}

#[test]
fn three_by_three_without_mines() {
    let board = Minesweeper::new(3, 3, 0).unwrap();
    for p in all_cells(&board) {
        assert_eq!(board.neighbouring_mines(p), Ok(0));
    }
    assert_eq!(
        board.neighbours((1, 1)),
        Ok(vec![(0, 0), (0, 1), (0, 2), (1, 0), (1, 2), (2, 0), (2, 1), (2, 2)])
    );
}

#[test]
fn neighbour_counts_by_place() {
    let board = Minesweeper::new(5, 4, 0).unwrap();
    assert_eq!(board.neighbours((0, 0)), Ok(vec![(0, 1), (1, 0), (1, 1)]));
    assert_eq!(board.neighbours((4, 3)), Ok(vec![(3, 2), (3, 3), (4, 2)]));
    for p in all_cells(&board) {
        let ns = board.neighbours(p).unwrap();
        let col_edge = p.0 == 0 || p.0 == 4;
        let row_edge = p.1 == 0 || p.1 == 3;
        let expected = if col_edge && row_edge {
            3
        } else if col_edge || row_edge {
            5
        } else {
            8
        };
        assert_eq!(ns.len(), expected);
        assert!(!ns.contains(&p));
        for (i, q) in ns.iter().enumerate() {
            assert!(q.0 < 5 && q.1 < 4);
            assert!(q.0.abs_diff(p.0) <= 1 && q.1.abs_diff(p.1) <= 1);
            assert!(!ns[i + 1..].contains(q));
        }
    }
}

#[test]
fn neighbours_on_a_single_row() {
    let board = Minesweeper::new(4, 1, 0).unwrap();
    assert_eq!(board.neighbours((0, 0)), Ok(vec![(1, 0)]));
    assert_eq!(board.neighbours((2, 0)), Ok(vec![(1, 0), (3, 0)]));
}

#[test]
fn neighbouring_mines_counts_mined_neighbours() {
    for _ in 0..5 {
        let board = Minesweeper::new(4, 4, 12).unwrap();
        for p in all_cells(&board) {
            let expected = board
                .neighbours(p)
                .unwrap()
                .into_iter()
                .filter(|&q| board.is_mine(q))
                .count();
            let n = board.neighbouring_mines(p).unwrap();
            assert_eq!(n as usize, expected);
            assert!(n <= 8);
        }
    }
}

#[test]
fn neighbouring_mines_on_a_dense_board() {
    let board = Minesweeper::new(3, 3, 8).unwrap();
    let free = all_cells(&board).into_iter().find(|&p| !board.is_mine(p)).unwrap();
    let n = board.neighbours(free).unwrap().len();
    assert_eq!(board.neighbouring_mines(free), Ok(n as u8));
    if free == (1, 1) {
        assert_eq!(board.neighbouring_mines(free), Ok(8));
    }
}

#[test]
fn open_reports_mine_or_count() {
    let mut board = Minesweeper::new(3, 3, 5).unwrap();
    for p in all_cells(&board) {
        let expected = if board.is_mine(p) {
            OpenResult::Mine
        } else {
            OpenResult::NoMine(board.neighbouring_mines(p).unwrap())
        };
        assert_eq!(board.open(p), Ok(Some(expected)));
        assert!(board.is_open(p));
        assert_eq!(board.open(p), Ok(Some(expected)));
    }
}

#[test]
fn open_flagged_cell_is_refused() {
    let mut board = Minesweeper::new(5, 5, 0).unwrap();
    assert_eq!(board.toggle_flag((0, 0)), Ok(()));
    assert_eq!(board.open((0, 0)), Ok(None));
    for p in all_cells(&board) {
        assert!(!board.is_open(p));
        assert_eq!(board.is_flagged(p), p == (0, 0));
    }
}

#[test]
fn flag_on_open_cell_is_ignored() {
    let mut board = Minesweeper::new(5, 5, 0).unwrap();
    assert_eq!(board.open((2, 3)), Ok(Some(OpenResult::NoMine(0))));
    assert_eq!(board.toggle_flag((2, 3)), Ok(()));
    assert!(!board.is_flagged((2, 3)));
    assert!(board.is_open((2, 3)));
}

#[test]
fn toggle_twice_unflags() {
    let mut board = Minesweeper::new(5, 5, 3).unwrap();
    assert_eq!(board.toggle_flag((4, 4)), Ok(()));
    assert!(board.is_flagged((4, 4)));
    assert_eq!(board.toggle_flag((4, 4)), Ok(()));
    assert!(!board.is_flagged((4, 4)));
    assert_eq!(board.cell((4, 4)), Ok(Cell::Hidden));
}

#[test]
fn positions_off_the_board_are_errors() {
    let mut board = Minesweeper::new(5, 5, 2).unwrap();
    assert_eq!(board.open((5, 0)), Err(BoardError::OutOfBounds));
    assert_eq!(board.open((0, 5)), Err(BoardError::OutOfBounds));
    assert_eq!(board.toggle_flag((7, 7)), Err(BoardError::OutOfBounds));
    assert_eq!(board.neighbours((5, 5)), Err(BoardError::OutOfBounds));
    assert_eq!(board.neighbouring_mines((0, 9)), Err(BoardError::OutOfBounds));
    assert_eq!(board.cell((usize::MAX, 0)), Err(BoardError::OutOfBounds));
    assert!(!board.is_open((5, 0)));
    assert!(!board.is_flagged((7, 7)));
}

#[test]
fn cells_show_what_a_player_sees() {
    let mut board = Minesweeper::new(3, 3, 0).unwrap();
    assert_eq!(board.cell((0, 0)), Ok(Cell::Hidden));
    board.toggle_flag((0, 0)).unwrap();
    assert_eq!(board.cell((0, 0)), Ok(Cell::Flagged));
    board.open((1, 1)).unwrap();
    assert_eq!(board.cell((1, 1)), Ok(Cell::Safe(0)));

    let mut dense = Minesweeper::new(2, 2, 3).unwrap();
    let mine = all_cells(&dense).into_iter().find(|&p| dense.is_mine(p)).unwrap();
    let safe = all_cells(&dense).into_iter().find(|&p| !dense.is_mine(p)).unwrap();
    dense.open(mine).unwrap();
    dense.open(safe).unwrap();
    assert_eq!(dense.cell(mine), Ok(Cell::Mine));
    assert_eq!(dense.cell(safe), Ok(Cell::Safe(3)));
    assert_eq!(render(&dense).lines().count(), 2);
}

fn mined_cells(board: &Minesweeper) -> Vec<Position> {
    all_cells(board).into_iter().filter(|&p| board.is_mine(p)).collect()
}

#[test]
fn draws_take_free_cells_in_order() {
    let board = Minesweeper::with_draws(3, 3, &vec![0, 0, 0]).unwrap();
    assert_eq!(mined_cells(&board), vec![(0, 0), (1, 2), (2, 2)]);
    assert_eq!(board.mine_count(), 3);
}

#[test]
fn draws_wrap_around_the_free_cells() {
    let board = Minesweeper::with_draws(3, 3, &vec![10]).unwrap();
    assert_eq!(mined_cells(&board), vec![(1, 0)]);
    let board = Minesweeper::with_draws(3, 3, &vec![8, 7]).unwrap();
    assert_eq!(mined_cells(&board), vec![(1, 2), (2, 2)]);
}

#[test]
fn draws_rejected_like_new() {
    assert_eq!(
        Minesweeper::with_draws(2, 2, &vec![0, 0, 0, 0]).err(),
        Some(BoardError::MineCountInfeasible)
    );
    assert_eq!(
        Minesweeper::with_draws(0, 2, &vec![]).err(),
        Some(BoardError::InvalidDimensions)
    );
    let board = Minesweeper::with_draws(2, 2, &vec![5, 5, 5]).unwrap();
    assert_eq!(board.mine_count(), 3);
}

#[test]
fn counts_around_known_mines() {
    let board = Minesweeper::with_draws(3, 3, &vec![0, 0, 0]).unwrap();
    assert_eq!(board.neighbouring_mines((1, 1)), Ok(3));
    assert_eq!(board.neighbouring_mines((2, 1)), Ok(2));
    assert_eq!(board.neighbouring_mines((0, 1)), Ok(2));
    assert_eq!(board.neighbouring_mines((2, 0)), Ok(0));
    assert_eq!(board.neighbouring_mines((0, 0)), Ok(0));
}

#[test]
fn open_known_mine_and_safe_cells() {
    let mut board = Minesweeper::with_draws(3, 3, &vec![4]).unwrap();
    assert_eq!(board.open((0, 0)), Ok(Some(OpenResult::NoMine(1))));
    assert_eq!(board.open((1, 1)), Ok(Some(OpenResult::Mine)));
    assert_eq!(board.cell((1, 1)), Ok(Cell::Mine));
    assert_eq!(board.cell((2, 2)), Ok(Cell::Hidden));
    board.toggle_flag((2, 2)).unwrap();
    assert_eq!(board.open((2, 2)), Ok(None));
    assert!(!board.is_open((2, 2)));
    board.toggle_flag((2, 2)).unwrap();
    assert_eq!(board.open((2, 2)), Ok(Some(OpenResult::NoMine(1))));
}
