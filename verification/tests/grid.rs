use connect_four::grid::{Color, Grid, COLS, ROWS};

#[test]
fn test_empty() {
    println!("{:?}", Grid::new());
}

#[test]
fn test_single() {
    let mut grid = Grid::new();
    grid.drop(0, Color::W);
    println!("{:?}", grid);
}

#[test]
fn test_column() {
    let mut grid = Grid::new();
    for _ in 0..ROWS {
        grid.drop(3, Color::B);
    }
    println!("{:?}", grid);
}

#[test]
fn test_checker() {
    let mut grid = Grid::new();
    for col in 0..COLS {
        for row in 0..ROWS {
            if (col + row) % 2 == 0 {
                grid.drop(col, Color::W);
            } else {
                grid.drop(col, Color::B);
            }
        }
    }
    println!("{:?}", grid);
}

#[test]
fn grid_get_after_drop() {
    let mut grid = Grid::new();
    grid.drop(2, Color::W);
    grid.drop(2, Color::B);
    assert_eq!(grid.get(0, 2), Some(Color::W));
    assert_eq!(grid.get(1, 2), Some(Color::B));
    assert_eq!(grid.get(2, 2), None);
    assert_eq!(grid.get(0, 3), None);
}

#[test]
fn grid_vertical_win() {
    let mut grid = Grid::new();
    for _ in 0..4 {
        grid.drop(5, Color::B);
    }
    assert_eq!(grid.is_winner(), Some(Color::B));
}

#[test]
fn grid_horizontal_win() {
    let mut grid = Grid::new();
    for col in 0..4 {
        grid.drop(col, Color::W);
    }
    assert_eq!(grid.is_winner(), Some(Color::W));
}

#[test]
fn grid_diagonal_win() {
    let mut grid = Grid::new();
    // Rising diagonal for white from (0,0) to (3,3).
    grid.drop(0, Color::W);
    grid.drop(1, Color::B);
    grid.drop(1, Color::W);
    grid.drop(2, Color::B);
    grid.drop(2, Color::B);
    grid.drop(2, Color::W);
    grid.drop(3, Color::B);
    grid.drop(3, Color::B);
    grid.drop(3, Color::B);
    grid.drop(3, Color::W);
    assert_eq!(grid.is_winner(), Some(Color::W));
}

#[test]
fn grid_no_winner() {
    let mut grid = Grid::new();
    grid.drop(0, Color::W);
    grid.drop(1, Color::B);
    grid.drop(2, Color::W);
    assert_eq!(grid.is_winner(), None);
}

#[test]
fn grid_counts_empty() {
    let grid = Grid::new();
    let counts = grid.counts();
    assert_eq!(counts.len(), 69);
    assert!(counts.iter().all(|&c| c == (0, 0)));
}

#[test]
fn grid_counts_mixed_window() {
    let mut grid = Grid::new();
    // Bottom row holds W B: every window containing both counts (0, 0).
    grid.drop(0, Color::W);
    grid.drop(1, Color::B);
    let counts = grid.counts();
    // First horizontal window covers the bottom row's columns 0..=3.
    assert_eq!(counts[0], (0, 0));
    // The window of column 0 rising vertically holds one white disc.
    assert_eq!(counts[24], (1, 0));
}

#[test]
fn grid_next_and_full() {
    let mut grid = Grid::new();
    for i in 0..6 {
        let color = if i % 2 == 0 { Color::W } else { Color::B };
        grid = grid.next(4, color).expect("column had room");
    }
    assert!(grid.next(4, Color::W).is_none());
    assert!(!grid.is_full());
    assert!(grid.next(0, Color::W).is_some());
}

#[test]
fn grid_is_full_complete() {
    let mut grid = Grid::new();
    for col in 0..COLS {
        for row in 0..ROWS {
            let color = if (col + 2 * row) % 3 == 0 { Color::W } else { Color::B };
            grid.drop(col, color);
        }
    }
    assert!(grid.is_full());
}
