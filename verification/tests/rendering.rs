use maze::{maze, render};
use maze::{DOWN, LEFT, RIGHT, UP};

const WALL: &str = "\u{2588}\u{2588}";
const GAP: &str = "  ";

fn line(pieces: &[&str]) -> String {
    let mut text = String::new();
    for piece in pieces {
        text.push_str(piece);
    }
    text.push('\n');
    text
}

#[test]
fn render_of_one_cell() {
    let expected = line(&[WALL, GAP, WALL]) + &line(&[WALL, GAP, WALL]) + &line(&[WALL, WALL, WALL]);
    assert_eq!(render(&vec![vec![DOWN]]), expected);
    assert_eq!(render(&maze(1, 1)), expected);
}

#[test]
fn render_of_two_cells_in_a_row() {
    let expected = line(&[WALL, GAP, WALL, WALL, WALL])
        + &line(&[WALL, GAP, GAP, GAP, WALL])
        + &line(&[WALL, WALL, WALL, WALL, WALL]);
    assert_eq!(render(&maze(2, 1)), expected);
}

#[test]
fn render_of_a_square_maze() {
    let grid = vec![vec![DOWN | UP, UP], vec![DOWN | RIGHT, LEFT | DOWN]];
    let expected = line(&[WALL, GAP, WALL, WALL, WALL])
        + &line(&[WALL, GAP, WALL, GAP, WALL])
        + &line(&[WALL, GAP, WALL, GAP, WALL])
        + &line(&[WALL, GAP, GAP, GAP, WALL])
        + &line(&[WALL, WALL, WALL, WALL, WALL]);
    assert_eq!(render(&grid), expected);
}

#[test]
fn render_of_a_blank_cell_is_closed() {
    let expected =
        line(&[WALL, WALL, WALL]) + &line(&[WALL, GAP, WALL]) + &line(&[WALL, WALL, WALL]);
    assert_eq!(render(&vec![vec![0]]), expected);
}

#[test]
fn render_opens_the_corner_past_a_right_passage() {
    let expected = line(&[WALL, WALL, GAP]) + &line(&[GAP, GAP, WALL]) + &line(&[WALL, WALL, WALL]);
    assert_eq!(render(&vec![vec![RIGHT | LEFT]]), expected);
}

#[test]
fn render_ignores_the_up_bit() {
    assert_eq!(render(&vec![vec![UP]]), render(&vec![vec![0]]));
}

#[test]
fn render_sizes_the_border_by_the_first_row() {
    let grid = vec![vec![0, 0], vec![0]];
    let expected = line(&[WALL, WALL, WALL, WALL, WALL])
        + &line(&[WALL, GAP, WALL, GAP, WALL])
        + &line(&[WALL, WALL, WALL])
        + &line(&[WALL, GAP, WALL])
        + &line(&[WALL, WALL, WALL, WALL, WALL]);
    assert_eq!(render(&grid), expected);
}

#[test]
fn render_twice_gives_the_same_text() {
    let grid = maze(7, 5);
    let before = grid.clone();
    let first = render(&grid);
    let second = render(&grid);
    assert_eq!(first, second);
    assert_eq!(grid, before);
}

#[test]
fn render_has_two_lines_to_a_row_and_a_border() {
    let text = render(&maze(6, 4));
    let lines: Vec<&str> = text.lines().collect();
    assert_eq!(lines.len(), 2 * 4 + 1);
    for row in &lines {
        assert_eq!(row.chars().count(), 4 * 6 + 2);
    }
    assert!(text.ends_with('\n'));
    assert!(lines[8].chars().all(|glyph| glyph == '\u{2588}'));
}
