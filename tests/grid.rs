use tetris_maya::cube::Cube;
use tetris_maya::grid::Grid;
use tetris_maya::point::{Point, Turn};
use tetris_maya::scene::{Command, CommandLog, Move, Scene};
use tetris_maya::tetrimino::{Tetrimino, TetriminoLetter};

fn names(prefix: &str) -> [String; 4] {
    [
        format!("{}0", prefix),
        format!("{}1", prefix),
        format!("{}2", prefix),
        format!("{}3", prefix),
    ]
}

/// A piece named after `prefix`, with its cubes and anchor recorded in `scene`.
fn piece(scene: &mut Scene, prefix: &str, letter: TetriminoLetter, at: [(i32, i32); 4], root: (i32, i32)) -> Tetrimino {
    let cube_names = names(prefix);
    for i in 0..4 {
        scene.set_position(cube_names[i].clone(), Point::new(at[i].0, at[i].1));
    }
    let root_name = format!("{}root", prefix);
    scene.set_position(root_name.clone(), Point::new(root.0, root.1));
    Tetrimino::new(letter, root_name, cube_names)
}

/// Freezes a piece with cubes at `at` into `grid`.
fn freeze(grid: &mut Grid, scene: &mut Scene, prefix: &str, at: [(i32, i32); 4]) {
    let t = piece(scene, prefix, TetriminoLetter::T, at, at[0]);
    grid.set_active_tetrimino(t);
    grid.py_update_cells(scene);
}

/// Fills row `y` completely with cubes named after `prefix`.
fn fill_row(grid: &mut Grid, scene: &mut Scene, prefix: &str, y: i32) {
    freeze(grid, scene, &format!("{}a", prefix), [(0, y), (1, y), (2, y), (3, y)]);
    freeze(grid, scene, &format!("{}b", prefix), [(4, y), (5, y), (6, y), (7, y)]);
    freeze(grid, scene, &format!("{}c", prefix), [(8, y), (9, y), (9, y), (9, y)]);
}

fn row_contents(grid: &Grid, y: usize) -> Vec<Option<String>> {
    (0..10).map(|x| grid.cell(x, y)).collect()
}

fn translate(names: &[&str], x: i32, y: i32, mode: Move) -> Command {
    Command::Translate { names: names.iter().map(|n| n.to_string()).collect(), x, y, mode }
}

#[test]
fn is_inside_grid_accepts_exactly_the_playfield() {
    assert!(Grid::is_inside_grid(&Point::new(0, 0)));
    assert!(Grid::is_inside_grid(&Point::new(9, 0)));
    assert!(Grid::is_inside_grid(&Point::new(0, 19)));
    assert!(Grid::is_inside_grid(&Point::new(9, 19)));
    assert!(Grid::is_inside_grid(&Point::new(4, 10)));
    assert!(!Grid::is_inside_grid(&Point::new(-1, 0)));
    assert!(!Grid::is_inside_grid(&Point::new(10, 0)));
    assert!(!Grid::is_inside_grid(&Point::new(0, -1)));
    assert!(!Grid::is_inside_grid(&Point::new(0, 20)));
    assert!(!Grid::is_inside_grid(&Point::new(i32::MIN, i32::MAX)));
}

#[test]
fn new_grid_is_empty() {
    let grid = Grid::new();
    for y in 0..20 {
        assert!(row_contents(&grid, y).iter().all(|c| c.is_none()));
    }
    assert!(grid.get_active_tetrimino().is_none());
}

#[test]
fn move_without_active_piece_does_nothing() {
    let grid = Grid::new();
    let scene = Scene::new();
    let mut log = CommandLog::new();
    assert!(!grid.py_move(0, -1, &scene, &mut log));
    assert!(!grid.py_rotate(Turn::Left, &scene, &mut log));
    assert!(!grid.py_inplace_collision(&scene));
    assert!(log.commands().is_empty());
}

#[test]
fn move_translates_the_anchor() {
    let mut grid = Grid::new();
    let mut scene = Scene::new();
    let t = piece(&mut scene, "p", TetriminoLetter::L, [(4, 10), (4, 11), (4, 12), (5, 10)], (4, 11));
    grid.set_active_tetrimino(t);
    let mut log = CommandLog::new();
    assert!(grid.py_move(-1, -2, &scene, &mut log));
    assert_eq!(log.commands(), &vec![translate(&["proot"], -1, -2, Move::Relative), Command::Refresh]);
}

#[test]
fn move_off_the_playfield_is_refused() {
    let mut grid = Grid::new();
    let mut scene = Scene::new();
    let t = piece(&mut scene, "p", TetriminoLetter::L, [(0, 0), (0, 1), (0, 2), (1, 0)], (0, 1));
    grid.set_active_tetrimino(t);
    let mut log = CommandLog::new();
    assert!(!grid.py_move(-1, 0, &scene, &mut log));
    assert!(!grid.py_move(0, -1, &scene, &mut log));
    assert!(log.commands().is_empty());
    assert!(grid.py_move(1, 0, &scene, &mut log));
}

#[test]
fn move_onto_a_frozen_cube_is_refused() {
    let mut grid = Grid::new();
    let mut scene = Scene::new();
    freeze(&mut grid, &mut scene, "x", [(4, 0), (4, 0), (4, 0), (4, 0)]);
    let t = piece(&mut scene, "p", TetriminoLetter::I, [(4, 1), (4, 2), (4, 3), (4, 4)], (4, 2));
    grid.set_active_tetrimino(t);
    let mut log = CommandLog::new();
    assert!(!grid.py_move(0, -1, &scene, &mut log));
    assert!(log.commands().is_empty());
}

#[test]
fn square_piece_never_rotates() {
    let mut grid = Grid::new();
    let mut scene = Scene::new();
    let t = piece(&mut scene, "o", TetriminoLetter::O, [(4, 10), (5, 10), (4, 11), (5, 11)], (4, 10));
    grid.set_active_tetrimino(t);
    let mut log = CommandLog::new();
    assert!(!grid.py_rotate(Turn::Left, &scene, &mut log));
    assert!(!grid.py_rotate(Turn::Right, &scene, &mut log));
    assert!(log.commands().is_empty());
}

#[test]
fn piece_never_collides_with_itself() {
    let mut grid = Grid::new();
    let mut scene = Scene::new();
    let at = [(3, 0), (4, 0), (5, 0), (4, 1)];
    let t = piece(&mut scene, "p", TetriminoLetter::T, at, (4, 0));
    grid.set_active_tetrimino(t);
    assert!(!grid.py_inplace_collision(&scene));
    grid.py_update_cells(&scene);
    assert!(!grid.py_inplace_collision(&scene));
    let t = grid.get_active_tetrimino().as_ref().unwrap();
    assert!(grid.can_move_to(t, &Point::new(0, 0), &scene));
    assert!(!grid.inplace_collision(t, &scene));
}

#[test]
fn piece_collides_with_other_cubes() {
    let mut grid = Grid::new();
    let mut scene = Scene::new();
    freeze(&mut grid, &mut scene, "x", [(4, 1), (4, 1), (4, 1), (4, 1)]);
    let t = piece(&mut scene, "p", TetriminoLetter::T, [(3, 0), (4, 0), (5, 0), (4, 1)], (4, 0));
    grid.set_active_tetrimino(t);
    assert!(grid.py_inplace_collision(&scene));
}

#[test]
fn update_cells_records_the_four_cells() {
    let mut grid = Grid::new();
    let mut scene = Scene::new();
    let t = piece(&mut scene, "p", TetriminoLetter::S, [(0, 0), (1, 0), (1, 1), (2, 1)], (1, 0));
    grid.set_active_tetrimino(t);
    grid.py_update_cells(&scene);
    let mut occupied = Vec::new();
    for y in 0..20 {
        for x in 0..10 {
            if let Some(name) = grid.cell(x, y) {
                occupied.push((x, y, name));
            }
        }
    }
    assert_eq!(
        occupied,
        vec![
            (0, 0, "p0".to_string()),
            (1, 0, "p1".to_string()),
            (1, 1, "p2".to_string()),
            (2, 1, "p3".to_string()),
        ]
    );
}

#[test]
fn update_cells_without_active_piece_changes_nothing() {
    let mut grid = Grid::new();
    let scene = Scene::new();
    grid.py_update_cells(&scene);
    assert!(row_contents(&grid, 0).iter().all(|c| c.is_none()));
}

#[test]
fn rotation_in_open_space() {
    let mut grid = Grid::new();
    let mut scene = Scene::new();
    let t = piece(&mut scene, "p", TetriminoLetter::T, [(3, 10), (4, 10), (5, 10), (4, 11)], (4, 10));
    grid.set_active_tetrimino(t);
    let mut log = CommandLog::new();
    assert!(grid.py_rotate(Turn::Left, &scene, &mut log));
    assert_eq!(
        log.commands(),
        &vec![
            translate(&["p0"], 4, 9, Move::Absolute),
            translate(&["p1"], 4, 10, Move::Absolute),
            translate(&["p2"], 4, 11, Move::Absolute),
            translate(&["p3"], 3, 10, Move::Absolute),
            translate(&["proot"], 0, 0, Move::Relative),
            Command::Refresh,
        ]
    );
}

#[test]
fn rotation_off_the_wall_is_pushed_back() {
    let mut grid = Grid::new();
    let mut scene = Scene::new();
    let t = piece(&mut scene, "p", TetriminoLetter::I, [(0, 4), (0, 5), (0, 6), (0, 7)], (0, 5));
    grid.set_active_tetrimino(t);
    let mut log = CommandLog::new();
    assert!(grid.py_rotate(Turn::Left, &scene, &mut log));
    assert_eq!(
        log.commands(),
        &vec![
            translate(&["p0"], 1, 5, Move::Absolute),
            translate(&["p1"], 0, 5, Move::Absolute),
            translate(&["p2"], -1, 5, Move::Absolute),
            translate(&["p3"], -2, 5, Move::Absolute),
            translate(&["proot"], 2, 0, Move::Relative),
            Command::Refresh,
        ]
    );
}

#[test]
fn blocked_rotation_takes_the_first_free_nudge() {
    let mut grid = Grid::new();
    let mut scene = Scene::new();
    freeze(&mut grid, &mut scene, "x", [(0, 5), (0, 5), (0, 5), (0, 5)]);
    let t = piece(&mut scene, "p", TetriminoLetter::I, [(1, 4), (1, 5), (1, 6), (1, 7)], (1, 5));
    grid.set_active_tetrimino(t);
    let mut log = CommandLog::new();
    assert!(grid.py_rotate(Turn::Left, &scene, &mut log));
    assert_eq!(
        log.commands(),
        &vec![
            translate(&["p0"], 2, 5, Move::Absolute),
            translate(&["p1"], 1, 5, Move::Absolute),
            translate(&["p2"], 0, 5, Move::Absolute),
            translate(&["p3"], -1, 5, Move::Absolute),
            translate(&["proot"], 2, 0, Move::Relative),
            Command::Refresh,
        ]
    );
}

#[test]
fn rotation_blocked_everywhere_fails_without_commands() {
    let mut grid = Grid::new();
    let mut scene = Scene::new();
    freeze(&mut grid, &mut scene, "x", [(0, 5), (4, 5), (4, 5), (4, 5)]);
    let t = piece(&mut scene, "p", TetriminoLetter::I, [(1, 4), (1, 5), (1, 6), (1, 7)], (1, 5));
    grid.set_active_tetrimino(t);
    let mut log = CommandLog::new();
    assert!(!grid.py_rotate(Turn::Left, &scene, &mut log));
    assert!(log.commands().is_empty());
}

#[test]
fn clearing_one_full_row() {
    let mut grid = Grid::new();
    let mut scene = Scene::new();
    freeze(&mut grid, &mut scene, "low", [(0, 1), (2, 1), (2, 1), (2, 1)]);
    fill_row(&mut grid, &mut scene, "r", 2);
    freeze(&mut grid, &mut scene, "high", [(5, 3), (5, 3), (5, 3), (5, 3)]);
    let below = row_contents(&grid, 1);
    let above = row_contents(&grid, 3);
    let mut log = CommandLog::new();
    assert_eq!(grid.py_process_completed_rows(&mut log), 1);
    assert_eq!(row_contents(&grid, 1), below);
    assert_eq!(row_contents(&grid, 2), above);
    assert_eq!(grid.cell(5, 2), Some("high3".to_string()));
    for y in 3..20 {
        assert!(row_contents(&grid, y).iter().all(|c| c.is_none()));
    }
    let row_names = ["ra0", "ra1", "ra2", "ra3", "rb0", "rb1", "rb2", "rb3", "rc0", "rc3"];
    assert_eq!(
        log.commands(),
        &vec![
            Command::Delete { names: row_names.iter().map(|n| n.to_string()).collect() },
            translate(&["high3"], 0, -1, Move::Relative),
            Command::Refresh,
        ]
    );
}

#[test]
fn partial_rows_come_down_past_two_cleared_rows() {
    let mut grid = Grid::new();
    let mut scene = Scene::new();
    fill_row(&mut grid, &mut scene, "r", 4);
    fill_row(&mut grid, &mut scene, "s", 5);
    freeze(&mut grid, &mut scene, "p", [(1, 6), (3, 6), (3, 7), (8, 9)]);
    let mut log = CommandLog::new();
    assert_eq!(grid.py_process_completed_rows(&mut log), 2);
    assert_eq!(grid.cell(1, 4), Some("p0".to_string()));
    assert_eq!(grid.cell(3, 4), Some("p1".to_string()));
    assert_eq!(grid.cell(3, 5), Some("p2".to_string()));
    assert_eq!(grid.cell(8, 7), Some("p3".to_string()));
    let mut occupied = 0;
    for y in 0..20 {
        occupied += row_contents(&grid, y).iter().filter(|c| c.is_some()).count();
    }
    assert_eq!(occupied, 4);
}

#[test]
fn full_top_row_is_cleared() {
    let mut grid = Grid::new();
    let mut scene = Scene::new();
    freeze(&mut grid, &mut scene, "low", [(3, 0), (3, 0), (3, 0), (3, 0)]);
    fill_row(&mut grid, &mut scene, "t", 19);
    let mut log = CommandLog::new();
    assert_eq!(grid.py_process_completed_rows(&mut log), 1);
    assert!(row_contents(&grid, 19).iter().all(|c| c.is_none()));
    assert_eq!(grid.cell(3, 0), Some("low3".to_string()));
    let names = ["ta0", "ta1", "ta2", "ta3", "tb0", "tb1", "tb2", "tb3", "tc0", "tc3"];
    assert_eq!(
        log.commands(),
        &vec![Command::Delete { names: names.iter().map(|n| n.to_string()).collect() }, Command::Refresh]
    );
}

#[test]
fn two_full_rows_at_the_top_are_cleared() {
    let mut grid = Grid::new();
    let mut scene = Scene::new();
    fill_row(&mut grid, &mut scene, "r", 18);
    fill_row(&mut grid, &mut scene, "s", 19);
    let mut log = CommandLog::new();
    assert_eq!(grid.py_process_completed_rows(&mut log), 2);
    for y in 0..20 {
        assert!(row_contents(&grid, y).iter().all(|c| c.is_none()));
    }
}

#[test]
fn clearing_two_adjacent_full_rows() {
    let mut grid = Grid::new();
    let mut scene = Scene::new();
    freeze(&mut grid, &mut scene, "low", [(7, 0), (7, 0), (7, 0), (7, 0)]);
    fill_row(&mut grid, &mut scene, "r", 1);
    fill_row(&mut grid, &mut scene, "s", 2);
    let below = row_contents(&grid, 0);
    let mut log = CommandLog::new();
    assert_eq!(grid.py_process_completed_rows(&mut log), 2);
    assert_eq!(row_contents(&grid, 0), below);
    for y in 1..20 {
        assert!(row_contents(&grid, y).iter().all(|c| c.is_none()));
    }
    let r: Vec<String> = ["ra0", "ra1", "ra2", "ra3", "rb0", "rb1", "rb2", "rb3", "rc0", "rc3"]
        .iter()
        .map(|n| n.to_string())
        .collect();
    let s: Vec<String> = ["sa0", "sa1", "sa2", "sa3", "sb0", "sb1", "sb2", "sb3", "sc0", "sc3"]
        .iter()
        .map(|n| n.to_string())
        .collect();
    assert_eq!(
        log.commands(),
        &vec![
            Command::Delete { names: r },
            Command::Translate { names: s.clone(), x: 0, y: -1, mode: Move::Relative },
            Command::Refresh,
            Command::Delete { names: s },
            Command::Refresh,
        ]
    );
}

#[test]
fn no_full_row_clears_nothing() {
    let mut grid = Grid::new();
    let mut scene = Scene::new();
    freeze(&mut grid, &mut scene, "x", [(0, 0), (1, 0), (2, 0), (3, 0)]);
    let before: Vec<_> = (0..20).map(|y| row_contents(&grid, y)).collect();
    let mut log = CommandLog::new();
    assert_eq!(grid.py_process_completed_rows(&mut log), 0);
    let after: Vec<_> = (0..20).map(|y| row_contents(&grid, y)).collect();
    assert_eq!(before, after);
    assert!(log.commands().is_empty());
}

#[test]
fn rows_come_down_over_a_cleared_row() {
    let mut grid = Grid::new();
    let mut scene = Scene::new();
    fill_row(&mut grid, &mut scene, "r", 0);
    freeze(&mut grid, &mut scene, "gap", [(0, 1), (0, 1), (0, 1), (0, 1)]);
    fill_row(&mut grid, &mut scene, "s", 2);
    let mut log = CommandLog::new();
    let mut down = CommandLog::new();
    assert!(grid.is_row_complete(0));
    assert!(!grid.is_row_complete(1));
    assert!(grid.move_down_rows(0, &mut down));
    assert_eq!(grid.cell(0, 0), Some("gap3".to_string()));
    assert!(row_contents(&grid, 0)[1..].iter().all(|c| c.is_none()));
    assert!(row_contents(&grid, 19).iter().all(|c| c.is_none()));
    assert!(grid.is_row_complete(1));
    assert_eq!(grid.cell(0, 1), Some("sa0".to_string()));
    assert_eq!(grid.py_process_completed_rows(&mut log), 1);
}

#[test]
fn scene_keeps_the_last_position() {
    let mut scene = Scene::new();
    scene.set_position("a".to_string(), Point::new(1, 2));
    scene.set_position("b".to_string(), Point::new(3, 4));
    scene.set_position("a".to_string(), Point::new(5, 6));
    assert_eq!(scene.position(&"a".to_string()), Some(Point::new(5, 6)));
    assert_eq!(scene.position(&"b".to_string()), Some(Point::new(3, 4)));
    assert_eq!(scene.position(&"c".to_string()), None);
}

#[test]
fn cube_reads_and_moves_through_the_scene() {
    let mut scene = Scene::new();
    scene.set_position("c".to_string(), Point::new(2, 3));
    let cube = Cube::new("c".to_string());
    assert_eq!(cube.get_position(&scene), Point::new(2, 3));
    assert!(cube == Cube::new("c".to_string()));
    assert!(cube != Cube::new("d".to_string()));
    let mut log = CommandLog::new();
    cube.move_to(Point::new(7, 8), Move::Absolute, &mut log);
    assert_eq!(log.take(), vec![translate(&["c"], 7, 8, Move::Absolute)]);
    assert!(log.commands().is_empty());
}

#[test]
fn tetrimino_reads_its_positions() {
    let mut scene = Scene::new();
    let t = piece(&mut scene, "p", TetriminoLetter::J, [(1, 2), (3, 4), (5, 6), (7, 8)], (9, 10));
    assert_eq!(t.root(), "proot".to_string());
    assert_eq!(t.get_root_position(&scene), Point::new(9, 10));
    assert_eq!(
        t.get_cube_positions(&scene),
        [Point::new(1, 2), Point::new(3, 4), Point::new(5, 6), Point::new(7, 8)]
    );
}

#[test]
fn letter_names() {
    assert_eq!(TetriminoLetter::T.name(), "T");
    assert_eq!(TetriminoLetter::O.name(), "O");
    assert_eq!(TetriminoLetter::L.name(), "L");
    assert_eq!(TetriminoLetter::J.name(), "J");
    assert_eq!(TetriminoLetter::Z.name(), "Z");
    assert_eq!(TetriminoLetter::S.name(), "S");
    assert_eq!(TetriminoLetter::I.name(), "I");
}
