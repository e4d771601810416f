// Tests drive the library against an independent, straightforward
// grid-based simulation: a mutable grid of cell colors, updated in place,
// which the replay-based design deliberately avoids.  Both must produce
// identical observable results.

use langton::ant::Ant;
use langton::direction::Direction;

/// Independent reference simulation with an explicit color grid.
struct RefSim {
    history: Vec<bool>,
    black: isize,
    grid: Vec<Vec<bool>>,    // true = currently black
    visited: Vec<Vec<bool>>, // true = ever occupied
}

fn ref_run(size: usize, max_steps: Option<usize>) -> RefSim {
    let mut grid = vec![vec![false; size]; size];
    let mut visited = vec![vec![false; size]; size];
    let mut history: Vec<bool> = Vec::new();
    let mut black: isize = 0;
    let mut row = (size / 2) as isize;
    let mut col = (size / 2) as isize;
    let mut dir: u8 = 0; // 0 = up, 1 = right, 2 = down, 3 = left
    loop {
        if let Some(m) = max_steps {
            if history.len() == m {
                break;
            }
        }
        let (r, c) = (row as usize, col as usize);
        visited[r][c] = true;
        let was_white = !grid[r][c];
        if was_white {
            black += 1;
        } else {
            black -= 1;
        }
        grid[r][c] = was_white;
        history.push(was_white);
        dir = if was_white { (dir + 1) % 4 } else { (dir + 3) % 4 };
        match dir {
            0 => row -= 1,
            1 => col += 1,
            2 => row += 1,
            _ => col -= 1,
        }
        if row < 0 || col < 0 || row >= size as isize || col >= size as isize {
            break;
        }
    }
    RefSim { history, black, grid, visited }
}

#[test]
fn turn_four_times_restores_orientation() {
    let dirs = [Direction::Up, Direction::Right, Direction::Down, Direction::Left];
    for clockwise in [true, false] {
        for d in dirs {
            let mut turned = d;
            for _ in 0..4 {
                turned.turn(clockwise);
            }
            assert_eq!(turned, d);
        }
    }
}

#[test]
fn turn_single_steps() {
    let mut d = Direction::Up;
    d.turn(true);
    assert_eq!(d, Direction::Right);
    d.turn(true);
    assert_eq!(d, Direction::Down);
    d.turn(true);
    assert_eq!(d, Direction::Left);
    d.turn(true);
    assert_eq!(d, Direction::Up);
    d.turn(false);
    assert_eq!(d, Direction::Left);
    d.turn(false);
    assert_eq!(d, Direction::Down);
}

#[test]
fn new_agent_defaults() {
    let a = Ant::new();
    assert_eq!(a.size, 1024);
    assert_eq!(a.position, (512, 512));
    assert_eq!(a.black_pixel_num, 0);
    assert_eq!(a.path.len(), 0);
    assert!(matches!(a.direction, Direction::Up));
}

#[test]
fn first_step_from_default_grid() {
    // Starting orientation Up, first observed color white: the first turn
    // is clockwise (to Right), the counter goes to 1, the history becomes
    // [true], and the agent moves one column right of the center.
    let mut a = Ant::new();
    let on_grid = a.step();
    assert!(on_grid);
    assert_eq!(a.path, vec![true]);
    assert_eq!(a.black_pixel_num, 1);
    assert!(matches!(a.direction, Direction::Right));
    assert_eq!(a.position, (512, 513));
}

#[test]
fn fresh_agent_color_query() {
    let a = Ant::new();
    // With no history the running answer is its seed: true only at the
    // start cell.
    assert!(a.is_white(&(512, 512)));
    assert!(!a.is_white(&(0, 0)));
    assert!(!a.is_white(&(512, 513)));
}

#[test]
fn color_query_after_one_step() {
    let mut a = Ant::new();
    a.step();
    // The walker's own position toggles the answer once more.
    assert!(a.is_white(&(512, 513)));
    // The start cell: seeded true, never toggled by the single replayed
    // step, so the query still answers true even though the cell under
    // the departed agent is black.
    assert!(a.is_white(&(512, 512)));
}

#[test]
fn one_step_moves_and_detects_the_boundary() {
    let mut c = (5usize, 5usize);
    assert!(Ant::one_step(8, &mut c, &Direction::Up));
    assert_eq!(c, (4, 5));
    assert!(Ant::one_step(8, &mut c, &Direction::Right));
    assert_eq!(c, (4, 6));
    assert!(Ant::one_step(8, &mut c, &Direction::Down));
    assert_eq!(c, (5, 6));
    assert!(Ant::one_step(8, &mut c, &Direction::Left));
    assert_eq!(c, (5, 5));

    let mut top = (0usize, 3usize);
    assert!(!Ant::one_step(8, &mut top, &Direction::Up));
    let mut left = (3usize, 0usize);
    assert!(!Ant::one_step(8, &mut left, &Direction::Left));
    let mut bottom = (7usize, 3usize);
    assert!(!Ant::one_step(8, &mut bottom, &Direction::Down));
    let mut right = (3usize, 7usize);
    assert!(!Ant::one_step(8, &mut right, &Direction::Right));
}

#[test]
fn hand_traced_four_steps_on_tiny_grid() {
    // On a 4 x 4 grid the agent starts at (2, 2) facing Up.  All four
    // first cells are white, so it turns clockwise each time and walks a
    // small square: (2,2) -> (2,3) -> (3,3) -> (3,2) -> back to (2,2).
    let mut a = Ant::with_size(4);
    for expected in [(2, 3), (3, 3), (3, 2), (2, 2)] {
        let on_grid = a.step();
        assert!(on_grid);
        assert_eq!(a.position, expected);
    }
    assert_eq!(a.path, vec![true, true, true, true]);
    assert_eq!(a.black_pixel_num, 4);
    assert!(matches!(a.direction, Direction::Up));
    let row2 = a.visited_pixels(2);
    let row3 = a.visited_pixels(3);
    assert_eq!(row2, vec![false, false, true, true]);
    assert_eq!(row3, vec![false, false, true, true]);
    assert_eq!(a.visited_pixels(0), vec![false; 4]);
    assert_eq!(a.visited_pixels(1), vec![false; 4]);
    // The fifth observation is the now-black start cell: the counter goes
    // back down and the agent turns counter-clockwise, to Left.
    let on_grid = a.step();
    assert!(on_grid);
    assert_eq!(a.path, vec![true, true, true, true, false]);
    assert_eq!(a.black_pixel_num, 3);
    assert!(matches!(a.direction, Direction::Left));
    assert_eq!(a.position, (2, 1));
}

#[test]
fn tiny_grid_run_matches_reference() {
    let mut a = Ant::with_size(4);
    a.run();
    // Hand-traced: the agent walks its square, re-enters the center, and
    // leaves the grid downward off (3, 0) after exactly 20 steps with 6
    // cells left black.
    assert_eq!(a.path.len(), 20);
    assert_eq!(a.black_pixel_num, 6);
    let r = ref_run(4, None);
    assert_eq!(a.path, r.history);
    assert_eq!(a.black_pixel_num as isize, r.black);
    for row in 0..4 {
        assert_eq!(a.visited_pixels(row), r.visited[row]);
    }
    // The agent must have left the grid.
    assert!(a.position.0 >= 4 || a.position.1 >= 4);
}

#[test]
fn counter_equals_independent_black_tally() {
    // After every prefix of the run, the running counter equals the number
    // of black cells an explicit grid ends up with.
    let size = 8;
    let full = ref_run(size, None);
    for steps in 1..=full.history.len() {
        let mut a = Ant::with_size(size);
        let mut on_grid = true;
        for _ in 0..steps {
            assert!(on_grid);
            on_grid = a.step();
        }
        let r = ref_run(size, Some(steps));
        let tally = r.grid.iter().flatten().filter(|b| **b).count();
        assert_eq!(a.black_pixel_num, tally);
        assert_eq!(a.black_pixel_num as isize, r.black);
    }
}

#[test]
fn visited_pixels_matches_history_footprint() {
    let size = 16;
    let mut a = Ant::with_size(size);
    a.run();
    let r = ref_run(size, None);
    for row in 0..size {
        let got = a.visited_pixels(row);
        assert_eq!(got.len(), size);
        for col in 0..size {
            assert_eq!(got[col], r.visited[row][col], "row {} col {}", row, col);
        }
    }
}

#[test]
fn runs_are_deterministic() {
    let mut a = Ant::with_size(32);
    let mut b = Ant::with_size(32);
    a.run();
    b.run();
    assert_eq!(a.path, b.path);
    assert_eq!(a.black_pixel_num, b.black_pixel_num);
    assert_eq!(a.position, b.position);
    assert_eq!(a.to_png_bytes(), b.to_png_bytes());
}

#[test]
fn row_bytes_exact_values() {
    let mut a = Ant::with_size(8);
    a.step();
    // Only (4, 4) was occupied: row 4 has bit 3 (counting from the most
    // significant) cleared, 0b1111_0111; all other rows stay fully white.
    assert_eq!(a.row_bytes(4), vec![0xF7]);
    for row in [0, 1, 2, 3, 5, 6, 7] {
        assert_eq!(a.row_bytes(row), vec![0xFF]);
    }
}

#[test]
fn png_round_trip_reproduces_the_footprint() {
    let size = 16;
    let mut a = Ant::with_size(size);
    a.run();
    let bytes = a.to_png_bytes();
    let decoder = png::Decoder::new(std::io::Cursor::new(&bytes[..]));
    let mut reader = decoder.read_info().unwrap();
    let mut buf = vec![0u8; reader.output_buffer_size().unwrap()];
    let info = reader.next_frame(&mut buf).unwrap();
    assert_eq!(info.width, size as u32);
    assert_eq!(info.height, size as u32);
    assert!(matches!(info.bit_depth, png::BitDepth::One));
    assert!(matches!(info.color_type, png::ColorType::Grayscale));
    assert_eq!(info.line_size, size / 8);
    let r = ref_run(size, None);
    for row in 0..size {
        for col in 0..size {
            let byte = buf[row * (size / 8) + col / 8];
            let bit = (byte >> (7 - col % 8)) & 1;
            // Bit 1 = white = never visited; bit 0 = black = visited.
            assert_eq!(bit == 0, r.visited[row][col], "row {} col {}", row, col);
        }
    }
}
